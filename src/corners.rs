use vstd::prelude::*;
use vstd::arithmetic::div_mod::lemma_mul_mod_noop_left;
use crate::tile::{shares_border, Tile, TileModel};

verus! {

/// The modulus of 64-bit unsigned arithmetic.
pub open spec fn u64_modulus() -> int {
    0x1_0000_0000_0000_0000
}

/// What each tile of a collection holds, in order.
pub open spec fn models(tiles: Seq<Tile>) -> Seq<TileModel> {
    tiles.map_values(|t: Tile| t@)
}

/// How many tiles among the first `k` of `ts`, leaving out position `skip`, share a border
/// with the border list `b`.
pub open spec fn count_sharing(b: Seq<Seq<char>>, ts: Seq<TileModel>, skip: int, k: int) -> nat
    decreases k,
{
    if k <= 0 {
        0
    } else {
        count_sharing(b, ts, skip, k - 1) + if k - 1 != skip && shares_border(
            b,
            ts[k - 1].borders,
        ) {
            1nat
        } else {
            0nat
        }
    }
}

/// How many other tiles of `ts` share a border with the tile at position `i`.
pub open spec fn neighbour_count(ts: Seq<TileModel>, i: int) -> nat {
    count_sharing(ts[i].borders, ts, i, ts.len() as int)
}

/// A corner is a tile with exactly two neighbours.
pub open spec fn is_corner(ts: Seq<TileModel>, i: int) -> bool {
    neighbour_count(ts, i) == 2
}

/// The product of the ids of the corners among the first `k` tiles.
pub open spec fn corner_id_product(ts: Seq<TileModel>, k: int) -> int
    decreases k,
{
    if k <= 0 {
        1
    } else {
        corner_id_product(ts, k - 1) * if is_corner(ts, k - 1) {
            ts[k - 1].id as int
        } else {
            1
        }
    }
}

/// The product of the ids of all corners, taken modulo 2^64.
pub open spec fn corner_product_of(ts: Seq<TileModel>) -> int {
    corner_id_product(ts, ts.len() as int) % u64_modulus()
}

/// Counts the tiles other than the one at position `i` that share a border with it.
pub fn count_neighbours(tiles: &Vec<Tile>, i: usize) -> (r: usize)
    requires
        i < tiles@.len(),
    ensures
        r == neighbour_count(models(tiles@), i as int),
{
    let ghost ts = models(tiles@);
    let mut c: usize = 0;
    let mut j: usize = 0;
    while j < tiles.len()
        invariant
            i < tiles@.len(),
            j <= tiles@.len(),
            ts == models(tiles@),
            c == count_sharing(ts[i as int].borders, ts, i as int, j as int),
            c <= j,
        decreases tiles@.len() - j,
    {
        if j != i && tiles[i].is_neighbour_of(&tiles[j]) {
            c = c + 1;
        }
        j = j + 1;
    }
    c
}

/// Multiplies together the ids of the tiles that have exactly two neighbours, wrapping at 2^64.
pub fn corner_product(tiles: &Vec<Tile>) -> (r: u64)
    ensures
        r as int == corner_product_of(models(tiles@)),
{
    let ghost ts = models(tiles@);
    let mut prod: u64 = 1;
    let mut i: usize = 0;
    while i < tiles.len()
        invariant
            i <= tiles@.len(),
            ts == models(tiles@),
            prod as int == corner_id_product(ts, i as int) % u64_modulus(),
        decreases tiles@.len() - i,
    {
        let c = count_neighbours(tiles, i);
        if c == 2 {
            let id = tiles[i].id();
            assert(prod as u128 * id as u128 <= 0xffff_ffff_ffff_ffffu128 * 0xffffu128)
                by (nonlinear_arith)
                requires
                    prod <= 0xffff_ffff_ffff_ffffu64,
                    id <= 0xffffu16,
            ;
            let wide: u128 = prod as u128 * id as u128;
            let next: u128 = wide % 0x1_0000_0000_0000_0000u128;
            proof {
                lemma_mul_mod_noop_left(corner_id_product(ts, i as int), id as int, u64_modulus());
            }
            prod = next as u64;
        }
        i = i + 1;
    }
    prod
}

proof fn lemma_count_without(b: Seq<Seq<char>>, ts: Seq<TileModel>, i: int, k: int)
    requires
        0 <= i < ts.len(),
        0 <= k <= ts.len(),
    ensures
        k <= i ==> count_sharing(b, ts, i, k) == count_sharing(b, ts.remove(i), -1, k),
        k > i ==> count_sharing(b, ts, i, k) == count_sharing(b, ts.remove(i), -1, k - 1),
    decreases k,
{
    if k > 0 {
        lemma_count_without(b, ts, i, k - 1);
        if k - 1 < i {
            assert(ts.remove(i)[k - 1] == ts[k - 1]);
        } else if k - 1 > i {
            assert(ts.remove(i)[k - 2] == ts[k - 1]);
        }
    }
}

proof fn lemma_count_with(b: Seq<Seq<char>>, ts: Seq<TileModel>, i: int, k: int)
    requires
        0 <= i < ts.len(),
        0 <= k <= ts.len(),
        shares_border(b, ts[i].borders),
    ensures
        count_sharing(b, ts, -1, k) == count_sharing(b, ts, i, k) + if k > i {
            1nat
        } else {
            0nat
        },
    decreases k,
{
    if k > 0 {
        lemma_count_with(b, ts, i, k - 1);
    }
}

/// The scan never counts a tile as its own neighbour: its count is what a scan of the
/// collection without it gives, and one less than a scan that includes it, since every tile
/// with a border shares that border with itself.
pub proof fn lemma_self_excluded(ts: Seq<TileModel>, i: int)
    requires
        0 <= i < ts.len(),
    ensures
        neighbour_count(ts, i) == count_sharing(ts[i].borders, ts.remove(i), -1, ts.len() - 1),
        ts[i].borders.len() > 0 ==> count_sharing(ts[i].borders, ts, -1, ts.len() as int)
            == neighbour_count(ts, i) + 1,
{
    let b = ts[i].borders;
    lemma_count_without(b, ts, i, ts.len() as int);
    if b.len() > 0 {
        assert(b[0] == b[0]);
        assert(shares_border(b, b));
        lemma_count_with(b, ts, i, ts.len() as int);
    }
}

/// The corner product is a function of the tiles alone: the same tiles give the same product.
pub proof fn lemma_corner_product_deterministic(a: Seq<TileModel>, b: Seq<TileModel>)
    requires
        a == b,
    ensures
        corner_product_of(a) == corner_product_of(b),
{
}

} // verus!
