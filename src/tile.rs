use vstd::prelude::*;

verus! {

/// A square grid of characters: `n >= 1` rows, each of `n` characters.
pub open spec fn is_square(cells: Seq<Seq<char>>) -> bool {
    &&& cells.len() >= 1
    &&& forall|r: int| 0 <= r < cells.len() ==> #[trigger] cells[r].len() == cells.len()
}

/// The first row of a grid.
pub open spec fn top_row(cells: Seq<Seq<char>>) -> Seq<char> {
    cells[0]
}

/// The last row of a grid.
pub open spec fn bottom_row(cells: Seq<Seq<char>>) -> Seq<char> {
    cells[cells.len() - 1]
}

/// The first column of a grid, read from top to bottom.
pub open spec fn left_column(cells: Seq<Seq<char>>) -> Seq<char> {
    Seq::new(cells.len(), |r: int| cells[r][0])
}

/// The last column of a grid, read from top to bottom.
pub open spec fn right_column(cells: Seq<Seq<char>>) -> Seq<char> {
    Seq::new(cells.len(), |r: int| cells[r][cells[r].len() - 1])
}

/// The eight border variants of a grid: each of its four edges, forwards and reversed.
pub open spec fn borders_of(cells: Seq<Seq<char>>) -> Seq<Seq<char>> {
    seq![
        top_row(cells),
        top_row(cells).reverse(),
        bottom_row(cells),
        bottom_row(cells).reverse(),
        left_column(cells),
        left_column(cells).reverse(),
        right_column(cells),
        right_column(cells).reverse(),
    ]
}

/// Two border lists share a border when some variant of one equals some variant of the other.
pub open spec fn shares_border(a: Seq<Seq<char>>, b: Seq<Seq<char>>) -> bool {
    exists|i: int, j: int| 0 <= i < a.len() && 0 <= j < b.len() && #[trigger] a[i] == #[trigger] b[j]
}

/// What a tile holds: its id, its grid, and the border variants derived from the grid.
pub struct TileModel {
    pub id: u16,
    pub cells: Seq<Seq<char>>,
    pub borders: Seq<Seq<char>>,
}

impl TileModel {
    pub open spec fn wf(self) -> bool {
        &&& is_square(self.cells)
        &&& self.borders == borders_of(self.cells)
    }
}

/// One square tile of the image, with its border variants computed once.
pub struct Tile {
    id: u16,
    cells: Vec<Vec<char>>,
    borders: Vec<Vec<char>>,
}

impl View for Tile {
    type V = TileModel;

    closed spec fn view(&self) -> TileModel {
        TileModel { id: self.id, cells: self.cells.deep_view(), borders: self.borders.deep_view() }
    }
}

pub(crate) fn copy_of(v: &Vec<char>) -> (r: Vec<char>)
    ensures
        r@ == v@,
{
    let mut r: Vec<char> = Vec::new();
    let mut i: usize = 0;
    while i < v.len()
        invariant
            i <= v@.len(),
            r@ == v@.subrange(0, i as int),
        decreases v@.len() - i,
    {
        r.push(v[i]);
        i = i + 1;
        assert(r@ =~= v@.subrange(0, i as int));
    }
    assert(r@ =~= v@);
    r
}

fn reversed(v: &Vec<char>) -> (r: Vec<char>)
    ensures
        r@ == v@.reverse(),
{
    let mut r: Vec<char> = Vec::new();
    let mut i: usize = v.len();
    while i > 0
        invariant
            i <= v@.len(),
            r@.len() == v@.len() - i,
            forall|k: int| 0 <= k < r@.len() ==> #[trigger] r@[k] == v@[v@.len() - 1 - k],
        decreases i,
    {
        i = i - 1;
        r.push(v[i]);
    }
    assert(r@ =~= v@.reverse());
    r
}

fn column(cells: &Vec<Vec<char>>, k: usize) -> (r: Vec<char>)
    requires
        forall|i: int| 0 <= i < cells@.len() ==> k < (#[trigger] cells@[i])@.len(),
    ensures
        r@ == Seq::new(cells@.len(), |i: int| cells@[i]@[k as int]),
{
    let mut r: Vec<char> = Vec::new();
    let mut i: usize = 0;
    while i < cells.len()
        invariant
            i <= cells@.len(),
            forall|j: int| 0 <= j < cells@.len() ==> k < (#[trigger] cells@[j])@.len(),
            r@ =~= Seq::new(i as nat, |j: int| cells@[j]@[k as int]),
        decreases cells@.len() - i,
    {
        r.push(cells[i][k]);
        i = i + 1;
    }
    r
}

impl Tile {
    #[verifier::type_invariant]
    spec fn inv(&self) -> bool {
        &&& self@.wf()
        &&& self.borders@.len() == 8
    }

    /// Builds a tile from its id and its square grid, deriving the eight border variants.
    pub fn new(id: u16, cells: Vec<Vec<char>>) -> (r: Tile)
        requires
            is_square(cells.deep_view()),
        ensures
            r@.id == id,
            r@.cells == cells.deep_view(),
            r@.borders == borders_of(r@.cells),
            r@.wf(),
    {
        let ghost g = cells.deep_view();
        let n = cells.len();
        assert(forall|i: int| 0 <= i < n ==> (#[trigger] cells@[i])@ == g[i]);
        let top = copy_of(&cells[0]);
        let rtop = reversed(&top);
        let bottom = copy_of(&cells[n - 1]);
        let rbottom = reversed(&bottom);
        let left = column(&cells, 0);
        let rleft = reversed(&left);
        let right = column(&cells, n - 1);
        let rright = reversed(&right);
        let borders = vec![top, rtop, bottom, rbottom, left, rleft, right, rright];
        proof {
            let d = borders.deep_view();
            assert(d[0] == top@ && d[1] == rtop@ && d[2] == bottom@ && d[3] == rbottom@);
            assert(d[4] == left@ && d[5] == rleft@ && d[6] == right@ && d[7] == rright@);
            assert(left@ =~= left_column(g));
            assert(right@ =~= right_column(g));
            assert(borders.deep_view() =~= borders_of(g));
        }
        Tile { id, cells, borders }
    }

    /// The tile's id.
    pub fn id(&self) -> (r: u16)
        ensures
            r == self@.id,
    {
        self.id
    }

    /// Whether any border variant of this tile equals any border variant of `other`.
    pub fn is_neighbour_of(&self, other: &Tile) -> (r: bool)
        ensures
            r == shares_border(self@.borders, other@.borders),
    {
        proof {
            use_type_invariant(self);
            use_type_invariant(other);
        }
        let mut i: usize = 0;
        while i < self.borders.len()
            invariant
                i <= self.borders@.len(),
                forall|a: int, b: int|
                    0 <= a < i && 0 <= b < other@.borders.len() ==> #[trigger] self@.borders[a]
                        != #[trigger] other@.borders[b],
            decreases self.borders@.len() - i,
        {
            let mut j: usize = 0;
            while j < other.borders.len()
                invariant
                    i < self.borders@.len(),
                    j <= other.borders@.len(),
                    forall|a: int, b: int|
                        0 <= a < i && 0 <= b < other@.borders.len() ==> #[trigger] self@.borders[a]
                            != #[trigger] other@.borders[b],
                    forall|b: int| 0 <= b < j ==> self@.borders[i as int] != #[trigger] other@.borders[b],
                decreases other.borders@.len() - j,
            {
                assert(self@.borders[i as int] == self.borders@[i as int]@);
                assert(other@.borders[j as int] == other.borders@[j as int]@);
                if same_chars(&self.borders[i], &other.borders[j]) {
                    assert(self@.borders[i as int] == other@.borders[j as int]);
                    return true;
                }
                j = j + 1;
            }
            i = i + 1;
        }
        false
    }
}

fn same_chars(a: &Vec<char>, b: &Vec<char>) -> (r: bool)
    ensures
        r == (a@ == b@),
{
    if a.len() != b.len() {
        return false;
    }
    let mut i: usize = 0;
    while i < a.len()
        invariant
            i <= a@.len(),
            a@.len() == b@.len(),
            forall|k: int| 0 <= k < i ==> a@[k] == b@[k],
        decreases a@.len() - i,
    {
        if a[i] != b[i] {
            return false;
        }
        i = i + 1;
    }
    assert(a@ =~= b@);
    true
}

/// Sharing a border is symmetric: `a` shares a variant with `b` exactly when `b` shares one with `a`.
pub proof fn lemma_shares_border_symmetric(a: Seq<Seq<char>>, b: Seq<Seq<char>>)
    ensures
        shares_border(a, b) == shares_border(b, a),
{
    if shares_border(a, b) {
        let (i, j) = choose|i: int, j: int|
            0 <= i < a.len() && 0 <= j < b.len() && #[trigger] a[i] == #[trigger] b[j];
        assert(b[j] == a[i]);
    }
    if shares_border(b, a) {
        let (j, i) = choose|j: int, i: int|
            0 <= j < b.len() && 0 <= i < a.len() && #[trigger] b[j] == #[trigger] a[i];
        assert(a[i] == b[j]);
    }
}

/// A square grid has exactly eight border variants, each as long as the grid's side.
pub proof fn lemma_border_count(cells: Seq<Seq<char>>)
    requires
        is_square(cells),
    ensures
        borders_of(cells).len() == 8,
        forall|k: int| 0 <= k < 8 ==> (#[trigger] borders_of(cells)[k]).len() == cells.len(),
{
    assert(cells[0].len() == cells.len());
    assert(cells[cells.len() - 1].len() == cells.len());
}

/// Each reversed variant is the character-reverse of the forward variant it follows.
pub proof fn lemma_reversed_variants(cells: Seq<Seq<char>>)
    requires
        is_square(cells),
    ensures
        forall|k: int|
            0 <= k < 4 ==> #[trigger] borders_of(cells)[2 * k + 1] == borders_of(cells)[2
                * k].reverse(),
{
    let b = borders_of(cells);
    assert forall|k: int| 0 <= k < 4 implies #[trigger] b[2 * k + 1] == b[2 * k].reverse() by {
        if k == 0 {
        } else if k == 1 {
        } else if k == 2 {
        } else {
        }
    }
}

} // verus!
