use crate::game::Game;
use crate::model::first_solution;
use crate::search::solve;
use vstd::prelude::*;

verus! {

/// The character of a decimal digit.
pub open spec fn digit(d: int) -> char {
    if d == 0 {
        '0'
    } else if d == 1 {
        '1'
    } else if d == 2 {
        '2'
    } else if d == 3 {
        '3'
    } else if d == 4 {
        '4'
    } else if d == 5 {
        '5'
    } else if d == 6 {
        '6'
    } else if d == 7 {
        '7'
    } else if d == 8 {
        '8'
    } else {
        '9'
    }
}

/// The decimal numeral of a number that is not negative: its digits from the
/// highest to the lowest, without leading zeros, and `0` for zero.
pub open spec fn decimal(n: int) -> Seq<char>
    decreases n,
{
    if n < 10 {
        seq![digit(n)]
    } else {
        decimal(n / 10).push(digit(n % 10))
    }
}

/// The numerals of the cell indices, in their order, with a comma between two
/// neighbours.
pub open spec fn joined(cells: Seq<usize>) -> Seq<char>
    decreases cells.len(),
{
    if cells.len() == 0 {
        Seq::<char>::empty()
    } else if cells.len() == 1 {
        decimal(cells[0] as int)
    } else {
        joined(cells.drop_last()) + seq![','] + decimal(cells.last() as int)
    }
}

/// A list of cell indices as a JSON array without white space.
pub open spec fn json_array(cells: Seq<usize>) -> Seq<char> {
    seq!['['] + joined(cells) + seq![']']
}

/// Calls `serde_json::to_string` on a list of cell indices. The contract
/// claims what the compact formatter of `serde_json` writes for a sequence of
/// unsigned integers: an opening bracket, the decimal numerals with a comma
/// before each but the first, a closing bracket. The call fails only where an
/// implementation of `Serialize` fails or a map has a key that is no string;
/// a list of integers has neither, so the result is taken out of the `Ok`.
#[verifier::external_body]
fn to_json(cells: &Vec<usize>) -> (text: String)
    ensures
        text@ == json_array(cells@),
{
    serde_json::to_string(cells).unwrap()
}

/// Solves the puzzle and returns the answer as the text of a JSON array: the
/// cell indices in the order placed, or `[]` where the puzzle has no answer.
pub fn solve_json(game: &Game) -> (text: String)
    requires
        game@.well_formed(),
    ensures
        text@ == json_array(first_solution(game@)),
{
    let solution = solve(game);
    to_json(&solution)
}

} // verus!
