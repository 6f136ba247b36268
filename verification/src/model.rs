use crate::candidates::Board;
use crate::game::Puzzle;
use crate::nogoods::found_in;
use crate::sorting::ascending;
use vstd::prelude::*;

verus! {

impl Puzzle {
    /// Some marker of `p` stands on a corner of the cell.
    pub open spec fn cornered(self, p: Seq<usize>, idx: int) -> bool {
        exists|i: int| 0 <= i < p.len() && self.diagonal(#[trigger] p[i] as int, idx)
    }

    /// How many markers of `p` stand on a corner of the cell.
    pub open spec fn corner_count(self, p: Seq<usize>, idx: int) -> nat
        decreases p.len(),
    {
        if p.len() == 0 {
            0
        } else if self.diagonal(p.last() as int, idx) {
            self.corner_count(p.drop_last(), idx) + 1
        } else {
            self.corner_count(p.drop_last(), idx)
        }
    }
}

/// The board once the markers of `p` are placed.
pub open spec fn board_after(game: Puzzle, p: Seq<usize>) -> Board {
    Board {
        rows: Set::new(|r: int| game.row_taken(p, r)),
        cols: Set::new(|c: int| game.col_taken(p, c)),
        colors: Set::new(|k: int| game.color_taken(p, k)),
        blocked: Set::new(|idx: int| 0 <= idx < game.cells() && game.cornered(p, idx)),
    }
}

/// The cells to try after the markers of `p`, in the order to try them.
pub open spec fn moves(game: Puzzle, p: Seq<usize>) -> Seq<usize> {
    board_after(game, p).ranked(game)
}

/// The outcome of the depth-first search that starts from the markers of `p`:
/// `p` itself where it is complete; otherwise the outcome of the first move, in
/// ranked order, from which the search succeeds; nothing where there is none.
pub open spec fn search_from(game: Puzzle, p: Seq<usize>) -> Option<Seq<usize>>
    decreases game.rows - p.len(), moves(game, p).len() + 1,
{
    if game.is_complete(p) {
        Some(p)
    } else if p.len() >= game.rows {
        None
    } else {
        try_moves(game, p, 0)
    }
}

/// The outcome of the search from `p` when the moves before the `k`-th have
/// failed.
pub open spec fn try_moves(game: Puzzle, p: Seq<usize>, k: int) -> Option<Seq<usize>>
    decreases game.rows - p.len(), moves(game, p).len() - k,
{
    if p.len() >= game.rows || k < 0 || k >= moves(game, p).len() {
        None
    } else {
        match search_from(game, p.push(moves(game, p)[k])) {
            Some(full) => Some(full),
            None => try_moves(game, p, k + 1),
        }
    }
}

/// The answer of the solver: the markers that the search from the empty board
/// ends with, and no marker where it fails.
pub open spec fn first_solution(game: Puzzle) -> Seq<usize> {
    match search_from(game, Seq::empty()) {
        Some(full) => full,
        None => Seq::empty(),
    }
}

/// What a search with a cache of dead ends leaves behind: the answer, if it
/// found one, and the cache with what the search has added.
pub struct Explored {
    pub found: Option<Seq<usize>>,
    pub cache: Set<Seq<usize>>,
}

/// The search from the markers of `p` with a cache: as `search_from`, but a
/// move for which the cache answers yes is passed over, every search that fails
/// records the markers it started from, and the cache goes from one move to the
/// next.
pub open spec fn explore(game: Puzzle, p: Seq<usize>, cache: Set<Seq<usize>>) -> Explored
    decreases game.rows - p.len(), moves(game, p).len() + 1,
{
    if game.is_complete(p) {
        Explored { found: Some(p), cache }
    } else if p.len() >= game.rows {
        Explored { found: None, cache: cache.insert(ascending(p)) }
    } else {
        explore_moves(game, p, 0, cache)
    }
}

/// The search with a cache from `p` when the moves before the `k`-th have
/// failed or were passed over.
pub open spec fn explore_moves(
    game: Puzzle,
    p: Seq<usize>,
    k: int,
    cache: Set<Seq<usize>>,
) -> Explored
    decreases game.rows - p.len(), moves(game, p).len() - k,
{
    if p.len() >= game.rows || k < 0 || k >= moves(game, p).len() {
        Explored { found: None, cache: cache.insert(ascending(p)) }
    } else {
        let next = p.push(moves(game, p)[k]);
        if found_in(cache, next) {
            explore_moves(game, p, k + 1, cache)
        } else {
            let below = explore(game, next, cache);
            if below.found is Some {
                below
            } else {
                explore_moves(game, p, k + 1, below.cache)
            }
        }
    }
}

} // verus!
