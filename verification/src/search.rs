use crate::adjacency::{corners, lemma_corners, AdjacentsLookup};
use crate::candidates::{board_of, get_candidates};
use crate::game::{Game, Puzzle};
use crate::grid::lemma_cell_split;
use crate::laws::{dead_ends, lemma_cache_changes_nothing, lemma_search_complete, lemma_search_sound};
use crate::model::{board_after, explore, explore_moves, first_solution, moves, search_from};
use crate::nogoods::NoGoods;
use crate::tracker::UsedTracker;
use vstd::prelude::*;

verus! {

/// The tracker and the counters say what the markers of `p` have taken: the
/// rows, columns and regions that hold one of them are marked and no others,
/// and each counter tells how many of them stand on a corner of its cell.
pub open spec fn in_step(
    game: Puzzle,
    used: &UsedTracker,
    adj_lookup: &AdjacentsLookup,
    p: Seq<usize>,
) -> bool {
    &&& used.tracks(game.rows, game.cols, game.regions)
    &&& forall|r: int|
        #![trigger used.has_row(r)]
        #![trigger game.row_taken(p, r)]
        used.has_row(r) == game.row_taken(p, r)
    &&& forall|c: int|
        #![trigger used.has_col(c)]
        #![trigger game.col_taken(p, c)]
        used.has_col(c) == game.col_taken(p, c)
    &&& forall|k: int|
        #![trigger used.has_color(k)]
        #![trigger game.color_taken(p, k)]
        used.has_color(k) == game.color_taken(p, k)
    &&& adj_lookup.covers(game.rows, game.cols)
    &&& forall|idx: int|
        0 <= idx < game.cells() ==> (#[trigger] adj_lookup.counts@[idx]) == game.corner_count(
            p,
            idx,
        )
}

/// A tracker and counters in step with `p` describe the board after `p`.
pub proof fn lemma_in_step_board(
    game: Puzzle,
    used: &UsedTracker,
    adj_lookup: &AdjacentsLookup,
    p: Seq<usize>,
)
    requires
        game.well_formed(),
        game.is_placement(p),
        in_step(game, used, adj_lookup, p),
    ensures
        board_of(used, adj_lookup) == board_after(game, p),
        used.all_required() == game.is_complete(p),
{
    let now = board_of(used, adj_lookup);
    let then = board_after(game, p);
    assert(now.rows =~= then.rows);
    assert(now.cols =~= then.cols);
    assert(now.colors =~= then.colors);
    assert(now.blocked =~= then.blocked) by {
        assert forall|idx: int| now.blocked.contains(idx) == then.blocked.contains(idx) by {
            game.lemma_corner_count(p, idx);
        }
    }
    used.lemma_all_required(game.rows, game.cols, game.regions);
}

/// Searches depth first for a full answer that starts with the markers in
/// `solution`, passing over the moves that the cache knows for dead ends. On
/// success `solution` holds the answer; on failure everything but the cache is
/// as it was. Either way the cache has learnt the dead ends that the search
/// met, and the outcome is that of the search without a cache.
pub fn solve_backtracking(
    game: &Game,
    used: &mut UsedTracker,
    adj_lookup: &mut AdjacentsLookup,
    nogoods: &mut NoGoods,
    solution: &mut Vec<usize>,
) -> (found: bool)
    requires
        game@.well_formed(),
        game@.is_placement(old(solution)@),
        in_step(game@, old(used), old(adj_lookup), old(solution)@),
        dead_ends(game@, old(nogoods)@),
    ensures
        found == explore(game@, old(solution)@, old(nogoods)@).found.is_some(),
        found ==> explore(game@, old(solution)@, old(nogoods)@).found == Some(final(solution)@),
        !found ==> final(solution)@ == old(solution)@,
        final(nogoods)@ == explore(game@, old(solution)@, old(nogoods)@).cache,
        in_step(game@, final(used), final(adj_lookup), final(solution)@),
        explore(game@, old(solution)@, old(nogoods)@).found == search_from(game@, old(solution)@),
        dead_ends(game@, final(nogoods)@),
        old(nogoods)@.subset_of(final(nogoods)@),
    decreases game@.rows - old(solution)@.len(),
{
    let ghost p = solution@;
    let ghost start = nogoods@;
    proof {
        lemma_in_step_board(game@, used, adj_lookup, p);
        lemma_cache_changes_nothing(game@, p, start);
        game@.lemma_cells_fit();
    }
    if used.is_solved() {
        return true;
    }
    let candidates = get_candidates(game, used, adj_lookup);
    let mut k: usize = 0;
    while k < candidates.len()
        invariant
            game@.well_formed(),
            game@.is_placement(p),
            !game@.is_complete(p),
            p == old(solution)@,
            solution@ == p,
            candidates@ == moves(game@, p),
            k <= candidates@.len(),
            in_step(game@, used, adj_lookup, p),
            dead_ends(game@, nogoods@),
            start == old(nogoods)@,
            explore(game@, p, start).found == search_from(game@, p),
            start.subset_of(explore(game@, p, start).cache),
            explore(game@, p, start) == explore_moves(game@, p, k as int, nogoods@),
        decreases candidates@.len() - k,
    {
        let idx = candidates[k];
        let ghost next = p.push(idx);
        proof {
            game@.lemma_cells_fit();
            game@.lemma_moves_open(p, k as int);
            game@.lemma_push_open(p, idx);
            game@.lemma_after_push(p, idx);
            lemma_cell_split(game@.rows, game@.cols, idx as int);
            game@.lemma_row_free(p, game@.row_of(idx as int));
            adj_lookup.lemma_covers_sound(game@.rows, game@.cols);
            lemma_corners(game@.rows, game@.cols, idx as int);
        }
        let row = idx / game.cols;
        let col = idx % game.cols;
        let color = game.idx_to_color[idx];

        // No goods optimization.
        solution.push(idx);
        let probe = solution.clone();
        assert(probe@ =~= next);
        if nogoods.search(probe) {
            solution.pop();
            assert(solution@ =~= p);
        } else {
            // Put a marker on this cell.
            let ghost near = corners(game@.rows, game@.cols, idx as int);
            let ghost before = *adj_lookup;
            proof {
                assert(before.adjacents@[idx as int]@ == near);
                assert forall|t: int| 0 <= t < near.len() implies before.counts@[(
                #[trigger] near[t]) as int] < usize::MAX by {
                    game@.lemma_corner_count(p, near[t] as int);
                }
            }
            used.set(row, col, color, true);
            adj_lookup.commit(idx);
            proof {
                assert forall|cell: int| 0 <= cell < game@.cells() implies (
                #[trigger] adj_lookup.counts@[cell]) == game@.corner_count(next, cell) by {
                    let at = cell as usize;
                    assert(adj_lookup.counts@[at as int] == before.counts@[at as int] + (
                    if near.contains(at) {
                        1int
                    } else {
                        0int
                    }));
                    assert(near.contains(at) <==> game@.diagonal(idx as int, cell));
                }
            }
            if solve_backtracking(game, used, adj_lookup, nogoods, solution) {
                return true;
            }
            // Backtrack and continue.
            let ghost after = *adj_lookup;
            proof {
                after.lemma_covers_sound(game@.rows, game@.cols);
                assert(after.adjacents@[idx as int]@ == near);
                assert forall|t: int| 0 <= t < near.len() implies after.counts@[(
                #[trigger] near[t]) as int] > 0 by {
                    assert(near.contains(near[t]));
                    assert(game@.diagonal(idx as int, near[t] as int));
                    assert(game@.corner_count(next, near[t] as int) == game@.corner_count(
                        p,
                        near[t] as int,
                    ) + 1);
                }
            }
            used.set(row, col, color, false);
            adj_lookup.uncommit(idx);
            solution.pop();
            proof {
                assert(solution@ =~= p);
                assert forall|cell: int| 0 <= cell < game@.cells() implies (
                #[trigger] adj_lookup.counts@[cell]) == game@.corner_count(p, cell) by {
                    let at = cell as usize;
                    assert(adj_lookup.counts@[at as int] == after.counts@[at as int] - (
                    if near.contains(at) {
                        1int
                    } else {
                        0int
                    }));
                    assert(near.contains(at) <==> game@.diagonal(idx as int, cell));
                    assert(game@.corner_count(next, cell) == game@.corner_count(p, cell) + (
                    if game@.diagonal(idx as int, cell) {
                        1int
                    } else {
                        0int
                    }));
                }
            }
        }
        k += 1;
    }

    // Add this combination of cells to the no goods cache.
    let record = solution.clone();
    assert(record@ =~= p);
    nogoods.insert(record);
    false
}

/// Solves the puzzle: returns the markers of the first full answer that the
/// ranked depth-first search meets, in the order placed, or no marker where
/// the puzzle has no answer.
pub fn solve(game: &Game) -> (solution: Vec<usize>)
    requires
        game@.well_formed(),
    ensures
        solution@ == first_solution(game@),
        solution@.len() > 0 ==> game@.is_solution(solution@),
        solution@.len() > 0 ==> solution@.len() == game@.rows && solution@.len() == game@.cols
            && solution@.len() == game@.regions,
        solution@.len() == 0 ==> forall|full: Seq<usize>| !game@.is_solution(full),
{
    proof {
        game@.lemma_cells_fit();
    }
    let mut used = UsedTracker::new(game.rows, game.cols, game.colors.len());
    let mut adj_lookup = AdjacentsLookup::new(game.rows, game.cols);
    let mut nogoods = NoGoods::new();
    let mut solution: Vec<usize> = vec![];
    proof {
        assert forall|idx: int| 0 <= idx < game@.cells() implies (
        #[trigger] adj_lookup.counts@[idx]) == game@.corner_count(solution@, idx) by {}
        lemma_search_sound(game@, solution@);
        assert forall|full: Seq<usize>|
            game@.is_solution(full) implies search_from(game@, solution@) is Some by {
            lemma_search_complete(game@, solution@, full);
        }
    }
    let found = solve_backtracking(game, &mut used, &mut adj_lookup, &mut nogoods, &mut solution);
    proof {
        if found {
            game@.lemma_solution_size(solution@);
        }
    }
    solution
}

} // verus!
