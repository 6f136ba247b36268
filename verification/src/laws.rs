use crate::candidates::Line;
use crate::game::{Game, Puzzle};
use crate::grid::lemma_cell_split;
use crate::model::{
    board_after, explore, explore_moves, first_solution, moves, search_from, try_moves,
};
use crate::nogoods::found_in;
use crate::sorting::{ascending, by_index, by_score, lemma_orders_total, lemma_sort_keeps};
use vstd::prelude::*;
use vstd::set_lib::{lemma_int_range, lemma_len_subset, set_int_range};

verus! {

/// A list of `n` different numbers, all of them at least 0 and below `limit`
/// and none of them `missing`, is shorter than `limit`.
proof fn lemma_room_left(vals: Seq<int>, limit: int, missing: int)
    requires
        vals.no_duplicates(),
        0 <= missing < limit,
        forall|i: int| 0 <= i < vals.len() ==> 0 <= #[trigger] vals[i] < limit && vals[i] != missing,
    ensures
        vals.len() < limit,
{
    vals.unique_seq_to_set();
    lemma_int_range(0, limit);
    let all = set_int_range(0, limit).remove(missing);
    assert(vals.to_set().subset_of(all)) by {
        assert forall|v: int| vals.to_set().contains(v) implies all.contains(v) by {
            let i = choose|i: int| 0 <= i < vals.len() && vals[i] == v;
        }
    }
    lemma_len_subset(vals.to_set(), all);
}

/// A list of different numbers that holds every number from 0 up to `limit`,
/// and no other, has `limit` entries.
proof fn lemma_all_once(vals: Seq<int>, limit: int)
    requires
        vals.no_duplicates(),
        0 <= limit,
        forall|i: int| 0 <= i < vals.len() ==> 0 <= #[trigger] vals[i] < limit,
        forall|v: int| 0 <= v < limit ==> vals.contains(v),
    ensures
        vals.len() == limit,
{
    vals.unique_seq_to_set();
    lemma_int_range(0, limit);
    assert(vals.to_set() =~= set_int_range(0, limit)) by {
        assert forall|v: int| vals.to_set().contains(v) implies set_int_range(0, limit).contains(
            v,
        ) by {
            let i = choose|i: int| 0 <= i < vals.len() && vals[i] == v;
        }
    }
}

/// Every recorded set is a dead end: no full answer holds all its cells.
pub open spec fn dead_ends(game: Puzzle, recorded: Set<Seq<usize>>) -> bool {
    forall|cells: Seq<usize>| #[trigger] recorded.contains(cells) ==> !game.extendable(cells)
}

impl Puzzle {
    /// A placement with one more marker takes the rows, columns and regions that
    /// it took before and those of the new marker, and corners the cells that it
    /// cornered before and those that touch the new marker at a corner.
    pub proof fn lemma_after_push(self, p: Seq<usize>, idx: usize)
        ensures
            forall|r: int|
                #[trigger] self.row_taken(p.push(idx), r) == (self.row_taken(p, r) || self.row_of(
                    idx as int,
                ) == r),
            forall|c: int|
                #[trigger] self.col_taken(p.push(idx), c) == (self.col_taken(p, c) || self.col_of(
                    idx as int,
                ) == c),
            forall|k: int|
                #[trigger] self.color_taken(p.push(idx), k) == (self.color_taken(p, k)
                    || self.color_of(idx as int) == k),
            forall|cell: int|
                #[trigger] self.corner_count(p.push(idx), cell) == self.corner_count(p, cell) + (
                if self.diagonal(idx as int, cell) {
                    1int
                } else {
                    0int
                }),
    {
        let q = p.push(idx);
        assert(q.drop_last() =~= p);
        assert(q.last() == idx);
        assert forall|r: int|
            #[trigger] self.row_taken(q, r) == (self.row_taken(p, r) || self.row_of(idx as int)
                == r) by {
            if self.row_taken(p, r) {
                let i = choose|i: int| 0 <= i < p.len() && self.row_of(#[trigger] p[i] as int) == r;
                assert(self.row_of(q[i] as int) == r);
            }
            if self.row_of(idx as int) == r {
                assert(self.row_of(q[q.len() - 1] as int) == r);
            }
            if self.row_taken(q, r) {
                let i = choose|i: int| 0 <= i < q.len() && self.row_of(#[trigger] q[i] as int) == r;
                if i < p.len() {
                    assert(self.row_of(p[i] as int) == r);
                }
            }
        }
        assert forall|c: int|
            #[trigger] self.col_taken(q, c) == (self.col_taken(p, c) || self.col_of(idx as int)
                == c) by {
            if self.col_taken(p, c) {
                let i = choose|i: int| 0 <= i < p.len() && self.col_of(#[trigger] p[i] as int) == c;
                assert(self.col_of(q[i] as int) == c);
            }
            if self.col_of(idx as int) == c {
                assert(self.col_of(q[q.len() - 1] as int) == c);
            }
            if self.col_taken(q, c) {
                let i = choose|i: int| 0 <= i < q.len() && self.col_of(#[trigger] q[i] as int) == c;
                if i < p.len() {
                    assert(self.col_of(p[i] as int) == c);
                }
            }
        }
        assert forall|k: int|
            #[trigger] self.color_taken(q, k) == (self.color_taken(p, k) || self.color_of(
                idx as int,
            ) == k) by {
            if self.color_taken(p, k) {
                let i = choose|i: int|
                    0 <= i < p.len() && self.color_of(#[trigger] p[i] as int) == k;
                assert(self.color_of(q[i] as int) == k);
            }
            if self.color_of(idx as int) == k {
                assert(self.color_of(q[q.len() - 1] as int) == k);
            }
            if self.color_taken(q, k) {
                let i = choose|i: int|
                    0 <= i < q.len() && self.color_of(#[trigger] q[i] as int) == k;
                if i < p.len() {
                    assert(self.color_of(p[i] as int) == k);
                }
            }
        }
    }

    /// A cell is cornered exactly when its corner count is not zero, and the
    /// count is at most the number of markers.
    pub proof fn lemma_corner_count(self, p: Seq<usize>, idx: int)
        ensures
            self.corner_count(p, idx) <= p.len(),
            self.corner_count(p, idx) > 0 <==> self.cornered(p, idx),
        decreases p.len(),
    {
        if p.len() > 0 {
            let before = p.drop_last();
            self.lemma_corner_count(before, idx);
            if self.cornered(before, idx) {
                let i = choose|i: int|
                    0 <= i < before.len() && self.diagonal(#[trigger] before[i] as int, idx);
                assert(self.diagonal(p[i] as int, idx));
            }
            if self.diagonal(p.last() as int, idx) {
                assert(self.diagonal(p[p.len() - 1] as int, idx));
            }
            if self.cornered(p, idx) {
                let i = choose|i: int| 0 <= i < p.len() && self.diagonal(#[trigger] p[i] as int, idx);
                if i < p.len() - 1 {
                    assert(self.diagonal(before[i] as int, idx));
                }
            }
        }
    }

    /// Where a full answer holds every cell of `big`, and `big` holds every cell
    /// of `small`, `small` is no dead end.
    pub proof fn lemma_extendable_part(self, small: Seq<usize>, big: Seq<usize>)
        requires
            self.extendable(big),
            forall|i: int| 0 <= i < small.len() ==> big.contains(#[trigger] small[i]),
        ensures
            self.extendable(small),
    {
        let full = choose|full: Seq<usize>|
            #![trigger self.is_solution(full)]
            self.is_solution(full) && forall|i: int|
                0 <= i < big.len() ==> full.contains(#[trigger] big[i]);
        assert forall|i: int| 0 <= i < small.len() implies full.contains(#[trigger] small[i]) by {
            let t = choose|t: int| 0 <= t < big.len() && big[t] == small[i];
            assert(full.contains(big[t]));
        }
        assert(self.is_solution(full));
    }

    /// A cell is open after the markers of `p` exactly when it clashes with
    /// none of them.
    pub proof fn lemma_open_after(self, p: Seq<usize>, idx: int)
        requires
            0 <= idx < self.cells(),
        ensures
            board_after(self, p).open(self, idx) <==> forall|j: int|
                0 <= j < p.len() ==> !self.clash(#[trigger] p[j] as int, idx),
    {
        let board = board_after(self, p);
        if board.open(self, idx) {
            assert forall|j: int| 0 <= j < p.len() implies !self.clash(
                #[trigger] p[j] as int,
                idx,
            ) by {
                if self.clash(p[j] as int, idx) {
                    assert(self.row_taken(p, self.row_of(idx)) || self.col_taken(
                        p,
                        self.col_of(idx),
                    ) || self.color_taken(p, self.color_of(idx)) || self.cornered(p, idx));
                }
            }
        }
    }

    /// A placement with an open cell added is a placement.
    pub proof fn lemma_push_open(self, p: Seq<usize>, idx: usize)
        requires
            self.is_placement(p),
            board_after(self, p).open(self, idx as int),
        ensures
            self.is_placement(p.push(idx)),
    {
        self.lemma_open_after(p, idx as int);
        let q = p.push(idx);
        assert forall|i: int, j: int|
            0 <= i < q.len() && 0 <= j < q.len() && i != j implies !self.clash(
            #[trigger] q[i] as int,
            #[trigger] q[j] as int,
        ) by {
            if i < p.len() && j < p.len() {
                assert(!self.clash(p[i] as int, p[j] as int));
            } else if i < p.len() {
                assert(!self.clash(p[i] as int, idx as int));
            } else {
                assert(!self.clash(p[j] as int, idx as int));
            }
        }
    }

    /// A placement that leaves a row of the grid free has fewer markers than
    /// the grid has rows.
    pub proof fn lemma_row_free(self, p: Seq<usize>, r: int)
        requires
            self.well_formed(),
            self.is_placement(p),
            0 <= r < self.rows,
            !self.row_taken(p, r),
        ensures
            p.len() < self.rows,
    {
        let vals = Seq::new(p.len(), |i: int| self.row_of(p[i] as int));
        assert forall|i: int| 0 <= i < vals.len() implies 0 <= #[trigger] vals[i] < self.rows
            && vals[i] != r by {
            assert(p[i] < self.cells());
            lemma_cell_split(self.rows, self.cols, p[i] as int);
        }
        assert forall|i: int, j: int|
            0 <= i < vals.len() && 0 <= j < vals.len() && i != j implies vals[i] != vals[j] by {
            assert(!self.clash(p[i] as int, p[j] as int));
        }
        lemma_room_left(vals, self.rows, r);
    }

    /// A full answer has as many markers as the grid has rows, as it has
    /// columns, and as there are regions.
    pub proof fn lemma_solution_size(self, full: Seq<usize>)
        requires
            self.well_formed(),
            self.is_solution(full),
        ensures
            full.len() == self.rows,
            full.len() == self.cols,
            full.len() == self.regions,
    {
        assert forall|i: int| 0 <= i < full.len() implies 0 <= self.row_of(
            #[trigger] full[i] as int,
        ) < self.rows && 0 <= self.col_of(full[i] as int) < self.cols && 0 <= self.color_of(
            full[i] as int,
        ) < self.regions by {
            assert(full[i] < self.cells());
            lemma_cell_split(self.rows, self.cols, full[i] as int);
        }
        let rows = Seq::new(full.len(), |i: int| self.row_of(full[i] as int));
        let cols = Seq::new(full.len(), |i: int| self.col_of(full[i] as int));
        let colors = Seq::new(full.len(), |i: int| self.color_of(full[i] as int));
        assert forall|i: int, j: int| 0 <= i < full.len() && 0 <= j < full.len() && i != j implies {
            &&& rows[i] != rows[j]
            &&& cols[i] != cols[j]
            &&& colors[i] != colors[j]
        } by {
            assert(!self.clash(full[i] as int, full[j] as int));
        }
        assert forall|v: int| 0 <= v < self.rows implies rows.contains(v) by {
            assert(self.row_taken(full, v));
            let i = choose|i: int| 0 <= i < full.len() && self.row_of(#[trigger] full[i] as int) == v;
            assert(rows[i] == v);
        }
        assert forall|v: int| 0 <= v < self.cols implies cols.contains(v) by {
            assert(self.col_taken(full, v));
            let i = choose|i: int| 0 <= i < full.len() && self.col_of(#[trigger] full[i] as int) == v;
            assert(cols[i] == v);
        }
        assert forall|v: int| 0 <= v < self.regions implies colors.contains(v) by {
            assert(self.color_taken(full, v));
            let i = choose|i: int|
                0 <= i < full.len() && self.color_of(#[trigger] full[i] as int) == v;
            assert(colors[i] == v);
        }
        lemma_all_once(rows, self.rows);
        lemma_all_once(cols, self.cols);
        lemma_all_once(colors, self.regions);
    }

    /// Every move is a cell that is open after the markers of `p`.
    pub proof fn lemma_moves_open(self, p: Seq<usize>, k: int)
        requires
            self.well_formed(),
            0 <= k < moves(self, p).len(),
        ensures
            board_after(self, p).open(self, moves(self, p)[k] as int),
    {
        let board = board_after(self, p);
        let open = board.open_cells(self, self.cells());
        let leq = by_score(board.scores(self));
        lemma_orders_total(board.scores(self));
        lemma_sort_keeps(open, leq);
        self.lemma_cells_fit();
        board.lemma_open_cells(self, self.cells());
        let idx = moves(self, p)[k];
        assert(open.sort_by(leq).contains(idx));
        assert(open.contains(idx));
        let t = choose|t: int| 0 <= t < open.len() && open[t] == idx;
        assert(board.open(self, open[t] as int));
    }

    /// Where no line is starved, every open cell is a move.
    pub proof fn lemma_open_is_move(self, p: Seq<usize>, idx: int)
        requires
            self.well_formed(),
            !board_after(self, p).starved(self),
            board_after(self, p).open(self, idx),
        ensures
            moves(self, p).contains(idx as usize),
    {
        let board = board_after(self, p);
        let open = board.open_cells(self, self.cells());
        let leq = by_score(board.scores(self));
        lemma_orders_total(board.scores(self));
        lemma_sort_keeps(open, leq);
        self.lemma_cells_fit();
        board.lemma_open_cells(self, self.cells());
        assert(open.contains(idx as usize));
    }

    /// The grid of an accepted puzzle has at most 4096 cells.
    pub proof fn lemma_cells_fit(self)
        requires
            self.well_formed(),
        ensures
            0 < self.cells() <= 4096,
    {
        assert(0 < self.rows * self.cols <= 4096) by (nonlinear_arith)
            requires
                1 <= self.rows <= 64,
                1 <= self.cols <= 64,
        ;
    }

    /// A marker of a full answer that shares no row, column or region with the
    /// markers of `p`, all of which the answer holds, stands on an open cell.
    proof fn lemma_free_cell(self, p: Seq<usize>, full: Seq<usize>, j: int)
        requires
            self.is_solution(full),
            forall|i: int| 0 <= i < p.len() ==> full.contains(#[trigger] p[i]),
            0 <= j < full.len(),
            forall|i: int| 0 <= i < p.len() ==> #[trigger] p[i] != full[j],
        ensures
            board_after(self, p).open(self, full[j] as int),
    {
        self.lemma_open_after(p, full[j] as int);
        assert forall|i: int| 0 <= i < p.len() implies !self.clash(
            #[trigger] p[i] as int,
            full[j] as int,
        ) by {
            assert(full.contains(p[i]));
            let t = choose|t: int| 0 <= t < full.len() && full[t] == p[i];
            assert(!self.clash(full[t] as int, full[j] as int));
        }
    }

    /// On a line of the grid that holds no marker of `p`, a full answer that
    /// holds the markers of `p` has a marker on an open cell.
    proof fn lemma_line_served(self, p: Seq<usize>, full: Seq<usize>, line: Line) -> (j: int)
        requires
            self.is_solution(full),
            forall|i: int| 0 <= i < p.len() ==> full.contains(#[trigger] p[i]),
            self.has_line(line),
            !board_after(self, p).used(line),
        ensures
            0 <= j < full.len(),
            self.on_line(line, full[j] as int),
            board_after(self, p).open(self, full[j] as int),
    {
        let j = match line {
            Line::Row(r) => {
                assert(self.row_taken(full, r));
                choose|j: int| 0 <= j < full.len() && self.row_of(#[trigger] full[j] as int) == r
            },
            Line::Col(c) => {
                assert(self.col_taken(full, c));
                choose|j: int| 0 <= j < full.len() && self.col_of(#[trigger] full[j] as int) == c
            },
            Line::Region(k) => {
                assert(self.color_taken(full, k));
                choose|j: int| 0 <= j < full.len() && self.color_of(#[trigger] full[j] as int) == k
            },
        };
        assert forall|i: int| 0 <= i < p.len() implies #[trigger] p[i] != full[j] by {
            if p[i] == full[j] {
                match line {
                    Line::Row(r) => {
                        assert(self.row_taken(p, r));
                    },
                    Line::Col(c) => {
                        assert(self.col_taken(p, c));
                    },
                    Line::Region(k) => {
                        assert(self.color_taken(p, k));
                    },
                }
            }
        }
        self.lemma_free_cell(p, full, j);
        j
    }
}

/// What the search returns is a full answer that starts with the markers it
/// started from.
pub proof fn lemma_search_sound(game: Puzzle, p: Seq<usize>)
    requires
        game.well_formed(),
        game.is_placement(p),
    ensures
        search_from(game, p) matches Some(full) ==> game.is_solution(full) && p.is_prefix_of(full),
    decreases game.rows - p.len(), moves(game, p).len() + 1,
{
    if !game.is_complete(p) && p.len() < game.rows {
        lemma_try_sound(game, p, 0);
    }
}

/// What the search returns from the `k`-th move on is a full answer that starts
/// with the markers it started from.
pub proof fn lemma_try_sound(game: Puzzle, p: Seq<usize>, k: int)
    requires
        game.well_formed(),
        game.is_placement(p),
        0 <= k,
    ensures
        try_moves(game, p, k) matches Some(full) ==> game.is_solution(full) && p.is_prefix_of(full),
    decreases game.rows - p.len(), moves(game, p).len() - k,
{
    if p.len() < game.rows && k < moves(game, p).len() {
        let idx = moves(game, p)[k];
        let next = p.push(idx);
        game.lemma_moves_open(p, k);
        game.lemma_push_open(p, idx);
        lemma_search_sound(game, next);
        match search_from(game, next) {
            Some(full) => {
                assert(p =~= full.subrange(0, p.len() as int)) by {
                    assert(next =~= full.subrange(0, next.len() as int));
                    assert forall|i: int| 0 <= i < p.len() implies p[i] == full[i] by {
                        assert(next[i] == p[i]);
                    }
                }
            },
            None => {
                lemma_try_sound(game, p, k + 1);
            },
        }
    }
}

/// Where the search succeeds from some move at or after the `from`-th, it
/// succeeds from the `from`-th move on.
proof fn lemma_try_finds(game: Puzzle, p: Seq<usize>, from: int, k: int)
    requires
        p.len() < game.rows,
        0 <= from <= k < moves(game, p).len(),
        search_from(game, p.push(moves(game, p)[k])) is Some,
    ensures
        try_moves(game, p, from) is Some,
    decreases k - from,
{
    if from < k {
        lemma_try_finds(game, p, from + 1, k);
    }
}

/// The search succeeds from every placement that some full answer holds.
pub proof fn lemma_search_complete(game: Puzzle, p: Seq<usize>, full: Seq<usize>)
    requires
        game.well_formed(),
        game.is_placement(p),
        game.is_solution(full),
        forall|i: int| 0 <= i < p.len() ==> full.contains(#[trigger] p[i]),
    ensures
        search_from(game, p) is Some,
    decreases game.rows - p.len(),
{
    if !game.is_complete(p) {
        let board = board_after(game, p);
        let line = if exists|r: int| 0 <= r < game.rows && !game.row_taken(p, r) {
            Line::Row(choose|r: int| 0 <= r < game.rows && !game.row_taken(p, r))
        } else if exists|c: int| 0 <= c < game.cols && !game.col_taken(p, c) {
            Line::Col(choose|c: int| 0 <= c < game.cols && !game.col_taken(p, c))
        } else {
            Line::Region(choose|k: int| 0 <= k < game.regions && !game.color_taken(p, k))
        };
        assert(game.has_line(line) && !board.used(line));
        let j = game.lemma_line_served(p, full, line);
        let idx = full[j];
        lemma_cell_split(game.rows, game.cols, idx as int);
        game.lemma_row_free(p, game.row_of(idx as int));
        assert(!board.starved(game)) by {
            if board.starved(game) {
                let hungry = choose|hungry: Line|
                    game.has_line(hungry) && !board.used(hungry) && #[trigger] board.spots(
                        game,
                        hungry,
                    ) == 0;
                let t = game.lemma_line_served(p, full, hungry);
                board.lemma_spots_among(game, hungry, game.cells());
                assert(board.open(game, full[t] as int) && game.on_line(hungry, full[t] as int));
            }
        }
        game.lemma_open_is_move(p, idx as int);
        let k = choose|k: int| 0 <= k < moves(game, p).len() && moves(game, p)[k] == idx;
        let next = p.push(idx);
        game.lemma_push_open(p, idx);
        assert forall|i: int| 0 <= i < next.len() implies full.contains(#[trigger] next[i]) by {
            if i < p.len() {
                assert(next[i] == p[i]);
            }
        }
        lemma_search_complete(game, next, full);
        lemma_try_finds(game, p, 0, k);
    }
}

/// A lookup that answers yes, in a cache of dead ends, names a dead end.
pub proof fn lemma_hit_dead(game: Puzzle, cache: Set<Seq<usize>>, query: Seq<usize>)
    requires
        dead_ends(game, cache),
        found_in(cache, query),
    ensures
        !game.extendable(query),
{
    let k = choose|k: int|
        1 <= k <= query.len() && #[trigger] cache.contains(ascending(query).take(k));
    let part = ascending(query).take(k);
    lemma_orders_total(Seq::empty());
    lemma_sort_keeps(query, by_index());
    if game.extendable(query) {
        assert forall|i: int| 0 <= i < part.len() implies query.contains(#[trigger] part[i]) by {
            assert(ascending(query)[i] == part[i]);
            assert(ascending(query).contains(part[i]));
        }
        game.lemma_extendable_part(part, query);
    }
}

/// The cache passes over nothing but failures: from a placement for which a
/// cache of dead ends answers yes, the search without a cache finds nothing.
pub proof fn lemma_cache_skips_only_failures(game: Puzzle, cache: Set<Seq<usize>>, p: Seq<usize>)
    requires
        game.well_formed(),
        game.is_placement(p),
        dead_ends(game, cache),
        found_in(cache, p),
    ensures
        search_from(game, p) is None,
{
    lemma_hit_dead(game, cache, p);
    lemma_search_sound(game, p);
    if let Some(full) = search_from(game, p) {
        assert forall|i: int| 0 <= i < p.len() implies full.contains(#[trigger] p[i]) by {
            assert(full.subrange(0, p.len() as int)[i] == full[i]);
        }
        assert(game.is_solution(full));
    }
}

/// A placement from which the search finds nothing is a dead end.
pub proof fn lemma_failure_is_dead(game: Puzzle, p: Seq<usize>)
    requires
        game.well_formed(),
        game.is_placement(p),
        search_from(game, p) is None,
    ensures
        !game.extendable(p),
        !game.extendable(ascending(p)),
{
    lemma_orders_total(Seq::empty());
    lemma_sort_keeps(p, by_index());
    assert forall|i: int| 0 <= i < p.len() implies ascending(p).contains(#[trigger] p[i]) by {
        assert(p.contains(p[i]));
    }
    if game.extendable(ascending(p)) {
        game.lemma_extendable_part(p, ascending(p));
    }
    if game.extendable(p) {
        let full = choose|full: Seq<usize>|
            #![trigger game.is_solution(full)]
            game.is_solution(full) && forall|i: int|
                0 <= i < p.len() ==> full.contains(#[trigger] p[i]);
        lemma_search_complete(game, p, full);
    }
}

/// The cache changes no outcome: started with a cache of dead ends, the search
/// with the cache finds what the search without a cache finds, and ends with a
/// cache of dead ends that has lost nothing.
pub proof fn lemma_cache_changes_nothing(game: Puzzle, p: Seq<usize>, cache: Set<Seq<usize>>)
    requires
        game.well_formed(),
        game.is_placement(p),
        dead_ends(game, cache),
    ensures
        explore(game, p, cache).found == search_from(game, p),
        dead_ends(game, explore(game, p, cache).cache),
        cache.subset_of(explore(game, p, cache).cache),
    decreases game.rows - p.len(), moves(game, p).len() + 1,
{
    if game.is_complete(p) {
    } else if p.len() >= game.rows {
        lemma_failure_is_dead(game, p);
    } else {
        lemma_cache_changes_no_move(game, p, 0, cache);
    }
}

/// The cache changes no outcome of the moves from the `k`-th on.
pub proof fn lemma_cache_changes_no_move(
    game: Puzzle,
    p: Seq<usize>,
    k: int,
    cache: Set<Seq<usize>>,
)
    requires
        game.well_formed(),
        game.is_placement(p),
        dead_ends(game, cache),
        !game.is_complete(p),
        0 <= k,
        search_from(game, p) == try_moves(game, p, k),
    ensures
        explore_moves(game, p, k, cache).found == try_moves(game, p, k),
        dead_ends(game, explore_moves(game, p, k, cache).cache),
        cache.subset_of(explore_moves(game, p, k, cache).cache),
    decreases game.rows - p.len(), moves(game, p).len() - k,
{
    if p.len() >= game.rows || k >= moves(game, p).len() {
        lemma_failure_is_dead(game, p);
    } else {
        let idx = moves(game, p)[k];
        let next = p.push(idx);
        game.lemma_moves_open(p, k);
        game.lemma_push_open(p, idx);
        if found_in(cache, next) {
            lemma_cache_skips_only_failures(game, cache, next);
            lemma_cache_changes_no_move(game, p, k + 1, cache);
        } else {
            lemma_cache_changes_nothing(game, next, cache);
            let below = explore(game, next, cache);
            if below.found is None {
                lemma_cache_changes_no_move(game, p, k + 1, below.cache);
            }
        }
    }
}

/// The answer of the solver, where it holds any marker, is a full answer: it
/// has one marker for each row, each column and each region, no two of its
/// markers share a row, a column or a region, and no two touch at a corner.
pub proof fn lemma_answer_keeps_rules(game: Puzzle)
    requires
        game.well_formed(),
        first_solution(game).len() > 0,
    ensures
        game.is_solution(first_solution(game)),
        first_solution(game).len() == game.rows,
        first_solution(game).len() == game.cols,
        first_solution(game).len() == game.regions,
        forall|i: int, j: int|
            #![trigger first_solution(game)[i], first_solution(game)[j]]
            0 <= i < j < first_solution(game).len() ==> {
                let a = first_solution(game)[i] as int;
                let b = first_solution(game)[j] as int;
                &&& game.row_of(a) != game.row_of(b)
                &&& game.col_of(a) != game.col_of(b)
                &&& game.color_of(a) != game.color_of(b)
                &&& !game.diagonal(a, b)
            },
{
    let answer = first_solution(game);
    lemma_search_sound(game, Seq::empty());
    game.lemma_solution_size(answer);
    assert forall|i: int, j: int|
        #![trigger answer[i], answer[j]]
        0 <= i < j < answer.len() implies !game.clash(answer[i] as int, answer[j] as int) by {}
}

/// The solver gives up on no puzzle that has an answer: where its answer holds
/// no marker, no placement at all is a full answer.
pub proof fn lemma_no_answer_none_exists(game: Puzzle, full: Seq<usize>)
    requires
        game.well_formed(),
        first_solution(game).len() == 0,
    ensures
        !game.is_solution(full),
{
    if game.is_solution(full) {
        lemma_search_complete(game, Seq::empty(), full);
        lemma_search_sound(game, Seq::empty());
        game.lemma_solution_size(first_solution(game));
    }
}

/// The answer depends on nothing but the puzzle: two puzzles that read alike
/// have the same answer.
pub proof fn lemma_same_puzzle_same_answer(
    first: &Game,
    second: &Game,
    first_answer: Seq<usize>,
    second_answer: Seq<usize>,
)
    requires
        first@ == second@,
        first_answer == first_solution(first@),
        second_answer == first_solution(second@),
    ensures
        first_answer == second_answer,
{
}

/// Where a row, a column or a region lacks its marker and has no open cell
/// left, there is no move, and the search from there fails at once.
pub proof fn lemma_starved_fails(game: Puzzle, p: Seq<usize>)
    requires
        board_after(game, p).starved(game),
    ensures
        moves(game, p).len() == 0,
        !game.is_complete(p) ==> search_from(game, p) is None,
{
}

/// A puzzle with a region that has no cell has no answer.
pub proof fn lemma_empty_region(game: Puzzle, region: int)
    requires
        game.well_formed(),
        0 <= region < game.regions,
        forall|idx: int| 0 <= idx < game.cells() ==> game.color_of(idx) != region,
    ensures
        first_solution(game).len() == 0,
{
    lemma_search_sound(game, Seq::empty());
    if let Some(full) = search_from(game, Seq::empty()) {
        assert(game.color_taken(full, region));
        let i = choose|i: int| 0 <= i < full.len() && game.color_of(#[trigger] full[i] as int) == region;
        assert(full[i] < game.cells());
    }
}

/// On a grid of one cell with one region, the answer is that cell.
pub proof fn lemma_single_cell(game: Puzzle)
    requires
        game.well_formed(),
        game.rows == 1,
        game.cols == 1,
        game.regions == 1,
    ensures
        first_solution(game) == seq![0usize],
{
    let only = seq![0usize];
    assert(game.is_solution(only)) by {
        assert(only[0] == 0);
        assert(game.row_of(only[0] as int) == 0);
        assert(game.col_of(only[0] as int) == 0);
        assert(game.idx_to_color[0] < game.regions);
        assert(game.color_of(only[0] as int) == 0);
        assert(game.row_taken(only, 0));
        assert(game.col_taken(only, 0));
        assert(game.color_taken(only, 0));
    }
    lemma_search_complete(game, Seq::empty(), only);
    lemma_search_sound(game, Seq::empty());
    let answer = first_solution(game);
    game.lemma_solution_size(answer);
    assert(answer[0] < game.cells());
    assert(answer =~= only);
}

} // verus!
