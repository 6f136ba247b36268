use vstd::prelude::*;
use vstd::relations::{sorted_by, total_ordering};
use vstd::seq_lib::{lemma_multiset_commutative, lemma_sorted_unique, to_multiset_build};

verus! {

/// The order of cell indices by size.
pub open spec fn by_index() -> spec_fn(usize, usize) -> bool {
    |a: usize, b: usize| a <= b
}

/// The order of cells by the score that `scores` gives them, lower score first,
/// and by index where two cells score alike.
pub open spec fn by_score(scores: Seq<usize>) -> spec_fn(usize, usize) -> bool {
    |a: usize, b: usize|
        scores[a as int] < scores[b as int] || (scores[a as int] == scores[b as int] && a <= b)
}

/// A list of cell indices in ascending order.
pub open spec fn ascending(list: Seq<usize>) -> Seq<usize> {
    list.sort_by(by_index())
}

/// Both orders are total.
pub proof fn lemma_orders_total(scores: Seq<usize>)
    ensures
        total_ordering(by_index()),
        total_ordering(by_score(scores)),
{
}

/// Sorting keeps the length of a list and the cells that it holds, and puts
/// them in order.
pub proof fn lemma_sort_keeps(list: Seq<usize>, leq: spec_fn(usize, usize) -> bool)
    requires
        total_ordering(leq),
    ensures
        list.sort_by(leq).len() == list.len(),
        list.sort_by(leq).to_multiset() == list.to_multiset(),
        sorted_by(list.sort_by(leq), leq),
        forall|x: usize| #[trigger] list.sort_by(leq).contains(x) <==> list.contains(x),
{
    broadcast use vstd::seq_lib::group_to_multiset_ensures;

    list.lemma_sort_by_ensures(leq);
    assert(list.sort_by(leq).to_multiset().len() == list.to_multiset().len());
    assert forall|x: usize| #[trigger] list.sort_by(leq).contains(x) <==> list.contains(x) by {
        assert(list.sort_by(leq).to_multiset().count(x) == list.to_multiset().count(x));
    }
}

/// A list that is in order and holds what `list` holds is `list` sorted.
proof fn lemma_is_sorted(list: Seq<usize>, done: Seq<usize>, leq: spec_fn(usize, usize) -> bool)
    requires
        total_ordering(leq),
        sorted_by(done, leq),
        done.to_multiset() == list.to_multiset(),
    ensures
        done == list.sort_by(leq),
{
    list.lemma_sort_by_ensures(leq);
    lemma_sorted_unique(done, list.sort_by(leq), leq);
}

/// A total order of cells that a program can decide.
pub trait CellOrder {
    /// The order.
    spec fn leq(&self) -> spec_fn(usize, usize) -> bool;

    /// The cells that `before` can place.
    spec fn ranks(&self, cell: usize) -> bool;

    /// The order is total.
    proof fn lemma_total(&self)
        ensures
            total_ordering(self.leq()),
    ;

    /// Whether `a` comes before `b` in the order, or is `b`.
    fn before(&self, a: usize, b: usize) -> (yes: bool)
        requires
            self.ranks(a),
            self.ranks(b),
        ensures
            yes == (self.leq())(a, b),
    ;
}

/// Cells ordered by index.
pub struct ByIndex;

impl CellOrder for ByIndex {
    open spec fn leq(&self) -> spec_fn(usize, usize) -> bool {
        by_index()
    }

    open spec fn ranks(&self, cell: usize) -> bool {
        true
    }

    proof fn lemma_total(&self) {
    }

    fn before(&self, a: usize, b: usize) -> (yes: bool) {
        a <= b
    }
}

/// Cells ordered by their score in a table, then by index.
pub struct ByScore<'a> {
    pub scores: &'a Vec<usize>,
}

impl<'a> CellOrder for ByScore<'a> {
    open spec fn leq(&self) -> spec_fn(usize, usize) -> bool {
        by_score(self.scores@)
    }

    open spec fn ranks(&self, cell: usize) -> bool {
        cell < self.scores@.len()
    }

    proof fn lemma_total(&self) {
    }

    fn before(&self, a: usize, b: usize) -> (yes: bool) {
        self.scores[a] < self.scores[b] || (self.scores[a] == self.scores[b] && a <= b)
    }
}

/// Merges two lists that are in order into one list in order.
fn merge<O: CellOrder>(left: &Vec<usize>, right: &Vec<usize>, order: &O) -> (merged: Vec<usize>)
    requires
        sorted_by(left@, order.leq()),
        sorted_by(right@, order.leq()),
        forall|t: int| 0 <= t < left@.len() ==> order.ranks(#[trigger] left@[t]),
        forall|t: int| 0 <= t < right@.len() ==> order.ranks(#[trigger] right@[t]),
    ensures
        sorted_by(merged@, order.leq()),
        merged@.to_multiset() == left@.to_multiset().add(right@.to_multiset()),
{
    broadcast use vstd::seq_lib::group_to_multiset_ensures;
    broadcast use vstd::multiset::group_multiset_axioms;

    let ghost leq = order.leq();
    proof {
        order.lemma_total();
    }
    let mut merged: Vec<usize> = Vec::new();
    let mut i: usize = 0;
    let mut j: usize = 0;
    assert(left@.take(0).to_multiset() =~= right@.take(0).to_multiset());
    assert(merged@.to_multiset() =~= left@.take(0).to_multiset().add(right@.take(0).to_multiset()));
    while i < left.len() || j < right.len()
        invariant
            leq == order.leq(),
            total_ordering(leq),
            sorted_by(left@, leq),
            sorted_by(right@, leq),
            forall|t: int| 0 <= t < left@.len() ==> order.ranks(#[trigger] left@[t]),
            forall|t: int| 0 <= t < right@.len() ==> order.ranks(#[trigger] right@[t]),
            i <= left@.len(),
            j <= right@.len(),
            sorted_by(merged@, leq),
            merged@.to_multiset() == left@.take(i as int).to_multiset().add(
                right@.take(j as int).to_multiset(),
            ),
            forall|t: int, s: int|
                0 <= t < merged@.len() && i <= s < left@.len() ==> leq(
                    #[trigger] merged@[t],
                    #[trigger] left@[s],
                ),
            forall|t: int, s: int|
                0 <= t < merged@.len() && j <= s < right@.len() ==> leq(
                    #[trigger] merged@[t],
                    #[trigger] right@[s],
                ),
        decreases left@.len() - i + right@.len() - j,
    {
        let ghost so_far = merged@;
        if j >= right.len() || (i < left.len() && order.before(left[i], right[j])) {
            let cell = left[i];
            proof {
                assert(left@.take(i + 1) =~= left@.take(i as int).push(cell));
                assert forall|s: int| i <= s < left@.len() implies leq(cell, left@[s]) by {
                    if s > i {
                        assert(leq(left@[i as int], left@[s]));
                    }
                }
                assert forall|s: int| j <= s < right@.len() implies leq(cell, right@[s]) by {
                    assert(leq(cell, right@[j as int]));
                    if s > j {
                        assert(leq(right@[j as int], right@[s]));
                    }
                }
            }
            merged.push(cell);
            proof {
                assert(merged@ =~= so_far.push(cell));
                to_multiset_build(so_far, cell);
                to_multiset_build(left@.take(i as int), cell);
                assert(merged@.to_multiset() =~= left@.take(i + 1).to_multiset().add(
                    right@.take(j as int).to_multiset(),
                ));
            }
            i += 1;
        } else {
            let cell = right[j];
            proof {
                assert(right@.take(j + 1) =~= right@.take(j as int).push(cell));
                assert forall|s: int| j <= s < right@.len() implies leq(cell, right@[s]) by {
                    if s > j {
                        assert(leq(right@[j as int], right@[s]));
                    }
                }
                assert forall|s: int| i <= s < left@.len() implies leq(cell, left@[s]) by {
                    assert(leq(cell, left@[i as int]));
                    if s > i {
                        assert(leq(left@[i as int], left@[s]));
                    }
                }
            }
            merged.push(cell);
            proof {
                assert(merged@ =~= so_far.push(cell));
                to_multiset_build(so_far, cell);
                to_multiset_build(right@.take(j as int), cell);
                assert(merged@.to_multiset() =~= left@.take(i as int).to_multiset().add(
                    right@.take(j + 1).to_multiset(),
                ));
            }
            j += 1;
        }
        proof {
            assert forall|a: int, b: int| 0 <= a < b < merged@.len() implies leq(
                merged@[a],
                merged@[b],
            ) by {
                if b < so_far.len() {
                    assert(leq(so_far[a], so_far[b]));
                }
            }
        }
    }
    proof {
        assert(left@.take(i as int) =~= left@);
        assert(right@.take(j as int) =~= right@);
    }
    merged
}

/// Sorts the entries of `list` from `lo` up to `hi` into a new list.
fn sort_range<O: CellOrder>(list: &Vec<usize>, lo: usize, hi: usize, order: &O) -> (sorted: Vec<
    usize,
>)
    requires
        lo <= hi <= list@.len(),
        forall|t: int| 0 <= t < list@.len() ==> order.ranks(#[trigger] list@[t]),
    ensures
        sorted_by(sorted@, order.leq()),
        sorted@.to_multiset() == list@.subrange(lo as int, hi as int).to_multiset(),
    decreases hi - lo,
{
    broadcast use vstd::seq_lib::group_to_multiset_ensures;

    let ghost part = list@.subrange(lo as int, hi as int);
    if hi - lo <= 1 {
        let mut sorted: Vec<usize> = Vec::new();
        if hi > lo {
            sorted.push(list[lo]);
        }
        assert(sorted@ =~= part);
        sorted
    } else {
        let mid = lo + (hi - lo) / 2;
        let left = sort_range(list, lo, mid, order);
        let right = sort_range(list, mid, hi, order);
        proof {
            let low = list@.subrange(lo as int, mid as int);
            let high = list@.subrange(mid as int, hi as int);
            assert(part =~= low + high);
            lemma_multiset_commutative(low, high);
            assert forall|t: int| 0 <= t < left@.len() implies order.ranks(#[trigger] left@[t]) by {
                assert(left@.to_multiset().count(left@[t]) > 0);
                assert(low.contains(left@[t]));
            }
            assert forall|t: int| 0 <= t < right@.len() implies order.ranks(
                #[trigger] right@[t],
            ) by {
                assert(right@.to_multiset().count(right@[t]) > 0);
                assert(high.contains(right@[t]));
            }
        }
        merge(&left, &right, order)
    }
}

/// Sorts cell indices into ascending order.
pub fn sort_indices(list: &mut Vec<usize>)
    ensures
        final(list)@ == ascending(old(list)@),
{
    let sorted = sort_range(list, 0, list.len(), &ByIndex);
    proof {
        assert(list@.subrange(0, list@.len() as int) =~= list@);
        lemma_orders_total(Seq::empty());
        lemma_is_sorted(list@, sorted@, by_index());
    }
    *list = sorted;
}

/// Sorts cells by score, lower score first, keeping cells of one score in
/// ascending order of index.
pub fn sort_by_score(list: &mut Vec<usize>, scores: &Vec<usize>)
    requires
        forall|t: int| 0 <= t < old(list)@.len() ==> (#[trigger] old(list)@[t]) < scores@.len(),
    ensures
        final(list)@ == old(list)@.sort_by(by_score(scores@)),
{
    let order = ByScore { scores };
    let sorted = sort_range(list, 0, list.len(), &order);
    proof {
        assert(list@.subrange(0, list@.len() as int) =~= list@);
        lemma_orders_total(scores@);
        lemma_is_sorted(list@, sorted@, by_score(scores@));
    }
    *list = sorted;
}

} // verus!
