use crate::sorting::{ascending, by_index, lemma_orders_total, lemma_sort_keeps, sort_indices};
use std::collections::HashMap;
use vstd::prelude::*;
use vstd::std_specs::hash::group_hash_axioms;

verus! {

/// A node of the trie: its children by cell index, and whether a recorded set
/// ends here.
pub struct TrieNode {
    pub children: HashMap<usize, TrieNode>,
    pub is_leaf: bool,
}

impl TrieNode {
    /// The path `key`, followed from this node, ends on a node where a recorded
    /// set ends.
    pub open spec fn holds(&self, key: Seq<usize>) -> bool
        decreases key.len(),
    {
        if key.len() == 0 {
            self.is_leaf
        } else {
            self.children@.contains_key(key[0]) && self.children@[key[0]].holds(key.drop_first())
        }
    }

    /// A node without children where no set ends.
    pub fn new() -> (node: Self)
        ensures
            !node.is_leaf,
            node.children@ == Map::<usize, TrieNode>::empty(),
            forall|key: Seq<usize>| !node.holds(key),
    {
        let node = Self { children: HashMap::new(), is_leaf: false };
        assert forall|key: Seq<usize>| !node.holds(key) by {
            if key.len() > 0 {
                assert(!node.children@.contains_key(key[0]));
            }
        }
        node
    }

    /// Records the path `key[pos..]` below this node, creating the nodes that are
    /// missing.
    fn insert_from(&mut self, key: &Vec<usize>, pos: usize)
        requires
            pos <= key@.len(),
        ensures
            forall|s: Seq<usize>|
                #[trigger] final(self).holds(s) <==> (old(self).holds(s) || s == key@.skip(
                    pos as int,
                )),
        decreases key@.len() - pos,
    {
        broadcast use group_hash_axioms;

        let ghost rest = key@.skip(pos as int);
        if pos == key.len() {
            self.is_leaf = true;
            assert forall|s: Seq<usize>| #[trigger]
                self.holds(s) <==> (old(self).holds(s) || s == rest) by {
                if s.len() == 0 {
                    assert(s =~= rest);
                }
            }
        } else {
            let idx = key[pos];
            let child = self.children.entry(idx).or_insert(TrieNode::new());
            let ghost before = *child;
            child.insert_from(key, pos + 1);
            assert forall|s: Seq<usize>| #[trigger]
                self.holds(s) <==> (old(self).holds(s) || s == rest) by {
                assert(rest[0] == idx);
                assert(rest.drop_first() =~= key@.skip(pos + 1));
                if s.len() > 0 {
                    if s[0] == idx {
                        assert(self.children@[idx].holds(s.drop_first()) <==> (before.holds(
                            s.drop_first(),
                        ) || s.drop_first() == key@.skip(pos + 1)));
                        if s.drop_first() == rest.drop_first() {
                            assert(s =~= seq![idx] + s.drop_first());
                            assert(rest =~= seq![idx] + rest.drop_first());
                        }
                        if !old(self).children@.contains_key(idx) {
                            assert(!before.holds(s.drop_first()));
                        }
                    } else {
                        assert(self.children@.contains_key(s[0]) == old(
                            self,
                        ).children@.contains_key(s[0]));
                    }
                }
            }
        }
    }
}

/// The lookup in a set of recorded paths answers yes for `query`: some
/// recorded path that is not empty is made of the smallest cells of the query,
/// with no gap.
pub open spec fn found_in(recorded: Set<Seq<usize>>, query: Seq<usize>) -> bool {
    exists|k: int| 1 <= k <= query.len() && #[trigger] recorded.contains(ascending(query).take(k))
}

/// The no-good cache: sets of cells that were proved unable to grow into a full
/// answer, each stored as the ascending path of its cell indices in a trie.
pub struct NoGoods {
    pub root: TrieNode,
}

impl View for NoGoods {
    type V = Set<Seq<usize>>;

    /// The recorded sets, each as its ascending list of cell indices.
    open spec fn view(&self) -> Set<Seq<usize>> {
        Set::new(|key: Seq<usize>| self.root.holds(key))
    }
}

impl NoGoods {
    /// The lookup answers yes for `query`.
    pub open spec fn hits(&self, query: Seq<usize>) -> bool {
        found_in(self@, query)
    }

    /// A cache that holds nothing.
    pub fn new() -> (cache: Self)
        ensures
            cache@ == Set::<Seq<usize>>::empty(),
    {
        let cache = Self { root: TrieNode::new() };
        assert(cache@ =~= Set::<Seq<usize>>::empty());
        cache
    }

    /// Inserts a bad partial solution into the cache.
    pub fn insert(&mut self, solution: Vec<usize>)
        ensures
            final(self)@ == old(self)@.insert(ascending(solution@)),
    {
        let mut key = solution;
        sort_indices(&mut key);
        self.root.insert_from(&key, 0);
        assert(key@.skip(0) =~= key@);
        assert(self@ =~= old(self)@.insert(ascending(solution@)));
    }

    /// Searches the cache for a recorded set that lies at the start of the
    /// ascending list of `solution`.
    pub fn search(&self, solution: Vec<usize>) -> (hit: bool)
        ensures
            hit == self.hits(solution@),
    {
        broadcast use group_hash_axioms;

        let mut key = solution;
        sort_indices(&mut key);
        let n = key.len();
        proof {
            lemma_orders_total(Seq::empty());
            lemma_sort_keeps(solution@, by_index());
        }
        let mut current = &self.root;
        let mut i: usize = 0;
        while i < n
            invariant
                key@ == ascending(solution@),
                n == key@.len(),
                n == solution@.len(),
                i <= n,
                i > 0 ==> !current.is_leaf,
                forall|k: int| 1 <= k <= i ==> !self.root.holds(#[trigger] key@.take(k)),
                forall|k: int|
                    i <= k <= n ==> (self.root.holds(#[trigger] key@.take(k)) <==> current.holds(
                        key@.subrange(i as int, k),
                    )),
            decreases n - i,
        {
            let ghost here = *current;
            match current.children.get(&key[i]) {
                Some(child) => {
                    current = child;
                },
                None => {
                    assert forall|k: int| 1 <= k <= n implies !self.root.holds(
                        #[trigger] key@.take(k),
                    ) by {
                        if k > i {
                            assert(key@.subrange(i as int, k)[0] == key@[i as int]);
                        } else if k == i {
                            assert(key@.subrange(i as int, k).len() == 0);
                        }
                    }
                    assert(!self.hits(solution@)) by {
                        if self.hits(solution@) {
                            let k = choose|k: int|
                                1 <= k <= solution@.len() && #[trigger] self@.contains(
                                    ascending(solution@).take(k),
                                );
                            assert(self.root.holds(key@.take(k)));
                        }
                    }
                    return false;
                },
            }
            proof {
                assert forall|k: int| i + 1 <= k <= n implies (self.root.holds(
                    #[trigger] key@.take(k),
                ) <==> current.holds(key@.subrange(i + 1, k))) by {
                    let s = key@.subrange(i as int, k);
                    assert(s[0] == key@[i as int]);
                    assert(s.drop_first() =~= key@.subrange(i + 1, k));
                }
                assert(key@.subrange(i + 1, i + 1).len() == 0);
            }
            if current.is_leaf {
                assert(self@.contains(ascending(solution@).take(i + 1)));
                return true;
            }
            i += 1;
        }
        assert(!self.hits(solution@)) by {
            if self.hits(solution@) {
                let k = choose|k: int|
                    1 <= k <= solution@.len() && #[trigger] self@.contains(
                        ascending(solution@).take(k),
                    );
                assert(self.root.holds(key@.take(k)));
            }
        }
        false
    }
}

/// The lookup never answers yes without cause: where it does, some recorded
/// set that is not empty has all its cells in the query.
pub proof fn lemma_hit_is_recorded(recorded: Set<Seq<usize>>, query: Seq<usize>)
    requires
        found_in(recorded, query),
    ensures
        exists|part: Seq<usize>|
            #![trigger recorded.contains(part)]
            recorded.contains(part) && part.len() > 0 && forall|i: int|
                0 <= i < part.len() ==> query.contains(#[trigger] part[i]),
{
    let k = choose|k: int|
        1 <= k <= query.len() && #[trigger] recorded.contains(ascending(query).take(k));
    let part = ascending(query).take(k);
    lemma_orders_total(Seq::empty());
    lemma_sort_keeps(query, by_index());
    assert forall|i: int| 0 <= i < part.len() implies query.contains(#[trigger] part[i]) by {
        assert(ascending(query)[i] == part[i]);
        assert(ascending(query).contains(part[i]));
    }
    assert(recorded.contains(part));
}

} // verus!
