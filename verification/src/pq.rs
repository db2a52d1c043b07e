//! Minimum priority queue keyed by non-negative integers.
//!
//! The queue maps each element to a `usize` key, with `usize::MAX` playing the
//! role of infinity. It is modelled as a `Map<T, usize>`: each element appears
//! at most once, and no order beyond the keys is implied.

use vstd::prelude::*;
use vstd::std_specs::cmp::PartialEqSpec;
use vstd::pervasive::VecAdditionalExecFns;
use core::hash::Hash;

verus! {

/// Exec equality on `T` agrees with spec equality: `T`'s `PartialEq` obeys its
/// vstd specification, and that specification is plain (structural) equality.
/// Integer element types satisfy this.
pub open spec fn obeys_exact_eq<T: PartialEqSpec>() -> bool {
    &&& T::obeys_eq_spec()
    &&& forall|a: T, b: T| #[trigger] a.eq_spec(&b) <==> a == b
}

/// Does some stored pair carry the element `t`?
pub(crate) open spec fn pairs_has<T>(s: Seq<(T, usize)>, t: T) -> bool {
    exists|i: int| 0 <= i < s.len() && s[i].0 == t
}

/// The key stored beside the element `t` (meaningful when `pairs_has(s, t)`
/// and the elements are distinct).
pub(crate) open spec fn pair_value<T>(s: Seq<(T, usize)>, t: T) -> usize {
    s[choose|i: int| 0 <= i < s.len() && s[i].0 == t].1
}

/// No element appears in two stored pairs.
pub(crate) open spec fn pairs_distinct<T>(s: Seq<(T, usize)>) -> bool {
    forall|i: int, j: int| 0 <= i < j < s.len() ==> s[i].0 != s[j].0
}

/// The association seen as a map from elements to keys.
pub(crate) open spec fn pairs_map<T>(s: Seq<(T, usize)>) -> Map<T, usize> {
    Map::new(|t: T| pairs_has(s, t), |t: T| pair_value(s, t))
}

/// What `extract_min` promises of a returned pair `(e, k)` over the queue
/// contents `m`: the pair was present, and no key in `m` is smaller than `k`.
pub open spec fn min_entry<T>(m: Map<T, usize>, e: T, k: usize) -> bool {
    &&& m.dom().contains(e)
    &&& m[e] == k
    &&& forall|t: T| m.dom().contains(t) ==> k <= #[trigger] m[t]
}

proof fn lemma_pairs_map_index<T>(s: Seq<(T, usize)>, i: int)
    requires
        pairs_distinct(s),
        0 <= i < s.len(),
    ensures
        pairs_map(s).dom().contains(s[i].0),
        pairs_map(s)[s[i].0] == s[i].1,
{
    let t = s[i].0;
    assert(pairs_has(s, t));
    let k = choose|k: int| 0 <= k < s.len() && s[k].0 == t;
    if k != i {
        assert(s[if k < i { k } else { i }].0 != s[if k < i { i } else { k }].0);
    }
}

proof fn lemma_pairs_map_len<T>(s: Seq<(T, usize)>)
    requires
        pairs_distinct(s),
    ensures
        pairs_map(s).dom().finite(),
        pairs_map(s).dom().len() == s.len(),
    decreases s.len(),
{
    if s.len() == 0 {
        assert(pairs_map(s).dom() =~= Set::<T>::empty());
    } else {
        let s0 = s.drop_last();
        assert(pairs_distinct(s0));
        lemma_pairs_map_len(s0);
        assert forall|t: T| pairs_has(s, t) implies pairs_has(s0, t) || t == s.last().0 by {
            let i = choose|i: int| 0 <= i < s.len() && s[i].0 == t;
            if i < s.len() - 1 {
                assert(s0[i].0 == t);
            }
        }
        assert forall|t: T| pairs_has(s0, t) implies pairs_has(s, t) by {
            let i = choose|i: int| 0 <= i < s0.len() && s0[i].0 == t;
            assert(s[i].0 == t);
        }
        assert(pairs_map(s).dom() =~= pairs_map(s0).dom().insert(s.last().0));
        assert(!pairs_has(s0, s.last().0)) by {
            if pairs_has(s0, s.last().0) {
                let i = choose|i: int| 0 <= i < s0.len() && s0[i].0 == s.last().0;
                assert(s[i].0 == s[s.len() - 1].0);
            }
        }
    }
}

/// Minimum-priority queue: an association from elements to `usize` keys,
/// supporting insertion, key change and destructive minimum extraction.
pub struct PriorityQueue<T: Ord> {
    entries: Vec<(T, usize)>,
}

impl<T: Ord> View for PriorityQueue<T> {
    type V = Map<T, usize>;

    closed spec fn view(&self) -> Map<T, usize> {
        pairs_map(self.entries@)
    }
}

impl<T: Ord> PriorityQueue<T> {
    /// Well-formedness: each element is stored at most once.
    pub closed spec fn wf(&self) -> bool {
        pairs_distinct(self.entries@)
    }
}

impl<T: Ord + Hash + Clone + PartialEqSpec> Default for PriorityQueue<T> {
    fn default() -> (q: Self)
        ensures
            q@ == Map::<T, usize>::empty(),
            q.wf(),
            q@.dom().finite(),
    {
        let q = PriorityQueue { entries: Vec::new() };
        proof {
            assert(q@ =~= Map::<T, usize>::empty());
        }
        q
    }
}

impl<T: Ord + Hash + Clone + PartialEqSpec> PriorityQueue<T> {
    /// Create an empty queue.
    pub fn new() -> (q: Self)
        ensures
            q@ == Map::<T, usize>::empty(),
            q.wf(),
            q@.dom().finite(),
    {
        Self::default()
    }

    /// Create a queue holding the given elements, every key set to the
    /// infinity sentinel `usize::MAX`. Duplicate elements collapse.
    pub fn from_keys(input: Vec<T>) -> (q: Self)
        requires
            obeys_exact_eq::<T>(),
        ensures
            q.wf(),
            q@.dom().finite(),
            q@ == Map::new(|t: T| input@.contains(t), |t: T| usize::MAX),
    {
        let ghost all = input@;
        let mut rest = input;
        let mut q = Self::new();
        proof {
            assert(rest@ =~= all.take(rest@.len() as int));
        }
        while rest.len() > 0
            invariant
                obeys_exact_eq::<T>(),
                q.wf(),
                q@.dom().finite(),
                rest@ =~= all.take(rest@.len() as int),
                rest@.len() <= all.len(),
                forall|x: T| q@.dom().contains(x) <==> all.skip(rest@.len() as int).contains(x),
                forall|x: T| q@.dom().contains(x) ==> q@[x] == usize::MAX,
            decreases rest@.len(),
        {
            let ghost j = rest@.len() as int;
            let ghost q0 = q@;
            let t = rest.pop().unwrap();
            proof {
                assert(t == all[j - 1]);
                assert(rest@ =~= all.take(j - 1));
            }
            q.insert(t, usize::MAX);
            proof {
                assert forall|x: T| all.skip(j - 1).contains(x)
                    implies (all.skip(j).contains(x) || x == all[j - 1]) by {
                    let i = choose|i: int|
                        0 <= i < all.skip(j - 1).len() && #[trigger] all.skip(j - 1)[i] == x;
                    if i >= 1 {
                        assert(all.skip(j)[i - 1] == x);
                    } else {
                        assert(all.skip(j - 1)[0] == all[j - 1]);
                    }
                }
                assert forall|x: T| all.skip(j).contains(x) || x == all[j - 1]
                    implies all.skip(j - 1).contains(x) by {
                    if all.skip(j).contains(x) {
                        let i = choose|i: int|
                            0 <= i < all.skip(j).len() && #[trigger] all.skip(j)[i] == x;
                        assert(all.skip(j - 1)[i + 1] == x);
                    } else {
                        assert(all.skip(j - 1)[0] == x);
                    }
                }
                assert forall|x: T| q@.dom().contains(x)
                    implies all.skip(j - 1).contains(x) by {
                    assert(q@ == q0.insert(t, usize::MAX));
                    if x != t {
                        assert(q0.dom().contains(x));
                    }
                }
            }
        }
        proof {
            assert(all.skip(0) =~= all);
            assert forall|x: T| q@.dom().contains(x) <==> all.contains(x) by {}
            assert(q@ =~= Map::new(|t: T| all.contains(t), |t: T| usize::MAX));
        }
        q
    }

    /// Create a queue from explicit (element, key) pairs. A later pair for the
    /// same element overwrites an earlier one.
    pub fn from_keys_values(input: Vec<(T, usize)>) -> (q: Self)
        requires
            obeys_exact_eq::<T>(),
        ensures
            q.wf(),
            q@.dom().finite(),
            q@ == map_of_pairs(input@),
    {
        let ghost all = input@;
        let mut rest = input;
        let mut q = Self::new();
        let ghost mut taken: int = 0;
        proof {
            assert(q@ =~= map_of_pairs(all.take(0)));
            assert(rest@ =~= all.skip(0));
        }
        while rest.len() > 0
            invariant
                obeys_exact_eq::<T>(),
                q.wf(),
                q@.dom().finite(),
                0 <= taken,
                taken + rest@.len() == all.len(),
                rest@ =~= all.skip(taken),
                q@ == map_of_pairs(all.take(taken)),
            decreases rest@.len(),
        {
            let (t, k) = rest.remove(0);
            proof {
                assert(all.skip(taken)[0] == all[taken]);
                assert(rest@ =~= all.skip(taken + 1));
            }
            q.insert(t, k);
            proof {
                assert(all.take(taken + 1).drop_last() =~= all.take(taken));
                assert(all.take(taken + 1).last() == all[taken]);
                taken = taken + 1;
            }
        }
        proof {
            assert(all.take(all.len() as int) =~= all);
        }
        q
    }

    /// Insert an element with its key, overwriting the key if the element is
    /// already present.
    pub fn insert(&mut self, element: T, key: usize)
        requires
            old(self).wf(),
            obeys_exact_eq::<T>(),
        ensures
            final(self).wf(),
            final(self)@.dom().finite(),
            final(self)@ == old(self)@.insert(element, key),
    {
        let n = self.entries.len();
        let mut i: usize = 0;
        while i < n
            invariant
                self.entries@ == old(self).entries@,
                n == self.entries@.len(),
                i <= n,
                obeys_exact_eq::<T>(),
                old(self).wf(),
                forall|k: int| 0 <= k < i ==> self.entries@[k].0 != element,
            decreases n - i,
        {
            if self.entries[i].0 == element {
                let ghost s0 = self.entries@;
                self.entries.set(i, (element, key));
                proof {
                    let s1 = self.entries@;
                    assert forall|a: int, b: int| 0 <= a < b < s1.len()
                        implies s1[a].0 != s1[b].0 by {
                        assert(s1[a].0 == s0[a].0 && s1[b].0 == s0[b].0);
                    }
                    assert forall|t: T| pairs_has(s1, t) <==> pairs_has(s0, t) by {
                        assert forall|t: T| pairs_has(s0, t) implies pairs_has(s1, t) by {
                            let k = choose|k: int| 0 <= k < s0.len() && s0[k].0 == t;
                            assert(s1[k].0 == t);
                        }
                        assert forall|t: T| pairs_has(s1, t) implies pairs_has(s0, t) by {
                            let k = choose|k: int| 0 <= k < s1.len() && s1[k].0 == t;
                            assert(s0[k].0 == t);
                        }
                    }
                    assert forall|t: T| pairs_has(s1, t) implies pairs_map(s1)[t]
                        == pairs_map(s0).insert(element, key)[t] by {
                        let k = choose|k: int| 0 <= k < s1.len() && s1[k].0 == t;
                        lemma_pairs_map_index(s1, k);
                        if t == element {
                            if k != i as int {
                                assert(s1[if k < i as int { k } else { i as int }].0
                                    != s1[if k < i as int { i as int } else { k }].0);
                            }
                            assert(pairs_map(s1)[t] == key);
                        } else {
                            assert(k != i as int);
                            lemma_pairs_map_index(s0, k);
                        }
                    }
                    assert(pairs_map(s1) =~= pairs_map(s0).insert(element, key));
                    lemma_pairs_map_len(s1);
                }
                return;
            }
            i += 1;
        }
        let ghost s0 = self.entries@;
        self.entries.push((element, key));
        proof {
            let s1 = self.entries@;
            assert forall|a: int, b: int| 0 <= a < b < s1.len() implies s1[a].0 != s1[b].0 by {
                if b == s1.len() - 1 {
                    assert(s1[a].0 == s0[a].0);
                    assert(s1[b].0 == element);
                } else {
                    assert(s1[a].0 == s0[a].0 && s1[b].0 == s0[b].0);
                }
            }
            assert forall|t: T| pairs_has(s1, t) implies pairs_map(s1)[t]
                == pairs_map(s0).insert(element, key)[t] by {
                let k = choose|k: int| 0 <= k < s1.len() && s1[k].0 == t;
                lemma_pairs_map_index(s1, k);
                if k == s1.len() - 1 {
                    assert(t == element);
                } else {
                    assert(t != element);
                    lemma_pairs_map_index(s0, k);
                }
            }
            assert forall|t: T| pairs_has(s0, t) || t == element implies pairs_has(s1, t) by {
                if pairs_has(s0, t) {
                    let k = choose|k: int| 0 <= k < s0.len() && s0[k].0 == t;
                    assert(s1[k].0 == t);
                } else {
                    assert(s1[s1.len() - 1].0 == t);
                }
            }
            assert forall|t: T| pairs_has(s1, t) implies pairs_has(s0, t) || t == element by {
                let k = choose|k: int| 0 <= k < s1.len() && s1[k].0 == t;
                if k < s1.len() - 1 {
                    assert(s0[k].0 == t);
                }
            }
            assert(pairs_map(s1) =~= pairs_map(s0).insert(element, key));
            lemma_pairs_map_len(s1);
        }
    }

    /// Change the key of an element already in the queue; silently do nothing
    /// when the element is absent.
    pub fn change_key(&mut self, element: &T, key: usize)
        requires
            old(self).wf(),
            obeys_exact_eq::<T>(),
        ensures
            final(self).wf(),
            final(self)@.dom().finite(),
            final(self)@ == if old(self)@.dom().contains(*element) {
                old(self)@.insert(*element, key)
            } else {
                old(self)@
            },
    {
        let n = self.entries.len();
        let mut i: usize = 0;
        while i < n
            invariant
                self.entries@ == old(self).entries@,
                n == self.entries@.len(),
                i <= n,
                obeys_exact_eq::<T>(),
                old(self).wf(),
                forall|k: int| 0 <= k < i ==> self.entries@[k].0 != *element,
            decreases n - i,
        {
            if self.entries[i].0 == *element {
                let ghost s0 = self.entries@;
                self.entries[i].1 = key;
                proof {
                    let s1 = self.entries@;
                    lemma_pairs_map_index(s0, i as int);
                    assert forall|a: int, b: int| 0 <= a < b < s1.len()
                        implies s1[a].0 != s1[b].0 by {
                        assert(s1[a].0 == s0[a].0 && s1[b].0 == s0[b].0);
                    }
                    assert forall|t: T| pairs_has(s1, t) <==> pairs_has(s0, t) by {
                        assert forall|t: T| pairs_has(s0, t) implies pairs_has(s1, t) by {
                            let k = choose|k: int| 0 <= k < s0.len() && s0[k].0 == t;
                            assert(s1[k].0 == t);
                        }
                        assert forall|t: T| pairs_has(s1, t) implies pairs_has(s0, t) by {
                            let k = choose|k: int| 0 <= k < s1.len() && s1[k].0 == t;
                            assert(s0[k].0 == t);
                        }
                    }
                    assert forall|t: T| pairs_has(s1, t) implies pairs_map(s1)[t]
                        == pairs_map(s0).insert(*element, key)[t] by {
                        let k = choose|k: int| 0 <= k < s1.len() && s1[k].0 == t;
                        lemma_pairs_map_index(s1, k);
                        if t == *element {
                            if k != i as int {
                                assert(s1[if k < i as int { k } else { i as int }].0
                                    != s1[if k < i as int { i as int } else { k }].0);
                            }
                        } else {
                            assert(k != i as int);
                            lemma_pairs_map_index(s0, k);
                        }
                    }
                    assert(pairs_map(s1) =~= pairs_map(s0).insert(*element, key));
                    lemma_pairs_map_len(s1);
                }
                return;
            }
            i += 1;
        }
        proof {
            assert(!pairs_has(self.entries@, *element));
            lemma_pairs_map_len(self.entries@);
        }
    }

    /// Remove and return an element with the smallest key, or `None` when the
    /// queue is empty. Which of several minimal-key elements leaves is
    /// unspecified.
    pub fn extract_min(&mut self) -> (r: Option<(T, usize)>)
        requires
            old(self).wf(),
        ensures
            final(self).wf(),
            final(self)@.dom().finite(),
            match r {
                None => {
                    &&& old(self)@ == Map::<T, usize>::empty()
                    &&& final(self)@ == old(self)@
                },
                Some(p) => {
                    &&& min_entry(old(self)@, p.0, p.1)
                    &&& final(self)@ == old(self)@.remove(p.0)
                    &&& old(self)@.dom().finite()
                    &&& final(self)@.dom().finite()
                    &&& final(self)@.dom().len() == old(self)@.dom().len() - 1
                },
            },
    {
        let n = self.entries.len();
        if n == 0 {
            proof {
                assert(self@ =~= Map::<T, usize>::empty());
            }
            return None;
        }
        let mut best: usize = 0;
        let mut i: usize = 1;
        while i < n
            invariant
                self.entries@ == old(self).entries@,
                n == self.entries@.len(),
                best < i <= n,
                forall|k: int| 0 <= k < i ==> self.entries@[best as int].1
                    <= #[trigger] self.entries@[k].1,
            decreases n - i,
        {
            if self.entries[i].1 < self.entries[best].1 {
                best = i;
            }
            i += 1;
        }
        let ghost s0 = self.entries@;
        let pair = self.entries.remove(best);
        proof {
            let s1 = self.entries@;
            let b = best as int;
            lemma_pairs_map_index(s0, b);
            assert forall|t: T| pairs_map(s0).dom().contains(t)
                implies pair.1 <= pairs_map(s0)[t] by {
                let k = choose|k: int| 0 <= k < s0.len() && s0[k].0 == t;
                lemma_pairs_map_index(s0, k);
            }
            assert(min_entry(pairs_map(s0), pair.0, pair.1));
            // distinctness of the shortened sequence
            assert forall|a: int, c: int| 0 <= a < c < s1.len() implies s1[a].0 != s1[c].0 by {
                let a0 = if a < b { a } else { a + 1 };
                let c0 = if c < b { c } else { c + 1 };
                assert(s1[a].0 == s0[a0].0 && s1[c].0 == s0[c0].0);
            }
            // the new map is the old one without pair.0
            assert forall|t: T| pairs_has(s1, t) implies pairs_has(s0, t) && t != pair.0 by {
                let k = choose|k: int| 0 <= k < s1.len() && s1[k].0 == t;
                let k0 = if k < b { k } else { k + 1 };
                assert(s0[k0].0 == t);
                if t == pair.0 {
                    assert(s0[if k0 < b { k0 } else { b }].0
                        != s0[if k0 < b { b } else { k0 }].0);
                }
            }
            assert forall|t: T| pairs_has(s0, t) && t != pair.0 implies pairs_has(s1, t) by {
                let k = choose|k: int| 0 <= k < s0.len() && s0[k].0 == t;
                assert(k != b);
                if k < b {
                    assert(s1[k].0 == t);
                } else {
                    assert(s1[k - 1].0 == t);
                }
            }
            assert forall|t: T| pairs_has(s1, t) implies pairs_map(s1)[t]
                == pairs_map(s0).remove(pair.0)[t] by {
                let k = choose|k: int| 0 <= k < s1.len() && s1[k].0 == t;
                lemma_pairs_map_index(s1, k);
                let k0 = if k < b { k } else { k + 1 };
                assert(s0[k0] == s1[k]);
                lemma_pairs_map_index(s0, k0);
            }
            assert(pairs_map(s1) =~= pairs_map(s0).remove(pair.0));
            lemma_pairs_map_len(s0);
            lemma_pairs_map_len(s1);
        }
        Some(pair)
    }
}

/// The map described by a sequence of (element, key) pairs where a later pair
/// for the same element overwrites an earlier one.
pub open spec fn map_of_pairs<T>(s: Seq<(T, usize)>) -> Map<T, usize>
    decreases s.len(),
{
    if s.len() == 0 {
        Map::empty()
    } else {
        map_of_pairs(s.drop_last()).insert(s.last().0, s.last().1)
    }
}

/// Law: lowering the key of a present element `e` to `k` makes every element
/// whose key stays strictly above `k` ineligible as the next minimum. Whatever
/// minimal pair `(e2, k2)` an extraction then returns, its key is at most `k`,
/// and it is none of the strictly-higher-keyed elements.
pub proof fn lemma_decrease_key_extract_min<T>(m: Map<T, usize>, e: T, k: usize, e2: T, k2: usize)
    requires
        m.dom().contains(e),
        k <= m[e],
        min_entry(m.insert(e, k), e2, k2),
    ensures
        k2 <= k,
        forall|t: T| m.insert(e, k).dom().contains(t) && m.insert(e, k)[t] > k ==> e2 != t,
{
    assert(m.insert(e, k)[e] == k);
    assert forall|t: T| m.insert(e, k).dom().contains(t) && m.insert(e, k)[t] > k
        implies e2 != t by {
        if e2 == t {
            assert(m.insert(e, k)[t] == k2);
        }
    }
}

} // verus!
