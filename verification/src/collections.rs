//! Sets of identifiers, and the plan that maps jumps to new targets.

use vstd::prelude::*;
use crate::term::{contains_tid, tid_option_view, tids_view, Tid};

verus! {

/// A set of identifiers.
#[derive(Debug, Clone)]
pub struct TidSet {
    pub tids: Vec<Tid>,
}

impl View for TidSet {
    type V = Set<Seq<char>>;

    open spec fn view(&self) -> Set<Seq<char>> {
        tids_view(self.tids@).to_set()
    }
}

impl TidSet {
    /// The empty set.
    pub fn new() -> (r: TidSet)
        ensures
            r@ == Set::<Seq<char>>::empty(),
    {
        let r = TidSet { tids: Vec::new() };
        assert(r@ =~= Set::<Seq<char>>::empty());
        r
    }

    /// Whether `tid` is in the set.
    pub fn contains(&self, tid: &Tid) -> (r: bool)
        ensures
            r == self@.contains(tid@),
    {
        contains_tid(&self.tids, tid)
    }

    /// Adds `tid` to the set.
    pub fn insert(&mut self, tid: Tid)
        ensures
            final(self)@ == old(self)@.insert(tid@),
    {
        let ghost before = tids_view(self.tids@);
        self.tids.push(tid);
        proof {
            let after = tids_view(self.tids@);
            assert(after =~= before.push(tid@));
            assert forall|t: Seq<char>| after.to_set().contains(t) <==> before.to_set().insert(
                tid@,
            ).contains(t) by {
                if before.contains(t) {
                    let i = choose|i: int| 0 <= i < before.len() && before[i] == t;
                    assert(after[i] == t);
                }
                if t == tid@ {
                    assert(after[before.len() as int] == t);
                }
            }
            assert(after.to_set() =~= before.to_set().insert(tid@));
        }
    }
}

/// The jumps that are to get a new target: a map from the identifier of a
/// jump to the identifier that becomes its target.
#[derive(Debug, Clone)]
pub struct RetargetPlan {
    pub entries: Vec<(Tid, Tid)>,
}

impl RetargetPlan {
    /// The entry at position `i` is the one for `key`.
    pub open spec fn has_key_at(&self, key: Seq<char>, i: int) -> bool {
        0 <= i < self.entries@.len() && self.entries@[i].0@ == key
    }

    /// No identifier has two entries.
    pub open spec fn wf(&self) -> bool {
        forall|i: int, j: int|
            0 <= i < self.entries@.len() && 0 <= j < self.entries@.len() && (
            #[trigger] self.entries@[i]).0@ == (#[trigger] self.entries@[j]).0@ ==> i == j
    }
}

impl View for RetargetPlan {
    type V = Map<Seq<char>, Seq<char>>;

    open spec fn view(&self) -> Map<Seq<char>, Seq<char>> {
        Map::new(
            |key: Seq<char>| exists|i: int| self.has_key_at(key, i),
            |key: Seq<char>| self.entries@[choose|i: int| self.has_key_at(key, i)].1@,
        )
    }
}

/// What a map holds for a key, if anything.
pub open spec fn lookup(plan: Map<Seq<char>, Seq<char>>, key: Seq<char>) -> Option<Seq<char>> {
    if plan.contains_key(key) {
        Some(plan[key])
    } else {
        None
    }
}

impl RetargetPlan {
    /// In a well-formed plan the entry at a position is what the map holds.
    pub proof fn lemma_entry(&self, i: int)
        requires
            self.wf(),
            0 <= i < self.entries@.len(),
        ensures
            self@.contains_key(self.entries@[i].0@),
            self@[self.entries@[i].0@] == self.entries@[i].1@,
    {
        let key = self.entries@[i].0@;
        assert(self.has_key_at(key, i));
        let c = choose|c: int| self.has_key_at(key, c);
        assert(self.entries@[c].0@ == self.entries@[i].0@);
    }

    /// The plan without entries.
    pub fn new() -> (r: RetargetPlan)
        ensures
            r.wf(),
            r@ == Map::<Seq<char>, Seq<char>>::empty(),
    {
        let r = RetargetPlan { entries: Vec::new() };
        assert(r@ =~= Map::<Seq<char>, Seq<char>>::empty());
        r
    }

    /// The position of the entry for `key`, if there is one.
    fn position(&self, key: &Tid) -> (r: Option<usize>)
        ensures
            match r {
                Some(i) => self.has_key_at(key@, i as int),
                None => forall|i: int| !self.has_key_at(key@, i),
            },
    {
        let mut i: usize = 0;
        while i < self.entries.len()
            invariant
                i <= self.entries.len(),
                forall|j: int| 0 <= j < i ==> !self.has_key_at(key@, j),
            decreases self.entries.len() - i,
        {
            if self.entries[i].0.same_as(key) {
                return Some(i);
            }
            i += 1;
        }
        None
    }

    /// The new target planned for the jump `key`, if there is one.
    pub fn get(&self, key: &Tid) -> (r: Option<&Tid>)
        requires
            self.wf(),
        ensures
            match r {
                Some(value) => lookup(self@, key@) == Some(value@),
                None => lookup(self@, key@) is None,
            },
    {
        match self.position(key) {
            Some(i) => {
                proof {
                    self.lemma_entry(i as int);
                }
                Some(&self.entries[i].1)
            },
            None => None,
        }
    }

    /// Plans `value` as the new target of the jump `key`, in the place of
    /// what was planned for it before.
    pub fn insert(&mut self, key: Tid, value: Tid)
        requires
            old(self).wf(),
        ensures
            final(self).wf(),
            final(self)@ == old(self)@.insert(key@, value@),
    {
        let ghost before = *self;
        let ghost k = key@;
        let ghost v = value@;
        match self.position(&key) {
            Some(i) => {
                self.entries[i] = (key, value);
                proof {
                    assert(self.wf());
                    assert forall|t: Seq<char>| #[trigger]
                        self@.contains_key(t) == before@.insert(k, v).contains_key(t) by {
                        if before@.contains_key(t) || t == k {
                            let j = if t == k {
                                i as int
                            } else {
                                choose|j: int| before.has_key_at(t, j)
                            };
                            assert(self.has_key_at(t, j));
                        }
                        if self@.contains_key(t) && t != k {
                            let j = choose|j: int| self.has_key_at(t, j);
                            assert(before.has_key_at(t, j));
                        }
                    }
                    assert forall|t: Seq<char>| #[trigger] self@.contains_key(t) implies self@[t]
                        == before@.insert(k, v)[t] by {
                        let j = choose|j: int| self.has_key_at(t, j);
                        self.lemma_entry(j);
                        if t != k {
                            assert(before.has_key_at(t, j));
                            before.lemma_entry(j);
                        }
                    }
                    assert(self@ =~= before@.insert(k, v));
                }
            },
            None => {
                self.entries.push((key, value));
                proof {
                    let n = before.entries@.len() as int;
                    assert(self.wf()) by {
                        assert forall|i: int, j: int|
                            0 <= i < self.entries@.len() && 0 <= j < self.entries@.len() && (
                            #[trigger] self.entries@[i]).0@ == (#[trigger] self.entries@[j]).0@
                            implies i == j by {
                            if i < n && j == n {
                                assert(before.has_key_at(k, i));
                            }
                            if j < n && i == n {
                                assert(before.has_key_at(k, j));
                            }
                        }
                    }
                    assert forall|t: Seq<char>| #[trigger]
                        self@.contains_key(t) == before@.insert(k, v).contains_key(t) by {
                        if before@.contains_key(t) || t == k {
                            let j = if t == k {
                                n
                            } else {
                                choose|j: int| before.has_key_at(t, j)
                            };
                            assert(self.has_key_at(t, j));
                        }
                        if self@.contains_key(t) && t != k {
                            let j = choose|j: int| self.has_key_at(t, j);
                            assert(before.has_key_at(t, j));
                        }
                    }
                    assert forall|t: Seq<char>| #[trigger] self@.contains_key(t) implies self@[t]
                        == before@.insert(k, v)[t] by {
                        let j = choose|j: int| self.has_key_at(t, j);
                        self.lemma_entry(j);
                        if t != k {
                            assert(before.has_key_at(t, j));
                            before.lemma_entry(j);
                        } else {
                            assert(self.entries@[j].0@ == self.entries@[n].0@);
                        }
                    }
                    assert(self@ =~= before@.insert(k, v));
                }
            },
        }
    }

    /// Takes the entry for the jump `key` out of the plan and returns the new
    /// target that it held.
    pub fn remove(&mut self, key: &Tid) -> (r: Option<Tid>)
        requires
            old(self).wf(),
        ensures
            final(self).wf(),
            final(self)@ == old(self)@.remove(key@),
            tid_option_view(r) == lookup(old(self)@, key@),
    {
        let ghost before = *self;
        let ghost k = key@;
        match self.position(key) {
            Some(i) => {
                proof {
                    before.lemma_entry(i as int);
                }
                let entry = self.entries.remove(i);
                proof {
                    assert(self.wf()) by {
                        assert forall|a: int, b: int|
                            0 <= a < self.entries@.len() && 0 <= b < self.entries@.len() && (
                            #[trigger] self.entries@[a]).0@ == (#[trigger] self.entries@[b]).0@
                            implies a == b by {
                            let a0 = if a < i { a } else { a + 1 };
                            let b0 = if b < i { b } else { b + 1 };
                            assert(before.entries@[a0] == self.entries@[a]);
                            assert(before.entries@[b0] == self.entries@[b]);
                        }
                    }
                    assert forall|t: Seq<char>| #[trigger]
                        self@.contains_key(t) == before@.remove(k).contains_key(t) by {
                        if before@.contains_key(t) && t != k {
                            let j = choose|j: int| before.has_key_at(t, j);
                            let j1 = if j < i { j } else { j - 1 };
                            assert(self.has_key_at(t, j1));
                        }
                        if self@.contains_key(t) {
                            let j = choose|j: int| self.has_key_at(t, j);
                            let j0 = if j < i { j } else { j + 1 };
                            assert(before.has_key_at(t, j0));
                        }
                    }
                    assert forall|t: Seq<char>| #[trigger] self@.contains_key(t) implies self@[t]
                        == before@.remove(k)[t] by {
                        let j = choose|j: int| self.has_key_at(t, j);
                        let j0 = if j < i { j } else { j + 1 };
                        self.lemma_entry(j);
                        assert(before.has_key_at(t, j0));
                        before.lemma_entry(j0);
                    }
                    assert(self@ =~= before@.remove(k));
                }
                Some(entry.1)
            },
            None => {
                assert(self@ =~= before@.remove(k));
                None
            },
        }
    }
}

} // verus!
