//! Term identifiers, and terms that carry one.

use vstd::prelude::*;

verus! {

/// A term identifier: the stable, unique name of a block, a jump, a definition or a subroutine.
#[derive(Debug, PartialEq, Eq, Hash)]
pub struct Tid {
    pub id: String,
}

impl View for Tid {
    type V = Seq<char>;

    open spec fn view(&self) -> Seq<char> {
        self.id@
    }
}

impl Clone for Tid {
    fn clone(&self) -> (r: Self)
        ensures
            r@ == self@,
    {
        Tid { id: self.id.clone() }
    }
}

impl Tid {
    /// The identifier with the given name.
    pub fn new(name: &str) -> (r: Tid)
        ensures
            r@ == name@,
    {
        Tid { id: name.to_owned() }
    }

    /// Whether two identifiers are the same.
    pub fn same_as(&self, other: &Tid) -> (r: bool)
        ensures
            r == (self@ == other@),
    {
        self.id == other.id
    }
}

/// A term: some payload together with its identifier.
#[derive(Debug, PartialEq, Eq, Clone)]
pub struct Term<T> {
    pub tid: Tid,
    pub term: T,
}

/// The mathematical value of a [`Term`].
pub ghost struct TermView<V> {
    pub tid: Seq<char>,
    pub term: V,
}

impl<T: View> View for Term<T> {
    type V = TermView<T::V>;

    open spec fn view(&self) -> TermView<T::V> {
        TermView { tid: self.tid@, term: self.term@ }
    }
}

/// The views of a sequence of terms, in order.
pub open spec fn terms_view<T: View>(terms: Seq<Term<T>>) -> Seq<TermView<T::V>> {
    Seq::new(terms.len(), |i: int| terms[i]@)
}

/// The views of a sequence of identifiers, in order.
pub open spec fn tids_view(tids: Seq<Tid>) -> Seq<Seq<char>> {
    Seq::new(tids.len(), |i: int| tids[i]@)
}

/// The view of an identifier that may be absent.
pub open spec fn tid_option_view(tid: Option<Tid>) -> Option<Seq<char>> {
    match tid {
        Some(t) => Some(t@),
        None => None,
    }
}

/// `i` is the position of the first term in `terms` that carries `tid`.
pub open spec fn is_first_with_tid<V>(terms: Seq<TermView<V>>, tid: Seq<char>, i: int) -> bool {
    &&& 0 <= i < terms.len()
    &&& terms[i].tid == tid
    &&& forall|j: int| 0 <= j < i ==> (#[trigger] terms[j]).tid != tid
}

/// The position of the first term in `terms` that carries `tid`, if there is one.
pub open spec fn first_with_tid<V>(terms: Seq<TermView<V>>, tid: Seq<char>) -> Option<int> {
    if exists|i: int| is_first_with_tid(terms, tid, i) {
        Some(choose|i: int| is_first_with_tid(terms, tid, i))
    } else {
        None
    }
}

/// A first position is the only one: it is what `first_with_tid` gives.
pub proof fn lemma_first_with_tid_is<V>(terms: Seq<TermView<V>>, tid: Seq<char>, i: int)
    requires
        is_first_with_tid(terms, tid, i),
    ensures
        first_with_tid(terms, tid) == Some(i),
{
    let c = choose|c: int| is_first_with_tid(terms, tid, c);
    assert(is_first_with_tid(terms, tid, c));
    if c < i {
        assert(terms[c].tid != tid);
    }
    if i < c {
        assert(terms[i].tid != tid);
    }
}

/// Where some term carries `tid`, one of them is the first.
pub proof fn lemma_first_exists<V>(terms: Seq<TermView<V>>, tid: Seq<char>, i: int)
    requires
        0 <= i < terms.len(),
        terms[i].tid == tid,
    ensures
        exists|j: int| is_first_with_tid(terms, tid, j),
    decreases i,
{
    if exists|j: int| 0 <= j < i && (#[trigger] terms[j]).tid == tid {
        let j = choose|j: int| 0 <= j < i && (#[trigger] terms[j]).tid == tid;
        lemma_first_exists(terms, tid, j);
    } else {
        assert(is_first_with_tid(terms, tid, i));
    }
}

/// Where no term carries `tid`, `first_with_tid` gives nothing.
pub proof fn lemma_first_with_tid_none<V>(terms: Seq<TermView<V>>, tid: Seq<char>)
    requires
        forall|j: int| 0 <= j < terms.len() ==> (#[trigger] terms[j]).tid != tid,
    ensures
        first_with_tid(terms, tid) is None,
{
    if exists|i: int| is_first_with_tid(terms, tid, i) {
        let c = choose|c: int| is_first_with_tid(terms, tid, c);
        assert(terms[c].tid == tid);
    }
}

/// Finds the first term of `terms` that carries `tid`.
pub fn position_of<T: View>(terms: &Vec<Term<T>>, tid: &Tid) -> (r: Option<usize>)
    ensures
        match r {
            Some(i) => first_with_tid(terms_view(terms@), tid@) == Some(i as int),
            None => first_with_tid(terms_view(terms@), tid@) is None,
        },
{
    let mut i: usize = 0;
    while i < terms.len()
        invariant
            i <= terms.len(),
            forall|j: int| 0 <= j < i ==> (#[trigger] terms_view(terms@)[j]).tid != tid@,
        decreases terms.len() - i,
    {
        if terms[i].tid.same_as(tid) {
            proof {
                assert(terms_view(terms@)[i as int].tid == tid@);
                lemma_first_with_tid_is(terms_view(terms@), tid@, i as int);
            }
            return Some(i);
        }
        i += 1;
    }
    proof {
        lemma_first_with_tid_none(terms_view(terms@), tid@);
    }
    None
}

/// Whether `tid` occurs in `tids`.
pub fn contains_tid(tids: &Vec<Tid>, tid: &Tid) -> (r: bool)
    ensures
        r == tids_view(tids@).contains(tid@),
{
    let mut i: usize = 0;
    while i < tids.len()
        invariant
            i <= tids.len(),
            forall|j: int| 0 <= j < i ==> (#[trigger] tids_view(tids@)[j]) != tid@,
        decreases tids.len() - i,
    {
        if tids[i].same_as(tid) {
            assert(tids_view(tids@)[i as int] == tid@);
            return true;
        }
        i += 1;
    }
    false
}

} // verus!
