//! Searching one byte at a time: for the first byte a predicate accepts, or
//! for the first occurrence of a byte string.
use vstd::prelude::*;
use crate::matching::{
    first_in_from, first_occurrence, in_set_at, lemma_count_bound, lemma_positions_count, lemma_positions_step,
    occurs_at, positions_in, starts_with_at,
};

verus! {

/// `res` is the position of the first byte of `hay`, at `from` or later, on
/// which the predicate `f` answered `true`, every byte before it answered
/// `false`; `None` when every byte answered `false`.
pub open spec fn first_accepted_from<F: Fn(u8) -> bool>(f: F, hay: Seq<u8>, from: int, res: Option<usize>) -> bool {
    match res {
        Some(i) => {
            &&& from <= i < hay.len()
            &&& call_ensures(f, (hay[i as int],), true)
            &&& forall|j: int| from <= j < i ==> call_ensures(f, (#[trigger] hay[j],), false)
        },
        None => forall|j: int| from <= j < hay.len() ==> call_ensures(f, (#[trigger] hay[j],), false),
    }
}

/// When the predicate answers for each byte whether it is in `set`, the
/// first byte it accepts is the first byte of the set.
pub proof fn lemma_accepted_is_first_in<F: Fn(u8) -> bool>(f: F, set: Set<u8>, hay: Seq<u8>, from: int, res: Option<usize>)
    requires
        forall|b: u8, r: bool| call_ensures(f, (b,), r) ==> r == set.contains(b),
        first_accepted_from(f, hay, from, res),
    ensures
        first_in_from(hay, set, from, res),
{
    match res {
        Some(i) => {
            assert(call_ensures(f, (hay[i as int],), true));
            assert forall|j: int| from <= j < i implies !set.contains(#[trigger] hay[j]) by {
                assert(call_ensures(f, (hay[j],), false));
            }
        },
        None => {
            assert forall|j: int| from <= j < hay.len() implies !set.contains(#[trigger] hay[j]) by {
                assert(call_ensures(f, (hay[j],), false));
            }
        },
    }
}

/// Searches for the first byte that a caller-supplied predicate accepts.
pub struct Bytes<F> {
    fallback: F,
}

impl<F> Bytes<F> where F: Fn(u8) -> bool {
    /// The predicate this searcher was built with.
    pub closed spec fn predicate(&self) -> F {
        self.fallback
    }

    pub fn new(fallback: F) -> (s: Self)
        ensures
            s.predicate() == fallback,
    {
        Bytes { fallback }
    }

    pub fn find(&self, haystack: &[u8]) -> (res: Option<usize>)
        requires
            forall|b: u8| call_requires(self.predicate(), (b,)),
        ensures
            first_accepted_from(self.predicate(), haystack@, 0, res),
    {
        let mut i: usize = 0;
        while i < haystack.len()
            invariant
                i <= haystack@.len(),
                forall|b: u8| call_requires(self.predicate(), (b,)),
                forall|j: int| 0 <= j < i ==> call_ensures(self.predicate(), (#[trigger] haystack@[j],), false),
            decreases haystack@.len() - i,
        {
            let b = haystack[i];
            assert(call_requires(self.predicate(), (b,)));
            let hit = (self.fallback)(b);
            assert(call_ensures(self.predicate(), (haystack@[i as int],), hit));
            if hit {
                return Some(i);
            }
            i += 1;
        }
        None
    }

    pub fn iter<'a>(&'a self, haystack: &'a [u8]) -> (it: BytesIter<'a, F>)
        ensures
            it.wf(),
            it.searcher() == self,
            it.whole() == haystack@,
            it.cursor() == 0,
    {
        proof {
            assert(haystack@.subrange(0, haystack@.len() as int) =~= haystack@);
            assert(haystack@.len() == haystack.len());
        }
        BytesIter { bytes: self, haystack, offset: 0, whole: Ghost(haystack@) }
    }
}

/// Searches for the first occurrence of a byte string.
pub struct ByteSubstring<'a> {
    needle: &'a [u8],
}

impl<'a> ByteSubstring<'a> {
    /// The byte string searched for.
    pub closed spec fn needle(&self) -> Seq<u8> {
        self.needle@
    }

    pub fn new(needle: &'a [u8]) -> (s: Self)
        ensures
            s.needle() == needle@,
    {
        ByteSubstring { needle }
    }

    pub fn needle_len(&self) -> (n: usize)
        ensures
            n == self.needle().len(),
    {
        self.needle.len()
    }

    pub fn find(&self, haystack: &[u8]) -> (res: Option<usize>)
        requires
            self.needle().len() > 0,
        ensures
            first_occurrence(haystack@, self.needle(), res),
    {
        let n = self.needle.len();
        if n > haystack.len() {
            return None;
        }
        let end = haystack.len() - n + 1;
        let mut i: usize = 0;
        while i < end
            invariant
                n == self.needle@.len() > 0,
                end + n == haystack@.len() + 1,
                i <= end,
                forall|j: int| 0 <= j < i ==> !occurs_at(haystack@, self.needle@, j),
            decreases end - i,
        {
            if starts_with_at(haystack, i, self.needle) {
                return Some(i);
            }
            i += 1;
        }
        None
    }
}

/// The positions of the bytes accepted by a [`Bytes`] searcher, one at a time.
pub struct BytesIter<'a, F> {
    bytes: &'a Bytes<F>,
    haystack: &'a [u8],
    offset: usize,
    whole: Ghost<Seq<u8>>,
}

impl<'a, F> BytesIter<'a, F> where F: Fn(u8) -> bool {
    /// The searcher whose predicate decides which bytes are reported.
    pub closed spec fn searcher(&self) -> &'a Bytes<F> {
        self.bytes
    }

    /// The haystack the iteration started with.
    pub closed spec fn whole(&self) -> Seq<u8> {
        self.whole@
    }

    /// Where the search resumes: every position before it has been reported
    /// or rejected.
    pub closed spec fn cursor(&self) -> int {
        self.whole@.len() - self.haystack@.len()
    }

    pub closed spec fn wf(&self) -> bool {
        &&& self.haystack@.len() <= self.whole@.len()
        &&& self.haystack@ == self.whole@.subrange(self.cursor(), self.whole@.len() as int)
        &&& self.haystack@.len() > 0 ==> self.offset == self.cursor()
        &&& self.whole@.len() <= usize::MAX
    }

    pub fn next(&mut self) -> (res: Option<usize>)
        requires
            old(self).wf(),
            forall|b: u8| call_requires(old(self).searcher().predicate(), (b,)),
        ensures
            final(self).wf(),
            final(self).searcher() == old(self).searcher(),
            final(self).whole() == old(self).whole(),
            first_accepted_from(old(self).searcher().predicate(), old(self).whole(), old(self).cursor(), res),
            match res {
                Some(r) => final(self).cursor() == r + 1,
                None => final(self).cursor() == old(self).whole().len(),
            },
    {
        proof {
            assert forall|b: u8| call_requires(self.bytes.predicate(), (b,)) by {
                assert(call_requires(old(self).searcher().predicate(), (b,)));
            }
        }
        let idx = self.bytes.find(self.haystack);
        proof {
            let c = self.cursor();
            assert forall|j: int| 0 <= j < self.haystack@.len() implies #[trigger] self.haystack@[j] == self.whole@[c + j] by {}
        }
        if let Some(idx) = idx {
            let result = self.offset + idx;
            let rest = &self.haystack[idx + 1..self.haystack.len()];
            proof {
                let c = self.cursor();
                assert forall|j: int| c <= j < result implies
                    call_ensures(self.bytes.predicate(), (#[trigger] self.whole@[j],), false) by {
                    assert(self.haystack@[j - c] == self.whole@[j]);
                }
                assert(self.haystack@[idx as int] == self.whole@[result as int]);
            }
            self.haystack = rest;
            self.offset = result + 1;
            proof {
                assert(self.haystack@ =~= self.whole@.subrange(self.cursor(), self.whole@.len() as int));
            }
            Some(result)
        } else {
            proof {
                let c = self.cursor();
                assert forall|j: int| c <= j < self.whole@.len() implies
                    call_ensures(self.bytes.predicate(), (#[trigger] self.whole@[j],), false) by {
                    assert(self.haystack@[j - c] == self.whole@[j]);
                }
            }
            self.haystack = &[];
            proof {
                assert(self.haystack@ =~= self.whole@.subrange(self.cursor(), self.whole@.len() as int));
            }
            None
        }
    }

    pub fn size_hint(&self) -> (r: (usize, Option<usize>))
        requires
            self.wf(),
        ensures
            r.0 == 0,
            r.1 == Some((self.whole().len() - self.cursor()) as usize),
    {
        (0, Some(self.haystack.len()))
    }
}

/// Iterating with a predicate that accepts exactly the bytes of `set` hands
/// out the positions of the set's bytes one by one, in increasing order: a
/// call of `next` that returns `Some(r)` takes `r` off the front of the
/// positions left, and one that returns `None` leaves none behind it. A new
/// iterator starts from every position of the haystack (its cursor is 0).
pub proof fn lemma_iteration_enumerates<'a, F: Fn(u8) -> bool>(
    set: Set<u8>,
    before: BytesIter<'a, F>,
    after: BytesIter<'a, F>,
    res: Option<usize>,
)
    requires
        before.wf(),
        forall|b: u8, r: bool| call_ensures(before.searcher().predicate(), (b,), r) ==> r == set.contains(b),
        after.whole() == before.whole(),
        first_accepted_from(before.searcher().predicate(), before.whole(), before.cursor(), res),
        match res {
            Some(r) => after.cursor() == r + 1,
            None => after.cursor() == before.whole().len(),
        },
    ensures
        match res {
            Some(r) => positions_in(before.whole(), set, before.cursor())
                == seq![r as int].add(positions_in(after.whole(), set, after.cursor())),
            None => {
                &&& positions_in(before.whole(), set, before.cursor()) == Seq::<int>::empty()
                &&& positions_in(after.whole(), set, after.cursor()) == Seq::<int>::empty()
            },
        },
{
    lemma_accepted_is_first_in(before.searcher().predicate(), set, before.whole(), before.cursor(), res);
    lemma_positions_step(before.whole(), set, before.cursor(), res);
}

/// The size hint bounds what is left: no more positions of any set's bytes
/// remain after the cursor than the upper bound `size_hint` gives, the
/// number of bytes not yet looked at.
pub proof fn lemma_size_hint_bounds<'a, F: Fn(u8) -> bool>(set: Set<u8>, it: BytesIter<'a, F>)
    requires
        it.wf(),
    ensures
        0 <= it.cursor() <= it.whole().len(),
        positions_in(it.whole(), set, it.cursor()).len() <= it.whole().len() - it.cursor(),
{
    lemma_positions_count(it.whole(), set, it.cursor());
    lemma_count_bound(in_set_at(it.whole(), set), it.cursor(), it.whole().len() as int);
}

} // verus!
