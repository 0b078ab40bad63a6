//! What the searches of this crate look for, stated over sequences.
use vstd::prelude::*;

verus! {

/// `res` is the position of the first byte of `hay`, at `from` or later,
/// that belongs to `set`; `None` when there is none.
pub open spec fn first_in_from(hay: Seq<u8>, set: Set<u8>, from: int, res: Option<usize>) -> bool {
    match res {
        Some(i) => {
            &&& from <= i < hay.len()
            &&& set.contains(hay[i as int])
            &&& forall|j: int| from <= j < i ==> !set.contains(#[trigger] hay[j])
        },
        None => forall|j: int| from <= j < hay.len() ==> !set.contains(#[trigger] hay[j]),
    }
}

/// `res` is the position of the first byte of `hay` that belongs to `set`.
pub open spec fn first_in(hay: Seq<u8>, set: Set<u8>, res: Option<usize>) -> bool {
    first_in_from(hay, set, 0, res)
}

/// `res` is the position of the first byte of `hay` that is one of the
/// bytes of `needle`.
pub open spec fn first_any(hay: Seq<u8>, needle: Seq<u8>, res: Option<usize>) -> bool {
    first_in(hay, needle.to_set(), res)
}

/// The positions, in increasing order, of the bytes of `hay` at `from` or
/// later that belong to `set`.
pub open spec fn positions_in(hay: Seq<u8>, set: Set<u8>, from: int) -> Seq<int>
    decreases hay.len() - from,
{
    if from < 0 || from >= hay.len() {
        Seq::empty()
    } else if set.contains(hay[from]) {
        seq![from].add(positions_in(hay, set, from + 1))
    } else {
        positions_in(hay, set, from + 1)
    }
}

/// The number of `j` in `[a, b)` for which `p(j)` holds.
pub open spec fn count_where(p: spec_fn(int) -> bool, a: int, b: int) -> nat
    decreases b - a,
{
    if b <= a {
        0
    } else {
        count_where(p, a, b - 1) + if p(b - 1) { 1nat } else { 0nat }
    }
}

/// A search for the first byte of a set has one answer.
pub proof fn lemma_first_in_unique(hay: Seq<u8>, set: Set<u8>, from: int, r1: Option<usize>, r2: Option<usize>)
    requires
        first_in_from(hay, set, from, r1),
        first_in_from(hay, set, from, r2),
    ensures
        r1 == r2,
{
    match (r1, r2) {
        (Some(a), Some(b)) => {
            if a < b {
                assert(!set.contains(hay[a as int]));
            } else if b < a {
                assert(!set.contains(hay[b as int]));
            }
        },
        (Some(a), None) => {
            assert(!set.contains(hay[a as int]));
        },
        (None, Some(b)) => {
            assert(!set.contains(hay[b as int]));
        },
        (None, None) => {},
    }
}

/// Handing out the first position of the set's bytes from `from` on leaves
/// the positions after it; when there is none, none are left.
pub proof fn lemma_positions_step(hay: Seq<u8>, set: Set<u8>, from: int, res: Option<usize>)
    requires
        0 <= from <= hay.len(),
        first_in_from(hay, set, from, res),
    ensures
        match res {
            Some(r) => positions_in(hay, set, from) == seq![r as int].add(positions_in(hay, set, r + 1)),
            None => positions_in(hay, set, from) == Seq::<int>::empty(),
        },
    decreases hay.len() - from,
{
    if from < hay.len() {
        match res {
            Some(r) => {
                if from < r {
                    assert(!set.contains(hay[from]));
                    lemma_positions_step(hay, set, from + 1, res);
                }
            },
            None => {
                assert(!set.contains(hay[from]));
                lemma_positions_step(hay, set, from + 1, res);
            },
        }
    }
}

/// The positions listed from `from` on are exactly those of the set's
/// bytes there, in increasing order.
pub proof fn lemma_positions_exact(hay: Seq<u8>, set: Set<u8>, from: int)
    requires
        0 <= from,
    ensures
        forall|i: int| 0 <= i < positions_in(hay, set, from).len() ==> {
            let p = #[trigger] positions_in(hay, set, from)[i];
            from <= p < hay.len() && set.contains(hay[p])
        },
        forall|i: int, j: int| 0 <= i < j < positions_in(hay, set, from).len() ==>
            #[trigger] positions_in(hay, set, from)[i] < #[trigger] positions_in(hay, set, from)[j],
        forall|p: int| from <= p < hay.len() && set.contains(#[trigger] hay[p]) ==> positions_in(hay, set, from).contains(p),
    decreases hay.len() - from,
{
    if from < hay.len() {
        lemma_positions_exact(hay, set, from + 1);
        let rest = positions_in(hay, set, from + 1);
        let all = positions_in(hay, set, from);
        if set.contains(hay[from]) {
            assert(all == seq![from].add(rest));
            assert forall|i: int| 0 <= i < all.len() implies {
                let p = #[trigger] all[i];
                from <= p < hay.len() && set.contains(hay[p])
            } by {
                if i > 0 {
                    assert(all[i] == rest[i - 1]);
                }
            }
            assert forall|i: int, j: int| 0 <= i < j < all.len() implies #[trigger] all[i] < #[trigger] all[j] by {
                assert(all[j] == rest[j - 1]);
                if i > 0 {
                    assert(all[i] == rest[i - 1]);
                }
            }
            assert forall|p: int| from <= p < hay.len() && set.contains(#[trigger] hay[p]) implies all.contains(p) by {
                if p == from {
                    assert(all[0] == p);
                } else {
                    assert(rest.contains(p));
                    let i = choose|i: int| 0 <= i < rest.len() && rest[i] == p;
                    assert(all[i + 1] == p);
                }
            }
        } else {
            assert(all == rest);
        }
    }
}

/// Whether the byte at a position of `hay` belongs to `set`.
pub open spec fn in_set_at(hay: Seq<u8>, set: Set<u8>) -> spec_fn(int) -> bool {
    |j: int| set.contains(hay[j])
}

/// Nothing counted where nothing holds.
pub proof fn lemma_count_none(p: spec_fn(int) -> bool, a: int, b: int)
    requires
        forall|j: int| a <= j < b ==> !#[trigger] p(j),
    ensures
        count_where(p, a, b) == 0,
    decreases b - a,
{
    if a < b {
        lemma_count_none(p, a, b - 1);
    }
}

/// Counting over `[a, b)` is counting over `[a, m)` and over `[m, b)`.
pub proof fn lemma_count_split(p: spec_fn(int) -> bool, a: int, m: int, b: int)
    requires
        a <= m <= b,
    ensures
        count_where(p, a, b) == count_where(p, a, m) + count_where(p, m, b),
    decreases b - m,
{
    if m < b {
        lemma_count_split(p, a, m, b - 1);
    }
}

/// No more than `b - a` of the `j` in `[a, b)` are counted.
pub proof fn lemma_count_bound(p: spec_fn(int) -> bool, a: int, b: int)
    requires
        a <= b,
    ensures
        count_where(p, a, b) <= b - a,
    decreases b - a,
{
    if a < b {
        lemma_count_bound(p, a, b - 1);
    }
}

/// Counting what agrees, place by place, after a shift by `d`.
pub proof fn lemma_count_shift(p: spec_fn(int) -> bool, q: spec_fn(int) -> bool, a: int, b: int, d: int)
    requires
        forall|j: int| a <= j < b ==> #[trigger] p(j) == q(j + d),
    ensures
        count_where(p, a, b) == count_where(q, a + d, b + d),
    decreases b - a,
{
    if a < b {
        lemma_count_shift(p, q, a, b - 1, d);
    }
}

/// Counting the other way round.
pub proof fn lemma_count_reverse(p: spec_fn(int) -> bool, a: int, b: int)
    requires
        a <= b,
    ensures
        count_where(p, a, b) == count_where(|j: int| p(a + b - 1 - j), a, b),
    decreases b - a,
{
    let q = |j: int| p(a + b - 1 - j);
    if a < b {
        // The reversal of [a, b - 1), seen from [a + 1, b).
        let r = |j: int| p(a + (b - 1) - 1 - j);
        lemma_count_reverse(p, a, b - 1);
        lemma_count_split(q, a, a + 1, b);
        lemma_count_shift(r, q, a, b - 1, 1);
        assert(count_where(q, a, a + 1) == if p(b - 1) { 1nat } else { 0nat }) by {
            assert(count_where(q, a, a) == 0);
        }
    }
}

/// The positions of `positions_in` are as many as the bytes of the set.
pub proof fn lemma_positions_count(hay: Seq<u8>, set: Set<u8>, from: int)
    requires
        0 <= from <= hay.len(),
    ensures
        positions_in(hay, set, from).len() == count_where(in_set_at(hay, set), from, hay.len() as int),
    decreases hay.len() - from,
{
    let p = in_set_at(hay, set);
    if from < hay.len() {
        lemma_positions_count(hay, set, from + 1);
        lemma_count_split(p, from, from + 1, hay.len() as int);
        assert(count_where(p, from, from) == 0);
    }
}

/// `needle` occurs in `hay` starting at position `i`.
pub open spec fn occurs_at(hay: Seq<u8>, needle: Seq<u8>, i: int) -> bool {
    &&& 0 <= i
    &&& i + needle.len() <= hay.len()
    &&& hay.subrange(i, i + needle.len()) == needle
}

/// `res` is the first position `i` of `hay` such that `hay[i..]` starts
/// with `needle`; `None` when there is none.
pub open spec fn first_occurrence(hay: Seq<u8>, needle: Seq<u8>, res: Option<usize>) -> bool {
    match res {
        Some(i) => {
            &&& i < hay.len()
            &&& occurs_at(hay, needle, i as int)
            &&& forall|j: int| 0 <= j < i ==> !occurs_at(hay, needle, j)
        },
        None => forall|j: int| 0 <= j < hay.len() ==> !occurs_at(hay, needle, j),
    }
}

/// A search for the first occurrence of a byte string has one answer.
pub proof fn lemma_first_occurrence_unique(hay: Seq<u8>, needle: Seq<u8>, r1: Option<usize>, r2: Option<usize>)
    requires
        first_occurrence(hay, needle, r1),
        first_occurrence(hay, needle, r2),
    ensures
        r1 == r2,
{
    match (r1, r2) {
        (Some(a), Some(b)) => {
            if a < b {
                assert(!occurs_at(hay, needle, a as int));
            } else if b < a {
                assert(!occurs_at(hay, needle, b as int));
            }
        },
        (Some(a), None) => {
            assert(!occurs_at(hay, needle, a as int));
        },
        (None, Some(b)) => {
            assert(!occurs_at(hay, needle, b as int));
        },
        (None, None) => {},
    }
}

/// Whether `needle` occurs in `haystack` starting at `start`.
pub fn starts_with_at(haystack: &[u8], start: usize, needle: &[u8]) -> (r: bool)
    ensures
        r == occurs_at(haystack@, needle@, start as int),
{
    if start > haystack.len() || needle.len() > haystack.len() - start {
        return false;
    }
    let mut k: usize = 0;
    while k < needle.len()
        invariant
            start + needle@.len() <= haystack@.len() <= usize::MAX,
            k <= needle@.len(),
            forall|m: int| 0 <= m < k ==> haystack@[start + m] == needle@[m],
        decreases needle@.len() - k,
    {
        if haystack[start + k] != needle[k] {
            assert(haystack@.subrange(start as int, start + needle@.len())[k as int] != needle@[k as int]);
            return false;
        }
        k += 1;
    }
    assert(haystack@.subrange(start as int, start + needle@.len()) =~= needle@);
    true
}

} // verus!
