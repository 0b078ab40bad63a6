//! The searchers of this crate answer alike: for the same bytes or the same
//! byte string, each gives the same position on every haystack.
use vstd::prelude::*;
use crate::fallback::{first_accepted_from, lemma_accepted_is_first_in};
use crate::matching::{first_any, first_in, first_occurrence, lemma_first_in_unique, lemma_first_occurrence_unique};
use crate::simd::aarch64;
use crate::simd::x86;

verus! {

/// Built from the same array of up to 16 bytes, the packed comparison and
/// the table lookup find the same position in every haystack.
pub proof fn lemma_byte_searches_agree(
    bytes: [u8; 16],
    needle_len: i32,
    packed: x86::Bytes,
    table: aarch64::Bytes,
    hay: Seq<u8>,
    by_compare: Option<usize>,
    by_lookup: Option<usize>,
)
    requires
        0 <= needle_len <= 16,
        packed.needle() == bytes@.subrange(0, x86::explicit_len(needle_len)),
        table.needle_set() == bytes@.subrange(0, needle_len as int).to_set(),
        first_any(hay, packed.needle(), by_compare),
        first_in(hay, table.needle_set(), by_lookup),
    ensures
        by_compare == by_lookup,
{
    assert(x86::explicit_len(needle_len) == needle_len);
    lemma_first_in_unique(hay, table.needle_set(), 0, by_compare, by_lookup);
}

/// A predicate that accepts exactly the bytes a table lookup searches for
/// finds the same position in every haystack.
pub proof fn lemma_predicate_agrees<F: Fn(u8) -> bool>(
    f: F,
    table: aarch64::Bytes,
    hay: Seq<u8>,
    by_predicate: Option<usize>,
    by_lookup: Option<usize>,
)
    requires
        forall|b: u8, r: bool| call_ensures(f, (b,), r) ==> r == table.needle_set().contains(b),
        first_accepted_from(f, hay, 0, by_predicate),
        first_in(hay, table.needle_set(), by_lookup),
    ensures
        by_predicate == by_lookup,
{
    lemma_accepted_is_first_in(f, table.needle_set(), hay, 0, by_predicate);
    lemma_first_in_unique(hay, table.needle_set(), 0, by_predicate, by_lookup);
}

/// The substring searches find the same position in every haystack.
pub proof fn lemma_substring_searches_agree(
    needle: Seq<u8>,
    hay: Seq<u8>,
    by_windows: Option<usize>,
    by_compare: Option<usize>,
)
    requires
        first_occurrence(hay, needle, by_windows),
        first_occurrence(hay, needle, by_compare),
    ensures
        by_windows == by_compare,
{
    lemma_first_occurrence_unique(hay, needle, by_windows, by_compare);
}

} // verus!
