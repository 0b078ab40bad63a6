# jetscii

Search byte slices for the first of a small set of bytes (up to 16), for
every such byte in turn, or for the first occurrence of a byte string. Every
search is a Verus-verified function whose contract states exactly which
position it returns.

- `src/matching.rs`: what the searches look for, stated over sequences
  (`first_in`, `positions_in`, `first_occurrence`), and lemmas on them.
- `src/fallback.rs`: byte-at-a-time searches, driven by a predicate
  closure or a byte string.
- `src/simd/x86.rs`: the search of the SSE 4.2 packed string comparisons,
  computed lane by lane, in 16-byte blocks aligned in memory.
- `src/simd/aarch64.rs`: the search of the NEON table lookup over a 256-bit
  set, with an iterator that hands out matches from a 64-bit mask per
  64 bytes.
- `src/agreement.rs`: the searchers give the same answers.
