//! Searching the way the SSE 4.2 packed string comparisons (`PCMPESTRI`,
//! `PCMPESTRM`) do: the haystack is compared 16 bytes at a time, in chunks
//! aligned on 16-byte boundaries of memory. Each comparison is computed lane
//! by lane, by the rules of the instructions for explicit lengths.
use vstd::prelude::*;
use crate::matching::{first_any, first_occurrence, occurs_at, starts_with_at};

verus! {

broadcast use vstd::std_specs::bits::axiom_u16_trailing_zeros;

const BYTES_PER_OPERATION: usize = 16;

/// The two comparisons the searches make.
#[derive(Clone, Copy)]
pub enum CompareMode {
    /// A lane matches when its byte equals any byte of the needle.
    EqualAny,
    /// A lane matches when the needle starts there, as far as the register
    /// reaches.
    EqualOrdered,
}

/// The number of elements an explicit length stands for: its absolute
/// value, saturated to 16.
pub open spec fn explicit_len(len: i32) -> int {
    let a: int = if len < 0 { -(len as int) } else { len as int };
    if a > 16 { 16 } else { a }
}

/// Bit `k` of `m` is set.
pub open spec fn bit16(m: u16, k: u16) -> bool {
    (m >> k) & 1u16 == 1u16
}

/// Whether lane `j` of the haystack register matches, for the first `la`
/// needle bytes and the first `lb` haystack lanes.
pub open spec fn lane_matches(mode: CompareMode, needle: Seq<u8>, la: int, hay: Seq<u8>, lb: int, j: int) -> bool {
    match mode {
        CompareMode::EqualAny => j < lb && exists|i: int| 0 <= i < la && needle[i] == hay[j],
        CompareMode::EqualOrdered => forall|i: int| 0 <= i < 16 - j ==> #[trigger] ordered_pair_ok(needle, la, hay, lb, j, i),
    }
}

/// For an ordered comparison at lane `j`: needle byte `i` lies past the
/// needle, or it equals the haystack byte it is set against.
pub open spec fn ordered_pair_ok(needle: Seq<u8>, la: int, hay: Seq<u8>, lb: int, j: int, i: int) -> bool {
    i >= la || (j + i < lb && needle[i] == hay[j + i])
}

proof fn lemma_bit16_set(m: u16, j: u16, k: u16)
    requires
        j < 16,
        k < 16,
    ensures
        bit16(m | (1u16 << j), k) == (bit16(m, k) || k == j),
{
    assert(bit16(m | (1u16 << j), k) == (bit16(m, k) || k == j)) by (bit_vector)
        requires j < 16u16, k < 16u16;
}

proof fn lemma_bit16_zero(k: u16)
    ensures
        !bit16(0, k),
{
    assert(!bit16(0, k)) by (bit_vector);
}

proof fn lemma_bit16_shift(m: u16, s: u16, k: u16)
    requires
        s < 16,
        k < 16,
    ensures
        bit16(m >> s, k) == (s + k < 16 && bit16(m, (s + k) as u16)),
{
    if s + k < 16 {
        let t = (s + k) as u16;
        assert(bit16(m >> s, k) == bit16(m, t)) by (bit_vector)
            requires s < 16u16, k < 16u16, t == s + k, t < 16u16;
    } else {
        assert(!bit16(m >> s, k)) by (bit_vector)
            requires s < 16u16, k < 16u16, s + k >= 16;
    }
}

/// The number of elements an explicit length stands for.
fn explicit_len_exec(len: i32) -> (r: usize)
    ensures
        r == explicit_len(len),
{
    if len >= 16 || len <= -16 {
        16
    } else if len < 0 {
        (-len) as usize
    } else {
        len as usize
    }
}

/// Compares one lane of the haystack register.
#[verifier::loop_isolation(false)]
fn compare_lane(mode: CompareMode, needle: &[u8; 16], la: usize, hay: &[u8; 16], lb: usize, j: usize) -> (r: bool)
    requires
        la <= 16,
        lb <= 16,
        j < 16,
    ensures
        r == lane_matches(mode, needle@, la as int, hay@, lb as int, j as int),
{
    match mode {
        CompareMode::EqualAny => {
            if j >= lb {
                return false;
            }
            let mut i: usize = 0;
            while i < la
                invariant
                    i <= la <= 16,
                    j < lb <= 16,
                    forall|i2: int| 0 <= i2 < i ==> needle@[i2] != hay@[j as int],
                decreases la - i,
            {
                if needle[i] == hay[j] {
                    assert(needle@[i as int] == hay@[j as int]);
                    return true;
                }
                i += 1;
            }
            false
        },
        CompareMode::EqualOrdered => {
            let mut i: usize = 0;
            while i < 16 - j
                invariant
                    j < 16,
                    i <= 16 - j,
                    la <= 16,
                    lb <= 16,
                    forall|i2: int| 0 <= i2 < i ==> #[trigger] ordered_pair_ok(needle@, la as int, hay@, lb as int, j as int, i2),
                decreases 16 - j - i,
            {
                if i < la {
                    if j + i >= lb || needle[i] != hay[j + i] {
                        assert(!ordered_pair_ok(needle@, la as int, hay@, lb as int, j as int, i as int));
                        return false;
                    }
                }
                assert(ordered_pair_ok(needle@, la as int, hay@, lb as int, j as int, i as int));
                i += 1;
            }
            true
        },
    }
}

/// The match mask of a packed comparison: bit `j` tells whether lane `j`
/// of the haystack register matches.
fn compare_mask(mode: CompareMode, needle: &[u8; 16], needle_len: i32, hay: &[u8; 16], haystack_len: i32) -> (m: u16)
    ensures
        forall|j: u16| j < 16 ==> bit16(m, j) == lane_matches(mode, needle@, explicit_len(needle_len),
            hay@, explicit_len(haystack_len), j as int),
{
    let la = explicit_len_exec(needle_len);
    let lb = explicit_len_exec(haystack_len);
    let mut m: u16 = 0;
    let mut j: usize = 0;
    proof {
        assert forall|k: u16| j <= k < 16 implies !bit16(m, k) by {
            lemma_bit16_zero(k);
        }
    }
    while j < 16
        invariant
            j <= 16,
            la == explicit_len(needle_len),
            lb == explicit_len(haystack_len),
            la <= 16,
            lb <= 16,
            forall|k: u16| k < j ==> bit16(m, k) == lane_matches(mode, needle@, la as int, hay@, lb as int, k as int),
            forall|k: u16| j <= k < 16 ==> !bit16(m, k),
        decreases 16 - j,
    {
        let hit = compare_lane(mode, needle, la, hay, lb, j);
        let ghost old_m = m;
        if hit {
            m = m | (1u16 << (j as u16));
        }
        proof {
            assert forall|k: u16| k < j + 1 implies bit16(m, k) == lane_matches(mode, needle@, la as int, hay@, lb as int, k as int) by {
                if hit {
                    lemma_bit16_set(old_m, j as u16, k);
                }
            }
            assert forall|k: u16| j + 1 <= k < 16 implies !bit16(m, k) by {
                if hit {
                    lemma_bit16_set(old_m, j as u16, k);
                }
            }
        }
        j += 1;
    }
    proof {
        assert forall|k: u16| k < 16 implies bit16(m, k) == lane_matches(mode, needle@, explicit_len(needle_len),
            hay@, explicit_len(haystack_len), k as int) by {}
    }
    m
}

/// The 16 lanes of a register loaded with `bytes` starting at lane `at`,
/// every other lane zero.
pub open spec fn placed(bytes: Seq<u8>, at: int) -> Seq<u8> {
    Seq::new(16, |k: int| if at <= k < at + bytes.len() { bytes[k - at] } else { 0u8 })
}

/// The needle agrees with `hay` from `q` on, as far as `end` and the
/// haystack reach.
pub open spec fn agrees_until(hay: Seq<u8>, needle: Seq<u8>, q: int, end: int) -> bool {
    forall|i: int| 0 <= i < needle.len() && q + i < end && q + i < hay.len() ==> #[trigger] hay[q + i] == needle[i]
}

/// Where the last, partial block of a search of a haystack of `len` bytes,
/// starting at `block_offset` within its block, begins: the bytes from here
/// on are compared with their explicit length, up to the haystack's end.
pub open spec fn tail_start(len: int, block_offset: int) -> int {
    if len < 16 { 0 } else { len - (len + block_offset) % 16 }
}

/// The end of the 16-byte block of memory that holds position `q` of a
/// haystack starting at `block_offset` within its block.
pub open spec fn block_end(q: int, block_offset: int) -> int {
    q + 16 - (q + block_offset) % 16
}

proof fn lemma_block_end(q: int, block_offset: int, k: int, r: int)
    requires
        q + block_offset == k * 16 + r,
        0 <= r < 16,
    ensures
        block_end(q, block_offset) == q + 16 - r,
{
    vstd::arithmetic::div_mod::lemma_fundamental_div_mod_converse(q + block_offset, 16, k, r);
}

/// Loads `bytes` into a register, starting at lane `at`.
fn load_register(bytes: &[u8], at: usize) -> (r: [u8; 16])
    requires
        at + bytes@.len() <= 16,
    ensures
        r@ == placed(bytes@, at as int),
{
    let mut r = [0u8; 16];
    let mut k: usize = 0;
    while k < bytes.len()
        invariant
            at + bytes@.len() <= 16,
            k <= bytes@.len(),
            forall|m: int| 0 <= m < 16 ==> #[trigger] r@[m] == (if at <= m < at + k { bytes@[m - at] } else { 0u8 }),
        decreases bytes@.len() - k,
    {
        r[at + k] = bytes[k];
        k += 1;
    }
    assert(r@ =~= placed(bytes@, at as int));
    r
}

/// A needle and the comparison to make with it.
struct PackedCompare {
    needle: [u8; 16],
    needle_len: i32,
    mode: CompareMode,
}

impl PackedCompare {
    /// The bytes of the needle the instruction reads.
    spec fn needle_seq(&self) -> Seq<u8> {
        self.needle@.subrange(0, explicit_len(self.needle_len))
    }

    /// Whether lane `j` of the register `reg`, with `lb` valid lanes, matches.
    spec fn lane(&self, reg: Seq<u8>, lb: int, j: int) -> bool {
        lane_matches(self.mode, self.needle@, explicit_len(self.needle_len), reg, lb, j)
    }

    /// Whether position `p` of `hay` is what the search looks for: a needle
    /// byte, or the start of the needle.
    spec fn hit(&self, hay: Seq<u8>, p: int) -> bool {
        match self.mode {
            CompareMode::EqualAny => 0 <= p < hay.len() && self.needle_seq().contains(hay[p]),
            CompareMode::EqualOrdered => occurs_at(hay, self.needle_seq(), p),
        }
    }

    /// `res` answers a search of `hay`: for a search of any byte, the first
    /// hit; for a search of the needle, a position that no occurrence
    /// precedes.
    spec fn search_result(&self, hay: Seq<u8>, res: Option<usize>) -> bool {
        match res {
            Some(p) => {
                &&& p < hay.len()
                &&& (self.mode is EqualAny ==> self.hit(hay, p as int))
                &&& (self.mode is EqualOrdered && self.needle_seq().len() > 0 ==> hay[p as int] == self.needle_seq()[0])
                &&& forall|q: int| 0 <= q < p ==> !#[trigger] self.hit(hay, q)
            },
            None => forall|q: int| 0 <= q < hay.len() ==> !#[trigger] self.hit(hay, q),
        }
    }

    /// A lane of a register loaded from `hay` reports every hit at its
    /// position, and for a search of any byte nothing else.
    proof fn lemma_lane_of_window(&self, hay: Seq<u8>, reg: Seq<u8>, lb: int, base: int, j: int)
        requires
            1 <= lb <= 16,
            reg.len() == 16,
            0 <= j < lb,
            forall|k: int| j <= k < lb ==> 0 <= base + k < hay.len() && #[trigger] reg[k] == hay[base + k],
            lb == 16 || base + lb == hay.len(),
        ensures
            self.hit(hay, base + j) ==> self.lane(reg, lb, j),
            self.mode is EqualAny ==> (self.lane(reg, lb, j) ==> self.hit(hay, base + j)),
            self.mode is EqualOrdered && self.needle_seq().len() > 0 && self.lane(reg, lb, j) ==>
                hay[base + j] == self.needle_seq()[0],
    {
        let la = explicit_len(self.needle_len);
        let nd = self.needle_seq();
        assert(reg[j] == hay[base + j]);
        match self.mode {
            CompareMode::EqualAny => {
                if self.hit(hay, base + j) {
                    let i = choose|i: int| 0 <= i < nd.len() && nd[i] == hay[base + j];
                    assert(self.needle@[i] == reg[j]);
                }
                if self.lane(reg, lb, j) {
                    let i = choose|i: int| 0 <= i < la && self.needle@[i] == reg[j];
                    assert(nd[i] == hay[base + j]);
                }
            },
            CompareMode::EqualOrdered => {
                if nd.len() > 0 && self.lane(reg, lb, j) {
                    assert(ordered_pair_ok(self.needle@, la, reg, lb, j, 0));
                }
                if self.hit(hay, base + j) {
                    assert forall|i: int| 0 <= i < 16 - j implies #[trigger] ordered_pair_ok(self.needle@, la, reg, lb, j, i) by {
                        if i < la {
                            assert(hay.subrange(base + j, base + j + nd.len())[i] == nd[i]);
                            assert(reg[j + i] == hay[base + j + i]);
                        }
                    }
                }
            },
        }
    }

    /// A hit of a suffix is a hit of the whole at the same place.
    proof fn lemma_hit_suffix(&self, hay: Seq<u8>, start: int, q: int)
        requires
            0 <= start <= hay.len(),
            0 <= q,
        ensures
            self.hit(hay.subrange(start, hay.len() as int), q) == self.hit(hay, start + q),
    {
        let tail = hay.subrange(start, hay.len() as int);
        let nd = self.needle_seq();
        if q + nd.len() <= tail.len() {
            assert(tail.subrange(q, q + nd.len()) =~= hay.subrange(start + q, start + q + nd.len()));
        }
    }

    /// What a register of a window of `hay` reports at position `q`: for
    /// a search of any byte, a hit; for a search of the needle, a position
    /// where the needle agrees with the haystack as far as the register
    /// reaches (`end`), or, where the window's length is explicit (`hard`),
    /// where the whole needle occurs.
    spec fn window_hit(&self, hay: Seq<u8>, q: int, end: int, hard: bool) -> bool {
        match self.mode {
            CompareMode::EqualAny => self.hit(hay, q),
            CompareMode::EqualOrdered => 0 <= q < hay.len() && if hard {
                occurs_at(hay, self.needle_seq(), q)
            } else {
                agrees_until(hay, self.needle_seq(), q, end)
            },
        }
    }

    /// What a register loaded with all of a short haystack `hay` reports
    /// at position `q`.
    spec fn small_hit(&self, hay: Seq<u8>, q: int) -> bool {
        self.window_hit(hay, q, 16, hay.len() < 16)
    }

    /// The positions that the block search of `hay`, starting at
    /// `block_offset` within its block, reports: each is compared in the
    /// register of its block of memory, and those of the last, partial
    /// block with their explicit length.
    spec fn candidate(&self, hay: Seq<u8>, block_offset: int, q: int) -> bool {
        self.window_hit(hay, q, block_end(q, block_offset), q >= tail_start(hay.len() as int, block_offset))
    }

    /// `res` is the first candidate of the block search, or `None` when
    /// there is none.
    spec fn first_candidate(&self, hay: Seq<u8>, block_offset: int, res: Option<usize>) -> bool {
        match res {
            Some(p) => {
                &&& self.candidate(hay, block_offset, p as int)
                &&& forall|q: int| 0 <= q < p ==> !#[trigger] self.candidate(hay, block_offset, q)
            },
            None => forall|q: int| 0 <= q < hay.len() ==> !#[trigger] self.candidate(hay, block_offset, q),
        }
    }

    /// A lane of a register loaded from `hay` matches exactly where the
    /// window reports a hit.
    proof fn lemma_lane_exact(&self, hay: Seq<u8>, reg: Seq<u8>, lb: int, base: int, j: int)
        requires
            1 <= lb <= 16,
            reg.len() == 16,
            0 <= j < lb,
            0 <= base + j,
            base + lb <= hay.len(),
            forall|k: int| j <= k < lb ==> #[trigger] reg[k] == hay[base + k],
            lb == 16 || base + lb == hay.len(),
        ensures
            self.lane(reg, lb, j) == self.window_hit(hay, base + j, base + 16, lb < 16),
    {
        assert forall|k: int| #![trigger reg[k]] j <= k < lb implies 0 <= base + k < hay.len() && reg[k] == hay[base + k] by {}
        self.lemma_lane_of_window(hay, reg, lb, base, j);
        let la = explicit_len(self.needle_len);
        let nd = self.needle_seq();
        let q = base + j;
        assert(reg[j] == hay[q]);
        if self.mode is EqualOrdered {
            if lb < 16 {
                if self.lane(reg, lb, j) {
                    if la > 16 - j {
                        assert(ordered_pair_ok(self.needle@, la, reg, lb, j, 15 - j));
                    }
                    if la > 0 {
                        assert(ordered_pair_ok(self.needle@, la, reg, lb, j, la - 1));
                    }
                    assert(q + nd.len() <= hay.len());
                    assert forall|i: int| 0 <= i < nd.len() implies hay.subrange(q, q + nd.len())[i] == nd[i] by {
                        assert(ordered_pair_ok(self.needle@, la, reg, lb, j, i));
                        assert(reg[j + i] == hay[q + i]);
                    }
                    assert(hay.subrange(q, q + nd.len()) =~= nd);
                }
            } else {
                if self.lane(reg, lb, j) {
                    assert forall|i: int| 0 <= i < nd.len() && q + i < base + 16 && q + i < hay.len() implies #[trigger] hay[q + i] == nd[i] by {
                        assert(ordered_pair_ok(self.needle@, la, reg, lb, j, i));
                        assert(reg[j + i] == hay[q + i]);
                    }
                }
                if agrees_until(hay, nd, q, base + 16) {
                    assert forall|i: int| 0 <= i < 16 - j implies #[trigger] ordered_pair_ok(self.needle@, la, reg, lb, j, i) by {
                        if i < la {
                            assert(hay[q + i] == nd[i]);
                            assert(reg[j + i] == hay[q + i]);
                        }
                    }
                }
            }
        }
    }

    /// A window hit is a hit of the suffix it lies in.
    proof fn lemma_window_hit_suffix(&self, hay: Seq<u8>, start: int, q: int, end: int, hard: bool)
        requires
            0 <= start <= hay.len(),
            0 <= q,
        ensures
            self.window_hit(hay.subrange(start, hay.len() as int), q, end, hard)
                == self.window_hit(hay, start + q, start + end, hard),
    {
        self.lemma_hit_suffix(hay, start, q);
        let tail = hay.subrange(start, hay.len() as int);
        let nd = self.needle_seq();
        if q < tail.len() {
            assert(agrees_until(tail, nd, q, end) == agrees_until(hay, nd, start + q, start + end)) by {
                if agrees_until(tail, nd, q, end) {
                    assert forall|i: int| 0 <= i < nd.len() && start + q + i < start + end && start + q + i < hay.len() implies #[trigger] hay[start + q + i] == nd[i] by {
                        assert(tail[q + i] == nd[i]);
                    }
                }
                if agrees_until(hay, nd, start + q, start + end) {
                    assert forall|i: int| 0 <= i < nd.len() && q + i < end && q + i < tail.len() implies #[trigger] tail[q + i] == nd[i] by {
                        assert(hay[start + q + i] == nd[i]);
                    }
                }
            }
        }
    }

    /// What the first candidate tells of the search: a hit for a search of
    /// any byte, and no hit before it.
    proof fn lemma_first_candidate_answers(&self, hay: Seq<u8>, block_offset: int, res: Option<usize>)
        requires
            0 <= block_offset < 16,
            self.first_candidate(hay, block_offset, res),
        ensures
            self.search_result(hay, res),
    {
        assert forall|q: int| 0 <= q < hay.len() && #[trigger] self.hit(hay, q) implies self.candidate(hay, block_offset, q) by {
            let nd = self.needle_seq();
            if self.mode is EqualOrdered {
                assert forall|i: int| 0 <= i < nd.len() && q + i < block_end(q, block_offset) && q + i < hay.len() implies #[trigger] hay[q + i] == nd[i] by {
                    assert(hay.subrange(q, q + nd.len())[i] == nd[i]);
                }
            }
        }
        match res {
            Some(p) => {
                let nd = self.needle_seq();
                if self.mode is EqualOrdered && nd.len() > 0 {
                    if p >= tail_start(hay.len() as int, block_offset) {
                        assert(hay.subrange(p as int, p + nd.len())[0] == nd[0]);
                    } else {
                        assert(hay[p + 0] == nd[0]);
                    }
                }
                assert forall|q: int| 0 <= q < p implies !#[trigger] self.hit(hay, q) by {
                    assert(!self.candidate(hay, block_offset, q));
                }
            },
            None => {
                assert forall|q: int| 0 <= q < hay.len() implies !#[trigger] self.hit(hay, q) by {
                    assert(!self.candidate(hay, block_offset, q));
                }
            },
        }
    }

    /// Compares the 16 lanes of `haystack`, of which `haystack_len` are
    /// valid, and gives the first lane that matches.
    fn explicit_compare_index(&self, haystack: &[u8; 16], haystack_len: i32) -> (res: Option<usize>)
        requires
            1 <= haystack_len <= 16,
        ensures
            match res {
                Some(l) => {
                    &&& l < 16
                    &&& self.lane(haystack@, haystack_len as int, l as int)
                    &&& forall|k: int| 0 <= k < l ==> !#[trigger] self.lane(haystack@, haystack_len as int, k)
                },
                None => forall|k: int| 0 <= k < 16 ==> !#[trigger] self.lane(haystack@, haystack_len as int, k),
            },
    {
        let mask = compare_mask(self.mode, &self.needle, self.needle_len, haystack, haystack_len);
        let location = mask.trailing_zeros();
        proof {
            assert(explicit_len(haystack_len) == haystack_len);
            assert forall|k: int| 0 <= k < location && k < 16 implies !#[trigger] self.lane(haystack@, haystack_len as int, k) by {
                assert(!bit16(mask, k as u16));
            }
        }
        if location < 16 {
            proof {
                assert(bit16(mask, location as u16));
            }
            Some(location as usize)
        } else {
            None
        }
    }

    /// Compares the first 16-byte block of a haystack: `leading` holds its
    /// bytes of the haystack, which follow `leading_junk` bytes (none when the
    /// haystack starts on a boundary) that are not part of it. Gives the first
    /// match within the haystack, counted from its start.
    fn explicit_compare_mask(&self, leading: &[u8], leading_junk: usize) -> (res: Option<usize>)
        requires
            leading_junk < 16,
            leading@.len() + leading_junk <= 16,
        ensures
            match res {
                Some(l) => {
                    &&& l + leading_junk < 16
                    &&& self.lane(placed(leading@, leading_junk as int), 16, leading_junk + l)
                    &&& forall|k: int| leading_junk <= k < leading_junk + l ==>
                            !#[trigger] self.lane(placed(leading@, leading_junk as int), 16, k)
                },
                None => forall|k: int| leading_junk <= k < 16 ==>
                            !#[trigger] self.lane(placed(leading@, leading_junk as int), 16, k),
            },
    {
        let haystack = load_register(leading, leading_junk);
        let mask = compare_mask(self.mode, &self.needle, self.needle_len, &haystack, BYTES_PER_OPERATION as i32);
        let ghost reg = haystack@;
        assert(explicit_len(16) == 16);
        if mask.trailing_zeros() < 16 {
            let mut mask = mask;
            let ghost full = mask;
            mask >>= leading_junk as u16;
            if mask == 0 {
                proof {
                    assert forall|k: int| leading_junk <= k < 16 implies !#[trigger] self.lane(reg, 16, k) by {
                        lemma_bit16_shift(full, leading_junk as u16, (k - leading_junk) as u16);
                        lemma_bit16_zero((k - leading_junk) as u16);
                    }
                }
                None
            } else {
                let first_match = mask.trailing_zeros() as usize;
                proof {
                    lemma_bit16_shift(full, leading_junk as u16, first_match as u16);
                    assert(bit16(mask, first_match as u16));
                    assert forall|k: int| leading_junk <= k < leading_junk + first_match implies
                        !#[trigger] self.lane(reg, 16, k) by {
                        lemma_bit16_shift(full, leading_junk as u16, (k - leading_junk) as u16);
                        assert(!bit16(mask, (k - leading_junk) as u16));
                    }
                }
                Some(first_match)
            }
        } else {
            proof {
                assert forall|k: int| leading_junk <= k < 16 implies !#[trigger] self.lane(reg, 16, k) by {
                    assert(!bit16(mask, k as u16));
                }
            }
            None
        }
    }
}

/// Where a haystack that does not start on a 16-byte boundary meets the
/// first boundary.
struct Misalignment<'a> {
    /// The haystack's bytes in the 16-byte block it starts in.
    leading: &'a [u8],
    /// How many bytes of that block come before the haystack.
    leading_junk: usize,
    /// How many bytes of the haystack come before the first boundary.
    bytes_until_alignment: usize,
}

impl<'a> Misalignment<'a> {
    /// `block_offset` is the position of the haystack's first byte within
    /// its 16-byte block; `None` when it starts on a boundary.
    ///
    /// # Cases
    ///
    /// 0123456789ABCDEF
    /// |--|                < 1.
    ///       |--|          < 2.
    ///             |--|    < 3.
    ///             |----|  < 4.
    ///
    /// 1. The input slice is aligned.
    /// 2. The input slice is unaligned and is completely within the 16-byte chunk.
    /// 3. The input slice is unaligned and touches the boundary of the 16-byte chunk.
    /// 4. The input slice is unaligned and crosses the boundary of the 16-byte chunk.
    fn new(haystack: &'a [u8], block_offset: usize) -> (res: Option<Self>)
        requires
            block_offset < 16,
        ensures
            block_offset == 0 ==> res is None,
            block_offset != 0 ==> (res matches Some(m) && {
                let leading_len = if haystack@.len() + block_offset < 16 { haystack@.len() + block_offset } else { 16 };
                &&& m.leading_junk == block_offset
                &&& m.leading@ == haystack@.subrange(0, leading_len - block_offset)
                &&& m.bytes_until_alignment == (if leading_len == 16 { 16 - block_offset } else { haystack@.len() as int })
            }),
    {
        // If we are already aligned, there's nothing to do
        if block_offset == 0 {
            return None;
        }
        let leading_junk = block_offset;
        let leading_len = if haystack.len() < BYTES_PER_OPERATION - leading_junk {
            haystack.len() + leading_junk
        } else {
            BYTES_PER_OPERATION
        };
        let leading = &haystack[0..leading_len - leading_junk];
        let bytes_until_alignment = if leading_len == BYTES_PER_OPERATION {
            BYTES_PER_OPERATION - leading_junk
        } else {
            haystack.len()
        };
        Some(Misalignment { leading, leading_junk, bytes_until_alignment })
    }
}

/// Searches a haystack of at most one block: a register loaded with it,
/// with its length explicit.
fn find_small(packed: &PackedCompare, haystack: &[u8]) -> (res: Option<usize>)
    requires
        1 <= haystack@.len() <= 16,
    ensures
        match res {
            Some(p) => {
                &&& p < haystack@.len()
                &&& packed.small_hit(haystack@, p as int)
                &&& forall|q: int| 0 <= q < p ==> !#[trigger] packed.small_hit(haystack@, q)
            },
            None => forall|q: int| 0 <= q < haystack@.len() ==>
                !#[trigger] packed.small_hit(haystack@, q),
        },
{
    let tail = load_register(haystack, 0);
    let len = haystack.len() as i32;
    let found = packed.explicit_compare_index(&tail, len);
    let ghost reg = tail@;
    let ghost lb = len as int;
    proof {
        assert forall|k: int| 0 <= k < lb implies #[trigger] reg[k] == haystack@[0 + k] by {}
    }
    match found {
        Some(l) => {
            proof {
                if l >= lb {
                    // Past the haystack only an empty needle matches, and it
                    // matches the first lane already.
                    assert(ordered_pair_ok(packed.needle@, explicit_len(packed.needle_len), reg, lb, l as int, 0));
                    assert forall|i: int| 0 <= i < 16 implies #[trigger] ordered_pair_ok(packed.needle@, explicit_len(packed.needle_len), reg, lb, 0, i) by {}
                    assert(packed.lane(reg, lb, 0));
                    assert(false);
                }
                packed.lemma_lane_exact(haystack@, reg, lb, 0, l as int);
                assert forall|q: int| 0 <= q < l implies !#[trigger] packed.small_hit(haystack@, q) by {
                    packed.lemma_lane_exact(haystack@, reg, lb, 0, q);
                }
            }
            Some(l)
        },
        None => {
            proof {
                assert forall|q: int| 0 <= q < haystack@.len() implies
                    !#[trigger] packed.small_hit(haystack@, q) by {
                    packed.lemma_lane_exact(haystack@, reg, lb, 0, q);
                }
            }
            None
        },
    }
}

/// Where the first block ends, and where the last one starts, for a
/// haystack of at least one block.
proof fn lemma_blocks(len: int, junk: int, offset0: int, k0: int, n: int, rem: int)
    requires
        16 <= len,
        0 <= junk < 16,
        offset0 + junk == 16 * k0,
        0 <= offset0 <= 16,
        len - offset0 == 16 * n + rem,
        0 <= rem < 16,
    ensures
        tail_start(len, junk) == offset0 + 16 * n,
        16 - junk <= tail_start(len, junk) || junk == 0,
{
    vstd::arithmetic::div_mod::lemma_fundamental_div_mod_converse(len + junk, 16, k0 + n, rem);
}

/// Searches `haystack`, whose first byte lies at `block_offset` within its
/// 16-byte block of memory, a block at a time.
///
/// The blocks are those of memory, so that no block reaches past the end of
/// the haystack's last block; the bytes of the first block that come before
/// the haystack are ignored.
fn find(packed: &PackedCompare, haystack: &[u8], block_offset: usize) -> (res: Option<usize>)
    requires
        block_offset < 16,
    ensures
        packed.first_candidate(haystack@, block_offset as int, res),
{
    let ghost b = block_offset as int;
    if haystack.is_empty() {
        return None;
    }
    if haystack.len() < BYTES_PER_OPERATION {
        let found = find_small(packed, haystack);
        proof {
            assert forall|q: int| 0 <= q < haystack@.len() implies
                packed.small_hit(haystack@, q) == #[trigger] packed.candidate(haystack@, b, q) by {}
        }
        return found;
    }
    let ghost whole = haystack@;
    let mut hay = haystack;
    let mut offset: usize = 0;

    if let Some(misaligned) = Misalignment::new(hay, block_offset) {
        let junk = misaligned.leading_junk;
        let ghost reg = placed(misaligned.leading@, junk as int);
        let ghost base = -(junk as int);
        proof {
            assert forall|k: int| junk <= k < 16 implies #[trigger] reg[k] == whole[base + k] by {}
            vstd::arithmetic::div_mod::lemma_fundamental_div_mod(whole.len() + b, 16);
            assert(16 - junk <= tail_start(whole.len() as int, b));
            assert forall|q: int| 0 <= q < 16 - junk implies
                packed.lane(reg, 16, junk + q) == #[trigger] packed.candidate(whole, b, q) by {
                packed.lemma_lane_exact(whole, reg, 16, base, junk + q);
                lemma_block_end(q, b, 0, q + b);
            }
        }
        if let Some(location) = packed.explicit_compare_mask(misaligned.leading, misaligned.leading_junk) {
            if location < hay.len() {
                proof {
                    assert forall|q: int| 0 <= q < location implies !#[trigger] packed.candidate(whole, b, q) by {
                        assert(!packed.lane(reg, 16, junk + q));
                    }
                    assert(packed.lane(reg, 16, junk + location));
                }
                return Some(location);
            }
        }
        proof {
            assert forall|q: int| 0 <= q < 16 - junk implies !#[trigger] packed.candidate(whole, b, q) by {
                assert(!packed.lane(reg, 16, junk + q));
            }
        }
        hay = &hay[misaligned.bytes_until_alignment..hay.len()];
        offset += misaligned.bytes_until_alignment;
    }

    let n_complete_chunks = hay.len() / BYTES_PER_OPERATION;
    let mut chunk_offset: usize = 0;
    let ghost offset0 = offset as int;
    let ghost k0: int = if b == 0 { 0 } else { 1 };
    proof {
        vstd::arithmetic::div_mod::lemma_fundamental_div_mod(hay@.len() as int, 16);
        assert(hay@ =~= whole.subrange(offset as int, whole.len() as int));
        assert(haystack@.len() == haystack.len());
        lemma_blocks(whole.len() as int, b, offset0, k0, n_complete_chunks as int, (hay@.len() % 16) as int);
    }
    for chunk in 0..n_complete_chunks
        invariant
            whole == haystack@,
            whole.len() <= usize::MAX,
            offset + hay@.len() == whole.len(),
            hay@ == whole.subrange(offset as int, whole.len() as int),
            n_complete_chunks * 16 <= hay@.len(),
            chunk_offset == chunk * 16,
            offset == offset0,
            b == block_offset as int,
            offset0 + b == 16 * k0,
            tail_start(whole.len() as int, b) == offset0 + 16 * n_complete_chunks,
            forall|q: int| 0 <= q < offset + chunk_offset ==> !#[trigger] packed.candidate(whole, b, q),
    {
        assert(chunk_offset + 16 <= n_complete_chunks * 16);
        let block = load_register(&hay[chunk_offset..chunk_offset + BYTES_PER_OPERATION], 0);
        let ghost base = offset + chunk_offset;
        proof {
            assert forall|k: int| 0 <= k < 16 implies #[trigger] block@[k] == whole[base + k] by {}
            assert forall|j: int| 0 <= j < 16 implies
                packed.lane(block@, 16, j) == #[trigger] packed.candidate(whole, b, base + j) by {
                packed.lemma_lane_exact(whole, block@, 16, base, j);
                lemma_block_end(base + j, b, k0 + chunk, j);
            }
        }
        if let Some(location) = packed.explicit_compare_index(&block, BYTES_PER_OPERATION as i32) {
            proof {
                assert forall|q: int| 0 <= q < base + location implies !#[trigger] packed.candidate(whole, b, q) by {
                    if q >= base {
                        assert(!packed.lane(block@, 16, q - base));
                        assert(packed.candidate(whole, b, base + (q - base)) == packed.lane(block@, 16, q - base));
                    }
                }
                assert(packed.candidate(whole, b, base + location) == packed.lane(block@, 16, location as int));
            }
            return Some(offset + chunk_offset + location);
        }
        proof {
            assert forall|q: int| 0 <= q < base + 16 implies !#[trigger] packed.candidate(whole, b, q) by {
                if q >= base {
                    assert(!packed.lane(block@, 16, q - base));
                    assert(packed.candidate(whole, b, base + (q - base)) == packed.lane(block@, 16, q - base));
                }
            }
        }
        chunk_offset += BYTES_PER_OPERATION;
    }
    hay = &hay[chunk_offset..hay.len()];
    offset += chunk_offset;
    proof {
        assert(hay@ =~= whole.subrange(offset as int, whole.len() as int));
        assert(offset == tail_start(whole.len() as int, b));
    }

    // No data left to search
    if hay.is_empty() {
        return None;
    }

    let found = find_small(packed, hay);
    proof {
        assert forall|q: int| 0 <= q < hay@.len() implies
            packed.small_hit(hay@, q) == #[trigger] packed.candidate(whole, b, offset + q) by {
            packed.lemma_window_hit_suffix(whole, offset as int, q, 16, true);
        }
    }
    match found {
        Some(loc) => {
            proof {
                assert forall|q: int| 0 <= q < loc + offset implies !#[trigger] packed.candidate(whole, b, q) by {
                    if q >= offset {
                        assert(packed.small_hit(hay@, q - offset) == packed.candidate(whole, b, offset + (q - offset)));
                    }
                }
                assert(packed.candidate(whole, b, offset + loc));
            }
            Some(loc + offset)
        },
        None => {
            proof {
                assert forall|q: int| 0 <= q < whole.len() implies !#[trigger] packed.candidate(whole, b, q) by {
                    if q >= offset {
                        assert(packed.small_hit(hay@, q - offset) == packed.candidate(whole, b, offset + (q - offset)));
                    }
                }
            }
            None
        },
    }
}

/// The address of a byte, as `{:p}` prints it.
///
/// Calls `format!` with the `{:p}` format of a reference. Nothing is stated
/// of the text: it depends on where the byte lies in memory.
#[verifier::external_body]
fn address_text(byte: &u8) -> String {
    format!("{:p}", byte)
}

/// The value of a hexadecimal digit, either case; 0 for any other byte.
pub open spec fn hex_value(b: u8) -> int {
    if 48 <= b <= 57 {
        b - 48
    } else if 97 <= b <= 102 {
        b - 97 + 10
    } else if 65 <= b <= 70 {
        b - 65 + 10
    } else {
        0
    }
}

/// The value of the last hexadecimal digit of `text`; 0 when the text is
/// empty or ends in another byte.
pub open spec fn last_hex_value(text: Seq<u8>) -> int {
    if text.len() == 0 { 0 } else { hex_value(text.last()) }
}

/// Reads the last hexadecimal digit of an address as `{:p}` prints it.
fn last_hex_digit(digits: &[u8]) -> (r: usize)
    ensures
        r == last_hex_value(digits@),
        r < 16,
{
    if digits.len() == 0 {
        return 0;
    }
    let last = digits[digits.len() - 1];
    if 48 <= last && last <= 57 {
        (last - 48) as usize
    } else if 97 <= last && last <= 102 {
        (last - 97 + 10) as usize
    } else if 65 <= last && last <= 70 {
        (last - 65 + 10) as usize
    } else {
        0
    }
}

/// The position of the haystack's first byte within its 16-byte block of
/// memory, read from the last hexadecimal digit of its address; 0 when the
/// address cannot be read or the haystack is empty.
///
/// Where the haystack lies in memory is known to no contract: any value
/// below 16 may come back for a haystack that is not empty.
fn block_offset(haystack: &[u8]) -> (r: usize)
    ensures
        r < 16,
        haystack@.len() == 0 ==> r == 0,
{
    if haystack.len() == 0 {
        return 0;
    }
    let text = address_text(&haystack[0]);
    last_hex_digit(text.as_str().as_bytes())
}

/// Searches for the first of up to 16 bytes.
pub struct Bytes {
    needle: [u8; 16],
    needle_len: i32,
}

impl Bytes {
    /// The bytes searched for.
    pub closed spec fn needle(&self) -> Seq<u8> {
        self.needle@.subrange(0, explicit_len(self.needle_len))
    }

    /// Searches for the first `needle_len` bytes of `bytes`; as for the
    /// instruction, a length is taken by its absolute value, at most 16.
    pub fn new(bytes: [u8; 16], needle_len: i32) -> (s: Self)
        ensures
            s.needle() == bytes@.subrange(0, explicit_len(needle_len)),
    {
        Bytes { needle: bytes, needle_len }
    }

    pub fn find(&self, haystack: &[u8]) -> (res: Option<usize>)
        ensures
            first_any(haystack@, self.needle(), res),
    {
        let packed = PackedCompare { needle: self.needle, needle_len: self.needle_len, mode: CompareMode::EqualAny };
        let offset = block_offset(haystack);
        let res = find(&packed, haystack, offset);
        proof {
            packed.lemma_first_candidate_answers(haystack@, offset as int, res);
            assert(packed.needle_seq() == self.needle());
            match res {
                Some(p) => {
                    assert forall|j: int| 0 <= j < p implies !self.needle().contains(#[trigger] haystack@[j]) by {
                        assert(!packed.hit(haystack@, j));
                    }
                },
                None => {
                    assert forall|j: int| 0 <= j < haystack@.len() implies !self.needle().contains(#[trigger] haystack@[j]) by {
                        assert(!packed.hit(haystack@, j));
                    }
                },
            }
        }
        res
    }
}

/// Searches for the first occurrence of a byte string, comparing up to its
/// first 16 bytes a block at a time and checking each candidate in full.
pub struct ByteSubstring<'a> {
    complete_needle: &'a [u8],
    needle: [u8; 16],
    needle_len: i32,
}

impl<'a> ByteSubstring<'a> {
    /// The byte string searched for.
    pub closed spec fn needle(&self) -> Seq<u8> {
        self.complete_needle@
    }

    /// The needle's first bytes, as many as one block holds, are those the
    /// block comparison uses.
    pub closed spec fn wf(&self) -> bool {
        &&& 0 <= self.needle_len <= 16
        &&& self.needle_len == (if self.complete_needle@.len() < 16 { self.complete_needle@.len() } else { 16 })
        &&& self.needle@.subrange(0, self.needle_len as int) == self.complete_needle@.subrange(0, self.needle_len as int)
    }

    pub fn new(needle: &'a [u8]) -> (s: Self)
        ensures
            s.wf(),
            s.needle() == needle@,
    {
        let mut simd_needle = [0u8; 16];
        let len = if 16 < needle.len() { 16 } else { needle.len() };
        let mut i: usize = 0;
        while i < len
            invariant
                len <= 16,
                len <= needle@.len(),
                i <= len,
                forall|k: int| 0 <= k < i ==> simd_needle@[k] == needle@[k],
            decreases len - i,
        {
            simd_needle[i] = needle[i];
            i += 1;
        }
        proof {
            assert(simd_needle@.subrange(0, len as int) =~= needle@.subrange(0, len as int));
        }
        ByteSubstring { complete_needle: needle, needle: simd_needle, needle_len: len as i32 }
    }

    pub fn needle_len(&self) -> (n: usize)
        ensures
            n == self.needle().len(),
    {
        self.complete_needle.len()
    }

    pub fn find(&self, haystack: &[u8]) -> (res: Option<usize>)
        requires
            self.wf(),
        ensures
            first_occurrence(haystack@, self.needle(), res),
    {
        let packed = PackedCompare { needle: self.needle, needle_len: self.needle_len, mode: CompareMode::EqualOrdered };
        let ghost whole = haystack@;
        let ghost nd = packed.needle_seq();
        proof {
            assert(explicit_len(self.needle_len) == self.needle_len);
            assert(haystack@.len() == haystack.len());
        }
        let mut offset: usize = 0;
        loop
            invariant
                whole == haystack@,
                whole.len() <= usize::MAX,
                self.wf(),
                packed.mode is EqualOrdered,
                nd == packed.needle_seq(),
                nd.len() <= self.needle().len(),
                nd == self.needle().subrange(0, nd.len() as int),
                offset <= whole.len(),
                forall|q: int| 0 <= q < offset ==> !occurs_at(whole, self.needle(), q),
            decreases whole.len() + 1 - offset,
        {
            let rest = &haystack[offset..haystack.len()];
            let rest_offset = block_offset(rest);
            let found = find(&packed, rest, rest_offset);
            proof {
                packed.lemma_first_candidate_answers(rest@, rest_offset as int, found);
            }
            match found {
                Some(idx) => {
                    let abs_offset = offset + idx;
                    proof {
                        assert forall|q: int| offset <= q < abs_offset implies !occurs_at(whole, self.needle(), q) by {
                            lemma_occurrence_of_prefix(whole, self.needle(), nd, q);
                            packed.lemma_hit_suffix(whole, offset as int, q - offset);
                            assert(!packed.hit(rest@, q - offset));
                        }
                    }
                    // Found a match, but is it really?
                    if starts_with_at(haystack, abs_offset, self.complete_needle) {
                        return Some(abs_offset);
                    }
                    // Skip past this false positive
                    offset = abs_offset + 1;
                },
                None => {
                    proof {
                        assert forall|q: int| 0 <= q < whole.len() implies !occurs_at(whole, self.needle(), q) by {
                            if q >= offset {
                                lemma_occurrence_of_prefix(whole, self.needle(), nd, q);
                                packed.lemma_hit_suffix(whole, offset as int, q - offset);
                                assert(!packed.hit(rest@, q - offset));
                            }
                        }
                    }
                    return None;
                },
            }
        }
    }
}

/// Where a byte string occurs, each of its prefixes occurs too.
proof fn lemma_occurrence_of_prefix(hay: Seq<u8>, needle: Seq<u8>, prefix: Seq<u8>, q: int)
    requires
        prefix.len() <= needle.len(),
        prefix == needle.subrange(0, prefix.len() as int),
    ensures
        occurs_at(hay, needle, q) ==> occurs_at(hay, prefix, q),
{
    if occurs_at(hay, needle, q) {
        assert(hay.subrange(q, q + prefix.len()) =~= hay.subrange(q, q + needle.len()).subrange(0, prefix.len() as int));
    }
}

} // verus!
