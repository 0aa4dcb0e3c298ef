//! BLZ ("backwards LZ") compression for KIP1 segments.
//!
//! BLZ is the LZ77-family scheme that compresses the `text`, `rodata`, and
//! `data` segments of a KIP1. Encoding walks the data from its end towards its
//! start, so a loader can expand a segment in place. The output is either a
//! stored stream (the raw bytes, zero padding, and a zero `u32`) or, when it
//! is shorter than the input, a packed stream (a raw prefix, the reversed
//! packed region, `0xFF` padding, and a three-`u32` trailer `enc_len`,
//! `header_size`, `extra_len`).
//!
//! Within the packed region codes are grouped under flag bytes whose bits are
//! consumed most-significant-first: a clear bit marks a literal byte, a set bit
//! a two-byte back-reference whose length is `(b0 >> 4) + 3` and whose distance
//! is `(((b0 & 0xF) << 8) | b1) + 3`.

use vstd::prelude::*;

use crate::bytes::{le32, lemma_word_appended, lemma_words_kept, push_u32, repeat, round_up, u32_of, zeros};

verus! {

/// Minimum match length worth encoding as a back-reference.
pub const MATCH_THRESHOLD: usize = 2;

/// Largest back-reference distance the encoding can represent.
pub const MAX_OFFSET: usize = 0x1002;

/// Largest match length the encoding can represent.
pub const MAX_MATCH: usize = 18;

/// Shortest encodable match, the width of the hashed prefix, and the smallest
/// representable back-reference distance.
pub const MIN_MATCH: usize = 3;

/// Number of match-finder hash buckets.
pub const HASH_SIZE: usize = 0x1_0000;

/// Fibonacci-hashing multiplier that spreads prefixes across buckets.
pub const HASH_MULTIPLIER: u32 = 0x9E37_79B1;

/// Empty-bucket and end-of-chain marker of the match finder.
pub const NONE: u32 = 0xFFFF_FFFF;

// ---------------------------------------------------------------------------
// The longest-match specification
// ---------------------------------------------------------------------------

/// Length of the run of bytes at `pos` that repeats the bytes `off` behind it,
/// extended from `l` and capped by [`MAX_MATCH`], the end of `d`, and `off`.
pub open spec fn run_len_from(d: Seq<u8>, pos: int, off: int, l: int) -> int
    decreases MAX_MATCH - l,
{
    if 0 <= l < MAX_MATCH && pos + l < d.len() && l < off && d[pos + l] == d[pos + l - off] {
        run_len_from(d, pos, off, l + 1)
    } else {
        l
    }
}

/// Length of the match at `pos` against the bytes `off` behind it.
pub open spec fn run_len(d: Seq<u8>, pos: int, off: int) -> int {
    run_len_from(d, pos, off, 0)
}

/// The best `(length, offset)` over the offsets `3..=hi`: the longest run, and
/// among equally long runs the smallest offset; `(MATCH_THRESHOLD, 0)` when no
/// run exceeds the threshold.
pub open spec fn best_match_upto(d: Seq<u8>, pos: int, hi: int) -> (int, int)
    decreases hi,
{
    if hi < 3 {
        (MATCH_THRESHOLD as int, 0)
    } else {
        let prev = best_match_upto(d, pos, hi - 1);
        let l = run_len(d, pos, hi);
        if l > prev.0 {
            (l, hi)
        } else {
            prev
        }
    }
}

/// The longest back-reference for the data at `pos`, found by scanning every
/// offset from 3 up to `min(pos, MAX_OFFSET)`.
pub open spec fn longest_match_spec(d: Seq<u8>, pos: int) -> (int, int) {
    best_match_upto(d, pos, if pos < MAX_OFFSET { pos } else { MAX_OFFSET as int })
}

/// The match-finder hash of the three bytes at `pos`.
pub open spec fn hash_at(d: Seq<u8>, pos: int) -> int {
    let key: u32 = (d[pos] as u32) | ((d[pos + 1] as u32) << 8u32) | ((d[pos + 2] as u32)
        << 16u32);
    (key.wrapping_mul(HASH_MULTIPLIER) >> 16u32) as int
}

/// Whether a full three-byte prefix starts at `pos`.
pub open spec fn hashable(d: Seq<u8>, pos: int) -> bool {
    0 <= pos && pos + 2 < d.len()
}

/// The last hashable position below `p` whose hash is `h`, or [`NONE`].
pub open spec fn last_with_hash(d: Seq<u8>, p: int, h: int) -> int
    decreases p,
{
    if p <= 0 {
        NONE as int
    } else if hashable(d, p - 1) && hash_at(d, p - 1) == h {
        p - 1
    } else {
        last_with_hash(d, p - 1, h)
    }
}

/// The chain link of position `p`: the nearest earlier position sharing its
/// hash, or [`NONE`].
pub open spec fn chain_prev(d: Seq<u8>, p: int) -> int {
    if hashable(d, p) {
        last_with_hash(d, p, hash_at(d, p))
    } else {
        NONE as int
    }
}

// ---------------------------------------------------------------------------
// Lemmas about the specification
// ---------------------------------------------------------------------------

proof fn lemma_run_len_from_bounds(d: Seq<u8>, pos: int, off: int, l: int)
    requires
        0 <= l <= MAX_MATCH,
    ensures
        l <= run_len_from(d, pos, off, l) <= MAX_MATCH,
        l <= d.len() - pos ==> run_len_from(d, pos, off, l) <= d.len() - pos,
        l >= d.len() - pos ==> run_len_from(d, pos, off, l) == l,
        l <= off ==> run_len_from(d, pos, off, l) <= off,
        forall|k: int|
            l <= k < run_len_from(d, pos, off, l) ==> #[trigger] d[pos + k] == d[pos + k - off],
    decreases MAX_MATCH - l,
{
    if 0 <= l < MAX_MATCH && pos + l < d.len() && l < off && d[pos + l] == d[pos + l - off] {
        lemma_run_len_from_bounds(d, pos, off, l + 1);
    }
}

proof fn lemma_run_len_bounds(d: Seq<u8>, pos: int, off: int)
    requires
        0 <= pos <= d.len(),
        off >= 0,
    ensures
        0 <= run_len(d, pos, off) <= MAX_MATCH,
        run_len(d, pos, off) <= d.len() - pos,
        run_len(d, pos, off) <= off,
        forall|k: int| 0 <= k < run_len(d, pos, off) ==> #[trigger] d[pos + k] == d[pos + k - off],
{
    lemma_run_len_from_bounds(d, pos, off, 0);
}

proof fn lemma_best_bounds(d: Seq<u8>, pos: int, hi: int)
    requires
        0 <= pos <= d.len(),
    ensures
        MATCH_THRESHOLD <= best_match_upto(d, pos, hi).0 <= MAX_MATCH,
        best_match_upto(d, pos, hi).0 > MATCH_THRESHOLD ==> 3 <= best_match_upto(d, pos, hi).1
            <= hi,
        best_match_upto(d, pos, hi).0 <= MATCH_THRESHOLD ==> best_match_upto(d, pos, hi).1 == 0,
        best_match_upto(d, pos, hi).0 > MATCH_THRESHOLD ==> best_match_upto(d, pos, hi).0
            == run_len(d, pos, best_match_upto(d, pos, hi).1),
    decreases hi,
{
    if hi >= 3 {
        lemma_best_bounds(d, pos, hi - 1);
        lemma_run_len_bounds(d, pos, hi);
    }
}

/// Once the best match has the maximum length, later offsets change nothing.
proof fn lemma_best_saturates(d: Seq<u8>, pos: int, lo: int, hi: int)
    requires
        0 <= pos <= d.len(),
        lo <= hi,
        best_match_upto(d, pos, lo).0 == MAX_MATCH,
    ensures
        best_match_upto(d, pos, hi) == best_match_upto(d, pos, lo),
    decreases hi - lo,
{
    if lo < hi {
        lemma_best_saturates(d, pos, lo, hi - 1);
        lemma_run_len_bounds(d, pos, hi);
        lemma_best_bounds(d, pos, lo);
    }
}

/// With fewer than three bytes left, no offset yields an encodable match.
proof fn lemma_best_short_tail(d: Seq<u8>, pos: int, hi: int)
    requires
        0 <= pos,
        d.len() - pos < MIN_MATCH,
    ensures
        best_match_upto(d, pos, hi) == (MATCH_THRESHOLD as int, 0int),
    decreases hi,
{
    if hi >= 3 {
        lemma_best_short_tail(d, pos, hi - 1);
        lemma_run_len_from_bounds(d, pos, hi, 0);
    }
}

/// An offset whose position hashes differently cannot improve the best match.
proof fn lemma_best_skip(d: Seq<u8>, pos: int, lo: int, hi: int)
    requires
        hashable(d, pos),
        lo <= hi <= pos,
        forall|q: int| pos - hi <= q < pos - lo ==> hash_at(d, q) != hash_at(d, pos),
    ensures
        best_match_upto(d, pos, hi) == best_match_upto(d, pos, lo),
    decreases hi - lo,
{
    if lo < hi {
        lemma_best_skip(d, pos, lo, hi - 1);
        if hi >= 3 {
            lemma_run_len_bounds(d, pos, hi);
            lemma_best_bounds(d, pos, hi - 1);
            let q = pos - hi;
            if run_len(d, pos, hi) >= 3 {
                assert(d[pos + 0] == d[pos + 0 - hi]);
                assert(d[pos + 1] == d[pos + 1 - hi]);
                assert(d[pos + 2] == d[pos + 2 - hi]);
                assert(hash_at(d, q) == hash_at(d, pos));
            }
        }
    }
}

/// `last_with_hash` is below `p`, carries the hash, and nothing between it
/// and `p` does.
proof fn lemma_last_with_hash(d: Seq<u8>, p: int, h: int)
    requires
        p <= NONE,
    ensures
        last_with_hash(d, p, h) == NONE || (0 <= last_with_hash(d, p, h) < p && hashable(
            d,
            last_with_hash(d, p, h),
        ) && hash_at(d, last_with_hash(d, p, h)) == h),
        forall|q: int|
            (if last_with_hash(d, p, h) == NONE { 0 } else { last_with_hash(d, p, h) + 1 }) <= q
                < p && hashable(d, q) ==> hash_at(d, q) != h,
    decreases p,
{
    if p > 0 && !(hashable(d, p - 1) && hash_at(d, p - 1) == h) {
        lemma_last_with_hash(d, p - 1, h);
        let l = last_with_hash(d, p, h);
        let lo = if l == NONE { 0 } else { l + 1 };
        assert forall|q: int| lo <= q < p && hashable(d, q) implies hash_at(d, q) != h by {
            if q < p - 1 {
                assert(lo <= q < p - 1 && hashable(d, q));
            }
        }
    }
}

proof fn lemma_hash_range(d: Seq<u8>, pos: int)
    requires
        hashable(d, pos),
    ensures
        0 <= hash_at(d, pos) < HASH_SIZE,
{
    let key: u32 = (d[pos] as u32) | ((d[pos + 1] as u32) << 8u32) | ((d[pos + 2] as u32)
        << 16u32);
    let m = key.wrapping_mul(HASH_MULTIPLIER);
    assert(m >> 16u32 < 0x1_0000u32) by (bit_vector);
}

// ---------------------------------------------------------------------------
// The hash-chain match finder
// ---------------------------------------------------------------------------

/// Hash-chain index over a buffer, used to find back-references without
/// scanning every candidate offset.
///
/// The chain is built over the whole buffer up front, so every query position
/// already has its full chain of earlier same-prefix positions available.
pub struct MatchFinder<'a> {
    data: &'a [u8],
    prev: Vec<u32>,
}

impl<'a> MatchFinder<'a> {
    #[verifier::type_invariant]
    spec fn inv(self) -> bool {
        &&& self.prev@.len() == self.data@.len()
        &&& self.data@.len() < NONE
        &&& forall|p: int|
            0 <= p < self.prev@.len() ==> #[trigger] self.prev@[p] as int == chain_prev(
                self.data@,
                p,
            )
    }

    /// The indexed bytes.
    pub closed spec fn data_view(self) -> Seq<u8> {
        self.data@
    }

    /// Map the three-byte prefix at `pos` to a hash bucket.
    fn hash(data: &[u8], pos: usize) -> (r: usize)
        requires
            hashable(data@, pos as int),
        ensures
            r as int == hash_at(data@, pos as int),
            r < HASH_SIZE,
    {
        proof {
            lemma_hash_range(data@, pos as int);
        }
        let key = (data[pos] as u32) | ((data[pos + 1] as u32) << 8) | ((data[pos + 2] as u32)
            << 16);
        (key.wrapping_mul(HASH_MULTIPLIER) >> 16) as usize
    }

    /// Build the hash-chain index over `data` in a single forward pass.
    ///
    /// Positions are stored as `u32`, so `data` must be shorter than [`NONE`].
    pub fn new(data: &'a [u8]) -> (r: Self)
        requires
            data@.len() < NONE,
        ensures
            r.data_view() == data@,
    {
        let len = data.len();
        let mut head: Vec<u32> = Vec::new();
        let mut k: usize = 0;
        while k < HASH_SIZE
            invariant
                k <= HASH_SIZE,
                head@.len() == k,
                forall|b: int| 0 <= b < k ==> #[trigger] head@[b] == NONE,
            decreases HASH_SIZE - k,
        {
            head.push(NONE);
            k = k + 1;
        }
        let mut prev: Vec<u32> = Vec::new();
        let mut pos: usize = 0;
        while pos < len
            invariant
                len == data@.len(),
                len < NONE,
                pos <= len,
                head@.len() == HASH_SIZE,
                prev@.len() == pos,
                forall|b: int|
                    0 <= b < HASH_SIZE ==> #[trigger] head@[b] as int == last_with_hash(
                        data@,
                        pos as int,
                        b,
                    ),
                forall|p: int| 0 <= p < pos ==> #[trigger] prev@[p] as int == chain_prev(data@, p),
            decreases len - pos,
        {
            if len >= MIN_MATCH && pos < len - (MIN_MATCH - 1) {
                let bucket = Self::hash(data, pos);
                prev.push(head[bucket]);
                head.set(bucket, pos as u32);
            } else {
                prev.push(NONE);
            }
            pos = pos + 1;
            assert forall|b: int| 0 <= b < HASH_SIZE implies #[trigger] head@[b] as int
                == last_with_hash(data@, pos as int, b) by {}
        }
        MatchFinder { data, prev }
    }

    /// Find the longest back-reference for the data starting at `pos`.
    ///
    /// Returns the match length and its distance behind `pos`; `(2, 0)` when no
    /// match exceeds [`MATCH_THRESHOLD`]. The result is exactly the one an
    /// ascending scan over every offset gives: the longest match and, among
    /// equal lengths, the smallest offset.
    pub fn longest_match(&self, pos: usize) -> (r: (usize, usize))
        requires
            pos <= usize::MAX - MIN_MATCH,
        ensures
            r.0 as int == longest_match_spec(self.data_view(), pos as int).0,
            r.1 as int == longest_match_spec(self.data_view(), pos as int).1,
    {
        proof {
            use_type_invariant(self);
        }
        let data = self.data;
        let ghost d = data@;
        let ghost top: int = if pos < MAX_OFFSET {
            pos as int
        } else {
            MAX_OFFSET as int
        };
        if data.len() < pos + MIN_MATCH {
            proof {
                lemma_best_short_tail(d, pos as int, top);
            }
            return (MATCH_THRESHOLD, 0);
        }
        let remaining = data.len() - pos;
        let mut best_len: usize = MATCH_THRESHOLD;
        let mut best_offset: usize = 0;
        let ghost h = hash_at(d, pos as int);
        let mut candidate = self.prev[pos];
        let ghost mut g: int = if candidate == NONE {
            pos as int
        } else {
            pos - candidate - 1
        };
        proof {
            lemma_last_with_hash(d, pos as int, h);
            if g >= 2 {
                lemma_best_skip(d, pos as int, 2, if g < MAX_OFFSET { g } else { MAX_OFFSET as int });
            }
        }
        while candidate != NONE
            invariant_except_break
                self.inv(),
                data@ == d,
                d == self.data_view(),
                hashable(d, pos as int),
                h == hash_at(d, pos as int),
                remaining == d.len() - pos,
                d.len() < NONE,
                top == (if pos < MAX_OFFSET { pos as int } else { MAX_OFFSET as int }),
                0 <= g <= pos,
                g == (if candidate == NONE { pos as int } else { pos - candidate - 1 }),
                candidate as int == last_with_hash(d, pos - g, h),
                (best_len as int, best_offset as int) == best_match_upto(
                    d,
                    pos as int,
                    if g < MAX_OFFSET { g } else { MAX_OFFSET as int },
                ),
            ensures
                (best_len as int, best_offset as int) == longest_match_spec(d, pos as int),
            decreases (if candidate == NONE { 0 } else { candidate as int + 1 }),
        {
            proof {
                lemma_last_with_hash(d, pos - g, h);
            }
            let candidate_pos = candidate as usize;
            let offset = pos - candidate_pos;
            if offset > MAX_OFFSET {
                break;
            }
            if offset >= MIN_MATCH {
                let mut len: usize = 0;
                while len < MAX_MATCH && len != remaining && len < offset && data[pos + len]
                    == data[pos + len - offset]
                    invariant
                        data@ == d,
                        remaining == d.len() - pos,
                        pos + remaining == d.len(),
                        d.len() < NONE,
                        0 <= len <= MAX_MATCH,
                        len <= remaining,
                        offset <= pos,
                        run_len(d, pos as int, offset as int) == run_len_from(
                            d,
                            pos as int,
                            offset as int,
                            len as int,
                        ),
                    decreases MAX_MATCH - len,
                {
                    len = len + 1;
                }
                if len > best_len {
                    best_offset = offset;
                    best_len = len;
                    if best_len == MAX_MATCH {
                        proof {
                            lemma_best_saturates(d, pos as int, offset as int, top);
                        }
                        break;
                    }
                }
            }
            let ghost old_g = g;
            candidate = self.prev[candidate_pos];
            proof {
                g = if candidate == NONE {
                    pos as int
                } else {
                    pos - candidate - 1
                };
                lemma_last_with_hash(d, candidate_pos as int, h);
                assert(candidate as int == last_with_hash(d, pos - g, h)) by {
                    if candidate != NONE {
                        reveal_with_fuel(last_with_hash, 2);
                    }
                }
                let lo = if offset < MAX_OFFSET { offset as int } else { MAX_OFFSET as int };
                let hi = if g < MAX_OFFSET { g } else { MAX_OFFSET as int };
                lemma_best_skip(d, pos as int, lo, hi);
            }
        }
        (best_len, best_offset)
    }
}


// ---------------------------------------------------------------------------
// The encoder specification
// ---------------------------------------------------------------------------

/// One code of the packed stream: a literal byte, or a back-reference.
pub struct BlzCode {
    /// Whether the code is a back-reference (flag bit set).
    pub is_match: bool,
    /// Input bytes the code stands for.
    pub consumed: nat,
    /// The code's bytes in the stream.
    pub bytes: Seq<u8>,
}

/// The code the encoder emits at position `r` of the (reversed) input.
///
/// A match longer than [`MATCH_THRESHOLD`] is emitted unless deferring it by
/// one byte packs better (lazy matching), in which case a literal is emitted.
pub open spec fn code_at(inp: Seq<u8>, r: int) -> BlzCode {
    let m = longest_match_spec(inp, r);
    let ml0 = m.0;
    let mo = m.1;
    let ml = if ml0 > MATCH_THRESHOLD && r + ml0 < inp.len() {
        let nl0 = longest_match_spec(inp, r + ml0).0;
        let pl0 = longest_match_spec(inp, r + 1).0;
        let nl = if nl0 <= MATCH_THRESHOLD { 1 } else { nl0 };
        let pl = if pl0 <= MATCH_THRESHOLD { 1 } else { pl0 };
        if ml0 + nl <= 1 + pl { 1 } else { ml0 }
    } else {
        ml0
    };
    if ml > MATCH_THRESHOLD {
        BlzCode {
            is_match: true,
            consumed: ml as nat,
            bytes: seq![((ml - 3) * 16 + (mo - 3) / 256) as u8, ((mo - 3) % 256) as u8],
        }
    } else {
        BlzCode { is_match: false, consumed: 1, bytes: seq![inp[r]] }
    }
}

/// The codes the encoder emits from position `r` to the end of the input.
pub open spec fn codes_from(inp: Seq<u8>, r: int) -> Seq<BlzCode>
    decreases inp.len() - r,
{
    if r < 0 || r >= inp.len() {
        Seq::empty()
    } else {
        let c = code_at(inp, r);
        if c.consumed >= 1 && r + c.consumed <= inp.len() {
            seq![c] + codes_from(inp, r + c.consumed)
        } else {
            Seq::empty()
        }
    }
}

/// Input bytes covered by `cs`.
pub open spec fn consumed(cs: Seq<BlzCode>) -> int
    decreases cs.len(),
{
    if cs.len() == 0 {
        0
    } else {
        consumed(cs.drop_last()) + cs.last().consumed
    }
}

/// The code bytes of `cs`, concatenated.
pub open spec fn code_bytes(cs: Seq<BlzCode>) -> Seq<u8>
    decreases cs.len(),
{
    if cs.len() == 0 {
        Seq::empty()
    } else {
        code_bytes(cs.drop_last()) + cs.last().bytes
    }
}

/// The flag bits of a group of codes, first code most significant.
pub open spec fn flag_bits(cs: Seq<BlzCode>) -> int
    decreases cs.len(),
{
    if cs.len() == 0 {
        0
    } else {
        2 * flag_bits(cs.drop_last()) + if cs.last().is_match { 1int } else { 0 }
    }
}

/// `v` shifted left by `k` bits.
pub open spec fn shl(v: int, k: int) -> int
    decreases k,
{
    if k <= 0 {
        v
    } else {
        2 * shl(v, k - 1)
    }
}

/// The flag byte of a group of at most eight codes: its bits, first code in
/// the top bit.
pub open spec fn flag_byte(cs: Seq<BlzCode>) -> u8 {
    shl(flag_bits(cs), 8 - cs.len()) as u8
}

/// The packed stream of `cs`: groups of eight codes, each preceded by its flag
/// byte.
pub open spec fn encode_codes(cs: Seq<BlzCode>) -> Seq<u8>
    decreases cs.len(),
{
    if cs.len() == 0 {
        Seq::empty()
    } else if cs.len() <= 8 {
        seq![flag_byte(cs)] + code_bytes(cs)
    } else {
        seq![flag_byte(cs.take(8))] + code_bytes(cs.take(8)) + encode_codes(cs.skip(8))
    }
}

/// The stream as it stands while encoding: like [`encode_codes`], except that
/// the flag byte of the last group holds only the bits of its codes so far.
pub open spec fn encode_open(cs: Seq<BlzCode>) -> Seq<u8>
    decreases cs.len(),
{
    if cs.len() == 0 {
        Seq::empty()
    } else if cs.len() <= 8 {
        seq![flag_bits(cs) as u8] + code_bytes(cs)
    } else {
        seq![flag_byte(cs.take(8))] + code_bytes(cs.take(8)) + encode_open(cs.skip(8))
    }
}

/// Number of codes before the last group of `cs`.
pub open spec fn group_start(k: int) -> int {
    if k == 0 { 0 } else { ((k - 1) / 8) * 8 }
}

/// Position of the flag byte of the last group.
pub open spec fn last_flag_pos(cs: Seq<BlzCode>) -> int {
    encode_open(cs.take(group_start(cs.len() as int))).len() as int
}

/// The split point `(packed bytes, raw bytes)` with the smallest total over the
/// first `i` codes, the earliest one on ties; `(0, n)` when no code improves on
/// leaving all `n` bytes raw.
pub open spec fn best_split(cs: Seq<BlzCode>, n: int, i: int) -> (int, int)
    decreases i,
{
    if i <= 0 {
        (0, n)
    } else {
        let prev = best_split(cs, n, i - 1);
        let w = encode_open(cs.take(i)).len() as int;
        let rem = n - consumed(cs.take(i));
        if w + rem < prev.0 + prev.1 {
            (w, rem)
        } else {
            prev
        }
    }
}

/// Whether the packed layout of a split with `bp` packed and `br` raw bytes
/// is used for an input of `n` bytes: something packs, and the stream (the
/// split padded to four bytes, then the 12-byte trailer) is shorter than the
/// input, so that its extra length is a positive count.
pub open spec fn packs(n: int, bp: int, br: int) -> bool {
    bp != 0 && round_up(bp + br, 4) + 12 < n
}

/// The BLZ stream of `data` laid out from the codes `cs`: stored unless the
/// best split [`packs`], else the raw prefix, the packed bytes reversed,
/// `0xFF` padding and the trailer.
#[verifier::opaque]
pub open spec fn blz_stream(data: Seq<u8>, cs: Seq<BlzCode>) -> Seq<u8> {
    let n = data.len() as int;
    let p = encode_codes(cs);
    let split = best_split(cs, n, cs.len() as int);
    let bp = split.0;
    let br = split.1;
    if !packs(n, bp, br) {
        data + zeros((round_up(n, 4) - n) as nat) + le32(0)
    } else {
        let pad = round_up(bp + br, 4) - (bp + br);
        let hs = 12 + pad;
        data.subrange(0, br) + p.subrange(0, bp).reverse() + repeat(0xFF, pad as nat) + le32(
            ((bp + hs) % 0x1_0000_0000) as u32,
        ) + le32(hs as u32) + le32(((n - bp - br - hs) % 0x1_0000_0000) as u32)
    }
}

/// The BLZ stream of `data`: laid out from the codes the encoder emits for
/// the reversed input.
pub open spec fn blz_compress_spec(data: Seq<u8>) -> Seq<u8> {
    blz_stream(data, codes_from(data.reverse(), 0))
}

/// Upper bound on the compressed size of `raw_len` input bytes.
pub open spec fn worst_case_len_spec(raw_len: int) -> int {
    raw_len + (raw_len + 7) / 8 + 15
}


// ---------------------------------------------------------------------------
// Lemmas about the encoder specification
// ---------------------------------------------------------------------------

/// The last group of `cs`.
pub open spec fn last_group(cs: Seq<BlzCode>) -> Seq<BlzCode> {
    cs.skip(group_start(cs.len() as int))
}

/// The flag-bit mask for the `j`-th code of a group.
pub open spec fn mask_at(j: int) -> u8 {
    if j == 1 {
        0x80
    } else if j == 2 {
        0x40
    } else if j == 3 {
        0x20
    } else if j == 4 {
        0x10
    } else if j == 5 {
        0x08
    } else if j == 6 {
        0x04
    } else if j == 7 {
        0x02
    } else if j == 8 {
        0x01
    } else {
        0
    }
}

proof fn lemma_code_at(inp: Seq<u8>, r: int)
    requires
        0 <= r < inp.len(),
    ensures
        code_at(inp, r).consumed >= 1,
        r + code_at(inp, r).consumed <= inp.len(),
        code_at(inp, r).is_match ==> code_at(inp, r).bytes.len() == 2 && code_at(
            inp,
            r,
        ).consumed >= 3,
        !code_at(inp, r).is_match ==> code_at(inp, r).bytes.len() == 1 && code_at(
            inp,
            r,
        ).consumed == 1,
        codes_from(inp, r) == seq![code_at(inp, r)] + codes_from(inp, r + code_at(inp, r).consumed),
{
    let top = if r < MAX_OFFSET { r } else { MAX_OFFSET as int };
    lemma_best_bounds(inp, r, top);
    let m = longest_match_spec(inp, r);
    if m.0 > MATCH_THRESHOLD {
        lemma_run_len_bounds(inp, r, m.1);
    }
}

proof fn lemma_shl_nonneg(v: int, k: int)
    requires
        v >= 0,
    ensures
        shl(v, k) >= 0,
    decreases k,
{
    if k > 0 {
        lemma_shl_nonneg(v, k - 1);
    }
}

proof fn lemma_shl_lt(v: int, j: int, k: int)
    requires
        0 <= v < shl(1, j),
        0 <= j,
        0 <= k,
    ensures
        0 <= shl(v, k) < shl(1, j + k),
    decreases k,
{
    if k > 0 {
        lemma_shl_lt(v, j, k - 1);
    }
}

proof fn lemma_shl_small()
    ensures
        shl(1, 0) == 1,
        shl(1, 7) == 128,
        shl(1, 8) == 256,
{
    reveal_with_fuel(shl, 9);
}

proof fn lemma_flag_bits_bound(cs: Seq<BlzCode>)
    ensures
        0 <= flag_bits(cs) < shl(1, cs.len() as int),
    decreases cs.len(),
{
    if cs.len() > 0 {
        lemma_flag_bits_bound(cs.drop_last());
        assert(shl(1, cs.len() as int) == 2 * shl(1, cs.len() - 1));
    }
}

proof fn lemma_code_bytes_len(cs: Seq<BlzCode>)
    requires
        forall|i: int| 0 <= i < cs.len() ==> #[trigger] cs[i].bytes.len() <= cs[i].consumed,
    ensures
        code_bytes(cs).len() <= consumed(cs),
        consumed(cs) >= 0,
    decreases cs.len(),
{
    if cs.len() > 0 {
        let d = cs.drop_last();
        assert forall|i: int| 0 <= i < d.len() implies #[trigger] d[i].bytes.len() <= d[i].consumed by {
            assert(d[i] == cs[i]);
        }
        lemma_code_bytes_len(d);
        assert(cs[cs.len() - 1] == cs.last());
    }
}

/// The open and the finished stream both consist of the full groups followed by
/// the last group; only the last group's flag byte differs.
proof fn lemma_encode_structure(cs: Seq<BlzCode>)
    requires
        cs.len() >= 1,
    ensures
        encode_open(cs) == encode_open(cs.take(group_start(cs.len() as int))) + seq![
            flag_bits(last_group(cs)) as u8,
        ] + code_bytes(last_group(cs)),
        encode_codes(cs) == encode_open(cs.take(group_start(cs.len() as int))) + seq![
            flag_byte(last_group(cs)),
        ] + code_bytes(last_group(cs)),
        1 <= last_group(cs).len() <= 8,
        group_start(cs.len() as int) % 8 == 0,
        group_start(cs.len() as int) + last_group(cs).len() == cs.len(),
    decreases cs.len(),
{
    let gs = group_start(cs.len() as int);
    if cs.len() <= 8 {
        assert(gs == 0);
        assert(cs.take(0) =~= Seq::<BlzCode>::empty());
        assert(cs.skip(0) =~= cs);
    } else {
        let rest = cs.skip(8);
        lemma_encode_structure(rest);
        let gr = group_start(rest.len() as int);
        assert(gr == gs - 8);
        assert(rest.skip(gr) =~= cs.skip(gs));
        let t = cs.take(gs);
        assert(t.take(8) =~= cs.take(8));
        if gs == 8 {
            assert(shl(flag_bits(t), 0) == flag_bits(t));
            assert(t =~= cs.take(8));
            assert(rest.take(0) =~= Seq::<BlzCode>::empty());
        } else {
            assert(t.skip(8) =~= rest.take(gr));
        }
    }
}

/// How the open stream grows when one more code is emitted.
proof fn lemma_encode_open_push(cs: Seq<BlzCode>, c: BlzCode)
    ensures
        cs.len() % 8 == 0 ==> encode_open(cs.push(c)) == encode_open(cs) + seq![
            (if c.is_match { 1u8 } else { 0u8 }),
        ] + c.bytes,
        cs.len() % 8 == 0 ==> last_flag_pos(cs.push(c)) == encode_open(cs).len(),
        cs.len() % 8 == 0 ==> last_group(cs.push(c)) == seq![c],
        cs.len() % 8 != 0 ==> encode_open(cs.push(c)) == encode_open(cs).update(
            last_flag_pos(cs),
            (2 * flag_bits(last_group(cs)) + if c.is_match { 1int } else { 0 }) as u8,
        ) + c.bytes,
        cs.len() % 8 != 0 ==> last_flag_pos(cs.push(c)) == last_flag_pos(cs),
        cs.len() % 8 != 0 ==> last_group(cs.push(c)) == last_group(cs).push(c),
        cs.len() >= 1 ==> encode_open(cs)[last_flag_pos(cs)] == flag_bits(last_group(cs)) as u8,
        cs.len() >= 1 ==> last_flag_pos(cs) < encode_open(cs).len(),
{
    let cp = cs.push(c);
    lemma_encode_structure(cp);
    let k = cs.len() as int;
    let gs = group_start(k + 1);
    assert(cp.take(k) =~= cs);
    assert(cp.drop_last() =~= cs);
    if k >= 1 {
        lemma_encode_structure(cs);
    }
    if k % 8 == 0 {
        assert(gs == k);
        assert(cp.take(gs) =~= cs);
        assert(cp.skip(gs) =~= seq![c]);
        let g = seq![c];
        assert(g.drop_last() =~= Seq::<BlzCode>::empty());
        assert(g.last() == c);
        assert(code_bytes(Seq::<BlzCode>::empty()) =~= Seq::<u8>::empty());
        assert(code_bytes(g) =~= c.bytes);
        assert(flag_bits(Seq::<BlzCode>::empty()) == 0);
        assert(flag_bits(g) == 2 * flag_bits(g.drop_last()) + if c.is_match { 1int } else { 0 });
        assert(last_group(cp) =~= g);
        assert(encode_open(cp) =~= encode_open(cs) + seq![
            (if c.is_match { 1u8 } else { 0u8 }),
        ] + c.bytes);
    } else {
        assert(gs == group_start(k));
        assert(cp.take(gs) =~= cs.take(gs));
        assert(cp.skip(gs) =~= cs.skip(gs).push(c));
        let g = cs.skip(gs);
        assert(g.push(c).drop_last() =~= g);
        let e = encode_open(cs.take(gs));
        assert(encode_open(cp) =~= encode_open(cs).update(
            last_flag_pos(cs),
            (2 * flag_bits(last_group(cs)) + if c.is_match { 1int } else { 0 }) as u8,
        ) + c.bytes);
    }
}

/// The best split only depends on the codes it looks at.
proof fn lemma_best_split_prefix(a: Seq<BlzCode>, b: Seq<BlzCode>, n: int, i: int)
    requires
        0 <= i <= a.len(),
        i <= b.len(),
        a.take(i) == b.take(i),
    ensures
        best_split(a, n, i) == best_split(b, n, i),
    decreases i,
{
    if i > 0 {
        assert(a.take(i - 1) =~= a.take(i).take(i - 1));
        assert(b.take(i - 1) =~= b.take(i).take(i - 1));
        lemma_best_split_prefix(a, b, n, i - 1);
    }
}


proof fn lemma_shl1_le128(j: int)
    requires
        0 <= j <= 7,
    ensures
        shl(1, j) <= 128,
{
    reveal_with_fuel(shl, 8);
}

proof fn lemma_u8_shifts(x: u8)
    ensures
        x >> 1 == x / 2,
        x < 128 ==> (x << 1) == 2 * x,
        x < 128 ==> ((x << 1) | 1) == 2 * x + 1,
{
    assert(x >> 1 == x / 2) by (bit_vector);
    assert(x < 128 ==> (x << 1) == 2 * x) by (bit_vector);
    assert(x < 128 ==> ((x << 1) | 1) == 2 * x + 1) by (bit_vector);
}

proof fn lemma_code_bits(a: usize, b: usize)
    requires
        a <= 15,
        b <= 0xFFF,
    ensures
        (((a << 4usize) | (b >> 8usize)) as u8) == (a * 16 + b / 256) as u8,
        ((b & 0xFFusize) as u8) == (b % 256) as u8,
{
    assert(((a << 4usize) | (b >> 8usize)) == a * 16 + b / 256) by (bit_vector)
        requires
            a <= 15,
            b <= 0xFFF,
    ;
    assert((b & 0xFFusize) == b % 256) by (bit_vector);
}

proof fn lemma_u64_masks(x: u64)
    ensures
        x & 0xFFFF_FFFC == ((x % 0x1_0000_0000) / 4) * 4,
        x & 0xFFFF_FFFF == x % 0x1_0000_0000,
{
    assert(x & 0xFFFF_FFFC == ((x % 0x1_0000_0000) / 4) * 4) by (bit_vector);
    assert(x & 0xFFFF_FFFF == x % 0x1_0000_0000) by (bit_vector);
}

proof fn lemma_usize_low2(x: usize)
    ensures
        x & 3 == x % 4,
{
    assert(x & 3 == x % 4) by (bit_vector);
}

/// Upper bound on the compressed size for `raw_len` input bytes: one flag bit
/// per emitted code, plus an allowance for the trailer and padding.
pub fn worst_case_len(raw_len: usize) -> (r: usize)
    requires
        raw_len + raw_len / 8 + 16 <= usize::MAX,
    ensures
        r as int == worst_case_len_spec(raw_len as int),
{
    raw_len + (raw_len + 7) / 8 + 15
}

/// Compress `data` with the BLZ algorithm.
///
/// The result is a packed stream with a BLZ trailer when that stream is
/// shorter than the input (so that its extra length is a positive count), or
/// else the original bytes followed by a trailer marking them as stored. It
/// never exceeds [`worst_case_len`] bytes.
pub fn compress(data: &[u8]) -> (r: Vec<u8>)
    requires
        data@.len() < NONE,
        data@.len() + data@.len() / 8 + 16 <= usize::MAX,
    ensures
        r@ == blz_compress_spec(data@),
        r@.len() <= worst_case_len_spec(data@.len() as int),
{
    let mut output: Vec<u8> = Vec::with_capacity(worst_case_len(data.len()));
    compress_into(data, &mut output);
    output
}

/// The code at `read_pos`: `(length, offset)` of a back-reference, or a length
/// of at most [`MATCH_THRESHOLD`] for a literal.
fn choose_code(finder: &MatchFinder, read_pos: usize, len: usize) -> (r: (usize, usize))
    requires
        read_pos < len,
        len == finder.data_view().len(),
        len + len / 8 + 16 <= usize::MAX,
    ensures
        code_at(finder.data_view(), read_pos as int).is_match == (r.0 > MATCH_THRESHOLD),
        r.0 > MATCH_THRESHOLD ==> {
            &&& 3 <= r.0 <= MAX_MATCH
            &&& 3 <= r.1 <= MAX_OFFSET
            &&& code_at(finder.data_view(), read_pos as int).consumed == r.0
            &&& code_at(finder.data_view(), read_pos as int).bytes == seq![
                ((r.0 - 3) * 16 + (r.1 - 3) / 256) as u8,
                ((r.1 - 3) % 256) as u8,
            ]
        },
{
    let ghost d = finder.data_view();
    proof {
        let top = if read_pos < MAX_OFFSET { read_pos as int } else { MAX_OFFSET as int };
        lemma_best_bounds(d, read_pos as int, top);
    }
    let (mut match_len, match_offset) = finder.longest_match(read_pos);
    assert(len + 32 <= usize::MAX);
    if match_len > MATCH_THRESHOLD && read_pos + match_len < len {
        // Lazy matching: compare emitting this match now against deferring it
        // by one byte, and prefer a literal when deferral packs better.
        proof {
            let p1 = (read_pos + match_len) as int;
            let p2 = (read_pos + 1) as int;
            lemma_best_bounds(d, p1, if p1 < MAX_OFFSET { p1 } else { MAX_OFFSET as int });
            lemma_best_bounds(d, p2, if p2 < MAX_OFFSET { p2 } else { MAX_OFFSET as int });
        }
        let (mut next_len, _) = finder.longest_match(read_pos + match_len);
        let (mut post_len, _) = finder.longest_match(read_pos + 1);
        if next_len <= MATCH_THRESHOLD {
            next_len = 1;
        }
        if post_len <= MATCH_THRESHOLD {
            post_len = 1;
        }
        if match_len + next_len <= 1 + post_len {
            match_len = 1;
        }
    }
    (match_len, match_offset)
}

/// Encode `data` into `output`, which starts empty.
#[verifier::rlimit(80)]
#[verifier::spinoff_prover]
fn compress_into(data: &[u8], output: &mut Vec<u8>)
    requires
        old(output)@.len() == 0,
        data@.len() < NONE,
        data@.len() + data@.len() / 8 + 16 <= usize::MAX,
    ensures
        final(output)@ == blz_compress_spec(data@),
        final(output)@.len() <= worst_case_len_spec(data@.len() as int),
{
    let len = data.len();
    // The encoder walks the input back-to-front, so it works on a reversed copy.
    let mut input: Vec<u8> = Vec::with_capacity(len);
    let mut i: usize = 0;
    while i < len
        invariant
            i <= len,
            len == data@.len(),
            input@.len() == i,
            forall|k: int| 0 <= k < i ==> #[trigger] input@[k] == data@[len - 1 - k],
        decreases len - i,
    {
        input.push(data[len - 1 - i]);
        i = i + 1;
    }
    let ghost inp = data@.reverse();
    assert(input@ =~= inp);
    let finder = MatchFinder::new(input.as_slice());
    let ghost all = codes_from(inp, 0);
    let ghost mut cs: Seq<BlzCode> = Seq::empty();
    let mut packed: Vec<u8> = Vec::new();
    // Track the split point where (packed bytes + still-raw bytes) is
    // smallest; this is where the stored prefix ends and the packed region
    // begins.
    let mut best_packed: usize = 0;
    let mut best_remaining: usize = len;
    let mut mask: u8 = 0;
    let mut read_pos: usize = 0;
    let mut flag_pos: usize = 0;
    assert(all =~= cs + codes_from(inp, 0));
    while read_pos < len
        invariant
            len == data@.len(),
            len < NONE,
            len + len / 8 + 16 <= usize::MAX,
            input@ == inp,
            inp.len() == len,
            finder.data_view() == inp,
            read_pos <= len,
            all == cs + codes_from(inp, read_pos as int),
            read_pos as int == consumed(cs),
            cs.len() <= read_pos,
            packed@ == encode_open(cs),
            packed@.len() <= read_pos + (cs.len() + 7) / 8,
            cs.len() == 0 ==> mask == 0,
            cs.len() > 0 ==> flag_pos as int == last_flag_pos(cs) && mask == mask_at(
                last_group(cs).len() as int,
            ),
            (best_packed as int, best_remaining as int) == best_split(
                cs,
                len as int,
                cs.len() as int,
            ),
            best_packed <= packed@.len(),
            best_remaining <= len,
            best_packed == 0 ==> best_remaining == len,
            best_packed > 0 ==> best_packed + best_remaining < len,
            best_packed + best_remaining <= packed@.len() + len - read_pos,
        decreases len - read_pos,
    {
        let ghost old_cs = cs;
        let ghost c = code_at(inp, read_pos as int);
        let ghost k = cs.len() as int;
        proof {
            lemma_code_at(inp, read_pos as int);
            lemma_encode_open_push(cs, c);
            lemma_u8_shifts(mask);
            if k > 0 {
                lemma_encode_structure(cs);
                lemma_flag_bits_bound(last_group(cs));
                if k % 8 != 0 {
                    lemma_shl1_le128(last_group(cs).len() as int);
                }
            }
        }
        mask = mask >> 1;
        if mask == 0 {
            flag_pos = packed.len();
            packed.push(0);
            mask = 0x80;
        }
        let (match_len, match_offset) = choose_code(&finder, read_pos, len);
        let f = packed[flag_pos];
        proof {
            lemma_u8_shifts(f);
        }
        if match_len > MATCH_THRESHOLD {
            // Two-byte back-reference: the high nibble of the first byte holds
            // the biased length, the remaining 12 bits the biased distance.
            let biased_len = match_len - 3;
            let biased_offset = match_offset - 3;
            proof {
                lemma_code_bits(biased_len, biased_offset);
            }
            packed.set(flag_pos, (f << 1) | 1);
            packed.push(((biased_len << 4) | (biased_offset >> 8)) as u8);
            packed.push((biased_offset & 0xFF) as u8);
            read_pos = read_pos + match_len;
        } else {
            packed.set(flag_pos, f << 1);
            packed.push(input[read_pos]);
            read_pos = read_pos + 1;
        }
        proof {
            cs = cs.push(c);
            assert(cs.drop_last() =~= old_cs);
            assert(cs.take(k + 1) =~= cs);
            assert(cs.take(k) =~= old_cs);
            assert(old_cs.take(k) =~= old_cs);
            lemma_best_split_prefix(cs, old_cs, len as int, k);
            assert(all =~= cs + codes_from(inp, read_pos as int));
            assert(packed@ =~= encode_open(cs));
        }
        if packed.len() + (len - read_pos) < best_packed + best_remaining {
            best_packed = packed.len();
            best_remaining = len - read_pos;
        }
    }
    proof {
        assert(codes_from(inp, read_pos as int) =~= Seq::<BlzCode>::empty());
        assert(cs =~= all);
    }
    // Flush the trailing flag byte by shifting out its unused bits.
    let ghost j0: int = if cs.len() > 0 { last_group(cs).len() as int } else { 0 };
    let ghost mut jj: int = j0;
    let ghost bits: int = if cs.len() > 0 { flag_bits(last_group(cs)) } else { 0 };
    proof {
        if cs.len() > 0 {
            lemma_encode_structure(cs);
            lemma_encode_open_push(cs, cs[0]);
            lemma_flag_bits_bound(last_group(cs));
            assert(packed@ =~= encode_open(cs).update(flag_pos as int, shl(bits, jj - j0) as u8));
        }
    }
    while mask != 0 && mask != 1
        invariant
            cs.len() == 0 ==> mask == 0 && packed@ == encode_open(cs),
            cs.len() > 0 ==> {
                &&& j0 <= jj <= 8
                &&& mask == mask_at(jj)
                &&& flag_pos as int == last_flag_pos(cs)
                &&& flag_pos < packed@.len()
                &&& 0 <= shl(bits, jj - j0) < shl(1, jj)
                &&& packed@ == encode_open(cs).update(flag_pos as int, shl(bits, jj - j0) as u8)
            },
            cs.len() > 0 ==> 1 <= j0 <= 8 && 0 <= bits < shl(1, j0),
            cs.len() > 0 ==> last_flag_pos(cs) < encode_open(cs).len(),
        decreases 8 - jj,
    {
        proof {
            lemma_u8_shifts(mask);
            lemma_shl1_le128(jj);
        }
        mask = mask >> 1;
        let f = packed[flag_pos];
        proof {
            lemma_u8_shifts(f);
        }
        packed.set(flag_pos, f << 1);
        proof {
            jj = jj + 1;
            assert(shl(bits, jj - j0) == 2 * shl(bits, jj - 1 - j0));
            assert(packed@ =~= encode_open(cs).update(flag_pos as int, shl(bits, jj - j0) as u8));
        }
    }
    proof {
        if cs.len() > 0 {
            lemma_encode_structure(cs);
            assert(jj == 8);
            lemma_shl_small();
            let fb = flag_byte(last_group(cs));
            assert(shl(bits, jj - j0) as u8 == fb);
            let e = encode_open(cs.take(group_start(cs.len() as int)));
            assert(last_flag_pos(cs) == e.len());
            assert(encode_open(cs).update(e.len() as int, fb) =~= e + seq![fb] + code_bytes(
                last_group(cs),
            ));
            assert(flag_pos as int == e.len());
            assert(packed@ == encode_open(cs).update(flag_pos as int, fb));
            assert(encode_codes(cs) == e + seq![fb] + code_bytes(last_group(cs)));
            assert(packed@ =~= encode_codes(cs));
        } else {
            assert(packed@ =~= encode_codes(cs));
        }
    }
    let total = best_packed + best_remaining;
    let rounded = total + (4 - total % 4) % 4;
    assert(rounded == round_up(total as int, 4));
    // Pack only when the packed stream is shorter than the input, so that the
    // trailer's extra length is a positive count; otherwise store the bytes.
    if best_packed == 0 || rounded + 12 >= len {
        store_uncompressed(data, output);
    } else {
        store_packed(data, output, packed.as_slice(), best_packed, best_remaining);
    }
    proof {
        reveal(blz_stream);
    }
}

/// Emit `input` verbatim with a zero trailer marking the data as stored.
fn store_uncompressed(input: &[u8], output: &mut Vec<u8>)
    requires
        old(output)@.len() == 0,
        input@.len() + 8 <= usize::MAX,
    ensures
        final(output)@ == input@ + zeros((round_up(input@.len() as int, 4) - input@.len()) as nat)
            + le32(0),
{
    let len = input.len();
    let mut j: usize = 0;
    while j < len
        invariant
            j <= len,
            len == input@.len(),
            output@ == input@.subrange(0, j as int),
        decreases len - j,
    {
        output.push(input[j]);
        j = j + 1;
        assert(output@ =~= input@.subrange(0, j as int));
    }
    let mut pos = len;
    proof {
        lemma_usize_low2(pos);
    }
    while pos & 3 != 0
        invariant
            len == input@.len(),
            len + 8 <= usize::MAX,
            len <= pos <= round_up(len as int, 4),
            output@ == input@ + zeros((pos - len) as nat),
            pos & 3 == pos % 4,
        decreases round_up(len as int, 4) - pos,
    {
        output.push(0);
        pos = pos + 1;
        proof {
            lemma_usize_low2(pos);
        }
        assert(output@ =~= input@ + zeros((pos - len) as nat));
    }
    push_u32(output, 0);
}

/// Assemble the packed stream: the raw prefix, the first `best_packed` bytes of
/// the packed codes in reverse, `0xFF` padding to a four-byte boundary, and the
/// trailer.
#[verifier::rlimit(80)]
#[verifier::spinoff_prover]
fn store_packed(
    input: &[u8],
    output: &mut Vec<u8>,
    packed: &[u8],
    best_packed: usize,
    remaining: usize,
)
    requires
        old(output)@.len() == 0,
        input@.len() < NONE,
        best_packed <= packed@.len(),
        best_packed + remaining < input@.len(),
        input@.len() + 16 <= usize::MAX,
    ensures
        ({
            let bp = best_packed as int;
            let br = remaining as int;
            let n = input@.len() as int;
            let pad = round_up(bp + br, 4) - (bp + br);
            let hs = 12 + pad;
            final(output)@ == input@.subrange(0, br) + packed@.subrange(0, bp).reverse() + repeat(
                0xFF,
                pad as nat,
            ) + le32(((bp + hs) % 0x1_0000_0000) as u32) + le32(hs as u32) + le32(
                ((n - bp - br - hs) % 0x1_0000_0000) as u32,
            )
        }),
{
    let mut j: usize = 0;
    while j < remaining
        invariant
            j <= remaining,
            remaining < input@.len(),
            output@ == input@.subrange(0, j as int),
        decreases remaining - j,
    {
        output.push(input[j]);
        j = j + 1;
        assert(output@ =~= input@.subrange(0, j as int));
    }
    let ghost pre = output@;
    let ghost rev = packed@.subrange(0, best_packed as int).reverse();
    let mut i: usize = 0;
    while i < best_packed
        invariant
            i <= best_packed,
            best_packed <= packed@.len(),
            rev == packed@.subrange(0, best_packed as int).reverse(),
            output@ == pre + rev.subrange(0, i as int),
        decreases best_packed - i,
    {
        output.push(packed[best_packed - 1 - i]);
        i = i + 1;
        assert(output@ =~= pre + rev.subrange(0, i as int));
    }
    assert(rev.subrange(0, best_packed as int) =~= rev);
    let mut pos = remaining + best_packed;
    let mut header_size: usize = 12;
    let ghost start = pos as int;
    let ghost body = output@;
    proof {
        lemma_usize_low2(pos);
    }
    // Pad with 0xFF so the trailer ends on a 4-byte boundary; the padding
    // counts towards the recorded header size.
    while pos & 3 != 0
        invariant
            start <= pos <= round_up(start, 4),
            start + 4 < input@.len() + 4,
            input@.len() + 16 <= usize::MAX,
            header_size == 12 + pos - start,
            output@ == body + repeat(0xFF, (pos - start) as nat),
            pos & 3 == pos % 4,
        decreases round_up(start, 4) - pos,
    {
        output.push(0xFF);
        pos = pos + 1;
        header_size = header_size + 1;
        proof {
            lemma_usize_low2(pos);
        }
        assert(output@ =~= body + repeat(0xFF, (pos - start) as nat));
    }
    let inc_len = input.len() - best_packed - remaining;
    push_trailer(output, best_packed, header_size, inc_len);
}

/// Append the packed-stream trailer: the encoded length (`best_packed` plus
/// the header size), the header size, and the extra length (`inc_len` less
/// the header size, wrapping in 32 bits).
fn push_trailer(output: &mut Vec<u8>, best_packed: usize, header_size: usize, inc_len: usize)
    requires
        best_packed + header_size <= usize::MAX,
        header_size < 16,
        inc_len < NONE,
    ensures
        final(output)@ == old(output)@ + le32(((best_packed + header_size) % 0x1_0000_0000) as u32)
            + le32(header_size as u32) + le32(((inc_len - header_size) % 0x1_0000_0000) as u32),
{
    let enc = (best_packed + header_size) as u64;
    proof {
        lemma_u64_masks(enc);
    }
    push_u32(output, (enc & 0xFFFF_FFFF) as u32);
    push_u32(output, header_size as u32);
    let extra = (inc_len as u32).wrapping_sub(header_size as u32);
    assert(extra == ((inc_len - header_size) % 0x1_0000_0000) as u32);
    push_u32(output, extra);
}


/// Covered input grows with every code.
proof fn lemma_consumed_take(cs: Seq<BlzCode>, j: int)
    requires
        0 <= j <= cs.len(),
    ensures
        0 <= consumed(cs.take(j)) <= consumed(cs),
        encode_open(cs.take(j)).len() <= encode_open(cs).len(),
    decreases cs.len(),
{
    if j < cs.len() {
        let d = cs.drop_last();
        assert(cs.take(j) =~= d.take(j));
        lemma_consumed_take(d, j);
        assert(d.push(cs.last()) =~= cs);
        lemma_encode_open_push(d, cs.last());
        assert(d.take(d.len() as int) =~= d);
    } else {
        assert(cs.take(j) =~= cs);
        if cs.len() > 0 {
            lemma_consumed_take(cs.drop_last(), cs.len() - 1);
            assert(cs.drop_last().take(cs.len() - 1) =~= cs.drop_last());
        }
    }
}

/// Covered input of one code followed by more codes.
proof fn lemma_consumed_prepend(c: BlzCode, rest: Seq<BlzCode>)
    ensures
        consumed(seq![c] + rest) == c.consumed + consumed(rest),
    decreases rest.len(),
{
    let s = seq![c] + rest;
    if rest.len() == 0 {
        assert(s.drop_last() =~= Seq::<BlzCode>::empty());
        assert(s.last() == c);
        assert(consumed(Seq::<BlzCode>::empty()) == 0);
        assert(consumed(rest) == 0);
    } else {
        lemma_consumed_prepend(c, rest.drop_last());
        assert((seq![c] + rest).drop_last() =~= seq![c] + rest.drop_last());
        assert((seq![c] + rest).last() == rest.last());
    }
}

/// The codes from position `r` cover at most the rest of the input.
proof fn lemma_codes_from_consumed(inp: Seq<u8>, r: int)
    requires
        0 <= r <= inp.len(),
    ensures
        consumed(codes_from(inp, r)) <= inp.len() - r,
    decreases inp.len() - r,
{
    if r < inp.len() {
        let c = code_at(inp, r);
        if c.consumed >= 1 && r + c.consumed <= inp.len() {
            lemma_codes_from_consumed(inp, r + c.consumed);
            lemma_consumed_prepend(c, codes_from(inp, r + c.consumed));
        }
    }
}

/// Where the best split lies: within the packed stream and the input.
proof fn lemma_best_split_bounds(cs: Seq<BlzCode>, n: int, i: int)
    requires
        0 <= i <= cs.len(),
        consumed(cs) <= n,
    ensures
        0 <= best_split(cs, n, i).0 <= encode_open(cs).len(),
        0 <= best_split(cs, n, i).1 <= n,
        best_split(cs, n, i) == (0int, n) || best_split(cs, n, i).0 + best_split(cs, n, i).1 < n,
    decreases i,
{
    lemma_consumed_take(cs, i);
    if i > 0 {
        lemma_best_split_bounds(cs, n, i - 1);
    }
}

/// The words of a packed stream's trailer, read back.
proof fn lemma_trailer_words(w: Seq<u8>, enc: u32, hs: u32, extra: u32)
    ensures
        ({
            let out = w + le32(enc) + le32(hs) + le32(extra);
            let len = out.len() as int;
            &&& len == w.len() + 12
            &&& u32_of(out, len - 4) == extra
            &&& u32_of(out, len - 8) == hs
            &&& u32_of(out, len - 12) == enc
            &&& out.subrange(0, w.len() as int) == w
        }),
{
    let x = w + le32(enc);
    let y = x + le32(hs);
    let out = y + le32(extra);
    lemma_word_appended(w, enc);
    lemma_word_appended(x, hs);
    lemma_word_appended(y, extra);
    lemma_words_kept(x, le32(hs));
    lemma_words_kept(y, le32(extra));
    assert(out.subrange(0, w.len() as int) =~= w);
}

/// Where the best split of codes covering at most the input lies: within
/// the packed stream and the input, and either nowhere (all raw) or saving
/// bytes.
proof fn lemma_split_facts(cs: Seq<BlzCode>, n: int)
    requires
        consumed(cs) <= n,
    ensures
        ({
            let split = best_split(cs, n, cs.len() as int);
            &&& 0 <= split.0 <= encode_codes(cs).len()
            &&& 0 <= split.1 <= n
            &&& split == (0int, n) || split.0 + split.1 < n
        }),
{
    lemma_consumed_take(cs, 0);
    lemma_best_split_bounds(cs, n, cs.len() as int);
    if cs.len() > 0 {
        lemma_encode_structure(cs);
    }
}

/// The packed layout of `data` with `bp` packed bytes of `pk` after a raw
/// prefix of `br` bytes: its length, header size and the words a decoder
/// reads.
#[verifier::spinoff_prover]
proof fn lemma_packed_layout(data: Seq<u8>, pk: Seq<u8>, bp: int, br: int)
    requires
        0 <= bp <= pk.len(),
        0 <= br,
        bp + br < data.len(),
        packs(data.len() as int, bp, br),
    ensures
        ({
            let n = data.len() as int;
            let pad = round_up(bp + br, 4) - (bp + br);
            let hs = 12 + pad;
            let out = data.subrange(0, br) + pk.subrange(0, bp).reverse() + repeat(0xFF, pad as nat) + le32(
                ((bp + hs) % 0x1_0000_0000) as u32,
            ) + le32(hs as u32) + le32(((n - bp - br - hs) % 0x1_0000_0000) as u32);
            let len = out.len() as int;
            &&& len % 4 == 0
            &&& 12 <= len < n
            &&& 12 <= u32_of(out, len - 8) <= 15
            &&& n <= u32::MAX ==> {
                let extra = u32_of(out, len - 4);
                let header_size = u32_of(out, len - 8);
                let enc_len = u32_of(out, len - 12);
                &&& header_size <= enc_len <= len
                &&& out.subrange(0, len - enc_len) == data.subrange(0, len - enc_len)
                &&& len + extra == n
            }
        }),
{
    let n = data.len() as int;
    let pad = round_up(bp + br, 4) - (bp + br);
    let hs = 12 + pad;
    let w = data.subrange(0, br) + pk.subrange(0, bp).reverse() + repeat(0xFF, pad as nat);
    let enc = ((bp + hs) % 0x1_0000_0000) as u32;
    let extra = ((n - bp - br - hs) % 0x1_0000_0000) as u32;
    lemma_trailer_words(w, enc, hs as u32, extra);
    if n <= u32::MAX {
        assert(enc == bp + hs);
        assert(extra == n - bp - br - hs);
        assert(w.subrange(0, br) =~= data.subrange(0, br));
    }
}

/// The stream laid out from codes covering at most the input ends on a
/// 4-byte boundary, and is stored or ends with a trailer whose header size
/// is between 12 and 15.
#[verifier::spinoff_prover]
#[verifier::rlimit(60)]
proof fn lemma_stream_trailer(data: Seq<u8>, cs: Seq<BlzCode>)
    requires
        consumed(cs) <= data.len(),
    ensures
        blz_stream(data, cs).len() % 4 == 0,
        blz_stream(data, cs) == data + zeros((round_up(data.len() as int, 4) - data.len()) as nat) + le32(0)
            || 12 <= u32_of(blz_stream(data, cs), blz_stream(data, cs).len() - 8) <= 15,
        blz_stream(data, cs) != data + zeros((round_up(data.len() as int, 4) - data.len()) as nat) + le32(0)
            ==> blz_stream(data, cs).len() < data.len(),
        data.len() <= u32::MAX && blz_stream(data, cs) != data + zeros(
            (round_up(data.len() as int, 4) - data.len()) as nat,
        ) + le32(0) ==> ({
            let out = blz_stream(data, cs);
            let len = out.len() as int;
            let extra = u32_of(out, len - 4);
            let header_size = u32_of(out, len - 8);
            let enc_len = u32_of(out, len - 12);
            &&& 12 <= len
            &&& header_size <= enc_len <= len
            &&& out.subrange(0, len - enc_len) == data.subrange(0, len - enc_len)
            &&& len + extra == data.len()
        }),
{
    let n = data.len() as int;
    let pk = encode_codes(cs);
    let split = best_split(cs, n, cs.len() as int);
    let bp = split.0;
    let br = split.1;
    lemma_split_facts(cs, n);
    let stored = data + zeros((round_up(n, 4) - n) as nat) + le32(0);
    let is_stored = !packs(n, bp, br);
    let pad = round_up(bp + br, 4) - (bp + br);
    let hs = 12 + pad;
    let packed = data.subrange(0, br) + pk.subrange(0, bp).reverse() + repeat(0xFF, pad as nat) + le32(
        ((bp + hs) % 0x1_0000_0000) as u32,
    ) + le32(hs as u32) + le32(((n - bp - br - hs) % 0x1_0000_0000) as u32);
    assert(blz_stream(data, cs) == if is_stored { stored } else { packed }) by {
        reveal(blz_stream);
    }
    if !is_stored {
        lemma_packed_layout(data, pk, bp, br);
    }
}

/// `out` extended by `n` bytes, each a copy of the byte `dist` behind it,
/// one at a time (so a copy may overlap the bytes it produces).
pub open spec fn copy_back(out: Seq<u8>, dist: int, n: int) -> Seq<u8>
    decreases n,
{
    if n <= 0 {
        out
    } else {
        copy_back(out.push(out[out.len() - dist]), dist, n - 1)
    }
}

/// `out` extended by what one code decodes to: a literal's byte, or for a
/// back-reference with bytes `b0`, `b1`, `(b0 >> 4) + 3` bytes copied from
/// `(((b0 & 0xF) << 8) | b1) + 3` bytes behind.
pub open spec fn decode_code(out: Seq<u8>, c: BlzCode) -> Seq<u8> {
    if c.is_match {
        copy_back(out, (c.bytes[0] % 16) * 256 + c.bytes[1] + 3, c.bytes[0] / 16 + 3)
    } else {
        out.push(c.bytes[0])
    }
}

/// `out` extended by what the codes `cs` decode to, in order.
pub open spec fn decode_codes(out: Seq<u8>, cs: Seq<BlzCode>) -> Seq<u8>
    decreases cs.len(),
{
    if cs.len() == 0 {
        out
    } else {
        decode_codes(decode_code(out, cs[0]), cs.drop_first())
    }
}

/// Copying `ml - k` bytes from `mo` behind, after the first `r + k` bytes of
/// a run that repeats the bytes `mo` behind it, completes the run.
proof fn lemma_copy_back_run(inp: Seq<u8>, r: int, mo: int, ml: int, k: int)
    requires
        0 <= k <= ml,
        r + ml <= inp.len(),
        1 <= mo <= r,
        forall|j: int| 0 <= j < ml ==> #[trigger] inp[r + j] == inp[r + j - mo],
    ensures
        copy_back(inp.take(r + k), mo, ml - k) == inp.take(r + ml),
    decreases ml - k,
{
    if k < ml {
        let t = inp.take(r + k);
        assert(t[t.len() - mo] == inp[r + k - mo]);
        assert(inp[r + k] == inp[r + k - mo]);
        assert(t.push(t[t.len() - mo]) =~= inp.take(r + k + 1));
        lemma_copy_back_run(inp, r, mo, ml, k + 1);
    } else {
        assert(copy_back(inp.take(r + k), mo, 0) == inp.take(r + k));
    }
}

/// The code at `r` decodes, after the first `r` bytes, to the bytes it
/// covers.
proof fn lemma_decode_code_at(inp: Seq<u8>, r: int)
    requires
        0 <= r < inp.len(),
    ensures
        decode_code(inp.take(r), code_at(inp, r)) == inp.take(r + code_at(inp, r).consumed),
{
    lemma_code_at(inp, r);
    let c = code_at(inp, r);
    let top = if r < MAX_OFFSET { r } else { MAX_OFFSET as int };
    lemma_best_bounds(inp, r, top);
    let m = longest_match_spec(inp, r);
    if c.is_match {
        let ml = c.consumed as int;
        let mo = m.1;
        assert(ml == m.0);
        lemma_run_len_bounds(inp, r, mo);
        assert(3 <= ml <= 18);
        assert(3 <= mo <= r);
        assert(mo <= MAX_OFFSET);
        let a = ml - 3;
        let q = (mo - 3) / 256;
        let b = (mo - 3) % 256;
        assert(0 <= q < 16);
        assert(c.bytes[0] == (a * 16 + q) as u8);
        assert(c.bytes[1] == b as u8);
        assert(c.bytes[0] as int == a * 16 + q);
        assert(c.bytes[0] / 16 == a);
        assert(c.bytes[0] % 16 == q);
        assert((c.bytes[0] % 16) * 256 + c.bytes[1] + 3 == mo);
        assert(inp.take(r + 0) =~= inp.take(r));
        lemma_copy_back_run(inp, r, mo, ml, 0);
    } else {
        assert(inp.take(r).push(inp[r]) =~= inp.take(r + 1));
    }
}

/// The codes from position `r` cover the rest of the input exactly and,
/// decoded in order after its first `r` bytes, rebuild it.
proof fn lemma_decode_codes_from(inp: Seq<u8>, r: int)
    requires
        0 <= r <= inp.len(),
    ensures
        consumed(codes_from(inp, r)) == inp.len() - r,
        decode_codes(inp.take(r), codes_from(inp, r)) == inp,
    decreases inp.len() - r,
{
    if r < inp.len() {
        lemma_code_at(inp, r);
        let c = code_at(inp, r);
        let rest = codes_from(inp, r + c.consumed);
        lemma_decode_code_at(inp, r);
        lemma_decode_codes_from(inp, r + c.consumed);
        lemma_consumed_prepend(c, rest);
        let cs = codes_from(inp, r);
        assert(cs[0] == c);
        assert(cs.drop_first() =~= rest);
    } else {
        assert(codes_from(inp, r) == Seq::<BlzCode>::empty());
        assert(inp.take(r) =~= inp);
    }
}

/// The codes the encoder emits for an input cover it exactly, and decoding
/// them in order rebuilds it: each literal gives its byte, and each
/// back-reference, read from its two bytes as a length and a distance,
/// copies that many bytes from that far behind. `compress` encodes the
/// input reversed, so these codes rebuild `data` read from its end.
pub proof fn lemma_codes_rebuild_input(data: Seq<u8>)
    ensures
        consumed(codes_from(data.reverse(), 0)) == data.len(),
        decode_codes(Seq::empty(), codes_from(data.reverse(), 0)) == data.reverse(),
{
    let inp = data.reverse();
    lemma_decode_codes_from(inp, 0);
    assert(inp.take(0) =~= Seq::<u8>::empty());
}

/// Whether bit `j` from the top (bit `7 - j`) of a flag byte is set.
pub open spec fn flag_bit(flag: u8, j: int) -> bool {
    (flag as int / shl(1, 7 - j)) % 2 == 1
}

proof fn lemma_shl_mul(v: int, k: int)
    requires
        k >= 0,
    ensures
        shl(v, k) == v * shl(1, k),
        shl(1, k) > 0,
    decreases k,
{
    if k > 0 {
        lemma_shl_mul(v, k - 1);
        let x = shl(1, k - 1);
        assert(2 * (v * x) == v * (2 * x)) by (nonlinear_arith);
    }
}

proof fn lemma_shl_add(a: int, b: int)
    requires
        a >= 0,
        b >= 0,
    ensures
        shl(1, a + b) == shl(1, a) * shl(1, b),
    decreases b,
{
    if b > 0 {
        lemma_shl_add(a, b - 1);
        let x = shl(1, a);
        let y = shl(1, b - 1);
        assert(2 * (x * y) == x * (2 * y)) by (nonlinear_arith);
    }
}

/// The flag bits of a group hold the kind of its code `j` at bit
/// `len - 1 - j`.
proof fn lemma_flag_bits_bit(g: Seq<BlzCode>, j: int)
    requires
        0 <= j < g.len(),
    ensures
        (flag_bits(g) / shl(1, g.len() - 1 - j)) % 2 == (if g[j].is_match { 1int } else { 0 }),
    decreases g.len(),
{
    let d = g.drop_last();
    let b: int = if g.last().is_match { 1 } else { 0 };
    let fb = flag_bits(d);
    lemma_flag_bits_bound(d);
    assert(flag_bits(g) == 2 * fb + b);
    if j == g.len() - 1 {
        assert(shl(1, 0) == 1);
        assert(g[j] == g.last());
    } else {
        lemma_flag_bits_bit(d, j);
        assert(d[j] == g[j]);
        let s = shl(1, d.len() - 1 - j);
        lemma_shl_mul(1, d.len() - 1 - j);
        assert(shl(1, g.len() - 1 - j) == 2 * s);
        assert((2 * fb + b) / 2 == fb);
        vstd::arithmetic::div_mod::lemma_div_denominator(2 * fb + b, 2, s);
    }
}

/// The flag byte of a group of at most eight codes has bit `7 - j` set
/// exactly when its code `j` is a back-reference.
proof fn lemma_flag_byte_bit(g: Seq<BlzCode>, j: int)
    requires
        1 <= g.len() <= 8,
        0 <= j < g.len(),
    ensures
        flag_bit(flag_byte(g), j) == g[j].is_match,
{
    let l = g.len() as int;
    let fb = flag_bits(g);
    lemma_flag_bits_bound(g);
    lemma_flag_bits_bit(g, j);
    lemma_shl_mul(fb, 8 - l);
    lemma_shl_mul(1, l);
    lemma_shl_add(l, 8 - l);
    lemma_shl_small();
    let c = shl(1, 8 - l);
    let s = shl(1, l - 1 - j);
    lemma_shl_mul(1, l - 1 - j);
    lemma_shl_add(8 - l, l - 1 - j);
    assert(shl(1, 7 - j) == c * s);
    assert(fb * c < 256) by (nonlinear_arith)
        requires
            0 <= fb < shl(1, l),
            shl(1, l) * c == 256,
            c > 0,
    ;
    assert(0 <= fb * c) by (nonlinear_arith)
        requires
            0 <= fb,
            c > 0,
    ;
    assert(flag_byte(g) as int == fb * c);
    vstd::arithmetic::div_mod::lemma_div_multiples_vanish_quotient(c, fb, s);
    assert(fb * c == c * fb) by (nonlinear_arith);
}

/// What a decoder reads from the packed bytes `p` (in decode order) from
/// position `at` on, with `j` codes of the current flag byte `flag` taken
/// (eight: the next byte is a flag byte), appending to `out` until it holds
/// `target` bytes: a set flag bit (most significant first) reads a two-byte
/// back-reference, a clear one a literal byte.
pub open spec fn unpack(p: Seq<u8>, at: int, flag: u8, j: int, out: Seq<u8>, target: int) -> Seq<u8>
    decreases p.len() - at,
{
    if out.len() >= target || at < 0 || at >= p.len() {
        out
    } else if j >= 8 {
        unpack(p, at + 1, p[at], 0, out, target)
    } else if flag_bit(flag, j) {
        if at + 1 >= p.len() {
            out
        } else {
            unpack(
                p,
                at + 2,
                flag,
                j + 1,
                copy_back(out, (p[at] % 16) * 256 + p[at + 1] + 3, p[at] / 16 + 3),
                target,
            )
        }
    } else {
        unpack(p, at + 1, flag, j + 1, out.push(p[at]), target)
    }
}

/// Whether a code's bytes are those of its kind and give its length.
pub open spec fn code_ok(c: BlzCode) -> bool {
    if c.is_match {
        c.bytes.len() == 2 && c.consumed == c.bytes[0] / 16 + 3
    } else {
        c.bytes.len() == 1 && c.consumed == 1
    }
}

/// The group of eight codes (fewer at the end) that holds code `m`.
pub open spec fn group_of(cs: Seq<BlzCode>, m: int) -> Seq<BlzCode> {
    let s = 8 * (m / 8);
    cs.subrange(s, if s + 8 < cs.len() { s + 8 } else { cs.len() as int })
}

proof fn lemma_copy_back_len(out: Seq<u8>, dist: int, n: int)
    requires
        n >= 0,
    ensures
        copy_back(out, dist, n).len() == out.len() + n,
    decreases n,
{
    if n > 0 {
        lemma_copy_back_len(out.push(out[out.len() - dist]), dist, n - 1);
    }
}

/// The finished stream is the open stream of its full groups up to `8 q`,
/// then the finished stream of the rest.
proof fn lemma_encode_codes_split(cs: Seq<BlzCode>, q: int)
    requires
        0 <= q,
        8 * q <= cs.len(),
    ensures
        encode_codes(cs) == encode_open(cs.take(8 * q)) + encode_codes(cs.skip(8 * q)),
    decreases q,
{
    if q == 0 {
        assert(cs.take(0) =~= Seq::<BlzCode>::empty());
        assert(cs.skip(0) =~= cs);
        assert(encode_open(Seq::<BlzCode>::empty()) =~= Seq::<u8>::empty());
    } else {
        let g = cs.take(8);
        lemma_shl_mul(flag_bits(g), 0);
        lemma_shl_small();
        assert(flag_byte(g) == flag_bits(g) as u8);
        let rest = cs.skip(8);
        lemma_encode_codes_split(rest, q - 1);
        let t = cs.take(8 * q);
        assert(t.take(8) =~= g);
        if cs.len() == 8 {
            assert(q == 1);
            assert(t =~= cs);
            assert(g =~= cs);
            assert(cs.skip(8) =~= Seq::<BlzCode>::empty());
        } else {
            assert(rest.take(8 * (q - 1)) =~= t.skip(8));
            assert(rest.skip(8 * (q - 1)) =~= cs.skip(8 * q));
            if q == 1 {
                assert(t =~= g);
                assert(rest.take(0) =~= Seq::<BlzCode>::empty());
                assert(encode_open(Seq::<BlzCode>::empty()) =~= Seq::<u8>::empty());
            }
        }
    }
}

/// The code bytes of a prefix of codes start the code bytes of the whole.
proof fn lemma_code_bytes_prefix(g: Seq<BlzCode>, k: int)
    requires
        0 <= k <= g.len(),
    ensures
        code_bytes(g.take(k)).len() <= code_bytes(g).len(),
        code_bytes(g).subrange(0, code_bytes(g.take(k)).len() as int) == code_bytes(g.take(k)),
    decreases g.len(),
{
    if k == g.len() {
        assert(g.take(k) =~= g);
    } else {
        let d = g.drop_last();
        lemma_code_bytes_prefix(d, k);
        assert(d.take(k) =~= g.take(k));
        assert(code_bytes(g) == code_bytes(d) + g.last().bytes);
        assert(code_bytes(g).subrange(0, code_bytes(g.take(k)).len() as int) =~= code_bytes(d).subrange(
            0,
            code_bytes(g.take(k)).len() as int,
        ));
    }
}

/// Where code `m` lies in the finished stream: the flag byte of its group
/// at the end of the full groups before it, its bytes after those of the
/// codes before it in the group; and where the open streams of the first
/// `m` and `m + 1` codes end.
#[verifier::spinoff_prover]
#[verifier::rlimit(40)]
proof fn lemma_group_layout(cs: Seq<BlzCode>, m: int)
    requires
        0 <= m < cs.len(),
    ensures
        ({
            let q = m / 8;
            let r = m % 8;
            let e = encode_codes(cs);
            let a = encode_open(cs.take(8 * q)).len() as int;
            let g = group_of(cs, m);
            let cb = code_bytes(cs.subrange(8 * q, m)).len() as int;
            &&& 1 <= g.len() <= 8
            &&& r < g.len()
            &&& g[r] == cs[m]
            &&& a < e.len()
            &&& e[a] == flag_byte(g)
            &&& a + 1 + cb + cs[m].bytes.len() <= e.len()
            &&& e.subrange(a + 1 + cb, a + 1 + cb + cs[m].bytes.len()) == cs[m].bytes
            &&& encode_open(cs.take(m)).len() == (if r == 0 { a } else { a + 1 + cb })
            &&& encode_open(cs.take(m + 1)).len() == a + 1 + cb + cs[m].bytes.len()
        }),
{
    let q = m / 8;
    let r = m % 8;
    let e = encode_codes(cs);
    let a = encode_open(cs.take(8 * q)).len() as int;
    let g = group_of(cs, m);
    let sub = cs.subrange(8 * q, m);
    let cb = code_bytes(sub).len() as int;
    lemma_encode_codes_split(cs, q);
    let rest = cs.skip(8 * q);
    let g2 = if rest.len() <= 8 { rest } else { rest.take(8) };
    assert(g2 =~= g);
    assert(encode_codes(rest) =~= seq![flag_byte(g)] + code_bytes(g) + (if rest.len() <= 8 {
        Seq::<u8>::empty()
    } else {
        encode_codes(rest.skip(8))
    }));
    assert(e == encode_open(cs.take(8 * q)) + encode_codes(rest));
    assert(e[a] == flag_byte(g));
    assert(g[r] == cs[m]);
    lemma_code_bytes_prefix(g, r + 1);
    assert(g.take(r + 1).drop_last() =~= sub);
    assert(g.take(r + 1).last() == cs[m]);
    assert(code_bytes(g.take(r + 1)) == code_bytes(sub) + cs[m].bytes);
    assert(e.subrange(a + 1 + cb, a + 1 + cb + cs[m].bytes.len()) =~= code_bytes(g).subrange(
        0,
        code_bytes(g.take(r + 1)).len() as int,
    ).subrange(cb, cb + cs[m].bytes.len()));
    let t1 = cs.take(m + 1);
    lemma_encode_structure(t1);
    assert(group_start(m + 1) == 8 * q);
    assert(t1.take(8 * q) =~= cs.take(8 * q));
    assert(last_group(t1) =~= g.take(r + 1));
    if r > 0 {
        let t0 = cs.take(m);
        lemma_encode_structure(t0);
        assert(group_start(m) == 8 * q);
        assert(t0.take(8 * q) =~= cs.take(8 * q));
        assert(last_group(t0) =~= sub);
    } else {
        assert(cs.take(m) =~= cs.take(8 * q));
    }
}

/// Unpacking the packed bytes of the first `i` codes, from the place of
/// code `m` on, decodes codes `m` up to `i`.
#[verifier::spinoff_prover]
#[verifier::rlimit(40)]
proof fn lemma_unpack_codes(cs: Seq<BlzCode>, i: int, m: int, flag: u8, out: Seq<u8>)
    requires
        0 <= m <= i <= cs.len(),
        forall|k: int| 0 <= k < cs.len() ==> code_ok(#[trigger] cs[k]),
        m % 8 != 0 ==> flag == flag_byte(group_of(cs, m)),
        out.len() + consumed(cs.subrange(m, i)) == consumed(cs.take(i)),
    ensures
        unpack(
            encode_codes(cs).take(encode_open(cs.take(i)).len() as int),
            encode_open(cs.take(m)).len() as int,
            flag,
            if m % 8 == 0 { 8 } else { m % 8 },
            out,
            consumed(cs.take(i)),
        ) == decode_codes(out, cs.subrange(m, i)),
    decreases i - m,
{
    let p = encode_codes(cs).take(encode_open(cs.take(i)).len() as int);
    let tgt = consumed(cs.take(i));
    if m == i {
        assert(cs.subrange(m, i) =~= Seq::<BlzCode>::empty());
        assert(consumed(Seq::<BlzCode>::empty()) == 0);
    } else {
        lemma_group_layout(cs, m);
        let q = m / 8;
        let r = m % 8;
        let e = encode_codes(cs);
        let a = encode_open(cs.take(8 * q)).len() as int;
        let g = group_of(cs, m);
        let cb = code_bytes(cs.subrange(8 * q, m)).len() as int;
        let c = cs[m];
        let at0 = encode_open(cs.take(m)).len() as int;
        let at1 = encode_open(cs.take(m + 1)).len() as int;
        lemma_consumed_take(cs.take(i), m + 1);
        assert(cs.take(i).take(m + 1) =~= cs.take(m + 1));
        lemma_encode_structure(cs);
        lemma_consumed_take(cs, i);
        assert(p.len() == encode_open(cs.take(i)).len());
        assert(at1 <= p.len());
        let sub = cs.subrange(m, i);
        let sub1 = cs.subrange(m + 1, i);
        assert(sub =~= seq![c] + sub1);
        lemma_consumed_prepend(c, sub1);
        lemma_consumed_take(sub1, sub1.len() as int);
        assert(sub1.take(sub1.len() as int) =~= sub1);
        assert(code_ok(c));
        let out1 = decode_code(out, c);
        if c.is_match {
            lemma_copy_back_len(out, (c.bytes[0] % 16) * 256 + c.bytes[1] + 3, c.bytes[0] / 16 + 3);
        }
        assert(out1.len() == out.len() + c.consumed);
        assert(out.len() < tgt);
        let pos = a + 1 + cb;
        assert(p[pos] == c.bytes[0]) by {
            assert(e.subrange(pos, pos + c.bytes.len())[0] == e[pos]);
        }
        if c.is_match {
            assert(p[pos + 1] == c.bytes[1]) by {
                assert(e.subrange(pos, pos + c.bytes.len())[1] == e[pos + 1]);
            }
        }
        lemma_flag_byte_bit(g, r);
        let fl = flag_byte(g);
        let flag1: u8 = if r == 0 { fl } else { flag };
        assert(flag1 == fl);
        lemma_unpack_codes(cs, i, m + 1, fl, out1);
        let j1: int = if (m + 1) % 8 == 0 { 8 } else { (m + 1) % 8 };
        assert(j1 == r + 1 || (r == 7 && j1 == 8));
        assert(unpack(p, pos, fl, r, out, tgt) == unpack(p, at1, fl, r + 1, out1, tgt));
        if r + 1 == 8 {
            assert(unpack(p, at1, fl, r + 1, out1, tgt) == unpack(p, at1, fl, j1, out1, tgt));
        }
        if r == 0 {
            assert(p[a] == fl);
            assert(unpack(p, at0, flag, 8, out, tgt) == unpack(p, a + 1, fl, 0, out, tgt));
        }
        assert(decode_codes(out, sub) == decode_codes(out1, sub1)) by {
            assert(sub[0] == c);
            assert(sub.drop_first() =~= sub1);
        }
    }
}

/// The code at `r` has the bytes of its kind, which give its length.
proof fn lemma_code_at_ok(inp: Seq<u8>, r: int)
    requires
        0 <= r < inp.len(),
    ensures
        code_ok(code_at(inp, r)),
{
    lemma_code_at(inp, r);
    let c = code_at(inp, r);
    let top = if r < MAX_OFFSET { r } else { MAX_OFFSET as int };
    lemma_best_bounds(inp, r, top);
    let m = longest_match_spec(inp, r);
    if c.is_match {
        let ml = c.consumed as int;
        let mo = m.1;
        assert(ml == m.0);
        assert(3 <= ml <= 18);
        assert(3 <= mo <= MAX_OFFSET);
        let a = ml - 3;
        let q = (mo - 3) / 256;
        assert(0 <= q < 16);
        assert(c.bytes[0] as int == a * 16 + q);
        assert(c.bytes[0] / 16 == a);
    }
}

/// Every code the encoder emits from `r` on has the bytes of its kind.
proof fn lemma_codes_from_ok(inp: Seq<u8>, r: int)
    requires
        0 <= r <= inp.len(),
    ensures
        forall|k: int| 0 <= k < codes_from(inp, r).len() ==> code_ok(#[trigger] codes_from(inp, r)[k]),
    decreases inp.len() - r,
{
    if r < inp.len() {
        lemma_code_at(inp, r);
        lemma_code_at_ok(inp, r);
        let c = code_at(inp, r);
        lemma_codes_from_ok(inp, r + c.consumed);
        let rest = codes_from(inp, r + c.consumed);
        assert forall|k: int| 0 <= k < codes_from(inp, r).len() implies code_ok(
            #[trigger] codes_from(inp, r)[k],
        ) by {
            if k > 0 {
                assert(codes_from(inp, r)[k] == rest[k - 1]);
            }
        }
    }
}

/// Decoding the first `k` codes from `r`, after the first `r` bytes, gives
/// the input up to the bytes they cover.
proof fn lemma_decode_prefix(inp: Seq<u8>, r: int, k: int)
    requires
        0 <= r <= inp.len(),
        0 <= k <= codes_from(inp, r).len(),
    ensures
        decode_codes(inp.take(r), codes_from(inp, r).take(k)) == inp.take(
            r + consumed(codes_from(inp, r).take(k)),
        ),
        r + consumed(codes_from(inp, r).take(k)) <= inp.len(),
    decreases k,
{
    let cs = codes_from(inp, r);
    if k == 0 {
        assert(cs.take(0) =~= Seq::<BlzCode>::empty());
        assert(consumed(Seq::<BlzCode>::empty()) == 0);
        assert(inp.take(r + 0) =~= inp.take(r));
    } else {
        lemma_code_at(inp, r);
        lemma_decode_code_at(inp, r);
        let c = code_at(inp, r);
        let rest = codes_from(inp, r + c.consumed);
        lemma_decode_prefix(inp, r + c.consumed, k - 1);
        assert(cs.take(k) =~= seq![c] + rest.take(k - 1));
        lemma_consumed_prepend(c, rest.take(k - 1));
        assert(cs.take(k)[0] == c);
        assert(cs.take(k).drop_first() =~= rest.take(k - 1));
    }
}

/// The best split is that of some prefix of the codes: its open stream is
/// the packed part, and what it leaves of the input the raw part.
proof fn lemma_best_split_index(cs: Seq<BlzCode>, n: int, k: int) -> (i: int)
    requires
        0 <= k <= cs.len(),
    ensures
        0 <= i <= k,
        best_split(cs, n, k) == (encode_open(cs.take(i)).len() as int, n - consumed(cs.take(i))),
    decreases k,
{
    if k == 0 {
        assert(cs.take(0) =~= Seq::<BlzCode>::empty());
        assert(encode_open(Seq::<BlzCode>::empty()) =~= Seq::<u8>::empty());
        assert(consumed(Seq::<BlzCode>::empty()) == 0);
        0
    } else {
        let j = lemma_best_split_index(cs, n, k - 1);
        let w = encode_open(cs.take(k)).len() as int;
        let rem = n - consumed(cs.take(k));
        let prev = best_split(cs, n, k - 1);
        if w + rem < prev.0 + prev.1 {
            k
        } else {
            j
        }
    }
}

/// What a decoder makes of a BLZ stream `s`, read as the stream layout
/// describes: with a zero extra length (the last word) the leading
/// `len - 4` bytes; else, from the trailer's `enc_len` and `header_size`,
/// the raw prefix of `len - enc_len` bytes, then the packed region (the
/// `enc_len - header_size` bytes after it) un-reversed and unpacked into
/// `enc_len + extra_len` bytes, which, reversed, end the data.
pub open spec fn blz_decode_spec(s: Seq<u8>) -> Seq<u8> {
    let len = s.len() as int;
    let extra = u32_of(s, len - 4) as int;
    if extra == 0 {
        s.take(len - 4)
    } else {
        let hs = u32_of(s, len - 8) as int;
        let enc = u32_of(s, len - 12) as int;
        let dec = len - enc;
        let packed = s.subrange(dec, dec + enc - hs).reverse();
        s.take(dec) + unpack(packed, 0, 0, 8, Seq::empty(), enc + extra).reverse()
    }
}

/// Decoding what `compress` writes gives the input back: a packed stream
/// decodes to the input exactly, a stored one to the input and its zero
/// padding to four bytes.
#[verifier::spinoff_prover]
#[verifier::rlimit(60)]
pub proof fn lemma_decode_compressed(data: Seq<u8>)
    requires
        data.len() <= u32::MAX,
    ensures
        ({
            let n = data.len() as int;
            let stored = data + zeros((round_up(n, 4) - n) as nat) + le32(0);
            blz_decode_spec(blz_compress_spec(data)) == if blz_compress_spec(data) == stored {
                data + zeros((round_up(n, 4) - n) as nat)
            } else {
                data
            }
        }),
{
    let n = data.len() as int;
    let inp = data.reverse();
    let cs = codes_from(inp, 0);
    let out = blz_compress_spec(data);
    let stored = data + zeros((round_up(n, 4) - n) as nat) + le32(0);
    lemma_codes_from_consumed(inp, 0);
    let p = encode_codes(cs);
    let split = best_split(cs, n, cs.len() as int);
    let bp = split.0;
    let br = split.1;
    assert(out == blz_stream(data, cs));
    if !packs(n, bp, br) {
        assert(out == stored) by {
            reveal(blz_stream);
        }
        let w = data + zeros((round_up(n, 4) - n) as nat);
        lemma_word_appended(w, 0);
        assert(out.take(out.len() - 4) =~= w);
    } else {
        let i = lemma_best_split_index(cs, n, cs.len() as int);
        lemma_split_facts(cs, n);
        let pad = round_up(bp + br, 4) - (bp + br);
        let hs = 12 + pad;
        let w = data.subrange(0, br) + p.subrange(0, bp).reverse() + repeat(0xFF, pad as nat);
        let enc = ((bp + hs) % 0x1_0000_0000) as u32;
        let extra = ((n - bp - br - hs) % 0x1_0000_0000) as u32;
        assert(out == w + le32(enc) + le32(hs as u32) + le32(extra)) by {
            reveal(blz_stream);
        }
        lemma_trailer_words(w, enc, hs as u32, extra);
        assert(enc == bp + hs);
        assert(extra == n - bp - br - hs);
        assert(extra > 0);
        assert(out != stored) by {
            lemma_word_appended(data + zeros((round_up(n, 4) - n) as nat), 0);
        }
        let len = out.len() as int;
        assert(len - enc == br);
        let packed = out.subrange(br, br + bp).reverse();
        assert(out.subrange(br, br + bp) =~= p.subrange(0, bp).reverse());
        assert(packed =~= p.take(bp));
        assert(i >= 1 || bp == 0) by {
            if i == 0 {
                assert(cs.take(0) =~= Seq::<BlzCode>::empty());
                assert(encode_open(Seq::<BlzCode>::empty()) =~= Seq::<u8>::empty());
            }
        }
        let t = consumed(cs.take(i));
        assert(enc + extra == t);
        lemma_codes_from_ok(inp, 0);
        assert(cs.subrange(0, i) =~= cs.take(i));
        assert(cs.take(0) =~= Seq::<BlzCode>::empty());
        assert(encode_open(Seq::<BlzCode>::empty()) =~= Seq::<u8>::empty());
        lemma_unpack_codes(cs, i, 0, 0, Seq::empty());
        lemma_decode_prefix(inp, 0, i);
        assert(inp.take(0) =~= Seq::<u8>::empty());
        let tail = inp.take(t);
        assert(tail.reverse() =~= data.subrange(br, n));
        assert(out.take(br) =~= data.subrange(0, br));
        assert(data.subrange(0, br) + data.subrange(br, n) =~= data);
    }
}

/// Every stream `compress` writes ends on a 4-byte boundary. A stored stream
/// is the input, zero padding and a zero word; a packed stream ends with its
/// trailer, whose header size (the second-to-last word) counts the three
/// trailer words and the `0xFF` padding: between 12 and 15.
pub proof fn lemma_compress_trailer(data: Seq<u8>)
    ensures
        blz_compress_spec(data).len() % 4 == 0,
        blz_compress_spec(data) == data + zeros((round_up(data.len() as int, 4) - data.len()) as nat)
            + le32(0) || 12 <= u32_of(
            blz_compress_spec(data),
            blz_compress_spec(data).len() - 8,
        ) <= 15,
{
    lemma_codes_from_consumed(data.reverse(), 0);
    lemma_stream_trailer(data, codes_from(data.reverse(), 0));
}

/// The packed form is used only where it is shorter than the input, hence
/// than the stored form; and it tells a decoder how to undo it: reading the
/// trailer from the end as `extra_len`, `header_size` and `enc_len`, the
/// header size is between 12 and 15, the encoded region (`enc_len` bytes) is
/// at least the header and at most the stream, the bytes before it are the
/// input's leading bytes as they were, and `extra_len` is the positive count
/// of bytes the input has beyond the stream, so that `dec_len + enc_len +
/// extra_len` (with `dec_len` the length of that prefix) is the input length.
pub proof fn lemma_packed_trailer_decodes(data: Seq<u8>)
    requires
        data.len() <= u32::MAX,
        blz_compress_spec(data) != data + zeros((round_up(data.len() as int, 4) - data.len()) as nat) + le32(0),
    ensures
        ({
            let out = blz_compress_spec(data);
            let len = out.len() as int;
            let extra = u32_of(out, len - 4);
            let header_size = u32_of(out, len - 8);
            let enc_len = u32_of(out, len - 12);
            &&& 12 <= len < data.len()
            &&& 12 <= header_size <= 15
            &&& extra > 0
            &&& header_size <= enc_len <= len
            &&& out.subrange(0, len - enc_len) == data.subrange(0, len - enc_len)
            &&& len + extra == data.len()
        }),
{
    lemma_codes_from_consumed(data.reverse(), 0);
    lemma_stream_trailer(data, codes_from(data.reverse(), 0));
}

} // verus!
