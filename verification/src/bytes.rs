//! Little-endian integer encoding and byte-buffer primitives shared by the
//! readers and builders.

use vstd::prelude::*;
use vstd::string::StringSliceAdditionalSpecFns;

verus! {

/// Little-endian bytes of a 32-bit value.
pub open spec fn le32(v: u32) -> Seq<u8> {
    seq![
        (v % 0x100) as u8,
        ((v / 0x100) % 0x100) as u8,
        ((v / 0x1_0000) % 0x100) as u8,
        (v / 0x100_0000) as u8,
    ]
}

/// Little-endian bytes of a 64-bit value.
pub open spec fn le64(v: u64) -> Seq<u8> {
    le32((v % 0x1_0000_0000) as u32) + le32((v / 0x1_0000_0000) as u32)
}

/// `x` as a size, or the largest size when it does not fit.
pub open spec fn sat_usize(x: int) -> usize {
    if x > usize::MAX {
        usize::MAX
    } else {
        x as usize
    }
}

/// The value of four little-endian bytes.
#[verifier::opaque]
pub open spec fn u32_of(b: Seq<u8>, at: int) -> u32 {
    (b[at] + 0x100 * b[at + 1] + 0x1_0000 * b[at + 2] + 0x100_0000 * b[at + 3]) as u32
}

/// The value of eight little-endian bytes.
pub open spec fn u64_of(b: Seq<u8>, at: int) -> u64 {
    (u32_of(b, at) + 0x1_0000_0000 * u32_of(b, at + 4)) as u64
}

/// `n` zero bytes.
pub open spec fn zeros(n: nat) -> Seq<u8> {
    Seq::new(n, |i: int| 0u8)
}

/// `n` copies of `b`.
pub open spec fn repeat(b: u8, n: nat) -> Seq<u8> {
    Seq::new(n, |i: int| b)
}

/// `s` with the bytes at `off .. off + w.len()` replaced by `w`.
pub open spec fn splice(s: Seq<u8>, off: int, w: Seq<u8>) -> Seq<u8> {
    s.subrange(0, off) + w + s.subrange(off + w.len(), s.len() as int)
}

/// `n` rounded up to a multiple of `a`.
pub open spec fn round_up(n: int, a: int) -> int {
    if n % a == 0 { n } else { n - n % a + a }
}

/// Reading back the little-endian encoding of a value gives the value.
pub proof fn lemma_le32_roundtrip(v: u32)
    ensures
        le32(v).len() == 4,
        u32_of(le32(v), 0) == v,
{
    reveal(u32_of);
}

/// Appending keeps the words already written.
pub(crate) proof fn lemma_words_kept(s: Seq<u8>, y: Seq<u8>)
    ensures
        forall|off: int| 0 <= off && off + 4 <= s.len() ==> #[trigger] u32_of(s + y, off) == u32_of(s, off),
{
    reveal(u32_of);
}

/// A word appended reads back at the end of what it was appended to.
pub(crate) proof fn lemma_word_appended(s: Seq<u8>, x: u32)
    ensures
        u32_of(s + le32(x), s.len() as int) == x,
{
    reveal(u32_of);
    lemma_le32_roundtrip(x);
    assert((s + le32(x))[s.len() as int] == le32(x)[0]);
    assert((s + le32(x))[s.len() as int + 1] == le32(x)[1]);
    assert((s + le32(x))[s.len() as int + 2] == le32(x)[2]);
    assert((s + le32(x))[s.len() as int + 3] == le32(x)[3]);
}

/// Words read from a stretch of `t` are the words of the bytes laid there.
pub(crate) proof fn lemma_words_within(t: Seq<u8>, o: int, e: Seq<u8>)
    requires
        0 <= o,
        o + e.len() <= t.len(),
        t.subrange(o, o + e.len()) == e,
    ensures
        forall|j: int| 0 <= j && j + 4 <= e.len() ==> #[trigger] u32_of(t, o + j) == u32_of(e, j),
        e.len() >= 4 ==> u32_of(t, o) == u32_of(e, 0),
{
    reveal(u32_of);
    if e.len() >= 4 {
        assert(t[o] == e[0]);
        assert(t[o + 1] == e[1]);
        assert(t[o + 2] == e[2]);
        assert(t[o + 3] == e[3]);
    }
    assert forall|j: int| 0 <= j && j + 4 <= e.len() implies #[trigger] u32_of(t, o + j) == u32_of(e, j) by {
        assert(t[o + j] == e[j]);
        assert(t[o + j + 1] == e[j + 1]);
        assert(t[o + j + 2] == e[j + 2]);
        assert(t[o + j + 3] == e[j + 3]);
    }
}

/// A buffer appended keeps its words, now after what it was appended to.
pub(crate) proof fn lemma_words_shifted(s: Seq<u8>, y: Seq<u8>)
    ensures
        forall|k: int|
            s.len() <= k && k + 4 <= s.len() + y.len() ==> #[trigger] u32_of(s + y, k) == u32_of(
                y,
                k - s.len(),
            ),
{
    reveal(u32_of);
    assert forall|k: int| s.len() <= k && k + 4 <= s.len() + y.len() implies #[trigger] u32_of(s + y, k)
        == u32_of(y, k - s.len()) by {
        assert((s + y)[k] == y[k - s.len()]);
        assert((s + y)[k + 1] == y[k - s.len() + 1]);
        assert((s + y)[k + 2] == y[k - s.len() + 2]);
        assert((s + y)[k + 3] == y[k - s.len() + 3]);
    }
}

/// A 64-bit value appended reads back at the end of what it was appended to.
pub(crate) proof fn lemma_u64_appended(s: Seq<u8>, x: u64)
    ensures
        u64_of(s + le64(x), s.len() as int) == x,
{
    let lo = (x % 0x1_0000_0000) as u32;
    let hi = (x / 0x1_0000_0000) as u32;
    assert(s + le64(x) =~= s + le32(lo) + le32(hi));
    lemma_word_appended(s, lo);
    lemma_word_appended(s + le32(lo), hi);
    lemma_words_kept(s + le32(lo), le32(hi));
}

/// Reading back the little-endian encoding of a 64-bit value gives the value.
pub(crate) proof fn lemma_le64_read(x: u64)
    ensures
        le64(x).len() == 8,
        u64_of(le64(x), 0) == x,
{
    lemma_u64_appended(Seq::empty(), x);
    assert(Seq::<u8>::empty() + le64(x) =~= le64(x));
}

/// Appending keeps every range of what was there.
pub(crate) proof fn lemma_ranges_kept(s: Seq<u8>, y: Seq<u8>)
    ensures
        forall|a: int, c: int| 0 <= a <= c <= s.len() ==> #[trigger] (s + y).subrange(a, c) == s.subrange(a, c),
{
    assert forall|a: int, c: int| 0 <= a <= c <= s.len() implies #[trigger] (s + y).subrange(a, c)
        == s.subrange(a, c) by {
        assert((s + y).subrange(a, c) =~= s.subrange(a, c));
    }
}

/// Appends the little-endian encoding of `v`.
pub fn push_u32(buf: &mut Vec<u8>, v: u32)
    ensures
        final(buf)@ == old(buf)@ + le32(v),
{
    buf.push((v & 0xff) as u8);
    buf.push(((v >> 8) & 0xff) as u8);
    buf.push(((v >> 16) & 0xff) as u8);
    buf.push((v >> 24) as u8);
    assert((v & 0xff) as u8 == (v % 0x100) as u8 && ((v >> 8) & 0xff) as u8 == ((v / 0x100)
        % 0x100) as u8 && ((v >> 16) & 0xff) as u8 == ((v / 0x1_0000) % 0x100) as u8 && (v
        >> 24) as u8 == (v / 0x100_0000) as u8) by (bit_vector);
    assert(final(buf)@ =~= old(buf)@ + le32(v));
}

/// Appends the little-endian encoding of `v`.
pub fn push_u64(buf: &mut Vec<u8>, v: u64)
    ensures
        final(buf)@ == old(buf)@ + le64(v),
{
    let lo = (v & 0xffff_ffff) as u32;
    let hi = (v >> 32) as u32;
    assert(lo == (v % 0x1_0000_0000) as u32 && hi == (v / 0x1_0000_0000) as u32) by (bit_vector)
        requires
            lo == (v & 0xffff_ffff) as u32,
            hi == (v >> 32) as u32,
    ;
    push_u32(buf, lo);
    push_u32(buf, hi);
    assert(final(buf)@ =~= old(buf)@ + le64(v));
}

/// Appends every byte of `src`.
pub fn push_all(buf: &mut Vec<u8>, src: &[u8])
    ensures
        final(buf)@ == old(buf)@ + src@,
{
    let ghost start = buf@;
    let mut i: usize = 0;
    while i < src.len()
        invariant
            i <= src.len(),
            buf@ == start + src@.subrange(0, i as int),
        decreases src.len() - i,
    {
        buf.push(src[i]);
        i = i + 1;
        assert(buf@ =~= start + src@.subrange(0, i as int));
    }
    assert(src@.subrange(0, src.len() as int) =~= src@);
}

/// Appends `n` copies of `b`.
pub fn push_repeat(buf: &mut Vec<u8>, b: u8, n: usize)
    ensures
        final(buf)@ == old(buf)@ + repeat(b, n as nat),
{
    let ghost start = buf@;
    let mut i: usize = 0;
    while i < n
        invariant
            i <= n,
            buf@ == start + repeat(b, i as nat),
        decreases n - i,
    {
        buf.push(b);
        i = i + 1;
        assert(buf@ =~= start + repeat(b, i as nat));
    }
}

/// Appends `n` zero bytes.
pub fn push_zeros(buf: &mut Vec<u8>, n: usize)
    ensures
        final(buf)@ == old(buf)@ + zeros(n as nat),
{
    push_repeat(buf, 0, n);
    assert(repeat(0, n as nat) =~= zeros(n as nat));
}

/// Appends four bytes.
pub fn push4(buf: &mut Vec<u8>, a: u8, b: u8, c: u8, d: u8)
    ensures
        final(buf)@ == old(buf)@ + seq![a, b, c, d],
{
    buf.push(a);
    buf.push(b);
    buf.push(c);
    buf.push(d);
    assert(final(buf)@ =~= old(buf)@ + seq![a, b, c, d]);
}

/// A buffer of `n` zero bytes.
pub fn zeroed(n: usize) -> (r: Vec<u8>)
    ensures
        r@ == zeros(n as nat),
{
    let mut r: Vec<u8> = Vec::new();
    push_repeat(&mut r, 0, n);
    assert(r@ =~= zeros(n as nat));
    r
}

/// Overwrites `buf[off .. off + src.len()]` with `src`.
pub fn write_at(buf: &mut Vec<u8>, off: usize, src: &[u8])
    requires
        off + src@.len() <= old(buf)@.len(),
    ensures
        final(buf)@ == splice(old(buf)@, off as int, src@),
{
    let ghost start = buf@;
    let n = buf.len();
    let mut i: usize = 0;
    while i < src.len()
        invariant
            i <= src.len(),
            off + src@.len() <= start.len(),
            buf@.len() == start.len(),
            n == start.len(),
            buf@ == splice(start, off as int, src@.subrange(0, i as int)),
        decreases src.len() - i,
    {
        buf.set(off + i, src[i]);
        i = i + 1;
        assert(buf@ =~= splice(start, off as int, src@.subrange(0, i as int)));
    }
    assert(src@.subrange(0, src.len() as int) =~= src@);
}

/// Reads the little-endian `u32` at `at`.
pub fn read_u32(b: &[u8], at: usize) -> (r: u32)
    requires
        at + 4 <= b.len(),
    ensures
        r == u32_of(b@, at as int),
{
    reveal(u32_of);
    let b0 = b[at] as u32;
    let b1 = b[at + 1] as u32;
    let b2 = b[at + 2] as u32;
    let b3 = b[at + 3] as u32;
    b0 + 0x100 * b1 + 0x1_0000 * b2 + 0x100_0000 * b3
}

/// Reads the little-endian `u64` at `at`.
pub fn read_u64(b: &[u8], at: usize) -> (r: u64)
    requires
        at + 8 <= b.len(),
    ensures
        r == u64_of(b@, at as int),
{
    let lo = read_u32(b, at) as u64;
    let hi = read_u32(b, at + 4) as u64;
    lo + 0x1_0000_0000 * hi
}


/// The first `n` bytes of `src` appended.
pub fn push_prefix(buf: &mut Vec<u8>, src: &[u8], n: usize)
    requires
        n <= src@.len(),
    ensures
        final(buf)@ == old(buf)@ + src@.take(n as int),
{
    let ghost start = buf@;
    let mut i: usize = 0;
    while i < n
        invariant
            i <= n <= src@.len(),
            buf@ == start + src@.take(i as int),
        decreases n - i,
    {
        buf.push(src[i]);
        i = i + 1;
        assert(buf@ =~= start + src@.take(i as int));
    }
}

/// `value` rounded up to a multiple of 16.
pub fn align_up_16(value: u32) -> (r: u32)
    requires
        value + 15 <= u32::MAX,
    ensures
        r == round_up(value as int, 16),
{
    let x = value + 0xF;
    let r = x & !0xFu32;
    assert(r == x - x % 16) by (bit_vector)
        requires
            r == x & !0xFu32,
    ;
    r
}


/// `core::str::from_utf8`, with the error dropped: `Some` exactly when the
/// bytes are valid UTF-8 (as the standard library documents), and then the
/// string's characters are the ones the bytes encode.
#[verifier::external_body]
pub(crate) fn utf8_str(b: &[u8]) -> (r: Option<&str>)
    ensures
        r is Some <==> vstd::utf8::valid_utf8(b@),
        r matches Some(s) ==> s@ == vstd::utf8::decode_utf8(b@),
{
    core::str::from_utf8(b).ok()
}

/// The bytes a stored name reads as: itself when valid UTF-8, else nothing.
pub open spec fn stored_name(nb: Seq<u8>) -> Seq<u8> {
    if vstd::utf8::valid_utf8(nb) {
        nb
    } else {
        Seq::empty()
    }
}

/// The name, as a string, that stored name bytes read as.
pub fn read_name<'b>(nb: &'b [u8]) -> (r: &'b str)
    ensures
        r.spec_bytes() == stored_name(nb@),
{
    match utf8_str(nb) {
        Some(s) => {
            proof {
                vstd::utf8::decode_utf8_encode_utf8(nb@);
            }
            s
        },
        None => {
            let e = "";
            proof {
                reveal_strlit("");
            }
            assert(e.spec_bytes() =~= Seq::<u8>::empty());
            e
        },
    }
}

/// The bytes of `b` up to its first zero byte (all of them when it has none).
pub open spec fn cstr(b: Seq<u8>) -> Seq<u8>
    decreases b.len(),
{
    if b.len() == 0 || b[0] == 0 {
        Seq::empty()
    } else {
        seq![b[0]] + cstr(b.drop_first())
    }
}

/// The length of `b` up to its first zero byte.
pub fn cstr_len(b: &[u8]) -> (r: usize)
    ensures
        r <= b@.len(),
        b@.take(r as int) == cstr(b@),
{
    let mut i: usize = 0;
    assert(b@.skip(0) =~= b@);
    assert(b@.take(0) + cstr(b@) =~= cstr(b@));
    while i < b.len() && b[i] != 0
        invariant
            i <= b@.len(),
            cstr(b@) == b@.take(i as int) + cstr(b@.skip(i as int)),
        decreases b.len() - i,
    {
        assert(b@.skip(i as int).drop_first() =~= b@.skip(i + 1));
        assert(b@.take(i + 1) =~= b@.take(i as int) + seq![b@[i as int]]);
        i = i + 1;
    }
    assert(cstr(b@.skip(i as int)) =~= Seq::<u8>::empty());
    assert(b@.take(i as int) + Seq::<u8>::empty() =~= b@.take(i as int));
    i
}

/// The `N` bytes of `b` at `at`.
pub fn read_array<const N: usize>(b: &[u8], at: usize) -> (r: [u8; N])
    requires
        at + N <= b.len(),
    ensures
        r@ == b@.subrange(at as int, at + N),
{
    let mut a = [0u8; N];
    let mut i: usize = 0;
    while i < N
        invariant
            i <= N,
            at + N <= b.len(),
            a@.len() == N,
            forall|j: int| 0 <= j < i ==> a@[j] == b@[at + j],
        decreases N - i,
    {
        a.set(i, b[at + i]);
        i = i + 1;
    }
    assert(a@ =~= b@.subrange(at as int, at + N));
    a
}

/// Whether two byte slices are equal.
pub fn bytes_eq(a: &[u8], b: &[u8]) -> (r: bool)
    ensures
        r == (a@ == b@),
{
    if a.len() != b.len() {
        return false;
    }
    let mut i: usize = 0;
    while i < a.len()
        invariant
            i <= a.len() == b.len(),
            forall|j: int| 0 <= j < i ==> a@[j] == b@[j],
        decreases a.len() - i,
    {
        if a[i] != b[i] {
            return false;
        }
        i = i + 1;
    }
    assert(a@ =~= b@);
    true
}

/// A byte-vector result seen through the view of its bytes.
pub open spec fn bytes_result<E>(r: Result<Vec<u8>, E>) -> Result<Seq<u8>, E> {
    match r {
        Ok(v) => Ok(v@),
        Err(e) => Err(e),
    }
}

/// `x` truncated to its low 32 bits.
pub fn trunc_u32(x: usize) -> (r: u32)
    ensures
        r as int == x as int % 0x1_0000_0000,
{
    let y = x as u64;
    assert(y & 0xFFFF_FFFF == y % 0x1_0000_0000) by (bit_vector);
    (y & 0xFFFF_FFFF) as u32
}

} // verus!
