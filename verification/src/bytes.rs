//! Fixed-width integers in byte buffers, read and written through `byteorder`.
use vstd::prelude::*;
use byteorder::ByteOrder;

verus! {

/// The big-endian `u16` made of the two bytes of `s` at `i`.
pub open spec fn spec_be_u16(s: Seq<u8>, i: int) -> u16 {
    ((s[i] as u16) << 8u16) | (s[i + 1] as u16)
}

/// The big-endian `u32` made of the four bytes of `s` at `i`.
pub open spec fn spec_be_u32(s: Seq<u8>, i: int) -> u32 {
    ((s[i] as u32) << 24u32) | ((s[i + 1] as u32) << 16u32) | ((s[i + 2] as u32) << 8u32) | (
    s[i + 3] as u32)
}

/// The little-endian `u16` made of the two bytes of `s` at `i`.
pub open spec fn spec_le_u16(s: Seq<u8>, i: int) -> u16 {
    ((s[i + 1] as u16) << 8u16) | (s[i] as u16)
}

/// The little-endian `u32` made of the four bytes of `s` at `i`.
pub open spec fn spec_le_u32(s: Seq<u8>, i: int) -> u32 {
    ((s[i + 3] as u32) << 24u32) | ((s[i + 2] as u32) << 16u32) | ((s[i + 1] as u32) << 8u32) | (
    s[i] as u32)
}

/// The two bytes of `v`, most significant first.
pub open spec fn be16_bytes(v: u16) -> Seq<u8> {
    seq![(v >> 8u16) as u8, (v & 0xffu16) as u8]
}

/// The four bytes of `v`, most significant first.
pub open spec fn be32_bytes(v: u32) -> Seq<u8> {
    seq![
        ((v >> 24u32) & 0xffu32) as u8,
        ((v >> 16u32) & 0xffu32) as u8,
        ((v >> 8u32) & 0xffu32) as u8,
        (v & 0xffu32) as u8,
    ]
}

/// The two bytes of `v`, least significant first.
pub open spec fn le16_bytes(v: u16) -> Seq<u8> {
    seq![(v & 0xffu16) as u8, (v >> 8u16) as u8]
}

/// The four bytes of `v`, least significant first.
pub open spec fn le32_bytes(v: u32) -> Seq<u8> {
    seq![
        (v & 0xffu32) as u8,
        ((v >> 8u32) & 0xffu32) as u8,
        ((v >> 16u32) & 0xffu32) as u8,
        ((v >> 24u32) & 0xffu32) as u8,
    ]
}

/// `s` with the bytes `b` written over it from `off` on.
pub open spec fn spliced(s: Seq<u8>, off: int, b: Seq<u8>) -> Seq<u8> {
    s.take(off) + b + s.skip(off + b.len())
}

/// Reading back the big-endian bytes of a `u16` gives the `u16`.
pub proof fn lemma_be16_roundtrip(v: u16)
    ensures
        spec_be_u16(be16_bytes(v), 0) == v,
{
    let b0 = (v >> 8u16) as u8;
    let b1 = (v & 0xffu16) as u8;
    assert(((b0 as u16) << 8u16) | (b1 as u16) == v) by (bit_vector)
        requires
            b0 == (v >> 8u16) as u8,
            b1 == (v & 0xffu16) as u8,
    ;
}

/// Reading back the big-endian bytes of a `u32` gives the `u32`.
pub proof fn lemma_be32_roundtrip(v: u32)
    ensures
        spec_be_u32(be32_bytes(v), 0) == v,
{
    let b0 = ((v >> 24u32) & 0xffu32) as u8;
    let b1 = ((v >> 16u32) & 0xffu32) as u8;
    let b2 = ((v >> 8u32) & 0xffu32) as u8;
    let b3 = (v & 0xffu32) as u8;
    assert(((b0 as u32) << 24u32) | ((b1 as u32) << 16u32) | ((b2 as u32) << 8u32) | (b3 as u32)
        == v) by (bit_vector)
        requires
            b0 == ((v >> 24u32) & 0xffu32) as u8,
            b1 == ((v >> 16u32) & 0xffu32) as u8,
            b2 == ((v >> 8u32) & 0xffu32) as u8,
            b3 == (v & 0xffu32) as u8,
    ;
}

/// Reading back the little-endian bytes of a `u16` gives the `u16`.
pub proof fn lemma_le16_roundtrip(v: u16)
    ensures
        spec_le_u16(le16_bytes(v), 0) == v,
{
    let b0 = (v & 0xffu16) as u8;
    let b1 = (v >> 8u16) as u8;
    assert(((b1 as u16) << 8u16) | (b0 as u16) == v) by (bit_vector)
        requires
            b0 == (v & 0xffu16) as u8,
            b1 == (v >> 8u16) as u8,
    ;
}

/// Reading back the little-endian bytes of a `u32` gives the `u32`.
pub proof fn lemma_le32_roundtrip(v: u32)
    ensures
        spec_le_u32(le32_bytes(v), 0) == v,
{
    let b0 = (v & 0xffu32) as u8;
    let b1 = ((v >> 8u32) & 0xffu32) as u8;
    let b2 = ((v >> 16u32) & 0xffu32) as u8;
    let b3 = ((v >> 24u32) & 0xffu32) as u8;
    assert(((b3 as u32) << 24u32) | ((b2 as u32) << 16u32) | ((b1 as u32) << 8u32) | (b0 as u32)
        == v) by (bit_vector)
        requires
            b0 == (v & 0xffu32) as u8,
            b1 == ((v >> 8u32) & 0xffu32) as u8,
            b2 == ((v >> 16u32) & 0xffu32) as u8,
            b3 == ((v >> 24u32) & 0xffu32) as u8,
    ;
}

/// `byteorder::BigEndian::read_u16`: the two bytes at `off`, most significant first.
#[verifier::external_body]
pub(crate) fn read_be_u16(buf: &[u8], off: usize) -> (r: u16)
    requires
        off + 2 <= buf@.len(),
    ensures
        r == spec_be_u16(buf@, off as int),
{
    byteorder::BigEndian::read_u16(&buf[off..])
}

/// `byteorder::BigEndian::read_u32`: the four bytes at `off`, most significant first.
#[verifier::external_body]
pub(crate) fn read_be_u32(buf: &[u8], off: usize) -> (r: u32)
    requires
        off + 4 <= buf@.len(),
    ensures
        r == spec_be_u32(buf@, off as int),
{
    byteorder::BigEndian::read_u32(&buf[off..])
}

/// `byteorder::LittleEndian::read_u16`: the two bytes at `off`, least significant first.
#[verifier::external_body]
pub(crate) fn read_le_u16(buf: &[u8], off: usize) -> (r: u16)
    requires
        off + 2 <= buf@.len(),
    ensures
        r == spec_le_u16(buf@, off as int),
{
    byteorder::LittleEndian::read_u16(&buf[off..])
}

/// `byteorder::LittleEndian::read_i16`: the two bytes at `off`, least significant first, as
/// a two's complement number.
#[verifier::external_body]
pub(crate) fn read_le_i16(buf: &[u8], off: usize) -> (r: i16)
    requires
        off + 2 <= buf@.len(),
    ensures
        r == spec_le_u16(buf@, off as int) as i16,
{
    byteorder::LittleEndian::read_i16(&buf[off..])
}

/// `byteorder::LittleEndian::read_u32`: the four bytes at `off`, least significant first.
#[verifier::external_body]
pub(crate) fn read_le_u32(buf: &[u8], off: usize) -> (r: u32)
    requires
        off + 4 <= buf@.len(),
    ensures
        r == spec_le_u32(buf@, off as int),
{
    byteorder::LittleEndian::read_u32(&buf[off..])
}

/// `byteorder::BigEndian::write_u16`: stores `v` at `off`, most significant byte first, and
/// leaves every other byte as it was.
#[verifier::external_body]
pub(crate) fn write_be_u16(buf: &mut [u8], off: usize, v: u16)
    requires
        off + 2 <= old(buf)@.len(),
    ensures
        final(buf)@ == spliced(old(buf)@, off as int, be16_bytes(v)),
{
    byteorder::BigEndian::write_u16(&mut buf[off..], v)
}

/// `byteorder::BigEndian::write_u32`: stores `v` at `off`, most significant byte first, and
/// leaves every other byte as it was.
#[verifier::external_body]
pub(crate) fn write_be_u32(buf: &mut [u8], off: usize, v: u32)
    requires
        off + 4 <= old(buf)@.len(),
    ensures
        final(buf)@ == spliced(old(buf)@, off as int, be32_bytes(v)),
{
    byteorder::BigEndian::write_u32(&mut buf[off..], v)
}

/// `byteorder::LittleEndian::write_u16`: stores `v` at `off`, least significant byte first, and
/// leaves every other byte as it was.
#[verifier::external_body]
pub(crate) fn write_le_u16(buf: &mut [u8], off: usize, v: u16)
    requires
        off + 2 <= old(buf)@.len(),
    ensures
        final(buf)@ == spliced(old(buf)@, off as int, le16_bytes(v)),
{
    byteorder::LittleEndian::write_u16(&mut buf[off..], v)
}

/// `byteorder::LittleEndian::write_u32`: stores `v` at `off`, least significant byte first, and
/// leaves every other byte as it was.
#[verifier::external_body]
pub(crate) fn write_le_u32(buf: &mut [u8], off: usize, v: u32)
    requires
        off + 4 <= old(buf)@.len(),
    ensures
        final(buf)@ == spliced(old(buf)@, off as int, le32_bytes(v)),
{
    byteorder::LittleEndian::write_u32(&mut buf[off..], v)
}

/// Appends `v`'s four bytes, least significant first.
pub fn push_le_u32(buf: &mut Vec<u8>, v: u32)
    ensures
        final(buf)@ == old(buf)@ + le32_bytes(v),
{
    let start = buf.len();
    buf.push(0);
    buf.push(0);
    buf.push(0);
    buf.push(0);
    write_le_u32(buf.as_mut_slice(), start, v);
    assert(buf@ =~= old(buf)@ + le32_bytes(v));
}

/// Appends `v`'s two bytes, least significant first.
pub fn push_le_u16(buf: &mut Vec<u8>, v: u16)
    ensures
        final(buf)@ == old(buf)@ + le16_bytes(v),
{
    let start = buf.len();
    buf.push(0);
    buf.push(0);
    write_le_u16(buf.as_mut_slice(), start, v);
    assert(buf@ =~= old(buf)@ + le16_bytes(v));
}

/// Appends the bytes of `src`.
pub fn push_bytes(buf: &mut Vec<u8>, src: &[u8])
    ensures
        final(buf)@ == old(buf)@ + src@,
{
    let mut i: usize = 0;
    while i < src.len()
        invariant
            i <= src@.len(),
            buf@ == old(buf)@ + src@.take(i as int),
        decreases src@.len() - i,
    {
        buf.push(src[i]);
        i = i + 1;
        assert(buf@ =~= old(buf)@ + src@.take(i as int));
    }
    assert(src@.take(i as int) =~= src@);
}

/// Appends `n` copies of `v`.
pub fn push_fill(buf: &mut Vec<u8>, v: u8, n: usize)
    ensures
        final(buf)@ == old(buf)@ + Seq::new(n as nat, |j: int| v),
{
    let mut i: usize = 0;
    while i < n
        invariant
            i <= n,
            buf@ == old(buf)@ + Seq::new(i as nat, |j: int| v),
        decreases n - i,
    {
        buf.push(v);
        i = i + 1;
        assert(buf@ =~= old(buf)@ + Seq::new(i as nat, |j: int| v));
    }
}

/// The four bytes at `i`, read as a little-endian `u32` and written back, are the same bytes.
pub proof fn lemma_le32_bytes_of(s: Seq<u8>, i: int)
    requires
        0 <= i,
        i + 4 <= s.len(),
    ensures
        le32_bytes(spec_le_u32(s, i)) == s.subrange(i, i + 4),
{
    let b0 = s[i];
    let b1 = s[i + 1];
    let b2 = s[i + 2];
    let b3 = s[i + 3];
    let v = spec_le_u32(s, i);
    assert((v & 0xffu32) as u8 == b0 && ((v >> 8u32) & 0xffu32) as u8 == b1 && ((v >> 16u32)
        & 0xffu32) as u8 == b2 && ((v >> 24u32) & 0xffu32) as u8 == b3) by (bit_vector)
        requires
            v == ((b3 as u32) << 24u32) | ((b2 as u32) << 16u32) | ((b1 as u32) << 8u32) | (
            b0 as u32),
    ;
    assert(le32_bytes(v) =~= s.subrange(i, i + 4));
}

/// The two bytes at `i`, read as a little-endian `u16` and written back, are the same bytes.
pub proof fn lemma_le16_bytes_of(s: Seq<u8>, i: int)
    requires
        0 <= i,
        i + 2 <= s.len(),
    ensures
        le16_bytes(spec_le_u16(s, i)) == s.subrange(i, i + 2),
{
    let b0 = s[i];
    let b1 = s[i + 1];
    let v = spec_le_u16(s, i);
    assert((v & 0xffu16) as u8 == b0 && (v >> 8u16) as u8 == b1) by (bit_vector)
        requires
            v == ((b1 as u16) << 8u16) | (b0 as u16),
    ;
    assert(le16_bytes(v) =~= s.subrange(i, i + 2));
}

/// The little-endian bytes of the words `ws`, one after the other.
pub open spec fn words_bytes(ws: Seq<u32>) -> Seq<u8>
    decreases ws.len(),
{
    if ws.len() == 0 {
        Seq::empty()
    } else {
        words_bytes(ws.drop_last()) + le32_bytes(ws.last())
    }
}

/// The `k` little-endian words of `s` from `off` on.
pub open spec fn words_at(s: Seq<u8>, off: int, k: nat) -> Seq<u32> {
    Seq::new(k, |j: int| spec_le_u32(s, off + 4 * j))
}

/// Four bytes a word.
pub proof fn lemma_words_bytes_len(ws: Seq<u32>)
    ensures
        words_bytes(ws).len() == 4 * ws.len(),
    decreases ws.len(),
{
    if ws.len() > 0 {
        lemma_words_bytes_len(ws.drop_last());
    }
}

/// Reading the words back from their bytes gives the words.
pub proof fn lemma_words_roundtrip(ws: Seq<u32>)
    ensures
        words_at(words_bytes(ws), 0, ws.len()) == ws,
    decreases ws.len(),
{
    lemma_words_bytes_len(ws);
    if ws.len() > 0 {
        let p = ws.drop_last();
        let b = words_bytes(ws);
        lemma_words_roundtrip(p);
        lemma_words_bytes_len(p);
        lemma_le32_roundtrip(ws.last());
        assert forall|j: int| 0 <= j < ws.len() implies #[trigger] spec_le_u32(b, 4 * j) == ws[j] by {
            if j < p.len() {
                assert(b[4 * j] == words_bytes(p)[4 * j]);
                assert(b[4 * j + 1] == words_bytes(p)[4 * j + 1]);
                assert(b[4 * j + 2] == words_bytes(p)[4 * j + 2]);
                assert(b[4 * j + 3] == words_bytes(p)[4 * j + 3]);
                assert(words_at(words_bytes(p), 0, p.len())[j] == p[j]);
            } else {
                let l = le32_bytes(ws.last());
                assert(b[4 * j] == l[0]);
                assert(b[4 * j + 1] == l[1]);
                assert(b[4 * j + 2] == l[2]);
                assert(b[4 * j + 3] == l[3]);
            }
        }
        assert(words_at(b, 0, ws.len()) =~= ws);
    }
}

/// Writing back the words read from `s` gives the bytes they were read from.
pub proof fn lemma_words_at_bytes(s: Seq<u8>, off: int, k: nat)
    requires
        0 <= off,
        off + 4 * k <= s.len(),
    ensures
        words_bytes(words_at(s, off, k)) == s.subrange(off, off + 4 * k),
    decreases k,
{
    if k > 0 {
        let ws = words_at(s, off, k);
        lemma_words_at_bytes(s, off, (k - 1) as nat);
        assert(ws.drop_last() =~= words_at(s, off, (k - 1) as nat));
        lemma_le32_bytes_of(s, off + 4 * (k - 1));
        assert(s.subrange(off, off + 4 * k) =~= s.subrange(off, off + 4 * (k - 1)) + s.subrange(
            off + 4 * (k - 1),
            off + 4 * k,
        ));
    }
}

/// The `k` little-endian words of `buf` from `off` on.
pub fn read_words(buf: &[u8], off: usize, k: usize) -> (r: Vec<u32>)
    requires
        off + 4 * k <= buf@.len(),
    ensures
        r@ == words_at(buf@, off as int, k as nat),
{
    let mut r: Vec<u32> = Vec::new();
    let mut j: usize = 0;
    while j < k
        invariant
            j <= k,
            off + 4 * k <= buf@.len(),
            buf@.len() == buf.len(),
            r@ == words_at(buf@, off as int, j as nat),
        decreases k - j,
    {
        assert(off + 4 * j + 4 <= buf.len());
        r.push(read_le_u32(buf, off + 4 * j));
        j = j + 1;
        assert(r@ =~= words_at(buf@, off as int, j as nat));
    }
    r
}

/// Appends the little-endian bytes of the words `ws`.
pub fn push_words(buf: &mut Vec<u8>, ws: &[u32])
    ensures
        final(buf)@ == old(buf)@ + words_bytes(ws@),
{
    let mut j: usize = 0;
    while j < ws.len()
        invariant
            j <= ws@.len(),
            buf@ == old(buf)@ + words_bytes(ws@.take(j as int)),
        decreases ws@.len() - j,
    {
        push_le_u32(buf, ws[j]);
        j = j + 1;
        assert(ws@.take(j as int).drop_last() =~= ws@.take(j - 1));
        assert(buf@ =~= old(buf)@ + words_bytes(ws@.take(j as int)));
    }
    assert(ws@.take(j as int) =~= ws@);
}

/// Appends the first `n` bytes of `src`.
pub fn push_prefix(buf: &mut Vec<u8>, src: &[u8], n: usize)
    requires
        n <= src@.len(),
    ensures
        final(buf)@ == old(buf)@ + src@.take(n as int),
{
    let mut i: usize = 0;
    while i < n
        invariant
            i <= n,
            n <= src@.len(),
            buf@ == old(buf)@ + src@.take(i as int),
        decreases n - i,
    {
        buf.push(src[i]);
        i = i + 1;
        assert(buf@ =~= old(buf)@ + src@.take(i as int));
    }
}

} // verus!
