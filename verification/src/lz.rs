//! Asobo's LZSS stream format: the decoder and the two encoders.
//!
//! A stream is a run of groups. Each group starts with a big-endian `u32` of flags whose
//! two low bits select the window layout `t` (a window of `0x4000 >> t` bytes and match
//! lengths of up to `(4 << t) + 2`), and whose bit `31 - i` tells whether the group's item
//! `i` is a back reference (a big-endian `u16`) or a literal byte. A group holds at most
//! thirty items.
use vstd::prelude::*;
use crate::bytes::{spec_be_u16, spec_be_u32, read_be_u16, read_be_u32, be16_bytes, be32_bytes, lemma_be16_roundtrip, lemma_be32_roundtrip};

verus! {

/// Why a call into the LZSS coders did not complete.
#[derive(Debug, Clone, Copy, PartialEq, Eq, Structural)]
pub enum LzError {
    /// The output buffer was full before the stream was complete.
    WriteZero,
    /// The input is not a stream the decoder can read: it ends inside a group, or a back
    /// reference reaches before the start of the output.
    Malformed,
    /// The output buffer cannot hold the four bytes of a group's flags.
    FlagOutOfBounds,
    /// The LZ4 codec reported an error.
    Codec,
    /// A framed file ends inside its eight-byte header.
    Truncated,
    /// A framed file's compressed length is less than the eight bytes of the header.
    BadLength,
    /// The compressed data is too long for the frame's 32-bit length.
    TooLarge,
}

/// What decoding a stream produces, byte for byte.
pub enum LzssDecoded {
    /// The stream was decoded; these are the bytes written.
    Done(Seq<u8>),
    /// The output buffer filled up; these are the bytes written before the write that failed.
    Overflow(Seq<u8>),
    /// The stream cannot be read.
    Malformed,
}

/// `out` extended by `count` bytes, each a copy of the byte `start` places before... that is,
/// byte `start + k` of the growing output: an overlapping back reference.
pub open spec fn lz_copy(out: Seq<u8>, start: int, count: nat) -> Seq<u8>
    decreases count,
{
    if count == 0 {
        out
    } else {
        lz_copy(out.push(out[start]), start + 1, (count - 1) as nat)
    }
}

/// Decoding from compressed offset `cpos`, with `out` written so far, `flags` shifted so
/// that the next item's bit is the top bit, window layout `len`, and `k` items left in the
/// group. Decoding stops once `n` bytes are out, or, in place, once the output has passed
/// the input; the output buffer holds `d` bytes.
pub open spec fn decode_from(
    c: Seq<u8>,
    cpos: int,
    out: Seq<u8>,
    flags: u32,
    len: u32,
    k: int,
    n: int,
    d: int,
    ip: bool,
) -> LzssDecoded
    decreases c.len() - cpos,
{
    if k <= 0 {
        if cpos < 0 || cpos + 4 > c.len() {
            LzssDecoded::Malformed
        } else {
            let f = spec_be_u32(c, cpos);
            decode_from(c, cpos + 4, out, f, f & 3u32, 30, n, d, ip)
        }
    } else if flags & 0x8000_0000u32 != 0 {
        if cpos < 0 || cpos + 2 > c.len() {
            LzssDecoded::Malformed
        } else {
            let temp = spec_be_u16(c, cpos) as u32;
            let dist = (temp & (0x3fffu32 >> len)) + 1;
            let count = (temp >> ((14 - len) as u32)) + 3;
            if dist > out.len() {
                LzssDecoded::Malformed
            } else {
                let o = lz_copy(out, out.len() - dist, count as nat);
                if out.len() + count > d {
                    LzssDecoded::Overflow(o.take(d))
                } else if o.len() >= n || (ip && o.len() > cpos + 2) {
                    LzssDecoded::Done(o)
                } else {
                    decode_from(c, cpos + 2, o, flags << 1u32, len, k - 1, n, d, ip)
                }
            }
        }
    } else {
        if cpos < 0 || cpos + 1 > c.len() {
            LzssDecoded::Malformed
        } else if out.len() >= d {
            LzssDecoded::Overflow(out)
        } else {
            let o = out.push(c[cpos]);
            if o.len() >= n || (ip && o.len() > cpos + 1) {
                LzssDecoded::Done(o)
            } else {
                decode_from(c, cpos + 1, o, flags << 1u32, len, k - 1, n, d, ip)
            }
        }
    }
}

/// Decoding the whole stream `c` into a buffer of `d` bytes, stopping at `n` bytes.
pub open spec fn spec_lzss_decode(c: Seq<u8>, n: int, d: int, ip: bool) -> LzssDecoded {
    decode_from(c, 0, Seq::empty(), 0, 0, 0, n, d, ip)
}

/// How a call of the decoder ends, given what decoding the stream produces: `before` and
/// `after` are the output buffer before and after the call.
pub open spec fn decode_result_matches(
    o: LzssDecoded,
    r: Result<usize, LzError>,
    before: Seq<u8>,
    after: Seq<u8>,
) -> bool {
    match o {
        LzssDecoded::Done(out) => r == Ok::<usize, LzError>(out.len() as usize) && out.len()
            <= before.len() && after == out + before.skip(out.len() as int),
        LzssDecoded::Overflow(out) => r == Err::<usize, LzError>(LzError::WriteZero) && out.len()
            <= before.len() && after == out + before.skip(out.len() as int),
        LzssDecoded::Malformed => r == Err::<usize, LzError>(LzError::Malformed) && after.len()
            == before.len(),
    }
}

/// A back reference only appends to the output.
pub proof fn lemma_lz_copy_extends(out: Seq<u8>, start: int, count: nat)
    requires
        0 <= start < out.len(),
    ensures
        lz_copy(out, start, count).len() == out.len() + count,
        lz_copy(out, start, count).take(out.len() as int) == out,
    decreases count,
{
    if count > 0 {
        lemma_lz_copy_extends(out.push(out[start]), start + 1, (count - 1) as nat);
        assert(lz_copy(out, start, count).take(out.len() as int) == out.push(out[start]).take(
            out.len() as int,
        ));
    }
}

/// Bytes after a stream do not change how it decodes, as long as its decoding never runs
/// out of input.
pub proof fn lemma_decode_extend(
    c: Seq<u8>,
    e: Seq<u8>,
    cpos: int,
    out: Seq<u8>,
    flags: u32,
    len: u32,
    k: int,
    n: int,
    d: int,
    ip: bool,
)
    requires
        !(decode_from(c, cpos, out, flags, len, k, n, d, ip) is Malformed),
    ensures
        decode_from(c + e, cpos, out, flags, len, k, n, d, ip) == decode_from(
            c,
            cpos,
            out,
            flags,
            len,
            k,
            n,
            d,
            ip,
        ),
    decreases c.len() - cpos,
{
    let ce = c + e;
    if k <= 0 {
        if !(cpos < 0 || cpos + 4 > c.len()) {
            assert(ce[cpos] == c[cpos] && ce[cpos + 1] == c[cpos + 1] && ce[cpos + 2] == c[cpos
                + 2] && ce[cpos + 3] == c[cpos + 3]);
            let f = spec_be_u32(c, cpos);
            lemma_decode_extend(c, e, cpos + 4, out, f, f & 3u32, 30, n, d, ip);
        }
    } else if flags & 0x8000_0000u32 != 0 {
        if !(cpos < 0 || cpos + 2 > c.len()) {
            assert(ce[cpos] == c[cpos] && ce[cpos + 1] == c[cpos + 1]);
            let temp = spec_be_u16(c, cpos) as u32;
            let dist = (temp & (0x3fffu32 >> len)) + 1;
            let count = (temp >> ((14 - len) as u32)) + 3;
            if dist <= out.len() {
                let o = lz_copy(out, out.len() - dist, count as nat);
                if !(out.len() + count > d) && !(o.len() >= n || (ip && o.len() > cpos + 2)) {
                    lemma_decode_extend(c, e, cpos + 2, o, flags << 1u32, len, k - 1, n, d, ip);
                }
            }
        }
    } else {
        if !(cpos < 0 || cpos + 1 > c.len()) && out.len() < d {
            assert(ce[cpos] == c[cpos]);
            let o = out.push(c[cpos]);
            if !(o.len() >= n || (ip && o.len() > cpos + 1)) {
                lemma_decode_extend(c, e, cpos + 1, o, flags << 1u32, len, k - 1, n, d, ip);
            }
        }
    }
}

/// Decodes the LZSS stream `compressed` into `decompressed`, stopping once
/// `decompressed_buffer_size` bytes are out (or, when `is_in_place`, once the output has
/// passed the input), and returns how many bytes were written. A stream that cannot be read
/// gives `LzError::Malformed`.
pub fn lzss_decompress_checked(
    compressed: &[u8],
    decompressed: &mut [u8],
    decompressed_buffer_size: usize,
    is_in_place: bool,
) -> (r: Result<usize, LzError>)
    ensures
        decode_result_matches(
            spec_lzss_decode(
                compressed@,
                decompressed_buffer_size as int,
                old(decompressed)@.len() as int,
                is_in_place,
            ),
            r,
            old(decompressed)@,
            final(decompressed)@,
        ),
{
    let ghost c = compressed@;
    let ghost n = decompressed_buffer_size as int;
    let ghost before = decompressed@;
    let d = decompressed.len();
    let ghost total = spec_lzss_decode(c, n, d as int, is_in_place);
    let clen = compressed.len();
    let mut cpos: usize = 0;
    let mut pos: usize = 0;
    assert(decompressed@.take(0) == Seq::<u8>::empty());
    loop
        invariant
            clen == c.len(),
            c == compressed@,
            d == decompressed@.len(),
            d == before.len(),
            before == old(decompressed)@,
            n == decompressed_buffer_size,
            cpos <= clen,
            pos <= d,
            decompressed@.skip(pos as int) == before.skip(pos as int),
            total == decode_from(c, cpos as int, decompressed@.take(pos as int), 0, 0, 0, n, d as int, is_in_place),
            total == spec_lzss_decode(c, n, d as int, is_in_place),
        decreases clen - cpos,
    {
        if clen - cpos < 4 {
            assert(total == LzssDecoded::Malformed);
            assert(decompressed@.len() == before.len());
            let rr: Result<usize, LzError> = Err(LzError::Malformed);
            assert(decode_result_matches(total, rr, before, decompressed@));
            return rr;
        }
        let ghost cpos_outer = cpos;
        let mut flags: u32 = read_be_u32(compressed, cpos);
        cpos = cpos + 4;
        let len: u32 = flags & 3;
        assert(flags & 3u32 <= 3u32) by (bit_vector);
        let temp_shift: u32 = 14 - len;
        let temp_mask: u32 = 0x3fffu32 >> len;
        let mut i: usize = 0;
        while i < 30
            invariant
                clen == c.len(),
                c == compressed@,
                d == decompressed@.len(),
                d == before.len(),
                before == old(decompressed)@,
                n == decompressed_buffer_size,
                cpos <= clen,
                pos <= d,
                len <= 3,
                temp_shift == 14 - len,
                temp_mask == 0x3fffu32 >> len,
                i <= 30,
                cpos >= cpos_outer + 4,
                total == spec_lzss_decode(c, n, d as int, is_in_place),
                decompressed@.skip(pos as int) == before.skip(pos as int),
                total == decode_from(c, cpos as int, decompressed@.take(pos as int), flags, len, 30 - i, n, d as int, is_in_place),
            decreases 30 - i,
        {
            let ghost out0 = decompressed@.take(pos as int);
            let ghost cpos0 = cpos as int;
            if (flags & 0x8000_0000) != 0 {
                if clen - cpos < 2 {
                    assert(total == LzssDecoded::Malformed);
                    let rr: Result<usize, LzError> = Err(LzError::Malformed);
                    assert(decode_result_matches(total, rr, before, decompressed@));
                    return rr;
                }
                let temp: u32 = read_be_u16(compressed, cpos) as u32;
                cpos = cpos + 2;
                assert(temp & temp_mask <= temp && temp >> temp_shift <= temp) by (bit_vector);
                let dist: usize = (temp & temp_mask) as usize + 1;
                let count: usize = (temp >> temp_shift) as usize + 3;
                if dist > pos {
                    assert(total == LzssDecoded::Malformed);
                    let rr: Result<usize, LzError> = Err(LzError::Malformed);
                    assert(decode_result_matches(total, rr, before, decompressed@));
                    return rr;
                }
                let start: usize = pos - dist;
                let mut s: usize = start;
                let mut m: usize = count;
                let ghost pos0 = pos;
                proof {
                    lemma_lz_copy_extends(out0, start as int, count as nat);
                }
                let ghost copied = lz_copy(out0, start as int, count as nat);
                assert(total == (if out0.len() + count > d {
                    LzssDecoded::Overflow(copied.take(d as int))
                } else if copied.len() >= n || (is_in_place && copied.len() > cpos0 + 2) {
                    LzssDecoded::Done(copied)
                } else {
                    decode_from(c, cpos0 + 2, copied, flags << 1u32, len, 30 - i - 1, n, d as int, is_in_place)
                }));
                while m > 0
                    invariant
                        d == decompressed@.len(),
                        d == before.len(),
                        before == old(decompressed)@,
                        c == compressed@,
                        n == decompressed_buffer_size,
                        pos <= d,
                        pos0 <= pos,
                        start < pos0,
                        s - start == pos - pos0,
                        m + (pos - pos0) == count,
                        out0.len() == pos0,
                        pos0 + count > d ==> total == LzssDecoded::Overflow(copied.take(d as int)),
                        total == spec_lzss_decode(c, n, d as int, is_in_place),
                        decompressed@.skip(pos as int) == before.skip(pos as int),
                        copied == lz_copy(
                            decompressed@.take(pos as int),
                            s as int,
                            m as nat,
                        ),
                    decreases m,
                {
                    let byte = decompressed[s];
                    if pos >= d {
                        proof {
                            lemma_lz_copy_extends(decompressed@.take(pos as int), s as int, m as nat);
                            assert(decompressed@.take(pos as int) == decompressed@);
                            assert(before.skip(pos as int) =~= Seq::<u8>::empty());
                            assert(total == LzssDecoded::Overflow(decompressed@));
                        }
                        let rr: Result<usize, LzError> = Err(LzError::WriteZero);
                        assert(decode_result_matches(total, rr, before, decompressed@));
                        return rr;
                    }
                    let ghost prev = decompressed@;
                    decompressed[pos] = byte;
                    proof {
                        assert(decompressed@.take(pos + 1) =~= prev.take(pos as int).push(byte));
                        assert(decompressed@.skip(pos + 1) =~= prev.skip(pos + 1));
                        assert(prev.skip(pos + 1) =~= prev.skip(pos as int).skip(1));
                        assert(before.skip(pos + 1) =~= before.skip(pos as int).skip(1));
                    }
                    pos = pos + 1;
                    s = s + 1;
                    m = m - 1;
                }
                assert(lz_copy(decompressed@.take(pos as int), s as int, 0) == decompressed@.take(pos as int));
                assert(copied == decompressed@.take(pos as int));
                if pos >= decompressed_buffer_size || (is_in_place && pos > cpos) {
                    proof {
                        assert(decompressed@ =~= decompressed@.take(pos as int) + before.skip(pos as int));
                        assert(total == LzssDecoded::Done(decompressed@.take(pos as int)));
                    }
                    let rr: Result<usize, LzError> = Ok(pos);
                    assert(decode_result_matches(total, rr, before, decompressed@));
                    return rr;
                }
            } else {
                assert(total == decode_from(c, cpos as int, decompressed@.take(pos as int), flags, len, 30 - i, n, d as int, is_in_place));
                assert(30 - i > 0);
                assert(flags & 0x8000_0000u32 == 0);
                if clen - cpos < 1 {
                    assert(total == LzssDecoded::Malformed);
                    let rr: Result<usize, LzError> = Err(LzError::Malformed);
                    assert(decode_result_matches(total, rr, before, decompressed@));
                    return rr;
                }
                let byte = compressed[cpos];
                cpos = cpos + 1;
                if pos >= d {
                    proof {
                        assert(decompressed@.take(pos as int) =~= decompressed@);
                        assert(before.skip(pos as int) =~= Seq::<u8>::empty());
                        assert(total == LzssDecoded::Overflow(decompressed@));
                    }
                    let rr: Result<usize, LzError> = Err(LzError::WriteZero);
                    assert(decode_result_matches(total, rr, before, decompressed@));
                    return rr;
                }
                let ghost prev = decompressed@;
                decompressed[pos] = byte;
                proof {
                    assert(decompressed@.take(pos + 1) =~= prev.take(pos as int).push(byte));
                    assert(decompressed@.skip(pos + 1) =~= prev.skip(pos + 1));
                    assert(prev.skip(pos + 1) =~= prev.skip(pos as int).skip(1));
                    assert(before.skip(pos + 1) =~= before.skip(pos as int).skip(1));
                }
                pos = pos + 1;
                assert(total == (if decompressed@.take(pos as int).len() >= n || (is_in_place && decompressed@.take(pos as int).len() > cpos0 + 1) {
                    LzssDecoded::Done(decompressed@.take(pos as int))
                } else {
                    decode_from(c, cpos0 + 1, decompressed@.take(pos as int), flags << 1u32, len, 30 - i - 1, n, d as int, is_in_place)
                }));
                if pos >= decompressed_buffer_size || (is_in_place && pos > cpos) {
                    proof {
                        assert(decompressed@ =~= decompressed@.take(pos as int) + before.skip(pos as int));
                    }
                    let rr: Result<usize, LzError> = Ok(pos);
                    assert(decode_result_matches(total, rr, before, decompressed@));
                    return rr;
                }
            }
            flags = flags << 1;
            i = i + 1;
        }
    }
}


/// One item of a group: a literal byte, or a back reference of `length` bytes that starts
/// `distance` bytes before the current end of the output.
#[derive(Debug, Clone, Copy, PartialEq, Eq, Structural)]
pub enum LzItem {
    Literal(u8),
    Match(u32, u32),
}

/// The window of layout `t`: how far back a reference may reach.
pub open spec fn lz_window(t: u32) -> int {
    if t == 0 {
        0x4000
    } else if t == 1 {
        0x2000
    } else if t == 2 {
        0x1000
    } else {
        0x800
    }
}

/// The longest reference of layout `t`.
pub open spec fn lz_max_len(t: u32) -> int {
    if t == 0 {
        6
    } else if t == 1 {
        10
    } else if t == 2 {
        18
    } else {
        34
    }
}

/// How many output bytes an item stands for.
pub open spec fn item_size(it: LzItem) -> int {
    match it {
        LzItem::Literal(_) => 1,
        LzItem::Match(l, _) => l as int,
    }
}

/// How many output bytes a list of items stands for.
pub open spec fn items_size(items: Seq<LzItem>) -> int
    decreases items.len(),
{
    if items.len() == 0 {
        0
    } else {
        items_size(items.drop_last()) + item_size(items.last())
    }
}

/// The 16-bit code of a reference in layout `t`: the length less three in the high bits,
/// the distance less one in the low `14 - t` bits.
pub open spec fn item_code(l: u32, d: u32, t: u32) -> u16 {
    (((l - 3) as u32) << ((14 - t) as u32) | ((d - 1) as u32)) as u16
}

/// The bytes of one item in layout `t`.
pub open spec fn item_bytes(it: LzItem, t: u32) -> Seq<u8> {
    match it {
        LzItem::Literal(b) => seq![b],
        LzItem::Match(l, d) => be16_bytes(item_code(l, d, t)),
    }
}

/// The bytes of a list of items in layout `t`.
pub open spec fn items_bytes(items: Seq<LzItem>, t: u32) -> Seq<u8>
    decreases items.len(),
{
    if items.len() == 0 {
        Seq::empty()
    } else {
        items_bytes(items.drop_last(), t) + item_bytes(items.last(), t)
    }
}

/// The flag bits of a list of items: bit `31 - i` is set when item `i` is a reference.
pub open spec fn items_flag(items: Seq<LzItem>) -> u32
    decreases items.len(),
{
    if items.len() == 0 {
        0
    } else {
        let f = items_flag(items.drop_last());
        match items.last() {
            LzItem::Match(_, _) => f | (1u32 << ((31 - (items.len() - 1)) as u32)),
            LzItem::Literal(_) => f,
        }
    }
}

/// The bytes of a group: its flags with the layout in the low bits, then its items.
pub open spec fn group_bytes(items: Seq<LzItem>, t: u32) -> Seq<u8> {
    be32_bytes(items_flag(items) | t) + items_bytes(items, t)
}

/// An item is right at output position `p` of `x` in layout `t`: a literal carries the byte
/// there, a reference copies bytes equal to those it stands for, from inside the window.
pub open spec fn item_valid(x: Seq<u8>, p: int, it: LzItem, t: u32) -> bool {
    match it {
        LzItem::Literal(b) => 0 <= p < x.len() && b == x[p],
        LzItem::Match(l, d) => {
            &&& 3 <= l <= lz_max_len(t)
            &&& 1 <= d <= lz_window(t)
            &&& d <= p
            &&& p + l <= x.len()
            &&& forall|r: int| 0 <= r < l ==> #[trigger] x[p - d + r] == x[p + r]
        },
    }
}

/// Every item of the list is right, each at the output position that the items before it
/// lead to from `p`.
pub open spec fn items_valid(x: Seq<u8>, p: int, items: Seq<LzItem>, t: u32) -> bool
    decreases items.len(),
{
    if items.len() == 0 {
        true
    } else {
        items_valid(x, p, items.drop_last(), t) && item_valid(
            x,
            p + items_size(items.drop_last()),
            items.last(),
            t,
        )
    }
}

/// A group at output position `p` of `x` that the decoder reads back to `x`: one to thirty
/// right items, and fewer than thirty only where they reach the end of `x`.
pub open spec fn group_valid(x: Seq<u8>, p: int, items: Seq<LzItem>, t: u32) -> bool {
    &&& t < 4
    &&& 0 <= p
    &&& 1 <= items.len() <= 30
    &&& items_valid(x, p, items, t)
    &&& (items.len() == 30 || p + items_size(items) == x.len())
}

/// The bound `m + 4⌈m/30⌉` on the encoding of `m` bytes survives a group that takes four
/// flag bytes over `g` bytes, when the group stands for thirty items' worth or ends the input.
pub proof fn lemma_output_bound_step(m: int, g: int, c: int, rest: int)
    requires
        1 <= g <= m,
        g >= 30 || g == m,
        c <= 4 + g,
        rest <= (m - g) + 4 * ((m - g + 29) / 30),
    ensures
        c + rest <= m + 4 * ((m + 29) / 30),
{
    if g == m {
        assert((m - g + 29) / 30 == 0);
        assert((m + 29) / 30 >= 1);
    } else {
        assert((m - g + 29) / 30 <= (m + 29) / 30 - 1);
    }
}

/// The bytes of valid items are no more than the bytes they stand for (a reference stands
/// for at least three bytes in two), and each item stands for at least one byte.
pub proof fn lemma_items_bytes_bound(x: Seq<u8>, p: int, items: Seq<LzItem>, t: u32)
    requires
        items_valid(x, p, items, t),
    ensures
        items_bytes(items, t).len() <= items_size(items),
        items_size(items) >= items.len(),
    decreases items.len(),
{
    if items.len() > 0 {
        lemma_items_bytes_bound(x, p, items.drop_last(), t);
    }
}

/// A valid group takes at most four bytes more than the bytes it stands for.
pub proof fn lemma_group_bytes_bound(x: Seq<u8>, p: int, items: Seq<LzItem>, t: u32)
    requires
        group_valid(x, p, items, t),
    ensures
        group_bytes(items, t).len() <= 4 + items_size(items),
        items_size(items) >= items.len(),
        items.len() == 30 || p + items_size(items) == x.len(),
{
    lemma_items_bytes_bound(x, p, items, t);
}

proof fn lemma_bv_flag_set(f: u32, a: u32, b: u32)
    requires
        a < 30,
        b < 30,
    ensures
        ((f | (1u32 << (31 - a) as u32)) >> (31 - b) as u32) & 1u32 == (if a == b {
            1u32
        } else {
            (f >> (31 - b) as u32) & 1u32
        }),
        (f | (1u32 << (31 - a) as u32)) & 3u32 == f & 3u32,
{
    assert(((f | (1u32 << (31 - a) as u32)) >> (31 - b) as u32) & 1u32 == (if a == b {
        1u32
    } else {
        (f >> (31 - b) as u32) & 1u32
    })) by (bit_vector)
        requires
            a < 30,
            b < 30,
    ;
    assert((f | (1u32 << (31 - a) as u32)) & 3u32 == f & 3u32) by (bit_vector)
        requires
            a < 30,
    ;
}

/// The flag bits of a list of items say, item by item, which are references, and leave the
/// two layout bits clear.
pub proof fn lemma_items_flag_bits(items: Seq<LzItem>)
    requires
        items.len() <= 30,
    ensures
        items_flag(items) & 3u32 == 0,
        forall|b: u32|
            b < 30 ==> ((items_flag(items) >> (31 - b) as u32) & 1u32 == 1u32) == (b
                < items.len() && items[b as int] is Match),
    decreases items.len(),
{
    if items.len() > 0 {
        let prev = items.drop_last();
        lemma_items_flag_bits(prev);
        let f = items_flag(prev);
        let a = (items.len() - 1) as u32;
        assert forall|b: u32| b < 30 implies ((items_flag(items) >> (31 - b) as u32) & 1u32
            == 1u32) == (b < items.len() && items[b as int] is Match) by {
            lemma_bv_flag_set(f, a, b);
            if b < a {
                assert(items[b as int] == prev[b as int]);
            }
        }
        lemma_bv_flag_set(f, a, 0);
    } else {
        assert(0u32 & 3u32 == 0) by (bit_vector);
        assert forall|b: u32| b < 30 implies ((items_flag(items) >> (31 - b) as u32) & 1u32
            == 1u32) == (b < items.len() && items[b as int] is Match) by {
            assert((0u32 >> (31 - b) as u32) & 1u32 == 0u32) by (bit_vector);
        }
    }
}

/// Reading a reference's code back gives its length and distance.
pub proof fn lemma_item_code(l: u32, d: u32, t: u32)
    requires
        t < 4,
        3 <= l <= lz_max_len(t),
        1 <= d <= lz_window(t),
    ensures
        ((item_code(l, d, t) as u32) & (0x3fffu32 >> t)) + 1 == d,
        ((item_code(l, d, t) as u32) >> ((14 - t) as u32)) + 3 == l,
{
    let l3 = (l - 3) as u32;
    let d1 = (d - 1) as u32;
    assert(l3 < (4u32 << t) && d1 < (0x4000u32 >> t)) by {
        if t == 0 {
            assert((4u32 << 0u32) == 4 && (0x4000u32 >> 0u32) == 0x4000) by (bit_vector);
        } else if t == 1 {
            assert((4u32 << 1u32) == 8 && (0x4000u32 >> 1u32) == 0x2000) by (bit_vector);
        } else if t == 2 {
            assert((4u32 << 2u32) == 16 && (0x4000u32 >> 2u32) == 0x1000) by (bit_vector);
        } else {
            assert((4u32 << 3u32) == 32 && (0x4000u32 >> 3u32) == 0x800) by (bit_vector);
        }
    }
    assert((((((l3 << ((14 - t) as u32)) | d1) as u16) as u32) & (0x3fffu32 >> t)) == d1 && ((((
    (l3 << ((14 - t) as u32)) | d1) as u16) as u32) >> ((14 - t) as u32)) == l3) by (bit_vector)
        requires
            t < 4,
            l3 < (4u32 << t),
            d1 < (0x4000u32 >> t),
    ;
}

/// A reference whose source bytes equal the bytes it stands for extends a prefix of `x`.
pub proof fn lemma_copy_valid(x: Seq<u8>, q: int, d: int, l: nat)
    requires
        1 <= d <= q,
        q + l <= x.len(),
        forall|r: int| 0 <= r < l ==> #[trigger] x[q - d + r] == x[q + r],
    ensures
        lz_copy(x.take(q), q - d, l) == x.take(q + l),
    decreases l,
{
    if l > 0 {
        assert(x[q - d + 0] == x[q + 0]);
        assert(x.take(q).push(x.take(q)[q - d]) =~= x.take(q + 1));
        assert forall|r: int| 0 <= r < l - 1 implies #[trigger] x[q + 1 - d + r] == x[q + 1 + r] by {
            assert(x[q - d + (r + 1)] == x[q + (r + 1)]);
        }
        lemma_copy_valid(x, q + 1, d, (l - 1) as nat);
    }
}

/// Facts about a prefix of a list of right items: it is right, it is no longer than the
/// list, and its bytes begin the list's bytes.
pub proof fn lemma_items_prefix(x: Seq<u8>, p: int, items: Seq<LzItem>, t: u32, j: int)
    requires
        items_valid(x, p, items, t),
        0 <= j <= items.len(),
    ensures
        items_valid(x, p, items.take(j), t),
        items_size(items.take(j)) <= items_size(items),
        items_size(items.take(j)) >= j,
        items_bytes(items, t).len() >= items_bytes(items.take(j), t).len(),
        items_bytes(items, t).take(items_bytes(items.take(j), t).len() as int)
            == items_bytes(items.take(j), t),
    decreases items.len() - j,
{
    if j == items.len() {
        assert(items.take(j) =~= items);
        lemma_items_size_lower(x, p, items, t);
    } else {
        lemma_items_prefix(x, p, items, t, j + 1);
        let a = items.take(j + 1);
        assert(a.drop_last() =~= items.take(j));
        let ia = items_bytes(a, t);
        let ij = items_bytes(items.take(j), t);
        assert(ia == ij + item_bytes(a.last(), t));
        assert(ia.take(ij.len() as int) =~= ij);
        assert(items_bytes(items, t).take(ij.len() as int) =~= ia.take(ij.len() as int));
        lemma_items_size_lower(x, p, items.take(j), t);
        assert(item_size(a.last()) >= 1);
    }
}

/// Right items each stand for at least one byte.
pub proof fn lemma_items_size_lower(x: Seq<u8>, p: int, items: Seq<LzItem>, t: u32)
    requires
        items_valid(x, p, items, t),
    ensures
        items_size(items) >= items.len(),
        items.len() > 0 ==> p + items_size(items) <= x.len(),
    decreases items.len(),
{
    if items.len() > 0 {
        lemma_items_size_lower(x, p, items.drop_last(), t);
    }
}

pub(crate) proof fn lemma_bv_group_flag(f: u32, t: u32, b: u32)
    requires
        f & 3u32 == 0,
        t < 4,
        b < 30,
    ensures
        ((f | t) >> (31 - b) as u32) & 1u32 == (f >> (31 - b) as u32) & 1u32,
        (f | t) & 3u32 == t,
        (((f | t) << b) & 0x8000_0000u32 != 0) == (((f | t) >> (31 - b) as u32) & 1u32 == 1u32),
        ((f | t) << b) << 1u32 == (f | t) << ((b + 1) as u32),
{
    assert(((f | t) >> (31 - b) as u32) & 1u32 == (f >> (31 - b) as u32) & 1u32) by (bit_vector)
        requires
            t < 4,
            b < 30,
    ;
    assert((f | t) & 3u32 == t) by (bit_vector)
        requires
            f & 3u32 == 0,
            t < 4,
    ;
    let g = f | t;
    assert(((g << b) & 0x8000_0000u32 != 0) == ((g >> (31 - b) as u32) & 1u32 == 1u32)) by (bit_vector)
        requires
            b < 30,
    ;
    assert((g << b) << 1u32 == g << ((b + 1) as u32)) by (bit_vector)
        requires
            b < 30,
    ;
}

/// Decoding the items of a right group, from item `j` on, gets back the bytes they stand
/// for and ends where the group ends: with the whole of `x` when the group reaches its end,
/// else ready to read the next group.
pub proof fn lemma_decode_group_items(
    x: Seq<u8>,
    c: Seq<u8>,
    w: int,
    p: int,
    items: Seq<LzItem>,
    t: u32,
    j: int,
    d: int,
)
    requires
        group_valid(x, p, items, t),
        0 <= w,
        w + group_bytes(items, t).len() <= c.len(),
        c.subrange(w, w + group_bytes(items, t).len()) == group_bytes(items, t),
        0 <= j <= items.len(),
        j < items.len() || items.len() == 30,
        p + items_size(items.take(j)) < x.len(),
        d >= x.len(),
    ensures
        decode_from(
            c,
            w + 4 + items_bytes(items.take(j), t).len(),
            x.take(p + items_size(items.take(j))),
            (items_flag(items) | t) << (j as u32),
            t,
            30 - j,
            x.len() as int,
            d,
            false,
        ) == (if p + items_size(items) >= x.len() {
            LzssDecoded::Done(x)
        } else {
            decode_from(
                c,
                w + group_bytes(items, t).len(),
                x.take(p + items_size(items)),
                0,
                0,
                0,
                x.len() as int,
                d,
                false,
            )
        }),
    decreases items.len() - j,
{
    let g = group_bytes(items, t);
    let ib = items_bytes(items, t);
    let f = items_flag(items) | t;
    let s = x.len() as int;
    lemma_items_prefix(x, p, items, t, j);
    if j == items.len() {
        assert(items.take(j) =~= items);
    } else {
        lemma_items_prefix(x, p, items, t, j + 1);
        lemma_items_flag_bits(items);
        lemma_bv_group_flag(items_flag(items), t, j as u32);
        let a = items.take(j + 1);
        assert(a.drop_last() =~= items.take(j));
        assert(a.last() == items[j]);
        let it = items[j];
        let q = p + items_size(items.take(j));
        let ibj = items_bytes(items.take(j), t);
        let cp = w + 4 + ibj.len();
        assert(items_bytes(a, t) == ibj + item_bytes(it, t));
        assert(items_size(a) == items_size(items.take(j)) + item_size(it));
        assert(item_valid(x, q, it, t));
        lemma_items_size_lower(x, p, items, t);
        // the item's bytes stand in `c` right after those of the items before it
        let ibytes = item_bytes(it, t);
        assert forall|r: int| 0 <= r < ibytes.len() implies c[cp + r] == ibytes[r] by {
            assert(ib.take(items_bytes(a, t).len() as int)[ibj.len() + r] == items_bytes(a, t)[ibj.len() + r]);
            assert(g[4 + ibj.len() + r] == ib[ibj.len() + r]);
            assert(c.subrange(w, w + g.len())[4 + ibj.len() + r] == g[4 + ibj.len() + r]);
        }
        let k = 30 - j;
        let fj = f << (j as u32);
        let q2 = p + items_size(a);
        if j + 1 < items.len() || items.len() == 30 {
            if q2 < s {
                lemma_decode_group_items(x, c, w, p, items, t, j + 1, d);
            }
        }
        match it {
            LzItem::Match(l, dd) => {
                assert(fj & 0x8000_0000u32 != 0);
                let code = item_code(l, dd, t);
                lemma_be16_roundtrip(code);
                assert(spec_be_u16(c, cp) == spec_be_u16(be16_bytes(code), 0));
                lemma_item_code(l, dd, t);
                let temp = spec_be_u16(c, cp) as u32;
                assert(temp == code as u32);
                lemma_copy_valid(x, q, dd as int, l as nat);
                assert(x.take(q).len() == q);
                if q2 >= s {
                    assert(x.take(q2) =~= x);
                }
            },
            LzItem::Literal(b) => {
                assert(fj & 0x8000_0000u32 == 0);
                assert(ibytes[0] == b);
                assert(c[cp + 0] == ibytes[0]);
                assert(c[cp] == b);
                assert(x.take(q).push(b) =~= x.take(q + 1));
                if q2 >= s {
                    assert(x.take(q2) =~= x);
                }
            },
        }
    }
}


/// Decoding a right group, flags first, gets back the bytes it stands for and ends where
/// the group ends: with the whole of `x` when the group reaches its end, else ready to read
/// the next group.
pub proof fn lemma_decode_group(
    x: Seq<u8>,
    c: Seq<u8>,
    w: int,
    p: int,
    items: Seq<LzItem>,
    t: u32,
    d: int,
    fl: u32,
    ln: u32,
)
    requires
        group_valid(x, p, items, t),
        0 <= w,
        w + group_bytes(items, t).len() <= c.len(),
        c.subrange(w, w + group_bytes(items, t).len()) == group_bytes(items, t),
        p < x.len(),
        d >= x.len(),
    ensures
        decode_from(c, w, x.take(p), fl, ln, 0, x.len() as int, d, false) == (if p + items_size(
            items,
        ) >= x.len() {
            LzssDecoded::Done(x)
        } else {
            decode_from(
                c,
                w + group_bytes(items, t).len(),
                x.take(p + items_size(items)),
                0,
                0,
                0,
                x.len() as int,
                d,
                false,
            )
        }),
{
    let f = items_flag(items) | t;
    let g = group_bytes(items, t);
    lemma_be32_roundtrip(f);
    assert forall|r: int| 0 <= r < 4 implies c[w + r] == be32_bytes(f)[r] by {
        assert(c.subrange(w, w + g.len())[r] == g[r]);
    }
    assert(spec_be_u32(c, w) == spec_be_u32(be32_bytes(f), 0));
    lemma_items_flag_bits(items);
    lemma_bv_group_flag(items_flag(items), t, 0);
    assert(f << 0u32 == f) by (bit_vector);
    assert(items.take(0) =~= Seq::<LzItem>::empty());
    lemma_decode_group_items(x, c, w, p, items, t, 0, d);
}


/// How an encoder's output fits its buffer.
pub enum CompressFit {
    /// The whole stream fits.
    Fits,
    /// A group's flags fit but the group does not: the buffer fills up.
    Overflow,
    /// A group's four flag bytes do not fit.
    FlagOutOfBounds,
}

/// How a call of an encoder ends, given the whole stream `full` and how it fits the output
/// buffer; `before` and `after` are the buffer before and after the call.
pub open spec fn compress_result_matches(
    full: Seq<u8>,
    fit: CompressFit,
    r: Result<usize, LzError>,
    before: Seq<u8>,
    after: Seq<u8>,
) -> bool {
    match fit {
        CompressFit::Fits => r == Ok::<usize, LzError>(full.len() as usize) && full.len()
            <= before.len() && after == full + before.skip(full.len() as int),
        CompressFit::Overflow => r == Err::<usize, LzError>(LzError::WriteZero) && after
            == full.take(before.len() as int),
        CompressFit::FlagOutOfBounds => r == Err::<usize, LzError>(LzError::FlagOutOfBounds)
            && after.len() == before.len(),
    }
}


/// Right items each stand for at most thirty-four bytes.
pub proof fn lemma_items_size_upper(x: Seq<u8>, p: int, items: Seq<LzItem>, t: u32)
    requires
        items_valid(x, p, items, t),
    ensures
        items_size(items) <= 34 * items.len(),
    decreases items.len(),
{
    if items.len() > 0 {
        lemma_items_size_upper(x, p, items.drop_last(), t);
    }
}

/// The bytes of a prefix of a list of items begin the list's bytes.
pub proof fn lemma_items_bytes_prefix(items: Seq<LzItem>, t: u32, j: int)
    requires
        0 <= j <= items.len(),
    ensures
        items_bytes(items, t).len() >= items_bytes(items.take(j), t).len(),
        items_bytes(items, t).take(items_bytes(items.take(j), t).len() as int) == items_bytes(
            items.take(j),
            t,
        ),
    decreases items.len() - j,
{
    if j == items.len() {
        assert(items.take(j) =~= items);
    } else {
        lemma_items_bytes_prefix(items, t, j + 1);
        let a = items.take(j + 1);
        assert(a.drop_last() =~= items.take(j));
        let ia = items_bytes(a, t);
        let ij = items_bytes(items.take(j), t);
        assert(ia == ij + item_bytes(a.last(), t));
        assert(ia.take(ij.len() as int) =~= ij);
        assert(items_bytes(items, t).take(ij.len() as int) =~= ia.take(ij.len() as int));
    }
}

/// How a write of `bytes` at `cpos` ends: all written, or the buffer filled with as many of
/// them as fit.
pub open spec fn put_result(
    before: Seq<u8>,
    after: Seq<u8>,
    cpos: int,
    bytes: Seq<u8>,
    r: Result<usize, LzError>,
) -> bool {
    match r {
        Ok(c2) => c2 == cpos + bytes.len() && c2 <= before.len() && after == crate::bytes::spliced(
            before,
            cpos,
            bytes,
        ),
        Err(e) => e == LzError::WriteZero && cpos + bytes.len() > before.len() && after
            == before.take(cpos) + bytes.take(before.len() - cpos),
    }
}

/// Decodes the LZSS stream `compressed_buffer` into `decompressed_buffer`, stopping once
/// `decompressed_buffer_size` bytes are out (or, when `is_in_place`, once the output has
/// passed the input), and returns how many bytes were written; a full output buffer ends
/// the call with `LzError::WriteZero`. The stream must be one the decoder can read.
pub fn lzss_decompress(
    compressed_buffer: &[u8],
    _compressed_buffer_size: usize,
    decompressed_buffer: &mut [u8],
    decompressed_buffer_size: usize,
    is_in_place: bool,
) -> (r: Result<usize, LzError>)
    requires
        !(spec_lzss_decode(
            compressed_buffer@,
            decompressed_buffer_size as int,
            old(decompressed_buffer)@.len() as int,
            is_in_place,
        ) is Malformed),
    ensures
        decode_result_matches(
            spec_lzss_decode(
                compressed_buffer@,
                decompressed_buffer_size as int,
                old(decompressed_buffer)@.len() as int,
                is_in_place,
            ),
            r,
            old(decompressed_buffer)@,
            final(decompressed_buffer)@,
        ),
        r != Err::<usize, LzError>(LzError::Malformed),
{
    lzss_decompress_checked(compressed_buffer, decompressed_buffer, decompressed_buffer_size, is_in_place)
}

/// Writes one byte at `cpos`, as a cursor over the buffer does.
pub fn put_u8(out: &mut [u8], cpos: usize, v: u8) -> (r: Result<usize, LzError>)
    requires
        cpos <= old(out)@.len(),
    ensures
        put_result(old(out)@, final(out)@, cpos as int, seq![v], r),
{
    if cpos < out.len() {
        out[cpos] = v;
        assert(out@ =~= crate::bytes::spliced(old(out)@, cpos as int, seq![v]));
        Ok(cpos + 1)
    } else {
        assert(out@ =~= old(out)@.take(cpos as int) + seq![v].take(0));
        Err(LzError::WriteZero)
    }
}

/// Writes `v` big-endian at `cpos`, as a cursor over the buffer does: the bytes that fit
/// are written even when the rest do not.
pub fn put_be_u16(out: &mut [u8], cpos: usize, v: u16) -> (r: Result<usize, LzError>)
    requires
        cpos <= old(out)@.len(),
    ensures
        put_result(old(out)@, final(out)@, cpos as int, be16_bytes(v), r),
{
    let b = out.len();
    if b - cpos >= 2 {
        crate::bytes::write_be_u16(out, cpos, v);
        Ok(cpos + 2)
    } else {
        if b - cpos == 1 {
            out[cpos] = (v >> 8u16) as u8;
        }
        assert(out@ =~= old(out)@.take(cpos as int) + be16_bytes(v).take(b - cpos));
        Err(LzError::WriteZero)
    }
}

/// Writes `v` big-endian at `cpos`, as a cursor over the buffer does: the bytes that fit
/// are written even when the rest do not.
pub fn put_be_u32(out: &mut [u8], cpos: usize, v: u32) -> (r: Result<usize, LzError>)
    requires
        cpos <= old(out)@.len(),
    ensures
        put_result(old(out)@, final(out)@, cpos as int, be32_bytes(v), r),
{
    let b = out.len();
    if b - cpos >= 4 {
        crate::bytes::write_be_u32(out, cpos, v);
        Ok(cpos + 4)
    } else {
        let room = b - cpos;
        if room >= 1 {
            out[cpos] = ((v >> 24u32) & 0xffu32) as u8;
        }
        if room >= 2 {
            out[cpos + 1] = ((v >> 16u32) & 0xffu32) as u8;
        }
        if room >= 3 {
            out[cpos + 2] = ((v >> 8u32) & 0xffu32) as u8;
        }
        assert(out@ =~= old(out)@.take(cpos as int) + be32_bytes(v).take(b - cpos));
        Err(LzError::WriteZero)
    }
}

} // verus!
