//! The two codecs of the `lz` subcommand, and the eight-byte frame that the subcommand
//! puts around a compressed file: the decompressed length, then the compressed length plus
//! eight, both little-endian `u32`s, then the compressed bytes.
use vstd::prelude::*;
use crate::bytes::{spec_le_u32, le32_bytes, read_le_u32, lemma_le32_roundtrip, push_le_u32, push_bytes, push_fill};
use crate::lz::{LzError, LzssDecoded, spec_lzss_decode, lzss_decompress_checked};
use crate::lz_chain::{spec_lzss_compress, lzss_compress, lemma_lzss_roundtrip};

verus! {

/// What a cursor over `before` holds after `w` is written at its start: `w` overwrites
/// the first bytes and extends the buffer where it is longer.
pub open spec fn overlay(before: Seq<u8>, w: Seq<u8>) -> Seq<u8> {
    if w.len() >= before.len() {
        w
    } else {
        w + before.skip(w.len() as int)
    }
}

/// The bytes that `lz4`'s frame decoder yields when it reads `c` to its end.
pub uninterp spec fn lz4_decoded(c: Seq<u8>) -> Seq<u8>;

/// Whether `lz4`'s frame decoder, read to its end, reports no error on `c`.
pub uninterp spec fn lz4_decodes(c: Seq<u8>) -> bool;

/// `f` is an LZ4 frame of `x`: whatever follows it, the decoder reads it without error and
/// yields `x` (the decoder stops at the end of the first frame).
pub open spec fn lz4_frame_of(x: Seq<u8>, f: Seq<u8>) -> bool {
    forall|t: Seq<u8>| #[trigger] lz4_decodes(f + t) && lz4_decoded(f + t) == x
}

/// `after` is `before` with an LZ4 frame of `x` written over its start.
pub open spec fn lz4_written(before: Seq<u8>, after: Seq<u8>, x: Seq<u8>) -> bool {
    exists|k: int|
        0 <= k <= after.len() && after == overlay(before, #[trigger] after.take(k)) && lz4_frame_of(
            x,
            after.take(k),
        )
}

/// `lz4::Decoder::new` over `compressed`, copied by `std::io::copy` into a cursor at the start
/// of `decompressed`. Claimed: the call succeeds exactly when the decoder accepts the bytes,
/// and then `decompressed` holds the decoded bytes over its old contents. Nothing is said of
/// what a failed call leaves in `decompressed` (a stream that breaks off leaves part of its
/// bytes written), nor of a failure to allocate the decoder's context.
#[verifier::external_body]
fn lz4_decode_into(compressed: &Vec<u8>, decompressed: &mut Vec<u8>) -> (ok: bool)
    ensures
        ok == lz4_decodes(compressed@),
        ok ==> final(decompressed)@ == overlay(old(decompressed)@, lz4_decoded(compressed@)),
{
    let mut output = std::io::Cursor::new(decompressed);
    match lz4::Decoder::new(std::io::Cursor::new(compressed)) {
        Ok(mut decoder) => std::io::copy(&mut decoder, &mut output).is_ok(),
        Err(_) => false,
    }
}

/// `lz4::EncoderBuilder` at level 4 over a cursor at the start of `compressed`, fed
/// `decompressed` by `std::io::copy` and then finished; the result is whether every step
/// succeeded, and the cursor's position after the frame. Claimed: the calls succeed (the
/// cursor grows the vector, and the encoder sizes its own buffer by the compression bound),
/// and the frame that was written over `compressed`'s start decodes back to `decompressed`.
/// Which frame is written is not claimed: the HC match finder hashes words in the machine's
/// byte order. A failure to allocate the encoder's context is not considered.
#[verifier::external_body]
fn lz4_encode_into(decompressed: &Vec<u8>, compressed: &mut Vec<u8>) -> (r: (bool, usize))
    ensures
        r.0,
        r.1 <= final(compressed)@.len(),
        final(compressed)@ == overlay(old(compressed)@, final(compressed)@.take(r.1 as int)),
        lz4_frame_of(decompressed@, final(compressed)@.take(r.1 as int)),
{
    let mut input = std::io::Cursor::new(decompressed);
    match lz4::EncoderBuilder::new().level(4).build(std::io::Cursor::new(compressed)) {
        Ok(mut encoder) => {
            let copied = std::io::copy(&mut input, &mut encoder).is_ok();
            let (output, finished) = encoder.finish();
            (copied && finished.is_ok(), output.position() as usize)
        },
        Err(_) => (false, 0),
    }
}

/// How a decoding call on a whole buffer ends, given what decoding the stream produces:
/// `before` and `after` are the buffer before and after the call.
pub open spec fn buffer_decode_matches(
    o: LzssDecoded,
    r: Result<(), LzError>,
    before: Seq<u8>,
    after: Seq<u8>,
) -> bool {
    match o {
        LzssDecoded::Done(out) => r is Ok && out.len() <= before.len() && after == out
            + before.skip(out.len() as int),
        LzssDecoded::Overflow(out) => r == Err::<(), LzError>(LzError::WriteZero) && out.len()
            <= before.len() && after == out + before.skip(out.len() as int),
        LzssDecoded::Malformed => r == Err::<(), LzError>(LzError::Malformed) && after.len()
            == before.len(),
    }
}

/// The stream that `LZLZSS` writes for `x`: the hash-chain encoding of `x`, read with two
/// zero bytes after it.
pub open spec fn lzlzss_stream(x: Seq<u8>) -> Seq<u8> {
    spec_lzss_compress(x + seq![0u8, 0u8], x.len() as int)
}

/// Asobo's LZSS codec.
pub struct LZLZSS {}

impl LZLZSS {
    /// Decodes `compressed_buffer` into the whole of `decompressed_buffer`. The stream must be
    /// one the decoder can read; a stream that overruns the buffer ends with
    /// `LzError::WriteZero`, the bytes that fit written.
    pub fn decompress_internal(
        &self,
        compressed_buffer: &Vec<u8>,
        decompressed_buffer: &mut Vec<u8>,
    ) -> (r: Result<(), LzError>)
        requires
            !(spec_lzss_decode(
                compressed_buffer@,
                old(decompressed_buffer)@.len() as int,
                old(decompressed_buffer)@.len() as int,
                false,
            ) is Malformed),
        ensures
            buffer_decode_matches(
                spec_lzss_decode(
                    compressed_buffer@,
                    old(decompressed_buffer)@.len() as int,
                    old(decompressed_buffer)@.len() as int,
                    false,
                ),
                r,
                old(decompressed_buffer)@,
                final(decompressed_buffer)@,
            ),
            r != Err::<(), LzError>(LzError::Malformed),
    {
        self.decompress_checked(compressed_buffer, decompressed_buffer)
    }

    /// As `decompress_internal`, for every stream: one the decoder cannot read ends with
    /// `LzError::Malformed`.
    pub fn decompress_checked(
        &self,
        compressed_buffer: &Vec<u8>,
        decompressed_buffer: &mut Vec<u8>,
    ) -> (r: Result<(), LzError>)
        ensures
            buffer_decode_matches(
                spec_lzss_decode(
                    compressed_buffer@,
                    old(decompressed_buffer)@.len() as int,
                    old(decompressed_buffer)@.len() as int,
                    false,
                ),
                r,
                old(decompressed_buffer)@,
                final(decompressed_buffer)@,
            ),
    {
        let len = decompressed_buffer.len();
        let r = lzss_decompress_checked(compressed_buffer.as_slice(), decompressed_buffer.as_mut_slice(), len, false);
        match r {
            Ok(_) => Ok(()),
            Err(e) => Err(e),
        }
    }

    /// Encodes `decompressed_buffer` with the hash-chain encoder into `compressed_buffer` and
    /// cuts `compressed_buffer` to the stream. When the stream does not fit, the call ends
    /// with `LzError::WriteZero`, the bytes that fit written and `decompressed_buffer` left
    /// with the two zero bytes the encoder reads after the input.
    pub fn compress_internal(
        &self,
        decompressed_buffer: &mut Vec<u8>,
        compressed_buffer: &mut Vec<u8>,
    ) -> (r: Result<(), LzError>)
        requires
            old(decompressed_buffer)@.len() < 0x8000_0000,
        ensures
            ({
                let full = lzlzss_stream(old(decompressed_buffer)@);
                if full.len() <= old(compressed_buffer)@.len() {
                    &&& r is Ok
                    &&& final(compressed_buffer)@ == full
                    &&& final(decompressed_buffer)@ == old(decompressed_buffer)@
                } else {
                    &&& r == Err::<(), LzError>(LzError::WriteZero)
                    &&& final(compressed_buffer)@ == full.take(old(compressed_buffer)@.len() as int)
                    &&& final(decompressed_buffer)@ == old(decompressed_buffer)@ + seq![0u8, 0u8]
                }
            }),
    {
        let ghost x = decompressed_buffer@;
        let n = decompressed_buffer.len();
        decompressed_buffer.push(0);
        decompressed_buffer.push(0);
        assert(decompressed_buffer@ =~= x + seq![0u8, 0u8]);
        let r = lzss_compress(decompressed_buffer.as_slice(), n, compressed_buffer.as_mut_slice(), n);
        match r {
            Ok(len) => {
                decompressed_buffer.truncate(n);
                compressed_buffer.truncate(len);
                assert(decompressed_buffer@ =~= x);
                assert(compressed_buffer@ =~= lzlzss_stream(x));
                Ok(())
            },
            Err(e) => Err(e),
        }
    }
}

/// Round trip of the LZSS codec: the stream written for a non-empty `x`, decoded into a
/// buffer of `x`'s length, gives back `x`.
pub proof fn lemma_lzlzss_roundtrip(x: Seq<u8>)
    requires
        0 < x.len(),
    ensures
        spec_lzss_decode(lzlzss_stream(x), x.len() as int, x.len() as int, false)
            == LzssDecoded::Done(x),
{
    let y = x + seq![0u8, 0u8];
    lemma_lzss_roundtrip(y, x.len() as int, x.len() as int);
    assert(y.take(x.len() as int) =~= x);
}

/// The LZ4 frame codec.
pub struct LZLZ4 {}

impl LZLZ4 {
    /// Decodes the LZ4 frame `compressed_buffer` into a cursor at the start of
    /// `decompressed_buffer`. It succeeds exactly when the decoder accepts the bytes, and the
    /// decoded bytes then overwrite the buffer's first bytes and extend it where they are
    /// longer; otherwise the result is `LzError::Codec`.
    pub fn decompress_internal(
        &self,
        compressed_buffer: &Vec<u8>,
        decompressed_buffer: &mut Vec<u8>,
    ) -> (r: Result<(), LzError>)
        ensures
            r is Ok <==> lz4_decodes(compressed_buffer@),
            r is Ok ==> final(decompressed_buffer)@ == overlay(
                old(decompressed_buffer)@,
                lz4_decoded(compressed_buffer@),
            ),
            r is Err ==> r == Err::<(), LzError>(LzError::Codec),
    {
        if lz4_decode_into(compressed_buffer, decompressed_buffer) {
            Ok(())
        } else {
            Err(LzError::Codec)
        }
    }

    /// Encodes `decompressed_buffer` as an LZ4 frame (level 4) into a cursor at the start of
    /// `compressed_buffer`: the frame overwrites the buffer's first bytes and extends it where
    /// it is longer. It always succeeds.
    pub fn compress_internal(
        &self,
        decompressed_buffer: &mut Vec<u8>,
        compressed_buffer: &mut Vec<u8>,
    ) -> (r: Result<(), LzError>)
        ensures
            r is Ok,
            final(decompressed_buffer)@ == old(decompressed_buffer)@,
            lz4_written(old(compressed_buffer)@, final(compressed_buffer)@, old(decompressed_buffer)@),
    {
        let (ok, written) = lz4_encode_into(decompressed_buffer, compressed_buffer);
        assert(0 <= written as int <= compressed_buffer@.len());
        assert(compressed_buffer@ == overlay(old(compressed_buffer)@, compressed_buffer@.take(written as int)));
        if ok {
            Ok(())
        } else {
            Err(LzError::Codec)
        }
    }
}

/// The first `k` bytes of `s`, with zeros after its end: what a read of `k` bytes into a
/// zeroed buffer leaves there.
pub open spec fn zero_filled(s: Seq<u8>, k: nat) -> Seq<u8> {
    Seq::new(k, |j: int| if j < s.len() { s[j] } else { 0u8 })
}

/// A framed file, read: the decompressed length and the compressed bytes.
pub struct LzFrame {
    pub decompressed_len: u32,
    pub compressed: Vec<u8>,
}

/// Reading a framed file `f`: its decompressed length and the compressed length's worth of
/// bytes after the header (zeros where the file is shorter).
pub open spec fn spec_parse_frame(f: Seq<u8>) -> Result<(u32, Seq<u8>), LzError> {
    if f.len() < 8 {
        Err(LzError::Truncated)
    } else if spec_le_u32(f, 4) < 8 {
        Err(LzError::BadLength)
    } else {
        Ok((spec_le_u32(f, 0), zero_filled(f.skip(8), (spec_le_u32(f, 4) - 8) as nat)))
    }
}

/// The framed file for `c`, the compression of `n` bytes.
pub open spec fn spec_frame_bytes(n: u32, c: Seq<u8>) -> Seq<u8> {
    le32_bytes(n) + le32_bytes((c.len() + 8) as u32) + c
}

/// Reads a framed file: `LzError::Truncated` when it ends inside the header,
/// `LzError::BadLength` when its compressed length is under eight.
pub fn parse_lz_frame(file: &[u8]) -> (r: Result<LzFrame, LzError>)
    ensures
        match r {
            Ok(fr) => spec_parse_frame(file@) == Ok::<(u32, Seq<u8>), LzError>(
                (fr.decompressed_len, fr.compressed@),
            ),
            Err(e) => spec_parse_frame(file@) == Err::<(u32, Seq<u8>), LzError>(e),
        },
{
    if file.len() < 8 {
        return Err(LzError::Truncated);
    }
    let n = read_le_u32(file, 0);
    let c = read_le_u32(file, 4);
    if c < 8 {
        return Err(LzError::BadLength);
    }
    let want = (c - 8) as usize;
    let mut out: Vec<u8> = Vec::new();
    let mut i: usize = 0;
    while i < want
        invariant
            i <= want,
            8 <= file@.len(),
            out@.len() == i,
            forall|j: int| 0 <= j < i ==> out@[j] == (if 8 + j < file@.len() { file@[8 + j] } else { 0u8 }),
        decreases want - i,
    {
        if i < file.len() - 8 {
            out.push(file[8 + i]);
        } else {
            out.push(0);
        }
        i = i + 1;
    }
    assert(out@ =~= zero_filled(file@.skip(8), want as nat));
    Ok(LzFrame { decompressed_len: n, compressed: out })
}

/// The framed file for `compressed`, the compression of `decompressed_len` bytes.
pub fn lz_frame_bytes(decompressed_len: u32, compressed: &[u8]) -> (r: Vec<u8>)
    requires
        compressed@.len() + 8 <= u32::MAX,
    ensures
        r@ == spec_frame_bytes(decompressed_len, compressed@),
{
    let mut out: Vec<u8> = Vec::new();
    push_le_u32(&mut out, decompressed_len);
    push_le_u32(&mut out, compressed.len() as u32 + 8);
    push_bytes(&mut out, compressed);
    out
}

/// Round trip of the frame: reading the framed file for `c` gives back its length and `c`.
pub proof fn lemma_frame_roundtrip(n: u32, c: Seq<u8>)
    requires
        c.len() + 8 <= u32::MAX,
    ensures
        spec_parse_frame(spec_frame_bytes(n, c)) == Ok::<(u32, Seq<u8>), LzError>((n, c)),
{
    let f = spec_frame_bytes(n, c);
    lemma_le32_roundtrip(n);
    lemma_le32_roundtrip((c.len() + 8) as u32);
    assert(f.subrange(0, 4) =~= le32_bytes(n));
    assert(f.subrange(4, 8) =~= le32_bytes((c.len() + 8) as u32));
    assert(spec_le_u32(f, 0) == spec_le_u32(le32_bytes(n), 0));
    assert(spec_le_u32(f, 4) == spec_le_u32(le32_bytes((c.len() + 8) as u32), 0));
    assert(zero_filled(f.skip(8), c.len()) =~= c);
}

/// What the `lz` subcommand's LZSS decompression makes of the framed file `f`: the decoded
/// bytes in a zeroed buffer of the frame's decompressed length.
pub open spec fn spec_lzss_decompress_file(f: Seq<u8>) -> Result<Seq<u8>, LzError> {
    match spec_parse_frame(f) {
        Err(e) => Err(e),
        Ok((n, c)) => match spec_lzss_decode(c, n as int, n as int, false) {
            LzssDecoded::Done(out) => Ok(zero_filled(out, n as nat)),
            LzssDecoded::Overflow(_) => Err(LzError::WriteZero),
            LzssDecoded::Malformed => Err(LzError::Malformed),
        },
    }
}

/// What the `lz` subcommand's LZSS compression makes of the file `x`: the frame around the
/// stream, when the stream fits a buffer of twice `x`'s length.
pub open spec fn spec_lzss_compress_file(x: Seq<u8>) -> Result<Seq<u8>, LzError> {
    if lzlzss_stream(x).len() <= 2 * x.len() {
        Ok(spec_frame_bytes(x.len() as u32, lzlzss_stream(x)))
    } else {
        Err(LzError::WriteZero)
    }
}

/// A buffer of `n` zero bytes.
pub fn zeroed(n: usize) -> (r: Vec<u8>)
    ensures
        r@ == Seq::new(n as nat, |j: int| 0u8),
{
    let mut v: Vec<u8> = Vec::new();
    push_fill(&mut v, 0, n);
    assert(v@ =~= Seq::new(n as nat, |j: int| 0u8));
    v
}

impl LZLZSS {
    /// The `lz` subcommand's decompression of a framed file's bytes.
    pub fn decompress_bytes(&self, file: &[u8]) -> (r: Result<Vec<u8>, LzError>)
        ensures
            match r {
                Ok(v) => spec_lzss_decompress_file(file@) == Ok::<Seq<u8>, LzError>(v@),
                Err(e) => spec_lzss_decompress_file(file@) == Err::<Seq<u8>, LzError>(e),
            },
    {
        let frame = match parse_lz_frame(file) {
            Ok(fr) => fr,
            Err(e) => return Err(e),
        };
        let mut decompressed = zeroed(frame.decompressed_len as usize);
        let ghost before = decompressed@;
        match self.decompress_checked(&frame.compressed, &mut decompressed) {
            Ok(()) => {
                proof {
                    let out = spec_lzss_decode(frame.compressed@, frame.decompressed_len as int,
                        frame.decompressed_len as int, false)->Done_0;
                    assert(decompressed@ =~= zero_filled(out, frame.decompressed_len as nat));
                }
                Ok(decompressed)
            },
            Err(e) => Err(e),
        }
    }

    /// The `lz` subcommand's compression of a file's bytes `data` into a framed file.
    pub fn compress_bytes(&self, data: &Vec<u8>) -> (r: Result<Vec<u8>, LzError>)
        requires
            data@.len() <= 0x7FFF_FFF0,
        ensures
            match r {
                Ok(v) => spec_lzss_compress_file(data@) == Ok::<Seq<u8>, LzError>(v@),
                Err(e) => spec_lzss_compress_file(data@) == Err::<Seq<u8>, LzError>(e),
            },
    {
        let n = data.len();
        let mut input = data.clone();
        assert(input@ == data@);
        let mut compressed = zeroed(n * 2);
        match self.compress_internal(&mut input, &mut compressed) {
            Ok(()) => Ok(lz_frame_bytes(n as u32, compressed.as_slice())),
            Err(e) => Err(e),
        }
    }
}

/// The `lz` subcommand's LZSS compression of four bytes or more succeeds: the stream fits
/// the buffer of twice the file's length.
pub proof fn lemma_lzss_file_compresses(x: Seq<u8>)
    requires
        x.len() >= 4,
    ensures
        spec_lzss_compress_file(x) is Ok,
{
    crate::lz_chain::lemma_lzss_size(x + seq![0u8, 0u8], x.len() as int);
    assert(4 * ((x.len() + 29) / 30) <= x.len());
}

/// Round trip of the `lz` subcommand's LZSS codec: decompressing the framed file written
/// for a non-empty file gives back the file.
pub proof fn lemma_lzss_file_roundtrip(x: Seq<u8>)
    requires
        0 < x.len() <= 0x7FFF_FFF0,
        spec_lzss_compress_file(x) is Ok,
    ensures
        spec_lzss_decompress_file(spec_lzss_compress_file(x)->Ok_0) == Ok::<Seq<u8>, LzError>(x),
{
    let c = lzlzss_stream(x);
    lemma_frame_roundtrip(x.len() as u32, c);
    lemma_lzlzss_roundtrip(x);
    assert(zero_filled(x, x.len()) =~= x);
}

/// What the `lz` subcommand's LZ4 decompression makes of the framed file `f`: the decoded
/// bytes over a zeroed buffer of the frame's decompressed length.
pub open spec fn spec_lz4_decompress_file(f: Seq<u8>) -> Result<Seq<u8>, LzError> {
    match spec_parse_frame(f) {
        Err(e) => Err(e),
        Ok((n, c)) => if lz4_decodes(c) {
            Ok(overlay(Seq::new(n as nat, |j: int| 0u8), lz4_decoded(c)))
        } else {
            Err(LzError::Codec)
        },
    }
}

/// `n` zero bytes.
pub open spec fn zero_bytes(n: nat) -> Seq<u8> {
    Seq::new(n, |j: int| 0u8)
}

/// `f` is a framed file that the `lz` subcommand's LZ4 compression may write for `x`: the
/// length of `x`, then a zeroed buffer of twice that length with an LZ4 frame of `x` written
/// over its start.
pub open spec fn lz4_file_of(x: Seq<u8>, f: Seq<u8>) -> bool {
    exists|body: Seq<u8>|
        lz4_written(zero_bytes((2 * x.len()) as nat), body, x) && body.len() + 8
            <= u32::MAX && f == #[trigger] spec_frame_bytes(x.len() as u32, body)
}

impl LZLZ4 {
    /// The `lz` subcommand's decompression of a framed file's bytes with the LZ4 codec: the
    /// decoded bytes over a zeroed buffer of the frame's decompressed length.
    pub fn decompress_bytes(&self, file: &[u8]) -> (r: Result<Vec<u8>, LzError>)
        ensures
            match r {
                Ok(v) => spec_lz4_decompress_file(file@) == Ok::<Seq<u8>, LzError>(v@),
                Err(e) => spec_lz4_decompress_file(file@) == Err::<Seq<u8>, LzError>(e),
            },
    {
        let frame = match parse_lz_frame(file) {
            Ok(fr) => fr,
            Err(e) => return Err(e),
        };
        let mut decompressed = zeroed(frame.decompressed_len as usize);
        match self.decompress_internal(&frame.compressed, &mut decompressed) {
            Ok(()) => Ok(decompressed),
            Err(e) => Err(e),
        }
    }

    /// The `lz` subcommand's compression of a file's bytes `data` with the LZ4 codec: the
    /// frame is written over a zeroed buffer of twice `data`'s length, all of which is framed.
    /// `LzError::TooLarge` when that buffer's length and the eight header bytes overflow a
    /// `u32`.
    pub fn compress_bytes(&self, data: &Vec<u8>) -> (r: Result<Vec<u8>, LzError>)
        requires
            data@.len() <= 0x7FFF_FFF0,
        ensures
            match r {
                Ok(v) => lz4_file_of(data@, v@),
                Err(e) => e == LzError::TooLarge && exists|body: Seq<u8>|
                    #[trigger] lz4_written(zero_bytes((2 * data@.len()) as nat), body, data@)
                        && body.len() + 8 > u32::MAX,
            },
    {
        let n = data.len();
        let mut input = data.clone();
        assert(input@ == data@);
        let mut compressed = zeroed(n * 2);
        let ghost before = compressed@;
        assert(before =~= zero_bytes((2 * data@.len()) as nat));
        match self.compress_internal(&mut input, &mut compressed) {
            Ok(()) => {
                if compressed.len() > 0xFFFF_FFF7 {
                    assert(lz4_written(zero_bytes((2 * data@.len()) as nat), compressed@, data@)
                        && compressed@.len() + 8 > u32::MAX);
                    Err(LzError::TooLarge)
                } else {
                    let v = lz_frame_bytes(n as u32, compressed.as_slice());
                    assert(lz4_written(before, compressed@, data@));
                    assert(v@ == spec_frame_bytes(data@.len() as u32, compressed@));
                    assert(lz4_written(zero_bytes((2 * data@.len()) as nat), compressed@, data@)
                        && compressed@.len() + 8 <= u32::MAX && v@ == spec_frame_bytes(
                        data@.len() as u32,
                        compressed@,
                    ));
                    Ok(v)
                }
            },
            Err(e) => Err(e),
        }
    }
}

/// A buffer with an LZ4 frame of `x` written over its start decodes to `x`.
pub proof fn lemma_lz4_written_decodes(before: Seq<u8>, after: Seq<u8>, x: Seq<u8>)
    requires
        lz4_written(before, after, x),
    ensures
        lz4_decodes(after),
        lz4_decoded(after) == x,
{
    let k = choose|k: int|
        0 <= k <= after.len() && after == overlay(before, #[trigger] after.take(k)) && lz4_frame_of(
            x,
            after.take(k),
        );
    let fr = after.take(k);
    let t = after.skip(k);
    assert(fr + t =~= after);
    assert(lz4_decodes(fr + t));
}

/// Round trip of the `lz` subcommand's LZ4 codec: decompressing a framed file that its
/// compression may write for `x` gives back `x`.
pub proof fn lemma_lz4_file_roundtrip(x: Seq<u8>, f: Seq<u8>)
    requires
        x.len() <= 0x7FFF_FFF0,
        lz4_file_of(x, f),
    ensures
        spec_lz4_decompress_file(f) == Ok::<Seq<u8>, LzError>(x),
{
    let zeros = zero_bytes((2 * x.len()) as nat);
    let body = choose|body: Seq<u8>|
        lz4_written(zeros, body, x) && body.len() + 8 <= u32::MAX && f == #[trigger] spec_frame_bytes(
            x.len() as u32,
            body,
        );
    lemma_frame_roundtrip(x.len() as u32, body);
    lemma_lz4_written_decodes(zeros, body, x);
    assert(overlay(Seq::new(x.len() as u32 as nat, |j: int| 0u8), x) =~= x);
}

} // verus!
