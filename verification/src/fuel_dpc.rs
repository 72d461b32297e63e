//! FUEL's BigFile (DPC) layout: sector padding, the fixed-size records, and what the
//! backend does to an object file's bytes.
//!
//! Every record is little-endian. A DPC is made of 2048-byte sectors.
use vstd::prelude::*;
use crate::bytes::{le32_bytes, words_bytes, words_at, read_words, push_words, push_le_u32, push_bytes, push_prefix, lemma_words_roundtrip, lemma_words_bytes_len, lemma_words_at_bytes};
use crate::lz::{LzError, LzssDecoded, spec_lzss_decode, lzss_decompress_checked, lemma_decode_extend};
use crate::lz_opt::{spec_lzss_compress_optimized, spec_lzss_optimized_fit, lzss_compress_optimized_checked, lemma_lzss_optimized_roundtrip};
use crate::lz::CompressFit;
use crate::codec::{zero_filled, zeroed};

verus! {

/// `x` rounded up to a whole number of 2048-byte sectors.
pub open spec fn spec_padded(x: int) -> int {
    ((x + 2047) / 2048) * 2048
}

/// The size of `unpadded_size` bytes rounded up to whole sectors.
pub fn calculate_padded_size(unpadded_size: u32) -> (r: u32)
    requires
        unpadded_size <= 0xFFFF_F800,
    ensures
        r == spec_padded(unpadded_size as int),
        r % 2048 == 0,
        unpadded_size <= r < unpadded_size + 2048,
{
    let y: u32 = unpadded_size + 0x7ff;
    let r: u32 = y & 0xfffff800u32;
    assert(y & 0xfffff800u32 == (y / 2048) * 2048) by (bit_vector);
    r
}

/// How many bytes of padding bring `unpadded_size` bytes to whole sectors.
pub fn calculate_padding_size(unpadded_size: u32) -> (r: u32)
    requires
        unpadded_size <= 0xFFFF_F800,
    ensures
        r == spec_padded(unpadded_size as int) - unpadded_size,
        r < 2048,
        (unpadded_size + r) % 2048 == 0,
{
    calculate_padded_size(unpadded_size) - unpadded_size
}

/// Padding a whole number of sectors adds nothing.
pub proof fn lemma_padded_aligned(x: int)
    requires
        x >= 0,
        x % 2048 == 0,
    ensures
        spec_padded(x) == x,
{
}

/// What `k` bytes read at `p` from a file holding `f` fill a zeroed buffer with.
pub open spec fn read_at(f: Seq<u8>, p: int, k: nat) -> Seq<u8> {
    Seq::new(k, |j: int| if 0 <= p + j < f.len() { f[p + j] } else { 0u8 })
}

/// Where a file holding `f` stands after `k` bytes are read at `p`.
pub open spec fn after_read(f: Seq<u8>, p: int, k: int) -> int {
    if p + k <= f.len() {
        p + k
    } else if p <= f.len() {
        f.len() as int
    } else {
        p
    }
}

/// Reads `k` bytes at `p` of the file `f` into a zeroed buffer, as a file read does, and
/// returns them with the position after the read.
pub fn read_file_at(f: &[u8], p: usize, k: usize) -> (r: (Vec<u8>, usize))
    ensures
        r.0@ == read_at(f@, p as int, k as nat),
        r.1 == after_read(f@, p as int, k as int),
{
    let mut out: Vec<u8> = Vec::new();
    let mut j: usize = 0;
    while j < k
        invariant
            j <= k,
            out@.len() == j,
            forall|i: int| 0 <= i < j ==> out@[i] == (if 0 <= p + i < f@.len() { f@[p + i] } else { 0u8 }),
        decreases k - j,
    {
        if p < f.len() && j < f.len() - p {
            out.push(f[p + j]);
        } else {
            out.push(0);
        }
        j = j + 1;
    }
    assert(out@ =~= read_at(f@, p as int, k as nat));
    let q = if p < f.len() && k <= f.len() - p {
        p + k
    } else if p <= f.len() {
        f.len()
    } else {
        p
    };
    (out, q)
}

/// The 24-byte header in front of every object.
#[derive(Clone, Copy, Debug, PartialEq, Eq, Structural)]
pub struct ObjectHeader {
    pub data_size: u32,
    pub class_object_size: u32,
    pub decompressed_size: u32,
    pub compressed_size: u32,
    pub class_crc32: u32,
    pub crc32: u32,
}

impl ObjectHeader {
    /// The header's fields, in the order they are stored.
    pub open spec fn words(self) -> Seq<u32> {
        seq![
            self.data_size,
            self.class_object_size,
            self.decompressed_size,
            self.compressed_size,
            self.class_crc32,
            self.crc32,
        ]
    }

    /// The header whose fields are the words `w`.
    pub open spec fn from_words(w: Seq<u32>) -> ObjectHeader {
        ObjectHeader {
            data_size: w[0],
            class_object_size: w[1],
            decompressed_size: w[2],
            compressed_size: w[3],
            class_crc32: w[4],
            crc32: w[5],
        }
    }

    /// The header's 24 bytes.
    pub open spec fn spec_bytes(self) -> Seq<u8> {
        words_bytes(self.words())
    }

    /// The header stored in the 24 bytes of `s` at `off`.
    pub open spec fn spec_at(s: Seq<u8>, off: int) -> ObjectHeader {
        ObjectHeader::from_words(words_at(s, off, 6))
    }

    /// Reads the header stored at `off` in `buf`.
    pub fn read(buf: &[u8], off: usize) -> (r: ObjectHeader)
        requires
            off + 24 <= buf@.len(),
        ensures
            r == ObjectHeader::spec_at(buf@, off as int),
    {
        let w = read_words(buf, off, 6);
        ObjectHeader {
            data_size: w[0],
            class_object_size: w[1],
            decompressed_size: w[2],
            compressed_size: w[3],
            class_crc32: w[4],
            crc32: w[5],
        }
    }

    /// Reads a header from the start of `buf`; `None` when `buf` holds fewer than 24 bytes.
    pub fn parse(buf: &[u8]) -> (r: Option<ObjectHeader>)
        ensures
            r is Some <==> buf@.len() >= 24,
            r is Some ==> r->0 == ObjectHeader::spec_at(buf@, 0),
    {
        if buf.len() < 24 {
            None
        } else {
            Some(ObjectHeader::read(buf, 0))
        }
    }

    /// Appends the header's 24 bytes to `out`.
    pub fn write(&self, out: &mut Vec<u8>)
        ensures
            final(out)@ == old(out)@ + self.spec_bytes(),
    {
        let w: [u32; 6] = [
            self.data_size,
            self.class_object_size,
            self.decompressed_size,
            self.compressed_size,
            self.class_crc32,
            self.crc32,
        ];
        assert(w@ =~= self.words());
        push_words(out, w.as_slice());
    }
}

/// Round trip of the object header: reading back its bytes gives the header, and its
/// bytes are 24.
pub proof fn lemma_object_header_roundtrip(h: ObjectHeader)
    ensures
        h.spec_bytes().len() == 24,
        ObjectHeader::spec_at(h.spec_bytes(), 0) == h,
{
    lemma_words_bytes_len(h.words());
    lemma_words_roundtrip(h.words());
    let w = words_at(h.spec_bytes(), 0, 6);
    assert(w[0] == h.words()[0]);
    assert(w[1] == h.words()[1]);
    assert(w[2] == h.words()[2]);
    assert(w[3] == h.words()[3]);
    assert(w[4] == h.words()[4]);
    assert(w[5] == h.words()[5]);
}

/// Writing back a header read from `s` gives the 24 bytes it was read from.
pub proof fn lemma_object_header_bytes(s: Seq<u8>, off: int)
    requires
        0 <= off,
        off + 24 <= s.len(),
    ensures
        ObjectHeader::spec_at(s, off).spec_bytes() == s.subrange(off, off + 24),
{
    lemma_words_at_bytes(s, off, 6);
    assert(ObjectHeader::spec_at(s, off).words() =~= words_at(s, off, 6));
}

/// Why the backend could not do what it was asked.
#[derive(Debug, Clone, Copy, PartialEq, Eq, Structural)]
pub enum DpcError {
    /// The input ends before a record it must hold.
    Truncated,
    /// A string field is not valid UTF-8.
    InvalidUtf8,
    /// The header lists more than 64 blocks.
    TooManyBlocks,
    /// A size computed from the input does not fit its 32-bit field, or a size is smaller
    /// than the part of it that it must hold.
    Overflow,
    /// An object is too large for the LZSS encoder (2 GiB or more): the encoder finds the
    /// start of its match window as a signed 32-bit position, which holds positions below
    /// 2^31 only, so from there on the window it searches is not the one its packets can
    /// reach.
    TooLarge,
    /// The LZSS coder failed.
    Lz(LzError),
    /// A record's fields contradict each other.
    Invalid,
}

/// The header of an object file holding `f`, read into a zeroed 24-byte buffer.
pub open spec fn file_header(f: Seq<u8>) -> ObjectHeader {
    ObjectHeader::spec_at(read_at(f, 0, 24), 0)
}

/// Where an object file holding `f` stands after its header is read.
pub open spec fn after_header(f: Seq<u8>) -> int {
    after_read(f, 0, 24)
}

/// `h` with new compressed and data sizes.
pub open spec fn with_sizes(h: ObjectHeader, data_size: u32, compressed_size: u32) -> ObjectHeader {
    ObjectHeader {
        data_size: data_size,
        class_object_size: h.class_object_size,
        decompressed_size: h.decompressed_size,
        compressed_size: compressed_size,
        class_crc32: h.class_crc32,
        crc32: h.crc32,
    }
}

/// What compressing the object file `f` gives: its header with the compressed size (the
/// stream's length plus the eight bytes of the stream's own header) and the new data size,
/// its class object, then the decompressed and compressed sizes and the stream written by
/// the exhaustive encoder into a buffer of twice the decompressed size.
pub open spec fn spec_compress_object(f: Seq<u8>) -> Result<Seq<u8>, DpcError> {
    let h = file_header(f);
    let p0 = after_header(f);
    let class = read_at(f, p0, h.class_object_size as nat);
    let p1 = after_read(f, p0, h.class_object_size as int);
    let data = read_at(f, p1, h.decompressed_size as nat);
    let stream = spec_lzss_compress_optimized(data);
    let csize = stream.len() + 8;
    if h.decompressed_size >= 0x8000_0000 {
        Err(DpcError::TooLarge)
    } else {
        match spec_lzss_optimized_fit(data, 2 * h.decompressed_size) {
            CompressFit::Overflow => Err(DpcError::Lz(LzError::WriteZero)),
            CompressFit::FlagOutOfBounds => Err(DpcError::Lz(LzError::FlagOutOfBounds)),
            CompressFit::Fits => if h.class_object_size + csize > u32::MAX {
                Err(DpcError::Overflow)
            } else {
                Ok(with_sizes(h, (h.class_object_size + csize) as u32, csize as u32).spec_bytes()
                    + class + le32_bytes(h.decompressed_size) + le32_bytes(csize as u32) + stream)
            },
        }
    }
}

/// What decoding `comp` into a zeroed buffer of `n` bytes leaves there.
pub open spec fn spec_decoded_buffer(comp: Seq<u8>, n: u32) -> Result<Seq<u8>, DpcError> {
    match spec_lzss_decode(comp, n as int, n as int, false) {
        LzssDecoded::Done(out) => Ok(zero_filled(out, n as nat)),
        LzssDecoded::Overflow(_) => Err(DpcError::Lz(LzError::WriteZero)),
        LzssDecoded::Malformed => Err(DpcError::Lz(LzError::Malformed)),
    }
}

/// What decompressing the object file `f` gives: its header with no compressed size and the
/// new data size, its class object, then the stream (read past its eight-byte header, for
/// the compressed size's worth of bytes) decoded into a zeroed buffer of the decompressed
/// size.
pub open spec fn spec_decompress_object(f: Seq<u8>) -> Result<Seq<u8>, DpcError> {
    let h = file_header(f);
    let p0 = after_header(f);
    let class = read_at(f, p0, h.class_object_size as nat);
    let p1 = after_read(f, p0, h.class_object_size as int);
    let comp = read_at(f, p1 + 8, h.compressed_size as nat);
    match spec_decoded_buffer(comp, h.decompressed_size) {
        Err(e) => Err(e),
        Ok(data) => if h.class_object_size + h.decompressed_size > u32::MAX {
            Err(DpcError::Overflow)
        } else {
            Ok(with_sizes(h, (h.class_object_size + h.decompressed_size) as u32, 0).spec_bytes()
                + class + data)
        },
    }
}

/// Reads the object header at the start of the object file `f`, and where the file stands
/// after it.
pub(crate) fn read_file_header(f: &[u8]) -> (r: (ObjectHeader, usize))
    ensures
        r.0 == file_header(f@),
        r.1 == after_header(f@),
        r.1 <= 24,
{
    let (hb, p0) = read_file_at(f, 0, 24);
    (ObjectHeader::read(hb.as_slice(), 0), p0)
}

/// Compresses the object file `file`, which must not be compressed already, with the
/// exhaustive LZSS encoder.
pub fn compress_object_bytes(file: &[u8]) -> (r: Result<Vec<u8>, DpcError>)
    requires
        file_header(file@).compressed_size == 0,
    ensures
        match r {
            Ok(v) => spec_compress_object(file@) == Ok::<Seq<u8>, DpcError>(v@),
            Err(e) => spec_compress_object(file@) == Err::<Seq<u8>, DpcError>(e),
        },
{
    let (h, p0) = read_file_header(file);
    let (class, p1) = read_file_at(file, p0, h.class_object_size as usize);
    if h.decompressed_size >= 0x8000_0000 {
        return Err(DpcError::TooLarge);
    }
    let dsize = h.decompressed_size as usize;
    let (data, _p2) = read_file_at(file, p1, dsize);
    assert(data@.take(dsize as int) =~= data@);
    let mut buf = zeroed(2 * dsize);
    let ghost before = buf@;
    assert(data@.take(dsize as int) == data@);
    let r = lzss_compress_optimized_checked(data.as_slice(), dsize, buf.as_mut_slice());
    let ghost stream = spec_lzss_compress_optimized(data@);
    let ghost fit = spec_lzss_optimized_fit(data@, before.len() as int);
    match r {
        Ok(len) => {
            assert(fit is Fits);
            assert(buf@ == stream + before.skip(stream.len() as int));
            assert(len == stream.len());
            assert(buf@.take(len as int) =~= stream);
            if len > 0xFFFF_FFF7 || (len as u32 + 8) > 0xFFFF_FFFF - h.class_object_size {
                return Err(DpcError::Overflow);
            }
            let csize: u32 = len as u32 + 8;
            let h2 = ObjectHeader {
                data_size: h.class_object_size + csize,
                class_object_size: h.class_object_size,
                decompressed_size: h.decompressed_size,
                compressed_size: csize,
                class_crc32: h.class_crc32,
                crc32: h.crc32,
            };
            let mut out: Vec<u8> = Vec::new();
            h2.write(&mut out);
            push_bytes(&mut out, class.as_slice());
            push_le_u32(&mut out, h.decompressed_size);
            push_le_u32(&mut out, csize);
            push_prefix(&mut out, buf.as_slice(), len);
            Ok(out)
        },
        Err(e) => Err(DpcError::Lz(e)),
    }
}

/// Decodes `comp` into a zeroed buffer of `n` bytes.
pub fn decode_into_zeroed(comp: &[u8], n: u32) -> (r: Result<Vec<u8>, DpcError>)
    ensures
        match r {
            Ok(v) => spec_decoded_buffer(comp@, n) == Ok::<Seq<u8>, DpcError>(v@),
            Err(e) => spec_decoded_buffer(comp@, n) == Err::<Seq<u8>, DpcError>(e),
        },
{
    let mut buf = zeroed(n as usize);
    let ghost before = buf@;
    match lzss_decompress_checked(comp, buf.as_mut_slice(), n as usize, false) {
        Ok(_) => {
            proof {
                let out = spec_lzss_decode(comp@, n as int, n as int, false)->Done_0;
                assert(buf@ =~= zero_filled(out, n as nat));
            }
            Ok(buf)
        },
        Err(e) => Err(DpcError::Lz(e)),
    }
}

/// Decompresses the object file `file`, which must be compressed.
pub fn decompress_object_bytes(file: &[u8]) -> (r: Result<Vec<u8>, DpcError>)
    requires
        file_header(file@).compressed_size != 0,
    ensures
        match r {
            Ok(v) => spec_decompress_object(file@) == Ok::<Seq<u8>, DpcError>(v@),
            Err(e) => spec_decompress_object(file@) == Err::<Seq<u8>, DpcError>(e),
        },
{
    let (h, p0) = read_file_header(file);
    let (class, p1) = read_file_at(file, p0, h.class_object_size as usize);
    let p2 = if file.len() >= 8 && p1 <= file.len() - 8 {
        p1 + 8
    } else {
        file.len()
    };
    assert(read_at(file@, p2 as int, h.compressed_size as nat) =~= read_at(
        file@,
        p1 + 8,
        h.compressed_size as nat,
    ));
    let (comp, _p2) = read_file_at(file, p2, h.compressed_size as usize);
    let data = match decode_into_zeroed(comp.as_slice(), h.decompressed_size) {
        Ok(d) => d,
        Err(e) => return Err(e),
    };
    if h.decompressed_size > 0xFFFF_FFFF - h.class_object_size {
        return Err(DpcError::Overflow);
    }
    let h2 = ObjectHeader {
        data_size: h.class_object_size + h.decompressed_size,
        class_object_size: h.class_object_size,
        decompressed_size: h.decompressed_size,
        compressed_size: 0,
        class_crc32: h.class_crc32,
        crc32: h.crc32,
    };
    let mut out: Vec<u8> = Vec::new();
    h2.write(&mut out);
    push_bytes(&mut out, class.as_slice());
    push_bytes(&mut out, data.as_slice());
    Ok(out)
}

/// What splitting the object file `f` gives: its class object, and the rest of its data.
pub open spec fn spec_split_object(f: Seq<u8>) -> (Seq<u8>, Seq<u8>) {
    let h = file_header(f);
    let p0 = after_header(f);
    let p1 = after_read(f, p0, h.class_object_size as int);
    (
        read_at(f, p0, h.class_object_size as nat),
        read_at(f, p1, (h.data_size - h.class_object_size) as nat),
    )
}

/// Splits the object file `file`, whose data size is at least its class object size, into
/// its class object and the rest of its data.
pub fn split_object_bytes(file: &[u8]) -> (r: (Vec<u8>, Vec<u8>))
    requires
        file_header(file@).data_size >= file_header(file@).class_object_size,
    ensures
        spec_split_object(file@) == (r.0@, r.1@),
{
    let (h, p0) = read_file_header(file);
    let (class, p1) = read_file_at(file, p0, h.class_object_size as usize);
    let (data, _p2) = read_file_at(file, p1, (h.data_size - h.class_object_size) as usize);
    (class, data)
}

/// What an object file `f` holds for its format's parser: its header, its class object,
/// and its data, decoded when it is compressed.
pub open spec fn spec_object_payload(f: Seq<u8>) -> Result<(ObjectHeader, Seq<u8>, Seq<u8>), DpcError> {
    let h = file_header(f);
    let p0 = after_header(f);
    let class = read_at(f, p0, h.class_object_size as nat);
    let p1 = after_read(f, p0, h.class_object_size as int);
    if h.compressed_size != 0 {
        match spec_decoded_buffer(read_at(f, p1, h.compressed_size as nat), h.decompressed_size) {
            Ok(data) => Ok((h, class, data)),
            Err(e) => Err(e),
        }
    } else {
        Ok((h, class, read_at(f, p1, h.decompressed_size as nat)))
    }
}

/// An object file's parts, as its format's parser takes them.
pub struct ObjectPayload {
    pub header: ObjectHeader,
    pub class_object: Vec<u8>,
    pub data: Vec<u8>,
}

/// Reads the object file `file` for its format's parser.
pub fn object_payload(file: &[u8]) -> (r: Result<ObjectPayload, DpcError>)
    ensures
        match r {
            Ok(p) => spec_object_payload(file@) == Ok::<(ObjectHeader, Seq<u8>, Seq<u8>), DpcError>(
                (p.header, p.class_object@, p.data@),
            ),
            Err(e) => spec_object_payload(file@) == Err::<(ObjectHeader, Seq<u8>, Seq<u8>), DpcError>(e),
        },
{
    let (h, p0) = read_file_header(file);
    let (class, p1) = read_file_at(file, p0, h.class_object_size as usize);
    if h.compressed_size != 0 {
        let (comp, _p2) = read_file_at(file, p1, h.compressed_size as usize);
        match decode_into_zeroed(comp.as_slice(), h.decompressed_size) {
            Ok(data) => Ok(ObjectPayload { header: h, class_object: class, data: data }),
            Err(e) => Err(e),
        }
    } else {
        let (data, _p2) = read_file_at(file, p1, h.decompressed_size as usize);
        Ok(ObjectPayload { header: h, class_object: class, data: data })
    }
}

/// The object header of `f` depends only on its first 24 bytes.
pub proof fn lemma_file_header_prefix(f: Seq<u8>)
    requires
        f.len() >= 24,
    ensures
        file_header(f) == ObjectHeader::spec_at(f, 0),
        after_header(f) == 24,
        read_at(f, 0, 24) == f.take(24),
{
    assert(read_at(f, 0, 24) =~= f.take(24));
    assert(words_at(read_at(f, 0, 24), 0, 6) =~= words_at(f, 0, 6));
}

/// An object file as the backend writes it: its header says it is not compressed, its data
/// size is its class object and its decompressed data, and it holds exactly those bytes.
pub open spec fn plain_object_file(f: Seq<u8>) -> bool {
    let h = file_header(f);
    &&& h.compressed_size == 0
    &&& h.data_size == h.class_object_size + h.decompressed_size
    &&& f.len() == 24 + h.class_object_size + h.decompressed_size
}

/// Round trip of an object file: decompressing the compression of an uncompressed object
/// file with data gives back the file.
#[verifier::rlimit(50)]
#[verifier::spinoff_prover]
pub proof fn lemma_compress_object_roundtrip(f: Seq<u8>)
    requires
        plain_object_file(f),
        file_header(f).decompressed_size > 0,
        spec_compress_object(f) is Ok,
    ensures
        spec_decompress_object(spec_compress_object(f)->Ok_0) == Ok::<Seq<u8>, DpcError>(f),
{
    let h = file_header(f);
    lemma_file_header_prefix(f);
    let cls = h.class_object_size as int;
    let dsize = h.decompressed_size as int;
    let class = read_at(f, 24, cls as nat);
    let data = read_at(f, 24 + cls, dsize as nat);
    assert(class =~= f.subrange(24, 24 + cls));
    assert(data =~= f.subrange(24 + cls, 24 + cls + dsize));
    let stream = spec_lzss_compress_optimized(data);
    let csize = stream.len() + 8;
    let h2 = with_sizes(h, (cls + csize) as u32, csize as u32);
    let g = h2.spec_bytes() + class + le32_bytes(h.decompressed_size) + le32_bytes(csize as u32)
        + stream;
    assert(spec_compress_object(f)->Ok_0 == g);
    lemma_object_header_roundtrip(h2);
    assert(g.take(24) =~= h2.spec_bytes());
    lemma_file_header_prefix(g);
    assert(words_at(g, 0, 6) =~= words_at(h2.spec_bytes(), 0, 6));
    assert(file_header(g) == h2);
    assert(read_at(g, 24, cls as nat) =~= class);
    assert(after_read(g, 24, cls) == 24 + cls);
    let zeros8 = Seq::new(8, |j: int| 0u8);
    assert(read_at(g, 24 + cls + 8, csize as nat) =~= stream + zeros8);
    lemma_lzss_optimized_roundtrip(data, dsize);
    lemma_decode_extend(stream, zeros8, 0, Seq::empty(), 0, 0, 0, dsize, dsize, false);
    assert(zero_filled(data, dsize as nat) =~= data);
    let h3 = with_sizes(h2, (cls + dsize) as u32, 0);
    assert(h3 == h);
    lemma_object_header_bytes(f, 0);
    assert(h.spec_bytes() + class + data =~= f);
}

} // verus!
