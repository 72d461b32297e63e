//! Writing a DPC from an extracted directory: what goes into the blocks and the pool for
//! each object file, the block descriptions, and the primary header's fields.
use vstd::prelude::*;
use crate::bytes::{le32_bytes, push_bytes, push_le_u32, push_prefix, push_fill};
use crate::base_dpc::Options;
use crate::fuel_dpc::{ObjectHeader, DpcError, read_at, after_read, file_header, after_header, read_file_at, spec_padded, calculate_padded_size, calculate_padding_size, with_sizes};
use crate::lz::{LzError, CompressFit};
use crate::lz_opt::{spec_lzss_compress_optimized, spec_lzss_optimized_fit, lzss_compress_optimized_checked};
use crate::layout::BlockDescription;
use crate::header::{PrimaryHeader, filled};
use crate::manifest::ManifestHeader;
use crate::codec::{zeroed, zero_filled};
use crate::extract::{BlockObjectModel, spec_block_object_at, spec_block_objects, spec_extract_object};
use crate::fuel_dpc::{plain_object_file, lemma_file_header_prefix, lemma_object_header_roundtrip, lemma_object_header_bytes, spec_decoded_buffer};
use crate::lz_opt::lemma_lzss_optimized_roundtrip;
use crate::bytes::words_at;

verus! {

/// The FUEL backend and its settings.
pub struct FuelDPC {
    pub options: Options,
    pub unoptimized_pool: bool,
    pub no_pool: bool,
}

impl FuelDPC {
    /// The backend with the main options and its own two: keep the pool manifest as it is,
    /// and move the pool's objects into the blocks.
    pub fn new(options: &Options, unoptimized_pool: bool, no_pool: bool) -> (r: FuelDPC)
        ensures
            r.options == *options,
            r.unoptimized_pool == unoptimized_pool,
            r.no_pool == no_pool,
    {
        FuelDPC { options: *options, unoptimized_pool: unoptimized_pool, no_pool: no_pool }
    }

    /// Creating with LZ compression needs the optimizing encoder: without it, creation is
    /// refused.
    pub fn refuses_lz_without_optimization(&self) -> (r: bool)
        ensures
            r == (self.options.is_lz && !self.options.is_optimization),
    {
        self.options.is_lz && !self.options.is_optimization
    }

    /// Whether the pool's reference records are deduplicated.
    pub fn optimizes_pool(&self) -> (r: bool)
        ensures
            r == (self.options.is_optimization && !self.unoptimized_pool),
    {
        self.options.is_optimization && !self.unoptimized_pool
    }

    /// Whether an object the manifest marks `compress`, whose file holds `compressed_size`,
    /// is compressed on the way into the DPC.
    pub fn compresses(&self, compress: bool, compressed_size: u32) -> (r: bool)
        ensures
            r == (compress && compressed_size == 0 && self.options.is_lz && self.options.is_optimization),
    {
        compress && compressed_size == 0 && self.options.is_lz && self.options.is_optimization
    }

    /// Whether a DPC whose version string is `known` (or not) is refused.
    pub fn refuses_version(&self, known: bool) -> (r: bool)
        ensures
            r == (!known && !self.options.is_unsafe),
    {
        !known && !self.options.is_unsafe
    }

    /// Whether a manifest with a pool is refused (pools are written only when unsafe
    /// operation is asked for, unless the pool is moved into the blocks).
    pub fn refuses_pool(&self, has_pool: bool) -> (r: bool)
        ensures
            r == (has_pool && !self.no_pool && !self.options.is_unsafe),
    {
        has_pool && !self.no_pool && !self.options.is_unsafe
    }
}

/// The stream header, the compressed size, the new data size and the stream that the
/// exhaustive encoder writes for `data` into a buffer of twice its length.
pub open spec fn spec_compressed_data(data: Seq<u8>) -> Result<(u32, Seq<u8>), DpcError> {
    let stream = spec_lzss_compress_optimized(data);
    if data.len() >= 0x8000_0000 {
        Err(DpcError::TooLarge)
    } else {
        match spec_lzss_optimized_fit(data, (2 * data.len()) as int) {
            CompressFit::Overflow => Err(DpcError::Lz(LzError::WriteZero)),
            CompressFit::FlagOutOfBounds => Err(DpcError::Lz(LzError::FlagOutOfBounds)),
            CompressFit::Fits => if stream.len() + 8 > u32::MAX {
                Err(DpcError::Overflow)
            } else {
                Ok(((stream.len() + 8) as u32, stream))
            },
        }
    }
}

/// Compressing data of four bytes or more, under 2 GiB, succeeds: the encoding fits the
/// buffer of twice the data's length.
pub proof fn lemma_compressed_data_ok(data: Seq<u8>)
    requires
        4 <= data.len() < 0x8000_0000,
    ensures
        spec_compressed_data(data) is Ok,
{
    crate::lz_opt::lemma_lzss_optimized_fits(data);
    crate::lz_opt::lemma_lzss_optimized_size(data);
    assert(4 * ((data.len() + 29) / 30) <= data.len());
}

/// Compresses `data` with the exhaustive encoder into a buffer of twice its length: the
/// compressed size (the stream's length plus eight) and the stream.
fn compress_data(data: &Vec<u8>) -> (r: Result<(u32, Vec<u8>), DpcError>)
    ensures
        match r {
            Ok((c, s)) => spec_compressed_data(data@) == Ok::<(u32, Seq<u8>), DpcError>((c, s@)),
            Err(e) => spec_compressed_data(data@) == Err::<(u32, Seq<u8>), DpcError>(e),
        },
{
    let n = data.len();
    if n >= 0x8000_0000 {
        return Err(DpcError::TooLarge);
    }
    let mut buf = zeroed(2 * n);
    let ghost before = buf@;
    assert(data@.take(n as int) =~= data@);
    let r = lzss_compress_optimized_checked(data.as_slice(), n, buf.as_mut_slice());
    match r {
        Ok(len) => {
            let ghost stream = spec_lzss_compress_optimized(data@);
            assert(spec_lzss_optimized_fit(data@, before.len() as int) is Fits);
            if len > 0xFFFF_FFF7 {
                return Err(DpcError::Overflow);
            }
            let mut s: Vec<u8> = Vec::new();
            push_prefix(&mut s, buf.as_slice(), len);
            assert(s@ =~= stream);
            Ok((len as u32 + 8, s))
        },
        Err(e) => Err(DpcError::Lz(e)),
    }
}

/// What a block gets for an object file `f` that is not in the pool: when it is to be
/// compressed, its header with the new sizes, its class object, the decompressed and
/// compressed sizes and the stream; otherwise its header and its data size's worth of bytes.
pub open spec fn spec_pack_block_object(f: Seq<u8>, compress: bool) -> Result<Seq<u8>, DpcError> {
    let h = file_header(f);
    let p0 = after_header(f);
    if compress {
        let class = read_at(f, p0, h.class_object_size as nat);
        let p1 = after_read(f, p0, h.class_object_size as int);
        let data = read_at(f, p1, h.decompressed_size as nat);
        match spec_compressed_data(data) {
            Err(e) => Err(e),
            Ok((csize, stream)) => if h.class_object_size + csize > u32::MAX {
                Err(DpcError::Overflow)
            } else {
                Ok(with_sizes(h, (h.class_object_size + csize) as u32, csize).spec_bytes() + class
                    + le32_bytes(h.decompressed_size) + le32_bytes(csize) + stream)
            },
        }
    } else {
        Ok(h.spec_bytes() + read_at(f, p0, h.data_size as nat))
    }
}

/// The bytes a block gets for the object file `file` of an object outside the pool; with
/// `compress`, its data is compressed on the way.
pub fn pack_block_object(file: &[u8], compress: bool) -> (r: Result<Vec<u8>, DpcError>)
    ensures
        match r {
            Ok(v) => spec_pack_block_object(file@, compress) == Ok::<Seq<u8>, DpcError>(v@),
            Err(e) => spec_pack_block_object(file@, compress) == Err::<Seq<u8>, DpcError>(e),
        },
{
    let (hb, p0) = read_file_at(file, 0, 24);
    let h = ObjectHeader::read(hb.as_slice(), 0);
    let mut out: Vec<u8> = Vec::new();
    if compress {
        let (class, p1) = read_file_at(file, p0, h.class_object_size as usize);
        let (data, _p2) = read_file_at(file, p1, h.decompressed_size as usize);
        let (csize, stream) = match compress_data(&data) {
            Ok(x) => x,
            Err(e) => return Err(e),
        };
        if csize > 0xFFFF_FFFF - h.class_object_size {
            return Err(DpcError::Overflow);
        }
        let h2 = ObjectHeader {
            data_size: h.class_object_size + csize,
            class_object_size: h.class_object_size,
            decompressed_size: h.decompressed_size,
            compressed_size: csize,
            class_crc32: h.class_crc32,
            crc32: h.crc32,
        };
        h2.write(&mut out);
        push_bytes(&mut out, class.as_slice());
        push_le_u32(&mut out, h.decompressed_size);
        push_le_u32(&mut out, csize);
        push_bytes(&mut out, stream.as_slice());
    } else {
        let (data, _p1) = read_file_at(file, p0, h.data_size as usize);
        h.write(&mut out);
        push_bytes(&mut out, data.as_slice());
    }
    Ok(out)
}

/// What a block gets for the object file `f` of a pool object: its header with only the
/// class object left, and the class object.
pub open spec fn spec_pack_pool_reference(f: Seq<u8>) -> Seq<u8> {
    let h = file_header(f);
    let class = read_at(f, after_header(f), h.class_object_size as nat);
    ObjectHeader {
        data_size: h.class_object_size,
        class_object_size: h.class_object_size,
        decompressed_size: 0,
        compressed_size: 0,
        class_crc32: h.class_crc32,
        crc32: h.crc32,
    }.spec_bytes() + class
}

/// The bytes a block gets for the object file `file` of a pool object.
pub fn pack_pool_reference(file: &[u8]) -> (r: Vec<u8>)
    ensures
        r@ == spec_pack_pool_reference(file@),
{
    let (hb, p0) = read_file_at(file, 0, 24);
    let h = ObjectHeader::read(hb.as_slice(), 0);
    let (class, _p1) = read_file_at(file, p0, h.class_object_size as usize);
    let h2 = ObjectHeader {
        data_size: h.class_object_size,
        class_object_size: h.class_object_size,
        decompressed_size: 0,
        compressed_size: 0,
        class_crc32: h.class_crc32,
        crc32: h.crc32,
    };
    let mut out: Vec<u8> = Vec::new();
    h2.write(&mut out);
    push_bytes(&mut out, class.as_slice());
    out
}

/// The compressed object file written for a pool object to be compressed: its header with
/// the new sizes and no class object, the decompressed and compressed sizes, and the stream.
pub open spec fn spec_pack_pool_compressed(f: Seq<u8>) -> Result<Seq<u8>, DpcError> {
    let h = file_header(f);
    let p0 = after_header(f);
    let p1 = after_read(f, p0, h.class_object_size as int);
    let data = read_at(f, p1, h.decompressed_size as nat);
    match spec_compressed_data(data) {
        Err(e) => Err(e),
        Ok((csize, stream)) => Ok(
            ObjectHeader {
                data_size: csize,
                class_object_size: 0,
                decompressed_size: h.decompressed_size,
                compressed_size: csize,
                class_crc32: h.class_crc32,
                crc32: h.crc32,
            }.spec_bytes() + le32_bytes(h.decompressed_size) + le32_bytes(csize) + stream,
        ),
    }
}

/// The compressed object file written for the pool object whose file is `file`.
pub fn pack_pool_compressed(file: &[u8]) -> (r: Result<Vec<u8>, DpcError>)
    ensures
        match r {
            Ok(v) => spec_pack_pool_compressed(file@) == Ok::<Seq<u8>, DpcError>(v@),
            Err(e) => spec_pack_pool_compressed(file@) == Err::<Seq<u8>, DpcError>(e),
        },
{
    let (hb, p0) = read_file_at(file, 0, 24);
    let h = ObjectHeader::read(hb.as_slice(), 0);
    let (_class, p1) = read_file_at(file, p0, h.class_object_size as usize);
    let (data, _p2) = read_file_at(file, p1, h.decompressed_size as usize);
    let (csize, stream) = match compress_data(&data) {
        Ok(x) => x,
        Err(e) => return Err(e),
    };
    let h2 = ObjectHeader {
        data_size: csize,
        class_object_size: 0,
        decompressed_size: h.decompressed_size,
        compressed_size: csize,
        class_crc32: h.class_crc32,
        crc32: h.crc32,
    };
    let mut out: Vec<u8> = Vec::new();
    h2.write(&mut out);
    push_le_u32(&mut out, h.decompressed_size);
    push_le_u32(&mut out, csize);
    push_bytes(&mut out, stream.as_slice());
    Ok(out)
}

/// The sectors a pool object with header `h` takes: its header and its data past the class
/// object, rounded up to whole sectors.
pub open spec fn spec_pool_object_chunks(h: ObjectHeader) -> Result<u32, DpcError> {
    if h.data_size < h.class_object_size || 24 + h.data_size - h.class_object_size > 0xFFFF_F800 {
        Err(DpcError::Overflow)
    } else {
        Ok((spec_padded(24 + h.data_size - h.class_object_size) / 2048) as u32)
    }
}

/// The sectors a pool object with header `h` takes.
pub fn pool_object_chunks(h: ObjectHeader) -> (r: Result<u32, DpcError>)
    ensures
        match r {
            Ok(c) => spec_pool_object_chunks(h) == Ok::<u32, DpcError>(c),
            Err(e) => spec_pool_object_chunks(h) == Err::<u32, DpcError>(e),
        },
{
    if h.data_size < h.class_object_size || h.data_size - h.class_object_size > 0xFFFF_F800 - 24 {
        return Err(DpcError::Overflow);
    }
    let p = calculate_padded_size((h.data_size - h.class_object_size) + 24);
    assert(p >> 11u32 == p / 2048) by (bit_vector);
    Ok(p >> 11)
}

/// What the pool section gets for the object file `f`, written at file offset `pos`: the
/// header with the class object dropped and the data that follows it, then 0xFF bytes up
/// to the next sector; and the sectors its decompressed data takes.
pub open spec fn spec_pack_pool_object(f: Seq<u8>, pos: u32) -> Result<(Seq<u8>, u32), DpcError> {
    let h = file_header(f);
    let p0 = after_header(f);
    if h.decompressed_size > u32::MAX - 2047 || h.data_size < h.class_object_size {
        Err(DpcError::Overflow)
    } else {
        let size = (h.data_size - h.class_object_size) as u32;
        let data = read_at(f, p0 + h.class_object_size, size as nat);
        let end = pos + 24 + size;
        if end > 0xFFFF_F800 {
            Err(DpcError::Overflow)
        } else {
            Ok(
                (
                    ObjectHeader {
                        data_size: size,
                        class_object_size: 0,
                        decompressed_size: h.decompressed_size,
                        compressed_size: h.compressed_size,
                        class_crc32: h.class_crc32,
                        crc32: h.crc32,
                    }.spec_bytes() + data + filled(0xff, spec_padded(end) - end),
                    ((h.decompressed_size + 2047) / 2048) as u32,
                ),
            )
        }
    }
}

/// The bytes the pool section gets for the object file `file`, written at offset `pos`,
/// and the sectors its decompressed data takes.
pub fn pack_pool_object(file: &[u8], pos: u32) -> (r: Result<(Vec<u8>, u32), DpcError>)
    ensures
        match r {
            Ok((v, c)) => spec_pack_pool_object(file@, pos) == Ok::<(Seq<u8>, u32), DpcError>((v@, c)),
            Err(e) => spec_pack_pool_object(file@, pos) == Err::<(Seq<u8>, u32), DpcError>(e),
        },
{
    let (hb, p0) = read_file_at(file, 0, 24);
    let h = ObjectHeader::read(hb.as_slice(), 0);
    if h.decompressed_size > 0xFFFF_FFFF - 2047 || h.data_size < h.class_object_size {
        return Err(DpcError::Overflow);
    }
    let size = h.data_size - h.class_object_size;
    let start = if h.class_object_size as usize >= file.len() - p0 {
        file.len()
    } else {
        p0 + h.class_object_size as usize
    };
    assert(read_at(file@, start as int, size as nat) =~= read_at(
        file@,
        p0 + h.class_object_size,
        size as nat,
    ));
    let (data, _p1) = read_file_at(file, start, size as usize);
    if pos > 0xFFFF_F800 || size > 0xFFFF_F800 - pos || 24 > 0xFFFF_F800 - pos - size {
        return Err(DpcError::Overflow);
    }
    let end = pos + 24 + size;
    let h2 = ObjectHeader {
        data_size: size,
        class_object_size: 0,
        decompressed_size: h.decompressed_size,
        compressed_size: h.compressed_size,
        class_crc32: h.class_crc32,
        crc32: h.crc32,
    };
    let mut out: Vec<u8> = Vec::new();
    h2.write(&mut out);
    push_bytes(&mut out, data.as_slice());
    let pad = calculate_padding_size(end);
    push_fill(&mut out, 0xff, pad as usize);
    Ok((out, (h.decompressed_size + 2047) / 2048))
}

/// The description of a block of `object_count` objects, the first with crc32 `crc32`,
/// whose data takes `data_size` bytes and goes at `working_buffer_offset`.
pub fn describe_block(
    block_type: u32,
    object_count: u32,
    crc32: u32,
    data_size: u32,
    working_buffer_offset: u32,
) -> (r: BlockDescription)
    requires
        data_size <= 0xFFFF_F800,
    ensures
        r == (BlockDescription {
            block_type: block_type,
            object_count: object_count,
            padded_size: spec_padded(data_size as int) as u32,
            data_size: data_size,
            working_buffer_offset: working_buffer_offset,
            crc32: crc32,
        }),
{
    BlockDescription {
        block_type: block_type,
        object_count: object_count,
        padded_size: calculate_padded_size(data_size),
        data_size: data_size,
        working_buffer_offset: working_buffer_offset,
        crc32: crc32,
    }
}

/// The working buffer a block needs: its padded size past its offset.
pub open spec fn capacity(d: BlockDescription) -> int {
    d.padded_size + d.working_buffer_offset
}

/// The largest working buffer needed among the blocks with index `parity` modulo 2 among
/// the first `n`.
pub open spec fn max_capacity(ds: Seq<BlockDescription>, n: int, parity: int) -> int
    decreases n,
{
    if n <= 0 {
        0
    } else {
        let m = max_capacity(ds, n - 1, parity);
        if (n - 1) % 2 == parity && capacity(ds[n - 1]) > m {
            capacity(ds[n - 1])
        } else {
            m
        }
    }
}

/// The working buffer capacities for the even-numbered and the odd-numbered blocks: the
/// largest padded size past offset among each. `DpcError::Overflow` when one of them does
/// not fit 32 bits.
pub fn working_buffer_capacities(ds: &Vec<BlockDescription>) -> (r: Result<(u32, u32), DpcError>)
    ensures
        match r {
            Ok((even, odd)) => even == max_capacity(ds@, ds@.len() as int, 0) && odd == max_capacity(
                ds@,
                ds@.len() as int,
                1,
            ) && (forall|i: int| 0 <= i < ds@.len() ==> capacity(#[trigger] ds@[i]) <= u32::MAX),
            Err(e) => e == DpcError::Overflow && exists|i: int| 0 <= i < ds@.len() && capacity(#[trigger] ds@[i]) > u32::MAX,
        },
{
    let mut even: u32 = 0;
    let mut odd: u32 = 0;
    let mut i: usize = 0;
    while i < ds.len()
        invariant
            i <= ds@.len(),
            even == max_capacity(ds@, i as int, 0),
            odd == max_capacity(ds@, i as int, 1),
            forall|k: int| 0 <= k < i ==> capacity(#[trigger] ds@[k]) <= u32::MAX,
        decreases ds@.len() - i,
    {
        let d = ds[i];
        if d.padded_size > 0xFFFF_FFFF - d.working_buffer_offset {
            assert(capacity(ds@[i as int]) > u32::MAX);
            return Err(DpcError::Overflow);
        }
        let c = d.padded_size + d.working_buffer_offset;
        if i % 2 == 0 {
            if c > even {
                even = c;
            }
        } else {
            if c > odd {
                odd = c;
            }
        }
        i = i + 1;
    }
    Ok((even, odd))
}

/// The primary header of a new DPC: the manifest's header, the blocks, and the pool's
/// sizes in bytes. Without an IncrediBuild string, the padding sizes and the file size are
/// written as unknown (0xFFFFFFFF).
pub fn new_primary_header(
    header: &ManifestHeader,
    block_descriptions: Vec<BlockDescription>,
    capacities: (u32, u32),
    blocks_padded_size: u32,
    version: (u32, u32),
    pool_manifest_padded_size: u32,
    pool_manifest_offset: u32,
    pool_object_decompression_buffer_capacity: u32,
    block_sector_padding_size: u32,
    pool_sector_padding_size: u32,
    file_size: u32,
) -> (r: PrimaryHeader)
    ensures
        r.version_string@ == header.version_string@,
        r.is_not_rtc == (if header.is_rtc { 0u32 } else { 1u32 }),
        r.block_count == block_descriptions@.len() as u32,
        r.block_working_buffer_capacity_even == capacities.0,
        r.block_working_buffer_capacity_odd == capacities.1,
        r.padded_size == blocks_padded_size,
        r.version_patch == version.0,
        r.version_minor == version.1,
        r.block_descriptions@ == block_descriptions@,
        r.pool_manifest_padded_size == pool_manifest_padded_size,
        r.pool_manifest_offset == pool_manifest_offset,
        r.pool_manifest_unused0 == header.pool_manifest_unused,
        r.pool_manifest_unused1 == header.pool_manifest_unused,
        r.pool_object_decompression_buffer_capacity == pool_object_decompression_buffer_capacity,
        r.incredi_builder_string@ == header.incredi_builder_string@,
        header.incredi_builder_string@.len() == 0 ==> r.block_sector_padding_size == 0xFFFF_FFFF
            && r.pool_sector_padding_size == 0xFFFF_FFFF && r.file_size == 0xFFFF_FFFF,
        header.incredi_builder_string@.len() != 0 ==> r.block_sector_padding_size
            == block_sector_padding_size && r.pool_sector_padding_size == pool_sector_padding_size
            && r.file_size == file_size,
{
    let unknown = header.incredi_builder_string.len() == 0;
    let count = block_descriptions.len() as u32;
    PrimaryHeader {
        version_string: header.version_string.clone(),
        is_not_rtc: if header.is_rtc { 0 } else { 1 },
        block_count: count,
        block_working_buffer_capacity_even: capacities.0,
        block_working_buffer_capacity_odd: capacities.1,
        padded_size: blocks_padded_size,
        version_patch: version.0,
        version_minor: version.1,
        block_descriptions: block_descriptions,
        pool_manifest_padded_size: pool_manifest_padded_size,
        pool_manifest_offset: pool_manifest_offset,
        pool_manifest_unused0: header.pool_manifest_unused,
        pool_manifest_unused1: header.pool_manifest_unused,
        pool_object_decompression_buffer_capacity: pool_object_decompression_buffer_capacity,
        block_sector_padding_size: if unknown { 0xFFFF_FFFF } else { block_sector_padding_size },
        pool_sector_padding_size: if unknown { 0xFFFF_FFFF } else { pool_sector_padding_size },
        file_size: if unknown { 0xFFFF_FFFF } else { file_size },
        incredi_builder_string: header.incredi_builder_string.clone(),
    }
}

/// Extracting a block object without LZ decompression, then packing its file back without
/// compression, gives back the object's bytes in the block.
#[verifier::spinoff_prover]
pub proof fn lemma_block_object_repack(s: Seq<u8>, off: int)
    requires
        spec_block_object_at(s, off) is Ok,
    ensures
        ({
            let (o, next) = spec_block_object_at(s, off)->Ok_0;
            &&& spec_extract_object(o, false) is Ok
            &&& spec_pack_block_object(spec_extract_object(o, false)->Ok_0.1, false)
                == Ok::<Seq<u8>, DpcError>(s.subrange(off, next))
        }),
{
    let (o, next) = spec_block_object_at(s, off)->Ok_0;
    let h = o.header;
    let f = h.spec_bytes() + o.class_object + o.data;
    lemma_object_header_roundtrip(h);
    assert(f.take(24) =~= h.spec_bytes());
    lemma_file_header_prefix(f);
    assert(words_at(f, 0, 6) =~= words_at(h.spec_bytes(), 0, 6));
    assert(file_header(f) == h);
    lemma_object_header_bytes(s, off);
    assert(read_at(f, 24, h.data_size as nat) =~= o.class_object + o.data);
    assert(h.spec_bytes() + (o.class_object + o.data) =~= s.subrange(off, next));
}

/// Packing an uncompressed object file with data into a block with compression, then
/// reading the block object back and extracting it with LZ decompression, gives back the
/// file.
#[verifier::rlimit(50)]
#[verifier::spinoff_prover]
pub proof fn lemma_block_object_compress_roundtrip(f: Seq<u8>)
    requires
        plain_object_file(f),
        file_header(f).decompressed_size > 0,
        spec_pack_block_object(f, true) is Ok,
    ensures
        ({
            let g = spec_pack_block_object(f, true)->Ok_0;
            &&& spec_block_object_at(g, 0) is Ok
            &&& spec_block_object_at(g, 0)->Ok_0.1 == g.len()
            &&& spec_extract_object(spec_block_object_at(g, 0)->Ok_0.0, true)
                == Ok::<(ObjectHeader, Seq<u8>), DpcError>((file_header(f), f))
        }),
{
    let h = file_header(f);
    lemma_file_header_prefix(f);
    let cls = h.class_object_size as int;
    let dsize = h.decompressed_size as int;
    let class = read_at(f, 24, cls as nat);
    let data = read_at(f, 24 + cls, dsize as nat);
    assert(class =~= f.subrange(24, 24 + cls));
    assert(data =~= f.subrange(24 + cls, 24 + cls + dsize));
    let stream = spec_lzss_compress_optimized(data);
    let csize = (stream.len() + 8) as u32;
    let h2 = with_sizes(h, (cls + csize) as u32, csize);
    let g = h2.spec_bytes() + class + le32_bytes(h.decompressed_size) + le32_bytes(csize) + stream;
    assert(spec_pack_block_object(f, true)->Ok_0 == g);
    lemma_object_header_roundtrip(h2);
    assert(g.subrange(0, 24) =~= h2.spec_bytes());
    assert(words_at(g, 0, 6) =~= words_at(h2.spec_bytes(), 0, 6));
    assert(ObjectHeader::spec_at(g, 0) == h2);
    let o = spec_block_object_at(g, 0)->Ok_0.0;
    assert(o.class_object =~= class);
    assert(o.data =~= le32_bytes(h.decompressed_size) + le32_bytes(csize) + stream);
    assert(o.data.skip(8) =~= stream);
    lemma_lzss_optimized_roundtrip(data, dsize);
    assert(zero_filled(data, dsize as nat) =~= data);
    assert(spec_decoded_buffer(o.data.skip(8), h.decompressed_size) == Ok::<Seq<u8>, DpcError>(data));
    let h3 = ObjectHeader {
        data_size: (cls + dsize) as u32,
        class_object_size: h.class_object_size,
        decompressed_size: h.decompressed_size,
        compressed_size: 0,
        class_crc32: h.class_crc32,
        crc32: h.crc32,
    };
    assert(h3 == h);
    lemma_object_header_bytes(f, 0);
    assert(h.spec_bytes() + class + data =~= f);
}

/// Where `n` block objects read one after the other from `off` of `s` end.
pub open spec fn block_objects_end(s: Seq<u8>, off: int, n: nat) -> int
    decreases n,
{
    if n == 0 {
        off
    } else {
        match spec_block_object_at(s, off) {
            Ok((_, next)) => block_objects_end(s, next, (n - 1) as nat),
            Err(_) => off,
        }
    }
}

/// What a block gets for the objects `objs` when each is extracted without LZ
/// decompression and its file packed back without compression.
pub open spec fn repacked(objs: Seq<BlockObjectModel>) -> Seq<u8>
    decreases objs.len(),
{
    if objs.len() == 0 {
        Seq::empty()
    } else {
        spec_pack_block_object(spec_extract_object(objs[0], false)->Ok_0.1, false)->Ok_0 + repacked(
            objs.drop_first(),
        )
    }
}

/// Extracting the objects of a block without LZ decompression and packing their files
/// back without compression gives back the block's bytes, up to where its objects end.
#[verifier::spinoff_prover]
#[verifier::rlimit(60)]
pub proof fn lemma_block_repack(s: Seq<u8>, off: int, n: nat)
    requires
        0 <= off <= s.len(),
        spec_block_objects(s, off, n) is Ok,
    ensures
        n > 0 ==> 0 <= off < block_objects_end(s, off, n) <= s.len(),
        repacked(spec_block_objects(s, off, n)->Ok_0) == s.subrange(off, block_objects_end(s, off, n)),
    decreases n,
{
    if n == 0 {
        assert(s.subrange(off, off) =~= Seq::<u8>::empty());
    } else {
        let (o, next) = spec_block_object_at(s, off)->Ok_0;
        let rest = spec_block_objects(s, next, (n - 1) as nat)->Ok_0;
        let objs = spec_block_objects(s, off, n)->Ok_0;
        let end = block_objects_end(s, off, n);
        assert(0 <= off && off + 24 <= next <= s.len());
        lemma_block_repack(s, next, (n - 1) as nat);
        assert(end == block_objects_end(s, next, (n - 1) as nat));
        assert(next <= end <= s.len());
        assert(objs == seq![o] + rest);
        let a = spec_pack_block_object(spec_extract_object(o, false)->Ok_0.1, false)->Ok_0;
        assert(a == s.subrange(off, next)) by {
            lemma_block_object_repack(s, off);
        }
        assert(repacked(objs) == a + repacked(rest)) by {
            assert(objs.drop_first() =~= rest);
            assert(objs[0] == o);
        }
        assert(s.subrange(off, next) + s.subrange(next, end) =~= s.subrange(off, end));
    }
}

} // verus!
