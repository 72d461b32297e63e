//! Reading a DPC's blocks and pool into object files.
use vstd::prelude::*;
use crate::bytes::{spec_le_u32, read_le_u32, push_bytes};
use crate::fuel_dpc::{ObjectHeader, DpcError, spec_decoded_buffer, decode_into_zeroed};

verus! {

/// An object of a block: its header, its class object and its data.
pub struct BlockObjectModel {
    pub header: ObjectHeader,
    pub class_object: Seq<u8>,
    pub data: Seq<u8>,
}

/// Reading the block object at `off` of `s`: the object and the offset after it.
pub open spec fn spec_block_object_at(s: Seq<u8>, off: int) -> Result<(BlockObjectModel, int), DpcError> {
    if off < 0 || off + 24 > s.len() {
        Err(DpcError::Truncated)
    } else {
        let h = ObjectHeader::spec_at(s, off);
        let c = off + 24 + h.class_object_size;
        if c > s.len() {
            Err(DpcError::Truncated)
        } else if h.data_size < h.class_object_size {
            Err(DpcError::Overflow)
        } else if off + 24 + h.data_size > s.len() {
            Err(DpcError::Truncated)
        } else {
            Ok(
                (
                    BlockObjectModel {
                        header: h,
                        class_object: s.subrange(off + 24, c),
                        data: s.subrange(c, off + 24 + h.data_size),
                    },
                    off + 24 + h.data_size,
                ),
            )
        }
    }
}

/// Reading `n` block objects one after the other from `off` of `s`.
pub open spec fn spec_block_objects(s: Seq<u8>, off: int, n: nat) -> Result<Seq<BlockObjectModel>, DpcError>
    decreases n,
{
    if n == 0 {
        Ok(Seq::empty())
    } else {
        match spec_block_object_at(s, off) {
            Err(e) => Err(e),
            Ok((o, next)) => match spec_block_objects(s, next, (n - 1) as nat) {
                Err(e) => Err(e),
                Ok(rest) => Ok(seq![o] + rest),
            },
        }
    }
}

/// `r` with `p` in front of its objects.
pub open spec fn prepend<T>(p: Seq<T>, r: Result<Seq<T>, DpcError>) -> Result<Seq<T>, DpcError> {
    match r {
        Ok(rest) => Ok(p + rest),
        Err(e) => Err(e),
    }
}

/// An object of a block, read.
pub struct BlockObject {
    pub header: ObjectHeader,
    pub class_object: Vec<u8>,
    pub data: Vec<u8>,
}

impl View for BlockObject {
    type V = BlockObjectModel;

    open spec fn view(&self) -> BlockObjectModel {
        BlockObjectModel { header: self.header, class_object: self.class_object@, data: self.data@ }
    }
}

/// The bytes of `buf` from `lo` to `hi`.
pub fn copy_range(buf: &[u8], lo: usize, hi: usize) -> (r: Vec<u8>)
    requires
        lo <= hi <= buf@.len(),
    ensures
        r@ == buf@.subrange(lo as int, hi as int),
{
    let mut v: Vec<u8> = Vec::new();
    let mut j: usize = lo;
    while j < hi
        invariant
            lo <= j <= hi,
            hi <= buf@.len(),
            v@ == buf@.subrange(lo as int, j as int),
        decreases hi - j,
    {
        v.push(buf[j]);
        j = j + 1;
        assert(v@ =~= buf@.subrange(lo as int, j as int));
    }
    v
}

/// Reads the block object at `off` of `buf`, and the offset after it.
fn parse_block_object(buf: &[u8], off: usize) -> (r: Result<(BlockObject, usize), DpcError>)
    ensures
        match r {
            Ok((o, next)) => spec_block_object_at(buf@, off as int) == Ok::<(BlockObjectModel, int), DpcError>((o@, next as int)),
            Err(e) => spec_block_object_at(buf@, off as int) == Err::<(BlockObjectModel, int), DpcError>(e),
        },
{
    if off > buf.len() || buf.len() - off < 24 {
        return Err(DpcError::Truncated);
    }
    let h = ObjectHeader::read(buf, off);
    let room = buf.len() - off - 24;
    if (h.class_object_size as usize) > room {
        return Err(DpcError::Truncated);
    }
    if h.data_size < h.class_object_size {
        return Err(DpcError::Overflow);
    }
    if (h.data_size as usize) > room {
        return Err(DpcError::Truncated);
    }
    let c = off + 24 + h.class_object_size as usize;
    let e = off + 24 + h.data_size as usize;
    let class = copy_range(buf, off + 24, c);
    let data = copy_range(buf, c, e);
    Ok((BlockObject { header: h, class_object: class, data: data }, e))
}

/// Reads the `count` objects of a block from the start of `buf`.
pub fn parse_block_objects(buf: &[u8], count: u32) -> (r: Result<Vec<BlockObject>, DpcError>)
    ensures
        match r {
            Ok(v) => spec_block_objects(buf@, 0, count as nat) == Ok::<Seq<BlockObjectModel>, DpcError>(
                v@.map_values(|o: BlockObject| o@),
            ),
            Err(e) => spec_block_objects(buf@, 0, count as nat) == Err::<Seq<BlockObjectModel>, DpcError>(e),
        },
{
    let mut v: Vec<BlockObject> = Vec::new();
    let mut off: usize = 0;
    let mut j: u32 = 0;
    while j < count
        invariant
            j <= count,
            spec_block_objects(buf@, 0, count as nat) == prepend(
                v@.map_values(|o: BlockObject| o@),
                spec_block_objects(buf@, off as int, (count - j) as nat),
            ),
        decreases count - j,
    {
        match parse_block_object(buf, off) {
            Ok((o, next)) => {
                let ghost before = v@.map_values(|o: BlockObject| o@);
                let ghost om = o@;
                v.push(o);
                assert(v@.map_values(|o: BlockObject| o@) =~= before + seq![om]);
                proof {
                    let rest = spec_block_objects(buf@, next as int, (count - j - 1) as nat);
                    match rest {
                        Ok(r2) => {
                            assert(before + (seq![om] + r2) =~= (before + seq![om]) + r2);
                        },
                        Err(_) => {},
                    }
                }
                off = next;
                j = j + 1;
            },
            Err(e) => {
                return Err(e);
            },
        }
    }
    assert(v@.map_values(|o: BlockObject| o@) + Seq::<BlockObjectModel>::empty() =~= v@.map_values(|o: BlockObject| o@));
    Ok(v)
}

/// The object file written for a block object, with its header: when LZ decompression is
/// asked for and the object is compressed, its data (after the eight-byte stream header) is
/// decoded into a zeroed buffer of the decompressed size and the header says so.
pub open spec fn spec_extract_object(o: BlockObjectModel, is_lz: bool) -> Result<(ObjectHeader, Seq<u8>), DpcError> {
    let h = o.header;
    if is_lz && h.compressed_size != 0 {
        if o.data.len() < 8 {
            Err(DpcError::Truncated)
        } else if h.compressed_size < 8 {
            Err(DpcError::Overflow)
        } else {
            match spec_decoded_buffer(o.data.skip(8), h.decompressed_size) {
                Err(e) => Err(e),
                Ok(d) => if h.class_object_size + h.decompressed_size > u32::MAX {
                    Err(DpcError::Overflow)
                } else {
                    let h2 = ObjectHeader {
                        data_size: (h.class_object_size + h.decompressed_size) as u32,
                        class_object_size: h.class_object_size,
                        decompressed_size: h.decompressed_size,
                        compressed_size: 0,
                        class_crc32: h.class_crc32,
                        crc32: h.crc32,
                    };
                    Ok((h2, h2.spec_bytes() + o.class_object + d))
                },
            }
        }
    } else {
        Ok((h, h.spec_bytes() + o.class_object + o.data))
    }
}

/// The bytes of `buf` from `lo` on.
fn copy_from(buf: &[u8], lo: usize) -> (r: Vec<u8>)
    requires
        lo <= buf@.len(),
    ensures
        r@ == buf@.skip(lo as int),
{
    let r = copy_range(buf, lo, buf.len());
    assert(r@ =~= buf@.skip(lo as int));
    r
}

/// The object file written for the block object `o`, and its header.
pub fn extract_object(o: &BlockObject, is_lz: bool) -> (r: Result<(ObjectHeader, Vec<u8>), DpcError>)
    ensures
        match r {
            Ok((h, v)) => spec_extract_object(o@, is_lz) == Ok::<(ObjectHeader, Seq<u8>), DpcError>((h, v@)),
            Err(e) => spec_extract_object(o@, is_lz) == Err::<(ObjectHeader, Seq<u8>), DpcError>(e),
        },
{
    let h = o.header;
    if is_lz && h.compressed_size != 0 {
        if o.data.len() < 8 {
            return Err(DpcError::Truncated);
        }
        if h.compressed_size < 8 {
            return Err(DpcError::Overflow);
        }
        let comp = copy_from(o.data.as_slice(), 8);
        let d = match decode_into_zeroed(comp.as_slice(), h.decompressed_size) {
            Ok(d) => d,
            Err(e) => return Err(e),
        };
        if h.decompressed_size > 0xFFFF_FFFF - h.class_object_size {
            return Err(DpcError::Overflow);
        }
        let h2 = ObjectHeader {
            data_size: h.class_object_size + h.decompressed_size,
            class_object_size: h.class_object_size,
            decompressed_size: h.decompressed_size,
            compressed_size: 0,
            class_crc32: h.class_crc32,
            crc32: h.crc32,
        };
        let mut out: Vec<u8> = Vec::new();
        h2.write(&mut out);
        push_bytes(&mut out, o.class_object.as_slice());
        push_bytes(&mut out, d.as_slice());
        Ok((h2, out))
    } else {
        let mut out: Vec<u8> = Vec::new();
        h.write(&mut out);
        push_bytes(&mut out, o.class_object.as_slice());
        push_bytes(&mut out, o.data.as_slice());
        Ok((h, out))
    }
}

/// An object of the pool: its header and its data.
pub struct PoolObjectModel {
    pub header: ObjectHeader,
    pub data: Seq<u8>,
}

/// Reading the pool object at `off` of `s`: the object and the offset after it and the
/// padding that brings it to whole sectors.
pub open spec fn spec_pool_object_at(s: Seq<u8>, off: int) -> Result<(PoolObjectModel, int), DpcError> {
    if off < 0 || off + 24 > s.len() {
        Err(DpcError::Truncated)
    } else {
        let h = ObjectHeader::spec_at(s, off);
        let e = off + 24 + h.data_size;
        let size = 24 + h.data_size;
        let next = off + ((size + 2047) / 2048) * 2048;
        if e > s.len() || next > s.len() {
            Err(DpcError::Truncated)
        } else {
            Ok((PoolObjectModel { header: h, data: s.subrange(off + 24, e) }, next))
        }
    }
}

/// Reading `n` pool objects one after the other from `off` of `s`.
pub open spec fn spec_pool_objects(s: Seq<u8>, off: int, n: nat) -> Result<Seq<PoolObjectModel>, DpcError>
    decreases n,
{
    if n == 0 {
        Ok(Seq::empty())
    } else {
        match spec_pool_object_at(s, off) {
            Err(e) => Err(e),
            Ok((o, next)) => match spec_pool_objects(s, next, (n - 1) as nat) {
                Err(e) => Err(e),
                Ok(rest) => Ok(seq![o] + rest),
            },
        }
    }
}

/// An object of the pool, read.
pub struct PoolObject {
    pub header: ObjectHeader,
    pub data: Vec<u8>,
}

impl View for PoolObject {
    type V = PoolObjectModel;

    open spec fn view(&self) -> PoolObjectModel {
        PoolObjectModel { header: self.header, data: self.data@ }
    }
}

/// Reads the pool object at `off` of `buf`, and the offset after it and its padding.
fn parse_pool_object(buf: &[u8], off: usize) -> (r: Result<(PoolObject, usize), DpcError>)
    ensures
        match r {
            Ok((o, next)) => spec_pool_object_at(buf@, off as int) == Ok::<(PoolObjectModel, int), DpcError>((o@, next as int)),
            Err(e) => spec_pool_object_at(buf@, off as int) == Err::<(PoolObjectModel, int), DpcError>(e),
        },
{
    if off > buf.len() || buf.len() - off < 24 {
        return Err(DpcError::Truncated);
    }
    let h = ObjectHeader::read(buf, off);
    let room = buf.len() - off - 24;
    if (h.data_size as usize) > room {
        return Err(DpcError::Truncated);
    }
    let size: u64 = 24 + h.data_size as u64;
    let padded: u64 = ((size + 2047) / 2048) * 2048;
    if padded > (buf.len() - off) as u64 {
        return Err(DpcError::Truncated);
    }
    let e = off + 24 + h.data_size as usize;
    let data = copy_range(buf, off + 24, e);
    Ok((PoolObject { header: h, data: data }, off + padded as usize))
}

/// Reads `count` pool objects one after the other from the start of `buf`.
pub fn parse_pool_objects(buf: &[u8], count: usize) -> (r: Result<Vec<PoolObject>, DpcError>)
    ensures
        match r {
            Ok(v) => spec_pool_objects(buf@, 0, count as nat) == Ok::<Seq<PoolObjectModel>, DpcError>(
                v@.map_values(|o: PoolObject| o@),
            ),
            Err(e) => spec_pool_objects(buf@, 0, count as nat) == Err::<Seq<PoolObjectModel>, DpcError>(e),
        },
{
    let mut v: Vec<PoolObject> = Vec::new();
    let mut off: usize = 0;
    let mut j: usize = 0;
    while j < count
        invariant
            j <= count,
            spec_pool_objects(buf@, 0, count as nat) == prepend(
                v@.map_values(|o: PoolObject| o@),
                spec_pool_objects(buf@, off as int, (count - j) as nat),
            ),
        decreases count - j,
    {
        match parse_pool_object(buf, off) {
            Ok((o, next)) => {
                let ghost before = v@.map_values(|o: PoolObject| o@);
                let ghost om = o@;
                v.push(o);
                assert(v@.map_values(|o: PoolObject| o@) =~= before + seq![om]);
                proof {
                    let rest = spec_pool_objects(buf@, next as int, (count - j - 1) as nat);
                    match rest {
                        Ok(r2) => {
                            assert(before + (seq![om] + r2) =~= (before + seq![om]) + r2);
                        },
                        Err(_) => {},
                    }
                }
                off = next;
                j = j + 1;
            },
            Err(e) => {
                return Err(e);
            },
        }
    }
    assert(v@.map_values(|o: PoolObject| o@) + Seq::<PoolObjectModel>::empty() =~= v@.map_values(|o: PoolObject| o@));
    Ok(v)
}

/// What joining the pool object `p` to the object file `file` (written from the object's
/// block, with header `h`) gives: the file with its header replaced and the pool data (decoded,
/// when LZ decompression is asked for and the data is compressed) appended.
pub open spec fn spec_merge_pool_object(file: Seq<u8>, h: ObjectHeader, p: PoolObjectModel, is_lz: bool) -> Result<(ObjectHeader, Seq<u8>), DpcError> {
    let ph = p.header;
    let appended = if is_lz && ph.compressed_size != 0 {
        if p.data.len() < 8 {
            Err(DpcError::Truncated)
        } else if spec_le_u32(p.data, 4) < 8 {
            Err(DpcError::Overflow)
        } else {
            spec_decoded_buffer(p.data.skip(8), spec_le_u32(p.data, 0))
        }
    } else {
        Ok(p.data)
    };
    let added = if is_lz && ph.compressed_size != 0 {
        ph.decompressed_size
    } else {
        ph.data_size
    };
    match appended {
        Err(e) => Err(e),
        Ok(a) => if h.class_object_size + added > u32::MAX {
            Err(DpcError::Overflow)
        } else {
            let h2 = ObjectHeader {
                data_size: (h.class_object_size + added) as u32,
                class_object_size: h.class_object_size,
                decompressed_size: ph.decompressed_size,
                compressed_size: if is_lz && ph.compressed_size != 0 {
                    0
                } else {
                    ph.compressed_size
                },
                class_crc32: h.class_crc32,
                crc32: h.crc32,
            };
            Ok((h2, h2.spec_bytes() + (if file.len() > 24 { file.skip(24) } else { Seq::empty() }) + a))
        },
    }
}

/// Joins the pool object `p` to the object file `file`, written from the object's block
/// with header `h`; gives the new header and the new file.
pub fn merge_pool_object(file: &[u8], h: ObjectHeader, p: &PoolObject, is_lz: bool) -> (r: Result<(ObjectHeader, Vec<u8>), DpcError>)
    ensures
        match r {
            Ok((h2, v)) => spec_merge_pool_object(file@, h, p@, is_lz) == Ok::<(ObjectHeader, Seq<u8>), DpcError>((h2, v@)),
            Err(e) => spec_merge_pool_object(file@, h, p@, is_lz) == Err::<(ObjectHeader, Seq<u8>), DpcError>(e),
        },
{
    let ph = p.header;
    let lz = is_lz && ph.compressed_size != 0;
    let appended: Vec<u8> = if lz {
        if p.data.len() < 8 {
            return Err(DpcError::Truncated);
        }
        let dlen = read_le_u32(p.data.as_slice(), 0);
        let clen = read_le_u32(p.data.as_slice(), 4);
        if clen < 8 {
            return Err(DpcError::Overflow);
        }
        let comp = copy_from(p.data.as_slice(), 8);
        match decode_into_zeroed(comp.as_slice(), dlen) {
            Ok(d) => d,
            Err(e) => return Err(e),
        }
    } else {
        copy_range(p.data.as_slice(), 0, p.data.len())
    };
    let added = if lz {
        ph.decompressed_size
    } else {
        ph.data_size
    };
    if added > 0xFFFF_FFFF - h.class_object_size {
        return Err(DpcError::Overflow);
    }
    let h2 = ObjectHeader {
        data_size: h.class_object_size + added,
        class_object_size: h.class_object_size,
        decompressed_size: ph.decompressed_size,
        compressed_size: if lz {
            0
        } else {
            ph.compressed_size
        },
        class_crc32: h.class_crc32,
        crc32: h.crc32,
    };
    let mut out: Vec<u8> = Vec::new();
    h2.write(&mut out);
    if file.len() > 24 {
        let rest = copy_from(file, 24);
        push_bytes(&mut out, rest.as_slice());
    }
    push_bytes(&mut out, appended.as_slice());
    proof {
        if !lz {
            assert(appended@ =~= p.data@);
        }
        if file.len() <= 24 {
            assert(out@ =~= h2.spec_bytes() + Seq::<u8>::empty() + appended@);
        }
    }
    Ok((h2, out))
}

} // verus!
