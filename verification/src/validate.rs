//! Checking a whole DPC: its primary header, every object header of its blocks and of its
//! pool, the sizes they claim, and that the file ends where its last sector does.
use vstd::prelude::*;
use crate::fuel_dpc::{ObjectHeader, DpcError, spec_padded};
use crate::header::{PrimaryHeader, PrimaryHeaderModel, spec_parse_primary_header};
use crate::layout::{BlockDescription, PoolManifest, PoolManifestModel, spec_parse_pool_manifest};
use crate::extract::copy_range;
use crate::create::FuelDPC;

verus! {

/// `x` rounded up to a whole number of sectors past `base`.
pub open spec fn aligned_from(base: int, x: int) -> int {
    base + spec_padded(x - base)
}

/// How many bytes follow an object header of the given kind: its data for a block object,
/// or what brings it with its header to whole sectors for a pool object.
pub open spec fn spec_skip(h: ObjectHeader, pool: bool) -> Result<int, DpcError> {
    if !pool {
        Ok(h.data_size as int)
    } else if h.data_size as int + 24 > 0xFFFF_F800 {
        Err(DpcError::Overflow)
    } else {
        Ok(spec_padded(h.data_size + 24) - 24)
    }
}

/// Reading the object header at `off` of `s`, checking that its data size is its class
/// object and its (compressed, when it is) data, and skipping what follows it.
pub open spec fn spec_checked_header_at(s: Seq<u8>, off: int, pool: bool) -> Result<(ObjectHeader, int), DpcError> {
    if off < 0 || off + 16 > s.len() {
        Err(DpcError::Truncated)
    } else {
        let w = crate::bytes::words_at(s, off, 4);
        let part = if w[3] != 0 {
            w[3]
        } else {
            w[2]
        };
        if w[1] + part > u32::MAX {
            Err(DpcError::Overflow)
        } else if w[0] != w[1] + part {
            Err(DpcError::Invalid)
        } else if off + 24 > s.len() {
            Err(DpcError::Truncated)
        } else {
            let h = ObjectHeader::spec_at(s, off);
            match spec_skip(h, pool) {
                Err(e) => Err(e),
                Ok(k) => if off + 24 + k > s.len() {
                    Err(DpcError::Truncated)
                } else {
                    Ok((h, off + 24 + k))
                },
            }
        }
    }
}

/// The header check accepts an object header exactly when its data size is its class
/// object's size and that of the data it stores: the compressed stream's size when its
/// compressed size is not zero, else its decompressed size; and then, when what follows it
/// (its data, or for a pool object what brings it to whole sectors) fits, it gives the header
/// and the offset past that.
#[verifier::spinoff_prover]
pub proof fn lemma_checked_header_sizes(s: Seq<u8>, off: int, pool: bool)
    requires
        0 <= off,
        off + 24 <= s.len(),
    ensures
        ({
            let h = ObjectHeader::spec_at(s, off);
            let r = spec_checked_header_at(s, off, pool);
            &&& r is Ok ==> r->Ok_0.0 == h
            &&& r is Ok && h.compressed_size != 0 ==> h.data_size == h.class_object_size + h.compressed_size
            &&& r is Ok && h.compressed_size == 0 ==> h.data_size == h.class_object_size + h.decompressed_size
            &&& (h.compressed_size != 0 && h.data_size == h.class_object_size + h.compressed_size)
                || (h.compressed_size == 0 && h.data_size == h.class_object_size + h.decompressed_size)
                ==> {
                &&& !pool && off + 24 + h.data_size <= s.len() ==> r == Ok::<(ObjectHeader, int), DpcError>(
                    (h, off + 24 + h.data_size),
                )
                &&& pool && h.data_size + 24 <= 0xFFFF_F800 && off + spec_padded(h.data_size + 24) <= s.len()
                    ==> r == Ok::<(ObjectHeader, int), DpcError>((h, off + spec_padded(h.data_size + 24)))
            }
        }),
{
    let w4 = crate::bytes::words_at(s, off, 4);
    let w6 = crate::bytes::words_at(s, off, 6);
    assert(w4[0] == w6[0] && w4[1] == w6[1] && w4[2] == w6[2] && w4[3] == w6[3]);
}

/// Reading `n` checked object headers one after the other from `off` of `s`.
pub open spec fn spec_checked_headers(s: Seq<u8>, off: int, n: nat, pool: bool) -> Result<(Seq<ObjectHeader>, int), DpcError>
    decreases n,
{
    if n == 0 {
        Ok((Seq::empty(), off))
    } else {
        match spec_checked_header_at(s, off, pool) {
            Err(e) => Err(e),
            Ok((h, next)) => match spec_checked_headers(s, next, (n - 1) as nat, pool) {
                Err(e) => Err(e),
                Ok((rest, end)) => Ok((seq![h] + rest, end)),
            },
        }
    }
}

/// Reading the blocks described by `ds` one after the other from `off` of `s`: each its
/// objects' headers, then its padding.
pub open spec fn spec_checked_blocks(s: Seq<u8>, off: int, ds: Seq<BlockDescription>) -> Result<(Seq<Seq<ObjectHeader>>, int), DpcError>
    decreases ds.len(),
{
    if ds.len() == 0 {
        Ok((Seq::empty(), off))
    } else {
        let d = ds[0];
        if d.data_size > 0xFFFF_F800 {
            Err(DpcError::Overflow)
        } else {
            match spec_checked_headers(s, off, d.object_count as nat, false) {
                Err(e) => Err(e),
                Ok((hs, e1)) => {
                    let e2 = e1 + spec_padded(d.data_size as int) - d.data_size;
                    if e2 > s.len() {
                        Err(DpcError::Truncated)
                    } else {
                        match spec_checked_blocks(s, e2, ds.drop_first()) {
                            Err(e) => Err(e),
                            Ok((rest, end)) => Ok((seq![hs] + rest, end)),
                        }
                    }
                },
            }
        }
    }
}

/// Reading the pool at `off` of `s`: its manifest, the sectors up to the objects, the
/// objects' checked headers, and the sectors up to the end of the pool.
pub open spec fn spec_checked_pool(s: Seq<u8>, off: int) -> Result<(PoolManifestModel, Seq<ObjectHeader>, int), DpcError> {
    match spec_parse_pool_manifest(s.skip(off)) {
        None => Err(DpcError::Truncated),
        Some((m, o)) => {
            let o2 = aligned_from(off, off + o);
            if o2 > s.len() {
                Err(DpcError::Truncated)
            } else {
                match spec_checked_headers(s, o2, m.objects_crc32s.len(), true) {
                    Err(e) => Err(e),
                    Ok((hs, e1)) => {
                        let e2 = aligned_from(off, e1);
                        if e2 > s.len() {
                            Err(DpcError::Truncated)
                        } else {
                            Ok((m, hs, e2))
                        }
                    },
                }
            }
        }
    }
}

/// What a whole DPC holds, as its check reads it.
pub struct DpcFileModel {
    pub primary_header: PrimaryHeaderModel,
    pub blocks: Seq<Seq<ObjectHeader>>,
    pub pool: Option<(PoolManifestModel, Seq<ObjectHeader>)>,
}

/// Checking the whole DPC `s`: its primary header (then the rest of its sector), its blocks,
/// its pool when the header says it has one, and that it ends at the sector where they do.
pub open spec fn spec_validate(s: Seq<u8>) -> Result<DpcFileModel, DpcError> {
    match spec_parse_primary_header(s) {
        Err(e) => Err(e),
        Ok((h, o)) => if s.len() < 2048 {
            Err(DpcError::Truncated)
        } else {
            match spec_checked_blocks(s, 2048, h.block_descriptions) {
                Err(e) => Err(e),
                Ok((blocks, e1)) => {
                    let pool = if h.pool_manifest_offset != 0 {
                        match spec_checked_pool(s, e1) {
                            Err(e) => Err(e),
                            Ok((m, hs, e2)) => Ok((Some((m, hs)), e2)),
                        }
                    } else {
                        Ok((None, e1))
                    };
                    match pool {
                        Err(e) => Err(e),
                        Ok((p, e2)) => {
                            let e3 = aligned_from(0, e2);
                            if e3 > s.len() {
                                Err(DpcError::Truncated)
                            } else if e3 != s.len() {
                                Err(DpcError::Invalid)
                            } else {
                                Ok(DpcFileModel { primary_header: h, blocks: blocks, pool: p })
                            }
                        },
                    }
                },
            }
        }
    }
}

/// `r` with `p` in front of its items.
pub open spec fn prepend_items<T>(p: Seq<T>, r: Result<(Seq<T>, int), DpcError>) -> Result<(Seq<T>, int), DpcError> {
    match r {
        Ok((rest, end)) => Ok((p + rest, end)),
        Err(e) => Err(e),
    }
}

/// Rounds `x` up to a whole number of sectors past `base`.
fn align_from(base: usize, x: usize) -> (r: u128)
    requires
        base <= x,
    ensures
        r == aligned_from(base as int, x as int),
{
    let d: u128 = (x - base) as u128;
    base as u128 + ((d + 2047) / 2048) * 2048
}

/// Reads the checked object header at `off` of `buf`, and the offset past what follows it.
fn checked_header_at(buf: &[u8], off: usize, pool: bool) -> (r: Result<(ObjectHeader, usize), DpcError>)
    ensures
        r matches Ok((_, next)) ==> off <= next <= buf@.len(),
        match r {
            Ok((h, next)) => spec_checked_header_at(buf@, off as int, pool) == Ok::<(ObjectHeader, int), DpcError>((h, next as int)),
            Err(e) => spec_checked_header_at(buf@, off as int, pool) == Err::<(ObjectHeader, int), DpcError>(e),
        },
{
    if off > buf.len() || buf.len() - off < 16 {
        return Err(DpcError::Truncated);
    }
    let w = crate::bytes::read_words(buf, off, 4);
    let part = if w[3] != 0 {
        w[3]
    } else {
        w[2]
    };
    if part > 0xFFFF_FFFF - w[1] {
        return Err(DpcError::Overflow);
    }
    if w[0] != w[1] + part {
        return Err(DpcError::Invalid);
    }
    if buf.len() - off < 24 {
        return Err(DpcError::Truncated);
    }
    let h = ObjectHeader::read(buf, off);
    let k: u64 = if !pool {
        h.data_size as u64
    } else {
        if h.data_size as u64 + 24 > 0xFFFF_F800 {
            return Err(DpcError::Overflow);
        }
        ((h.data_size as u64 + 24 + 2047) / 2048) * 2048 - 24
    };
    if k > (buf.len() - off - 24) as u64 {
        return Err(DpcError::Truncated);
    }
    Ok((h, off + 24 + k as usize))
}

/// Reads `n` checked object headers one after the other from `off` of `buf`.
fn checked_headers(buf: &[u8], off: usize, n: usize, pool: bool) -> (r: Result<(Vec<ObjectHeader>, usize), DpcError>)
    requires
        off <= buf@.len(),
    ensures
        r matches Ok((_, end)) ==> off <= end <= buf@.len(),
        match r {
            Ok((hs, end)) => spec_checked_headers(buf@, off as int, n as nat, pool) == Ok::<(Seq<ObjectHeader>, int), DpcError>((hs@, end as int)),
            Err(e) => spec_checked_headers(buf@, off as int, n as nat, pool) == Err::<(Seq<ObjectHeader>, int), DpcError>(e),
        },
{
    let mut hs: Vec<ObjectHeader> = Vec::new();
    let mut pos = off;
    let mut j: usize = 0;
    while j < n
        invariant
            j <= n,
            off <= pos <= buf@.len(),
            spec_checked_headers(buf@, off as int, n as nat, pool) == prepend_items(
                hs@,
                spec_checked_headers(buf@, pos as int, (n - j) as nat, pool),
            ),
        decreases n - j,
    {
        match checked_header_at(buf, pos, pool) {
            Ok((h, next)) => {
                let ghost before = hs@;
                hs.push(h);
                proof {
                    match spec_checked_headers(buf@, next as int, (n - j - 1) as nat, pool) {
                        Ok((rest, end)) => {
                            assert(before + (seq![h] + rest) =~= hs@ + rest);
                        },
                        Err(_) => {},
                    }
                }
                pos = next;
                j = j + 1;
            },
            Err(e) => return Err(e),
        }
    }
    assert(hs@ + Seq::<ObjectHeader>::empty() =~= hs@);
    Ok((hs, pos))
}

/// The views of the blocks' headers.
pub open spec fn blocks_view(v: Seq<Vec<ObjectHeader>>) -> Seq<Seq<ObjectHeader>> {
    v.map_values(|x: Vec<ObjectHeader>| x@)
}

/// Reads the blocks described by `ds` one after the other from `off` of `buf`.
fn checked_blocks(buf: &[u8], off: usize, ds: &Vec<BlockDescription>) -> (r: Result<(Vec<Vec<ObjectHeader>>, usize), DpcError>)
    requires
        off <= buf@.len(),
    ensures
        r matches Ok((_, end)) ==> end <= buf@.len(),
        match r {
            Ok((bs, end)) => spec_checked_blocks(buf@, off as int, ds@) == Ok::<(Seq<Seq<ObjectHeader>>, int), DpcError>((blocks_view(bs@), end as int)),
            Err(e) => spec_checked_blocks(buf@, off as int, ds@) == Err::<(Seq<Seq<ObjectHeader>>, int), DpcError>(e),
        },
{
    let mut bs: Vec<Vec<ObjectHeader>> = Vec::new();
    let mut pos = off;
    let mut x: usize = 0;
    assert(ds@.skip(0) =~= ds@);
    while x < ds.len()
        invariant
            x <= ds@.len(),
            pos <= buf@.len(),
            spec_checked_blocks(buf@, off as int, ds@) == prepend_items(
                blocks_view(bs@),
                spec_checked_blocks(buf@, pos as int, ds@.skip(x as int)),
            ),
        decreases ds@.len() - x,
    {
        let d = ds[x];
        assert(ds@.skip(x as int)[0] == d);
        assert(ds@.skip(x as int).drop_first() =~= ds@.skip(x + 1));
        if d.data_size > 0xFFFF_F800 {
            return Err(DpcError::Overflow);
        }
        let (hs, e1) = match checked_headers(buf, pos, d.object_count as usize, false) {
            Ok(x) => x,
            Err(e) => return Err(e),
        };
        let pad = crate::fuel_dpc::calculate_padding_size(d.data_size) as usize;
        if pad > buf.len() - e1 {
            return Err(DpcError::Truncated);
        }
        let ghost before = blocks_view(bs@);
        let ghost hv = hs@;
        bs.push(hs);
        assert(blocks_view(bs@) =~= before + seq![hv]);
        proof {
            match spec_checked_blocks(buf@, (e1 + pad) as int, ds@.skip(x + 1)) {
                Ok((rest, end)) => {
                    assert(before + (seq![hv] + rest) =~= blocks_view(bs@) + rest);
                },
                Err(_) => {},
            }
        }
        pos = e1 + pad;
        x = x + 1;
    }
    assert(blocks_view(bs@) + Seq::<Seq<ObjectHeader>>::empty() =~= blocks_view(bs@));
    Ok((bs, pos))
}

/// The pool of a DPC, as its check reads it.
pub struct DpcPool {
    pub manifest: PoolManifest,
    pub objects: Vec<ObjectHeader>,
}

/// Reads the pool at `off` of `buf`, and the offset past its last sector.
fn checked_pool(buf: &[u8], off: usize) -> (r: Result<(DpcPool, usize), DpcError>)
    requires
        off <= buf@.len(),
    ensures
        match r {
            Ok((p, end)) => spec_checked_pool(buf@, off as int) == Ok::<(PoolManifestModel, Seq<ObjectHeader>, int), DpcError>(
                (p.manifest@, p.objects@, end as int),
            ) && end <= buf@.len(),
            Err(e) => spec_checked_pool(buf@, off as int) == Err::<(PoolManifestModel, Seq<ObjectHeader>, int), DpcError>(e),
        },
{
    let rest = copy_range(buf, off, buf.len());
    assert(rest@ =~= buf@.skip(off as int));
    let (m, o) = match PoolManifest::parse(rest.as_slice()) {
        Some(x) => x,
        None => return Err(DpcError::Truncated),
    };
    let o2 = align_from(off, off + o);
    if o2 > buf.len() as u128 {
        return Err(DpcError::Truncated);
    }
    let o2 = o2 as usize;
    let (hs, e1) = match checked_headers(buf, o2, m.objects_crc32s.len(), true) {
        Ok(x) => x,
        Err(e) => return Err(e),
    };
    let e2 = align_from(off, e1);
    if e2 > buf.len() as u128 {
        return Err(DpcError::Truncated);
    }
    Ok((DpcPool { manifest: m, objects: hs }, e2 as usize))
}

/// A whole DPC, as its check reads it.
pub struct DpcFile {
    pub primary_header: PrimaryHeader,
    pub blocks: Vec<Vec<ObjectHeader>>,
    pub pool: Option<DpcPool>,
}

impl View for DpcFile {
    type V = DpcFileModel;

    open spec fn view(&self) -> DpcFileModel {
        DpcFileModel {
            primary_header: self.primary_header@,
            blocks: blocks_view(self.blocks@),
            pool: match self.pool {
                Some(p) => Some((p.manifest@, p.objects@)),
                None => None,
            },
        }
    }
}

/// Checks the whole DPC `buf`: its primary header, every block's object headers (each
/// data size must be its class object and its data, compressed or not) and padding, the
/// pool when the header says there is one, and that the file ends with its last sector.
/// A file that does not read as a DPC gives the error that `spec_validate` names.
pub fn validate_dpc(buf: &[u8]) -> (r: Result<DpcFile, DpcError>)
    ensures
        match r {
            Ok(f) => spec_validate(buf@) == Ok::<DpcFileModel, DpcError>(f@),
            Err(e) => spec_validate(buf@) == Err::<DpcFileModel, DpcError>(e),
        },
{
    let (h, _o) = match PrimaryHeader::parse(buf) {
        Ok(x) => x,
        Err(e) => return Err(e),
    };
    if buf.len() < 2048 {
        return Err(DpcError::Truncated);
    }
    let (blocks, e1) = match checked_blocks(buf, 2048, &h.block_descriptions) {
        Ok(x) => x,
        Err(e) => return Err(e),
    };
    let (pool, e2) = if h.pool_manifest_offset != 0 {
        match checked_pool(buf, e1) {
            Ok((p, e2)) => (Some(p), e2),
            Err(e) => return Err(e),
        }
    } else {
        (None, e1)
    };
    let e3 = align_from(0, e2);
    if e3 > buf.len() as u128 {
        return Err(DpcError::Truncated);
    }
    if e3 != buf.len() as u128 {
        return Err(DpcError::Invalid);
    }
    Ok(DpcFile { primary_header: h, blocks: blocks, pool: pool })
}


impl FuelDPC {
    /// The backend's check of the DPC `buf`, which must read as a DPC: its primary header,
    /// its blocks' object headers and its pool, as `validate_dpc` reads them.
    pub fn validate(&self, buf: &[u8]) -> (r: DpcFile)
        requires
            spec_validate(buf@) is Ok,
        ensures
            spec_validate(buf@) == Ok::<DpcFileModel, DpcError>(r@),
    {
        match validate_dpc(buf) {
            Ok(f) => f,
            Err(_) => vstd::pervasive::unreached(),
        }
    }
}

} // verus!
