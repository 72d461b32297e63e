//! A whole DPC put together from a manifest and the object files.
use vstd::prelude::*;
use std::collections::HashMap;
use crate::bytes::{push_bytes, push_fill};
use crate::create::{
    FuelDPC, spec_pack_block_object, spec_pack_pool_reference, spec_pack_pool_compressed,
    spec_pool_object_chunks, spec_pack_pool_object, capacity, max_capacity, pack_block_object,
    pack_pool_reference, pack_pool_compressed, pool_object_chunks, pack_pool_object,
    describe_block, working_buffer_capacities, new_primary_header,
};
use crate::fuel_dpc::{ObjectHeader, DpcError, file_header, read_file_header, spec_padded, calculate_padding_size};
use crate::header::{PrimaryHeaderModel, spec_primary_header_bytes};
use crate::layout::BlockDescription;
use crate::manifest::{
    Block, BlockModel, Manifest, ManifestHeader, ManifestHeaderModel, ManifestModel,
    ObjectDescription, Pool, PoolModel, spec_optimize_pool, optimize_pool,
};
use crate::pool::{pool_buildable, spec_pool_section, build_pool_section};
use crate::tables::{spec_version_info, version_info};

verus! {

broadcast use vstd::std_specs::hash::group_hash_axioms;

/// An object file handed in: the crc32 that names it, and its bytes.
pub struct InputFile {
    pub crc32: u32,
    pub bytes: Vec<u8>,
}

impl View for InputFile {
    type V = (u32, Seq<u8>);

    open spec fn view(&self) -> (u32, Seq<u8>) {
        (self.crc32, self.bytes@)
    }
}

/// The index of the first file from `i` on named `crc`.
pub open spec fn first_input(files: Seq<(u32, Seq<u8>)>, crc: u32, i: int) -> Option<int>
    decreases files.len() - i,
{
    if i < 0 || i >= files.len() {
        None
    } else if files[i].0 == crc {
        Some(i)
    } else {
        first_input(files, crc, i + 1)
    }
}

/// The first index of `files` named `crc`.
fn find_input(files: &Vec<InputFile>, crc: u32) -> (r: Option<usize>)
    ensures
        match r {
            Some(i) => first_input(files@.map_values(|x: InputFile| x@), crc, 0) == Some(i as int)
                && i < files@.len(),
            None => first_input(files@.map_values(|x: InputFile| x@), crc, 0) is None,
        },
{
    let ghost fm = files@.map_values(|x: InputFile| x@);
    let mut k: usize = 0;
    while k < files.len() && files[k].crc32 != crc
        invariant
            k <= files@.len(),
            fm == files@.map_values(|x: InputFile| x@),
            first_input(fm, crc, 0) == first_input(fm, crc, k as int),
        decreases files@.len() - k,
    {
        k = k + 1;
    }
    if k == files.len() {
        None
    } else {
        Some(k)
    }
}

/// What putting a DPC together has gathered so far: the bytes written (the first sector is
/// left for the primary header), the block descriptions, the block type of the next block,
/// the padding added after blocks, the compress mark of each pool object, its size in
/// sectors, and the pool objects compressed on the way in.
pub struct CreateState {
    pub out: Seq<u8>,
    pub descs: Seq<BlockDescription>,
    pub block_type: u32,
    pub bpad: u32,
    pub compress: Map<u32, bool>,
    pub chunks: Map<u32, u32>,
    pub packed: Seq<(u32, Seq<u8>)>,
}

/// Whether the pool holds an entry for the object `c`.
pub open spec fn pool_has(pool: Option<PoolModel>, c: u32) -> bool {
    match pool {
        Some(p) => entries_have(p, c),
        None => false,
    }
}

/// Whether `p` holds an entry for the object `c`.
pub open spec fn entries_have(p: PoolModel, c: u32) -> bool {
    exists|e: int| 0 <= e < p.object_entries.len() && #[trigger] p.object_entries[e].crc32 == c
}

/// Whether an object marked `compress` whose file holds `compressed_size` is compressed on
/// the way in.
pub open spec fn spec_compresses(dpc: FuelDPC, compress: bool, compressed_size: u32) -> bool {
    compress && compressed_size == 0 && dpc.options.is_lz && dpc.options.is_optimization
}

/// One object of a block written: a block object is packed in place; a pool object is
/// written as a reference, its compress mark recorded the first time (a different mark later
/// is refused), compressed then when asked for, and its size in sectors recorded.
pub open spec fn spec_create_object(dpc: FuelDPC, s: CreateState, d: ObjectDescription, files: Seq<(u32, Seq<u8>)>, pool: Option<PoolModel>) -> Result<CreateState, DpcError> {
    match first_input(files, d.crc32, 0) {
        None => Err(DpcError::Invalid),
        Some(i) => {
            let file = files[i].1;
            let oh = file_header(file);
            let c = oh.crc32;
            let comp = spec_compresses(dpc, d.compress, oh.compressed_size);
            if !pool_has(pool, c) {
                match spec_pack_block_object(file, comp) {
                    Err(e) => Err(e),
                    Ok(b) => Ok(CreateState { out: s.out + b, ..s }),
                }
            } else if s.compress.contains_key(c) && s.compress[c] != d.compress {
                Err(DpcError::Invalid)
            } else {
                let first = !s.compress.contains_key(c);
                let sized: Result<(ObjectHeader, Seq<(u32, Seq<u8>)>), DpcError> = if first && comp {
                    match spec_pack_pool_compressed(file) {
                        Err(e) => Err(e),
                        Ok(cb) => Ok((file_header(cb), s.packed.push((c, cb)))),
                    }
                } else {
                    Ok((oh, s.packed))
                };
                match sized {
                    Err(e) => Err(e),
                    Ok((sh, packed)) => {
                        let chunks: Result<Map<u32, u32>, DpcError> = if s.chunks.contains_key(c) {
                            Ok(s.chunks)
                        } else {
                            match spec_pool_object_chunks(sh) {
                                Err(e) => Err(e),
                                Ok(n) => Ok(s.chunks.insert(c, n)),
                            }
                        };
                        match chunks {
                            Err(e) => Err(e),
                            Ok(ch) => Ok(
                                CreateState {
                                    out: s.out + spec_pack_pool_reference(file),
                                    compress: if first {
                                        s.compress.insert(c, d.compress)
                                    } else {
                                        s.compress
                                    },
                                    chunks: ch,
                                    packed: packed,
                                    ..s
                                },
                            ),
                        }
                    },
                }
            }
        },
    }
}

/// The objects `ds` written one after the other.
pub open spec fn spec_create_objects(dpc: FuelDPC, s: CreateState, ds: Seq<ObjectDescription>, files: Seq<(u32, Seq<u8>)>, pool: Option<PoolModel>) -> Result<CreateState, DpcError>
    decreases ds.len(),
{
    if ds.len() == 0 {
        Ok(s)
    } else {
        match spec_create_objects(dpc, s, ds.drop_last(), files, pool) {
            Err(e) => Err(e),
            Ok(s2) => spec_create_object(dpc, s2, ds.last(), files, pool),
        }
    }
}

/// One block written: its objects, its description, and zeros up to the next sector. A
/// block without objects is refused, and sizes must fit their 32-bit fields.
pub open spec fn spec_create_block(dpc: FuelDPC, s: CreateState, b: BlockModel, files: Seq<(u32, Seq<u8>)>, pool: Option<PoolModel>) -> Result<CreateState, DpcError> {
    match spec_create_objects(dpc, s, b.objects, files, pool) {
        Err(e) => Err(e),
        Ok(s2) => {
            let len = s2.out.len() - s.out.len();
            let pad = spec_padded(s2.out.len() as int) - s2.out.len();
            if b.objects.len() == 0 {
                Err(DpcError::Invalid)
            } else if len > 0xFFFF_F800 || s2.out.len() > 0xFFFF_F800 || b.objects.len() > u32::MAX
                || s2.bpad + pad > u32::MAX {
                Err(DpcError::Overflow)
            } else {
                Ok(
                    CreateState {
                        out: s2.out + Seq::new(pad as nat, |j: int| 0u8),
                        descs: s2.descs.push(
                            BlockDescription {
                                block_type: s2.block_type,
                                object_count: b.objects.len() as u32,
                                padded_size: spec_padded(len) as u32,
                                data_size: len as u32,
                                working_buffer_offset: b.offset,
                                crc32: b.objects[0].crc32,
                            },
                        ),
                        block_type: 0,
                        bpad: (s2.bpad + pad) as u32,
                        ..s2
                    },
                )
            }
        },
    }
}

/// The blocks `bs` written one after the other.
pub open spec fn spec_create_blocks(dpc: FuelDPC, s: CreateState, bs: Seq<BlockModel>, files: Seq<(u32, Seq<u8>)>, pool: Option<PoolModel>) -> Result<CreateState, DpcError>
    decreases bs.len(),
{
    if bs.len() == 0 {
        Ok(s)
    } else {
        match spec_create_blocks(dpc, s, bs.drop_last(), files, pool) {
            Err(e) => Err(e),
            Ok(s2) => spec_create_block(dpc, s2, bs.last(), files, pool),
        }
    }
}

/// What the pool's objects add: the bytes written, the largest sector count of a pool
/// object, and the padding after pool objects.
pub struct PoolOut {
    pub out: Seq<u8>,
    pub max_sectors: u32,
    pub ppad: u32,
}

/// The pool object that object entry index `idx` names written at the end of `o`: the file
/// compressed on the way in when its mark asks for it, the object's file otherwise.
pub open spec fn spec_pool_object_out(dpc: FuelDPC, s: CreateState, p: PoolModel, idx: u32, files: Seq<(u32, Seq<u8>)>, o: PoolOut) -> Result<PoolOut, DpcError> {
    if idx >= p.object_entries.len() {
        Err(DpcError::Invalid)
    } else {
        let c = p.object_entries[idx as int].crc32;
        if !s.compress.contains_key(c) {
            Err(DpcError::Invalid)
        } else {
            let compressed = s.compress[c] && dpc.options.is_lz && dpc.options.is_optimization;
            let found = if compressed {
                first_input(s.packed, c, 0)
            } else {
                first_input(files, c, 0)
            };
            match found {
                None => Err(DpcError::Invalid),
                Some(j) => {
                    let file = if compressed {
                        s.packed[j].1
                    } else {
                        files[j].1
                    };
                    if o.out.len() > u32::MAX {
                        Err(DpcError::Overflow)
                    } else {
                        match spec_pack_pool_object(file, o.out.len() as u32) {
                            Err(e) => Err(e),
                            Ok((bytes, sectors)) => {
                                let extra = bytes.len() - 24 - file_header(bytes).data_size;
                                if extra < 0 || o.ppad + extra > u32::MAX {
                                    Err(DpcError::Overflow)
                                } else {
                                    Ok(
                                        PoolOut {
                                            out: o.out + bytes,
                                            max_sectors: if sectors > o.max_sectors {
                                                sectors
                                            } else {
                                                o.max_sectors
                                            },
                                            ppad: (o.ppad + extra) as u32,
                                        },
                                    )
                                }
                            },
                        }
                    }
                },
            }
        }
    }
}

/// The pool objects that the indices `idxs` name written one after the other.
pub open spec fn spec_pool_objects_out(dpc: FuelDPC, s: CreateState, p: PoolModel, idxs: Seq<u32>, files: Seq<(u32, Seq<u8>)>, o: PoolOut) -> Result<PoolOut, DpcError>
    decreases idxs.len(),
{
    if idxs.len() == 0 {
        Ok(o)
    } else {
        match spec_pool_objects_out(dpc, s, p, idxs.drop_last(), files, o) {
            Err(e) => Err(e),
            Ok(o2) => spec_pool_object_out(dpc, s, p, idxs.last(), files, o2),
        }
    }
}

/// Whether every object entry of `p` names one of its reference records.
pub open spec fn entries_name_records(p: PoolModel) -> bool {
    forall|e: int| 0 <= e < p.object_entries.len() ==>
        1 <= #[trigger] p.object_entries[e].reference_record_index <= p.reference_records.len()
}

/// The pool written after the blocks: optimized when asked for, its section at the end of
/// the blocks, then its objects. Gives what the pool objects add, the section's size and
/// its offset.
pub open spec fn spec_create_pool(dpc: FuelDPC, s: CreateState, p: PoolModel, files: Seq<(u32, Seq<u8>)>) -> Result<(PoolOut, u32, u32), DpcError> {
    let opt = dpc.options.is_optimization && !dpc.unoptimized_pool;
    if opt && (p.reference_records.len() > u32::MAX || !entries_name_records(p)) {
        Err(DpcError::Invalid)
    } else {
        let p2 = if opt {
            spec_optimize_pool(p)
        } else {
            p
        };
        let offset = s.out.len() as u32;
        if !pool_buildable(p2, s.chunks, offset) {
            Err(DpcError::Invalid)
        } else {
            let sec = spec_pool_section(p2, s.chunks, offset);
            if sec.len() > u32::MAX {
                Err(DpcError::Overflow)
            } else {
                match spec_pool_objects_out(
                    dpc,
                    s,
                    p2,
                    p2.object_entry_indices,
                    files,
                    PoolOut { out: s.out + sec, max_sectors: 0, ppad: 0 },
                ) {
                    Err(e) => Err(e),
                    Ok(o) => Ok((o, sec.len() as u32, offset)),
                }
            }
        }
    }
}

/// The primary header that `create_dpc` writes.
pub open spec fn spec_new_header(mh: ManifestHeaderModel, descs: Seq<BlockDescription>, blocks_padded: u32, version: (u32, u32), pm_padded: u32, pm_offset: u32, max_sectors: u32, bpad: u32, ppad: u32, file_size: u32) -> PrimaryHeaderModel {
    let unknown = mh.incredi_builder_string.len() == 0;
    PrimaryHeaderModel {
        version_string: mh.version_string,
        is_not_rtc: if mh.is_rtc { 0u32 } else { 1u32 },
        block_count: descs.len() as u32,
        block_working_buffer_capacity_even: max_capacity(descs, descs.len() as int, 0) as u32,
        block_working_buffer_capacity_odd: max_capacity(descs, descs.len() as int, 1) as u32,
        padded_size: blocks_padded,
        version_patch: version.0,
        version_minor: version.1,
        block_descriptions: descs,
        pool_manifest_padded_size: pm_padded,
        pool_manifest_offset: pm_offset,
        pool_manifest_unused0: mh.pool_manifest_unused,
        pool_manifest_unused1: mh.pool_manifest_unused,
        pool_object_decompression_buffer_capacity: max_sectors,
        block_sector_padding_size: if unknown { 0xFFFF_FFFF } else { bpad },
        pool_sector_padding_size: if unknown { 0xFFFF_FFFF } else { ppad },
        file_size: if unknown { 0xFFFF_FFFF } else { file_size },
        incredi_builder_string: mh.incredi_builder_string,
    }
}

/// The DPC once its blocks and pool are written: the primary header over the first sector.
pub open spec fn spec_create_finish(mh: ManifestHeaderModel, descs: Seq<BlockDescription>, bpad: u32, version: (u32, u32), o: PoolOut, pm_padded: u32, pm_offset: u32, blocks_padded: u32) -> Result<Seq<u8>, DpcError> {
    if o.out.len() > u32::MAX {
        Err(DpcError::Overflow)
    } else if exists|i: int| 0 <= i < descs.len() && capacity(#[trigger] descs[i]) > u32::MAX {
        Err(DpcError::Overflow)
    } else if mh.version_string.len() > 256 || mh.incredi_builder_string.len() > 128 || descs.len() > 64 {
        Err(DpcError::Invalid)
    } else if pm_padded > u32::MAX - 2047 || pm_offset > u32::MAX - 2047 {
        Err(DpcError::Overflow)
    } else {
        Ok(
            spec_primary_header_bytes(
                spec_new_header(
                    mh,
                    descs,
                    blocks_padded,
                    version,
                    pm_padded,
                    pm_offset,
                    o.max_sectors,
                    bpad,
                    o.ppad,
                    o.out.len() as u32,
                ),
            ) + o.out.skip(2048),
        )
    }
}

/// The manifest `m` as the backend writes it: without its pool when the pool's objects are
/// moved into the blocks.
pub open spec fn adjusted(dpc: FuelDPC, m: ManifestModel) -> ManifestModel {
    if dpc.no_pool {
        ManifestModel {
            header: ManifestHeaderModel { pool_manifest_unused: 0, ..m.header },
            pool: None,
            ..m
        }
    } else {
        m
    }
}

/// Putting together the DPC that the manifest `m0` describes from the object files `files`
/// (each named by its crc32; the first of a name is used).
pub open spec fn spec_create_dpc(dpc: FuelDPC, m0: ManifestModel, files: Seq<(u32, Seq<u8>)>) -> Result<Seq<u8>, DpcError> {
    let m = adjusted(dpc, m0);
    let v = spec_version_info(m.header.version_string);
    let (patch, minor, block_type) = match v {
        Some(t) => t,
        None => (0u32, 0u32, 0u32),
    };
    {
        let s0 = CreateState {
            out: Seq::new(2048, |j: int| 0u8),
            descs: Seq::empty(),
            block_type: block_type,
            bpad: 0,
            compress: Map::empty(),
            chunks: Map::empty(),
            packed: Seq::empty(),
        };
        match spec_create_blocks(dpc, s0, m.blocks, files, m.pool) {
            Err(e) => Err(e),
            Ok(s) => {
                let blocks_padded = (s.out.len() - 2048) as u32;
                match m.pool {
                    None => spec_create_finish(
                        m.header,
                        s.descs,
                        s.bpad,
                        (patch, minor),
                        PoolOut { out: s.out, max_sectors: 0, ppad: 0 },
                        0,
                        0,
                        blocks_padded,
                    ),
                    Some(p) => match spec_create_pool(dpc, s, p, files) {
                        Err(e) => Err(e),
                        Ok((o, pm_padded, pm_offset)) => spec_create_finish(
                            m.header,
                            s.descs,
                            s.bpad,
                            (patch, minor),
                            o,
                            pm_padded,
                            pm_offset,
                            blocks_padded,
                        ),
                    },
                }
            },
        }
    }
}

/// Once a prefix of the objects fails, writing all of them fails the same way.
pub proof fn lemma_create_objects_err(dpc: FuelDPC, s: CreateState, ds: Seq<ObjectDescription>, n: int, files: Seq<(u32, Seq<u8>)>, pool: Option<PoolModel>)
    requires
        0 <= n <= ds.len(),
        spec_create_objects(dpc, s, ds.take(n), files, pool) is Err,
    ensures
        spec_create_objects(dpc, s, ds, files, pool) == spec_create_objects(dpc, s, ds.take(n), files, pool),
    decreases ds.len(),
{
    if n == ds.len() {
        assert(ds.take(n) =~= ds);
    } else {
        assert(ds.drop_last().take(n) =~= ds.take(n));
        lemma_create_objects_err(dpc, s, ds.drop_last(), n, files, pool);
    }
}

/// Once a prefix of the blocks fails, writing all of them fails the same way.
pub proof fn lemma_create_blocks_err(dpc: FuelDPC, s: CreateState, bs: Seq<BlockModel>, n: int, files: Seq<(u32, Seq<u8>)>, pool: Option<PoolModel>)
    requires
        0 <= n <= bs.len(),
        spec_create_blocks(dpc, s, bs.take(n), files, pool) is Err,
    ensures
        spec_create_blocks(dpc, s, bs, files, pool) == spec_create_blocks(dpc, s, bs.take(n), files, pool),
    decreases bs.len(),
{
    if n == bs.len() {
        assert(bs.take(n) =~= bs);
    } else {
        assert(bs.drop_last().take(n) =~= bs.take(n));
        lemma_create_blocks_err(dpc, s, bs.drop_last(), n, files, pool);
    }
}

/// Once a prefix of the pool objects fails, writing all of them fails the same way.
pub proof fn lemma_pool_objects_out_err(dpc: FuelDPC, s: CreateState, p: PoolModel, idxs: Seq<u32>, n: int, files: Seq<(u32, Seq<u8>)>, o: PoolOut)
    requires
        0 <= n <= idxs.len(),
        spec_pool_objects_out(dpc, s, p, idxs.take(n), files, o) is Err,
    ensures
        spec_pool_objects_out(dpc, s, p, idxs, files, o) == spec_pool_objects_out(dpc, s, p, idxs.take(n), files, o),
    decreases idxs.len(),
{
    if n == idxs.len() {
        assert(idxs.take(n) =~= idxs);
    } else {
        assert(idxs.drop_last().take(n) =~= idxs.take(n));
        lemma_pool_objects_out_err(dpc, s, p, idxs.drop_last(), n, files, o);
    }
}

/// The files as values.
pub open spec fn inputs(files: Seq<InputFile>) -> Seq<(u32, Seq<u8>)> {
    files.map_values(|x: InputFile| x@)
}

/// The pool as values.
pub open spec fn pool_model(pool: Option<Pool>) -> Option<PoolModel> {
    match pool {
        Some(p) => Some(p@),
        None => None,
    }
}

/// The work of putting a DPC together, as it goes.
pub struct CreateWork {
    pub out: Vec<u8>,
    pub descs: Vec<BlockDescription>,
    pub block_type: u32,
    pub bpad: u32,
    pub compress: HashMap<u32, bool>,
    pub chunks: HashMap<u32, u32>,
    pub packed: Vec<InputFile>,
}

impl View for CreateWork {
    type V = CreateState;

    open spec fn view(&self) -> CreateState {
        CreateState {
            out: self.out@,
            descs: self.descs@,
            block_type: self.block_type,
            bpad: self.bpad,
            compress: self.compress@,
            chunks: self.chunks@,
            packed: inputs(self.packed@),
        }
    }
}

/// Whether `pool` holds an entry for the object `c`.
fn in_pool(pool: &Option<Pool>, c: u32) -> (r: bool)
    ensures
        r == pool_has(pool_model(*pool), c),
{
    match pool {
        None => false,
        Some(p) => {
            let mut e: usize = 0;
            while e < p.object_entries.len()
                invariant
                    e <= p.object_entries@.len(),
                    pool_model(*pool) == Some(p@),
                    forall|k: int| 0 <= k < e ==> p.object_entries@[k].crc32 != c,
                decreases p.object_entries@.len() - e,
            {
                if p.object_entries[e].crc32 == c {
                    assert(pool_model(*pool) == Some(p@));
                    assert(p@.object_entries[e as int].crc32 == c);
                    assert(exists|x: int| 0 <= x < p@.object_entries.len() && #[trigger] p@.object_entries[x].crc32 == c);
                    let ghost pm = p@;
                    assert(pm.object_entries[e as int].crc32 == c);
                    assert(entries_have(pm, c));
                    return true;
                }
                e = e + 1;
            }
            false
        },
    }
}

/// Writes one object of a block.
fn create_object(dpc: &FuelDPC, w: &mut CreateWork, d: ObjectDescription, files: &Vec<InputFile>, pool: &Option<Pool>) -> (r: Result<(), DpcError>)
    ensures
        match spec_create_object(*dpc, old(w)@, d, inputs(files@), pool_model(*pool)) {
            Ok(s) => r is Ok && final(w)@ == s,
            Err(e) => r == Err::<(), DpcError>(e),
        },
{
    let i = match find_input(files, d.crc32) {
        None => return Err(DpcError::Invalid),
        Some(i) => i,
    };
    assert(inputs(files@)[i as int].1 == files@[i as int].bytes@);
    let file = files[i].bytes.as_slice();
    let (oh, _) = read_file_header(file);
    let c = oh.crc32;
    let comp = dpc.compresses(d.compress, oh.compressed_size);
    if !in_pool(pool, c) {
        let b = match pack_block_object(file, comp) {
            Ok(b) => b,
            Err(e) => return Err(e),
        };
        push_bytes(&mut w.out, b.as_slice());
        return Ok(());
    }
    let first = match w.compress.get(&c) {
        Some(v) => {
            if *v != d.compress {
                return Err(DpcError::Invalid);
            }
            false
        },
        None => true,
    };
    let mut sh = oh;
    if first && comp {
        let cb = match pack_pool_compressed(file) {
            Ok(cb) => cb,
            Err(e) => return Err(e),
        };
        let (h2, _) = read_file_header(cb.as_slice());
        sh = h2;
        let ghost before = inputs(w.packed@);
        let ghost cbv = cb@;
        w.packed.push(InputFile { crc32: c, bytes: cb });
        assert(inputs(w.packed@) =~= before.push((c, cbv)));
    }
    if !w.chunks.contains_key(&c) {
        let n = match pool_object_chunks(sh) {
            Ok(n) => n,
            Err(e) => return Err(e),
        };
        w.chunks.insert(c, n);
    }
    let rb = pack_pool_reference(file);
    push_bytes(&mut w.out, rb.as_slice());
    if first {
        w.compress.insert(c, d.compress);
    }
    Ok(())
}

/// Writes one block.
fn create_block(dpc: &FuelDPC, w: &mut CreateWork, b: &Block, files: &Vec<InputFile>, pool: &Option<Pool>) -> (r: Result<(), DpcError>)
    ensures
        match spec_create_block(*dpc, old(w)@, b@, inputs(files@), pool_model(*pool)) {
            Ok(s) => r is Ok && final(w)@ == s,
            Err(e) => r == Err::<(), DpcError>(e),
        },
{
    let ghost s0 = w@;
    let ghost ds = b.objects@;
    let start = w.out.len();
    let mut k: usize = 0;
    while k < b.objects.len()
        invariant
            k <= ds.len(),
            ds == b.objects@,
            s0 == old(w)@,
            start == s0.out.len(),
            spec_create_objects(*dpc, s0, ds.take(k as int), inputs(files@), pool_model(*pool)) == Ok::<CreateState, DpcError>(w@),
        decreases ds.len() - k,
    {
        assert(ds.take(k + 1).drop_last() =~= ds.take(k as int));
        assert(ds.take(k + 1).last() == ds[k as int]);
        match create_object(dpc, w, b.objects[k], files, pool) {
            Ok(()) => {},
            Err(e) => {
                proof { lemma_create_objects_err(*dpc, s0, ds, k + 1, inputs(files@), pool_model(*pool)); }
                return Err(e);
            },
        }
        k = k + 1;
    }
    assert(ds.take(k as int) =~= ds);
    assert(w.out@.len() >= start) by {
        lemma_objects_grow(*dpc, s0, ds, inputs(files@), pool_model(*pool));
    }
    if b.objects.len() == 0 {
        return Err(DpcError::Invalid);
    }
    let len = w.out.len() - start;
    if len > 0xFFFF_F800 || w.out.len() > 0xFFFF_F800 || b.objects.len() > 0xFFFF_FFFF {
        return Err(DpcError::Overflow);
    }
    let pad = calculate_padding_size(w.out.len() as u32);
    if pad > 0xFFFF_FFFF - w.bpad {
        return Err(DpcError::Overflow);
    }
    let desc = describe_block(w.block_type, b.objects.len() as u32, b.objects[0].crc32, len as u32, b.offset);
    push_fill(&mut w.out, 0, pad as usize);
    w.descs.push(desc);
    w.block_type = 0;
    w.bpad = w.bpad + pad;
    Ok(())
}

/// Writing objects only adds bytes.
pub proof fn lemma_objects_grow(dpc: FuelDPC, s: CreateState, ds: Seq<ObjectDescription>, files: Seq<(u32, Seq<u8>)>, pool: Option<PoolModel>)
    requires
        spec_create_objects(dpc, s, ds, files, pool) is Ok,
    ensures
        spec_create_objects(dpc, s, ds, files, pool)->Ok_0.out.len() >= s.out.len(),
    decreases ds.len(),
{
    if ds.len() > 0 {
        lemma_objects_grow(dpc, s, ds.drop_last(), files, pool);
    }
}

/// Writes the pool objects that the object entry indices of `p` name at the end of `out`;
/// gives the largest sector count and the padding added.
fn create_pool_objects(dpc: &FuelDPC, w: &CreateWork, p: &Pool, files: &Vec<InputFile>, out: &mut Vec<u8>) -> (r: Result<(u32, u32), DpcError>)
    ensures
        match spec_pool_objects_out(*dpc, w@, p@, p.object_entry_indices@, inputs(files@), PoolOut { out: old(out)@, max_sectors: 0, ppad: 0 }) {
            Ok(o) => r matches Ok((m, pp)) && final(out)@ == o.out && m == o.max_sectors && pp == o.ppad,
            Err(e) => r == Err::<(u32, u32), DpcError>(e),
        },
{
    let ghost o0 = PoolOut { out: out@, max_sectors: 0, ppad: 0 };
    let ghost idxs = p.object_entry_indices@;
    let mut max_sectors: u32 = 0;
    let mut ppad: u32 = 0;
    let mut k: usize = 0;
    while k < p.object_entry_indices.len()
        invariant
            k <= idxs.len(),
            idxs == p.object_entry_indices@,
            o0 == (PoolOut { out: old(out)@, max_sectors: 0, ppad: 0 }),
            spec_pool_objects_out(*dpc, w@, p@, idxs.take(k as int), inputs(files@), o0) == Ok::<PoolOut, DpcError>(
                PoolOut { out: out@, max_sectors: max_sectors, ppad: ppad },
            ),
        decreases idxs.len() - k,
    {
        assert(idxs.take(k + 1).drop_last() =~= idxs.take(k as int));
        assert(idxs.take(k + 1).last() == idxs[k as int]);
        let idx = p.object_entry_indices[k];
        let ghost cur = PoolOut { out: out@, max_sectors: max_sectors, ppad: ppad };
        if idx as usize >= p.object_entries.len() {
            proof { lemma_pool_objects_out_err(*dpc, w@, p@, idxs, k + 1, inputs(files@), o0); }
            return Err(DpcError::Invalid);
        }
        let c = p.object_entries[idx as usize].crc32;
        let mark = match w.compress.get(&c) {
            Some(v) => *v,
            None => {
                proof { lemma_pool_objects_out_err(*dpc, w@, p@, idxs, k + 1, inputs(files@), o0); }
                return Err(DpcError::Invalid);
            },
        };
        let compressed = mark && dpc.options.is_lz && dpc.options.is_optimization;
        let src = if compressed { &w.packed } else { files };
        let j = match find_input(src, c) {
            Some(j) => j,
            None => {
                proof { lemma_pool_objects_out_err(*dpc, w@, p@, idxs, k + 1, inputs(files@), o0); }
                return Err(DpcError::Invalid);
            },
        };
        assert(inputs(src@)[j as int].1 == src@[j as int].bytes@);
        let file = src[j].bytes.as_slice();
        if out.len() > 0xFFFF_FFFF {
            proof { lemma_pool_objects_out_err(*dpc, w@, p@, idxs, k + 1, inputs(files@), o0); }
            return Err(DpcError::Overflow);
        }
        let (bytes, sectors) = match pack_pool_object(file, out.len() as u32) {
            Ok(x) => x,
            Err(e) => {
                proof { lemma_pool_objects_out_err(*dpc, w@, p@, idxs, k + 1, inputs(files@), o0); }
                return Err(e);
            },
        };
        let (written, _) = read_file_header(bytes.as_slice());
        if bytes.len() < 24 || (bytes.len() - 24) < written.data_size as usize
            || (bytes.len() - 24 - written.data_size as usize) > (0xFFFF_FFFF - ppad) as usize {
            proof { lemma_pool_objects_out_err(*dpc, w@, p@, idxs, k + 1, inputs(files@), o0); }
            return Err(DpcError::Overflow);
        }
        let extra = (bytes.len() - 24 - written.data_size as usize) as u32;
        push_bytes(out, bytes.as_slice());
        if sectors > max_sectors {
            max_sectors = sectors;
        }
        ppad = ppad + extra;
        k = k + 1;
    }
    assert(idxs.take(k as int) =~= idxs);
    Ok((max_sectors, ppad))
}

/// A copy of `p`.
fn copy_pool(p: &Pool) -> (r: Pool)
    ensures
        r@ == p@,
{
    let mut a: Vec<u32> = Vec::new();
    let mut i: usize = 0;
    while i < p.object_entry_indices.len()
        invariant
            i <= p.object_entry_indices@.len(),
            a@ == p.object_entry_indices@.take(i as int),
        decreases p.object_entry_indices@.len() - i,
    {
        a.push(p.object_entry_indices[i]);
        i = i + 1;
        assert(a@ =~= p.object_entry_indices@.take(i as int));
    }
    let mut b: Vec<crate::manifest::PoolObjectEntry> = Vec::new();
    let mut i: usize = 0;
    while i < p.object_entries.len()
        invariant
            i <= p.object_entries@.len(),
            b@ == p.object_entries@.take(i as int),
        decreases p.object_entries@.len() - i,
    {
        b.push(p.object_entries[i]);
        i = i + 1;
        assert(b@ =~= p.object_entries@.take(i as int));
    }
    let mut c: Vec<crate::manifest::JsonReferenceRecord> = Vec::new();
    let mut i: usize = 0;
    while i < p.reference_records.len()
        invariant
            i <= p.reference_records@.len(),
            c@ == p.reference_records@.take(i as int),
        decreases p.reference_records@.len() - i,
    {
        c.push(p.reference_records[i]);
        i = i + 1;
        assert(c@ =~= p.reference_records@.take(i as int));
    }
    assert(a@ =~= p.object_entry_indices@);
    assert(b@ =~= p.object_entries@);
    assert(c@ =~= p.reference_records@);
    Pool { object_entry_indices: a, object_entries: b, reference_records: c }
}

/// A sector's padding adds less than a sector.
pub proof fn lemma_pad_small(x: int)
    requires
        x >= 0,
    ensures
        x <= spec_padded(x) < x + 2048,
{
    assert(((x + 2047) / 2048) * 2048 <= x + 2047 && ((x + 2047) / 2048) * 2048 > x - 1) by (nonlinear_arith)
        requires
            x >= 0,
    ;
}

/// Writing blocks only adds bytes, and what it writes stays within 32-bit positions.
pub proof fn lemma_blocks_bounds(dpc: FuelDPC, s: CreateState, bs: Seq<BlockModel>, files: Seq<(u32, Seq<u8>)>, pool: Option<PoolModel>)
    requires
        spec_create_blocks(dpc, s, bs, files, pool) is Ok,
    ensures
        spec_create_blocks(dpc, s, bs, files, pool)->Ok_0.out.len() >= s.out.len(),
        spec_create_blocks(dpc, s, bs, files, pool)->Ok_0.out.len() <= u32::MAX
            || spec_create_blocks(dpc, s, bs, files, pool)->Ok_0.out.len() == s.out.len(),
    decreases bs.len(),
{
    if bs.len() > 0 {
        lemma_blocks_bounds(dpc, s, bs.drop_last(), files, pool);
        let s1 = spec_create_blocks(dpc, s, bs.drop_last(), files, pool)->Ok_0;
        lemma_objects_grow(dpc, s1, bs.last().objects, files, pool);
        let s2 = spec_create_objects(dpc, s1, bs.last().objects, files, pool)->Ok_0;
        lemma_pad_small(s2.out.len() as int);
    }
}

/// A copy of `v`.
fn copy_bytes(v: &[u8]) -> (r: Vec<u8>)
    ensures
        r@ == v@,
{
    let mut out: Vec<u8> = Vec::new();
    push_bytes(&mut out, v);
    assert(out@ =~= v@);
    out
}

/// Puts the primary header over the first sector of `out`, once the blocks and the pool are
/// written.
fn create_finish(
    mh: &ManifestHeader,
    descs: Vec<BlockDescription>,
    bpad: u32,
    version: (u32, u32),
    out: Vec<u8>,
    max_sectors: u32,
    ppad: u32,
    pm_padded: u32,
    pm_offset: u32,
    blocks_padded: u32,
) -> (r: Result<Vec<u8>, DpcError>)
    requires
        out@.len() >= 2048,
    ensures
        match spec_create_finish(
            mh@,
            descs@,
            bpad,
            version,
            PoolOut { out: out@, max_sectors: max_sectors, ppad: ppad },
            pm_padded,
            pm_offset,
            blocks_padded,
        ) {
            Ok(v) => r matches Ok(rv) && rv@ == v,
            Err(e) => r == Err::<Vec<u8>, DpcError>(e),
        },
{
    if out.len() > 0xFFFF_FFFF {
        return Err(DpcError::Overflow);
    }
    let caps = match working_buffer_capacities(&descs) {
        Ok(c) => c,
        Err(e) => return Err(e),
    };
    if mh.version_string.len() > 256 || mh.incredi_builder_string.len() > 128 || descs.len() > 64 {
        return Err(DpcError::Invalid);
    }
    if pm_padded > 0xFFFF_FFFF - 2047 || pm_offset > 0xFFFF_FFFF - 2047 {
        return Err(DpcError::Overflow);
    }
    let ghost dm = descs@;
    let header = new_primary_header(
        mh,
        descs,
        caps,
        blocks_padded,
        version,
        pm_padded,
        pm_offset,
        max_sectors,
        bpad,
        ppad,
        out.len() as u32,
    );
    assert(header@ == spec_new_header(mh@, dm, blocks_padded, version, pm_padded, pm_offset, max_sectors, bpad, ppad, out@.len() as u32));
    let mut bytes = header.to_bytes();
    let rest = crate::extract::copy_range(out.as_slice(), 2048, out.len());
    push_bytes(&mut bytes, rest.as_slice());
    assert(rest@ =~= out@.skip(2048));
    Ok(bytes)
}

/// Checks that every object entry of `p` names one of its reference records.
fn check_entries(p: &Pool) -> (r: bool)
    ensures
        r == entries_name_records(p@),
{
    let mut e: usize = 0;
    while e < p.object_entries.len()
        invariant
            e <= p.object_entries@.len(),
            forall|k: int| 0 <= k < e ==> 1 <= #[trigger] p.object_entries@[k].reference_record_index <= p.reference_records@.len(),
        decreases p.object_entries@.len() - e,
    {
        let i = p.object_entries[e].reference_record_index;
        if i == 0 || i as usize > p.reference_records.len() {
            assert(!(1 <= p@.object_entries[e as int].reference_record_index <= p@.reference_records.len()));
            return false;
        }
        e = e + 1;
    }
    true
}

/// Whether the backend accepts putting together a DPC from the manifest `m`: LZ compression
/// only with the optimizing encoder, a pool only with unsafe operation or when its objects
/// are moved into the blocks, and a version it does not know only with unsafe operation.
pub open spec fn create_accepted(dpc: FuelDPC, m: ManifestModel) -> bool {
    &&& !(dpc.options.is_lz && !dpc.options.is_optimization)
    &&& (m.pool is Some ==> dpc.no_pool || dpc.options.is_unsafe)
    &&& (spec_version_info(m.header.version_string) is Some || dpc.options.is_unsafe)
}

/// Puts together the DPC that `manifest` describes from the object files `files`, each
/// named by its object's crc32 (the first of a name is used). The backend must accept the
/// manifest. A block without objects, a missing file, a pool object marked both compressed
/// and not, and a pool that cannot be written give `DpcError::Invalid`; sizes that overflow
/// their 32-bit fields give `DpcError::Overflow`.
#[verifier::spinoff_prover]
#[verifier::rlimit(60)]
pub fn create_dpc(dpc: &FuelDPC, manifest: &Manifest, files: &Vec<InputFile>) -> (r: Result<Vec<u8>, DpcError>)
    requires
        create_accepted(*dpc, manifest@),
    ensures
        match spec_create_dpc(*dpc, manifest@, inputs(files@)) {
            Ok(v) => r matches Ok(rv) && rv@ == v,
            Err(e) => r == Err::<Vec<u8>, DpcError>(e),
        },
{
    let ghost m = adjusted(*dpc, manifest@);
    let pool: Option<Pool> = if dpc.no_pool {
        None
    } else {
        match &manifest.pool {
            Some(p) => Some(copy_pool(p)),
            None => None,
        }
    };
    assert(pool_model(pool) == m.pool);
    let mh = ManifestHeader {
        version_string: copy_bytes(manifest.header.version_string.as_slice()),
        is_rtc: manifest.header.is_rtc,
        pool_manifest_unused: if dpc.no_pool { 0 } else { manifest.header.pool_manifest_unused },
        incredi_builder_string: copy_bytes(manifest.header.incredi_builder_string.as_slice()),
    };
    assert(mh@ == m.header);
    let (patch, minor, block_type) = match version_info(mh.version_string.as_slice()) {
        Some(t) => t,
        None => (0u32, 0u32, 0u32),
    };
    let mut out0: Vec<u8> = Vec::new();
    push_fill(&mut out0, 0, 2048);
    let mut w = CreateWork {
        out: out0,
        descs: Vec::new(),
        block_type: block_type,
        bpad: 0,
        compress: HashMap::new(),
        chunks: HashMap::new(),
        packed: Vec::new(),
    };
    let ghost s0 = CreateState {
        out: Seq::new(2048, |j: int| 0u8),
        descs: Seq::empty(),
        block_type: block_type,
        bpad: 0,
        compress: Map::empty(),
        chunks: Map::empty(),
        packed: Seq::empty(),
    };
    assert(w.out@ =~= s0.out);
    assert(inputs(w.packed@) =~= s0.packed);
    assert(w@ == s0);
    let ghost bs = m.blocks;
    assert(bs == manifest.blocks@.map_values(|b: Block| b@));
    match create_blocks(dpc, &mut w, &manifest.blocks, files, &pool) {
        Ok(()) => {},
        Err(e) => return Err(e),
    }
    proof { lemma_blocks_bounds(*dpc, s0, bs, inputs(files@), pool_model(pool)); }
    let blocks_padded = (w.out.len() - 2048) as u32;
    match pool {
        None => {
            let out = copy_bytes(w.out.as_slice());
            create_finish(&mh, w.descs, w.bpad, (patch, minor), out, 0, 0, 0, 0, blocks_padded)
        },
        Some(p) => {
            let (out, ms, pp, pm_padded, offset) = match create_pool_part(dpc, &w, p, files) {
                Ok(x) => x,
                Err(e) => return Err(e),
            };
            create_finish(&mh, w.descs, w.bpad, (patch, minor), out, ms, pp, pm_padded, offset, blocks_padded)
        },
    }
}

/// Writes the blocks `blocks` one after the other.
fn create_blocks(dpc: &FuelDPC, w: &mut CreateWork, blocks: &Vec<Block>, files: &Vec<InputFile>, pool: &Option<Pool>) -> (r: Result<(), DpcError>)
    ensures
        match spec_create_blocks(*dpc, old(w)@, blocks@.map_values(|b: Block| b@), inputs(files@), pool_model(*pool)) {
            Ok(s) => r is Ok && final(w)@ == s,
            Err(e) => r == Err::<(), DpcError>(e),
        },
{
    let ghost s0 = w@;
    let ghost bs = blocks@.map_values(|b: Block| b@);
    let mut x: usize = 0;
    while x < blocks.len()
        invariant
            x <= blocks@.len(),
            bs == blocks@.map_values(|b: Block| b@),
            s0 == old(w)@,
            spec_create_blocks(*dpc, s0, bs.take(x as int), inputs(files@), pool_model(*pool)) == Ok::<CreateState, DpcError>(w@),
        decreases blocks@.len() - x,
    {
        assert(bs.take(x + 1).drop_last() =~= bs.take(x as int));
        assert(bs.take(x + 1).last() == blocks@[x as int]@);
        match create_block(dpc, w, &blocks[x], files, pool) {
            Ok(()) => {},
            Err(e) => {
                proof { lemma_create_blocks_err(*dpc, s0, bs, x + 1, inputs(files@), pool_model(*pool)); }
                return Err(e);
            },
        }
        x = x + 1;
    }
    assert(bs.take(x as int) =~= bs);
    Ok(())
}

/// Writes the pool `p` after the blocks: optimized when asked for, its section, then its
/// objects. Gives the bytes, the largest sector count, the padding after pool objects, the
/// section's size and its offset.
fn create_pool_part(dpc: &FuelDPC, w: &CreateWork, p: Pool, files: &Vec<InputFile>) -> (r: Result<(Vec<u8>, u32, u32, u32, u32), DpcError>)
    requires
        w@.out.len() <= u32::MAX,
    ensures
        match spec_create_pool(*dpc, w@, p@, inputs(files@)) {
            Ok((o, pm_padded, offset)) => r matches Ok((out, ms, pp, a, b)) && out@ == o.out && ms == o.max_sectors
                && pp == o.ppad && a == pm_padded && b == offset && out@.len() >= w@.out.len(),
            Err(e) => r == Err::<(Vec<u8>, u32, u32, u32, u32), DpcError>(e),
        },
{
    let mut p2 = p;
    if dpc.optimizes_pool() {
        if p2.reference_records.len() > 0xFFFF_FFFF || !check_entries(&p2) {
            return Err(DpcError::Invalid);
        }
        optimize_pool(&mut p2);
    }
    let offset = w.out.len() as u32;
    let section = match build_pool_section(&p2, &w.chunks, offset) {
        Ok(v) => v,
        Err(e) => return Err(e),
    };
    if section.len() > 0xFFFF_FFFF {
        return Err(DpcError::Overflow);
    }
    let mut out = copy_bytes(w.out.as_slice());
    push_bytes(&mut out, section.as_slice());
    let ghost o0 = PoolOut { out: out@, max_sectors: 0, ppad: 0 };
    let (ms, pp) = match create_pool_objects(dpc, w, &p2, files, &mut out) {
        Ok(x) => x,
        Err(e) => return Err(e),
    };
    proof { lemma_pool_out_grows(*dpc, w@, p2@, p2@.object_entry_indices, inputs(files@), o0); }
    Ok((out, ms, pp, section.len() as u32, offset))
}

/// Writing pool objects only adds bytes.
pub proof fn lemma_pool_out_grows(dpc: FuelDPC, s: CreateState, p: PoolModel, idxs: Seq<u32>, files: Seq<(u32, Seq<u8>)>, o: PoolOut)
    requires
        spec_pool_objects_out(dpc, s, p, idxs, files, o) is Ok,
    ensures
        spec_pool_objects_out(dpc, s, p, idxs, files, o)->Ok_0.out.len() >= o.out.len(),
    decreases idxs.len(),
{
    if idxs.len() > 0 {
        lemma_pool_out_grows(dpc, s, p, idxs.drop_last(), files, o);
    }
}

} // verus!
