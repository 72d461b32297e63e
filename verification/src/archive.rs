//! A whole DPC taken apart: its manifest and the object files written for it.
use vstd::prelude::*;
use std::collections::HashMap;
use crate::create::FuelDPC;
use crate::extract::{
    BlockObject, BlockObjectModel, PoolObject, PoolObjectModel, spec_block_objects,
    spec_extract_object, spec_merge_pool_object, spec_pool_objects, extract_object,
    merge_pool_object, parse_block_objects, parse_pool_objects, copy_range,
};
use crate::fuel_dpc::{ObjectHeader, DpcError, read_at, after_read, read_file_at};
use crate::header::{PrimaryHeader, PrimaryHeaderModel, spec_parse_primary_header};
use crate::layout::{BlockDescription, PoolManifest, spec_parse_pool_manifest};
use crate::manifest::{
    Pool, Block, BlockModel, Manifest, ManifestHeaderModel, ManifestModel, ObjectDescription,
    spec_pool_of, manifest_header_from, pool_from_manifest, resolve_compress_flags,
};
use crate::tables::spec_version_info;

verus! {

broadcast use vstd::std_specs::hash::group_hash_axioms;

/// An object file written while a DPC is taken apart: the object's crc32, its class's crc32
/// (the two name the file) and the file's bytes.
pub struct ExtractedFile {
    pub crc32: u32,
    pub class_crc32: u32,
    pub bytes: Vec<u8>,
}

impl View for ExtractedFile {
    type V = (u32, u32, Seq<u8>);

    open spec fn view(&self) -> (u32, u32, Seq<u8>) {
        (self.crc32, self.class_crc32, self.bytes@)
    }
}

/// What taking a DPC apart has gathered so far: the object files in the order they were
/// first written, each object's header as its first block gave it, and whether each object
/// is marked compressed.
pub struct ExtractState {
    pub files: Seq<(u32, u32, Seq<u8>)>,
    pub headers: Map<u32, ObjectHeader>,
    pub table: Map<u32, bool>,
}

/// Nothing gathered yet.
pub open spec fn empty_state() -> ExtractState {
    ExtractState { files: Seq::empty(), headers: Map::empty(), table: Map::empty() }
}

/// The manifest's description of the block objects `objs`.
pub open spec fn descriptions(objs: Seq<BlockObjectModel>) -> Seq<ObjectDescription> {
    objs.map_values(
        |o: BlockObjectModel|
            ObjectDescription { crc32: o.header.crc32, compress: o.header.compressed_size != 0 },
    )
}

/// One block object taken in: the first time its crc32 is met, its file is written and its
/// header and compress mark are recorded.
pub open spec fn spec_object_step(s: ExtractState, o: BlockObjectModel, is_lz: bool) -> Result<ExtractState, DpcError> {
    let c = o.header.crc32;
    if s.headers.contains_key(c) {
        Ok(s)
    } else {
        match spec_extract_object(o, is_lz) {
            Err(e) => Err(e),
            Ok((_, bytes)) => Ok(
                ExtractState {
                    files: s.files.push((c, o.header.class_crc32, bytes)),
                    headers: s.headers.insert(c, o.header),
                    table: s.table.insert(c, o.header.compressed_size != 0),
                },
            ),
        }
    }
}

/// The block objects `objs` taken in one after the other.
pub open spec fn spec_object_steps(s: ExtractState, objs: Seq<BlockObjectModel>, is_lz: bool) -> Result<ExtractState, DpcError>
    decreases objs.len(),
{
    if objs.len() == 0 {
        Ok(s)
    } else {
        match spec_object_steps(s, objs.drop_last(), is_lz) {
            Err(e) => Err(e),
            Ok(s2) => spec_object_step(s2, objs.last(), is_lz),
        }
    }
}

/// The blocks described by `descs` read one after the other from `pos` of the DPC `f`: the
/// manifest's blocks, what was gathered, and the position after the last block.
pub open spec fn spec_block_steps(f: Seq<u8>, descs: Seq<BlockDescription>, is_lz: bool, pos: int) -> Result<(Seq<BlockModel>, ExtractState, int), DpcError>
    decreases descs.len(),
{
    if descs.len() == 0 {
        Ok((Seq::empty(), empty_state(), pos))
    } else {
        match spec_block_steps(f, descs.drop_last(), is_lz, pos) {
            Err(e) => Err(e),
            Ok((bs, s, p)) => {
                let d = descs.last();
                match spec_block_objects(read_at(f, p, d.padded_size as nat), 0, d.object_count as nat) {
                    Err(e) => Err(e),
                    Ok(objs) => match spec_object_steps(s, objs, is_lz) {
                        Err(e) => Err(e),
                        Ok(s2) => Ok(
                            (
                                bs.push(BlockModel { offset: d.working_buffer_offset, objects: descriptions(objs) }),
                                s2,
                                after_read(f, p, d.padded_size as int),
                            ),
                        ),
                    },
                }
            },
        }
    }
}

/// The index of the first file from `i` on written for the object `crc`.
pub open spec fn first_file(files: Seq<(u32, u32, Seq<u8>)>, crc: u32, i: int) -> Option<int>
    decreases files.len() - i,
{
    if i < 0 || i >= files.len() {
        None
    } else if files[i].0 == crc {
        Some(i)
    } else {
        first_file(files, crc, i + 1)
    }
}

/// One pool object taken in: the object's file, which must be of the pool object's class,
/// gets the pool's part joined to it, and the object's compress mark becomes the pool's.
pub open spec fn spec_pool_step(s: ExtractState, p: PoolObjectModel, is_lz: bool) -> Result<ExtractState, DpcError> {
    let c = p.header.crc32;
    {
        match first_file(s.files, c, 0) {
            None => Err(DpcError::Invalid),
            Some(i) => if s.files[i].1 != p.header.class_crc32 || !s.headers.contains_key(c)
                || !s.table.contains_key(c) {
                Err(DpcError::Invalid)
            } else {
                match spec_merge_pool_object(s.files[i].2, s.headers[c], p, is_lz) {
                    Err(e) => Err(e),
                    Ok((_, bytes)) => Ok(
                        ExtractState {
                            files: s.files.update(i, (c, s.files[i].1, bytes)),
                            headers: s.headers,
                            table: s.table.insert(c, p.header.compressed_size != 0),
                        },
                    ),
                }
            },
        }
    }
}

/// The pool objects `objs` taken in one after the other.
pub open spec fn spec_pool_steps(s: ExtractState, objs: Seq<PoolObjectModel>, is_lz: bool) -> Result<ExtractState, DpcError>
    decreases objs.len(),
{
    if objs.len() == 0 {
        Ok(s)
    } else {
        match spec_pool_steps(s, objs.drop_last(), is_lz) {
            Err(e) => Err(e),
            Ok(s2) => spec_pool_step(s2, objs.last(), is_lz),
        }
    }
}

/// Every object of `blocks` has a compress mark in `table`.
pub open spec fn all_marked(blocks: Seq<BlockModel>, table: Map<u32, bool>) -> bool {
    forall|b: int, o: int|
        0 <= b < blocks.len() && 0 <= o < blocks[b].objects.len() ==> table.contains_key(
            #[trigger] blocks[b].objects[o].crc32,
        )
}

/// `blocks` with every object's compress mark taken from `table`.
pub open spec fn marked_blocks(blocks: Seq<BlockModel>, table: Map<u32, bool>) -> Seq<BlockModel> {
    blocks.map_values(
        |b: BlockModel|
            BlockModel {
                offset: b.offset,
                objects: b.objects.map_values(
                    |d: ObjectDescription| ObjectDescription { crc32: d.crc32, compress: table[d.crc32] },
                ),
            },
    )
}

/// The manifest's header for the primary header `h`.
pub open spec fn manifest_header_model(h: PrimaryHeaderModel) -> ManifestHeaderModel {
    ManifestHeaderModel {
        version_string: h.version_string,
        is_rtc: h.is_not_rtc == 0,
        pool_manifest_unused: h.pool_manifest_unused0,
        incredi_builder_string: if h.block_sector_padding_size != 0xFFFF_FFFF {
            h.incredi_builder_string
        } else {
            Seq::empty()
        },
    }
}

/// The manifest and files once everything is gathered.
pub open spec fn spec_finish(h: PrimaryHeaderModel, blocks: Seq<BlockModel>, pool: Option<crate::manifest::PoolModel>, files: Seq<(u32, u32, Seq<u8>)>, table: Map<u32, bool>) -> Result<(ManifestModel, Seq<(u32, u32, Seq<u8>)>), DpcError> {
    if all_marked(blocks, table) {
        Ok(
            (
                ManifestModel {
                    header: manifest_header_model(h),
                    blocks: marked_blocks(blocks, table),
                    pool: pool,
                },
                files,
            ),
        )
    } else {
        Err(DpcError::Invalid)
    }
}

/// The pool part of the DPC `f`: the pool manifest of `padded` bytes read at `pos`, and the
/// pool objects after it taken in; the manifest's pool and what is gathered then.
pub open spec fn spec_pool_part(f: Seq<u8>, pos: int, padded: u32, s: ExtractState, is_lz: bool) -> Result<(crate::manifest::PoolModel, ExtractState), DpcError> {
    let buf = read_at(f, pos, padded as nat);
    let rest_at = after_read(f, pos, padded as int);
    match spec_parse_pool_manifest(buf) {
        None => Err(DpcError::Invalid),
        Some((pm, _)) => if pm.crc32s.len() > pm.reference_records_indices.len() {
            Err(DpcError::Invalid)
        } else {
            match spec_pool_objects(f.skip(rest_at), 0, pm.objects_crc32s.len()) {
                Err(e) => Err(e),
                Ok(pobjs) => match spec_pool_steps(s, pobjs, is_lz) {
                    Err(e) => Err(e),
                    Ok(s2) => Ok((spec_pool_of(pm), s2)),
                },
            }
        },
    }
}

/// Taking the DPC `f` apart: its manifest, and the object files in the order they were first
/// written (by the first block that holds each object, then joined with the object's pool
/// part). `is_lz` asks for compressed objects to be decompressed.
pub open spec fn spec_extract_dpc(f: Seq<u8>, is_lz: bool) -> Result<(ManifestModel, Seq<(u32, u32, Seq<u8>)>), DpcError> {
    match spec_parse_primary_header(read_at(f, 0, 2048)) {
        Err(e) => Err(e),
        Ok((h, _)) => {
            match spec_block_steps(f, h.block_descriptions, is_lz, after_read(f, 0, 2048)) {
                Err(e) => Err(e),
                Ok((blocks, s, pos)) => if h.pool_manifest_offset == 0 {
                    spec_finish(h, blocks, None, s.files, s.table)
                } else {
                    match spec_pool_part(f, pos, h.pool_manifest_padded_size, s, is_lz) {
                        Err(e) => Err(e),
                        Ok((p, s2)) => spec_finish(h, blocks, Some(p), s2.files, s2.table),
                    }
                },
            }
        },
    }
}

/// Once a prefix of the block objects fails, taking in all of them fails the same way.
pub proof fn lemma_object_steps_err(s: ExtractState, objs: Seq<BlockObjectModel>, n: int, is_lz: bool)
    requires
        0 <= n <= objs.len(),
        spec_object_steps(s, objs.take(n), is_lz) is Err,
    ensures
        spec_object_steps(s, objs, is_lz) == spec_object_steps(s, objs.take(n), is_lz),
    decreases objs.len(),
{
    if n == objs.len() {
        assert(objs.take(n) =~= objs);
    } else {
        assert(objs.drop_last().take(n) =~= objs.take(n));
        lemma_object_steps_err(s, objs.drop_last(), n, is_lz);
    }
}

/// Once a prefix of the pool objects fails, taking in all of them fails the same way.
pub proof fn lemma_pool_steps_err(s: ExtractState, objs: Seq<PoolObjectModel>, n: int, is_lz: bool)
    requires
        0 <= n <= objs.len(),
        spec_pool_steps(s, objs.take(n), is_lz) is Err,
    ensures
        spec_pool_steps(s, objs, is_lz) == spec_pool_steps(s, objs.take(n), is_lz),
    decreases objs.len(),
{
    if n == objs.len() {
        assert(objs.take(n) =~= objs);
    } else {
        assert(objs.drop_last().take(n) =~= objs.take(n));
        lemma_pool_steps_err(s, objs.drop_last(), n, is_lz);
    }
}

/// Once a prefix of the blocks fails, reading all of them fails the same way.
pub proof fn lemma_block_steps_err(f: Seq<u8>, descs: Seq<BlockDescription>, n: int, is_lz: bool, pos: int)
    requires
        0 <= n <= descs.len(),
        spec_block_steps(f, descs.take(n), is_lz, pos) is Err,
    ensures
        spec_block_steps(f, descs, is_lz, pos) == spec_block_steps(f, descs.take(n), is_lz, pos),
    decreases descs.len(),
{
    if n == descs.len() {
        assert(descs.take(n) =~= descs);
    } else {
        assert(descs.drop_last().take(n) =~= descs.take(n));
        lemma_block_steps_err(f, descs.drop_last(), n, is_lz, pos);
    }
}

/// The gathered state that `files`, `headers` and `table` hold.
pub open spec fn state_of(files: Seq<ExtractedFile>, headers: Map<u32, ObjectHeader>, table: Map<u32, bool>) -> ExtractState {
    ExtractState { files: files.map_values(|x: ExtractedFile| x@), headers: headers, table: table }
}

/// Takes in the objects of one block.
fn take_block_objects(
    objs: &Vec<BlockObject>,
    is_lz: bool,
    files: &mut Vec<ExtractedFile>,
    headers: &mut HashMap<u32, ObjectHeader>,
    table: &mut HashMap<u32, bool>,
) -> (r: Result<(), DpcError>)
    ensures
        match spec_object_steps(
            state_of(old(files)@, old(headers)@, old(table)@),
            objs@.map_values(|o: BlockObject| o@),
            is_lz,
        ) {
            Ok(s) => r is Ok && state_of(final(files)@, final(headers)@, final(table)@) == s,
            Err(e) => r == Err::<(), DpcError>(e),
        },
{
    let ghost s0 = state_of(files@, headers@, table@);
    let ghost om = objs@.map_values(|o: BlockObject| o@);
    let mut i: usize = 0;
    while i < objs.len()
        invariant
            i <= objs@.len(),
            om == objs@.map_values(|o: BlockObject| o@),
            s0 == state_of(old(files)@, old(headers)@, old(table)@),
            spec_object_steps(s0, om.take(i as int), is_lz) == Ok::<ExtractState, DpcError>(
                state_of(files@, headers@, table@),
            ),
        decreases objs@.len() - i,
    {
        assert(om.take(i + 1).drop_last() =~= om.take(i as int));
        assert(om.take(i + 1).last() == objs@[i as int]@);
        let o = &objs[i];
        let c = o.header.crc32;
        if !headers.contains_key(&c) {
            let (_, bytes) = match extract_object(o, is_lz) {
                Ok(x) => x,
                Err(e) => {
                    proof {
                        assert(!state_of(files@, headers@, table@).headers.contains_key(om[i as int].header.crc32));
                        assert(spec_object_steps(s0, om.take(i + 1), is_lz) == Err::<ExtractState, DpcError>(e));
                        lemma_object_steps_err(s0, om, i + 1, is_lz);
                    }
                    return Err(e);
                },
            };
            let ghost fb = files@.map_values(|x: ExtractedFile| x@);
            files.push(ExtractedFile { crc32: c, class_crc32: o.header.class_crc32, bytes: bytes });
            assert(files@.map_values(|x: ExtractedFile| x@) =~= fb.push(
                (c, o.header.class_crc32, spec_extract_object(o@, is_lz)->Ok_0.1),
            ));
            headers.insert(c, o.header);
            table.insert(c, o.header.compressed_size != 0);
        }
        i = i + 1;
    }
    assert(om.take(i as int) =~= om);
    Ok(())
}

/// Takes in the objects of the pool.
fn take_pool_objects(
    objs: &Vec<PoolObject>,
    is_lz: bool,
    files: &mut Vec<ExtractedFile>,
    headers: &HashMap<u32, ObjectHeader>,
    table: &mut HashMap<u32, bool>,
) -> (r: Result<(), DpcError>)
    ensures
        match spec_pool_steps(
            state_of(old(files)@, headers@, old(table)@),
            objs@.map_values(|o: PoolObject| o@),
            is_lz,
        ) {
            Ok(s) => r is Ok && state_of(final(files)@, headers@, final(table)@) == s,
            Err(e) => r == Err::<(), DpcError>(e),
        },
{
    let ghost s0 = state_of(files@, headers@, table@);
    let ghost om = objs@.map_values(|o: PoolObject| o@);
    let mut i: usize = 0;
    while i < objs.len()
        invariant
            i <= objs@.len(),
            om == objs@.map_values(|o: PoolObject| o@),
            s0 == state_of(old(files)@, headers@, old(table)@),
            spec_pool_steps(s0, om.take(i as int), is_lz) == Ok::<ExtractState, DpcError>(
                state_of(files@, headers@, table@),
            ),
        decreases objs@.len() - i,
    {
        assert(om.take(i + 1).drop_last() =~= om.take(i as int));
        assert(om.take(i + 1).last() == objs@[i as int]@);
        let p = &objs[i];
        let c = p.header.crc32;
        let ghost fm = files@.map_values(|x: ExtractedFile| x@);
        let mut k: usize = 0;
        while k < files.len() && files[k].crc32 != c
            invariant
                k <= files@.len(),
                fm == files@.map_values(|x: ExtractedFile| x@),
                first_file(fm, c, 0) == first_file(fm, c, k as int),
            decreases files@.len() - k,
        {
            k = k + 1;
        }
        if k == files.len() {
            proof { lemma_pool_steps_err(s0, om, i + 1, is_lz); }
            return Err(DpcError::Invalid);
        }
        assert(first_file(fm, c, 0) == Some(k as int));
        if files[k].class_crc32 != p.header.class_crc32 {
            proof { lemma_pool_steps_err(s0, om, i + 1, is_lz); }
            return Err(DpcError::Invalid);
        }
        let oh = match headers.get(&c) {
            Some(h) => *h,
            None => {
                proof { lemma_pool_steps_err(s0, om, i + 1, is_lz); }
                return Err(DpcError::Invalid);
            },
        };
        if !table.contains_key(&c) {
            proof { lemma_pool_steps_err(s0, om, i + 1, is_lz); }
            return Err(DpcError::Invalid);
        }
        let (_, merged) = match merge_pool_object(files[k].bytes.as_slice(), oh, p, is_lz) {
            Ok(x) => x,
            Err(e) => {
                proof { lemma_pool_steps_err(s0, om, i + 1, is_lz); }
                return Err(e);
            },
        };
        let cls = files[k].class_crc32;
        files[k] = ExtractedFile { crc32: c, class_crc32: cls, bytes: merged };
        assert(files@.map_values(|x: ExtractedFile| x@) =~= fm.update(k as int, (c, cls, merged@)));
        table.insert(c, p.header.compressed_size != 0);
        i = i + 1;
    }
    assert(om.take(i as int) =~= om);
    Ok(())
}

/// Reads the blocks described by `descs` one after the other from `pos0` of `f`.
fn take_blocks(
    f: &[u8],
    descs: &Vec<BlockDescription>,
    pos0: usize,
    is_lz: bool,
    files: &mut Vec<ExtractedFile>,
    headers: &mut HashMap<u32, ObjectHeader>,
    table: &mut HashMap<u32, bool>,
) -> (r: Result<(Vec<Block>, usize), DpcError>)
    requires
        pos0 <= f@.len(),
        state_of(old(files)@, old(headers)@, old(table)@) == empty_state(),
    ensures
        match spec_block_steps(f@, descs@, is_lz, pos0 as int) {
            Ok((bs, s, p)) => r matches Ok((rb, rp)) && rb@.map_values(|b: Block| b@) == bs
                && state_of(final(files)@, final(headers)@, final(table)@) == s && rp == p && rp <= f@.len(),
            Err(e) => r == Err::<(Vec<Block>, usize), DpcError>(e),
        },
{
    let mut blocks: Vec<Block> = Vec::new();
    let mut pos = pos0;
    assert(blocks@.map_values(|b: Block| b@) =~= Seq::<BlockModel>::empty());
    let mut x: usize = 0;
    while x < descs.len()
        invariant
            x <= descs@.len(),
            pos <= f@.len(),
            spec_block_steps(f@, descs@.take(x as int), is_lz, pos0 as int) == Ok::<(Seq<BlockModel>, ExtractState, int), DpcError>(
                (blocks@.map_values(|b: Block| b@), state_of(files@, headers@, table@), pos as int),
            ),
        decreases descs@.len() - x,
    {
        assert(descs@.take(x + 1).drop_last() =~= descs@.take(x as int));
        let d = descs[x];
        assert(descs@.take(x + 1).last() == d);
        let (buf, next) = read_file_at(f, pos, d.padded_size as usize);
        let objs = match parse_block_objects(buf.as_slice(), d.object_count) {
            Ok(v) => v,
            Err(e) => {
                proof { lemma_block_steps_err(f@, descs@, x + 1, is_lz, pos0 as int); }
                return Err(e);
            },
        };
        match take_block_objects(&objs, is_lz, files, headers, table) {
            Ok(()) => {},
            Err(e) => {
                proof { lemma_block_steps_err(f@, descs@, x + 1, is_lz, pos0 as int); }
                return Err(e);
            },
        }
        let mut ds: Vec<ObjectDescription> = Vec::new();
        let mut j: usize = 0;
        while j < objs.len()
            invariant
                j <= objs@.len(),
                ds@ == descriptions(objs@.map_values(|o: BlockObject| o@)).take(j as int),
            decreases objs@.len() - j,
        {
            ds.push(ObjectDescription {
                crc32: objs[j].header.crc32,
                compress: objs[j].header.compressed_size != 0,
            });
            j = j + 1;
            assert(ds@ =~= descriptions(objs@.map_values(|o: BlockObject| o@)).take(j as int));
        }
        assert(ds@ =~= descriptions(objs@.map_values(|o: BlockObject| o@)));
        let ghost bb = blocks@.map_values(|b: Block| b@);
        blocks.push(Block { offset: d.working_buffer_offset, objects: ds });
        assert(blocks@.map_values(|b: Block| b@) =~= bb.push(
            BlockModel {
                offset: d.working_buffer_offset,
                objects: descriptions(objs@.map_values(|o: BlockObject| o@)),
            },
        ));
        pos = next;
        x = x + 1;
    }
    assert(descs@.take(x as int) =~= descs@);
    Ok((blocks, pos))
}

/// Reads the pool manifest of `padded` bytes at `pos` of `f` and takes in the pool objects
/// after it.
fn take_pool(
    f: &[u8],
    pos: usize,
    padded: u32,
    is_lz: bool,
    files: &mut Vec<ExtractedFile>,
    headers: &HashMap<u32, ObjectHeader>,
    table: &mut HashMap<u32, bool>,
) -> (r: Result<Pool, DpcError>)
    requires
        pos <= f@.len(),
    ensures
        match spec_pool_part(f@, pos as int, padded, state_of(old(files)@, headers@, old(table)@), is_lz) {
            Ok((p, s)) => r matches Ok(rp) && rp@ == p && state_of(final(files)@, headers@, final(table)@) == s,
            Err(e) => r == Err::<Pool, DpcError>(e),
        },
{
    let (pbuf, rest_at) = read_file_at(f, pos, padded as usize);
    let (pm, _) = match PoolManifest::parse(pbuf.as_slice()) {
        Some(x) => x,
        None => return Err(DpcError::Invalid),
    };
    let p = match pool_from_manifest(&pm) {
        Some(p) => p,
        None => return Err(DpcError::Invalid),
    };
    assert(p@.object_entries =~= spec_pool_of(pm@).object_entries);
    assert(p@.reference_records =~= spec_pool_of(pm@).reference_records);
    let rest = copy_range(f, rest_at, f.len());
    assert(rest@ =~= f@.skip(rest_at as int));
    let pobjs = match parse_pool_objects(rest.as_slice(), pm.objects_crc32s.len()) {
        Ok(v) => v,
        Err(e) => return Err(e),
    };
    match take_pool_objects(&pobjs, is_lz, files, headers, table) {
        Ok(()) => {},
        Err(e) => return Err(e),
    }
    Ok(p)
}

/// The manifest with every object's compress mark taken from `table`, and the files.
fn finish(
    header: &PrimaryHeader,
    blocks: &Vec<Block>,
    pool: Option<Pool>,
    files: Vec<ExtractedFile>,
    table: &HashMap<u32, bool>,
) -> (r: Result<(Manifest, Vec<ExtractedFile>), DpcError>)
    ensures
        match spec_finish(
            header@,
            blocks@.map_values(|b: Block| b@),
            match pool { Some(p) => Some(p@), None => None },
            files@.map_values(|x: ExtractedFile| x@),
            table@,
        ) {
            Ok((m, fs)) => r matches Ok((rm, rf)) && rm@ == m && rf@.map_values(|x: ExtractedFile| x@) == fs,
            Err(e) => r == Err::<(Manifest, Vec<ExtractedFile>), DpcError>(e),
        },
{
    let ghost bm = blocks@.map_values(|b: Block| b@);
    let marked = match resolve_compress_flags(blocks, table) {
        Some(b) => b,
        None => {
            assert(!all_marked(bm, table@)) by {
                let (b, o) = choose|b: int, o: int| 0 <= b < blocks@.len() && 0 <= o < blocks@[b].objects@.len()
                    && !table@.contains_key(#[trigger] blocks@[b].objects@[o].crc32);
                assert(bm[b].objects[o] == blocks@[b].objects@[o]);
            }
            return Err(DpcError::Invalid);
        },
    };
    assert(all_marked(bm, table@)) by {
        assert forall|b: int, o: int| 0 <= b < bm.len() && 0 <= o < bm[b].objects.len() implies table@.contains_key(
            #[trigger] bm[b].objects[o].crc32) by {
            assert(bm[b].objects[o] == blocks@[b].objects@[o]);
        }
    }
    let m = Manifest { header: manifest_header_from(header), blocks: marked, pool: pool };
    assert(m@.blocks =~= marked_blocks(bm, table@)) by {
        assert forall|b: int| 0 <= b < bm.len() implies #[trigger] m@.blocks[b] == marked_blocks(bm, table@)[b] by {
            assert(m@.blocks[b].objects =~= marked_blocks(bm, table@)[b].objects) by {
                assert forall|o: int| 0 <= o < bm[b].objects.len() implies #[trigger] m@.blocks[b].objects[o]
                    == marked_blocks(bm, table@)[b].objects[o] by {
                    assert(marked@[b].objects@[o] == m@.blocks[b].objects[o]);
                }
            }
        }
    }
    assert(m@.header == manifest_header_model(header@));
    Ok((m, files))
}

/// Whether the primary header at the start of `f`, where it reads, names a version the
/// backend knows, or unsafe operation lets any version through.
pub open spec fn version_accepted(f: Seq<u8>, is_unsafe: bool) -> bool {
    spec_parse_primary_header(read_at(f, 0, 2048)) matches Ok((h, _)) ==> (spec_version_info(
        h.version_string,
    ) is Some || is_unsafe)
}

/// Takes the DPC `dpc_bytes` apart: its manifest, and the object files, each under its
/// object's and its class's crc32, in the order they were first written. Its version must be
/// one the backend knows unless unsafe operation is asked for. A header, block, pool manifest
/// or object that does not read, and a pool object whose file is missing or of another
/// class, give the error that `spec_extract_dpc` names.
pub fn extract_dpc(dpc: &FuelDPC, dpc_bytes: &[u8]) -> (r: Result<(Manifest, Vec<ExtractedFile>), DpcError>)
    requires
        version_accepted(dpc_bytes@, dpc.options.is_unsafe),
    ensures
        match spec_extract_dpc(dpc_bytes@, dpc.options.is_lz) {
            Ok((m, fs)) => r matches Ok((rm, rf)) && rm@ == m && rf@.map_values(|x: ExtractedFile| x@) == fs,
            Err(e) => r == Err::<(Manifest, Vec<ExtractedFile>), DpcError>(e),
        },
{
    let is_lz = dpc.options.is_lz;
    let f = dpc_bytes;
    let (hbuf, mut pos) = read_file_at(f, 0, 2048);
    let (header, _) = match PrimaryHeader::parse(hbuf.as_slice()) {
        Ok(x) => x,
        Err(e) => return Err(e),
    };
    let mut files: Vec<ExtractedFile> = Vec::new();
    let mut headers: HashMap<u32, ObjectHeader> = HashMap::new();
    let mut table: HashMap<u32, bool> = HashMap::new();
    assert(files@.map_values(|x: ExtractedFile| x@) =~= Seq::<(u32, u32, Seq<u8>)>::empty());
    assert(state_of(files@, headers@, table@) == empty_state());
    let (blocks, pos) = match take_blocks(f, &header.block_descriptions, pos, is_lz, &mut files, &mut headers, &mut table) {
        Ok(x) => x,
        Err(e) => return Err(e),
    };
    if header.pool_manifest_offset == 0 {
        finish(&header, &blocks, None, files, &table)
    } else {
        let pool = match take_pool(f, pos, header.pool_manifest_padded_size, is_lz, &mut files, &headers, &mut table) {
            Ok(p) => p,
            Err(e) => return Err(e),
        };
        finish(&header, &blocks, Some(pool), files, &table)
    }
}

} // verus!
