//! The extracted DPC's manifest, and the pool logic between it and the pool manifest.
use vstd::prelude::*;
use std::collections::HashMap;
use itertools::Itertools;
use crate::header::PrimaryHeader;
use crate::layout::{PoolManifest, ReferenceRecord};
use crate::fuel_dpc::DpcError;

verus! {

broadcast use vstd::std_specs::hash::group_hash_axioms;

/// An object of a block in the manifest.
#[derive(Clone, Copy, Debug, PartialEq, Eq, Structural)]
pub struct ObjectDescription {
    pub crc32: u32,
    pub compress: bool,
}

/// A block in the manifest.
pub struct Block {
    pub offset: u32,
    pub objects: Vec<ObjectDescription>,
}

/// The manifest's header; the strings are UTF-8 bytes.
pub struct ManifestHeader {
    pub version_string: Vec<u8>,
    pub is_rtc: bool,
    pub pool_manifest_unused: u32,
    pub incredi_builder_string: Vec<u8>,
}

/// An object entry of the pool: the object, and the (1-based) reference record it is in.
#[derive(Clone, Copy, Debug, PartialEq, Eq, Structural)]
pub struct PoolObjectEntry {
    pub crc32: u32,
    pub reference_record_index: u32,
}

/// A reference record of the pool, as the manifest keeps it.
#[derive(Clone, Copy, Debug, PartialEq, Eq, Structural)]
pub struct JsonReferenceRecord {
    pub object_entries_starting_index: u32,
    pub object_entries_count: u16,
}

/// The pool, as the manifest keeps it.
pub struct Pool {
    pub object_entry_indices: Vec<u32>,
    pub object_entries: Vec<PoolObjectEntry>,
    pub reference_records: Vec<JsonReferenceRecord>,
}

/// The manifest of an extracted DPC.
pub struct Manifest {
    pub header: ManifestHeader,
    pub blocks: Vec<Block>,
    pub pool: Option<Pool>,
}

/// A block of the manifest, as values.
pub struct BlockModel {
    pub offset: u32,
    pub objects: Seq<ObjectDescription>,
}

impl View for Block {
    type V = BlockModel;

    open spec fn view(&self) -> BlockModel {
        BlockModel { offset: self.offset, objects: self.objects@ }
    }
}

/// The manifest's header, as values.
pub struct ManifestHeaderModel {
    pub version_string: Seq<u8>,
    pub is_rtc: bool,
    pub pool_manifest_unused: u32,
    pub incredi_builder_string: Seq<u8>,
}

impl View for ManifestHeader {
    type V = ManifestHeaderModel;

    open spec fn view(&self) -> ManifestHeaderModel {
        ManifestHeaderModel {
            version_string: self.version_string@,
            is_rtc: self.is_rtc,
            pool_manifest_unused: self.pool_manifest_unused,
            incredi_builder_string: self.incredi_builder_string@,
        }
    }
}

/// The pool of the manifest, as values.
pub struct PoolModel {
    pub object_entry_indices: Seq<u32>,
    pub object_entries: Seq<PoolObjectEntry>,
    pub reference_records: Seq<JsonReferenceRecord>,
}

impl View for Pool {
    type V = PoolModel;

    open spec fn view(&self) -> PoolModel {
        PoolModel {
            object_entry_indices: self.object_entry_indices@,
            object_entries: self.object_entries@,
            reference_records: self.reference_records@,
        }
    }
}

/// The manifest, as values.
pub struct ManifestModel {
    pub header: ManifestHeaderModel,
    pub blocks: Seq<BlockModel>,
    pub pool: Option<PoolModel>,
}

impl View for Manifest {
    type V = ManifestModel;

    open spec fn view(&self) -> ManifestModel {
        ManifestModel {
            header: self.header@,
            blocks: self.blocks@.map_values(|b: Block| b@),
            pool: match &self.pool {
                Some(p) => Some(p@),
                None => None,
            },
        }
    }
}

/// The pool the manifest keeps for the pool manifest `pm`.
pub open spec fn spec_pool_of(pm: crate::layout::PoolManifestModel) -> PoolModel {
    PoolModel {
        object_entry_indices: pm.objects_crc32s,
        object_entries: Seq::new(pm.crc32s.len(), |i: int| entry_of(pm, i)),
        reference_records: pm.reference_records.map_values(|r: ReferenceRecord| json_record_of(r)),
    }
}

impl Manifest {
    /// An empty manifest.
    pub fn new() -> (r: Manifest)
        ensures
            r.header.version_string@ == Seq::<u8>::empty(),
            !r.header.is_rtc,
            r.header.pool_manifest_unused == 0,
            r.header.incredi_builder_string@ == Seq::<u8>::empty(),
            r.blocks@.len() == 0,
            r.pool is None,
    {
        Manifest {
            header: ManifestHeader {
                version_string: Vec::new(),
                is_rtc: false,
                pool_manifest_unused: 0,
                incredi_builder_string: Vec::new(),
            },
            blocks: Vec::new(),
            pool: None,
        }
    }
}

/// The manifest header of a DPC with primary header `h`: an RTC when its not-RTC word is 0,
/// and the IncrediBuild string kept only when the block padding size is known.
pub fn manifest_header_from(h: &PrimaryHeader) -> (r: ManifestHeader)
    ensures
        r.version_string@ == h.version_string@,
        r.is_rtc == (h.is_not_rtc == 0),
        r.pool_manifest_unused == h.pool_manifest_unused0,
        r.incredi_builder_string@ == (if h.block_sector_padding_size != 0xFFFF_FFFF {
            h.incredi_builder_string@
        } else {
            Seq::<u8>::empty()
        }),
{
    ManifestHeader {
        version_string: h.version_string.clone(),
        is_rtc: h.is_not_rtc == 0,
        pool_manifest_unused: h.pool_manifest_unused0,
        incredi_builder_string: if h.block_sector_padding_size != 0xFFFF_FFFF {
            h.incredi_builder_string.clone()
        } else {
            Vec::new()
        },
    }
}

/// The manifest's entry for object `i` of the pool manifest `m`.
pub open spec fn entry_of(m: crate::layout::PoolManifestModel, i: int) -> PoolObjectEntry {
    PoolObjectEntry { crc32: m.crc32s[i], reference_record_index: m.reference_records_indices[i] }
}

/// The manifest's record for the reference record `r`.
pub open spec fn json_record_of(r: ReferenceRecord) -> JsonReferenceRecord {
    JsonReferenceRecord {
        object_entries_starting_index: r.objects_crc32_starting_index,
        object_entries_count: r.objects_crc32_count,
    }
}

/// The manifest's pool for the pool manifest `pm`: an entry for each object crc32 (with its
/// reference record index), a record for each reference record, and the object entry
/// indices. `None` when there are fewer reference record indices than crc32s.
pub fn pool_from_manifest(pm: &PoolManifest) -> (r: Option<Pool>)
    ensures
        r is Some <==> pm.crc32s@.len() <= pm.reference_records_indices@.len(),
        r matches Some(p) ==> {
            &&& p.object_entry_indices@ == pm.objects_crc32s@
            &&& p.object_entries@.len() == pm.crc32s@.len()
            &&& forall|i: int| 0 <= i < pm.crc32s@.len() ==> #[trigger] p.object_entries@[i]
                == entry_of(pm@, i)
            &&& p.reference_records@.len() == pm.reference_records@.len()
            &&& forall|i: int| 0 <= i < pm.reference_records@.len() ==> #[trigger] p.reference_records@[i]
                == json_record_of(pm.reference_records@[i])
        },
{
    if pm.crc32s.len() > pm.reference_records_indices.len() {
        return None;
    }
    let mut entries: Vec<PoolObjectEntry> = Vec::new();
    let mut i: usize = 0;
    while i < pm.crc32s.len()
        invariant
            i <= pm.crc32s@.len(),
            pm.crc32s@.len() <= pm.reference_records_indices@.len(),
            entries@.len() == i,
            forall|k: int| 0 <= k < i ==> #[trigger] entries@[k] == entry_of(pm@, k),
        decreases pm.crc32s@.len() - i,
    {
        entries.push(PoolObjectEntry {
            crc32: pm.crc32s[i],
            reference_record_index: pm.reference_records_indices[i],
        });
        i = i + 1;
    }
    let mut records: Vec<JsonReferenceRecord> = Vec::new();
    let mut i: usize = 0;
    while i < pm.reference_records.len()
        invariant
            i <= pm.reference_records@.len(),
            records@.len() == i,
            forall|k: int| 0 <= k < i ==> #[trigger] records@[k] == json_record_of(pm.reference_records@[k]),
        decreases pm.reference_records@.len() - i,
    {
        let rr: ReferenceRecord = pm.reference_records[i];
        records.push(JsonReferenceRecord {
            object_entries_starting_index: rr.objects_crc32_starting_index,
            object_entries_count: rr.objects_crc32_count,
        });
        i = i + 1;
    }
    Some(Pool {
        object_entry_indices: pm.objects_crc32s.clone(),
        object_entries: entries,
        reference_records: records,
    })
}

/// The items of `s` in order, each kept only at its first occurrence.
pub open spec fn dedup_first(s: Seq<(u32, u16)>) -> Seq<(u32, u16)>
    decreases s.len(),
{
    if s.len() == 0 {
        Seq::empty()
    } else {
        let p = dedup_first(s.drop_last());
        if p.contains(s.last()) {
            p
        } else {
            p.push(s.last())
        }
    }
}

/// `itertools::Itertools::unique` on the pairs `v`, collected: the pairs in order, each
/// kept at its first occurrence (the crate documents the adaptor as stable, keeping the
/// first of a set of duplicates).
#[verifier::external_body]
fn unique_pairs(v: Vec<(u32, u16)>) -> (r: Vec<(u32, u16)>)
    ensures
        r@ == dedup_first(v@),
{
    v.into_iter().unique().collect()
}

/// No item occurs twice among the first occurrences, and they are the items of `s`.
pub proof fn lemma_dedup_first(s: Seq<(u32, u16)>)
    ensures
        forall|i: int, j: int| 0 <= i < j < dedup_first(s).len() ==> dedup_first(s)[i] != dedup_first(s)[j],
        forall|i: int| 0 <= i < s.len() ==> dedup_first(s).contains(#[trigger] s[i]),
        dedup_first(s).len() <= s.len(),
    decreases s.len(),
{
    if s.len() > 0 {
        let p = s.drop_last();
        lemma_dedup_first(p);
        let d = dedup_first(p);
        if !d.contains(s.last()) {
            let d2 = d.push(s.last());
            assert forall|i: int| 0 <= i < s.len() implies dedup_first(s).contains(#[trigger] s[i]) by {
                if i < s.len() - 1 {
                    assert(p[i] == s[i]);
                    let k = choose|k: int| 0 <= k < d.len() && d[k] == p[i];
                    assert(d2[k] == s[i]);
                } else {
                    assert(d2[d.len() as int] == s[i]);
                }
            }
        } else {
            assert forall|i: int| 0 <= i < s.len() implies dedup_first(s).contains(#[trigger] s[i]) by {
                if i < s.len() - 1 {
                    assert(p[i] == s[i]);
                }
            }
        }
    }
}

/// The pair a reference record is compared by.
pub open spec fn record_key(r: JsonReferenceRecord) -> (u32, u16) {
    (r.object_entries_starting_index, r.object_entries_count)
}

/// Where the key `k` stands in `d`.
pub open spec fn key_index(d: Seq<(u32, u16)>, k: (u32, u16)) -> int {
    choose|j: int| 0 <= j < d.len() && d[j] == k
}

/// The pool `p` optimized: each distinct reference record kept once, at its first
/// occurrence, and every object entry pointed (counting from 1) at the kept record equal to
/// its old one.
pub open spec fn spec_optimize_pool(p: PoolModel) -> PoolModel {
    let d = dedup_first(p.reference_records.map_values(|r: JsonReferenceRecord| record_key(r)));
    PoolModel {
        object_entry_indices: p.object_entry_indices,
        object_entries: p.object_entries.map_values(
            |e: PoolObjectEntry|
                PoolObjectEntry {
                    crc32: e.crc32,
                    reference_record_index: (key_index(
                        d,
                        record_key(p.reference_records[e.reference_record_index - 1]),
                    ) + 1) as u32,
                },
        ),
        reference_records: d.map_values(
            |k: (u32, u16)|
                JsonReferenceRecord { object_entries_starting_index: k.0, object_entries_count: k.1 },
        ),
    }
}

/// Optimizes the pool: keeps each distinct reference record once, at its first occurrence,
/// and points every object entry at the kept record equal to its old one. Every entry's
/// record index must be one of the records (they count from 1).
pub fn optimize_pool(pool: &mut Pool)
    requires
        old(pool).reference_records@.len() <= u32::MAX,
        forall|e: int| 0 <= e < old(pool).object_entries@.len() ==>
            1 <= #[trigger] old(pool).object_entries@[e].reference_record_index
                <= old(pool).reference_records@.len(),
    ensures
        final(pool)@ == spec_optimize_pool(old(pool)@),
        final(pool).object_entry_indices@ == old(pool).object_entry_indices@,
        final(pool).reference_records@.map_values(|r: JsonReferenceRecord| record_key(r))
            == dedup_first(old(pool).reference_records@.map_values(|r: JsonReferenceRecord| record_key(r))),
        final(pool).object_entries@.len() == old(pool).object_entries@.len(),
        forall|e: int| 0 <= e < old(pool).object_entries@.len() ==> {
            let n = #[trigger] final(pool).object_entries@[e];
            let o = old(pool).object_entries@[e];
            &&& n.crc32 == o.crc32
            &&& 1 <= n.reference_record_index <= final(pool).reference_records@.len()
            &&& final(pool).reference_records@[n.reference_record_index - 1]
                == old(pool).reference_records@[o.reference_record_index - 1]
        },
{
    let ghost keys = old(pool).reference_records@.map_values(|r: JsonReferenceRecord| record_key(r));
    let mut pairs: Vec<(u32, u16)> = Vec::new();
    let mut i: usize = 0;
    while i < pool.reference_records.len()
        invariant
            i <= pool.reference_records@.len(),
            pool.reference_records@ == old(pool).reference_records@,
            keys == old(pool).reference_records@.map_values(|r: JsonReferenceRecord| record_key(r)),
            pairs@ == keys.take(i as int),
        decreases pool.reference_records@.len() - i,
    {
        let r = pool.reference_records[i];
        pairs.push((r.object_entries_starting_index, r.object_entries_count));
        i = i + 1;
        assert(pairs@ =~= keys.take(i as int));
    }
    assert(keys.take(i as int) =~= keys);
    let uniq = unique_pairs(pairs);
    proof {
        lemma_dedup_first(keys);
    }
    let mut records: Vec<JsonReferenceRecord> = Vec::new();
    let mut k: usize = 0;
    while k < uniq.len()
        invariant
            k <= uniq@.len(),
            uniq@ == dedup_first(keys),
            records@.len() == k,
            forall|j: int| 0 <= j < k ==> record_key(#[trigger] records@[j]) == uniq@[j],
        decreases uniq@.len() - k,
    {
        let (a, b) = uniq[k];
        records.push(JsonReferenceRecord { object_entries_starting_index: a, object_entries_count: b });
        k = k + 1;
    }
    assert(records@.map_values(|r: JsonReferenceRecord| record_key(r)) =~= uniq@);
    let mut entries: Vec<PoolObjectEntry> = Vec::new();
    let mut e: usize = 0;
    while e < pool.object_entries.len()
        invariant
            e <= pool.object_entries@.len(),
            pool.object_entries@ == old(pool).object_entries@,
            pool.reference_records@ == old(pool).reference_records@,
            keys == old(pool).reference_records@.map_values(|r: JsonReferenceRecord| record_key(r)),
            uniq@ == dedup_first(keys),
            uniq@.len() == records@.len(),
            uniq@.len() <= keys.len() <= u32::MAX,
            forall|j: int| 0 <= j < records@.len() ==> record_key(#[trigger] records@[j]) == uniq@[j],
            forall|a: int, b: int| 0 <= a < b < uniq@.len() ==> uniq@[a] != uniq@[b],
            forall|a: int| 0 <= a < keys.len() ==> uniq@.contains(#[trigger] keys[a]),
            forall|x: int| 0 <= x < old(pool).object_entries@.len() ==>
                1 <= #[trigger] old(pool).object_entries@[x].reference_record_index
                    <= old(pool).reference_records@.len(),
            entries@.len() == e,
            forall|x: int| 0 <= x < e ==> {
                let n = #[trigger] entries@[x];
                let o = old(pool).object_entries@[x];
                &&& n.crc32 == o.crc32
                &&& 1 <= n.reference_record_index <= records@.len()
                &&& records@[n.reference_record_index - 1] == old(pool).reference_records@[o.reference_record_index - 1]
                &&& n == spec_optimize_pool(old(pool)@).object_entries[x]
            },
        decreases pool.object_entries@.len() - e,
    {
        let entry = pool.object_entries[e];
        let record = pool.reference_records[(entry.reference_record_index - 1) as usize];
        let key = (record.object_entries_starting_index, record.object_entries_count);
        assert(keys[entry.reference_record_index - 1] == key);
        let mut pos: usize = 0;
        while pos < uniq.len() && (uniq[pos].0 != key.0 || uniq[pos].1 != key.1)
            invariant
                pos <= uniq@.len(),
                forall|j: int| 0 <= j < pos ==> uniq@[j] != key,
            decreases uniq@.len() - pos,
        {
            pos = pos + 1;
        }
        proof {
            if pos == uniq.len() {
                assert(uniq@.contains(key));
                let w = choose|w: int| 0 <= w < uniq@.len() && uniq@[w] == key;
                assert(uniq@[w] != key);
            }
        }
        assert(record_key(records@[pos as int]) == key);
        assert(records@[pos as int] == record);
        proof {
            let j = key_index(uniq@, key);
            assert(uniq@[pos as int] == key);
            assert(0 <= j < uniq@.len() && uniq@[j] == key);
            assert(j == pos);
            assert(record_key(old(pool)@.reference_records[entry.reference_record_index - 1]) == key);
        }
        entries.push(PoolObjectEntry {
            crc32: entry.crc32,
            reference_record_index: pos as u32 + 1,
        });
        e = e + 1;
    }
    pool.reference_records = records;
    pool.object_entries = entries;
    assert(pool.object_entries@ =~= spec_optimize_pool(old(pool)@).object_entries);
    assert(pool.reference_records@ =~= spec_optimize_pool(old(pool)@).reference_records) by {
        assert forall|j: int| 0 <= j < pool.reference_records@.len() implies #[trigger] pool.reference_records@[j]
            == spec_optimize_pool(old(pool)@).reference_records[j] by {
            assert(record_key(pool.reference_records@[j]) == uniq@[j]);
        }
    }
}

/// Records `v` for `k` unless a value is recorded for it already.
pub fn record_first<V>(map: &mut HashMap<u32, V>, k: u32, v: V)
    ensures
        final(map)@ == (if old(map)@.contains_key(k) {
            old(map)@
        } else {
            old(map)@.insert(k, v)
        }),
{
    if !map.contains_key(&k) {
        map.insert(k, v);
    }
}

/// Records that the pool's copy of object `k` is compressed (or not), over what its block
/// copy said; `false` when no block holds the object.
pub fn record_pool_compress(map: &mut HashMap<u32, bool>, k: u32, compress: bool) -> (r: bool)
    ensures
        r == old(map)@.contains_key(k),
        r ==> final(map)@ == old(map)@.insert(k, compress),
        !r ==> final(map)@ == old(map)@,
{
    if map.contains_key(&k) {
        map.insert(k, compress);
        true
    } else {
        false
    }
}

/// Notes that a block refers to pool object `k` marked `compress`: `Ok(true)` the first time
/// (the mark is recorded), `Ok(false)` when the same mark was recorded before, and
/// `DpcError::Invalid` when another mark was.
pub fn note_pool_compress(map: &mut HashMap<u32, bool>, k: u32, compress: bool) -> (r: Result<bool, DpcError>)
    ensures
        !old(map)@.contains_key(k) ==> r == Ok::<bool, DpcError>(true) && final(map)@ == old(map)@.insert(k, compress),
        old(map)@.contains_key(k) && old(map)@[k] == compress ==> r == Ok::<bool, DpcError>(false) && final(map)@ == old(map)@,
        old(map)@.contains_key(k) && old(map)@[k] != compress ==> r == Err::<bool, DpcError>(DpcError::Invalid) && final(map)@ == old(map)@,
{
    match map.get(&k) {
        Some(v) => {
            if *v == compress {
                Ok(false)
            } else {
                Err(DpcError::Invalid)
            }
        },
        None => {
            map.insert(k, compress);
            Ok(true)
        },
    }
}

/// The blocks with every object's compress mark taken from `table`; `None` when an object
/// has no mark there.
pub fn resolve_compress_flags(blocks: &Vec<Block>, table: &HashMap<u32, bool>) -> (r: Option<Vec<Block>>)
    ensures
        r is Some <==> (forall|b: int, o: int| 0 <= b < blocks@.len() && 0 <= o < blocks@[b].objects@.len()
            ==> table@.contains_key(#[trigger] blocks@[b].objects@[o].crc32)),
        r matches Some(nb) ==> {
            &&& nb@.len() == blocks@.len()
            &&& forall|b: int| 0 <= b < blocks@.len() ==> {
                &&& (#[trigger] nb@[b]).offset == blocks@[b].offset
                &&& nb@[b].objects@.len() == blocks@[b].objects@.len()
                &&& forall|o: int| 0 <= o < blocks@[b].objects@.len() ==> (#[trigger] nb@[b].objects@[o]).crc32
                    == blocks@[b].objects@[o].crc32 && nb@[b].objects@[o].compress
                    == table@[blocks@[b].objects@[o].crc32]
            }
        },
{
    let mut out: Vec<Block> = Vec::new();
    let mut b: usize = 0;
    while b < blocks.len()
        invariant
            b <= blocks@.len(),
            out@.len() == b,
            forall|b2: int, o: int| 0 <= b2 < b && 0 <= o < blocks@[b2].objects@.len()
                ==> table@.contains_key(#[trigger] blocks@[b2].objects@[o].crc32),
            forall|b2: int| 0 <= b2 < b ==> {
                &&& (#[trigger] out@[b2]).offset == blocks@[b2].offset
                &&& out@[b2].objects@.len() == blocks@[b2].objects@.len()
                &&& forall|o: int| 0 <= o < blocks@[b2].objects@.len() ==> (#[trigger] out@[b2].objects@[o]).crc32
                    == blocks@[b2].objects@[o].crc32 && out@[b2].objects@[o].compress
                    == table@[blocks@[b2].objects@[o].crc32]
            },
        decreases blocks@.len() - b,
    {
        let block = &blocks[b];
        let mut objects: Vec<ObjectDescription> = Vec::new();
        let mut o: usize = 0;
        while o < block.objects.len()
            invariant
                o <= block.objects@.len(),
                b < blocks@.len(),
                block.objects@ == blocks@[b as int].objects@,
                objects@.len() == o,
                forall|o2: int| 0 <= o2 < o ==> table@.contains_key(#[trigger] block.objects@[o2].crc32),
                forall|o2: int| 0 <= o2 < o ==> (#[trigger] objects@[o2]).crc32 == block.objects@[o2].crc32
                    && objects@[o2].compress == table@[block.objects@[o2].crc32],
            decreases block.objects@.len() - o,
        {
            let d = block.objects[o];
            match table.get(&d.crc32) {
                Some(c) => {
                    objects.push(ObjectDescription { crc32: d.crc32, compress: *c });
                },
                None => {
                    assert(!table@.contains_key(blocks@[b as int].objects@[o as int].crc32));
                    return None;
                },
            }
            o = o + 1;
        }
        out.push(Block { offset: block.offset, objects: objects });
        b = b + 1;
    }
    Some(out)
}

} // verus!
