//! Writing the pool manifest of a new DPC from the manifest's pool.
//!
//! Each object entry gets the number of times the object entry indices name an entry with
//! its crc32, and its size in sectors. Each reference record covers a run of the object
//! entry indices; its chunk indices count the sectors of the pool objects before the run
//! and to its end, from the first sector after the pool manifest.
use vstd::prelude::*;
use std::collections::HashMap;
use crate::bytes::{push_fill};
use crate::fuel_dpc::{DpcError, spec_padded, calculate_padding_size};
use crate::layout::{
    PoolManifest, PoolManifestHeader, PoolManifestModel, ReferenceRecord, spec_pool_manifest_bytes,
};
use crate::manifest::{Pool, PoolModel, PoolObjectEntry, JsonReferenceRecord};
use crate::header::filled;

verus! {

broadcast use vstd::std_specs::hash::group_hash_axioms;

/// The crc32 of the object entry that object entry index `i` names.
pub open spec fn indexed_crc(pool: PoolModel, i: int) -> u32 {
    pool.object_entries[pool.object_entry_indices[i] as int].crc32
}

/// How many of the first `n` object entry indices name an entry with crc32 `crc`.
pub open spec fn ref_count(pool: PoolModel, crc: u32, n: int) -> nat
    decreases n,
{
    if n <= 0 {
        0
    } else {
        ref_count(pool, crc, n - 1) + if indexed_crc(pool, n - 1) == crc {
            1nat
        } else {
            0nat
        }
    }
}

/// The sectors of the objects that object entry indices `lo` to `hi` name.
pub open spec fn chunk_sum(pool: PoolModel, chunks: Map<u32, u32>, lo: int, hi: int) -> int
    decreases hi - lo,
{
    if hi <= lo {
        0
    } else {
        chunk_sum(pool, chunks, lo, hi - 1) + chunks[indexed_crc(pool, hi - 1)]
    }
}

/// The object counts of the first `n` reference records, added up.
pub open spec fn count_sum(refs: Seq<JsonReferenceRecord>, n: int) -> int
    decreases n,
{
    if n <= 0 {
        0
    } else {
        count_sum(refs, n - 1) + refs[n - 1].object_entries_count
    }
}

/// Where the reference records start when the pool manifest is written at `offset`.
pub open spec fn records_pos(pool: PoolModel, offset: u32) -> int {
    offset + 32 + 4 * pool.object_entry_indices.len() + 16 * pool.object_entries.len()
}

/// The first sector after the pool manifest, as the writer reckons it.
pub open spec fn first_object_sector(pool: PoolModel, offset: u32) -> int {
    spec_padded(records_pos(pool, offset) + 28 * pool.reference_records.len() + 28) / 2048
}

/// The chunk index at which reference record `r` starts.
pub open spec fn start_chunk(pool: PoolModel, chunks: Map<u32, u32>, offset: u32, r: int) -> int {
    first_object_sector(pool, offset) + chunk_sum(
        pool,
        chunks,
        0,
        pool.reference_records[r].object_entries_starting_index as int,
    )
}

/// The chunk index at which reference record `r` ends.
pub open spec fn end_chunk(pool: PoolModel, chunks: Map<u32, u32>, offset: u32, r: int) -> int {
    let s = pool.reference_records[r].object_entries_starting_index as int;
    start_chunk(pool, chunks, offset, r) + chunk_sum(
        pool,
        chunks,
        s,
        s + pool.reference_records[r].object_entries_count,
    )
}

/// Whether the pool manifest can be written at `offset` for `pool`, with the sector counts
/// `chunks` of its objects: every index names an entry, every entry's object is named by
/// some index and has a sector count, every record's run lies within the indices, and every
/// number fits its field.
pub open spec fn pool_buildable(pool: PoolModel, chunks: Map<u32, u32>, offset: u32) -> bool {
    let ni = pool.object_entry_indices.len();
    let ne = pool.object_entries.len();
    let nr = pool.reference_records.len();
    &&& ni <= u32::MAX
    &&& ne <= u32::MAX
    &&& nr <= u32::MAX
    &&& forall|i: int| 0 <= i < ni ==> #[trigger] pool.object_entry_indices[i] < ne
    &&& forall|e: int|
        0 <= e < ne ==> ref_count(pool, #[trigger] pool.object_entries[e].crc32, ni as int) > 0
            && chunks.contains_key(pool.object_entries[e].crc32)
    &&& count_sum(pool.reference_records, nr as int) <= u32::MAX
    &&& records_pos(pool, offset) + 28 * nr + 32 <= 0xFFFF_F800
    &&& forall|r: int|
        0 <= r < nr ==> {
            &&& #[trigger] pool.reference_records[r].object_entries_starting_index
                + pool.reference_records[r].object_entries_count <= ni
            &&& start_chunk(pool, chunks, offset, r) <= u32::MAX
            &&& end_chunk(pool, chunks, offset, r) <= u32::MAX
        }
}

/// The reference record written for record `r` of the pool.
pub open spec fn record_for(pool: PoolModel, chunks: Map<u32, u32>, offset: u32, r: int) -> ReferenceRecord {
    ReferenceRecord {
        start_chunk_index: start_chunk(pool, chunks, offset, r) as u32,
        end_chunk_index: end_chunk(pool, chunks, offset, r) as u32,
        objects_crc32_starting_index: pool.reference_records[r].object_entries_starting_index,
        placeholder_dpc_index: 0,
        objects_crc32_count: pool.reference_records[r].object_entries_count,
        placeholder_times_referenced: 0xFFFF_FFFF,
        placeholder_current_references_shared: 0xFFFF_FFFF,
        placeholder_current_references_weak: 0xFFFF_FFFF,
    }
}

/// The reference record that ends the pool manifest.
pub open spec fn terminal_record() -> ReferenceRecord {
    ReferenceRecord {
        start_chunk_index: 0,
        end_chunk_index: 0,
        objects_crc32_starting_index: 0,
        placeholder_dpc_index: 0,
        objects_crc32_count: 0,
        placeholder_times_referenced: 0xFFFF_FFFF,
        placeholder_current_references_shared: 0xFFFF_FFFF,
        placeholder_current_references_weak: 0xFFFF_FFFF,
    }
}

/// The pool manifest written for `pool`.
pub open spec fn pool_manifest_model(pool: PoolModel, chunks: Map<u32, u32>, offset: u32) -> PoolManifestModel {
    let ni = pool.object_entry_indices.len() as int;
    let ne = pool.object_entries.len();
    PoolManifestModel {
        header: PoolManifestHeader {
            equals524288: 524288,
            equals2048: 2048,
            objects_crc32_count_sum: count_sum(pool.reference_records, pool.reference_records.len() as int) as u32,
        },
        objects_crc32s: pool.object_entry_indices,
        crc32s: Seq::new(ne, |e: int| pool.object_entries[e].crc32),
        reference_counts: Seq::new(ne, |e: int| ref_count(pool, pool.object_entries[e].crc32, ni) as u32),
        object_padded_size: Seq::new(ne, |e: int| chunks[pool.object_entries[e].crc32]),
        reference_records_indices: Seq::new(ne, |e: int| pool.object_entries[e].reference_record_index),
        reference_records: Seq::new(
            pool.reference_records.len(),
            |r: int| record_for(pool, chunks, offset, r),
        ),
    }
}

/// The pool section written at `offset`: the pool manifest, the terminal record, and 0xFF
/// bytes up to the next sector.
pub open spec fn spec_pool_section(pool: PoolModel, chunks: Map<u32, u32>, offset: u32) -> Seq<u8> {
    let m = spec_pool_manifest_bytes(pool_manifest_model(pool, chunks, offset))
        + terminal_record().spec_bytes();
    m + filled(0xff, spec_padded(offset + m.len()) - (offset + m.len()))
}

/// Later sums count no fewer sectors.
pub proof fn lemma_chunk_sum_mono(pool: PoolModel, chunks: Map<u32, u32>, lo: int, k: int, hi: int)
    requires
        lo <= k <= hi,
    ensures
        chunk_sum(pool, chunks, lo, k) <= chunk_sum(pool, chunks, lo, hi),
    decreases hi - k,
{
    if k < hi {
        lemma_chunk_sum_mono(pool, chunks, lo, k, hi - 1);
    }
}

/// Later sums count no fewer objects.
pub proof fn lemma_count_sum_mono(refs: Seq<JsonReferenceRecord>, k: int, n: int)
    requires
        0 <= k <= n,
    ensures
        count_sum(refs, k) <= count_sum(refs, n),
    decreases n - k,
{
    if k < n {
        lemma_count_sum_mono(refs, k, n - 1);
    }
}

/// A reference count is at most the number of indices counted.
pub proof fn lemma_ref_count_bound(pool: PoolModel, crc: u32, n: int)
    requires
        0 <= n,
    ensures
        ref_count(pool, crc, n) <= n,
    decreases n,
{
    if n > 0 {
        lemma_ref_count_bound(pool, crc, n - 1);
    }
}

/// Sums the sectors of the objects that indices `lo` to `hi` name, from `base`; `None` when
/// the sum passes `u32::MAX`.
fn sum_chunks(pool: &Pool, chunks: &HashMap<u32, u32>, base: u32, lo: usize, hi: usize) -> (r: Option<u32>)
    requires
        lo <= hi <= pool.object_entry_indices@.len(),
        forall|i: int| 0 <= i < pool.object_entry_indices@.len() ==> #[trigger] pool.object_entry_indices@[i] < pool.object_entries@.len(),
        forall|e: int| 0 <= e < pool.object_entries@.len() ==> chunks@.contains_key(#[trigger] pool.object_entries@[e].crc32),
    ensures
        match r {
            Some(v) => v == base + chunk_sum(pool@, chunks@, lo as int, hi as int),
            None => base + chunk_sum(pool@, chunks@, lo as int, hi as int) > u32::MAX,
        },
{
    let mut acc: u32 = base;
    let mut i: usize = lo;
    while i < hi
        invariant
            lo <= i <= hi,
            hi <= pool.object_entry_indices@.len(),
            forall|i: int| 0 <= i < pool.object_entry_indices@.len() ==> #[trigger] pool.object_entry_indices@[i] < pool.object_entries@.len(),
            forall|e: int| 0 <= e < pool.object_entries@.len() ==> chunks@.contains_key(#[trigger] pool.object_entries@[e].crc32),
            acc == base + chunk_sum(pool@, chunks@, lo as int, i as int),
        decreases hi - i,
    {
        let idx = pool.object_entry_indices[i] as usize;
        let crc = pool.object_entries[idx].crc32;
        let c = match chunks.get(&crc) {
            Some(c) => *c,
            None => {
                assert(chunks@.contains_key(pool.object_entries@[idx as int].crc32));
                return None;
            },
        };
        if c > 0xFFFF_FFFF - acc {
            proof {
                lemma_chunk_sum_mono(pool@, chunks@, lo as int, i + 1, hi as int);
            }
            return None;
        }
        acc = acc + c;
        i = i + 1;
    }
    Some(acc)
}

/// Writes the pool section for `pool` at `offset`, with `chunks` the sector counts of its
/// objects by crc32: the pool manifest, the terminal reference record, and 0xFF bytes up to
/// the next sector. `DpcError::Invalid` when the pool cannot be written so.
pub fn build_pool_section(pool: &Pool, chunks: &HashMap<u32, u32>, offset: u32) -> (r: Result<Vec<u8>, DpcError>)
    ensures
        match r {
            Ok(v) => pool_buildable(pool@, chunks@, offset) && v@ == spec_pool_section(pool@, chunks@, offset),
            Err(e) => !pool_buildable(pool@, chunks@, offset) && e == DpcError::Invalid,
        },
{
    let ni = pool.object_entry_indices.len();
    let ne = pool.object_entries.len();
    let nr = pool.reference_records.len();
    if ni > 0xFFFF_FFFF || ne > 0xFFFF_FFFF || nr > 0xFFFF_FFFF {
        return Err(DpcError::Invalid);
    }
    // every index names an entry
    let mut i: usize = 0;
    while i < ni
        invariant
            i <= ni,
            ni == pool.object_entry_indices@.len(),
            ne == pool.object_entries@.len(),
            forall|k: int| 0 <= k < i ==> #[trigger] pool.object_entry_indices@[k] < ne,
        decreases ni - i,
    {
        if pool.object_entry_indices[i] as usize >= ne {
            return Err(DpcError::Invalid);
        }
        i = i + 1;
    }
    // reference counts by crc32
    let mut counts: HashMap<u32, u32> = HashMap::new();
    let mut i: usize = 0;
    while i < ni
        invariant
            i <= ni,
            ni == pool.object_entry_indices@.len(),
            ni <= u32::MAX,
            ne == pool.object_entries@.len(),
            forall|k: int| 0 <= k < ni ==> #[trigger] pool.object_entry_indices@[k] < ne,
            forall|crc: u32| #[trigger] counts@.contains_key(crc) <==> ref_count(pool@, crc, i as int) > 0,
            forall|crc: u32| counts@.contains_key(crc) ==> #[trigger] counts@[crc] == ref_count(pool@, crc, i as int),
        decreases ni - i,
    {
        let crc = pool.object_entries[pool.object_entry_indices[i] as usize].crc32;
        let old_count: u32 = match counts.get(&crc) {
            Some(c) => *c,
            None => 0,
        };
        proof {
            lemma_ref_count_bound(pool@, crc, i as int);
        }
        counts.insert(crc, old_count + 1);
        i = i + 1;
    }
    // per-entry columns
    let mut crc32s: Vec<u32> = Vec::new();
    let mut ref_counts: Vec<u32> = Vec::new();
    let mut sizes: Vec<u32> = Vec::new();
    let mut rec_indices: Vec<u32> = Vec::new();
    let mut e: usize = 0;
    while e < ne
        invariant
            e <= ne,
            ni == pool.object_entry_indices@.len(),
            ne == pool.object_entries@.len(),
            forall|crc: u32| #[trigger] counts@.contains_key(crc) <==> ref_count(pool@, crc, ni as int) > 0,
            forall|crc: u32| counts@.contains_key(crc) ==> #[trigger] counts@[crc] == ref_count(pool@, crc, ni as int),
            crc32s@.len() == e && ref_counts@.len() == e && sizes@.len() == e && rec_indices@.len() == e,
            forall|k: int| 0 <= k < e ==> ref_count(pool@, #[trigger] pool.object_entries@[k].crc32, ni as int) > 0
                && chunks@.contains_key(pool.object_entries@[k].crc32),
            forall|k: int| 0 <= k < e ==> #[trigger] crc32s@[k] == pool.object_entries@[k].crc32,
            forall|k: int| 0 <= k < e ==> #[trigger] ref_counts@[k] == ref_count(pool@, pool.object_entries@[k].crc32, ni as int),
            forall|k: int| 0 <= k < e ==> #[trigger] sizes@[k] == chunks@[pool.object_entries@[k].crc32],
            forall|k: int| 0 <= k < e ==> #[trigger] rec_indices@[k] == pool.object_entries@[k].reference_record_index,
        decreases ne - e,
    {
        let entry: PoolObjectEntry = pool.object_entries[e];
        let c = match counts.get(&entry.crc32) {
            Some(c) => *c,
            None => {
                assert(!(ref_count(pool@, pool.object_entries@[e as int].crc32, ni as int) > 0));
                return Err(DpcError::Invalid);
            },
        };
        let s = match chunks.get(&entry.crc32) {
            Some(s) => *s,
            None => {
                assert(!chunks@.contains_key(pool.object_entries@[e as int].crc32));
                return Err(DpcError::Invalid);
            },
        };
        crc32s.push(entry.crc32);
        ref_counts.push(c);
        sizes.push(s);
        rec_indices.push(entry.reference_record_index);
        e = e + 1;
    }
    // the sum of the records' object counts
    let mut sum: u32 = 0;
    let mut k: usize = 0;
    while k < nr
        invariant
            k <= nr,
            nr == pool.reference_records@.len(),
            sum == count_sum(pool.reference_records@, k as int),
        decreases nr - k,
    {
        let c = pool.reference_records[k].object_entries_count as u32;
        if c > 0xFFFF_FFFF - sum {
            proof {
                lemma_count_sum_mono(pool.reference_records@, k + 1, nr as int);
            }
            return Err(DpcError::Invalid);
        }
        sum = sum + c;
        k = k + 1;
    }
    // where the records stand, and the first sector after the manifest
    let pos: u64 = offset as u64 + 32 + 4 * (ni as u64) + 16 * (ne as u64);
    if pos + 28 * (nr as u64) + 32 > 0xFFFF_F800 {
        return Err(DpcError::Invalid);
    }
    let end = crate::fuel_dpc::calculate_padded_size((pos + 28 * (nr as u64) + 28) as u32);
    let base: u32 = end / 2048;
    // the reference records
    let mut records: Vec<ReferenceRecord> = Vec::new();
    let mut k: usize = 0;
    while k < nr
        invariant
            k <= nr,
            nr == pool.reference_records@.len(),
            ni == pool.object_entry_indices@.len(),
            ne == pool.object_entries@.len(),
            base == first_object_sector(pool@, offset),
            forall|i: int| 0 <= i < ni ==> #[trigger] pool.object_entry_indices@[i] < ne,
            forall|e: int| 0 <= e < ne ==> chunks@.contains_key(#[trigger] pool.object_entries@[e].crc32),
            records@.len() == k,
            forall|r: int| 0 <= r < k ==> {
                &&& #[trigger] pool.reference_records@[r].object_entries_starting_index
                    + pool.reference_records@[r].object_entries_count <= ni
                &&& start_chunk(pool@, chunks@, offset, r) <= u32::MAX
                &&& end_chunk(pool@, chunks@, offset, r) <= u32::MAX
                &&& records@[r] == record_for(pool@, chunks@, offset, r)
            },
        decreases nr - k,
    {
        let jr: JsonReferenceRecord = pool.reference_records[k];
        let s = jr.object_entries_starting_index as usize;
        let c = jr.object_entries_count as usize;
        if s > ni || c > ni - s {
            return Err(DpcError::Invalid);
        }
        let start = match sum_chunks(pool, chunks, base, 0, s) {
            Some(v) => v,
            None => return Err(DpcError::Invalid),
        };
        let stop = match sum_chunks(pool, chunks, start, s, s + c) {
            Some(v) => v,
            None => return Err(DpcError::Invalid),
        };
        records.push(ReferenceRecord {
            start_chunk_index: start,
            end_chunk_index: stop,
            objects_crc32_starting_index: jr.object_entries_starting_index,
            placeholder_dpc_index: 0,
            objects_crc32_count: jr.object_entries_count,
            placeholder_times_referenced: 0xFFFF_FFFF,
            placeholder_current_references_shared: 0xFFFF_FFFF,
            placeholder_current_references_weak: 0xFFFF_FFFF,
        });
        k = k + 1;
    }
    let manifest = PoolManifest {
        header: PoolManifestHeader { equals524288: 524288, equals2048: 2048, objects_crc32_count_sum: sum },
        objects_crc32s: pool.object_entry_indices.clone(),
        crc32s: crc32s,
        reference_counts: ref_counts,
        object_padded_size: sizes,
        reference_records_indices: rec_indices,
        reference_records: records,
    };
    assert(manifest@ == pool_manifest_model(pool@, chunks@, offset)) by {
        assert(manifest.crc32s@ =~= pool_manifest_model(pool@, chunks@, offset).crc32s);
        assert(manifest.reference_counts@ =~= pool_manifest_model(pool@, chunks@, offset).reference_counts);
        assert(manifest.object_padded_size@ =~= pool_manifest_model(pool@, chunks@, offset).object_padded_size);
        assert(manifest.reference_records_indices@ =~= pool_manifest_model(pool@, chunks@, offset).reference_records_indices);
        assert(manifest.reference_records@ =~= pool_manifest_model(pool@, chunks@, offset).reference_records);
    }
    let mut out: Vec<u8> = Vec::new();
    manifest.write(&mut out);
    let terminal = ReferenceRecord {
        start_chunk_index: 0,
        end_chunk_index: 0,
        objects_crc32_starting_index: 0,
        placeholder_dpc_index: 0,
        objects_crc32_count: 0,
        placeholder_times_referenced: 0xFFFF_FFFF,
        placeholder_current_references_shared: 0xFFFF_FFFF,
        placeholder_current_references_weak: 0xFFFF_FFFF,
    };
    terminal.write(&mut out);
    proof {
        crate::layout::lemma_pool_manifest_bytes_len(manifest@);
        crate::layout::lemma_reference_record_roundtrip(terminal);
        assert(terminal == terminal_record());
    }
    let len = out.len();
    assert(offset + len == records_pos(pool@, offset) + 28 * nr + 32);
    let pad = calculate_padding_size(offset + len as u32);
    push_fill(&mut out, 0xff, pad as usize);
    assert(out@ =~= spec_pool_section(pool@, chunks@, offset));
    Ok(out)
}

} // verus!
