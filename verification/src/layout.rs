//! The records of a FUEL DPC besides the object header: block descriptions, the pool
//! manifest and its reference records.
use vstd::prelude::*;
use crate::bytes::{
    spec_le_u32, spec_le_u16, le32_bytes, le16_bytes, words_bytes, words_at, read_words,
    read_le_u32, read_le_u16, push_words, push_le_u32, push_le_u16, lemma_words_roundtrip,
    lemma_words_bytes_len, lemma_le32_roundtrip, lemma_le16_roundtrip,
};

verus! {

/// The description of a block in the DPC's primary header.
#[derive(Clone, Copy, Debug, PartialEq, Eq, Structural)]
pub struct BlockDescription {
    pub block_type: u32,
    pub object_count: u32,
    pub padded_size: u32,
    pub data_size: u32,
    pub working_buffer_offset: u32,
    pub crc32: u32,
}

impl BlockDescription {
    /// The description's fields, in the order they are stored.
    pub open spec fn words(self) -> Seq<u32> {
        seq![
            self.block_type,
            self.object_count,
            self.padded_size,
            self.data_size,
            self.working_buffer_offset,
            self.crc32,
        ]
    }

    /// The description stored in the 24 bytes of `s` at `off`.
    pub open spec fn spec_at(s: Seq<u8>, off: int) -> BlockDescription {
        let w = words_at(s, off, 6);
        BlockDescription {
            block_type: w[0],
            object_count: w[1],
            padded_size: w[2],
            data_size: w[3],
            working_buffer_offset: w[4],
            crc32: w[5],
        }
    }

    /// The description's 24 bytes.
    pub open spec fn spec_bytes(self) -> Seq<u8> {
        words_bytes(self.words())
    }

    /// Reads the description stored at `off` in `buf`.
    pub fn read(buf: &[u8], off: usize) -> (r: BlockDescription)
        requires
            off + 24 <= buf@.len(),
        ensures
            r == BlockDescription::spec_at(buf@, off as int),
    {
        let w = read_words(buf, off, 6);
        BlockDescription {
            block_type: w[0],
            object_count: w[1],
            padded_size: w[2],
            data_size: w[3],
            working_buffer_offset: w[4],
            crc32: w[5],
        }
    }

    /// Appends the description's 24 bytes to `out`.
    pub fn write(&self, out: &mut Vec<u8>)
        ensures
            final(out)@ == old(out)@ + self.spec_bytes(),
    {
        let w: [u32; 6] = [
            self.block_type,
            self.object_count,
            self.padded_size,
            self.data_size,
            self.working_buffer_offset,
            self.crc32,
        ];
        assert(w@ =~= self.words());
        push_words(out, w.as_slice());
    }
}

/// Round trip of the block description.
pub proof fn lemma_block_description_roundtrip(b: BlockDescription)
    ensures
        b.spec_bytes().len() == 24,
        BlockDescription::spec_at(b.spec_bytes(), 0) == b,
{
    lemma_words_bytes_len(b.words());
    lemma_words_roundtrip(b.words());
    let w = words_at(b.spec_bytes(), 0, 6);
    assert(w[0] == b.words()[0] && w[1] == b.words()[1] && w[2] == b.words()[2]);
    assert(w[3] == b.words()[3] && w[4] == b.words()[4] && w[5] == b.words()[5]);
}

/// The header of the pool manifest.
#[derive(Clone, Copy, Debug, PartialEq, Eq, Structural)]
pub struct PoolManifestHeader {
    pub equals524288: u32,
    pub equals2048: u32,
    pub objects_crc32_count_sum: u32,
}

impl PoolManifestHeader {
    /// The header's fields, in the order they are stored.
    pub open spec fn words(self) -> Seq<u32> {
        seq![self.equals524288, self.equals2048, self.objects_crc32_count_sum]
    }

    /// The header stored in the 12 bytes of `s` at `off`.
    pub open spec fn spec_at(s: Seq<u8>, off: int) -> PoolManifestHeader {
        let w = words_at(s, off, 3);
        PoolManifestHeader { equals524288: w[0], equals2048: w[1], objects_crc32_count_sum: w[2] }
    }

    /// The header's 12 bytes.
    pub open spec fn spec_bytes(self) -> Seq<u8> {
        words_bytes(self.words())
    }

    /// Reads the header stored at `off` in `buf`.
    pub fn read(buf: &[u8], off: usize) -> (r: PoolManifestHeader)
        requires
            off + 12 <= buf@.len(),
        ensures
            r == PoolManifestHeader::spec_at(buf@, off as int),
    {
        let w = read_words(buf, off, 3);
        PoolManifestHeader { equals524288: w[0], equals2048: w[1], objects_crc32_count_sum: w[2] }
    }

    /// Appends the header's 12 bytes to `out`.
    pub fn write(&self, out: &mut Vec<u8>)
        ensures
            final(out)@ == old(out)@ + self.spec_bytes(),
    {
        let w: [u32; 3] = [self.equals524288, self.equals2048, self.objects_crc32_count_sum];
        assert(w@ =~= self.words());
        push_words(out, w.as_slice());
    }
}

/// Round trip of the pool manifest header.
pub proof fn lemma_pool_manifest_header_roundtrip(h: PoolManifestHeader)
    ensures
        h.spec_bytes().len() == 12,
        PoolManifestHeader::spec_at(h.spec_bytes(), 0) == h,
{
    lemma_words_bytes_len(h.words());
    lemma_words_roundtrip(h.words());
    let w = words_at(h.spec_bytes(), 0, 3);
    assert(w[0] == h.words()[0] && w[1] == h.words()[1] && w[2] == h.words()[2]);
}

/// A reference record of the pool manifest: which run of pool objects a reference loads.
#[derive(Clone, Copy, Debug, PartialEq, Eq, Structural)]
pub struct ReferenceRecord {
    pub start_chunk_index: u32,
    pub end_chunk_index: u32,
    pub objects_crc32_starting_index: u32,
    pub placeholder_dpc_index: u16,
    pub objects_crc32_count: u16,
    pub placeholder_times_referenced: u32,
    pub placeholder_current_references_shared: u32,
    pub placeholder_current_references_weak: u32,
}

impl ReferenceRecord {
    /// The record's 28 bytes.
    pub open spec fn spec_bytes(self) -> Seq<u8> {
        words_bytes(
            seq![self.start_chunk_index, self.end_chunk_index, self.objects_crc32_starting_index],
        ) + le16_bytes(self.placeholder_dpc_index) + le16_bytes(self.objects_crc32_count)
            + words_bytes(
            seq![
                self.placeholder_times_referenced,
                self.placeholder_current_references_shared,
                self.placeholder_current_references_weak,
            ],
        )
    }

    /// The record stored in the 28 bytes of `s` at `off`.
    pub open spec fn spec_at(s: Seq<u8>, off: int) -> ReferenceRecord {
        let a = words_at(s, off, 3);
        let b = words_at(s, off + 16, 3);
        ReferenceRecord {
            start_chunk_index: a[0],
            end_chunk_index: a[1],
            objects_crc32_starting_index: a[2],
            placeholder_dpc_index: spec_le_u16(s, off + 12),
            objects_crc32_count: spec_le_u16(s, off + 14),
            placeholder_times_referenced: b[0],
            placeholder_current_references_shared: b[1],
            placeholder_current_references_weak: b[2],
        }
    }

    /// Reads the record stored at `off` in `buf`.
    pub fn read(buf: &[u8], off: usize) -> (r: ReferenceRecord)
        requires
            off + 28 <= buf@.len(),
        ensures
            r == ReferenceRecord::spec_at(buf@, off as int),
    {
        assert(off + 28 <= buf.len());
        let a = read_words(buf, off, 3);
        let b = read_words(buf, off + 16, 3);
        ReferenceRecord {
            start_chunk_index: a[0],
            end_chunk_index: a[1],
            objects_crc32_starting_index: a[2],
            placeholder_dpc_index: read_le_u16(buf, off + 12),
            objects_crc32_count: read_le_u16(buf, off + 14),
            placeholder_times_referenced: b[0],
            placeholder_current_references_shared: b[1],
            placeholder_current_references_weak: b[2],
        }
    }

    /// Appends the record's 28 bytes to `out`.
    pub fn write(&self, out: &mut Vec<u8>)
        ensures
            final(out)@ == old(out)@ + self.spec_bytes(),
    {
        let a: [u32; 3] = [
            self.start_chunk_index,
            self.end_chunk_index,
            self.objects_crc32_starting_index,
        ];
        let b: [u32; 3] = [
            self.placeholder_times_referenced,
            self.placeholder_current_references_shared,
            self.placeholder_current_references_weak,
        ];
        assert(a@ =~= seq![self.start_chunk_index, self.end_chunk_index, self.objects_crc32_starting_index]);
        assert(b@ =~= seq![
            self.placeholder_times_referenced,
            self.placeholder_current_references_shared,
            self.placeholder_current_references_weak,
        ]);
        push_words(out, a.as_slice());
        push_le_u16(out, self.placeholder_dpc_index);
        push_le_u16(out, self.objects_crc32_count);
        push_words(out, b.as_slice());
    }
}

/// Round trip of the reference record.
pub proof fn lemma_reference_record_roundtrip(r: ReferenceRecord)
    ensures
        r.spec_bytes().len() == 28,
        ReferenceRecord::spec_at(r.spec_bytes(), 0) == r,
{
    let wa = seq![r.start_chunk_index, r.end_chunk_index, r.objects_crc32_starting_index];
    let wb = seq![
        r.placeholder_times_referenced,
        r.placeholder_current_references_shared,
        r.placeholder_current_references_weak,
    ];
    let s = r.spec_bytes();
    lemma_words_bytes_len(wa);
    lemma_words_bytes_len(wb);
    lemma_words_roundtrip(wa);
    lemma_words_roundtrip(wb);
    lemma_le16_roundtrip(r.placeholder_dpc_index);
    lemma_le16_roundtrip(r.objects_crc32_count);
    let a = words_at(s, 0, 3);
    let b = words_at(s, 16, 3);
    assert(s.subrange(0, 12) =~= words_bytes(wa));
    assert(s.subrange(16, 28) =~= words_bytes(wb));
    assert(s.subrange(12, 14) =~= le16_bytes(r.placeholder_dpc_index));
    assert(s.subrange(14, 16) =~= le16_bytes(r.objects_crc32_count));
    assert forall|j: int| 0 <= j < 3 implies #[trigger] a[j] == words_at(words_bytes(wa), 0, 3)[j] by {
        assert(s[4 * j] == words_bytes(wa)[4 * j]);
        assert(s[4 * j + 1] == words_bytes(wa)[4 * j + 1]);
        assert(s[4 * j + 2] == words_bytes(wa)[4 * j + 2]);
        assert(s[4 * j + 3] == words_bytes(wa)[4 * j + 3]);
    }
    assert forall|j: int| 0 <= j < 3 implies #[trigger] b[j] == words_at(words_bytes(wb), 0, 3)[j] by {
        assert(s[16 + 4 * j] == words_bytes(wb)[4 * j]);
        assert(s[16 + 4 * j + 1] == words_bytes(wb)[4 * j + 1]);
        assert(s[16 + 4 * j + 2] == words_bytes(wb)[4 * j + 2]);
        assert(s[16 + 4 * j + 3] == words_bytes(wb)[4 * j + 3]);
    }
    assert(a[0] == wa[0] && a[1] == wa[1] && a[2] == wa[2]);
    assert(b[0] == wb[0] && b[1] == wb[1] && b[2] == wb[2]);
    assert(spec_le_u16(s, 12) == spec_le_u16(le16_bytes(r.placeholder_dpc_index), 0));
    assert(spec_le_u16(s, 14) == spec_le_u16(le16_bytes(r.objects_crc32_count), 0));
}

/// A length-counted run of words: the count, then the words.
pub open spec fn pascal_words_bytes(ws: Seq<u32>) -> Seq<u8> {
    le32_bytes(ws.len() as u32) + words_bytes(ws)
}

/// Reading the length-counted run of words at `off` of `s`: the words and the offset after
/// them, or `None` when `s` ends first.
pub open spec fn pascal_words_at(s: Seq<u8>, off: int) -> Option<(Seq<u32>, int)> {
    if off < 0 || off + 4 > s.len() {
        None
    } else {
        let n = spec_le_u32(s, off) as int;
        if off + 4 + 4 * n > s.len() {
            None
        } else {
            Some((words_at(s, off + 4, n as nat), off + 4 + 4 * n))
        }
    }
}

/// The bytes of the records `rs`, one after the other.
pub open spec fn records_bytes(rs: Seq<ReferenceRecord>) -> Seq<u8>
    decreases rs.len(),
{
    if rs.len() == 0 {
        Seq::empty()
    } else {
        records_bytes(rs.drop_last()) + rs.last().spec_bytes()
    }
}

/// The `n` records of `s` from `off` on.
pub open spec fn records_at(s: Seq<u8>, off: int, n: nat) -> Seq<ReferenceRecord> {
    Seq::new(n, |j: int| ReferenceRecord::spec_at(s, off + 28 * j))
}

/// Reading the length-counted run of records at `off` of `s`.
pub open spec fn pascal_records_at(s: Seq<u8>, off: int) -> Option<(Seq<ReferenceRecord>, int)> {
    if off < 0 || off + 4 > s.len() {
        None
    } else {
        let n = spec_le_u32(s, off) as int;
        if off + 4 + 28 * n > s.len() {
            None
        } else {
            Some((records_at(s, off + 4, n as nat), off + 4 + 28 * n))
        }
    }
}

/// What a pool manifest holds.
pub struct PoolManifestModel {
    pub header: PoolManifestHeader,
    pub objects_crc32s: Seq<u32>,
    pub crc32s: Seq<u32>,
    pub reference_counts: Seq<u32>,
    pub object_padded_size: Seq<u32>,
    pub reference_records_indices: Seq<u32>,
    pub reference_records: Seq<ReferenceRecord>,
}

/// The bytes of a pool manifest: the header, five length-counted runs of words, and the
/// length-counted run of reference records.
pub open spec fn spec_pool_manifest_bytes(m: PoolManifestModel) -> Seq<u8> {
    m.header.spec_bytes() + pascal_words_bytes(m.objects_crc32s) + pascal_words_bytes(m.crc32s)
        + pascal_words_bytes(m.reference_counts) + pascal_words_bytes(m.object_padded_size)
        + pascal_words_bytes(m.reference_records_indices) + le32_bytes(
        m.reference_records.len() as u32,
    ) + records_bytes(m.reference_records)
}

/// Reading a pool manifest at the start of `s`: the manifest and the offset after it.
pub open spec fn spec_parse_pool_manifest(s: Seq<u8>) -> Option<(PoolManifestModel, int)> {
    if s.len() < 12 {
        None
    } else {
        match pascal_words_at(s, 12) {
            None => None,
            Some((a, o1)) => match pascal_words_at(s, o1) {
                None => None,
                Some((b, o2)) => match pascal_words_at(s, o2) {
                    None => None,
                    Some((c, o3)) => match pascal_words_at(s, o3) {
                        None => None,
                        Some((d, o4)) => match pascal_words_at(s, o4) {
                            None => None,
                            Some((e, o5)) => match pascal_records_at(s, o5) {
                                None => None,
                                Some((rs, o6)) => Some(
                                    (
                                        PoolManifestModel {
                                            header: PoolManifestHeader::spec_at(s, 0),
                                            objects_crc32s: a,
                                            crc32s: b,
                                            reference_counts: c,
                                            object_padded_size: d,
                                            reference_records_indices: e,
                                            reference_records: rs,
                                        },
                                        o6,
                                    ),
                                ),
                            },
                        },
                    },
                },
            },
        }
    }
}

/// A record of `s` is made of its 28 bytes alone.
pub proof fn lemma_record_local(s: Seq<u8>, t: Seq<u8>, off: int, toff: int)
    requires
        0 <= off,
        off + 28 <= s.len(),
        0 <= toff,
        toff + 28 <= t.len(),
        forall|k: int| 0 <= k < 28 ==> #[trigger] s[off + k] == t[toff + k],
    ensures
        ReferenceRecord::spec_at(s, off) == ReferenceRecord::spec_at(t, toff),
{
    assert(s[off + 0] == t[toff + 0] && s[off + 1] == t[toff + 1] && s[off + 2] == t[toff + 2]
        && s[off + 3] == t[toff + 3]);
    assert(s[off + 4] == t[toff + 4] && s[off + 5] == t[toff + 5] && s[off + 6] == t[toff + 6]
        && s[off + 7] == t[toff + 7]);
    assert(s[off + 8] == t[toff + 8] && s[off + 9] == t[toff + 9] && s[off + 10] == t[toff + 10]
        && s[off + 11] == t[toff + 11]);
    assert(s[off + 12] == t[toff + 12] && s[off + 13] == t[toff + 13] && s[off + 14] == t[toff
        + 14] && s[off + 15] == t[toff + 15]);
    assert(s[off + 16] == t[toff + 16] && s[off + 17] == t[toff + 17] && s[off + 18] == t[toff
        + 18] && s[off + 19] == t[toff + 19]);
    assert(s[off + 20] == t[toff + 20] && s[off + 21] == t[toff + 21] && s[off + 22] == t[toff
        + 22] && s[off + 23] == t[toff + 23]);
    assert(s[off + 24] == t[toff + 24] && s[off + 25] == t[toff + 25] && s[off + 26] == t[toff
        + 26] && s[off + 27] == t[toff + 27]);
    assert(words_at(s, off, 3) =~= words_at(t, toff, 3));
    assert(words_at(s, off + 16, 3) =~= words_at(t, toff + 16, 3));
}

/// Twenty-eight bytes a record.
pub proof fn lemma_records_bytes_len(rs: Seq<ReferenceRecord>)
    ensures
        records_bytes(rs).len() == 28 * rs.len(),
    decreases rs.len(),
{
    if rs.len() > 0 {
        lemma_records_bytes_len(rs.drop_last());
        lemma_reference_record_roundtrip(rs.last());
    }
}

/// Byte `k` of record `j` among the records' bytes.
pub proof fn lemma_records_bytes_index(rs: Seq<ReferenceRecord>, j: int, k: int)
    requires
        0 <= j < rs.len(),
        0 <= k < 28,
    ensures
        records_bytes(rs)[28 * j + k] == rs[j].spec_bytes()[k],
    decreases rs.len(),
{
    let p = rs.drop_last();
    lemma_records_bytes_len(p);
    lemma_reference_record_roundtrip(rs.last());
    if j < rs.len() - 1 {
        lemma_records_bytes_index(p, j, k);
    }
}

/// Reading `n` records at `off` of `s`, where the bytes there are those of the records `rs`.
pub proof fn lemma_records_at(s: Seq<u8>, off: int, rs: Seq<ReferenceRecord>)
    requires
        0 <= off,
        off + 28 * rs.len() <= s.len(),
        forall|k: int| 0 <= k < 28 * rs.len() ==> s[off + k] == #[trigger] records_bytes(rs)[k],
    ensures
        records_at(s, off, rs.len()) == rs,
{
    assert forall|j: int| 0 <= j < rs.len() implies #[trigger] records_at(s, off, rs.len())[j] == rs[j] by {
        lemma_reference_record_roundtrip(rs[j]);
        assert forall|k: int| 0 <= k < 28 implies #[trigger] s[off + 28 * j + k] == rs[j].spec_bytes()[0 + k] by {
            lemma_records_bytes_index(rs, j, k);
            assert(s[off + (28 * j + k)] == records_bytes(rs)[28 * j + k]);
        }
        lemma_record_local(s, rs[j].spec_bytes(), off + 28 * j, 0);
    }
    assert(records_at(s, off, rs.len()) =~= rs);
}

/// Reading `ws.len()` words at `off` of `s`, where the bytes there are those of `ws`.
pub proof fn lemma_words_at_of(s: Seq<u8>, off: int, ws: Seq<u32>)
    requires
        0 <= off,
        off + 4 * ws.len() <= s.len(),
        forall|k: int| 0 <= k < 4 * ws.len() ==> s[off + k] == #[trigger] words_bytes(ws)[k],
    ensures
        words_at(s, off, ws.len()) == ws,
{
    let b = words_bytes(ws);
    lemma_words_roundtrip(ws);
    lemma_words_bytes_len(ws);
    assert forall|j: int| 0 <= j < ws.len() implies #[trigger] words_at(s, off, ws.len())[j]
        == words_at(b, 0, ws.len())[j] by {
        assert(s[off + 4 * j] == b[4 * j]);
        assert(s[off + (4 * j + 1)] == b[4 * j + 1]);
        assert(s[off + (4 * j + 2)] == b[4 * j + 2]);
        assert(s[off + (4 * j + 3)] == b[4 * j + 3]);
    }
    assert(words_at(s, off, ws.len()) =~= ws);
}

/// Reading a length-counted run of words at `off` of `s`, where the bytes there are its bytes.
pub proof fn lemma_pascal_words_at_of(s: Seq<u8>, off: int, ws: Seq<u32>)
    requires
        0 <= off,
        ws.len() <= u32::MAX,
        off + pascal_words_bytes(ws).len() <= s.len(),
        forall|k: int| 0 <= k < pascal_words_bytes(ws).len() ==> s[off + k] == #[trigger] pascal_words_bytes(ws)[k],
    ensures
        pascal_words_bytes(ws).len() == 4 + 4 * ws.len(),
        pascal_words_at(s, off) == Some((ws, off + 4 + 4 * ws.len())),
{
    let pb = pascal_words_bytes(ws);
    lemma_words_bytes_len(ws);
    lemma_le32_roundtrip(ws.len() as u32);
    assert(s[off] == pb[0] && s[off + 1] == pb[1] && s[off + 2] == pb[2] && s[off + 3] == pb[3]);
    assert(spec_le_u32(s, off) == spec_le_u32(le32_bytes(ws.len() as u32), 0));
    assert forall|k: int| 0 <= k < 4 * ws.len() implies s[(off + 4) + k] == #[trigger] words_bytes(ws)[k] by {
        assert(s[off + (4 + k)] == pb[4 + k]);
    }
    lemma_words_at_of(s, off + 4, ws);
}

/// Round trip of the pool manifest: reading back its bytes, whatever follows them, gives
/// the manifest and where its bytes end.
#[verifier::rlimit(100)]
#[verifier::spinoff_prover]
pub proof fn lemma_pool_manifest_roundtrip(m: PoolManifestModel, post: Seq<u8>)
    requires
        m.objects_crc32s.len() <= u32::MAX,
        m.crc32s.len() <= u32::MAX,
        m.reference_counts.len() <= u32::MAX,
        m.object_padded_size.len() <= u32::MAX,
        m.reference_records_indices.len() <= u32::MAX,
        m.reference_records.len() <= u32::MAX,
    ensures
        spec_parse_pool_manifest(spec_pool_manifest_bytes(m) + post) == Some(
            (m, spec_pool_manifest_bytes(m).len() as int),
        ),
{
    let h = m.header.spec_bytes();
    let pa = pascal_words_bytes(m.objects_crc32s);
    let pb = pascal_words_bytes(m.crc32s);
    let pc = pascal_words_bytes(m.reference_counts);
    let pd = pascal_words_bytes(m.object_padded_size);
    let pe = pascal_words_bytes(m.reference_records_indices);
    let rl = le32_bytes(m.reference_records.len() as u32);
    let rb = records_bytes(m.reference_records);
    let x1 = h + pa;
    let x2 = x1 + pb;
    let x3 = x2 + pc;
    let x4 = x3 + pd;
    let x5 = x4 + pe;
    let x6 = x5 + rl;
    let x7 = x6 + rb;
    assert(x7 == spec_pool_manifest_bytes(m));
    let s = x7 + post;
    lemma_pool_manifest_header_roundtrip(m.header);
    lemma_words_bytes_len(m.objects_crc32s);
    lemma_words_bytes_len(m.crc32s);
    lemma_words_bytes_len(m.reference_counts);
    lemma_words_bytes_len(m.object_padded_size);
    lemma_words_bytes_len(m.reference_records_indices);
    lemma_records_bytes_len(m.reference_records);
    assert(pascal_words_at(s, h.len() as int) == Some((m.objects_crc32s, x1.len() as int))) by {
        assert forall|k: int| 0 <= k < pa.len() implies s[h.len() + k] == #[trigger] pa[k] by {
            assert(x1[h.len() + k] == pa[k]);
        }
        lemma_pascal_words_at_of(s, h.len() as int, m.objects_crc32s);
    }
    assert(pascal_words_at(s, x1.len() as int) == Some((m.crc32s, x2.len() as int))) by {
        assert forall|k: int| 0 <= k < pb.len() implies s[x1.len() + k] == #[trigger] pb[k] by {
            assert(x2[x1.len() + k] == pb[k]);
        }
        lemma_pascal_words_at_of(s, x1.len() as int, m.crc32s);
    }
    assert(pascal_words_at(s, x2.len() as int) == Some((m.reference_counts, x3.len() as int))) by {
        assert forall|k: int| 0 <= k < pc.len() implies s[x2.len() + k] == #[trigger] pc[k] by {
            assert(x3[x2.len() + k] == pc[k]);
        }
        lemma_pascal_words_at_of(s, x2.len() as int, m.reference_counts);
    }
    assert(pascal_words_at(s, x3.len() as int) == Some((m.object_padded_size, x4.len() as int))) by {
        assert forall|k: int| 0 <= k < pd.len() implies s[x3.len() + k] == #[trigger] pd[k] by {
            assert(x4[x3.len() + k] == pd[k]);
        }
        lemma_pascal_words_at_of(s, x3.len() as int, m.object_padded_size);
    }
    assert(pascal_words_at(s, x4.len() as int) == Some((m.reference_records_indices, x5.len() as int))) by {
        assert forall|k: int| 0 <= k < pe.len() implies s[x4.len() + k] == #[trigger] pe[k] by {
            assert(x5[x4.len() + k] == pe[k]);
        }
        lemma_pascal_words_at_of(s, x4.len() as int, m.reference_records_indices);
    }
    let o5 = x5.len() as int;
    assert(pascal_records_at(s, o5) == Some((m.reference_records, x7.len() as int))) by {
        assert(s[o5] == rl[0] && s[o5 + 1] == rl[1] && s[o5 + 2] == rl[2] && s[o5 + 3] == rl[3]) by {
            assert(x6[o5] == rl[0] && x6[o5 + 1] == rl[1] && x6[o5 + 2] == rl[2] && x6[o5 + 3] == rl[3]);
        }
        lemma_le32_roundtrip(m.reference_records.len() as u32);
        assert(spec_le_u32(s, o5) == spec_le_u32(rl, 0));
        assert forall|k: int| 0 <= k < rb.len() implies s[x6.len() + k] == #[trigger] rb[k] by {
            assert(x7[x6.len() + k] == rb[k]);
        }
        lemma_records_at(s, x6.len() as int, m.reference_records);
    }
    assert(words_at(s, 0, 3) =~= words_at(h, 0, 3)) by {
        assert forall|j: int| 0 <= j < 3 implies #[trigger] s[4 * j] == h[4 * j] && s[4 * j + 1] == h[4 * j + 1]
            && s[4 * j + 2] == h[4 * j + 2] && s[4 * j + 3] == h[4 * j + 3] by {}
    }
}

/// Reads the length-counted run of words at `off` of `buf`.
fn parse_pascal_words(buf: &[u8], off: usize) -> (r: Option<(Vec<u32>, usize)>)
    ensures
        match r {
            Some((v, o)) => pascal_words_at(buf@, off as int) == Some((v@, o as int)),
            None => pascal_words_at(buf@, off as int) is None,
        },
{
    if off > buf.len() || buf.len() - off < 4 {
        return None;
    }
    let n = read_le_u32(buf, off);
    if (n as usize) > (buf.len() - off - 4) / 4 {
        return None;
    }
    let v = read_words(buf, off + 4, n as usize);
    Some((v, off + 4 + 4 * (n as usize)))
}

/// Reads the length-counted run of reference records at `off` of `buf`.
fn parse_pascal_records(buf: &[u8], off: usize) -> (r: Option<(Vec<ReferenceRecord>, usize)>)
    ensures
        match r {
            Some((v, o)) => pascal_records_at(buf@, off as int) == Some((v@, o as int)),
            None => pascal_records_at(buf@, off as int) is None,
        },
{
    if off > buf.len() || buf.len() - off < 4 {
        return None;
    }
    let n = read_le_u32(buf, off);
    if (n as usize) > (buf.len() - off - 4) / 28 {
        return None;
    }
    let n = n as usize;
    let mut v: Vec<ReferenceRecord> = Vec::new();
    let mut j: usize = 0;
    while j < n
        invariant
            j <= n,
            off + 4 + 28 * n <= buf@.len(),
            buf@.len() == buf.len(),
            v@ == records_at(buf@, off + 4, j as nat),
        decreases n - j,
    {
        v.push(ReferenceRecord::read(buf, off + 4 + 28 * j));
        j = j + 1;
        assert(v@ =~= records_at(buf@, off + 4, j as nat));
    }
    Some((v, off + 4 + 28 * n))
}

/// Appends the length-counted run of the words `ws`.
fn write_pascal_words(out: &mut Vec<u8>, ws: &Vec<u32>)
    requires
        ws@.len() <= u32::MAX,
    ensures
        final(out)@ == old(out)@ + pascal_words_bytes(ws@),
{
    push_le_u32(out, ws.len() as u32);
    push_words(out, ws.as_slice());
}

/// The pool manifest.
pub struct PoolManifest {
    pub header: PoolManifestHeader,
    pub objects_crc32s: Vec<u32>,
    pub crc32s: Vec<u32>,
    pub reference_counts: Vec<u32>,
    pub object_padded_size: Vec<u32>,
    pub reference_records_indices: Vec<u32>,
    pub reference_records: Vec<ReferenceRecord>,
}

impl View for PoolManifest {
    type V = PoolManifestModel;

    open spec fn view(&self) -> PoolManifestModel {
        PoolManifestModel {
            header: self.header,
            objects_crc32s: self.objects_crc32s@,
            crc32s: self.crc32s@,
            reference_counts: self.reference_counts@,
            object_padded_size: self.object_padded_size@,
            reference_records_indices: self.reference_records_indices@,
            reference_records: self.reference_records@,
        }
    }
}

impl PoolManifest {
    /// Reads a pool manifest at the start of `buf`, and the offset after it; `None` when
    /// `buf` ends first.
    pub fn parse(buf: &[u8]) -> (r: Option<(PoolManifest, usize)>)
        ensures
            r matches Some((_, o)) ==> o <= buf@.len(),
            match r {
                Some((m, o)) => spec_parse_pool_manifest(buf@) == Some((m@, o as int)),
                None => spec_parse_pool_manifest(buf@) is None,
            },
    {
        if buf.len() < 12 {
            return None;
        }
        let header = PoolManifestHeader::read(buf, 0);
        let (a, o1) = match parse_pascal_words(buf, 12) {
            Some(x) => x,
            None => return None,
        };
        let (b, o2) = match parse_pascal_words(buf, o1) {
            Some(x) => x,
            None => return None,
        };
        let (c, o3) = match parse_pascal_words(buf, o2) {
            Some(x) => x,
            None => return None,
        };
        let (d, o4) = match parse_pascal_words(buf, o3) {
            Some(x) => x,
            None => return None,
        };
        let (e, o5) = match parse_pascal_words(buf, o4) {
            Some(x) => x,
            None => return None,
        };
        let (rs, o6) = match parse_pascal_records(buf, o5) {
            Some(x) => x,
            None => return None,
        };
        let m = PoolManifest {
            header: header,
            objects_crc32s: a,
            crc32s: b,
            reference_counts: c,
            object_padded_size: d,
            reference_records_indices: e,
            reference_records: rs,
        };
        Some((m, o6))
    }

    /// Appends the manifest's bytes to `out`.
    pub fn write(&self, out: &mut Vec<u8>)
        requires
            self.objects_crc32s@.len() <= u32::MAX,
            self.crc32s@.len() <= u32::MAX,
            self.reference_counts@.len() <= u32::MAX,
            self.object_padded_size@.len() <= u32::MAX,
            self.reference_records_indices@.len() <= u32::MAX,
            self.reference_records@.len() <= u32::MAX,
        ensures
            final(out)@ == old(out)@ + spec_pool_manifest_bytes(self@),
    {
        let ghost start = out@;
        self.header.write(out);
        write_pascal_words(out, &self.objects_crc32s);
        write_pascal_words(out, &self.crc32s);
        write_pascal_words(out, &self.reference_counts);
        write_pascal_words(out, &self.object_padded_size);
        write_pascal_words(out, &self.reference_records_indices);
        push_le_u32(out, self.reference_records.len() as u32);
        let ghost mid = out@;
        let mut j: usize = 0;
        while j < self.reference_records.len()
            invariant
                j <= self.reference_records@.len(),
                out@ == mid + records_bytes(self.reference_records@.take(j as int)),
            decreases self.reference_records@.len() - j,
        {
            self.reference_records[j].write(out);
            j = j + 1;
            assert(self.reference_records@.take(j as int).drop_last() =~= self.reference_records@.take(j - 1));
            assert(out@ =~= mid + records_bytes(self.reference_records@.take(j as int)));
        }
        assert(self.reference_records@.take(j as int) =~= self.reference_records@);
        assert(out@ =~= start + spec_pool_manifest_bytes(self@));
    }
}

/// How long a pool manifest's bytes are.
pub proof fn lemma_pool_manifest_bytes_len(m: PoolManifestModel)
    ensures
        spec_pool_manifest_bytes(m).len() == 36 + 4 * m.objects_crc32s.len() + 4 * m.crc32s.len()
            + 4 * m.reference_counts.len() + 4 * m.object_padded_size.len() + 4
            * m.reference_records_indices.len() + 28 * m.reference_records.len(),
{
    lemma_pool_manifest_header_roundtrip(m.header);
    lemma_words_bytes_len(m.objects_crc32s);
    lemma_words_bytes_len(m.crc32s);
    lemma_words_bytes_len(m.reference_counts);
    lemma_words_bytes_len(m.object_padded_size);
    lemma_words_bytes_len(m.reference_records_indices);
    lemma_records_bytes_len(m.reference_records);
}

/// The little-endian `u32` at the start of `le32_bytes(v)`, wherever it stands, is `v`.
pub proof fn lemma_le32_in(pre: Seq<u8>, v: u32, post: Seq<u8>)
    ensures
        spec_le_u32(pre + le32_bytes(v) + post, pre.len() as int) == v,
{
    let s = pre + le32_bytes(v) + post;
    lemma_le32_roundtrip(v);
    let o = pre.len() as int;
    assert(s[o] == le32_bytes(v)[0] && s[o + 1] == le32_bytes(v)[1]);
    assert(s[o + 2] == le32_bytes(v)[2] && s[o + 3] == le32_bytes(v)[3]);
}

} // verus!
