//! The DPC's primary header: its first sector.
//!
//! The version string fills the first 256 bytes, padded with NULs. Seven words follow, then
//! the block descriptions (at most 64). At 0x720 stand eight words about the pool and the
//! padding, and, when the file size is known, the 128-byte IncrediBuild string at 0x740.
use vstd::prelude::*;
use vstd::utf8::{valid_utf8, valid_utf8_concat};
use crate::bytes::{words_bytes, words_at, read_words, push_words, push_bytes, push_fill, lemma_words_bytes_len};
use crate::layout::{BlockDescription, lemma_block_description_roundtrip, lemma_words_at_of};
use crate::fuel_dpc::DpcError;

verus! {

/// `std::str::from_utf8`: whether `bytes` are valid UTF-8.
#[verifier::external_body]
fn is_valid_utf8(bytes: &[u8]) -> (r: bool)
    ensures
        r == valid_utf8(bytes@),
{
    std::str::from_utf8(bytes).is_ok()
}

/// `s` without the NUL bytes at its end.
pub open spec fn trim_nuls(s: Seq<u8>) -> Seq<u8>
    decreases s.len(),
{
    if s.len() > 0 && s.last() == 0 {
        trim_nuls(s.drop_last())
    } else {
        s
    }
}

/// Reading a NUL-padded string of `size` bytes at `off` of `s`: the string without its
/// padding; `Truncated` when `s` ends first, `InvalidUtf8` when the bytes are not UTF-8.
pub open spec fn spec_c_string_at(s: Seq<u8>, off: int, size: int) -> Result<Seq<u8>, DpcError> {
    if off + size > s.len() {
        Err(DpcError::Truncated)
    } else if !valid_utf8(s.subrange(off, off + size)) {
        Err(DpcError::InvalidUtf8)
    } else {
        Ok(trim_nuls(s.subrange(off, off + size)))
    }
}

/// Strips the NUL bytes at the end of `v`.
fn trim_nuls_vec(v: &mut Vec<u8>)
    ensures
        final(v)@ == trim_nuls(old(v)@),
{
    while v.len() > 0 && v[v.len() - 1] == 0
        invariant
            trim_nuls(v@) == trim_nuls(old(v)@),
        decreases v@.len(),
    {
        v.pop();
    }
}

/// Reads a NUL-padded string of `size` bytes at `off` of `buf`.
fn parse_c_string(buf: &[u8], off: usize, size: usize) -> (r: Result<Vec<u8>, DpcError>)
    ensures
        match r {
            Ok(v) => spec_c_string_at(buf@, off as int, size as int) == Ok::<Seq<u8>, DpcError>(v@),
            Err(e) => spec_c_string_at(buf@, off as int, size as int) == Err::<Seq<u8>, DpcError>(e),
        },
{
    if off > buf.len() || size > buf.len() - off {
        return Err(DpcError::Truncated);
    }
    let mut v: Vec<u8> = Vec::new();
    let mut j: usize = 0;
    while j < size
        invariant
            j <= size,
            off + size <= buf@.len(),
            buf@.len() == buf.len(),
            v@ == buf@.subrange(off as int, off + j),
        decreases size - j,
    {
        v.push(buf[off + j]);
        j = j + 1;
        assert(v@ =~= buf@.subrange(off as int, off + j));
    }
    if !is_valid_utf8(v.as_slice()) {
        return Err(DpcError::InvalidUtf8);
    }
    trim_nuls_vec(&mut v);
    Ok(v)
}

/// What a primary header holds; the pool manifest's size and offset are in bytes.
pub struct PrimaryHeaderModel {
    pub version_string: Seq<u8>,
    pub is_not_rtc: u32,
    pub block_count: u32,
    pub block_working_buffer_capacity_even: u32,
    pub block_working_buffer_capacity_odd: u32,
    pub padded_size: u32,
    pub version_patch: u32,
    pub version_minor: u32,
    pub block_descriptions: Seq<BlockDescription>,
    pub pool_manifest_padded_size: u32,
    pub pool_manifest_offset: u32,
    pub pool_manifest_unused0: u32,
    pub pool_manifest_unused1: u32,
    pub pool_object_decompression_buffer_capacity: u32,
    pub block_sector_padding_size: u32,
    pub pool_sector_padding_size: u32,
    pub file_size: u32,
    pub incredi_builder_string: Seq<u8>,
}

/// The `n` block descriptions of `s` from `off` on.
pub open spec fn descriptions_at(s: Seq<u8>, off: int, n: nat) -> Seq<BlockDescription> {
    Seq::new(n, |j: int| BlockDescription::spec_at(s, off + 24 * j))
}

/// Reading the primary header at the start of `s`, and the offset after it.
pub open spec fn spec_parse_primary_header(s: Seq<u8>) -> Result<(PrimaryHeaderModel, int), DpcError> {
    match spec_c_string_at(s, 0, 256) {
        Err(e) => Err(e),
        Ok(version) => if s.len() < 284 {
            Err(DpcError::Truncated)
        } else {
            let a = words_at(s, 256, 7);
            if a[1] > 64 {
                Err(DpcError::TooManyBlocks)
            } else if s.len() < 0x740 {
                Err(DpcError::Truncated)
            } else {
                let b = words_at(s, 0x720, 8);
                if b[0] * 2048 > u32::MAX || b[1] * 2048 > u32::MAX {
                    Err(DpcError::Overflow)
                } else {
                    let incredi = if b[7] != 0xFFFF_FFFF {
                        spec_c_string_at(s, 0x740, 128)
                    } else {
                        Ok(Seq::empty())
                    };
                    match incredi {
                        Err(e) => Err(e),
                        Ok(inc) => Ok(
                            (
                                PrimaryHeaderModel {
                                    version_string: version,
                                    is_not_rtc: a[0],
                                    block_count: a[1],
                                    block_working_buffer_capacity_even: a[2],
                                    block_working_buffer_capacity_odd: a[3],
                                    padded_size: a[4],
                                    version_patch: a[5],
                                    version_minor: a[6],
                                    block_descriptions: descriptions_at(s, 284, a[1] as nat),
                                    pool_manifest_padded_size: (b[0] * 2048) as u32,
                                    pool_manifest_offset: (b[1] * 2048) as u32,
                                    pool_manifest_unused0: b[2],
                                    pool_manifest_unused1: b[3],
                                    pool_object_decompression_buffer_capacity: b[4],
                                    block_sector_padding_size: b[5],
                                    pool_sector_padding_size: b[6],
                                    file_size: b[7],
                                    incredi_builder_string: inc,
                                },
                                if b[7] != 0xFFFF_FFFF {
                                    0x7C0
                                } else {
                                    0x740
                                },
                            ),
                        ),
                    }
                }
            }
        },
    }
}

/// The DPC's primary header, read.
pub struct PrimaryHeader {
    pub version_string: Vec<u8>,
    pub is_not_rtc: u32,
    pub block_count: u32,
    pub block_working_buffer_capacity_even: u32,
    pub block_working_buffer_capacity_odd: u32,
    pub padded_size: u32,
    pub version_patch: u32,
    pub version_minor: u32,
    pub block_descriptions: Vec<BlockDescription>,
    pub pool_manifest_padded_size: u32,
    pub pool_manifest_offset: u32,
    pub pool_manifest_unused0: u32,
    pub pool_manifest_unused1: u32,
    pub pool_object_decompression_buffer_capacity: u32,
    pub block_sector_padding_size: u32,
    pub pool_sector_padding_size: u32,
    pub file_size: u32,
    pub incredi_builder_string: Vec<u8>,
}

impl View for PrimaryHeader {
    type V = PrimaryHeaderModel;

    open spec fn view(&self) -> PrimaryHeaderModel {
        PrimaryHeaderModel {
            version_string: self.version_string@,
            is_not_rtc: self.is_not_rtc,
            block_count: self.block_count,
            block_working_buffer_capacity_even: self.block_working_buffer_capacity_even,
            block_working_buffer_capacity_odd: self.block_working_buffer_capacity_odd,
            padded_size: self.padded_size,
            version_patch: self.version_patch,
            version_minor: self.version_minor,
            block_descriptions: self.block_descriptions@,
            pool_manifest_padded_size: self.pool_manifest_padded_size,
            pool_manifest_offset: self.pool_manifest_offset,
            pool_manifest_unused0: self.pool_manifest_unused0,
            pool_manifest_unused1: self.pool_manifest_unused1,
            pool_object_decompression_buffer_capacity: self.pool_object_decompression_buffer_capacity,
            block_sector_padding_size: self.block_sector_padding_size,
            pool_sector_padding_size: self.pool_sector_padding_size,
            file_size: self.file_size,
            incredi_builder_string: self.incredi_builder_string@,
        }
    }
}

impl PrimaryHeader {
    /// Reads the primary header at the start of `buf`, and the offset after it.
    pub fn parse(buf: &[u8]) -> (r: Result<(PrimaryHeader, usize), DpcError>)
        ensures
            match r {
                Ok((h, o)) => spec_parse_primary_header(buf@) == Ok::<(PrimaryHeaderModel, int), DpcError>((h@, o as int)),
                Err(e) => spec_parse_primary_header(buf@) == Err::<(PrimaryHeaderModel, int), DpcError>(e),
            },
    {
        let version = match parse_c_string(buf, 0, 256) {
            Ok(v) => v,
            Err(e) => return Err(e),
        };
        if buf.len() < 284 {
            return Err(DpcError::Truncated);
        }
        let a = read_words(buf, 256, 7);
        if a[1] > 64 {
            return Err(DpcError::TooManyBlocks);
        }
        if buf.len() < 0x740 {
            return Err(DpcError::Truncated);
        }
        let n = a[1] as usize;
        let mut descs: Vec<BlockDescription> = Vec::new();
        let mut j: usize = 0;
        while j < n
            invariant
                j <= n,
                n <= 64,
                buf@.len() >= 0x740,
                descs@ == descriptions_at(buf@, 284, j as nat),
            decreases n - j,
        {
            descs.push(BlockDescription::read(buf, 284 + 24 * j));
            j = j + 1;
            assert(descs@ =~= descriptions_at(buf@, 284, j as nat));
        }
        let b = read_words(buf, 0x720, 8);
        if b[0] > 0x1F_FFFF || b[1] > 0x1F_FFFF {
            return Err(DpcError::Overflow);
        }
        let (inc, end) = if b[7] != 0xFFFF_FFFF {
            match parse_c_string(buf, 0x740, 128) {
                Ok(v) => (v, 0x7C0usize),
                Err(e) => return Err(e),
            }
        } else {
            (Vec::new(), 0x740usize)
        };
        let h = PrimaryHeader {
            version_string: version,
            is_not_rtc: a[0],
            block_count: a[1],
            block_working_buffer_capacity_even: a[2],
            block_working_buffer_capacity_odd: a[3],
            padded_size: a[4],
            version_patch: a[5],
            version_minor: a[6],
            block_descriptions: descs,
            pool_manifest_padded_size: b[0] * 2048,
            pool_manifest_offset: b[1] * 2048,
            pool_manifest_unused0: b[2],
            pool_manifest_unused1: b[3],
            pool_object_decompression_buffer_capacity: b[4],
            block_sector_padding_size: b[5],
            pool_sector_padding_size: b[6],
            file_size: b[7],
            incredi_builder_string: inc,
        };
        assert(h@.incredi_builder_string =~= (if b[7] != 0xFFFF_FFFF {
            spec_c_string_at(buf@, 0x740, 128)->Ok_0
        } else {
            Seq::<u8>::empty()
        }));
        Ok((h, end))
    }
}

/// The bytes of the block descriptions `ds`, one after the other.
pub open spec fn descriptions_bytes(ds: Seq<BlockDescription>) -> Seq<u8>
    decreases ds.len(),
{
    if ds.len() == 0 {
        Seq::empty()
    } else {
        descriptions_bytes(ds.drop_last()) + ds.last().spec_bytes()
    }
}

/// Twenty-four bytes a description.
pub proof fn lemma_descriptions_bytes_len(ds: Seq<BlockDescription>)
    ensures
        descriptions_bytes(ds).len() == 24 * ds.len(),
    decreases ds.len(),
{
    if ds.len() > 0 {
        lemma_descriptions_bytes_len(ds.drop_last());
        lemma_block_description_roundtrip(ds.last());
    }
}

/// `n` copies of the byte `v`.
pub open spec fn filled(v: u8, n: int) -> Seq<u8> {
    Seq::new(n as nat, |j: int| v)
}

/// How many sectors hold `x` bytes.
pub open spec fn sectors(x: u32) -> u32 {
    ((x + 2047) / 2048) as u32
}

/// The words stored at 0x720: the pool manifest's size and offset in sectors, then the
/// rest as they are.
pub open spec fn tail_words(m: PrimaryHeaderModel) -> Seq<u32> {
    seq![
        sectors(m.pool_manifest_padded_size),
        sectors(m.pool_manifest_offset),
        m.pool_manifest_unused0,
        m.pool_manifest_unused1,
        m.pool_object_decompression_buffer_capacity,
        m.block_sector_padding_size,
        m.pool_sector_padding_size,
        m.file_size,
    ]
}

/// The seven words after the version string.
pub open spec fn head_words(m: PrimaryHeaderModel) -> Seq<u32> {
    seq![
        m.is_not_rtc,
        m.block_count,
        m.block_working_buffer_capacity_even,
        m.block_working_buffer_capacity_odd,
        m.padded_size,
        m.version_patch,
        m.version_minor,
    ]
}

/// The 2048 bytes of a primary header: the version string padded with NULs to 256 bytes,
/// the seven words, the block descriptions, NULs up to 0x720, the eight words, the
/// IncrediBuild string padded with NULs to 128 bytes (or 128 bytes of 0xFF when there is
/// none), and 64 bytes of 0xFF.
pub open spec fn spec_primary_header_bytes(m: PrimaryHeaderModel) -> Seq<u8> {
    m.version_string + filled(0, 256 - m.version_string.len()) + words_bytes(head_words(m))
        + descriptions_bytes(m.block_descriptions) + filled(
        0,
        0x720 - 284 - 24 * m.block_descriptions.len(),
    ) + words_bytes(tail_words(m)) + (if m.incredi_builder_string.len() != 0 {
        m.incredi_builder_string + filled(0, 128 - m.incredi_builder_string.len())
    } else {
        filled(0xff, 128)
    }) + filled(0xff, 64)
}

impl PrimaryHeader {
    /// The header's 2048 bytes.
    pub fn to_bytes(&self) -> (r: Vec<u8>)
        requires
            self.version_string@.len() <= 256,
            self.block_descriptions@.len() <= 64,
            self.incredi_builder_string@.len() <= 128,
            self.pool_manifest_padded_size <= u32::MAX - 2047,
            self.pool_manifest_offset <= u32::MAX - 2047,
        ensures
            r@ == spec_primary_header_bytes(self@),
            r@.len() == 2048,
    {
        let mut out: Vec<u8> = Vec::new();
        push_bytes(&mut out, self.version_string.as_slice());
        push_fill(&mut out, 0, 256 - self.version_string.len());
        let a: [u32; 7] = [
            self.is_not_rtc,
            self.block_count,
            self.block_working_buffer_capacity_even,
            self.block_working_buffer_capacity_odd,
            self.padded_size,
            self.version_patch,
            self.version_minor,
        ];
        assert(a@ =~= head_words(self@));
        push_words(&mut out, a.as_slice());
        let ghost mid = out@;
        let mut j: usize = 0;
        while j < self.block_descriptions.len()
            invariant
                j <= self.block_descriptions@.len(),
                out@ == mid + descriptions_bytes(self.block_descriptions@.take(j as int)),
            decreases self.block_descriptions@.len() - j,
        {
            self.block_descriptions[j].write(&mut out);
            j = j + 1;
            assert(self.block_descriptions@.take(j as int).drop_last() =~= self.block_descriptions@.take(j - 1));
            assert(out@ =~= mid + descriptions_bytes(self.block_descriptions@.take(j as int)));
        }
        assert(self.block_descriptions@.take(j as int) =~= self.block_descriptions@);
        push_fill(&mut out, 0, 0x720 - 284 - 24 * self.block_descriptions.len());
        let b: [u32; 8] = [
            (self.pool_manifest_padded_size + 2047) / 2048,
            (self.pool_manifest_offset + 2047) / 2048,
            self.pool_manifest_unused0,
            self.pool_manifest_unused1,
            self.pool_object_decompression_buffer_capacity,
            self.block_sector_padding_size,
            self.pool_sector_padding_size,
            self.file_size,
        ];
        assert(b@ =~= tail_words(self@));
        push_words(&mut out, b.as_slice());
        if self.incredi_builder_string.len() != 0 {
            push_bytes(&mut out, self.incredi_builder_string.as_slice());
            push_fill(&mut out, 0, 128 - self.incredi_builder_string.len());
        } else {
            push_fill(&mut out, 0xff, 128);
        }
        push_fill(&mut out, 0xff, 64);
        proof {
            lemma_words_bytes_len(head_words(self@));
            lemma_words_bytes_len(tail_words(self@));
            lemma_descriptions_bytes_len(self.block_descriptions@);
        }
        assert(out@ =~= spec_primary_header_bytes(self@));
        out
    }
}

/// NUL bytes are valid UTF-8.
pub proof fn lemma_nuls_valid_utf8(n: int)
    requires
        0 <= n,
    ensures
        valid_utf8(filled(0, n)),
    decreases n,
{
    if n > 0 {
        lemma_nuls_valid_utf8(n - 1);
        let s = filled(0, n);
        assert(vstd::utf8::pop_first_scalar(s) =~= filled(0, n - 1));
    }
}

/// Trimming the NUL padding of a string that does not end in NUL gives the string.
pub proof fn lemma_trim_padding(v: Seq<u8>, n: int)
    requires
        0 <= n,
        v.len() == 0 || v.last() != 0,
    ensures
        trim_nuls(v + filled(0, n)) == v,
    decreases n,
{
    if n > 0 {
        assert((v + filled(0, n)).drop_last() =~= v + filled(0, n - 1));
        lemma_trim_padding(v, n - 1);
    } else {
        assert(v + filled(0, n) =~= v);
    }
}

/// A string padded with NULs to `size` bytes at `off` of `s` reads back as the string.
pub proof fn lemma_c_string_of(s: Seq<u8>, off: int, size: int, v: Seq<u8>)
    requires
        0 <= off,
        v.len() <= size,
        off + size <= s.len(),
        valid_utf8(v),
        v.len() == 0 || v.last() != 0,
        s.subrange(off, off + size) == v + filled(0, size - v.len()),
    ensures
        spec_c_string_at(s, off, size) == Ok::<Seq<u8>, DpcError>(v),
{
    lemma_nuls_valid_utf8(size - v.len());
    valid_utf8_concat(v, filled(0, size - v.len()));
    lemma_trim_padding(v, size - v.len());
}

/// Byte `k` of description `j` among the descriptions' bytes.
pub proof fn lemma_descriptions_bytes_index(ds: Seq<BlockDescription>, j: int, k: int)
    requires
        0 <= j < ds.len(),
        0 <= k < 24,
    ensures
        descriptions_bytes(ds)[24 * j + k] == ds[j].spec_bytes()[k],
    decreases ds.len(),
{
    let p = ds.drop_last();
    lemma_descriptions_bytes_len(p);
    lemma_block_description_roundtrip(ds.last());
    if j < ds.len() - 1 {
        lemma_descriptions_bytes_index(p, j, k);
    }
}

/// Reading the descriptions at `off` of `s`, where the bytes there are theirs.
pub proof fn lemma_descriptions_at_of(s: Seq<u8>, off: int, ds: Seq<BlockDescription>)
    requires
        0 <= off,
        off + 24 * ds.len() <= s.len(),
        forall|k: int| 0 <= k < 24 * ds.len() ==> s[off + k] == #[trigger] descriptions_bytes(ds)[k],
    ensures
        descriptions_at(s, off, ds.len()) == ds,
{
    assert forall|j: int| 0 <= j < ds.len() implies #[trigger] descriptions_at(s, off, ds.len())[j] == ds[j] by {
        lemma_block_description_roundtrip(ds[j]);
        crate::bytes::lemma_words_bytes_len(ds[j].words());
        assert forall|k: int| 0 <= k < 24 implies s[(off + 24 * j) + k] == #[trigger] words_bytes(ds[j].words())[k] by {
            lemma_descriptions_bytes_index(ds, j, k);
            assert(s[off + (24 * j + k)] == descriptions_bytes(ds)[24 * j + k]);
        }
        lemma_words_at_of(s, off + 24 * j, ds[j].words());
        let w = words_at(s, off + 24 * j, 6);
        assert(w[0] == ds[j].words()[0] && w[1] == ds[j].words()[1] && w[2] == ds[j].words()[2]);
        assert(w[3] == ds[j].words()[3] && w[4] == ds[j].words()[4] && w[5] == ds[j].words()[5]);
    }
    assert(descriptions_at(s, off, ds.len()) =~= ds);
}

/// A whole number of sectors is its sector count times 2048.
pub proof fn lemma_sectors(x: u32)
    requires
        x % 2048 == 0,
    ensures
        sectors(x) * 2048 == x,
{
    assert((x + 2047) / 2048 == x / 2048);
}

/// What a primary header must hold to be written and read back: a version string of at most
/// 256 bytes and an IncrediBuild string of at most 128, both UTF-8 and not ending in NUL, a
/// block count that is the number of descriptions (at most 64), the pool manifest's size
/// and offset in whole sectors, and an unknown file size exactly when there is no
/// IncrediBuild string.
pub open spec fn writable_header(m: PrimaryHeaderModel) -> bool {
    &&& m.version_string.len() <= 256
    &&& valid_utf8(m.version_string)
    &&& (m.version_string.len() == 0 || m.version_string.last() != 0)
    &&& m.block_descriptions.len() <= 64
    &&& m.block_count == m.block_descriptions.len()
    &&& m.pool_manifest_padded_size % 2048 == 0
    &&& m.pool_manifest_offset % 2048 == 0
    &&& m.incredi_builder_string.len() <= 128
    &&& (m.file_size == 0xFFFF_FFFF <==> m.incredi_builder_string.len() == 0)
    &&& valid_utf8(m.incredi_builder_string)
    &&& (m.incredi_builder_string.len() == 0 || m.incredi_builder_string.last() != 0)
}

/// Round trip of the primary header: reading back its 2048 bytes, whatever follows them,
/// gives the header, and the offset after its last field.
#[verifier::rlimit(60)]
#[verifier::spinoff_prover]
pub proof fn lemma_primary_header_roundtrip(m: PrimaryHeaderModel, post: Seq<u8>)
    requires
        writable_header(m),
    ensures
        spec_parse_primary_header(spec_primary_header_bytes(m) + post) == Ok::<(PrimaryHeaderModel, int), DpcError>(
            (m, if m.file_size != 0xFFFF_FFFF { 0x7C0int } else { 0x740int }),
        ),
{
    let n = m.block_descriptions.len() as int;
    let p0 = m.version_string;
    let p1 = filled(0, 256 - m.version_string.len());
    let p2 = words_bytes(head_words(m));
    let p3 = descriptions_bytes(m.block_descriptions);
    let p4 = filled(0, 0x720 - 284 - 24 * n);
    let p5 = words_bytes(tail_words(m));
    let p6 = if m.incredi_builder_string.len() != 0 {
        m.incredi_builder_string + filled(0, 128 - m.incredi_builder_string.len())
    } else {
        filled(0xff, 128)
    };
    let p7 = filled(0xff, 64);
    let x1 = p0 + p1;
    let x2 = x1 + p2;
    let x3 = x2 + p3;
    let x4 = x3 + p4;
    let x5 = x4 + p5;
    let x6 = x5 + p6;
    let x7 = x6 + p7;
    assert(x7 == spec_primary_header_bytes(m));
    let s = x7 + post;
    lemma_words_bytes_len(head_words(m));
    lemma_words_bytes_len(tail_words(m));
    lemma_descriptions_bytes_len(m.block_descriptions);
    assert(x1.len() == 256 && x2.len() == 284 && x3.len() == 284 + 24 * n && x4.len() == 0x720);
    assert(x5.len() == 0x740 && x6.len() == 0x7C0);
    assert(spec_c_string_at(s, 0, 256) == Ok::<Seq<u8>, DpcError>(m.version_string)) by {
        assert(s.subrange(0, 256) =~= x1);
        lemma_c_string_of(s, 0, 256, m.version_string);
    }
    assert(words_at(s, 256, 7) == head_words(m)) by {
        assert forall|k: int| 0 <= k < 28 implies s[256 + k] == #[trigger] p2[k] by {
            assert(x2[256 + k] == p2[k]);
        }
        lemma_words_at_of(s, 256, head_words(m));
    }
    assert(descriptions_at(s, 284, n as nat) == m.block_descriptions) by {
        assert forall|k: int| 0 <= k < 24 * n implies s[284 + k] == #[trigger] p3[k] by {
            assert(x3[284 + k] == p3[k]);
        }
        lemma_descriptions_at_of(s, 284, m.block_descriptions);
    }
    assert(words_at(s, 0x720, 8) == tail_words(m)) by {
        assert forall|k: int| 0 <= k < 32 implies s[0x720 + k] == #[trigger] p5[k] by {
            assert(x5[0x720 + k] == p5[k]);
        }
        lemma_words_at_of(s, 0x720, tail_words(m));
    }
    lemma_sectors(m.pool_manifest_padded_size);
    lemma_sectors(m.pool_manifest_offset);
    if m.file_size != 0xFFFF_FFFF {
        assert(spec_c_string_at(s, 0x740, 128) == Ok::<Seq<u8>, DpcError>(m.incredi_builder_string)) by {
            assert(s.subrange(0x740, 0x7C0) =~= p6);
            lemma_c_string_of(s, 0x740, 128, m.incredi_builder_string);
        }
    }
    let a = words_at(s, 256, 7);
    let b = words_at(s, 0x720, 8);
    assert(a[0] == m.is_not_rtc && a[1] == m.block_count && a[2] == m.block_working_buffer_capacity_even);
    assert(a[3] == m.block_working_buffer_capacity_odd && a[4] == m.padded_size && a[5] == m.version_patch);
    assert(a[6] == m.version_minor);
    assert(b[0] == sectors(m.pool_manifest_padded_size) && b[1] == sectors(m.pool_manifest_offset));
    assert(b[2] == m.pool_manifest_unused0 && b[3] == m.pool_manifest_unused1);
    assert(b[4] == m.pool_object_decompression_buffer_capacity && b[5] == m.block_sector_padding_size);
    assert(b[6] == m.pool_sector_padding_size && b[7] == m.file_size);
    assert((b[0] * 2048) as u32 == m.pool_manifest_padded_size);
    assert((b[1] * 2048) as u32 == m.pool_manifest_offset);
    if m.file_size == 0xFFFF_FFFF {
        assert(m.incredi_builder_string =~= Seq::<u8>::empty());
    }
    assert(s.len() >= 0x740);
}

} // verus!
