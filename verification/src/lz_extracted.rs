//! What taking a DPC without a pool apart with LZ decompression gives: object files as
//! such a taking apart writes them, one for each name its blocks hold, and a manifest that
//! `create_dpc` can be handed again; and the laws of putting it together again and taking
//! the result apart once more.
use vstd::prelude::*;
use vstd::utf8::{valid_utf8, is_char_boundary_iff_not_is_continuation_byte, valid_utf8_split};
use crate::bytes::words_at;
use crate::extract::{BlockObjectModel, spec_block_object_at, spec_block_objects, spec_extract_object};
use crate::fuel_dpc::{ObjectHeader, DpcError, file_header, after_header, read_at, after_read, lemma_file_header_prefix, lemma_object_header_roundtrip};
use crate::archive::{ExtractState, spec_object_step, spec_object_steps, spec_block_steps, descriptions, empty_state};
use crate::manifest::BlockModel;
use crate::layout::BlockDescription;
use crate::header::spec_parse_primary_header;
use crate::archive::{manifest_header_model, spec_extract_dpc, all_marked, marked_blocks};
use crate::round_trip::header_strings_ok;
use crate::header::trim_nuls;
use crate::round_trip::packed;
use crate::round_trip_lz::{lz_file_ok, marked, marks_agree, lz_files_ready, compressible};
use crate::round_trip::{as_inputs, input_of, files_ok, object_file_ok, lemma_first_input, lemma_first_input_found};
use crate::assemble::first_input;
use crate::create::FuelDPC;
use crate::manifest::{ManifestModel, ObjectDescription};
use crate::round_trip_lz::lemma_create_then_extract_lz;
use crate::archive::version_accepted;
use crate::assemble::{spec_create_dpc, adjusted, create_accepted};

verus! {

/// Stripping the NULs at the end of valid UTF-8 leaves valid UTF-8 that does not end in NUL.
pub proof fn lemma_trim_nuls_utf8(s: Seq<u8>)
    requires
        valid_utf8(s),
    ensures
        valid_utf8(trim_nuls(s)),
        trim_nuls(s).len() == 0 || trim_nuls(s).last() != 0,
    decreases s.len(),
{
    if s.len() > 0 && s.last() == 0 {
        let n = s.len() - 1;
        is_char_boundary_iff_not_is_continuation_byte(s, n as int);
        valid_utf8_split(s, n as int);
        assert(s.subrange(0, n as int) =~= s.drop_last());
        lemma_trim_nuls_utf8(s.drop_last());
    }
}

/// A block object as reading it gives: a class object and data of the sizes its header says.
pub open spec fn read_ok(o: BlockObjectModel) -> bool {
    &&& o.header.class_object_size <= o.header.data_size
    &&& o.class_object.len() == o.header.class_object_size
    &&& o.data.len() == o.header.data_size - o.header.class_object_size
}

/// Every block object read has the sizes its header says.
pub proof fn lemma_block_objects_read_ok(s: Seq<u8>, off: int, n: nat)
    requires
        spec_block_objects(s, off, n) is Ok,
    ensures
        forall|i: int| 0 <= i < spec_block_objects(s, off, n)->Ok_0.len() ==> read_ok(
            #[trigger] spec_block_objects(s, off, n)->Ok_0[i],
        ),
    decreases n,
{
    if n > 0 {
        let (o, next) = spec_block_object_at(s, off)->Ok_0;
        lemma_block_objects_read_ok(s, next, (n - 1) as nat);
        let rest = spec_block_objects(s, next, (n - 1) as nat)->Ok_0;
        let objs = spec_block_objects(s, off, n)->Ok_0;
        assert(objs == seq![o] + rest);
        assert forall|i: int| 0 <= i < objs.len() implies read_ok(#[trigger] objs[i]) by {
            if i > 0 {
                assert(objs[i] == rest[i - 1]);
            }
        }
    }
}

/// A file made of the header `h` and its data size's worth of bytes has that header and is
/// its own packed form.
pub proof fn lemma_file_of(h: ObjectHeader, rest: Seq<u8>)
    requires
        rest.len() == h.data_size,
    ensures
        file_header(h.spec_bytes() + rest) == h,
        packed(h.spec_bytes() + rest) == h.spec_bytes() + rest,
{
    let f = h.spec_bytes() + rest;
    lemma_object_header_roundtrip(h);
    lemma_file_header_prefix(f);
    assert(f.subrange(0, 24) =~= h.spec_bytes());
    assert(words_at(f, 0, 6) =~= words_at(h.spec_bytes(), 0, 6));
    assert(ObjectHeader::spec_at(f, 0) == h);
    assert(read_at(f, after_header(f), h.data_size as nat) =~= rest);
}

/// The file that taking in the block object `o` with LZ decompression writes is one such a
/// taking apart writes, under `o`'s names; when `o` is compressed, its data is its class
/// object and its decompressed data.
pub proof fn lemma_extracted_file_lz(o: BlockObjectModel)
    requires
        read_ok(o),
        spec_extract_object(o, true) is Ok,
    ensures
        ({
            let (h2, f) = spec_extract_object(o, true)->Ok_0;
            &&& lz_file_ok(f)
            &&& file_header(f) == h2
            &&& h2.crc32 == o.header.crc32
            &&& h2.class_crc32 == o.header.class_crc32
            &&& o.header.compressed_size != 0 ==> h2.data_size == h2.class_object_size + h2.decompressed_size
        }),
{
    let (h2, f) = spec_extract_object(o, true)->Ok_0;
    let rest = f.skip(24);
    lemma_object_header_roundtrip(h2);
    assert(f =~= h2.spec_bytes() + rest);
    lemma_file_of(h2, rest);
}

/// A file `x` as taking apart with LZ decompression writes it into `es`: one such a taking
/// apart writes, named by its header's crc32 and class crc32, its object recorded with a
/// compress mark, and, when marked compressed, its data is its class object and its
/// decompressed data.
pub open spec fn lz_entry(es: ExtractState, x: (u32, u32, Seq<u8>)) -> bool {
    &&& lz_file_ok(x.2)
    &&& file_header(x.2).crc32 == x.0
    &&& file_header(x.2).class_crc32 == x.1
    &&& es.headers.contains_key(x.0)
    &&& es.table.contains_key(x.0)
    &&& (es.table[x.0] ==> file_header(x.2).data_size == file_header(x.2).class_object_size
        + file_header(x.2).decompressed_size)
}

/// What taking apart with LZ decompression has gathered: each file as `lz_entry` says, no
/// name written twice, and an object recorded, with a compress mark, exactly when its file
/// is written.
#[verifier::opaque]
pub open spec fn lz_gathered(es: ExtractState) -> bool {
    &&& forall|i: int| 0 <= i < es.files.len() ==> lz_entry(es, #[trigger] es.files[i])
    &&& forall|i: int, k: int| 0 <= i < k < es.files.len() ==> #[trigger] es.files[i].0 != #[trigger] es.files[k].0
    &&& forall|c: u32| #[trigger] es.headers.contains_key(c) ==> es.table.contains_key(c) && exists|i: int|
        0 <= i < es.files.len() && es.files[i].0 == c
    &&& forall|c: u32| #[trigger] es.table.contains_key(c) ==> es.headers.contains_key(c)
}

/// Whether one of the block objects `objs` is named `c`.
pub open spec fn among(objs: Seq<BlockObjectModel>, c: u32) -> bool {
    exists|k: int| 0 <= k < objs.len() && #[trigger] objs[k].header.crc32 == c
}

/// Taking in one block object with LZ decompression keeps what is gathered as it should be,
/// and adds at most its own file.
#[verifier::spinoff_prover]
#[verifier::rlimit(40)]
pub proof fn lemma_object_step_gathered(es: ExtractState, o: BlockObjectModel)
    requires
        lz_gathered(es),
        read_ok(o),
        spec_object_step(es, o, true) is Ok,
    ensures
        ({
            let es2 = spec_object_step(es, o, true)->Ok_0;
            &&& lz_gathered(es2)
            &&& es.files.len() <= es2.files.len() <= es.files.len() + 1
            &&& es2.files.take(es.files.len() as int) == es.files
            &&& forall|i: int| es.files.len() <= i < es2.files.len() ==> #[trigger] es2.files[i].0 == o.header.crc32
            &&& es2.headers.contains_key(o.header.crc32)
            &&& forall|c: u32| es.headers.contains_key(c) ==> #[trigger] es2.headers.contains_key(c)
        }),
{
    reveal(lz_gathered);
    let c = o.header.crc32;
    let es2 = spec_object_step(es, o, true)->Ok_0;
    if es.headers.contains_key(c) {
        assert(es2.files.take(es.files.len() as int) =~= es.files);
    } else {
        lemma_extracted_file_lz(o);
        let n = es.files.len() as int;
        assert(es2.files.take(n) =~= es.files);
        assert forall|c2: u32| #[trigger] es2.table.contains_key(c2) implies es2.headers.contains_key(c2) by {
            if c2 != c {
                assert(es.table.contains_key(c2));
            }
        }
        assert forall|i: int| 0 <= i < es2.files.len() implies lz_entry(es2, #[trigger] es2.files[i]) by {
            if i < n {
                assert(es2.files[i] == es.files[i]);
                assert(lz_entry(es, es.files[i]));
                assert(es.files[i].0 != c);
            }
        }
        assert forall|i: int, k: int| 0 <= i < k < es2.files.len() implies #[trigger] es2.files[i].0 != #[trigger] es2.files[k].0 by {
            if k < n {
                assert(es2.files[i] == es.files[i] && es2.files[k] == es.files[k]);
            } else {
                assert(es2.files[i] == es.files[i]);
                assert(es.headers.contains_key(es.files[i].0));
            }
        }
        assert forall|c2: u32| #[trigger] es2.headers.contains_key(c2) implies es2.table.contains_key(c2) && exists|i: int|
            0 <= i < es2.files.len() && es2.files[i].0 == c2 by {
            if c2 == c {
                assert(es2.files[n].0 == c);
            } else {
                let w = choose|i: int| 0 <= i < es.files.len() && es.files[i].0 == c2;
                assert(es2.files[w] == es.files[w]);
            }
        }
    }
}

/// Taking in block objects with LZ decompression keeps what is gathered as it should be,
/// and the files it adds are named after those objects.
#[verifier::spinoff_prover]
#[verifier::rlimit(40)]
pub proof fn lemma_object_steps_gathered(es: ExtractState, objs: Seq<BlockObjectModel>)
    requires
        lz_gathered(es),
        forall|i: int| 0 <= i < objs.len() ==> read_ok(#[trigger] objs[i]),
        spec_object_steps(es, objs, true) is Ok,
    ensures
        ({
            let es2 = spec_object_steps(es, objs, true)->Ok_0;
            &&& lz_gathered(es2)
            &&& es.files.len() <= es2.files.len()
            &&& es2.files.take(es.files.len() as int) == es.files
            &&& forall|i: int| es.files.len() <= i < es2.files.len() ==> among(objs, #[trigger] es2.files[i].0)
            &&& forall|k: int| 0 <= k < objs.len() ==> es2.headers.contains_key(#[trigger] objs[k].header.crc32)
            &&& forall|c: u32| es.headers.contains_key(c) ==> #[trigger] es2.headers.contains_key(c)
        }),
    decreases objs.len(),
{
    if objs.len() == 0 {
        assert(es.files.take(es.files.len() as int) =~= es.files);
    } else {
        let prev = objs.drop_last();
        assert forall|i: int| 0 <= i < prev.len() implies read_ok(#[trigger] prev[i]) by {
            assert(prev[i] == objs[i]);
        }
        lemma_object_steps_gathered(es, prev);
        let es1 = spec_object_steps(es, prev, true)->Ok_0;
        let o = objs.last();
        assert(read_ok(objs[objs.len() - 1]));
        lemma_object_step_gathered(es1, o);
        let es2 = spec_object_steps(es, objs, true)->Ok_0;
        assert(es2 == spec_object_step(es1, o, true)->Ok_0);
        let n0 = es.files.len() as int;
        let n1 = es1.files.len() as int;
        assert(es2.files.take(n0) =~= es.files) by {
            assert forall|i: int| 0 <= i < n0 implies es2.files[i] == es.files[i] by {
                assert(es2.files.take(n1)[i] == es1.files[i]);
                assert(es1.files.take(n0)[i] == es.files[i]);
            }
        }
        assert forall|i: int| n0 <= i < es2.files.len() implies among(objs, #[trigger] es2.files[i].0) by {
            if i < n1 {
                assert(es2.files.take(n1)[i] == es1.files[i]);
                assert(among(prev, es1.files[i].0));
                let k = choose|k: int| 0 <= k < prev.len() && #[trigger] prev[k].header.crc32 == es1.files[i].0;
                assert(objs[k] == prev[k]);
            } else {
                assert(objs[objs.len() - 1].header.crc32 == es2.files[i].0);
            }
        }
        assert forall|k: int| 0 <= k < objs.len() implies es2.headers.contains_key(#[trigger] objs[k].header.crc32) by {
            if k < prev.len() {
                assert(objs[k] == prev[k]);
                assert(es1.headers.contains_key(prev[k].header.crc32));
            }
        }
    }
}

/// Whether one of the files `xs` is named `c`.
pub open spec fn has_file(xs: Seq<(u32, u32, Seq<u8>)>, c: u32) -> bool {
    exists|i: int| 0 <= i < xs.len() && #[trigger] xs[i].0 == c
}

/// Whether an object of the blocks `bms` is named `c`.
pub open spec fn named(bms: Seq<BlockModel>, c: u32) -> bool {
    exists|j: int, o: int| 0 <= j < bms.len() && 0 <= o < bms[j].objects.len() && #[trigger] bms[j].objects[o].crc32 == c
}

/// Reading blocks with LZ decompression gathers as `lz_gathered` says, and each file written
/// is named after an object of the blocks read.
#[verifier::spinoff_prover]
#[verifier::rlimit(40)]
pub proof fn lemma_block_steps_gathered(b: Seq<u8>, descs: Seq<BlockDescription>, pos: int)
    requires
        spec_block_steps(b, descs, true, pos) is Ok,
    ensures
        ({
            let (bms, es, p) = spec_block_steps(b, descs, true, pos)->Ok_0;
            &&& lz_gathered(es)
            &&& forall|i: int| 0 <= i < es.files.len() ==> named(bms, #[trigger] es.files[i].0)
        }),
    decreases descs.len(),
{
    if descs.len() == 0 {
        reveal(lz_gathered);
    } else {
        lemma_block_steps_gathered(b, descs.drop_last(), pos);
        let (bs, s, p) = spec_block_steps(b, descs.drop_last(), true, pos)->Ok_0;
        let d = descs.last();
        let buf = read_at(b, p, d.padded_size as nat);
        let objs = spec_block_objects(buf, 0, d.object_count as nat)->Ok_0;
        lemma_block_objects_read_ok(buf, 0, d.object_count as nat);
        lemma_object_steps_gathered(s, objs);
        let s2 = spec_object_steps(s, objs, true)->Ok_0;
        let bms = bs.push(BlockModel { offset: d.working_buffer_offset, objects: descriptions(objs) });
        assert(spec_block_steps(b, descs, true, pos)->Ok_0.0 == bms);
        assert(spec_block_steps(b, descs, true, pos)->Ok_0.1 == s2);
        assert forall|i: int| 0 <= i < s2.files.len() implies named(bms, #[trigger] s2.files[i].0) by {
            if i < s.files.len() {
                assert(s2.files.take(s.files.len() as int)[i] == s.files[i]);
                assert(named(bs, s.files[i].0));
                let (j, o) = choose|j: int, o: int|
                    0 <= j < bs.len() && 0 <= o < bs[j].objects.len() && #[trigger] bs[j].objects[o].crc32 == s.files[i].0;
                assert(bms[j] == bs[j]);
            } else {
                assert(among(objs, s2.files[i].0));
                let k = choose|k: int| 0 <= k < objs.len() && #[trigger] objs[k].header.crc32 == s2.files[i].0;
                assert(bms[bs.len() as int].objects[k].crc32 == objs[k].header.crc32);
            }
        }
    }
}

/// The strings of a primary header that reads are valid UTF-8 and do not end in NUL.
pub proof fn lemma_parsed_strings(s: Seq<u8>)
    requires
        spec_parse_primary_header(s) is Ok,
    ensures
        header_strings_ok(manifest_header_model(spec_parse_primary_header(s)->Ok_0.0)),
{
    lemma_trim_nuls_utf8(s.subrange(0, 256));
    if words_at(s, 0x720, 8)[7] != 0xFFFF_FFFF {
        lemma_trim_nuls_utf8(s.subrange(0x740int, 0x7C0int));
    }
    assert(valid_utf8(Seq::<u8>::empty()));
}

/// What taking apart with LZ decompression gives for a DPC without a pool: header strings
/// that can stand in a primary header again, compress marks that agree between objects of
/// one name, and object files as such a taking apart writes them, one for each name the
/// blocks hold and none other, each named by its header and, where its object is marked
/// compressed, holding its class object and its decompressed data.
#[verifier::spinoff_prover]
#[verifier::rlimit(60)]
pub proof fn lemma_lz_extracted(b: Seq<u8>)
    requires
        spec_extract_dpc(b, true) is Ok,
        spec_extract_dpc(b, true)->Ok_0.0.pool is None,
    ensures
        header_strings_ok(spec_extract_dpc(b, true)->Ok_0.0.header),
        marks_agree(spec_extract_dpc(b, true)->Ok_0.0.blocks),
        ({
            let (m, xs) = spec_extract_dpc(b, true)->Ok_0;
            forall|i: int| 0 <= i < xs.len() ==> {
                &&& lz_file_ok(#[trigger] xs[i].2)
                &&& file_header(xs[i].2).crc32 == xs[i].0
                &&& file_header(xs[i].2).class_crc32 == xs[i].1
                &&& named(m.blocks, xs[i].0)
                &&& (marked(m.blocks, xs[i].0) ==> file_header(xs[i].2).data_size
                    == file_header(xs[i].2).class_object_size + file_header(xs[i].2).decompressed_size)
            }
        }),
        ({
            let xs = spec_extract_dpc(b, true)->Ok_0.1;
            forall|i: int, k: int| 0 <= i < k < xs.len() ==> #[trigger] xs[i].0 != #[trigger] xs[k].0
        }),
        ({
            let (m, xs) = spec_extract_dpc(b, true)->Ok_0;
            forall|j: int, o: int| 0 <= j < m.blocks.len() && 0 <= o < m.blocks[j].objects.len() ==> has_file(
                xs,
                #[trigger] m.blocks[j].objects[o].crc32,
            )
        }),
{
    let s = read_at(b, 0, 2048);
    let h = spec_parse_primary_header(s)->Ok_0.0;
    lemma_parsed_strings(s);
    let pos = after_read(b, 0, 2048);
    lemma_block_steps_gathered(b, h.block_descriptions, pos);
    let bms = spec_block_steps(b, h.block_descriptions, true, pos)->Ok_0.0;
    let es = spec_block_steps(b, h.block_descriptions, true, pos)->Ok_0.1;
    assert({
        &&& forall|i: int| 0 <= i < es.files.len() ==> lz_entry(es, #[trigger] es.files[i])
        &&& forall|i: int, k: int| 0 <= i < k < es.files.len() ==> #[trigger] es.files[i].0 != #[trigger] es.files[k].0
        &&& forall|c: u32| #[trigger] es.headers.contains_key(c) ==> es.table.contains_key(c) && exists|i: int|
            0 <= i < es.files.len() && es.files[i].0 == c
        &&& forall|c: u32| #[trigger] es.table.contains_key(c) ==> es.headers.contains_key(c)
    }) by {
        reveal(lz_gathered);
    }
    let (m, xs) = spec_extract_dpc(b, true)->Ok_0;
    assert(h.pool_manifest_offset == 0);
    assert(all_marked(bms, es.table));
    assert(m.blocks == marked_blocks(bms, es.table));
    assert(m.header == manifest_header_model(h));
    assert(xs == es.files);
    assert forall|j: int, o: int| 0 <= j < m.blocks.len() && 0 <= o < m.blocks[j].objects.len() implies
        #[trigger] m.blocks[j].objects[o].crc32 == bms[j].objects[o].crc32 && m.blocks[j].objects[o].compress
            == es.table[bms[j].objects[o].crc32] by {}
    assert forall|i: int| 0 <= i < xs.len() implies {
        &&& lz_file_ok(#[trigger] xs[i].2)
        &&& file_header(xs[i].2).crc32 == xs[i].0
        &&& file_header(xs[i].2).class_crc32 == xs[i].1
        &&& named(m.blocks, xs[i].0)
        &&& (marked(m.blocks, xs[i].0) ==> file_header(xs[i].2).data_size
            == file_header(xs[i].2).class_object_size + file_header(xs[i].2).decompressed_size)
    } by {
        assert(lz_entry(es, es.files[i]));
        let c = xs[i].0;
        assert(named(bms, c));
        let (j, o) = choose|j: int, o: int| 0 <= j < bms.len() && 0 <= o < bms[j].objects.len() && #[trigger] bms[j].objects[o].crc32 == c;
        assert(m.blocks[j].objects[o].crc32 == c);
        if marked(m.blocks, c) {
            let (j2, o2) = choose|j2: int, o2: int|
                0 <= j2 < m.blocks.len() && 0 <= o2 < m.blocks[j2].objects.len() && #[trigger] m.blocks[j2].objects[o2].crc32 == c
                    && m.blocks[j2].objects[o2].compress;
            assert(m.blocks[j2].objects[o2].compress == es.table[c]);
        }
    }
    assert forall|j: int, o: int| 0 <= j < m.blocks.len() && 0 <= o < m.blocks[j].objects.len() implies has_file(
        xs,
        #[trigger] m.blocks[j].objects[o].crc32,
    ) by {
        assert(m.blocks[j].objects[o].crc32 == bms[j].objects[o].crc32);
        assert(es.table.contains_key(bms[j].objects[o].crc32));
        assert(es.headers.contains_key(bms[j].objects[o].crc32));
    }
    assert(marks_agree(m.blocks)) by {
        assert forall|j1: int, o1: int, j2: int, o2: int|
            0 <= j1 < m.blocks.len() && 0 <= o1 < m.blocks[j1].objects.len() && 0 <= j2 < m.blocks.len() && 0 <= o2
                < m.blocks[j2].objects.len() && #[trigger] m.blocks[j1].objects[o1].crc32 == #[trigger] m.blocks[j2].objects[o2].crc32
            implies m.blocks[j1].objects[o1].compress == m.blocks[j2].objects[o2].compress by {
            assert(m.blocks[j1].objects[o1].compress == es.table[bms[j1].objects[o1].crc32]);
            assert(m.blocks[j2].objects[o2].compress == es.table[bms[j2].objects[o2].crc32]);
        }
    }
    assert(header_strings_ok(m.header));
    assert forall|i: int, k: int| 0 <= i < k < xs.len() implies #[trigger] xs[i].0 != #[trigger] xs[k].0 by {
        assert(es.files[i].0 != es.files[k].0);
    }
}

/// Whether one of the files `xs` is `x`: the same names and the same bytes.
pub open spec fn holds_file(xs: Seq<(u32, u32, Seq<u8>)>, x: (u32, u32, Seq<u8>)) -> bool {
    exists|k: int| 0 <= k < xs.len() && #[trigger] xs[k] == x
}

/// Among files whose names are met once, the file handed in for a name is the one of that
/// name.
pub proof fn lemma_input_of_distinct(xs: Seq<(u32, u32, Seq<u8>)>, k: int)
    requires
        0 <= k < xs.len(),
        forall|i: int, k2: int| 0 <= i < k2 < xs.len() ==> #[trigger] xs[i].0 != #[trigger] xs[k2].0,
    ensures
        first_input(as_inputs(xs), xs[k].0, 0) == Some(k),
        input_of(as_inputs(xs), xs[k].0) == xs[k].2,
{
    let gs = as_inputs(xs);
    let c = xs[k].0;
    assert(gs[k].0 == c);
    lemma_first_input_found(gs, c, 0, k);
    lemma_first_input(gs, c, 0);
    let q = first_input(gs, c, 0)->Some_0;
    assert(gs[q].0 == xs[q].0);
    if q != k {
        if q < k {
            assert(xs[q].0 != xs[k].0);
        } else {
            assert(xs[k].0 != xs[q].0);
        }
    }
}

/// The files that taking apart with LZ decompression gave, handed in again under their
/// names, are as `lemma_create_then_extract_lz` needs them: each reads as an object and
/// carries its name, and each object of the manifest names one such a taking apart writes,
/// which may be compressed where the backend compresses it, provided its decompressed data
/// is not empty.
#[verifier::spinoff_prover]
#[verifier::rlimit(60)]
pub proof fn lemma_ready_again(dpc: FuelDPC, b: Seq<u8>, m: ManifestModel, xs: Seq<(u32, u32, Seq<u8>)>)
    requires
        spec_extract_dpc(b, true) == Ok::<(ManifestModel, Seq<(u32, u32, Seq<u8>)>), DpcError>((m, xs)),
        m.pool is None,
        dpc.options.is_lz && dpc.options.is_optimization ==> forall|k: int| 0 <= k < xs.len() && marked(m.blocks, xs[k].0)
            ==> file_header(#[trigger] xs[k].2).decompressed_size > 0,
    ensures
        files_ok(as_inputs(xs)),
        lz_files_ready(dpc, m, as_inputs(xs)),
        header_strings_ok(m.header),
        marks_agree(m.blocks),
{
    lemma_lz_extracted(b);
    let fs = as_inputs(xs);
    assert forall|i: int| 0 <= i < fs.len() implies object_file_ok(#[trigger] fs[i].1) && file_header(fs[i].1).crc32
        == fs[i].0 by {
        assert(fs[i] == (xs[i].0, xs[i].2));
        assert(lz_file_ok(xs[i].2));
    }
    assert forall|j: int, o: int| 0 <= j < m.blocks.len() && 0 <= o < m.blocks[j].objects.len() implies {
        &&& lz_file_ok(input_of(fs, #[trigger] m.blocks[j].objects[o].crc32))
        &&& (m.blocks[j].objects[o].compress && dpc.options.is_lz && dpc.options.is_optimization ==> compressible(
            input_of(fs, m.blocks[j].objects[o].crc32),
        ))
    } by {
        let c = m.blocks[j].objects[o].crc32;
        assert(has_file(xs, c));
        let k = choose|k: int| 0 <= k < xs.len() && #[trigger] xs[k].0 == c;
        lemma_input_of_distinct(xs, k);
        assert(lz_file_ok(xs[k].2));
        if m.blocks[j].objects[o].compress {
            assert(marked(m.blocks, c));
        }
    }
}

/// The files written the second time are those written the first time: each is one of them,
/// and each of them is written again, where the second taking apart writes, for each object,
/// the file handed in under its name, and writes one for every object named first.
#[verifier::spinoff_prover]
#[verifier::rlimit(60)]
pub proof fn lemma_same_files(b: Seq<u8>, m: ManifestModel, xs: Seq<(u32, u32, Seq<u8>)>, xs2: Seq<(u32, u32, Seq<u8>)>)
    requires
        spec_extract_dpc(b, true) == Ok::<(ManifestModel, Seq<(u32, u32, Seq<u8>)>), DpcError>((m, xs)),
        m.pool is None,
        forall|i: int| 0 <= i < xs2.len() ==> {
            &&& first_input(as_inputs(xs), #[trigger] xs2[i].0, 0) is Some
            &&& xs2[i].2 == input_of(as_inputs(xs), xs2[i].0)
            &&& xs2[i].1 == file_header(input_of(as_inputs(xs), xs2[i].0)).class_crc32
        },
        forall|j: int, o: int| 0 <= j < m.blocks.len() && 0 <= o < m.blocks[j].objects.len() ==> exists|i: int|
            0 <= i < xs2.len() && xs2[i].0 == #[trigger] m.blocks[j].objects[o].crc32,
    ensures
        forall|i: int| 0 <= i < xs2.len() ==> holds_file(xs, #[trigger] xs2[i]),
        forall|k: int| 0 <= k < xs.len() ==> holds_file(xs2, #[trigger] xs[k]),
{
    lemma_lz_extracted(b);
    let fs = as_inputs(xs);
    assert forall|i: int| 0 <= i < xs2.len() implies holds_file(xs, #[trigger] xs2[i]) by {
        let c = xs2[i].0;
        lemma_first_input(fs, c, 0);
        let q = first_input(fs, c, 0)->Some_0;
        assert(fs[q] == (xs[q].0, xs[q].2));
        assert(lz_file_ok(xs[q].2));
        assert(xs2[i] == xs[q]);
    }
    assert forall|k: int| 0 <= k < xs.len() implies holds_file(xs2, #[trigger] xs[k]) by {
        let c = xs[k].0;
        assert(lz_file_ok(xs[k].2));
        assert(named(m.blocks, c));
        let (j, o) = choose|j: int, o: int|
            0 <= j < m.blocks.len() && 0 <= o < m.blocks[j].objects.len() && #[trigger] m.blocks[j].objects[o].crc32 == c;
        let i = choose|i: int| 0 <= i < xs2.len() && xs2[i].0 == m.blocks[j].objects[o].crc32;
        lemma_input_of_distinct(xs, k);
        assert(xs2[i] == xs[k]);
    }
}

/// Round trip through a create with LZ compression: a DPC without a pool, taken apart with
/// LZ decompression, put together again from that manifest and those files by a backend that
/// compresses (LZ with optimization), and taken apart again with LZ decompression, gives the
/// same manifest (its header as `create_dpc` writes it, the same blocks, objects and compress
/// marks, no pool) and the same object files: each file written the second time is one
/// written the first time, names and bytes, and each of those is written again. Objects
/// marked compressed must have some decompressed data.
#[verifier::spinoff_prover]
#[verifier::rlimit(60)]
pub proof fn lemma_lz_round_trip(dpc: FuelDPC, b: Seq<u8>, m: ManifestModel, xs: Seq<(u32, u32, Seq<u8>)>, b2: Seq<u8>)
    requires
        dpc.options.is_lz,
        dpc.options.is_optimization,
        spec_extract_dpc(b, true) == Ok::<(ManifestModel, Seq<(u32, u32, Seq<u8>)>), DpcError>((m, xs)),
        m.pool is None,
        create_accepted(dpc, m),
        forall|k: int| 0 <= k < xs.len() && marked(m.blocks, xs[k].0) ==> file_header(#[trigger] xs[k].2).decompressed_size > 0,
        spec_create_dpc(dpc, m, as_inputs(xs)) == Ok::<Seq<u8>, DpcError>(b2),
    ensures
        version_accepted(b2, dpc.options.is_unsafe),
        spec_extract_dpc(b2, true) is Ok,
        ({
            let (m2, xs2) = spec_extract_dpc(b2, true)->Ok_0;
            &&& m2.header == adjusted(dpc, m).header
            &&& m2.pool is None
            &&& m2.blocks == m.blocks
            &&& forall|i: int| 0 <= i < xs2.len() ==> holds_file(xs, #[trigger] xs2[i])
            &&& forall|k: int| 0 <= k < xs.len() ==> holds_file(xs2, #[trigger] xs[k])
        }),
{
    let fs = as_inputs(xs);
    lemma_ready_again(dpc, b, m, xs);
    lemma_create_then_extract_lz(dpc, m, fs, b2);
    let (m2, xs2) = spec_extract_dpc(b2, true)->Ok_0;
    lemma_same_files(b, m, xs, xs2);
    assert forall|j: int| 0 <= j < m.blocks.len() implies #[trigger] m2.blocks[j] == m.blocks[j] by {
        assert(m2.blocks[j].objects =~= m.blocks[j].objects);
    }
    assert(m2.blocks =~= m.blocks);
}

/// Round trip through a create without LZ compression: a DPC without a pool, taken apart
/// with LZ decompression, put together again from that manifest and those files without
/// compression, and taken apart again with LZ decompression, gives the same object files
/// (each file written the second time is one written the first time, names and bytes, and
/// each of those is written again), the manifest's header as `create_dpc` writes it, and the
/// same blocks with the same objects, none of them marked compressed.
#[verifier::spinoff_prover]
#[verifier::rlimit(60)]
pub proof fn lemma_lz_round_trip_plain(dpc: FuelDPC, b: Seq<u8>, m: ManifestModel, xs: Seq<(u32, u32, Seq<u8>)>, b2: Seq<u8>)
    requires
        !dpc.options.is_lz,
        spec_extract_dpc(b, true) == Ok::<(ManifestModel, Seq<(u32, u32, Seq<u8>)>), DpcError>((m, xs)),
        m.pool is None,
        create_accepted(dpc, m),
        spec_create_dpc(dpc, m, as_inputs(xs)) == Ok::<Seq<u8>, DpcError>(b2),
    ensures
        version_accepted(b2, dpc.options.is_unsafe),
        spec_extract_dpc(b2, true) is Ok,
        ({
            let (m2, xs2) = spec_extract_dpc(b2, true)->Ok_0;
            &&& m2.header == adjusted(dpc, m).header
            &&& m2.pool is None
            &&& m2.blocks.len() == m.blocks.len()
            &&& forall|j: int| 0 <= j < m.blocks.len() ==> {
                &&& (#[trigger] m2.blocks[j]).offset == m.blocks[j].offset
                &&& m2.blocks[j].objects.len() == m.blocks[j].objects.len()
                &&& forall|o: int| 0 <= o < m.blocks[j].objects.len() ==> #[trigger] m2.blocks[j].objects[o]
                    == (ObjectDescription { crc32: m.blocks[j].objects[o].crc32, compress: false })
            }
            &&& forall|i: int| 0 <= i < xs2.len() ==> holds_file(xs, #[trigger] xs2[i])
            &&& forall|k: int| 0 <= k < xs.len() ==> holds_file(xs2, #[trigger] xs[k])
        }),
{
    let fs = as_inputs(xs);
    lemma_ready_again(dpc, b, m, xs);
    lemma_create_then_extract_lz(dpc, m, fs, b2);
    let (m2, xs2) = spec_extract_dpc(b2, true)->Ok_0;
    lemma_same_files(b, m, xs, xs2);
}

} // verus!
