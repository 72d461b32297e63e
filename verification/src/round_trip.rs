//! What taking apart a DPC that `create_dpc` put together gives back.
use vstd::prelude::*;
use vstd::utf8::valid_utf8;
use crate::bytes::{words_bytes, lemma_words_bytes_len};
use crate::create::{FuelDPC, spec_pack_block_object};
use crate::extract::{BlockObjectModel, spec_block_object_at, spec_block_objects, spec_extract_object};
use crate::archive::{spec_extract_dpc, version_accepted, manifest_header_model, marked_blocks, all_marked, spec_finish, ExtractState, spec_object_step, spec_object_steps, spec_block_steps, descriptions, empty_state};
use crate::fuel_dpc::after_read;
use crate::fuel_dpc::{ObjectHeader, DpcError, file_header, after_header, read_at, spec_padded};
use crate::header::{PrimaryHeaderModel, spec_primary_header_bytes, head_words, tail_words, filled, lemma_descriptions_bytes_len};
use crate::layout::lemma_words_at_of;
use crate::fuel_dpc::lemma_object_header_roundtrip;
use crate::layout::BlockDescription;
use crate::manifest::{BlockModel, ObjectDescription, ManifestModel, ManifestHeaderModel};
use crate::header::{writable_header, spec_parse_primary_header, lemma_primary_header_roundtrip};
use crate::tables::spec_version_info;
use crate::assemble::{
    CreateState, first_input, spec_create_object, spec_create_objects, spec_create_block,
    spec_create_blocks, lemma_create_blocks_err, spec_create_dpc, spec_create_finish,
    spec_new_header, adjusted, create_accepted, PoolOut,
};

verus! {

/// What a block gets for the object file `f` packed without compression: its header and the
/// data size's worth of bytes after it.
pub open spec fn packed(f: Seq<u8>) -> Seq<u8> {
    file_header(f).spec_bytes() + read_at(f, after_header(f), file_header(f).data_size as nat)
}

/// The object file `f` reads as an object: its data holds its class object.
pub open spec fn object_file_ok(f: Seq<u8>) -> bool {
    file_header(f).class_object_size <= file_header(f).data_size
}

/// The block object that the packed bytes of `f` read as.
pub open spec fn object_model(f: Seq<u8>) -> BlockObjectModel {
    let h = file_header(f);
    let p = packed(f);
    BlockObjectModel {
        header: h,
        class_object: p.subrange(24, 24 + h.class_object_size),
        data: p.subrange(24 + h.class_object_size, 24 + h.data_size),
    }
}

/// The packed bytes of the files `fs`, one after the other.
pub open spec fn packs(fs: Seq<Seq<u8>>) -> Seq<u8>
    decreases fs.len(),
{
    if fs.len() == 0 {
        Seq::empty()
    } else {
        packs(fs.drop_last()) + packed(fs.last())
    }
}

/// Packed bytes are the header's 24 bytes and the data size's worth after them.
pub proof fn lemma_packed_len(f: Seq<u8>)
    ensures
        packed(f).len() == 24 + file_header(f).data_size,
        spec_pack_block_object(f, false) == Ok::<Seq<u8>, DpcError>(packed(f)),
{
    lemma_object_header_roundtrip(file_header(f));
}

/// Where the packed bytes of `f` stand at `off` of `s`, the block object there is the one
/// they read as, and extracting it without decompression gives them back.
pub proof fn lemma_packed_object_at(s: Seq<u8>, off: int, f: Seq<u8>)
    requires
        object_file_ok(f),
        0 <= off,
        off + packed(f).len() <= s.len(),
        s.subrange(off, off + packed(f).len()) == packed(f),
    ensures
        spec_block_object_at(s, off) == Ok::<(BlockObjectModel, int), DpcError>(
            (object_model(f), off + packed(f).len()),
        ),
        spec_extract_object(object_model(f), false) == Ok::<(ObjectHeader, Seq<u8>), DpcError>(
            (file_header(f), packed(f)),
        ),
{
    let h = file_header(f);
    let p = packed(f);
    lemma_packed_len(f);
    lemma_object_header_roundtrip(h);
    lemma_words_bytes_len(h.words());
    assert forall|k: int| 0 <= k < 4 * h.words().len() implies s[off + k] == #[trigger] words_bytes(h.words())[k] by {
        assert(s.subrange(off, off + p.len())[k] == p[k]);
    }
    lemma_words_at_of(s, off, h.words());
    assert(ObjectHeader::spec_at(s, off) == h);
    assert(s.subrange(off + 24, off + 24 + h.class_object_size) =~= p.subrange(24, 24 + h.class_object_size));
    assert(s.subrange(off + 24 + h.class_object_size, off + 24 + h.data_size) =~= p.subrange(
        24 + h.class_object_size,
        24 + h.data_size,
    ));
    let o = object_model(f);
    assert(h.spec_bytes() + o.class_object + o.data =~= p);
}

/// Splitting the packed files at the first.
pub proof fn lemma_packs_first(fs: Seq<Seq<u8>>)
    requires
        fs.len() > 0,
    ensures
        packs(fs) == packed(fs[0]) + packs(fs.drop_first()),
    decreases fs.len(),
{
    if fs.len() == 1 {
        assert(fs.drop_first() =~= Seq::<Seq<u8>>::empty());
        assert(fs.drop_last() =~= Seq::<Seq<u8>>::empty());
        assert(packs(fs) =~= packed(fs[0]) + packs(fs.drop_first()));
    } else {
        lemma_packs_first(fs.drop_last());
        assert(fs.drop_last().drop_first() =~= fs.drop_first().drop_last());
        assert(fs.drop_last()[0] == fs[0]);
        assert(fs.drop_first().last() == fs.last());
        assert(packs(fs) =~= packed(fs[0]) + packs(fs.drop_first()));
    }
}

/// Where the packed files stand one after the other from `off` of `s`, reading as many block
/// objects gives the objects they read as.
pub proof fn lemma_packs_objects(s: Seq<u8>, off: int, fs: Seq<Seq<u8>>)
    requires
        forall|i: int| 0 <= i < fs.len() ==> object_file_ok(#[trigger] fs[i]),
        0 <= off,
        off + packs(fs).len() <= s.len(),
        s.subrange(off, off + packs(fs).len()) == packs(fs),
    ensures
        spec_block_objects(s, off, fs.len()) == Ok::<Seq<BlockObjectModel>, DpcError>(
            fs.map_values(|f: Seq<u8>| object_model(f)),
        ),
    decreases fs.len(),
{
    if fs.len() == 0 {
        assert(fs.map_values(|f: Seq<u8>| object_model(f)) =~= Seq::<BlockObjectModel>::empty());
    } else {
        lemma_packs_first(fs);
        let f = fs[0];
        let n = packed(f).len() as int;
        assert(s.subrange(off, off + n) =~= packed(f)) by {
            assert forall|k: int| 0 <= k < n implies s.subrange(off, off + n)[k] == packed(f)[k] by {
                assert(s.subrange(off, off + packs(fs).len())[k] == packs(fs)[k]);
            }
        }
        assert(object_file_ok(fs[0]));
        lemma_packed_object_at(s, off, f);
        let rest = fs.drop_first();
        assert(forall|i: int| 0 <= i < rest.len() ==> rest[i] == fs[i + 1]);
        assert(s.subrange(off + n, off + n + packs(rest).len()) =~= packs(rest)) by {
            assert forall|k: int| 0 <= k < packs(rest).len() implies s.subrange(off + n, off + n + packs(rest).len())[k]
                == packs(rest)[k] by {
                assert(s.subrange(off, off + packs(fs).len())[n + k] == packs(fs)[n + k]);
            }
        }
        lemma_packs_objects(s, off + n, rest);
        assert(fs.map_values(|f: Seq<u8>| object_model(f)) =~= seq![object_model(f)] + rest.map_values(
            |f: Seq<u8>| object_model(f),
        ));
    }
}

/// The primary header's bytes fill one sector.
pub proof fn lemma_primary_header_len(m: PrimaryHeaderModel)
    requires
        m.version_string.len() <= 256,
        m.block_descriptions.len() <= 64,
        m.incredi_builder_string.len() <= 128,
    ensures
        spec_primary_header_bytes(m).len() == 2048,
{
    lemma_words_bytes_len(head_words(m));
    lemma_words_bytes_len(tail_words(m));
    lemma_descriptions_bytes_len(m.block_descriptions);
}

/// The files that the objects `ds` name among `fs`.
pub open spec fn named_files(ds: Seq<ObjectDescription>, fs: Seq<(u32, Seq<u8>)>) -> Seq<Seq<u8>> {
    ds.map_values(|d: ObjectDescription| fs[first_input(fs, d.crc32, 0)->Some_0].1)
}

/// Writing the objects of a block without LZ compression and without a pool appends their
/// files packed one after the other, each found by its name.
pub proof fn lemma_create_objects_plain(dpc: FuelDPC, s: CreateState, ds: Seq<ObjectDescription>, fs: Seq<(u32, Seq<u8>)>)
    requires
        !dpc.options.is_lz,
        spec_create_objects(dpc, s, ds, fs, None) is Ok,
    ensures
        ({
            let r = spec_create_objects(dpc, s, ds, fs, None)->Ok_0;
            &&& r.out == s.out + packs(named_files(ds, fs))
            &&& r.descs == s.descs
            &&& r.block_type == s.block_type
            &&& r.bpad == s.bpad
        }),
        forall|j: int| 0 <= j < ds.len() ==> first_input(fs, #[trigger] ds[j].crc32, 0) is Some,
    decreases ds.len(),
{
    if ds.len() == 0 {
        assert(named_files(ds, fs) =~= Seq::<Seq<u8>>::empty());
        assert(s.out + packs(named_files(ds, fs)) =~= s.out);
    } else {
        let prev = ds.drop_last();
        lemma_create_objects_plain(dpc, s, prev, fs);
        let s2 = spec_create_objects(dpc, s, prev, fs, None)->Ok_0;
        let d = ds.last();
        let i = first_input(fs, d.crc32, 0)->Some_0;
        let f = fs[i].1;
        lemma_packed_len(f);
        assert(named_files(ds, fs).drop_last() =~= named_files(prev, fs));
        assert(named_files(ds, fs).last() == f);
        assert(s.out + packs(named_files(ds, fs)) =~= s.out + packs(named_files(prev, fs)) + packed(f));
        assert forall|j: int| 0 <= j < ds.len() implies first_input(fs, #[trigger] ds[j].crc32, 0) is Some by {
            if j < ds.len() - 1 {
                assert(prev[j] == ds[j]);
            }
        }
    }
}

/// Padding after whole sectors: `a` sectors' worth and then `x` bytes pad like `x` alone.
pub proof fn lemma_padded_shift(a: int, x: int)
    requires
        a >= 0,
        x >= 0,
        a % 2048 == 0,
    ensures
        spec_padded(a + x) == a + spec_padded(x),
        x <= spec_padded(x) < x + 2048,
        spec_padded(x) % 2048 == 0,
{
    assert(((a + x + 2047) / 2048) * 2048 == a + ((x + 2047) / 2048) * 2048) by (nonlinear_arith)
        requires
            a >= 0,
            x >= 0,
            a % 2048 == 0,
    ;
    assert(x <= ((x + 2047) / 2048) * 2048 < x + 2048) by (nonlinear_arith)
        requires
            x >= 0,
    ;
    assert((((x + 2047) / 2048) * 2048) % 2048 == 0) by (nonlinear_arith);
}

/// A block written without LZ compression and without a pool, on whole sectors: its files
/// packed one after the other, zeros up to the next sector, and its description.
pub proof fn lemma_create_block_plain(dpc: FuelDPC, s: CreateState, blk: BlockModel, fs: Seq<(u32, Seq<u8>)>)
    requires
        !dpc.options.is_lz,
        s.out.len() % 2048 == 0,
        spec_create_block(dpc, s, blk, fs, None) is Ok,
    ensures
        ({
            let r = spec_create_block(dpc, s, blk, fs, None)->Ok_0;
            let body = packs(named_files(blk.objects, fs));
            let len = body.len() as int;
            let pad = spec_padded(len) - len;
            &&& blk.objects.len() > 0
            &&& blk.objects.len() <= u32::MAX
            &&& len <= 0xFFFF_F800
            &&& r.out == s.out + body + Seq::new(pad as nat, |j: int| 0u8)
            &&& r.out.len() % 2048 == 0
            &&& 0 <= pad < 2048
            &&& r.descs == s.descs.push(
                BlockDescription {
                    block_type: s.block_type,
                    object_count: blk.objects.len() as u32,
                    padded_size: spec_padded(len) as u32,
                    data_size: len as u32,
                    working_buffer_offset: blk.offset,
                    crc32: blk.objects[0].crc32,
                },
            )
            &&& r.bpad == s.bpad + pad
        }),
        forall|j: int| 0 <= j < blk.objects.len() ==> first_input(fs, #[trigger] blk.objects[j].crc32, 0) is Some,
{
    lemma_create_objects_plain(dpc, s, blk.objects, fs);
    let s2 = spec_create_objects(dpc, s, blk.objects, fs, None)->Ok_0;
    let body = packs(named_files(blk.objects, fs));
    let len = body.len() as int;
    lemma_padded_shift(s.out.len() as int, len);
    assert(s2.out + Seq::new((spec_padded(s2.out.len() as int) - s2.out.len()) as nat, |j: int| 0u8)
        =~= s.out + body + Seq::new((spec_padded(len) - len) as nat, |j: int| 0u8));
}

/// Blocks written without LZ compression and without a pool, from whole sectors, end on
/// whole sectors, add a description each and less than a sector of padding each.
pub proof fn lemma_create_blocks_aligned(dpc: FuelDPC, s0: CreateState, blocks: Seq<BlockModel>, fs: Seq<(u32, Seq<u8>)>)
    requires
        !dpc.options.is_lz,
        s0.out.len() % 2048 == 0,
        spec_create_blocks(dpc, s0, blocks, fs, None) is Ok,
    ensures
        ({
            let r = spec_create_blocks(dpc, s0, blocks, fs, None)->Ok_0;
            &&& r.out.len() % 2048 == 0
            &&& r.out.len() >= s0.out.len()
            &&& r.descs.len() == s0.descs.len() + blocks.len()
            &&& r.bpad <= s0.bpad + 2047 * blocks.len()
        }),
    decreases blocks.len(),
{
    if blocks.len() > 0 {
        lemma_create_blocks_aligned(dpc, s0, blocks.drop_last(), fs);
        let s1 = spec_create_blocks(dpc, s0, blocks.drop_last(), fs, None)->Ok_0;
        lemma_create_block_plain(dpc, s1, blocks.last(), fs);
    }
}

/// Each prefix of the blocks is written without error, and what it writes starts what all
/// of them write.
pub proof fn lemma_create_blocks_prefix(dpc: FuelDPC, s0: CreateState, blocks: Seq<BlockModel>, fs: Seq<(u32, Seq<u8>)>, k: int)
    requires
        !dpc.options.is_lz,
        s0.out.len() % 2048 == 0,
        spec_create_blocks(dpc, s0, blocks, fs, None) is Ok,
        0 <= k <= blocks.len(),
    ensures
        spec_create_blocks(dpc, s0, blocks.take(k), fs, None) is Ok,
        ({
            let sk = spec_create_blocks(dpc, s0, blocks.take(k), fs, None)->Ok_0;
            let sn = spec_create_blocks(dpc, s0, blocks, fs, None)->Ok_0;
            &&& sk.out.len() <= sn.out.len()
            &&& sk.out == sn.out.take(sk.out.len() as int)
        }),
    decreases blocks.len(),
{
    if k == blocks.len() {
        assert(blocks.take(k) =~= blocks);
    } else {
        let bl = blocks.drop_last();
        assert(bl.take(k) =~= blocks.take(k));
        lemma_create_blocks_prefix(dpc, s0, bl, fs, k);
        lemma_create_blocks_aligned(dpc, s0, bl, fs);
        let s1 = spec_create_blocks(dpc, s0, bl, fs, None)->Ok_0;
        lemma_create_block_plain(dpc, s1, blocks.last(), fs);
        let sk = spec_create_blocks(dpc, s0, blocks.take(k), fs, None)->Ok_0;
        let sn = spec_create_blocks(dpc, s0, blocks, fs, None)->Ok_0;
        assert(sn.out.take(s1.out.len() as int) =~= s1.out);
        assert(sn.out.take(sk.out.len() as int) =~= s1.out.take(sk.out.len() as int));
    }
}

/// Every file handed in reads as an object and carries the crc32 that names it.
pub open spec fn files_ok(fs: Seq<(u32, Seq<u8>)>) -> bool {
    forall|i: int| 0 <= i < fs.len() ==> object_file_ok(#[trigger] fs[i].1) && file_header(fs[i].1).crc32 == fs[i].0
}

/// The file found for `c` is named `c`.
pub proof fn lemma_first_input(fs: Seq<(u32, Seq<u8>)>, c: u32, k: int)
    requires
        first_input(fs, c, k) is Some,
    ensures
        k <= first_input(fs, c, k)->Some_0 < fs.len(),
        0 <= first_input(fs, c, k)->Some_0,
        fs[first_input(fs, c, k)->Some_0].0 == c,
    decreases fs.len() - k,
{
    if k >= 0 && k < fs.len() && fs[k].0 != c {
        lemma_first_input(fs, c, k + 1);
    }
}

/// The file handed in for `c`.
pub open spec fn input_of(fs: Seq<(u32, Seq<u8>)>, c: u32) -> Seq<u8> {
    fs[first_input(fs, c, 0)->Some_0].1
}

/// What taking apart has gathered agrees with the files handed in: each file written is the
/// packed file of its name, and each object recorded has that file's header and compress mark
/// and a file written.
pub open spec fn gathered_ok(es: ExtractState, fs: Seq<(u32, Seq<u8>)>) -> bool {
    &&& forall|i: int| 0 <= i < es.files.len() ==> {
        &&& first_input(fs, #[trigger] es.files[i].0, 0) is Some
        &&& es.files[i].2 == packed(input_of(fs, es.files[i].0))
        &&& es.files[i].1 == file_header(input_of(fs, es.files[i].0)).class_crc32
    }
    &&& forall|c: u32| #[trigger] es.headers.contains_key(c) ==> {
        &&& first_input(fs, c, 0) is Some
        &&& es.headers[c] == file_header(input_of(fs, c))
        &&& es.table.contains_key(c)
        &&& es.table[c] == (es.headers[c].compressed_size != 0)
        &&& exists|i: int| 0 <= i < es.files.len() && es.files[i].0 == c
    }
}

/// Taking in the objects that the packed files of `ds` read as keeps what is gathered in
/// agreement with the files, and records each of them.
pub proof fn lemma_object_steps_plain(es: ExtractState, ds: Seq<ObjectDescription>, fs: Seq<(u32, Seq<u8>)>)
    requires
        files_ok(fs),
        gathered_ok(es, fs),
        forall|j: int| 0 <= j < ds.len() ==> first_input(fs, #[trigger] ds[j].crc32, 0) is Some,
    ensures
        spec_object_steps(es, named_files(ds, fs).map_values(|f: Seq<u8>| object_model(f)), false) is Ok,
        ({
            let es2 = spec_object_steps(es, named_files(ds, fs).map_values(|f: Seq<u8>| object_model(f)), false)->Ok_0;
            &&& gathered_ok(es2, fs)
            &&& forall|c: u32| es.headers.contains_key(c) ==> #[trigger] es2.headers.contains_key(c)
            &&& forall|j: int| 0 <= j < ds.len() ==> es2.headers.contains_key(#[trigger] ds[j].crc32)
        }),
    decreases ds.len(),
{
    let models = named_files(ds, fs).map_values(|f: Seq<u8>| object_model(f));
    if ds.len() == 0 {
        assert(models =~= Seq::<BlockObjectModel>::empty());
    } else {
        let prev = ds.drop_last();
        assert forall|j: int| 0 <= j < prev.len() implies first_input(fs, #[trigger] prev[j].crc32, 0) is Some by {
            assert(prev[j] == ds[j]);
        }
        lemma_object_steps_plain(es, prev, fs);
        let pm = named_files(prev, fs).map_values(|f: Seq<u8>| object_model(f));
        assert(models.drop_last() =~= pm);
        let es1 = spec_object_steps(es, pm, false)->Ok_0;
        let d = ds.last();
        assert(first_input(fs, ds[ds.len() - 1].crc32, 0) is Some);
        let c = d.crc32;
        lemma_first_input(fs, c, 0);
        let i = first_input(fs, c, 0)->Some_0;
        let f = fs[i].1;
        assert(object_file_ok(fs[i].1) && file_header(fs[i].1).crc32 == fs[i].0);
        assert(models.last() == object_model(f));
        assert(object_model(f).header.crc32 == c);
        lemma_packed_len(f);
        assert(packed(f).subrange(0, packed(f).len() as int) =~= packed(f));
        lemma_packed_object_at(packed(f), 0, f);
        let es2 = spec_object_steps(es, models, false)->Ok_0;
        if !es1.headers.contains_key(c) {
            let n = es1.files.len() as int;
            assert(es2.files == es1.files.push((c, file_header(f).class_crc32, packed(f))));
            assert(es2.files[n].0 == c);
            assert forall|i2: int| 0 <= i2 < es2.files.len() implies {
                &&& first_input(fs, #[trigger] es2.files[i2].0, 0) is Some
                &&& es2.files[i2].2 == packed(input_of(fs, es2.files[i2].0))
                &&& es2.files[i2].1 == file_header(input_of(fs, es2.files[i2].0)).class_crc32
            } by {
                if i2 < n {
                    assert(es2.files[i2] == es1.files[i2]);
                }
            }
            assert forall|c2: u32| #[trigger] es2.headers.contains_key(c2) implies {
                &&& first_input(fs, c2, 0) is Some
                &&& es2.headers[c2] == file_header(input_of(fs, c2))
                &&& es2.table.contains_key(c2)
                &&& es2.table[c2] == (es2.headers[c2].compressed_size != 0)
                &&& exists|i3: int| 0 <= i3 < es2.files.len() && es2.files[i3].0 == c2
            } by {
                if c2 != c {
                    assert(es1.headers.contains_key(c2));
                    let w = choose|i3: int| 0 <= i3 < es1.files.len() && es1.files[i3].0 == c2;
                    assert(es2.files[w] == es1.files[w]);
                }
            }
        }
        assert forall|j: int| 0 <= j < ds.len() implies es2.headers.contains_key(#[trigger] ds[j].crc32) by {
            if j < ds.len() - 1 {
                assert(prev[j] == ds[j]);
                assert(es1.headers.contains_key(prev[j].crc32));
            }
        }
    }
}

/// The block that taking apart reads back for the manifest's block `blk`: its offset, and
/// each object named by the crc32 in its file's header and marked by whether that header says
/// it is compressed.
pub open spec fn extracted_block(blk: BlockModel, fs: Seq<(u32, Seq<u8>)>) -> BlockModel {
    BlockModel {
        offset: blk.offset,
        objects: descriptions(named_files(blk.objects, fs).map_values(|f: Seq<u8>| object_model(f))),
    }
}

/// Reading back one more block that `create_dpc` wrote, after those read back so far.
#[verifier::spinoff_prover]
#[verifier::rlimit(50)]
pub proof fn lemma_block_read_step(
    dpc: FuelDPC,
    sp: CreateState,
    blk: BlockModel,
    fs: Seq<(u32, Seq<u8>)>,
    b: Seq<u8>,
    bms_prev: Seq<BlockModel>,
    es_prev: ExtractState,
) -> (es: ExtractState)
    requires
        !dpc.options.is_lz,
        files_ok(fs),
        gathered_ok(es_prev, fs),
        sp.out.len() % 2048 == 0,
        sp.out.len() >= 2048,
        spec_create_block(dpc, sp, blk, fs, None) is Ok,
        spec_block_steps(b, sp.descs, false, 2048) == Ok::<(Seq<BlockModel>, ExtractState, int), DpcError>(
            (bms_prev, es_prev, sp.out.len() as int),
        ),
        spec_create_block(dpc, sp, blk, fs, None)->Ok_0.out.len() <= b.len(),
        forall|i: int| 2048 <= i < spec_create_block(dpc, sp, blk, fs, None)->Ok_0.out.len() ==> b[i]
            == spec_create_block(dpc, sp, blk, fs, None)->Ok_0.out[i],
    ensures
        spec_block_steps(b, spec_create_block(dpc, sp, blk, fs, None)->Ok_0.descs, false, 2048)
            == Ok::<(Seq<BlockModel>, ExtractState, int), DpcError>((
                bms_prev.push(extracted_block(blk, fs)),
                es,
                spec_create_block(dpc, sp, blk, fs, None)->Ok_0.out.len() as int,
            )),
        gathered_ok(es, fs),
        forall|c: u32| es_prev.headers.contains_key(c) ==> #[trigger] es.headers.contains_key(c),
        forall|o: int| 0 <= o < blk.objects.len() ==> es.headers.contains_key(#[trigger] blk.objects[o].crc32),
{
    let sk = spec_create_block(dpc, sp, blk, fs, None)->Ok_0;
    lemma_create_block_plain(dpc, sp, blk, fs);
    let body = packs(named_files(blk.objects, fs));
    let len = body.len() as int;
    let pad = spec_padded(len) - len;
    let zeros = Seq::new(pad as nat, |j: int| 0u8);
    let d = sk.descs.last();
    assert(sk.descs.drop_last() =~= sp.descs);
    let p = sp.out.len() as int;
    assert(read_at(b, p, d.padded_size as nat) =~= body + zeros) by {
        assert forall|j: int| 0 <= j < d.padded_size implies #[trigger] read_at(b, p, d.padded_size as nat)[j]
            == (body + zeros)[j] by {
            assert(sk.out[p + j] == (body + zeros)[j]);
        }
    }
    let files = named_files(blk.objects, fs);
    assert forall|i: int| 0 <= i < files.len() implies object_file_ok(#[trigger] files[i]) by {
        assert(first_input(fs, blk.objects[i].crc32, 0) is Some);
        lemma_first_input(fs, blk.objects[i].crc32, 0);
        let q = first_input(fs, blk.objects[i].crc32, 0)->Some_0;
        assert(object_file_ok(fs[q].1));
    }
    assert((body + zeros).subrange(0, body.len() as int) =~= body);
    lemma_packs_objects(body + zeros, 0, files);
    lemma_object_steps_plain(es_prev, blk.objects, fs);
    let models = files.map_values(|f: Seq<u8>| object_model(f));
    let es = spec_object_steps(es_prev, models, false)->Ok_0;
    assert(after_read(b, p, d.padded_size as int) == sk.out.len());
    es
}

/// Reading back the first `k` blocks that `create_dpc` wrote, from the end of the first
/// sector of `b` (which holds, from there on, what the blocks wrote): the blocks as
/// `extracted_block` gives them, what is gathered then, and the position after them.
#[verifier::spinoff_prover]
#[verifier::rlimit(100)]
pub proof fn lemma_blocks_read_back(dpc: FuelDPC, s0: CreateState, blocks: Seq<BlockModel>, fs: Seq<(u32, Seq<u8>)>, b: Seq<u8>, k: int) -> (es: ExtractState)
    requires
        !dpc.options.is_lz,
        files_ok(fs),
        s0.out.len() == 2048,
        s0.descs.len() == 0,
        spec_create_blocks(dpc, s0, blocks, fs, None) is Ok,
        b.len() == spec_create_blocks(dpc, s0, blocks, fs, None)->Ok_0.out.len(),
        forall|i: int| 2048 <= i < b.len() ==> b[i] == spec_create_blocks(dpc, s0, blocks, fs, None)->Ok_0.out[i],
        0 <= k <= blocks.len(),
    ensures
        spec_create_blocks(dpc, s0, blocks.take(k), fs, None) is Ok,
        spec_block_steps(b, spec_create_blocks(dpc, s0, blocks.take(k), fs, None)->Ok_0.descs, false, 2048)
            == Ok::<(Seq<BlockModel>, ExtractState, int), DpcError>((
                blocks.take(k).map_values(|x: BlockModel| extracted_block(x, fs)),
                es,
                spec_create_blocks(dpc, s0, blocks.take(k), fs, None)->Ok_0.out.len() as int,
            )),
        gathered_ok(es, fs),
        forall|j: int, o: int| 0 <= j < k && 0 <= o < blocks[j].objects.len() ==> es.headers.contains_key(
            #[trigger] blocks[j].objects[o].crc32,
        ),
    decreases k,
{
    lemma_create_blocks_prefix(dpc, s0, blocks, fs, k);
    let sk = spec_create_blocks(dpc, s0, blocks.take(k), fs, None)->Ok_0;
    if k == 0 {
        assert(blocks.take(0) =~= Seq::<BlockModel>::empty());
        assert(sk == s0);
        assert(sk.descs =~= Seq::<BlockDescription>::empty());
        assert(blocks.take(k).map_values(|x: BlockModel| extracted_block(x, fs)) =~= Seq::<BlockModel>::empty());
        empty_state()
    } else {
        lemma_create_blocks_prefix(dpc, s0, blocks, fs, k - 1);
        let es_prev = lemma_blocks_read_back(dpc, s0, blocks, fs, b, k - 1);
        let sp = spec_create_blocks(dpc, s0, blocks.take(k - 1), fs, None)->Ok_0;
        assert(blocks.take(k).drop_last() =~= blocks.take(k - 1));
        assert(blocks.take(k).last() == blocks[k - 1]);
        let blk = blocks[k - 1];
        lemma_create_blocks_aligned(dpc, s0, blocks.take(k - 1), fs);
        let sn = spec_create_blocks(dpc, s0, blocks, fs, None)->Ok_0;
        assert(sk == spec_create_block(dpc, sp, blk, fs, None)->Ok_0);
        assert forall|i: int| 2048 <= i < sk.out.len() implies b[i] == sk.out[i] by {
            assert(sn.out.take(sk.out.len() as int)[i] == sn.out[i]);
        }
        let bms_prev = blocks.take(k - 1).map_values(|x: BlockModel| extracted_block(x, fs));
        let es = lemma_block_read_step(dpc, sp, blk, fs, b, bms_prev, es_prev);
        assert(blocks.take(k).map_values(|x: BlockModel| extracted_block(x, fs)) =~= bms_prev.push(
            extracted_block(blk, fs),
        ));
        assert forall|j: int, o: int| 0 <= j < k && 0 <= o < blocks[j].objects.len() implies es.headers.contains_key(
            #[trigger] blocks[j].objects[o].crc32) by {
            if j < k - 1 {
                assert(es_prev.headers.contains_key(blocks[j].objects[o].crc32));
            } else {
                assert(blk.objects[o] == blocks[j].objects[o]);
            }
        }
        es
    }
}

/// The manifest's strings can stand in a primary header: valid UTF-8, not ending in NUL.
pub open spec fn header_strings_ok(mh: ManifestHeaderModel) -> bool {
    &&& valid_utf8(mh.version_string)
    &&& (mh.version_string.len() == 0 || mh.version_string.last() != 0)
    &&& valid_utf8(mh.incredi_builder_string)
    &&& (mh.incredi_builder_string.len() == 0 || mh.incredi_builder_string.last() != 0)
}

/// Round trip of the archive: taking apart, without LZ decompression, a DPC that
/// `create_dpc` put together without LZ compression and without a pool gives back the
/// manifest it was put together from (its header as written, the same blocks with the same
/// objects in the same order, each object marked compressed exactly when its file's header
/// says so, and no pool), and object files that are the files handed in, each packed as the
/// blocks hold it, one for every object the blocks name.
#[verifier::spinoff_prover]
#[verifier::rlimit(80)]
pub proof fn lemma_create_then_extract(dpc: FuelDPC, m: ManifestModel, fs: Seq<(u32, Seq<u8>)>, b: Seq<u8>)
    requires
        create_accepted(dpc, m),
        !dpc.options.is_lz,
        adjusted(dpc, m).pool is None,
        files_ok(fs),
        header_strings_ok(m.header),
        spec_create_dpc(dpc, m, fs) == Ok::<Seq<u8>, DpcError>(b),
    ensures
        version_accepted(b, dpc.options.is_unsafe),
        spec_extract_dpc(b, false) is Ok,
        ({
            let (m2, xs) = spec_extract_dpc(b, false)->Ok_0;
            &&& m2.header == adjusted(dpc, m).header
            &&& m2.pool is None
            &&& m2.blocks.len() == m.blocks.len()
            &&& forall|j: int| 0 <= j < m.blocks.len() ==> {
                &&& (#[trigger] m2.blocks[j]).offset == m.blocks[j].offset
                &&& m2.blocks[j].objects.len() == m.blocks[j].objects.len()
                &&& forall|o: int| 0 <= o < m.blocks[j].objects.len() ==> #[trigger] m2.blocks[j].objects[o]
                    == (ObjectDescription {
                        crc32: m.blocks[j].objects[o].crc32,
                        compress: file_header(input_of(fs, m.blocks[j].objects[o].crc32)).compressed_size != 0,
                    })
            }
            &&& forall|i: int| 0 <= i < xs.len() ==> {
                &&& first_input(fs, #[trigger] xs[i].0, 0) is Some
                &&& xs[i].2 == packed(input_of(fs, xs[i].0))
                &&& xs[i].1 == file_header(input_of(fs, xs[i].0)).class_crc32
            }
            &&& forall|j: int, o: int| 0 <= j < m.blocks.len() && 0 <= o < m.blocks[j].objects.len() ==> exists|i: int|
                0 <= i < xs.len() && xs[i].0 == #[trigger] m.blocks[j].objects[o].crc32
        }),
{
    let ma = adjusted(dpc, m);
    let mh = ma.header;
    let v = spec_version_info(mh.version_string);
    let (patch, minor, block_type) = match v {
        Some(t) => t,
        None => (0u32, 0u32, 0u32),
    };
    let s0 = CreateState {
        out: Seq::new(2048, |j: int| 0u8),
        descs: Seq::empty(),
        block_type: block_type,
        bpad: 0,
        compress: Map::empty(),
        chunks: Map::empty(),
        packed: Seq::empty(),
    };
    assert(ma.blocks == m.blocks);
    assert(spec_create_blocks(dpc, s0, m.blocks, fs, None) is Ok);
    let s = spec_create_blocks(dpc, s0, m.blocks, fs, None)->Ok_0;
    lemma_create_blocks_aligned(dpc, s0, m.blocks, fs);
    let hm = spec_new_header(mh, s.descs, (s.out.len() - 2048) as u32, (patch, minor), 0, 0, 0, s.bpad, 0, s.out.len() as u32);
    let hb = spec_primary_header_bytes(hm);
    assert(b == hb + s.out.skip(2048));
    lemma_primary_header_len(hm);
    assert(s.bpad <= 2047 * 64);
    assert(writable_header(hm));
    lemma_primary_header_roundtrip(hm, Seq::empty());
    assert(read_at(b, 0, 2048) =~= hb + Seq::<u8>::empty());
    assert(after_read(b, 0, 2048) == 2048);
    assert forall|i: int| 2048 <= i < b.len() implies b[i] == s.out[i] by {
        assert(b[i] == s.out.skip(2048)[i - 2048]);
    }
    let es = lemma_blocks_read_back(dpc, s0, m.blocks, fs, b, m.blocks.len() as int);
    assert(m.blocks.take(m.blocks.len() as int) =~= m.blocks);
    let bms = m.blocks.map_values(|x: BlockModel| extracted_block(x, fs));
    assert forall|j: int, o: int| 0 <= j < m.blocks.len() && 0 <= o < m.blocks[j].objects.len() implies
        (#[trigger] bms[j].objects[o]).crc32 == m.blocks[j].objects[o].crc32 && bms[j].objects[o].compress
            == (file_header(input_of(fs, m.blocks[j].objects[o].crc32)).compressed_size != 0) by {
        let c = m.blocks[j].objects[o].crc32;
        lemma_create_blocks_prefix(dpc, s0, m.blocks, fs, j + 1);
        lemma_create_blocks_prefix(dpc, s0, m.blocks, fs, j);
        assert(m.blocks.take(j + 1).drop_last() =~= m.blocks.take(j));
        assert(m.blocks.take(j + 1).last() == m.blocks[j]);
        lemma_create_blocks_aligned(dpc, s0, m.blocks.take(j), fs);
        lemma_create_block_plain(dpc, spec_create_blocks(dpc, s0, m.blocks.take(j), fs, None)->Ok_0, m.blocks[j], fs);
        assert(first_input(fs, m.blocks[j].objects[o].crc32, 0) is Some);
        lemma_first_input(fs, c, 0);
    }
    assert(all_marked(bms, es.table)) by {
        assert forall|j: int, o: int| 0 <= j < bms.len() && 0 <= o < bms[j].objects.len() implies es.table.contains_key(
            #[trigger] bms[j].objects[o].crc32) by {
            assert(bms[j].objects[o].crc32 == m.blocks[j].objects[o].crc32);
            assert(es.headers.contains_key(m.blocks[j].objects[o].crc32));
        }
    }
    let (m2, xs) = spec_extract_dpc(b, false)->Ok_0;
    assert(m2.blocks == marked_blocks(bms, es.table));
    assert(xs == es.files);
    assert forall|j: int, o: int| 0 <= j < m.blocks.len() && 0 <= o < m.blocks[j].objects.len() implies exists|i: int|
        0 <= i < xs.len() && xs[i].0 == #[trigger] m.blocks[j].objects[o].crc32 by {
        assert(es.headers.contains_key(m.blocks[j].objects[o].crc32));
    }
    assert forall|j: int| 0 <= j < m.blocks.len() implies {
        &&& (#[trigger] m2.blocks[j]).offset == m.blocks[j].offset
        &&& m2.blocks[j].objects.len() == m.blocks[j].objects.len()
        &&& forall|o: int| 0 <= o < m.blocks[j].objects.len() ==> #[trigger] m2.blocks[j].objects[o]
            == (ObjectDescription {
                crc32: m.blocks[j].objects[o].crc32,
                compress: file_header(input_of(fs, m.blocks[j].objects[o].crc32)).compressed_size != 0,
            })
    } by {
        assert forall|o: int| 0 <= o < m.blocks[j].objects.len() implies #[trigger] m2.blocks[j].objects[o]
            == (ObjectDescription {
                crc32: m.blocks[j].objects[o].crc32,
                compress: file_header(input_of(fs, m.blocks[j].objects[o].crc32)).compressed_size != 0,
            }) by {
            let c = m.blocks[j].objects[o].crc32;
            assert(bms[j].objects[o].crc32 == c);
            assert(es.headers.contains_key(c));
        }
    }
}

/// Packing packed bytes changes nothing: they start with the header they were packed under.
pub proof fn lemma_packed_packed(f: Seq<u8>)
    ensures
        file_header(packed(f)) == file_header(f),
        packed(packed(f)) == packed(f),
{
    let h = file_header(f);
    let p = packed(f);
    lemma_packed_len(f);
    lemma_object_header_roundtrip(h);
    crate::fuel_dpc::lemma_file_header_prefix(p);
    lemma_words_bytes_len(h.words());
    assert forall|k: int| 0 <= k < 4 * h.words().len() implies p[0 + k] == #[trigger] words_bytes(h.words())[k] by {}
    lemma_words_at_of(p, 0, h.words());
    assert(ObjectHeader::spec_at(p, 0) == h);
    assert(read_at(p, 24, h.data_size as nat) =~= p.skip(24));
    assert(h.spec_bytes() + p.skip(24) =~= p);
}

/// The object files taken apart, as files to hand in: each named by its crc32.
pub open spec fn as_inputs(xs: Seq<(u32, u32, Seq<u8>)>) -> Seq<(u32, Seq<u8>)> {
    xs.map_values(|x: (u32, u32, Seq<u8>)| (x.0, x.2))
}

/// A file named `c` stands at index `i` or later: the first from `k` on is found.
pub proof fn lemma_first_input_found(fs: Seq<(u32, Seq<u8>)>, c: u32, k: int, i: int)
    requires
        0 <= k <= i < fs.len(),
        fs[i].0 == c,
    ensures
        first_input(fs, c, k) is Some,
    decreases i - k,
{
    if fs[k].0 != c {
        lemma_first_input_found(fs, c, k + 1, i);
    }
}

/// Writing the objects `ds` from the files `fs` and the objects `ds2` of the same names from
/// files `gs` that hold each file of `fs` packed gives the same.
pub proof fn lemma_create_objects_same(dpc: FuelDPC, s: CreateState, ds: Seq<ObjectDescription>, ds2: Seq<ObjectDescription>, fs: Seq<(u32, Seq<u8>)>, gs: Seq<(u32, Seq<u8>)>)
    requires
        !dpc.options.is_lz,
        spec_create_objects(dpc, s, ds, fs, None) is Ok,
        ds2.len() == ds.len(),
        forall|o: int| 0 <= o < ds.len() ==> (#[trigger] ds2[o]).crc32 == ds[o].crc32,
        forall|o: int| 0 <= o < ds.len() ==> first_input(gs, #[trigger] ds[o].crc32, 0) is Some
            && input_of(gs, ds[o].crc32) == packed(input_of(fs, ds[o].crc32)),
    ensures
        spec_create_objects(dpc, s, ds2, gs, None) == spec_create_objects(dpc, s, ds, fs, None),
    decreases ds.len(),
{
    if ds.len() > 0 {
        let p = ds.drop_last();
        let p2 = ds2.drop_last();
        assert forall|o: int| 0 <= o < p.len() implies (#[trigger] p2[o]).crc32 == p[o].crc32 by {
            assert(p2[o] == ds2[o] && p[o] == ds[o]);
        }
        assert forall|o: int| 0 <= o < p.len() implies first_input(gs, #[trigger] p[o].crc32, 0) is Some
            && input_of(gs, p[o].crc32) == packed(input_of(fs, p[o].crc32)) by {
            assert(p[o] == ds[o]);
        }
        lemma_create_objects_same(dpc, s, p, p2, fs, gs);
        let d = ds.last();
        assert(ds2.last().crc32 == d.crc32);
        assert(first_input(gs, ds[ds.len() - 1].crc32, 0) is Some);
        let st = spec_create_objects(dpc, s, p, fs, None)->Ok_0;
        assert(first_input(fs, d.crc32, 0) is Some);
        let f = input_of(fs, d.crc32);
        lemma_packed_packed(f);
        lemma_packed_len(f);
        lemma_packed_len(packed(f));
    }
}

/// Writing the blocks `bs` from `fs` and blocks `bs2` with the same offsets and objects of
/// the same names from files `gs` that hold each file of `fs` packed gives the same.
pub proof fn lemma_create_blocks_same(dpc: FuelDPC, s0: CreateState, bs: Seq<BlockModel>, bs2: Seq<BlockModel>, fs: Seq<(u32, Seq<u8>)>, gs: Seq<(u32, Seq<u8>)>)
    requires
        !dpc.options.is_lz,
        spec_create_blocks(dpc, s0, bs, fs, None) is Ok,
        bs2.len() == bs.len(),
        forall|j: int| 0 <= j < bs.len() ==> {
            &&& (#[trigger] bs2[j]).offset == bs[j].offset
            &&& bs2[j].objects.len() == bs[j].objects.len()
            &&& forall|o: int| 0 <= o < bs[j].objects.len() ==> (#[trigger] bs2[j].objects[o]).crc32 == bs[j].objects[o].crc32
        },
        forall|j: int, o: int| 0 <= j < bs.len() && 0 <= o < bs[j].objects.len() ==> first_input(gs, #[trigger] bs[j].objects[o].crc32, 0) is Some
            && input_of(gs, bs[j].objects[o].crc32) == packed(input_of(fs, bs[j].objects[o].crc32)),
    ensures
        spec_create_blocks(dpc, s0, bs2, gs, None) == spec_create_blocks(dpc, s0, bs, fs, None),
    decreases bs.len(),
{
    if bs.len() > 0 {
        let p = bs.drop_last();
        let p2 = bs2.drop_last();
        assert forall|j: int| 0 <= j < p.len() implies {
            &&& (#[trigger] p2[j]).offset == p[j].offset
            &&& p2[j].objects.len() == p[j].objects.len()
            &&& forall|o: int| 0 <= o < p[j].objects.len() ==> (#[trigger] p2[j].objects[o]).crc32 == p[j].objects[o].crc32
        } by {
            assert(p2[j] == bs2[j] && p[j] == bs[j]);
        }
        assert forall|j: int, o: int| 0 <= j < p.len() && 0 <= o < p[j].objects.len() implies first_input(gs, #[trigger] p[j].objects[o].crc32, 0) is Some
            && input_of(gs, p[j].objects[o].crc32) == packed(input_of(fs, p[j].objects[o].crc32)) by {
            assert(p[j] == bs[j]);
        }
        lemma_create_blocks_same(dpc, s0, p, p2, fs, gs);
        let st = spec_create_blocks(dpc, s0, p, fs, None)->Ok_0;
        let blk = bs.last();
        let blk2 = bs2.last();
        assert(blk == bs[bs.len() - 1] && blk2 == bs2[bs.len() - 1]);
        assert forall|o: int| 0 <= o < blk.objects.len() implies first_input(gs, #[trigger] blk.objects[o].crc32, 0) is Some
            && input_of(gs, blk.objects[o].crc32) == packed(input_of(fs, blk.objects[o].crc32)) by {
            assert(blk.objects[o] == bs[bs.len() - 1].objects[o]);
        }
        assert forall|o: int| 0 <= o < blk.objects.len() implies (#[trigger] blk2.objects[o]).crc32 == blk.objects[o].crc32 by {}
        lemma_create_objects_same(dpc, st, blk.objects, blk2.objects, fs, gs);
        if blk.objects.len() > 0 {
            assert(blk2.objects[0].crc32 == blk.objects[0].crc32);
        }
    }
}

/// Round trip of the archive the other way: a DPC that `create_dpc` put together without LZ
/// compression and without a pool, taken apart without LZ decompression and put together
/// again from what taking apart gives, is the same DPC, byte for byte.
#[verifier::spinoff_prover]
#[verifier::rlimit(80)]
pub proof fn lemma_extract_then_create(dpc: FuelDPC, m: ManifestModel, fs: Seq<(u32, Seq<u8>)>, b: Seq<u8>)
    requires
        create_accepted(dpc, m),
        !dpc.options.is_lz,
        adjusted(dpc, m).pool is None,
        files_ok(fs),
        header_strings_ok(m.header),
        spec_create_dpc(dpc, m, fs) == Ok::<Seq<u8>, DpcError>(b),
    ensures
        spec_extract_dpc(b, false) is Ok,
        create_accepted(dpc, spec_extract_dpc(b, false)->Ok_0.0),
        spec_create_dpc(dpc, spec_extract_dpc(b, false)->Ok_0.0, as_inputs(spec_extract_dpc(b, false)->Ok_0.1))
            == Ok::<Seq<u8>, DpcError>(b),
{
    lemma_create_then_extract(dpc, m, fs, b);
    let (m2, xs) = spec_extract_dpc(b, false)->Ok_0;
    let gs = as_inputs(xs);
    let ma = adjusted(dpc, m);
    let mb = adjusted(dpc, m2);
    assert(mb.header == ma.header);
    assert(mb.pool is None);
    assert(mb.blocks == m2.blocks);
    assert(ma.blocks == m.blocks);
    let v = spec_version_info(ma.header.version_string);
    let (patch, minor, block_type) = match v {
        Some(t) => t,
        None => (0u32, 0u32, 0u32),
    };
    let s0 = CreateState {
        out: Seq::new(2048, |j: int| 0u8),
        descs: Seq::empty(),
        block_type: block_type,
        bpad: 0,
        compress: Map::empty(),
        chunks: Map::empty(),
        packed: Seq::empty(),
    };
    assert forall|j: int, o: int| 0 <= j < m.blocks.len() && 0 <= o < m.blocks[j].objects.len() implies first_input(gs, #[trigger] m.blocks[j].objects[o].crc32, 0) is Some
        && input_of(gs, m.blocks[j].objects[o].crc32) == packed(input_of(fs, m.blocks[j].objects[o].crc32)) by {
        let c = m.blocks[j].objects[o].crc32;
        let i = choose|i: int| 0 <= i < xs.len() && xs[i].0 == c;
        assert(gs[i].0 == c);
        lemma_first_input_found(gs, c, 0, i);
        lemma_first_input(gs, c, 0);
        let q = first_input(gs, c, 0)->Some_0;
        assert(xs[q].0 == c);
        assert(first_input(fs, xs[q].0, 0) is Some);
    }
    assert forall|j: int| 0 <= j < m.blocks.len() implies {
        &&& (#[trigger] m2.blocks[j]).offset == m.blocks[j].offset
        &&& m2.blocks[j].objects.len() == m.blocks[j].objects.len()
        &&& forall|o: int| 0 <= o < m.blocks[j].objects.len() ==> (#[trigger] m2.blocks[j].objects[o]).crc32 == m.blocks[j].objects[o].crc32
    } by {
        assert forall|o: int| 0 <= o < m.blocks[j].objects.len() implies (#[trigger] m2.blocks[j].objects[o]).crc32 == m.blocks[j].objects[o].crc32 by {
            assert(m2.blocks[j].objects[o] == (ObjectDescription {
                crc32: m.blocks[j].objects[o].crc32,
                compress: file_header(input_of(fs, m.blocks[j].objects[o].crc32)).compressed_size != 0,
            }));
        }
    }
    lemma_create_blocks_same(dpc, s0, m.blocks, m2.blocks, fs, gs);
}

} // verus!
