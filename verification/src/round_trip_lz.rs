//! What taking apart with LZ decompression a DPC gives back, when `create_dpc` put it together
//! from object files that such a taking apart wrote, with or without LZ compression.
use vstd::prelude::*;
use crate::bytes::{words_bytes, words_at, lemma_words_at_bytes, lemma_words_bytes_len};
use crate::create::{FuelDPC, spec_pack_block_object, lemma_block_object_compress_roundtrip};
use crate::extract::{BlockObjectModel, spec_block_object_at, spec_block_objects, spec_extract_object};
use crate::fuel_dpc::{ObjectHeader, DpcError, file_header, read_at, after_read, after_header, with_sizes, plain_object_file, lemma_object_header_roundtrip};
use crate::bytes::le32_bytes;
use crate::create::spec_compressed_data;
use crate::layout::lemma_words_at_of;
use crate::round_trip::{packed, object_file_ok, object_model, lemma_packed_len, lemma_packed_object_at, input_of, files_ok, lemma_first_input};
use crate::archive::{ExtractState, spec_object_step, spec_object_steps, spec_block_steps, descriptions, empty_state};
use crate::assemble::{
    spec_compresses, CreateState, first_input, spec_create_object, spec_create_objects,
    spec_create_block, spec_create_blocks,
};
use crate::layout::BlockDescription;
use crate::manifest::{BlockModel, ManifestModel};
use crate::archive::{spec_extract_dpc, version_accepted, marked_blocks, all_marked, manifest_header_model};
use crate::assemble::{spec_create_dpc, spec_new_header, adjusted, create_accepted};
use crate::header::{spec_primary_header_bytes, writable_header, lemma_primary_header_roundtrip, spec_parse_primary_header};
use crate::tables::spec_version_info;
use crate::round_trip::{header_strings_ok, lemma_primary_header_len};
use crate::fuel_dpc::spec_padded;
use crate::round_trip::lemma_padded_shift;
use crate::manifest::ObjectDescription;

verus! {

/// What a block gets for the object file `f`: packed as it is, or compressed.
pub open spec fn piece(f: Seq<u8>, comp: bool) -> Seq<u8> {
    if comp {
        spec_pack_block_object(f, true)->Ok_0
    } else {
        packed(f)
    }
}

/// Whether the object `d`, whose file is found among `fs`, is compressed on the way in.
pub open spec fn comp_for(dpc: FuelDPC, d: ObjectDescription, fs: Seq<(u32, Seq<u8>)>) -> bool {
    spec_compresses(dpc, d.compress, file_header(input_of(fs, d.crc32)).compressed_size)
}

/// What a block gets for the objects `ds`, one piece each.
pub open spec fn pieces(dpc: FuelDPC, ds: Seq<ObjectDescription>, fs: Seq<(u32, Seq<u8>)>) -> Seq<Seq<u8>> {
    ds.map_values(|d: ObjectDescription| piece(input_of(fs, d.crc32), comp_for(dpc, d, fs)))
}

/// The byte strings `gs`, one after the other.
pub open spec fn cat(gs: Seq<Seq<u8>>) -> Seq<u8>
    decreases gs.len(),
{
    if gs.len() == 0 {
        Seq::empty()
    } else {
        cat(gs.drop_last()) + gs.last()
    }
}

/// Splitting the strings at the first.
pub proof fn lemma_cat_first(gs: Seq<Seq<u8>>)
    requires
        gs.len() > 0,
    ensures
        cat(gs) == gs[0] + cat(gs.drop_first()),
    decreases gs.len(),
{
    if gs.len() == 1 {
        assert(gs.drop_first() =~= Seq::<Seq<u8>>::empty());
        assert(gs.drop_last() =~= Seq::<Seq<u8>>::empty());
        assert(cat(gs) =~= gs[0] + cat(gs.drop_first()));
    } else {
        lemma_cat_first(gs.drop_last());
        assert(gs.drop_last().drop_first() =~= gs.drop_first().drop_last());
        assert(gs.drop_last()[0] == gs[0]);
        assert(gs.drop_first().last() == gs.last());
        assert(cat(gs) =~= gs[0] + cat(gs.drop_first()));
    }
}

/// A block object read from bytes `g` on their own reads the same where `g` stands in `s`.
pub proof fn lemma_object_local(s: Seq<u8>, off: int, g: Seq<u8>, o: BlockObjectModel)
    requires
        0 <= off,
        off + g.len() <= s.len(),
        s.subrange(off, off + g.len()) == g,
        spec_block_object_at(g, 0) == Ok::<(BlockObjectModel, int), DpcError>((o, g.len() as int)),
    ensures
        spec_block_object_at(s, off) == Ok::<(BlockObjectModel, int), DpcError>((o, off + g.len())),
{
    let ws = words_at(g, 0, 6);
    lemma_words_at_bytes(g, 0, 6);
    lemma_words_bytes_len(ws);
    assert forall|k: int| 0 <= k < 4 * ws.len() implies s[off + k] == #[trigger] words_bytes(ws)[k] by {
        assert(s.subrange(off, off + g.len())[k] == g[k]);
        assert(g.subrange(0, 24)[k] == g[k]);
    }
    lemma_words_at_of(s, off, ws);
    assert(ObjectHeader::spec_at(s, off) == ObjectHeader::spec_at(g, 0));
    let h = o.header;
    assert(s.subrange(off + 24, off + 24 + h.class_object_size) =~= g.subrange(24, 24 + h.class_object_size));
    assert(s.subrange(off + 24 + h.class_object_size, off + 24 + h.data_size) =~= g.subrange(
        24 + h.class_object_size,
        24 + h.data_size,
    ));
}

/// Where the strings `gs`, each read alone as the block object of `os` at the same index,
/// stand one after the other from `off` of `s`, reading as many block objects gives `os`.
pub proof fn lemma_cat_objects(s: Seq<u8>, off: int, gs: Seq<Seq<u8>>, os: Seq<BlockObjectModel>)
    requires
        os.len() == gs.len(),
        forall|i: int| 0 <= i < gs.len() ==> spec_block_object_at(#[trigger] gs[i], 0)
            == Ok::<(BlockObjectModel, int), DpcError>((os[i], gs[i].len() as int)),
        0 <= off,
        off + cat(gs).len() <= s.len(),
        s.subrange(off, off + cat(gs).len()) == cat(gs),
    ensures
        spec_block_objects(s, off, gs.len()) == Ok::<Seq<BlockObjectModel>, DpcError>(os),
    decreases gs.len(),
{
    if gs.len() == 0 {
        assert(os =~= Seq::<BlockObjectModel>::empty());
    } else {
        lemma_cat_first(gs);
        let g = gs[0];
        let n = g.len() as int;
        assert(s.subrange(off, off + n) =~= g) by {
            assert forall|k: int| 0 <= k < n implies s.subrange(off, off + n)[k] == g[k] by {
                assert(s.subrange(off, off + cat(gs).len())[k] == cat(gs)[k]);
            }
        }
        assert(spec_block_object_at(gs[0], 0) == Ok::<(BlockObjectModel, int), DpcError>((os[0], gs[0].len() as int)));
        lemma_object_local(s, off, g, os[0]);
        let rest = gs.drop_first();
        let orest = os.drop_first();
        assert forall|i: int| 0 <= i < rest.len() implies spec_block_object_at(#[trigger] rest[i], 0)
            == Ok::<(BlockObjectModel, int), DpcError>((orest[i], rest[i].len() as int)) by {
            assert(rest[i] == gs[i + 1] && orest[i] == os[i + 1]);
        }
        assert(s.subrange(off + n, off + n + cat(rest).len()) =~= cat(rest)) by {
            assert forall|k: int| 0 <= k < cat(rest).len() implies s.subrange(off + n, off + n + cat(rest).len())[k]
                == cat(rest)[k] by {
                assert(s.subrange(off, off + cat(gs).len())[n + k] == cat(gs)[n + k]);
            }
        }
        lemma_cat_objects(s, off + n, rest, orest);
        assert(os =~= seq![os[0]] + orest);
    }
}

/// An object file as taking apart with LZ decompression writes it: packed, not compressed, and
/// reading as an object.
pub open spec fn lz_file_ok(f: Seq<u8>) -> bool {
    &&& packed(f) == f
    &&& file_header(f).compressed_size == 0
    &&& object_file_ok(f)
}

/// What a file may be compressed on the way in with: its data size is its class object and
/// its decompressed data, of which there is some.
pub open spec fn compressible(f: Seq<u8>) -> bool {
    &&& file_header(f).data_size == file_header(f).class_object_size + file_header(f).decompressed_size
    &&& file_header(f).decompressed_size > 0
}

/// The block object that the piece of `f` reads as.
pub open spec fn piece_model(f: Seq<u8>, comp: bool) -> BlockObjectModel {
    if comp {
        spec_block_object_at(piece(f, true), 0)->Ok_0.0
    } else {
        object_model(f)
    }
}

/// The compressed piece of `f` reads back with `f`'s header under the new sizes: the same
/// crc32, and a compressed size.
#[verifier::spinoff_prover]
#[verifier::rlimit(40)]
pub proof fn lemma_compressed_piece_header(f: Seq<u8>)
    requires
        spec_pack_block_object(f, true) is Ok,
    ensures
        spec_block_object_at(piece(f, true), 0) is Ok ==> piece_model(f, true).header.crc32 == file_header(f).crc32
            && piece_model(f, true).header.class_crc32 == file_header(f).class_crc32
            && piece_model(f, true).header.compressed_size != 0,
{
    let h = file_header(f);
    let p0 = after_header(f);
    let class = read_at(f, p0, h.class_object_size as nat);
    let p1 = after_read(f, p0, h.class_object_size as int);
    let data = read_at(f, p1, h.decompressed_size as nat);
    let (csize, stream) = spec_compressed_data(data)->Ok_0;
    let h2 = with_sizes(h, (h.class_object_size + csize) as u32, csize);
    let g = piece(f, true);
    assert(g == h2.spec_bytes() + class + le32_bytes(h.decompressed_size) + le32_bytes(csize) + stream);
    lemma_object_header_roundtrip(h2);
    assert(g.subrange(0, 24) =~= h2.spec_bytes());
    assert(words_at(g, 0, 6) =~= words_at(h2.spec_bytes(), 0, 6));
    assert(ObjectHeader::spec_at(g, 0) == h2);
}

/// The piece of a file as taking apart with LZ decompression writes it reads as one block
/// object, which is marked compressed exactly when the piece is, and taking it apart with LZ
/// decompression gives the file back.
pub proof fn lemma_piece(f: Seq<u8>, comp: bool)
    requires
        lz_file_ok(f),
        comp ==> compressible(f) && spec_pack_block_object(f, true) is Ok,
    ensures
        spec_block_object_at(piece(f, comp), 0) == Ok::<(BlockObjectModel, int), DpcError>(
            (piece_model(f, comp), piece(f, comp).len() as int),
        ),
        spec_extract_object(piece_model(f, comp), true) == Ok::<(ObjectHeader, Seq<u8>), DpcError>(
            (file_header(f), f),
        ),
        piece_model(f, comp).header.crc32 == file_header(f).crc32,
        piece_model(f, comp).header.class_crc32 == file_header(f).class_crc32,
        (piece_model(f, comp).header.compressed_size != 0) == comp,
{
    lemma_packed_len(f);
    if comp {
        assert(plain_object_file(f));
        lemma_block_object_compress_roundtrip(f);
        lemma_compressed_piece_header(f);
    } else {
        assert(packed(f).subrange(0, packed(f).len() as int) =~= packed(f));
        lemma_packed_object_at(packed(f), 0, f);
    }
}

/// Writing the objects of a block without a pool appends their pieces one after the other,
/// each file found by its name and compressed when the backend compresses it.
pub proof fn lemma_create_objects_gen(dpc: FuelDPC, s: CreateState, ds: Seq<ObjectDescription>, fs: Seq<(u32, Seq<u8>)>)
    requires
        spec_create_objects(dpc, s, ds, fs, None) is Ok,
    ensures
        ({
            let r = spec_create_objects(dpc, s, ds, fs, None)->Ok_0;
            &&& r.out == s.out + cat(pieces(dpc, ds, fs))
            &&& r.descs == s.descs
            &&& r.block_type == s.block_type
            &&& r.bpad == s.bpad
        }),
        forall|j: int| 0 <= j < ds.len() ==> first_input(fs, #[trigger] ds[j].crc32, 0) is Some,
        forall|j: int| 0 <= j < ds.len() && comp_for(dpc, #[trigger] ds[j], fs) ==> spec_pack_block_object(
            input_of(fs, ds[j].crc32),
            true,
        ) is Ok,
    decreases ds.len(),
{
    if ds.len() == 0 {
        assert(pieces(dpc, ds, fs) =~= Seq::<Seq<u8>>::empty());
        assert(s.out + cat(pieces(dpc, ds, fs)) =~= s.out);
    } else {
        let prev = ds.drop_last();
        lemma_create_objects_gen(dpc, s, prev, fs);
        let d = ds.last();
        let f = input_of(fs, d.crc32);
        lemma_packed_len(f);
        assert(pieces(dpc, ds, fs).drop_last() =~= pieces(dpc, prev, fs));
        assert(pieces(dpc, ds, fs).last() == piece(f, comp_for(dpc, d, fs)));
        assert(s.out + cat(pieces(dpc, ds, fs)) =~= s.out + cat(pieces(dpc, prev, fs)) + piece(f, comp_for(dpc, d, fs)));
        assert forall|j: int| 0 <= j < ds.len() implies first_input(fs, #[trigger] ds[j].crc32, 0) is Some by {
            if j < ds.len() - 1 {
                assert(prev[j] == ds[j]);
            }
        }
        assert forall|j: int| 0 <= j < ds.len() && comp_for(dpc, #[trigger] ds[j], fs) implies spec_pack_block_object(
            input_of(fs, ds[j].crc32),
            true,
        ) is Ok by {
            if j < ds.len() - 1 {
                assert(prev[j] == ds[j]);
            }
        }
    }
}

/// A block written without a pool, on whole sectors: its files
/// packed one after the other, zeros up to the next sector, and its description.
pub proof fn lemma_create_block_gen(dpc: FuelDPC, s: CreateState, blk: BlockModel, fs: Seq<(u32, Seq<u8>)>)
    requires
        s.out.len() % 2048 == 0,
        spec_create_block(dpc, s, blk, fs, None) is Ok,
    ensures
        ({
            let r = spec_create_block(dpc, s, blk, fs, None)->Ok_0;
            let body = cat(pieces(dpc, blk.objects, fs));
            let len = body.len() as int;
            let pad = spec_padded(len) - len;
            &&& blk.objects.len() > 0
            &&& blk.objects.len() <= u32::MAX
            &&& len <= 0xFFFF_F800
            &&& r.out == s.out + body + Seq::new(pad as nat, |j: int| 0u8)
            &&& r.out.len() % 2048 == 0
            &&& 0 <= pad < 2048
            &&& r.descs == s.descs.push(
                BlockDescription {
                    block_type: s.block_type,
                    object_count: blk.objects.len() as u32,
                    padded_size: spec_padded(len) as u32,
                    data_size: len as u32,
                    working_buffer_offset: blk.offset,
                    crc32: blk.objects[0].crc32,
                },
            )
            &&& r.bpad == s.bpad + pad
        }),
        forall|j: int| 0 <= j < blk.objects.len() ==> first_input(fs, #[trigger] blk.objects[j].crc32, 0) is Some,
{
    lemma_create_objects_gen(dpc, s, blk.objects, fs);
    let s2 = spec_create_objects(dpc, s, blk.objects, fs, None)->Ok_0;
    let body = cat(pieces(dpc, blk.objects, fs));
    let len = body.len() as int;
    lemma_padded_shift(s.out.len() as int, len);
    assert(s2.out + Seq::new((spec_padded(s2.out.len() as int) - s2.out.len()) as nat, |j: int| 0u8)
        =~= s.out + body + Seq::new((spec_padded(len) - len) as nat, |j: int| 0u8));
}

/// Blocks written without a pool, from whole sectors, end on
/// whole sectors, add a description each and less than a sector of padding each.
pub proof fn lemma_create_blocks_aligned_gen(dpc: FuelDPC, s0: CreateState, blocks: Seq<BlockModel>, fs: Seq<(u32, Seq<u8>)>)
    requires
        s0.out.len() % 2048 == 0,
        spec_create_blocks(dpc, s0, blocks, fs, None) is Ok,
    ensures
        ({
            let r = spec_create_blocks(dpc, s0, blocks, fs, None)->Ok_0;
            &&& r.out.len() % 2048 == 0
            &&& r.out.len() >= s0.out.len()
            &&& r.descs.len() == s0.descs.len() + blocks.len()
            &&& r.bpad <= s0.bpad + 2047 * blocks.len()
        }),
    decreases blocks.len(),
{
    if blocks.len() > 0 {
        lemma_create_blocks_aligned_gen(dpc, s0, blocks.drop_last(), fs);
        let s1 = spec_create_blocks(dpc, s0, blocks.drop_last(), fs, None)->Ok_0;
        lemma_create_block_gen(dpc, s1, blocks.last(), fs);
    }
}

/// Each prefix of the blocks is written without error, and what it writes starts what all
/// of them write.
pub proof fn lemma_create_blocks_prefix_gen(dpc: FuelDPC, s0: CreateState, blocks: Seq<BlockModel>, fs: Seq<(u32, Seq<u8>)>, k: int)
    requires
        s0.out.len() % 2048 == 0,
        spec_create_blocks(dpc, s0, blocks, fs, None) is Ok,
        0 <= k <= blocks.len(),
    ensures
        spec_create_blocks(dpc, s0, blocks.take(k), fs, None) is Ok,
        ({
            let sk = spec_create_blocks(dpc, s0, blocks.take(k), fs, None)->Ok_0;
            let sn = spec_create_blocks(dpc, s0, blocks, fs, None)->Ok_0;
            &&& sk.out.len() <= sn.out.len()
            &&& sk.out == sn.out.take(sk.out.len() as int)
        }),
    decreases blocks.len(),
{
    if k == blocks.len() {
        assert(blocks.take(k) =~= blocks);
    } else {
        let bl = blocks.drop_last();
        assert(bl.take(k) =~= blocks.take(k));
        lemma_create_blocks_prefix_gen(dpc, s0, bl, fs, k);
        lemma_create_blocks_aligned_gen(dpc, s0, bl, fs);
        let s1 = spec_create_blocks(dpc, s0, bl, fs, None)->Ok_0;
        lemma_create_block_gen(dpc, s1, blocks.last(), fs);
        let sk = spec_create_blocks(dpc, s0, blocks.take(k), fs, None)->Ok_0;
        let sn = spec_create_blocks(dpc, s0, blocks, fs, None)->Ok_0;
        assert(sn.out.take(s1.out.len() as int) =~= s1.out);
        assert(sn.out.take(sk.out.len() as int) =~= s1.out.take(sk.out.len() as int));
    }
}

/// The block objects that the pieces of the objects `ds` read as.
pub open spec fn models_of(dpc: FuelDPC, ds: Seq<ObjectDescription>, fs: Seq<(u32, Seq<u8>)>) -> Seq<BlockObjectModel> {
    ds.map_values(|d: ObjectDescription| piece_model(input_of(fs, d.crc32), comp_for(dpc, d, fs)))
}

/// The object `d` names a file among `fs` that taking apart with LZ decompression could
/// have written, and one that may be compressed when the backend compresses it.
#[verifier::opaque]
pub open spec fn object_ready(dpc: FuelDPC, d: ObjectDescription, fs: Seq<(u32, Seq<u8>)>) -> bool {
    &&& first_input(fs, d.crc32, 0) is Some
    &&& lz_file_ok(input_of(fs, d.crc32))
    &&& (comp_for(dpc, d, fs) ==> compressible(input_of(fs, d.crc32)) && spec_pack_block_object(
        input_of(fs, d.crc32),
        true,
    ) is Ok)
}

/// What taking apart with LZ decompression has gathered agrees with the files: each file
/// written is the file of its name, and each object recorded is marked as `cm` says and has
/// a file written.
pub open spec fn gathered_lz(es: ExtractState, fs: Seq<(u32, Seq<u8>)>, cm: spec_fn(u32) -> bool) -> bool {
    &&& forall|i: int| 0 <= i < es.files.len() ==> {
        &&& first_input(fs, #[trigger] es.files[i].0, 0) is Some
        &&& es.files[i].2 == input_of(fs, es.files[i].0)
        &&& es.files[i].1 == file_header(input_of(fs, es.files[i].0)).class_crc32
    }
    &&& forall|c: u32| #[trigger] es.headers.contains_key(c) ==> {
        &&& first_input(fs, c, 0) is Some
        &&& es.table.contains_key(c)
        &&& es.table[c] == cm(c)
        &&& exists|i: int| 0 <= i < es.files.len() && es.files[i].0 == c
    }
}

/// Taking in, with LZ decompression, the object that the piece of the file `f` named `c`
/// reads as keeps what is gathered in agreement with the files, and records `c`.
#[verifier::spinoff_prover]
#[verifier::rlimit(40)]
pub proof fn lemma_object_step_lz(es1: ExtractState, f: Seq<u8>, comp: bool, fs: Seq<(u32, Seq<u8>)>, cm: spec_fn(u32) -> bool)
    requires
        gathered_lz(es1, fs, cm),
        lz_file_ok(f),
        comp ==> compressible(f) && spec_pack_block_object(f, true) is Ok,
        first_input(fs, file_header(f).crc32, 0) is Some,
        input_of(fs, file_header(f).crc32) == f,
        cm(file_header(f).crc32) == comp,
    ensures
        spec_object_step(es1, piece_model(f, comp), true) is Ok,
        ({
            let es2 = spec_object_step(es1, piece_model(f, comp), true)->Ok_0;
            &&& gathered_lz(es2, fs, cm)
            &&& forall|c2: u32| es1.headers.contains_key(c2) ==> #[trigger] es2.headers.contains_key(c2)
            &&& es2.headers.contains_key(file_header(f).crc32)
        }),
{
    lemma_piece(f, comp);
    let c = file_header(f).crc32;
    let es2 = spec_object_step(es1, piece_model(f, comp), true)->Ok_0;
    if !es1.headers.contains_key(c) {
        let n = es1.files.len() as int;
        assert(es2.files == es1.files.push((c, file_header(f).class_crc32, f)));
        assert(es2.files[n].0 == c);
        assert forall|i2: int| 0 <= i2 < es2.files.len() implies {
            &&& first_input(fs, #[trigger] es2.files[i2].0, 0) is Some
            &&& es2.files[i2].2 == input_of(fs, es2.files[i2].0)
            &&& es2.files[i2].1 == file_header(input_of(fs, es2.files[i2].0)).class_crc32
        } by {
            if i2 < n {
                assert(es2.files[i2] == es1.files[i2]);
            }
        }
        assert forall|c2: u32| #[trigger] es2.headers.contains_key(c2) implies {
            &&& first_input(fs, c2, 0) is Some
            &&& es2.table.contains_key(c2)
            &&& es2.table[c2] == cm(c2)
            &&& exists|i3: int| 0 <= i3 < es2.files.len() && es2.files[i3].0 == c2
        } by {
            if c2 != c {
                assert(es1.headers.contains_key(c2));
                let w = choose|i3: int| 0 <= i3 < es1.files.len() && es1.files[i3].0 == c2;
                assert(es2.files[w] == es1.files[w]);
            }
        }
    }
}

/// Taking in, with LZ decompression, the objects that the pieces of `ds` read as keeps what
/// is gathered in agreement with the files, and records each of them.
#[verifier::spinoff_prover]
#[verifier::rlimit(80)]
pub proof fn lemma_object_steps_lz(dpc: FuelDPC, es: ExtractState, ds: Seq<ObjectDescription>, fs: Seq<(u32, Seq<u8>)>, cm: spec_fn(u32) -> bool)
    requires
        files_ok(fs),
        gathered_lz(es, fs, cm),
        forall|j: int| 0 <= j < ds.len() ==> object_ready(dpc, #[trigger] ds[j], fs),
        forall|j: int| 0 <= j < ds.len() ==> cm(#[trigger] ds[j].crc32) == comp_for(dpc, ds[j], fs),
    ensures
        spec_object_steps(es, models_of(dpc, ds, fs), true) is Ok,
        ({
            let es2 = spec_object_steps(es, models_of(dpc, ds, fs), true)->Ok_0;
            &&& gathered_lz(es2, fs, cm)
            &&& forall|c: u32| es.headers.contains_key(c) ==> #[trigger] es2.headers.contains_key(c)
            &&& forall|j: int| 0 <= j < ds.len() ==> es2.headers.contains_key(#[trigger] ds[j].crc32)
        }),
    decreases ds.len(),
{
    let models = models_of(dpc, ds, fs);
    if ds.len() == 0 {
        assert(models =~= Seq::<BlockObjectModel>::empty());
    } else {
        let prev = ds.drop_last();
        assert forall|j: int| 0 <= j < prev.len() implies object_ready(dpc, #[trigger] prev[j], fs) by {
            assert(prev[j] == ds[j]);
        }
        assert forall|j: int| 0 <= j < prev.len() implies cm(#[trigger] prev[j].crc32) == comp_for(dpc, prev[j], fs) by {
            assert(prev[j] == ds[j]);
        }
        lemma_object_steps_lz(dpc, es, prev, fs, cm);
        let pm = models_of(dpc, prev, fs);
        assert(models.drop_last() =~= pm);
        let es1 = spec_object_steps(es, pm, true)->Ok_0;
        let d = ds.last();
        assert(object_ready(dpc, ds[ds.len() - 1], fs));
        assert(cm(ds[ds.len() - 1].crc32) == comp_for(dpc, ds[ds.len() - 1], fs));
        let c = d.crc32;
        assert(first_input(fs, d.crc32, 0) is Some && lz_file_ok(input_of(fs, d.crc32)) && (comp_for(dpc, d, fs)
            ==> compressible(input_of(fs, d.crc32)) && spec_pack_block_object(input_of(fs, d.crc32), true) is Ok)) by {
            reveal(object_ready);
        }
        lemma_first_input(fs, c, 0);
        let i = first_input(fs, c, 0)->Some_0;
        let f = fs[i].1;
        assert(object_file_ok(fs[i].1) && file_header(fs[i].1).crc32 == fs[i].0);
        let comp = comp_for(dpc, d, fs);
        lemma_piece(f, comp);
        assert(models.last() == piece_model(f, comp));
        lemma_object_step_lz(es1, f, comp, fs, cm);
        let es2 = spec_object_steps(es, models, true)->Ok_0;
        assert(es2 == spec_object_step(es1, piece_model(f, comp), true)->Ok_0);
        assert forall|j: int| 0 <= j < ds.len() implies es2.headers.contains_key(#[trigger] ds[j].crc32) by {
            if j < ds.len() - 1 {
                assert(prev[j] == ds[j]);
                assert(es1.headers.contains_key(prev[j].crc32));
            }
        }
    }
}

/// The block that taking apart with LZ decompression reads back for the manifest's block
/// `blk` written with `dpc`: its offset, and each object marked compressed exactly when it
/// was compressed on the way in.
pub open spec fn extracted_block_lz(dpc: FuelDPC, blk: BlockModel, fs: Seq<(u32, Seq<u8>)>) -> BlockModel {
    BlockModel { offset: blk.offset, objects: descriptions(models_of(dpc, blk.objects, fs)) }
}

/// Reading back one more block that `create_dpc` wrote, after those read back so far.
#[verifier::spinoff_prover]
#[verifier::rlimit(50)]
pub proof fn lemma_block_read_step_lz(
    dpc: FuelDPC,
    sp: CreateState,
    blk: BlockModel,
    fs: Seq<(u32, Seq<u8>)>,
    b: Seq<u8>,
    bms_prev: Seq<BlockModel>,
    es_prev: ExtractState,
    cm: spec_fn(u32) -> bool,
) -> (es: ExtractState)
    requires
        files_ok(fs),
        gathered_lz(es_prev, fs, cm),
        sp.out.len() % 2048 == 0,
        sp.out.len() >= 2048,
        spec_create_block(dpc, sp, blk, fs, None) is Ok,
        forall|o: int| 0 <= o < blk.objects.len() ==> object_ready(dpc, #[trigger] blk.objects[o], fs),
        forall|o: int| 0 <= o < blk.objects.len() ==> cm(#[trigger] blk.objects[o].crc32) == comp_for(dpc, blk.objects[o], fs),
        spec_block_steps(b, sp.descs, true, 2048) == Ok::<(Seq<BlockModel>, ExtractState, int), DpcError>(
            (bms_prev, es_prev, sp.out.len() as int),
        ),
        spec_create_block(dpc, sp, blk, fs, None)->Ok_0.out.len() <= b.len(),
        forall|i: int| 2048 <= i < spec_create_block(dpc, sp, blk, fs, None)->Ok_0.out.len() ==> b[i]
            == spec_create_block(dpc, sp, blk, fs, None)->Ok_0.out[i],
    ensures
        spec_block_steps(b, spec_create_block(dpc, sp, blk, fs, None)->Ok_0.descs, true, 2048)
            == Ok::<(Seq<BlockModel>, ExtractState, int), DpcError>((
                bms_prev.push(extracted_block_lz(dpc, blk, fs)),
                es,
                spec_create_block(dpc, sp, blk, fs, None)->Ok_0.out.len() as int,
            )),
        gathered_lz(es, fs, cm),
        forall|c: u32| es_prev.headers.contains_key(c) ==> #[trigger] es.headers.contains_key(c),
        forall|o: int| 0 <= o < blk.objects.len() ==> es.headers.contains_key(#[trigger] blk.objects[o].crc32),
{
    let sk = spec_create_block(dpc, sp, blk, fs, None)->Ok_0;
    lemma_create_block_gen(dpc, sp, blk, fs);
    let body = cat(pieces(dpc, blk.objects, fs));
    let len = body.len() as int;
    let pad = spec_padded(len) - len;
    let zeros = Seq::new(pad as nat, |j: int| 0u8);
    let d = sk.descs.last();
    assert(sk.descs.drop_last() =~= sp.descs);
    let p = sp.out.len() as int;
    assert(read_at(b, p, d.padded_size as nat) =~= body + zeros) by {
        assert forall|j: int| 0 <= j < d.padded_size implies #[trigger] read_at(b, p, d.padded_size as nat)[j]
            == (body + zeros)[j] by {
            assert(sk.out[p + j] == (body + zeros)[j]);
        }
    }
    let gs = pieces(dpc, blk.objects, fs);
    let models = models_of(dpc, blk.objects, fs);
    assert forall|i: int| 0 <= i < gs.len() implies spec_block_object_at(#[trigger] gs[i], 0)
        == Ok::<(BlockObjectModel, int), DpcError>((models[i], gs[i].len() as int)) by {
        assert(object_ready(dpc, blk.objects[i], fs));
        reveal(object_ready);
        lemma_piece(input_of(fs, blk.objects[i].crc32), comp_for(dpc, blk.objects[i], fs));
    }
    assert((body + zeros).subrange(0, body.len() as int) =~= body);
    lemma_cat_objects(body + zeros, 0, gs, models);
    lemma_object_steps_lz(dpc, es_prev, blk.objects, fs, cm);
    let es = spec_object_steps(es_prev, models, true)->Ok_0;
    assert(after_read(b, p, d.padded_size as int) == sk.out.len());
    es
}

/// Reading back the first `k` blocks that `create_dpc` wrote, from the end of the first
/// sector of `b` (which holds, from there on, what the blocks wrote): the blocks as
/// `extracted_block_lz` gives them, what is gathered then, and the position after them.
#[verifier::spinoff_prover]
#[verifier::rlimit(100)]
pub proof fn lemma_blocks_read_back_lz(dpc: FuelDPC, s0: CreateState, blocks: Seq<BlockModel>, fs: Seq<(u32, Seq<u8>)>, b: Seq<u8>, k: int, cm: spec_fn(u32) -> bool) -> (es: ExtractState)
    requires
        files_ok(fs),
        forall|j: int, o: int| 0 <= j < blocks.len() && 0 <= o < blocks[j].objects.len() ==> object_ready(dpc, #[trigger] blocks[j].objects[o], fs),
        forall|j: int, o: int| 0 <= j < blocks.len() && 0 <= o < blocks[j].objects.len() ==> cm(#[trigger] blocks[j].objects[o].crc32) == comp_for(dpc, blocks[j].objects[o], fs),
        s0.out.len() == 2048,
        s0.descs.len() == 0,
        spec_create_blocks(dpc, s0, blocks, fs, None) is Ok,
        b.len() == spec_create_blocks(dpc, s0, blocks, fs, None)->Ok_0.out.len(),
        forall|i: int| 2048 <= i < b.len() ==> b[i] == spec_create_blocks(dpc, s0, blocks, fs, None)->Ok_0.out[i],
        0 <= k <= blocks.len(),
    ensures
        spec_create_blocks(dpc, s0, blocks.take(k), fs, None) is Ok,
        spec_block_steps(b, spec_create_blocks(dpc, s0, blocks.take(k), fs, None)->Ok_0.descs, true, 2048)
            == Ok::<(Seq<BlockModel>, ExtractState, int), DpcError>((
                blocks.take(k).map_values(|x: BlockModel| extracted_block_lz(dpc, x, fs)),
                es,
                spec_create_blocks(dpc, s0, blocks.take(k), fs, None)->Ok_0.out.len() as int,
            )),
        gathered_lz(es, fs, cm),
        forall|j: int, o: int| 0 <= j < k && 0 <= o < blocks[j].objects.len() ==> es.headers.contains_key(
            #[trigger] blocks[j].objects[o].crc32,
        ),
    decreases k,
{
    lemma_create_blocks_prefix_gen(dpc, s0, blocks, fs, k);
    let sk = spec_create_blocks(dpc, s0, blocks.take(k), fs, None)->Ok_0;
    if k == 0 {
        assert(blocks.take(0) =~= Seq::<BlockModel>::empty());
        assert(sk == s0);
        assert(sk.descs =~= Seq::<BlockDescription>::empty());
        assert(blocks.take(k).map_values(|x: BlockModel| extracted_block_lz(dpc, x, fs)) =~= Seq::<BlockModel>::empty());
        empty_state()
    } else {
        lemma_create_blocks_prefix_gen(dpc, s0, blocks, fs, k - 1);
        let es_prev = lemma_blocks_read_back_lz(dpc, s0, blocks, fs, b, k - 1, cm);
        let sp = spec_create_blocks(dpc, s0, blocks.take(k - 1), fs, None)->Ok_0;
        assert(blocks.take(k).drop_last() =~= blocks.take(k - 1));
        assert(blocks.take(k).last() == blocks[k - 1]);
        let blk = blocks[k - 1];
        lemma_create_blocks_aligned_gen(dpc, s0, blocks.take(k - 1), fs);
        let sn = spec_create_blocks(dpc, s0, blocks, fs, None)->Ok_0;
        assert(sk == spec_create_block(dpc, sp, blk, fs, None)->Ok_0);
        assert forall|i: int| 2048 <= i < sk.out.len() implies b[i] == sk.out[i] by {
            assert(sn.out.take(sk.out.len() as int)[i] == sn.out[i]);
        }
        let bms_prev = blocks.take(k - 1).map_values(|x: BlockModel| extracted_block_lz(dpc, x, fs));
        assert forall|o: int| 0 <= o < blk.objects.len() implies object_ready(dpc, #[trigger] blk.objects[o], fs) by {
            assert(blk.objects[o] == blocks[k - 1].objects[o]);
        }
        assert forall|o: int| 0 <= o < blk.objects.len() implies cm(#[trigger] blk.objects[o].crc32) == comp_for(dpc, blk.objects[o], fs) by {
            assert(blk.objects[o] == blocks[k - 1].objects[o]);
        }
        let es = lemma_block_read_step_lz(dpc, sp, blk, fs, b, bms_prev, es_prev, cm);
        assert(blocks.take(k).map_values(|x: BlockModel| extracted_block_lz(dpc, x, fs)) =~= bms_prev.push(
            extracted_block_lz(dpc, blk, fs),
        ));
        assert forall|j: int, o: int| 0 <= j < k && 0 <= o < blocks[j].objects.len() implies es.headers.contains_key(
            #[trigger] blocks[j].objects[o].crc32) by {
            if j < k - 1 {
                assert(es_prev.headers.contains_key(blocks[j].objects[o].crc32));
            } else {
                assert(blk.objects[o] == blocks[j].objects[o]);
            }
        }
        es
    }
}


/// Whether the object with crc32 `c` is marked compressed somewhere in `blocks`.
pub open spec fn marked(blocks: Seq<BlockModel>, c: u32) -> bool {
    exists|j: int, o: int|
        0 <= j < blocks.len() && 0 <= o < blocks[j].objects.len() && #[trigger] blocks[j].objects[o].crc32 == c
            && blocks[j].objects[o].compress
}

/// Every object of `blocks` with the same crc32 has the same compress mark.
pub open spec fn marks_agree(blocks: Seq<BlockModel>) -> bool {
    forall|j1: int, o1: int, j2: int, o2: int|
        0 <= j1 < blocks.len() && 0 <= o1 < blocks[j1].objects.len() && 0 <= j2 < blocks.len() && 0 <= o2
            < blocks[j2].objects.len() && #[trigger] blocks[j1].objects[o1].crc32 == #[trigger] blocks[j2].objects[o2].crc32
            ==> blocks[j1].objects[o1].compress == blocks[j2].objects[o2].compress
}

/// Each object of `m` names a file among `fs` as taking apart with LZ decompression writes
/// them, and one that may be compressed wherever the backend compresses it (its data size is
/// its class object and its decompressed data, of which there is some).
pub open spec fn lz_files_ready(dpc: FuelDPC, m: ManifestModel, fs: Seq<(u32, Seq<u8>)>) -> bool {
    forall|j: int, o: int| 0 <= j < m.blocks.len() && 0 <= o < m.blocks[j].objects.len() ==> {
        &&& lz_file_ok(input_of(fs, #[trigger] m.blocks[j].objects[o].crc32))
        &&& (m.blocks[j].objects[o].compress && dpc.options.is_lz && dpc.options.is_optimization ==> compressible(
            input_of(fs, m.blocks[j].objects[o].crc32),
        ))
    }
}

/// The blocks that taking apart with LZ decompression reads back for `blocks`.
pub open spec fn extracted_blocks_lz(dpc: FuelDPC, blocks: Seq<BlockModel>, fs: Seq<(u32, Seq<u8>)>) -> Seq<BlockModel> {
    blocks.map_values(|x: BlockModel| extracted_block_lz(dpc, x, fs))
}

/// Each object of a manifest that `create_dpc` wrote names a file ready for the LZ round
/// trip, and `cm` gives its compress mark as written.
#[verifier::spinoff_prover]
#[verifier::rlimit(60)]
pub proof fn lemma_objects_ready(dpc: FuelDPC, m: ManifestModel, fs: Seq<(u32, Seq<u8>)>, s0: CreateState, cm: spec_fn(u32) -> bool)
    requires
        spec_create_blocks(dpc, s0, m.blocks, fs, None) is Ok,
        s0.out.len() % 2048 == 0,
        marks_agree(m.blocks),
        lz_files_ready(dpc, m, fs),
        forall|c: u32| #[trigger] cm(c) == (marked(m.blocks, c) && dpc.options.is_lz && dpc.options.is_optimization),
    ensures
        forall|j: int, o: int| 0 <= j < m.blocks.len() && 0 <= o < m.blocks[j].objects.len() ==>
            object_ready(dpc, #[trigger] m.blocks[j].objects[o], fs) && cm(m.blocks[j].objects[o].crc32) == comp_for(
                dpc,
                m.blocks[j].objects[o],
                fs,
            ),
{
    let lzo = dpc.options.is_lz && dpc.options.is_optimization;
    assert forall|j: int, o: int| 0 <= j < m.blocks.len() && 0 <= o < m.blocks[j].objects.len() implies
        object_ready(dpc, #[trigger] m.blocks[j].objects[o], fs) && cm(m.blocks[j].objects[o].crc32) == comp_for(
            dpc,
            m.blocks[j].objects[o],
            fs,
        ) by {
        let d = m.blocks[j].objects[o];
        lemma_create_blocks_prefix_gen(dpc, s0, m.blocks, fs, j + 1);
        lemma_create_blocks_prefix_gen(dpc, s0, m.blocks, fs, j);
        assert(m.blocks.take(j + 1).drop_last() =~= m.blocks.take(j));
        assert(m.blocks.take(j + 1).last() == m.blocks[j]);
        let sj = spec_create_blocks(dpc, s0, m.blocks.take(j), fs, None)->Ok_0;
        assert(spec_create_block(dpc, sj, m.blocks[j], fs, None) is Ok);
        lemma_create_objects_gen(dpc, sj, m.blocks[j].objects, fs);
        assert(first_input(fs, m.blocks[j].objects[o].crc32, 0) is Some);
        assert(comp_for(dpc, m.blocks[j].objects[o], fs) ==> spec_pack_block_object(input_of(fs, d.crc32), true) is Ok);
        assert(lz_file_ok(input_of(fs, m.blocks[j].objects[o].crc32)));
        reveal(object_ready);
        if d.compress {
            assert(marked(m.blocks, d.crc32));
        } else {
            if marked(m.blocks, d.crc32) {
                let (j2, o2) = choose|j2: int, o2: int|
                    0 <= j2 < m.blocks.len() && 0 <= o2 < m.blocks[j2].objects.len() && #[trigger] m.blocks[j2].objects[o2].crc32 == d.crc32
                        && m.blocks[j2].objects[o2].compress;
                assert(m.blocks[j].objects[o].crc32 == m.blocks[j2].objects[o2].crc32);
            }
        }
        assert(cm(d.crc32) == (marked(m.blocks, d.crc32) && lzo));
    }
}

/// The objects that taking apart with LZ decompression reads back for the blocks of `m`:
/// the same crc32s, marked compressed exactly when they were compressed on the way in.
#[verifier::spinoff_prover]
#[verifier::rlimit(60)]
pub proof fn lemma_extracted_objects_lz(dpc: FuelDPC, m: ManifestModel, fs: Seq<(u32, Seq<u8>)>, cm: spec_fn(u32) -> bool)
    requires
        files_ok(fs),
        forall|j: int, o: int| 0 <= j < m.blocks.len() && 0 <= o < m.blocks[j].objects.len() ==>
            object_ready(dpc, #[trigger] m.blocks[j].objects[o], fs),
    ensures
        forall|j: int, o: int| 0 <= j < m.blocks.len() && 0 <= o < m.blocks[j].objects.len() ==>
            (#[trigger] extracted_blocks_lz(dpc, m.blocks, fs)[j].objects[o]).crc32
                == m.blocks[j].objects[o].crc32
            && extracted_blocks_lz(dpc, m.blocks, fs)[j].objects[o].compress
                == (m.blocks[j].objects[o].compress && dpc.options.is_lz && dpc.options.is_optimization),
{
    let bms = extracted_blocks_lz(dpc, m.blocks, fs);
    assert forall|j: int, o: int| 0 <= j < m.blocks.len() && 0 <= o < m.blocks[j].objects.len() implies
        (#[trigger] bms[j].objects[o]).crc32 == m.blocks[j].objects[o].crc32 && bms[j].objects[o].compress
            == (m.blocks[j].objects[o].compress && dpc.options.is_lz && dpc.options.is_optimization) by {
        let d = m.blocks[j].objects[o];
        assert(object_ready(dpc, m.blocks[j].objects[o], fs));
        reveal(object_ready);
        lemma_first_input(fs, d.crc32, 0);
        let f = input_of(fs, d.crc32);
        lemma_piece(f, comp_for(dpc, d, fs));
        assert(bms[j].objects[o] == descriptions(models_of(dpc, m.blocks[j].objects, fs))[o]);
    }
}

/// The state that `create_dpc` starts writing the blocks of `m` from.
pub open spec fn start_state(dpc: FuelDPC, m: ManifestModel) -> CreateState {
    let v = spec_version_info(adjusted(dpc, m).header.version_string);
    let (patch, minor, block_type) = match v {
        Some(t) => t,
        None => (0u32, 0u32, 0u32),
    };
    CreateState {
        out: Seq::new(2048, |j: int| 0u8),
        descs: Seq::empty(),
        block_type: block_type,
        bpad: 0,
        compress: Map::empty(),
        chunks: Map::empty(),
        packed: Seq::empty(),
    }
}

/// A DPC that `create_dpc` put together without a pool: its first sector reads as a primary
/// header with the manifest's header, the blocks' descriptions and no pool, and from there on
/// it holds what writing the blocks wrote.
#[verifier::spinoff_prover]
#[verifier::rlimit(60)]
pub proof fn lemma_created_layout(dpc: FuelDPC, m: ManifestModel, fs: Seq<(u32, Seq<u8>)>, b: Seq<u8>)
    requires
        create_accepted(dpc, m),
        adjusted(dpc, m).pool is None,
        header_strings_ok(m.header),
        spec_create_dpc(dpc, m, fs) == Ok::<Seq<u8>, DpcError>(b),
    ensures
        spec_create_blocks(dpc, start_state(dpc, m), m.blocks, fs, None) is Ok,
        version_accepted(b, dpc.options.is_unsafe),
        spec_parse_primary_header(read_at(b, 0, 2048)) is Ok,
        after_read(b, 0, 2048) == 2048,
        ({
            let h = spec_parse_primary_header(read_at(b, 0, 2048))->Ok_0.0;
            let s = spec_create_blocks(dpc, start_state(dpc, m), m.blocks, fs, None)->Ok_0;
            &&& h.block_descriptions == s.descs
            &&& h.pool_manifest_offset == 0
            &&& manifest_header_model(h) == adjusted(dpc, m).header
            &&& b.len() == s.out.len()
            &&& s.out.len() % 2048 == 0
            &&& forall|i: int| 2048 <= i < b.len() ==> b[i] == s.out[i]
        }),
{
    let ma = adjusted(dpc, m);
    let mh = ma.header;
    let v = spec_version_info(mh.version_string);
    let (patch, minor, block_type) = match v {
        Some(t) => t,
        None => (0u32, 0u32, 0u32),
    };
    let s0 = start_state(dpc, m);
    assert(ma.blocks == m.blocks);
    assert(spec_create_blocks(dpc, s0, m.blocks, fs, None) is Ok);
    let s = spec_create_blocks(dpc, s0, m.blocks, fs, None)->Ok_0;
    lemma_create_blocks_aligned_gen(dpc, s0, m.blocks, fs);
    let hm = spec_new_header(mh, s.descs, (s.out.len() - 2048) as u32, (patch, minor), 0, 0, 0, s.bpad, 0, s.out.len() as u32);
    let hb = spec_primary_header_bytes(hm);
    assert(b == hb + s.out.skip(2048));
    lemma_primary_header_len(hm);
    assert(s.bpad <= 2047 * 64);
    assert(writable_header(hm));
    lemma_primary_header_roundtrip(hm, Seq::empty());
    assert(read_at(b, 0, 2048) =~= hb + Seq::<u8>::empty());
    assert(after_read(b, 0, 2048) == 2048);
    assert forall|i: int| 2048 <= i < b.len() implies b[i] == s.out[i] by {
        assert(b[i] == s.out.skip(2048)[i - 2048]);
    }
}

/// Round trip of the archive with LZ decompression: taking apart with LZ decompression a DPC
/// that `create_dpc` put together without a pool, from object files as such a taking apart
/// writes them, gives back the manifest (its header as written, the same blocks with the
/// same objects in the same order, each marked compressed exactly when it was compressed on
/// the way in: when marked so and the backend compresses) and object files that are the
/// files handed in, one for every object the blocks name.
#[verifier::spinoff_prover]
#[verifier::rlimit(100)]
pub proof fn lemma_create_then_extract_lz(dpc: FuelDPC, m: ManifestModel, fs: Seq<(u32, Seq<u8>)>, b: Seq<u8>)
    requires
        create_accepted(dpc, m),
        adjusted(dpc, m).pool is None,
        files_ok(fs),
        header_strings_ok(m.header),
        marks_agree(m.blocks),
        lz_files_ready(dpc, m, fs),
        spec_create_dpc(dpc, m, fs) == Ok::<Seq<u8>, DpcError>(b),
    ensures
        version_accepted(b, dpc.options.is_unsafe),
        spec_extract_dpc(b, true) is Ok,
        ({
            let (m2, xs) = spec_extract_dpc(b, true)->Ok_0;
            &&& m2.header == adjusted(dpc, m).header
            &&& m2.pool is None
            &&& m2.blocks.len() == m.blocks.len()
            &&& forall|j: int| 0 <= j < m.blocks.len() ==> {
                &&& (#[trigger] m2.blocks[j]).offset == m.blocks[j].offset
                &&& m2.blocks[j].objects.len() == m.blocks[j].objects.len()
                &&& forall|o: int| 0 <= o < m.blocks[j].objects.len() ==> #[trigger] m2.blocks[j].objects[o]
                    == (ObjectDescription {
                        crc32: m.blocks[j].objects[o].crc32,
                        compress: m.blocks[j].objects[o].compress && dpc.options.is_lz && dpc.options.is_optimization,
                    })
            }
            &&& forall|i: int| 0 <= i < xs.len() ==> {
                &&& first_input(fs, #[trigger] xs[i].0, 0) is Some
                &&& xs[i].2 == input_of(fs, xs[i].0)
                &&& xs[i].1 == file_header(input_of(fs, xs[i].0)).class_crc32
            }
            &&& forall|j: int, o: int| 0 <= j < m.blocks.len() && 0 <= o < m.blocks[j].objects.len() ==> exists|i: int|
                0 <= i < xs.len() && xs[i].0 == #[trigger] m.blocks[j].objects[o].crc32
        }),
{
    let s0 = start_state(dpc, m);
    let lzo = dpc.options.is_lz && dpc.options.is_optimization;
    let cm = |c: u32| marked(m.blocks, c) && lzo;
    lemma_created_layout(dpc, m, fs, b);
    lemma_objects_ready(dpc, m, fs, s0, cm);
    let es = lemma_blocks_read_back_lz(dpc, s0, m.blocks, fs, b, m.blocks.len() as int, cm);
    assert(m.blocks.take(m.blocks.len() as int) =~= m.blocks);
    let bms = extracted_blocks_lz(dpc, m.blocks, fs);
    lemma_extracted_objects_lz(dpc, m, fs, cm);
    assert(all_marked(bms, es.table)) by {
        assert forall|j: int, o: int| 0 <= j < bms.len() && 0 <= o < bms[j].objects.len() implies es.table.contains_key(
            #[trigger] bms[j].objects[o].crc32) by {
            assert(bms[j].objects[o].crc32 == m.blocks[j].objects[o].crc32);
            assert(es.headers.contains_key(m.blocks[j].objects[o].crc32));
        }
    }
    let (m2, xs) = spec_extract_dpc(b, true)->Ok_0;
    assert(m2.blocks == marked_blocks(bms, es.table));
    assert(xs == es.files);
    assert forall|j: int, o: int| 0 <= j < m.blocks.len() && 0 <= o < m.blocks[j].objects.len() implies exists|i: int|
        0 <= i < xs.len() && xs[i].0 == #[trigger] m.blocks[j].objects[o].crc32 by {
        assert(es.headers.contains_key(m.blocks[j].objects[o].crc32));
    }
    assert forall|j: int| 0 <= j < m.blocks.len() implies {
        &&& (#[trigger] m2.blocks[j]).offset == m.blocks[j].offset
        &&& m2.blocks[j].objects.len() == m.blocks[j].objects.len()
        &&& forall|o: int| 0 <= o < m.blocks[j].objects.len() ==> #[trigger] m2.blocks[j].objects[o]
            == (ObjectDescription {
                crc32: m.blocks[j].objects[o].crc32,
                compress: m.blocks[j].objects[o].compress && dpc.options.is_lz && dpc.options.is_optimization,
            })
    } by {
        assert forall|o: int| 0 <= o < m.blocks[j].objects.len() implies #[trigger] m2.blocks[j].objects[o]
            == (ObjectDescription {
                crc32: m.blocks[j].objects[o].crc32,
                compress: m.blocks[j].objects[o].compress && dpc.options.is_lz && dpc.options.is_optimization,
            }) by {
            let c = m.blocks[j].objects[o].crc32;
            assert(bms[j].objects[o].crc32 == c);
            assert(es.headers.contains_key(c));
            assert(cm(c) == comp_for(dpc, m.blocks[j].objects[o], fs));
        }
    }
}

} // verus!
