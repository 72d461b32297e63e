use dpc::archive::extract_dpc;
use dpc::assemble::{create_dpc, InputFile};
use dpc::base_dpc::Options;
use dpc::create::{
    describe_block, new_primary_header, pack_block_object, pack_pool_compressed, pack_pool_object,
    pack_pool_reference, pool_object_chunks, working_buffer_capacities, FuelDPC,
};
use dpc::extract::{extract_object, merge_pool_object, parse_block_objects, parse_pool_objects};
use dpc::fuel_dpc::{
    calculate_padded_size, calculate_padding_size, compress_object_bytes, decompress_object_bytes,
    object_payload, split_object_bytes, DpcError, ObjectHeader,
};
use dpc::header::PrimaryHeader;
use dpc::layout::{BlockDescription, PoolManifest, PoolManifestHeader, ReferenceRecord};
use dpc::lz::LzError;
use dpc::manifest::{
    manifest_header_from, note_pool_compress, optimize_pool, pool_from_manifest, record_first,
    record_pool_compress, resolve_compress_flags, Block, JsonReferenceRecord, Manifest,
    ManifestHeader, ObjectDescription, Pool, PoolObjectEntry,
};
use dpc::pool::build_pool_section;
use dpc::tables::{class_name, get_formats, parse_crc32, version_info, ObjectFormatKind};
use dpc::validate::validate_dpc;
use std::collections::HashMap;

const VERSION: &str = "v1.381.67.09 - Asobo Studio - Internal Cross Technology";

fn header(data_size: u32, class: u32, dsize: u32, csize: u32, class_crc32: u32, crc32: u32) -> ObjectHeader {
    ObjectHeader {
        data_size,
        class_object_size: class,
        decompressed_size: dsize,
        compressed_size: csize,
        class_crc32,
        crc32,
    }
}

fn header_bytes(h: &ObjectHeader) -> Vec<u8> {
    let mut v = Vec::new();
    h.write(&mut v);
    v
}

fn object_file(class: &[u8], data: &[u8], crc32: u32) -> Vec<u8> {
    let h = header(
        (class.len() + data.len()) as u32,
        class.len() as u32,
        data.len() as u32,
        0,
        2259852416,
        crc32,
    );
    let mut f = header_bytes(&h);
    f.extend_from_slice(class);
    f.extend_from_slice(data);
    f
}

fn text(n: usize) -> Vec<u8> {
    (0..n).map(|i| b"abcabcabd"[i % 9] ^ ((i / 50) as u8)).collect()
}

fn options(is_lz: bool, is_optimization: bool, is_unsafe: bool) -> Options {
    Options {
        is_quiet: true,
        is_force: true,
        is_unsafe,
        is_lz,
        is_optimization,
        is_recursive: false,
    }
}

#[test]
fn padded_sizes() {
    assert_eq!(calculate_padded_size(0), 0);
    assert_eq!(calculate_padded_size(1), 2048);
    assert_eq!(calculate_padded_size(2048), 2048);
    assert_eq!(calculate_padded_size(2049), 4096);
    assert_eq!(calculate_padded_size(0xFFFF_F800), 0xFFFF_F800);
    assert_eq!(calculate_padding_size(0), 0);
    assert_eq!(calculate_padding_size(100), 1948);
    assert_eq!(calculate_padding_size(4096), 0);
}

#[test]
fn object_header_bytes_roundtrip() {
    let h = header(0x0102_0304, 5, 6, 7, 0xAABB_CCDD, 9);
    let b = header_bytes(&h);
    assert_eq!(b.len(), 24);
    assert_eq!(&b[0..4], &[4, 3, 2, 1]);
    assert_eq!(&b[16..20], &[0xDD, 0xCC, 0xBB, 0xAA]);
    assert_eq!(ObjectHeader::parse(&b), Some(h));
    assert_eq!(ObjectHeader::parse(&b[..23]), None);
}

#[test]
fn compress_then_decompress_object() {
    let f = object_file(b"CLASSOBJ", &text(3000), 77);
    let g = compress_object_bytes(&f).unwrap();
    let gh = ObjectHeader::parse(&g).unwrap();
    assert_eq!(gh.class_object_size, 8);
    assert_eq!(gh.decompressed_size, 3000);
    assert_eq!(gh.data_size, 8 + gh.compressed_size);
    assert_eq!(g.len() as u32, 24 + gh.data_size);
    assert_eq!(&g[32..36], &3000u32.to_le_bytes());
    assert_eq!(&g[36..40], &gh.compressed_size.to_le_bytes());
    assert!(g.len() < f.len());
    assert_eq!(decompress_object_bytes(&g).unwrap(), f);
}

#[test]
fn compress_object_errors() {
    // a stream that cannot be read
    let mut bad = header_bytes(&header(14, 0, 10, 6, 0, 0));
    bad.extend_from_slice(&[0u8; 8]);
    bad.extend_from_slice(&[0x80, 0, 0, 0, 0, 5]);
    assert_eq!(decompress_object_bytes(&bad), Err(DpcError::Lz(LzError::Malformed)));
}

#[test]
fn split_object() {
    let f = object_file(b"HEAD", b"payload", 5);
    let (h, d) = split_object_bytes(&f);
    assert_eq!(h, b"HEAD".to_vec());
    assert_eq!(d, b"payload".to_vec());
    // a short file reads as zeros past its end
    let mut short = header_bytes(&header(6, 2, 4, 0, 0, 0));
    short.extend_from_slice(&[1, 2, 3]);
    let (h, d) = split_object_bytes(&short);
    assert_eq!(h, vec![1, 2]);
    assert_eq!(d, vec![3, 0, 0, 0]);
}

#[test]
fn payload_of_compressed_object() {
    let data = text(2000);
    let f = object_file(b"CO", &data, 3);
    let g = compress_object_bytes(&f).unwrap();
    // the payload is read right after the class object, the stream's own header included,
    // which does not decode
    assert_eq!(object_payload(&g).err(), Some(DpcError::Lz(LzError::Malformed)));
    let p = object_payload(&f).ok().unwrap();
    assert_eq!(p.class_object, b"CO".to_vec());
    assert_eq!(p.data, data);
}

#[test]
fn block_objects_extract_and_repack() {
    let a = object_file(b"A", b"first", 10);
    let b = object_file(b"BB", b"second!", 11);
    let mut block = a.clone();
    block.extend_from_slice(&b);
    block.extend_from_slice(&[0u8; 5]);
    let objs = parse_block_objects(&block, 2).ok().unwrap();
    assert_eq!(objs.len(), 2);
    assert_eq!(objs[1].header.crc32, 11);
    assert_eq!(objs[1].class_object, b"BB".to_vec());
    let (h, file) = extract_object(&objs[0], true).ok().unwrap();
    assert_eq!(h, objs[0].header);
    assert_eq!(file, a);
    assert_eq!(pack_block_object(&file, false).unwrap(), a);
    assert_eq!(parse_block_objects(&block, 3).err(), Some(DpcError::Truncated));
}

#[test]
fn block_object_compressed_extract() {
    let f = object_file(b"XY", &text(1500), 21);
    let packed = pack_block_object(&f, true).unwrap();
    let objs = parse_block_objects(&packed, 1).ok().unwrap();
    assert_ne!(objs[0].header.compressed_size, 0);
    let (h, file) = extract_object(&objs[0], true).ok().unwrap();
    assert_eq!(h.compressed_size, 0);
    assert_eq!(file, f);
    let (_, raw) = extract_object(&objs[0], false).ok().unwrap();
    assert_eq!(raw, packed);
}

#[test]
fn pool_objects_and_merge() {
    let h = header(7, 0, 7, 0, 2259852416, 40);
    let mut pool = header_bytes(&h);
    pool.extend_from_slice(b"pooldat");
    pool.resize(2048, 0xff);
    let objs = parse_pool_objects(&pool, 1).ok().unwrap();
    assert_eq!(objs[0].data, b"pooldat".to_vec());
    assert_eq!(parse_pool_objects(&pool[..100], 1).err(), Some(DpcError::Truncated));
    let block_header = header(3, 3, 0, 0, 2259852416, 40);
    let mut file = header_bytes(&block_header);
    file.extend_from_slice(b"cls");
    let (nh, merged) = merge_pool_object(&file, block_header, &objs[0], false).ok().unwrap();
    assert_eq!(nh.data_size, 10);
    assert_eq!(nh.class_object_size, 3);
    assert_eq!(nh.decompressed_size, 7);
    let mut expected = header_bytes(&nh);
    expected.extend_from_slice(b"cls");
    expected.extend_from_slice(b"pooldat");
    assert_eq!(merged, expected);
}

#[test]
fn pool_references_and_sizes() {
    let f = object_file(b"CLS", &text(5000), 99);
    let r = pack_pool_reference(&f);
    let rh = ObjectHeader::parse(&r).unwrap();
    assert_eq!(rh.data_size, 3);
    assert_eq!(rh.decompressed_size, 0);
    assert_eq!(&r[24..], b"CLS");
    assert_eq!(pool_object_chunks(ObjectHeader::parse(&f).unwrap()).ok(), Some(3));
    let c = pack_pool_compressed(&f).unwrap();
    let ch = ObjectHeader::parse(&c).unwrap();
    assert_eq!(ch.class_object_size, 0);
    assert_eq!(ch.data_size, ch.compressed_size);
    let (bytes, sectors) = pack_pool_object(&f, 4096).ok().unwrap();
    assert_eq!(sectors, 3);
    assert_eq!(bytes.len() % 2048, 0);
    let ph = ObjectHeader::parse(&bytes).unwrap();
    assert_eq!(ph.class_object_size, 0);
    assert_eq!(ph.data_size, 5000);
    assert_eq!(&bytes[24..5024], &f[27..]);
    assert!(bytes[5024..].iter().all(|b| *b == 0xff));
}

#[test]
fn block_descriptions_and_capacities() {
    let d = describe_block(253, 2, 10, 100, 4096);
    assert_eq!(d.padded_size, 2048);
    let e = describe_block(0, 1, 11, 3000, 0);
    let f = describe_block(0, 1, 12, 5000, 2048);
    let caps = working_buffer_capacities(&vec![d, e, f]).ok().unwrap();
    assert_eq!(caps, (8192, 4096));
    let huge = describe_block(0, 1, 12, 5000, 0xFFFF_FFFF);
    assert_eq!(working_buffer_capacities(&vec![huge]).err(), Some(DpcError::Overflow));
}

fn primary(incredi: &[u8], pool: bool) -> PrimaryHeader {
    let mh = ManifestHeader {
        version_string: VERSION.as_bytes().to_vec(),
        is_rtc: false,
        pool_manifest_unused: 3,
        incredi_builder_string: incredi.to_vec(),
    };
    let d = describe_block(253, 1, 10, 40, 0);
    new_primary_header(
        &mh,
        vec![d],
        (2048, 0),
        2048,
        (272, 380),
        if pool { 2048 } else { 0 },
        if pool { 4096 } else { 0 },
        1,
        2008,
        0,
        6144,
    )
}

#[test]
fn primary_header_roundtrip() {
    let h = primary(b"IB", false);
    let b = h.to_bytes();
    assert_eq!(b.len(), 2048);
    assert_eq!(&b[0..VERSION.len()], VERSION.as_bytes());
    assert_eq!(b[0x7c0], 0xff);
    let (p, end) = PrimaryHeader::parse(&b).ok().unwrap();
    assert_eq!(end, 0x7c0);
    assert_eq!(p.version_string, VERSION.as_bytes().to_vec());
    assert_eq!(p.is_not_rtc, 1);
    assert_eq!(p.block_count, 1);
    assert_eq!(p.block_descriptions[0].object_count, 1);
    assert_eq!(p.file_size, 6144);
    assert_eq!(p.incredi_builder_string, b"IB".to_vec());
    let h = primary(b"", false);
    assert_eq!(h.file_size, 0xFFFF_FFFF);
    let (p, end) = PrimaryHeader::parse(&h.to_bytes()).ok().unwrap();
    assert_eq!(end, 0x740);
    assert!(p.incredi_builder_string.is_empty());
}

#[test]
fn primary_header_errors() {
    let mut b = primary(b"", false).to_bytes();
    b[0] = 0xff;
    assert_eq!(PrimaryHeader::parse(&b).err(), Some(DpcError::InvalidUtf8));
    let mut b = primary(b"", false).to_bytes();
    b[260] = 65;
    assert_eq!(PrimaryHeader::parse(&b).err(), Some(DpcError::TooManyBlocks));
    let b = primary(b"", false).to_bytes();
    assert_eq!(PrimaryHeader::parse(&b[..1000]).err(), Some(DpcError::Truncated));
}

#[test]
fn manifest_header_keeps_incredi_only_when_known() {
    let mut h = primary(b"IB", false);
    let mh = manifest_header_from(&h);
    assert!(!mh.is_rtc);
    assert_eq!(mh.pool_manifest_unused, 3);
    assert_eq!(mh.incredi_builder_string, b"IB".to_vec());
    h.block_sector_padding_size = 0xFFFF_FFFF;
    assert!(manifest_header_from(&h).incredi_builder_string.is_empty());
}

fn sample_pool() -> Pool {
    Pool {
        object_entry_indices: vec![0, 1, 0, 2],
        object_entries: vec![
            PoolObjectEntry { crc32: 100, reference_record_index: 1 },
            PoolObjectEntry { crc32: 200, reference_record_index: 3 },
            PoolObjectEntry { crc32: 300, reference_record_index: 2 },
        ],
        reference_records: vec![
            JsonReferenceRecord { object_entries_starting_index: 0, object_entries_count: 2 },
            JsonReferenceRecord { object_entries_starting_index: 2, object_entries_count: 2 },
            JsonReferenceRecord { object_entries_starting_index: 0, object_entries_count: 2 },
        ],
    }
}

#[test]
fn pool_optimization_dedups_records() {
    let mut pool = sample_pool();
    optimize_pool(&mut pool);
    assert_eq!(pool.reference_records.len(), 2);
    assert_eq!(pool.object_entries[0].reference_record_index, 1);
    assert_eq!(pool.object_entries[1].reference_record_index, 1);
    assert_eq!(pool.object_entries[2].reference_record_index, 2);
    assert_eq!(pool.object_entry_indices, vec![0, 1, 0, 2]);
}

#[test]
fn pool_section_layout() {
    let pool = sample_pool();
    let mut chunks = HashMap::new();
    chunks.insert(100u32, 1u32);
    chunks.insert(200u32, 2u32);
    chunks.insert(300u32, 3u32);
    let section = build_pool_section(&pool, &chunks, 4096).unwrap();
    assert_eq!(section.len(), 2048);
    let (m, _) = PoolManifest::parse(&section).unwrap();
    assert_eq!(m.header.equals524288, 524288);
    assert_eq!(m.header.objects_crc32_count_sum, 6);
    assert_eq!(m.objects_crc32s, vec![0, 1, 0, 2]);
    assert_eq!(m.crc32s, vec![100, 200, 300]);
    assert_eq!(m.reference_counts, vec![2, 1, 1]);
    assert_eq!(m.object_padded_size, vec![1, 2, 3]);
    assert_eq!(m.reference_records_indices, vec![1, 3, 2]);
    // the manifest ends in the sector after 4096; objects start at sector 3
    assert_eq!(m.reference_records[0].start_chunk_index, 3);
    assert_eq!(m.reference_records[0].end_chunk_index, 6);
    assert_eq!(m.reference_records[1].start_chunk_index, 6);
    assert_eq!(m.reference_records[1].end_chunk_index, 10);
    assert_eq!(m.reference_records[0].placeholder_times_referenced, 0xFFFF_FFFF);
    assert_eq!(*section.last().unwrap(), 0xff);
    chunks.remove(&300);
    assert_eq!(build_pool_section(&pool, &chunks, 4096), Err(DpcError::Invalid));
}

#[test]
fn pool_manifest_roundtrip() {
    let m = PoolManifest {
        header: PoolManifestHeader { equals524288: 524288, equals2048: 2048, objects_crc32_count_sum: 1 },
        objects_crc32s: vec![0],
        crc32s: vec![5],
        reference_counts: vec![1],
        object_padded_size: vec![1],
        reference_records_indices: vec![1],
        reference_records: vec![ReferenceRecord {
            start_chunk_index: 2,
            end_chunk_index: 3,
            objects_crc32_starting_index: 0,
            placeholder_dpc_index: 0,
            objects_crc32_count: 1,
            placeholder_times_referenced: 0xFFFF_FFFF,
            placeholder_current_references_shared: 0xFFFF_FFFF,
            placeholder_current_references_weak: 0xFFFF_FFFF,
        }],
    };
    let mut b = Vec::new();
    m.write(&mut b);
    assert_eq!(b.len(), 12 + 5 * 8 + 4 + 28);
    let (p, end) = PoolManifest::parse(&b).unwrap();
    assert_eq!(end, b.len());
    assert_eq!(p.reference_records[0], m.reference_records[0]);
    assert_eq!(p.crc32s, vec![5]);
    let pool = pool_from_manifest(&p).unwrap();
    assert_eq!(pool.object_entries[0], PoolObjectEntry { crc32: 5, reference_record_index: 1 });
    assert_eq!(
        pool.reference_records[0],
        JsonReferenceRecord { object_entries_starting_index: 0, object_entries_count: 1 }
    );
}

#[test]
fn compress_table() {
    let mut m: HashMap<u32, bool> = HashMap::new();
    record_first(&mut m, 1, false);
    record_first(&mut m, 1, true);
    assert_eq!(m.get(&1), Some(&false));
    assert!(record_pool_compress(&mut m, 1, true));
    assert!(!record_pool_compress(&mut m, 2, true));
    assert_eq!(m.get(&1), Some(&true));
    let blocks = vec![Block { offset: 0, objects: vec![ObjectDescription { crc32: 1, compress: false }] }];
    let resolved = resolve_compress_flags(&blocks, &m).unwrap();
    assert!(resolved[0].objects[0].compress);
    let missing = vec![Block { offset: 0, objects: vec![ObjectDescription { crc32: 9, compress: false }] }];
    assert!(resolve_compress_flags(&missing, &m).is_none());
    let mut c: HashMap<u32, bool> = HashMap::new();
    assert_eq!(note_pool_compress(&mut c, 4, true), Ok(true));
    assert_eq!(note_pool_compress(&mut c, 4, true), Ok(false));
    assert_eq!(note_pool_compress(&mut c, 4, false), Err(DpcError::Invalid));
    let empty = Manifest::new();
    assert!(empty.pool.is_none());
}

#[test]
fn backend_decisions() {
    let dpc = FuelDPC::new(&options(true, false, false), false, false);
    assert!(dpc.refuses_lz_without_optimization());
    assert!(dpc.refuses_version(false));
    assert!(!dpc.refuses_version(true));
    assert!(dpc.refuses_pool(true));
    let dpc = FuelDPC::new(&options(true, true, true), true, true);
    assert!(!dpc.optimizes_pool());
    assert!(dpc.compresses(true, 0));
    assert!(!dpc.compresses(true, 5));
    assert!(!dpc.refuses_pool(true));
}

#[test]
fn tables() {
    assert_eq!(version_info(VERSION.as_bytes()), Some((272, 380, 253)));
    assert_eq!(
        version_info(b"v1.220.50.07 - Asobo Studio - Internal Cross Technology"),
        Some((262, 221, 144))
    );
    assert_eq!(version_info(b"v9"), None);
    assert_eq!(class_name(1471281566), Some("Bitmap_Z"));
    assert_eq!(class_name(4240844041), Some("Camera_Z"));
    assert_eq!(class_name(1), None);
    assert_eq!(parse_crc32(b"1471281566"), Some(1471281566));
    assert_eq!(parse_crc32(b"+42"), Some(42));
    assert_eq!(parse_crc32(b"4294967296"), None);
    assert_eq!(parse_crc32(b""), None);
    assert_eq!(parse_crc32(b"+"), None);
    assert_eq!(parse_crc32(b"12a"), None);
}

fn small_dpc() -> Vec<u8> {
    let f = object_file(b"C", b"data", 10);
    let mut blocks = f.clone();
    let len = blocks.len() as u32;
    blocks.resize(calculate_padded_size(len) as usize, 0);
    let mh = ManifestHeader {
        version_string: VERSION.as_bytes().to_vec(),
        is_rtc: true,
        pool_manifest_unused: 0,
        incredi_builder_string: vec![],
    };
    let d = describe_block(253, 1, 10, len, 0);
    let h = new_primary_header(&mh, vec![d], (2048, 0), 2048, (272, 380), 0, 0, 0, 0, 0, 0);
    let mut out = h.to_bytes();
    out.extend_from_slice(&blocks);
    out
}

#[test]
fn validate_small_dpc() {
    let dpc = small_dpc();
    let v = validate_dpc(&dpc).ok().unwrap();
    assert_eq!(v.primary_header.is_not_rtc, 0);
    assert_eq!(v.blocks.len(), 1);
    assert_eq!(v.blocks[0][0].crc32, 10);
    assert!(v.pool.is_none());
    let mut longer = dpc.clone();
    longer.extend_from_slice(&[0u8; 2048]);
    assert_eq!(validate_dpc(&longer).err(), Some(DpcError::Invalid));
    let mut bad = dpc.clone();
    bad[2048] = 99;
    assert_eq!(validate_dpc(&bad).err(), Some(DpcError::Invalid));
}

#[test]
fn block_description_bytes() {
    let d = BlockDescription {
        block_type: 1,
        object_count: 2,
        padded_size: 3,
        data_size: 4,
        working_buffer_offset: 5,
        crc32: 6,
    };
    let mut b = Vec::new();
    d.write(&mut b);
    assert_eq!(BlockDescription::read(&b, 0), d);
    assert_eq!(b[20], 6);
}

#[test]
fn format_tables_by_version() {
    let newest = get_formats(b"v1.381.67.09 - Asobo Studio - Internal Cross Technology");
    assert_eq!(newest.len(), 30);
    assert_eq!(newest.get(&2204276779), Some(&ObjectFormatKind::Material));
    assert_eq!(newest.get(&1387343541), Some(&ObjectFormatKind::Mesh));
    assert_eq!(newest.get(&1396791303), Some(&ObjectFormatKind::Skin));
    assert_eq!(newest.get(&2245010728), Some(&ObjectFormatKind::Node));
    assert_eq!(newest.get(&4096629181), Some(&ObjectFormatKind::GameObj));
    assert_eq!(newest.get(&849267944), None);
    let older = get_formats(b"v1.381.64.09 - Asobo Studio - Internal Cross Technology");
    assert_eq!(older.get(&1387343541), Some(&ObjectFormatKind::MeshAlt));
    let traffic = get_formats(b"v1.325.50.07 - Asobo Studio - Internal Cross Technology");
    assert_eq!(traffic.get(&2204276779), Some(&ObjectFormatKind::MaterialAltAlt));
    assert_eq!(traffic.get(&1387343541), Some(&ObjectFormatKind::MeshAltAlt));
    assert_eq!(traffic.get(&2245010728), Some(&ObjectFormatKind::NodeAlt));
    let moto = get_formats(b"v1.220.50.07 - Asobo Studio - Internal Cross Technology");
    assert_eq!(moto.get(&2204276779), Some(&ObjectFormatKind::MaterialAlt));
    assert_eq!(moto.get(&1387343541), Some(&ObjectFormatKind::MeshAltAltAlt));
    assert_eq!(moto.get(&1396791303), Some(&ObjectFormatKind::SkinAlt));
    assert_eq!(moto.len(), 30);
}

#[test]
fn extract_small_dpc() {
    let dpc = small_dpc();
    let backend = FuelDPC::new(&options(false, false, false), false, false);
    let (m, files) = extract_dpc(&backend, &dpc).ok().unwrap();
    assert_eq!(m.header.version_string, VERSION.as_bytes().to_vec());
    assert!(m.header.is_rtc);
    assert_eq!(m.blocks.len(), 1);
    assert_eq!(m.blocks[0].offset, 0);
    assert_eq!(m.blocks[0].objects, vec![ObjectDescription { crc32: 10, compress: false }]);
    assert!(m.pool.is_none());
    assert_eq!(files.len(), 1);
    assert_eq!(files[0].crc32, 10);
    assert_eq!(files[0].class_crc32, 2259852416);
    assert_eq!(files[0].bytes, object_file(b"C", b"data", 10));
    let mut unknown = dpc.clone();
    unknown[2048 + 16] = 1;
    let (_, files2) = extract_dpc(&backend, &unknown).ok().unwrap();
    assert_eq!(files2[0].class_crc32, 2259852289);
    let mut bad = dpc.clone();
    bad[0] = 0xff;
    assert_eq!(extract_dpc(&backend, &bad).err(), Some(DpcError::InvalidUtf8));
}

#[test]
fn create_from_extracted_small_dpc() {
    let dpc = small_dpc();
    let backend = FuelDPC::new(&options(false, false, false), false, false);
    let (m, files) = extract_dpc(&backend, &dpc).ok().unwrap();
    let inputs: Vec<InputFile> = files.into_iter().map(|f| InputFile { crc32: f.crc32, bytes: f.bytes }).collect();
    let rebuilt = create_dpc(&backend, &m, &inputs).ok().unwrap();
    assert_eq!(rebuilt, dpc);
    assert_eq!(create_dpc(&backend, &m, &vec![]).err(), Some(DpcError::Invalid));
}

#[test]
fn extract_after_create_gives_files_back() {
    let dpc = small_dpc();
    let backend = FuelDPC::new(&options(false, false, false), false, false);
    let (m, files) = extract_dpc(&backend, &dpc).ok().unwrap();
    let inputs: Vec<InputFile> = files.iter().map(|f| InputFile { crc32: f.crc32, bytes: f.bytes.clone() }).collect();
    let created = create_dpc(&backend, &m, &inputs).ok().unwrap();
    let (m2, files2) = extract_dpc(&backend, &created).ok().unwrap();
    assert_eq!(m2.blocks.len(), m.blocks.len());
    assert_eq!(m2.blocks[0].objects, m.blocks[0].objects);
    assert_eq!(m2.header.version_string, m.header.version_string);
    assert_eq!(files2.len(), files.len());
    assert_eq!(files2[0].bytes, files[0].bytes);
}

fn lz_manifest() -> Manifest {
    Manifest {
        header: ManifestHeader {
            version_string: VERSION.as_bytes().to_vec(),
            is_rtc: true,
            pool_manifest_unused: 0,
            incredi_builder_string: vec![],
        },
        blocks: vec![
            Block {
                offset: 0,
                objects: vec![
                    ObjectDescription { crc32: 21, compress: true },
                    ObjectDescription { crc32: 22, compress: false },
                ],
            },
            Block { offset: 64, objects: vec![ObjectDescription { crc32: 21, compress: true }] },
        ],
        pool: None,
    }
}

fn lz_inputs() -> Vec<InputFile> {
    vec![
        InputFile { crc32: 21, bytes: object_file(b"CLS", &text(300), 21) },
        InputFile { crc32: 22, bytes: object_file(b"K", b"plain data", 22) },
    ]
}

#[test]
fn lz_round_trip_keeps_manifest_and_files() {
    let lz = FuelDPC::new(&options(true, true, false), false, false);
    let first = create_dpc(&lz, &lz_manifest(), &lz_inputs()).ok().unwrap();
    let (m, files) = extract_dpc(&lz, &first).ok().unwrap();
    assert_eq!(files.len(), 2);
    assert_eq!(files[0].bytes, lz_inputs()[0].bytes);
    assert_eq!(files[1].bytes, lz_inputs()[1].bytes);
    assert_eq!(m.blocks[0].objects, lz_manifest().blocks[0].objects);
    let inputs: Vec<InputFile> = files.iter().map(|f| InputFile { crc32: f.crc32, bytes: f.bytes.clone() }).collect();
    let second = create_dpc(&lz, &m, &inputs).ok().unwrap();
    let (m2, files2) = extract_dpc(&lz, &second).ok().unwrap();
    assert_eq!(m2.blocks.len(), m.blocks.len());
    for j in 0..m.blocks.len() {
        assert_eq!(m2.blocks[j].offset, m.blocks[j].offset);
        assert_eq!(m2.blocks[j].objects, m.blocks[j].objects);
    }
    assert_eq!(m2.header.version_string, m.header.version_string);
    assert!(m2.pool.is_none());
    assert_eq!(files2.len(), files.len());
    for i in 0..files.len() {
        assert_eq!(files2[i].crc32, files[i].crc32);
        assert_eq!(files2[i].class_crc32, files[i].class_crc32);
        assert_eq!(files2[i].bytes, files[i].bytes);
    }
}

#[test]
fn lz_round_trip_through_plain_create_keeps_files() {
    let lz = FuelDPC::new(&options(true, true, false), false, false);
    let plain = FuelDPC::new(&options(false, false, false), false, false);
    let first = create_dpc(&lz, &lz_manifest(), &lz_inputs()).ok().unwrap();
    let (m, files) = extract_dpc(&lz, &first).ok().unwrap();
    let inputs: Vec<InputFile> = files.iter().map(|f| InputFile { crc32: f.crc32, bytes: f.bytes.clone() }).collect();
    let second = create_dpc(&plain, &m, &inputs).ok().unwrap();
    let (m2, files2) = extract_dpc(&lz, &second).ok().unwrap();
    assert_eq!(files2.len(), files.len());
    for i in 0..files.len() {
        assert_eq!(files2[i].crc32, files[i].crc32);
        assert_eq!(files2[i].bytes, files[i].bytes);
    }
    assert_eq!(m2.blocks[0].objects[0], ObjectDescription { crc32: 21, compress: false });
    assert_eq!(m2.blocks[1].offset, 64);
}
