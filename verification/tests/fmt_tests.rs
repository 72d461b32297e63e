use dpc::fuel_fmt::{
    game_obj_soft_links, parse_game_obj, parse_material_obj, sound_samples, BinaryObjectFormat, BitmapObjectFormat, BitmapObjectFormatAlt, BitmapZAlternate,
    BitmapZHeader, BitmapZHeaderAlternate, D3DFormat, MeshDataZ, ResourceObjectZ, RotShapeDataZ,
    SoundObjectFormat, SoundZHeader, SurfaceDatasZ, UserDefineObjectFormat,
};

#[test]
fn resource_object_forms() {
    let r = ResourceObjectZ::parse(&[1, 0, 0, 0]).unwrap();
    assert_eq!(r.friendly_name_crc32, 1);
    assert!(r.crc32s.is_none());
    let r = ResourceObjectZ::parse(&[1, 0, 0, 0, 2, 0, 0, 0, 7, 0, 0, 0, 8, 0, 0, 0]).unwrap();
    assert_eq!(r.crc32s, Some(vec![7, 8]));
    let mut b = Vec::new();
    r.write(&mut b);
    assert_eq!(b, vec![1, 0, 0, 0, 2, 0, 0, 0, 7, 0, 0, 0, 8, 0, 0, 0]);
    assert!(ResourceObjectZ::parse(&[1, 0, 0, 0, 2, 0, 0, 0, 7, 0, 0, 0]).is_none());
    assert!(ResourceObjectZ::parse(&[1, 0, 0, 0, 0, 0, 0, 0, 9]).is_none());
    assert!(ResourceObjectZ::parse(&[1, 0]).is_none());
}

#[test]
fn user_define_text() {
    let f = UserDefineObjectFormat::new();
    let body = f.body(b"hello");
    assert_eq!(body, vec![5, 0, 0, 0, b'h', b'e', b'l', b'l', b'o']);
    assert_eq!(f.text(&body), Some(b"hello".to_vec()));
    assert_eq!(f.text(&[3, 0, 0, 0, b'a']), Some(vec![b'a', 0, 0]));
    assert_eq!(f.text(&[1]), None);
    let _ = BinaryObjectFormat::new();
}

#[test]
fn sound_header_and_samples() {
    let _ = SoundObjectFormat::new();
    let h = SoundZHeader::parse(&[1, 0, 0, 0, 0, 0, 0, 0]).unwrap();
    assert_eq!(h.playback_rate(), 44100);
    let h = SoundZHeader::parse(&[1, 0, 0, 0, 0x22, 0x56, 0, 0, 4, 0, 0, 0, 1, 0]).unwrap();
    assert_eq!(h.sample_rate, 22050);
    assert_eq!(h.playback_rate(), 22050);
    assert_eq!(h.data_size, Some(4));
    assert_eq!(h.zero, None);
    let h = SoundZHeader::parse(&[1, 0, 0, 0, 1, 0, 0, 0, 4, 0, 0, 0, 1, 0, 0, 0]).unwrap();
    assert_eq!(h.zero, Some(0));
    assert!(SoundZHeader::parse(&[1, 0, 0, 0, 1, 0, 0, 0, 4, 0, 0, 0, 1, 0, 0]).is_none());
    assert!(SoundZHeader::parse(&[1, 0, 0, 0, 0, 0, 0, 0, 1]).is_none());
    assert_eq!(sound_samples(&[1, 0, 0xff, 0xff, 0x00, 0x80, 9]), vec![1, -1, -32768]);
}

#[test]
fn bitmap_headers() {
    let _ = BitmapObjectFormat::new();
    let _ = BitmapObjectFormatAlt::new();
    let mut raw = vec![0u8; 32];
    raw[6] = 64;
    raw[10] = 32;
    raw[26] = 14;
    raw[27] = 5;
    let h = BitmapZHeader::parse(&raw).unwrap();
    assert_eq!(h.width, 64);
    assert_eq!(h.height, 32);
    assert_eq!(h.mip_map_count, 5);
    assert_eq!(h.format(), D3DFormat::DXT1);
    let mut b = Vec::new();
    h.write(&mut b);
    assert_eq!(b, raw);
    assert!(BitmapZHeader::parse(&raw[..31]).is_none());
    let a = BitmapZHeaderAlternate::parse(&[1, 0, 0, 0, 0, 0, 0, 0, 3, 7, 4, 0, 0]).unwrap();
    assert_eq!(a.format(), D3DFormat::A8L8);
    let mut ab = Vec::new();
    a.write(&mut ab);
    assert_eq!(ab, vec![1, 0, 0, 0, 0, 0, 0, 0, 3, 7, 4, 0, 0]);
}

#[test]
fn alternate_bitmap_data() {
    let mut raw = vec![4, 0, 0, 0, 2, 0, 0, 0, 0, 0, 0, 0, 9, 0, 0, 0];
    raw.extend_from_slice(&[0, 0, 0, 0]);
    raw.extend_from_slice(&[5, 0, 6, 0xaa, 0xbb]);
    let b = BitmapZAlternate::parse(&raw).unwrap();
    assert_eq!(b.zero1, Some(0));
    assert_eq!(b.unknown1, 5);
    assert_eq!(b.unknown2, 6);
    assert_eq!(b.data, vec![0xaa, 0xbb]);
    let mut w = Vec::new();
    b.write(&mut w);
    assert_eq!(w, raw);
    let mut raw2 = vec![4, 0, 0, 0, 2, 0, 0, 0, 0, 0, 0, 0, 9, 0, 0, 0];
    raw2.extend_from_slice(&[5, 0, 6, 0xaa]);
    let b2 = BitmapZAlternate::parse(&raw2).unwrap();
    assert_eq!(b2.zero1, None);
    assert_eq!(b2.data, vec![0xaa]);
    assert!(BitmapZAlternate::parse(&raw2[..18]).is_none());
}

#[test]
fn small_formats() {
    let m = MeshDataZ::parse(&[1, 0, 0, 0, 0, 0, 0, 0, 0, 0, 0, 0, 0, 0, 0, 0, 0, 0, 0, 0]).unwrap();
    assert_eq!(m.not_traffic_tm_or_p_moto, 1);
    assert!(MeshDataZ::parse(&[1, 0, 0, 0]).is_none());
    assert_eq!(SurfaceDatasZ::parse(&[1, 0, 0, 0]).unwrap().one, 1);
    let mut rs = vec![1, 0, 0, 0, 1, 0, 0, 0, 7, 0];
    rs.extend_from_slice(&[0u8; 28]);
    let r = RotShapeDataZ::parse(&rs).unwrap();
    assert_eq!(r.shorts, vec![7]);
    assert_eq!(r.padding.len(), 28);
    assert!(RotShapeDataZ::parse(&rs[..37]).is_none());
}

#[test]
fn game_obj_children() {
    let raw = [1, 0, 0, 0, 3, 0, 0, 0, b'a', b'b', 0, 1, 0, 0, 0, 1, 0, 0, 0, 5, 0, 0, 0];
    let children = parse_game_obj(&raw).unwrap();
    assert_eq!(children.len(), 1);
    assert_eq!(children[0].name, b"ab".to_vec());
    assert_eq!(children[0].is_in_world, 1);
    assert_eq!(children[0].crc32s, vec![5]);
    assert!(parse_game_obj(&raw[..22]).is_none());
    assert!(parse_game_obj(&[1, 0, 0, 0, 0, 0, 0, 0, 1, 0, 0, 0, 0, 0, 0, 0]).is_none());
    assert_eq!(parse_game_obj(&[0, 0, 0, 0]).unwrap().len(), 0);
}

#[test]
fn game_obj_soft_links_in_order() {
    let raw = [
        2, 0, 0, 0, 2, 0, 0, 0, b'a', 0, 0, 0, 0, 0, 2, 0, 0, 0, 5, 0, 0, 0, 6, 0, 0, 0, 2, 0, 0,
        0, b'b', 0, 1, 0, 0, 0, 1, 0, 0, 0, 7, 0, 0, 0,
    ];
    let children = parse_game_obj(&raw).unwrap();
    assert_eq!(children.len(), 2);
    assert_eq!(game_obj_soft_links(&children), vec![5, 6, 7]);
    assert_eq!(game_obj_soft_links(&[]), Vec::<u32>::new());
}

#[test]
fn material_obj_entries() {
    let raw = [1, 0, 0, 0, 9, 0, 0, 0, 2, 0, 0, 0, 1, 0, 0, 0, 2, 0, 0, 0];
    let entries = parse_material_obj(&raw).unwrap();
    assert_eq!(entries.len(), 1);
    assert_eq!(entries[0].array_name_crc32, 9);
    assert_eq!(entries[0].material_anim_crc32s, vec![1, 2]);
    let mut longer = raw.to_vec();
    longer.push(0);
    assert!(parse_material_obj(&longer).is_none());
}
