//! The tables of the FUEL backend: the versions it knows, and the names of the classes.
use vstd::prelude::*;
use vstd::string::StringSliceAdditionalSpecFns;
use std::collections::HashMap;

verus! {

/// Whether `a` and `b` hold the same bytes.
pub fn bytes_eq(a: &[u8], b: &[u8]) -> (r: bool)
    ensures
        r == (a@ == b@),
{
    if a.len() != b.len() {
        return false;
    }
    let mut i: usize = 0;
    while i < a.len()
        invariant
            i <= a@.len(),
            a@.len() == b@.len(),
            forall|k: int| 0 <= k < i ==> a@[k] == b@[k],
        decreases a@.len() - i,
    {
        if a[i] != b[i] {
            return false;
        }
        i = i + 1;
    }
    assert(a@ =~= b@);
    true
}

/// The patch version, minor version and first block type of the FUEL version whose version
/// string is `v`; `None` for a version the backend does not know.
pub open spec fn spec_version_info(v: Seq<u8>) -> Option<(u32, u32, u32)> {
    if v == "v1.381.67.09 - Asobo Studio - Internal Cross Technology".spec_bytes() {
        Some((272, 380, 253))
    } else if v == "v1.381.66.09 - Asobo Studio - Internal Cross Technology".spec_bytes() {
        Some((272, 380, 252))
    } else if v == "v1.381.65.09 - Asobo Studio - Internal Cross Technology".spec_bytes() {
        Some((271, 380, 249))
    } else if v == "v1.381.64.09 - Asobo Studio - Internal Cross Technology".spec_bytes() {
        Some((271, 380, 249))
    } else if v == "v1.379.60.09 - Asobo Studio - Internal Cross Technology".spec_bytes() {
        Some((269, 380, 211))
    } else if v == "v1.325.50.07 - Asobo Studio - Internal Cross Technology".spec_bytes() {
        Some((262, 326, 146))
    } else if v == "v1.220.50.07 - Asobo Studio - Internal Cross Technology".spec_bytes() {
        Some((262, 221, 144))
    } else {
        None
    }
}

/// The patch version, minor version and first block type of the FUEL version whose version
/// string is `version`.
pub fn version_info(version: &[u8]) -> (r: Option<(u32, u32, u32)>)
    ensures
        r == spec_version_info(version@),
{
    if bytes_eq(version, "v1.381.67.09 - Asobo Studio - Internal Cross Technology".as_bytes()) {
        return Some((272, 380, 253));
    }
    if bytes_eq(version, "v1.381.66.09 - Asobo Studio - Internal Cross Technology".as_bytes()) {
        return Some((272, 380, 252));
    }
    if bytes_eq(version, "v1.381.65.09 - Asobo Studio - Internal Cross Technology".as_bytes()) {
        return Some((271, 380, 249));
    }
    if bytes_eq(version, "v1.381.64.09 - Asobo Studio - Internal Cross Technology".as_bytes()) {
        return Some((271, 380, 249));
    }
    if bytes_eq(version, "v1.379.60.09 - Asobo Studio - Internal Cross Technology".as_bytes()) {
        return Some((269, 380, 211));
    }
    if bytes_eq(version, "v1.325.50.07 - Asobo Studio - Internal Cross Technology".as_bytes()) {
        return Some((262, 326, 146));
    }
    if bytes_eq(version, "v1.220.50.07 - Asobo Studio - Internal Cross Technology".as_bytes()) {
        return Some((262, 221, 144));
    }
    None
}

/// The name of the class with crc32 `crc`.
pub open spec fn spec_class_name(crc: u32) -> Option<Seq<char>> {
    if crc == 549480509 {
        Some("Omni_Z"@)
    } else if crc == 705810152 {
        Some("Rtc_Z"@)
    } else if crc == 838505646 {
        Some("GenWorld_Z"@)
    } else if crc == 848525546 {
        Some("LightData_Z"@)
    } else if crc == 849267944 {
        Some("Sound_Z"@)
    } else if crc == 849861735 {
        Some("MaterialObj_Z"@)
    } else if crc == 866453734 {
        Some("RotShape_Z"@)
    } else if crc == 954499543 {
        Some("ParticlesData_Z"@)
    } else if crc == 968261323 {
        Some("World_Z"@)
    } else if crc == 1114947943 {
        Some("Warp_Z"@)
    } else if crc == 1135194223 {
        Some("Spline_Z"@)
    } else if crc == 1175485833 {
        Some("Animation_Z"@)
    } else if crc == 1387343541 {
        Some("Mesh_Z"@)
    } else if crc == 1391959958 {
        Some("UserDefine_Z"@)
    } else if crc == 1396791303 {
        Some("Skin_Z"@)
    } else if crc == 1471281566 {
        Some("Bitmap_Z"@)
    } else if crc == 1536002910 {
        Some("Fonts_Z"@)
    } else if crc == 1625945536 {
        Some("RotShapeData_Z"@)
    } else if crc == 1706265229 {
        Some("Surface_Z"@)
    } else if crc == 1910554652 {
        Some("SplineGraph_Z"@)
    } else if crc == 1943824915 {
        Some("Lod_Z"@)
    } else if crc == 2204276779 {
        Some("Material_Z"@)
    } else if crc == 2245010728 {
        Some("Node_Z"@)
    } else if crc == 2259852416 {
        Some("Binary_Z"@)
    } else if crc == 2398393906 {
        Some("CollisionVol_Z"@)
    } else if crc == 2906362741 {
        Some("WorldRef_Z"@)
    } else if crc == 3312018398 {
        Some("Particles_Z"@)
    } else if crc == 3412401859 {
        Some("LodData_Z"@)
    } else if crc == 3611002348 {
        Some("Skel_Z"@)
    } else if crc == 3626109572 {
        Some("MeshData_Z"@)
    } else if crc == 3747817665 {
        Some("SurfaceDatas_Z"@)
    } else if crc == 3834418854 {
        Some("MaterialAnim_Z"@)
    } else if crc == 3845834591 {
        Some("GwRoad_Z"@)
    } else if crc == 4096629181 {
        Some("GameObj_Z"@)
    } else if crc == 4240844041 {
        Some("Camera_Z"@)
    } else {
        None
    }
}

/// The name of the class with crc32 `crc`, as object files are named.
pub fn class_name(crc: u32) -> (r: Option<&'static str>)
    ensures
        match r {
            Some(s) => spec_class_name(crc) == Some(s@),
            None => spec_class_name(crc) is None,
        },
{
    if crc == 549480509 {
        return Some("Omni_Z");
    }
    if crc == 705810152 {
        return Some("Rtc_Z");
    }
    if crc == 838505646 {
        return Some("GenWorld_Z");
    }
    if crc == 848525546 {
        return Some("LightData_Z");
    }
    if crc == 849267944 {
        return Some("Sound_Z");
    }
    if crc == 849861735 {
        return Some("MaterialObj_Z");
    }
    if crc == 866453734 {
        return Some("RotShape_Z");
    }
    if crc == 954499543 {
        return Some("ParticlesData_Z");
    }
    if crc == 968261323 {
        return Some("World_Z");
    }
    if crc == 1114947943 {
        return Some("Warp_Z");
    }
    if crc == 1135194223 {
        return Some("Spline_Z");
    }
    if crc == 1175485833 {
        return Some("Animation_Z");
    }
    if crc == 1387343541 {
        return Some("Mesh_Z");
    }
    if crc == 1391959958 {
        return Some("UserDefine_Z");
    }
    if crc == 1396791303 {
        return Some("Skin_Z");
    }
    if crc == 1471281566 {
        return Some("Bitmap_Z");
    }
    if crc == 1536002910 {
        return Some("Fonts_Z");
    }
    if crc == 1625945536 {
        return Some("RotShapeData_Z");
    }
    if crc == 1706265229 {
        return Some("Surface_Z");
    }
    if crc == 1910554652 {
        return Some("SplineGraph_Z");
    }
    if crc == 1943824915 {
        return Some("Lod_Z");
    }
    if crc == 2204276779 {
        return Some("Material_Z");
    }
    if crc == 2245010728 {
        return Some("Node_Z");
    }
    if crc == 2259852416 {
        return Some("Binary_Z");
    }
    if crc == 2398393906 {
        return Some("CollisionVol_Z");
    }
    if crc == 2906362741 {
        return Some("WorldRef_Z");
    }
    if crc == 3312018398 {
        return Some("Particles_Z");
    }
    if crc == 3412401859 {
        return Some("LodData_Z");
    }
    if crc == 3611002348 {
        return Some("Skel_Z");
    }
    if crc == 3626109572 {
        return Some("MeshData_Z");
    }
    if crc == 3747817665 {
        return Some("SurfaceDatas_Z");
    }
    if crc == 3834418854 {
        return Some("MaterialAnim_Z");
    }
    if crc == 3845834591 {
        return Some("GwRoad_Z");
    }
    if crc == 4096629181 {
        return Some("GameObj_Z");
    }
    if crc == 4240844041 {
        return Some("Camera_Z");
    }
    None
}

/// The number the ASCII decimal digits `d` stand for.
pub open spec fn decimal_value(d: Seq<u8>) -> int
    decreases d.len(),
{
    if d.len() == 0 {
        0
    } else {
        decimal_value(d.drop_last()) * 10 + (d.last() - 48)
    }
}

/// Whether every byte of `d` is an ASCII decimal digit.
pub open spec fn all_digits(d: Seq<u8>) -> bool {
    forall|i: int| 0 <= i < d.len() ==> 48 <= #[trigger] d[i] <= 57
}

/// The digits of a crc32 written in decimal, after an optional `+`.
pub open spec fn crc32_digits(s: Seq<u8>) -> Seq<u8> {
    if s.len() > 0 && s[0] == 43 {
        s.skip(1)
    } else {
        s
    }
}

/// Reading an object file's name (without its extension) as a crc32 in decimal, as `u32`'s
/// `from_str` does: an optional `+`, then at least one digit and nothing else, and a value
/// that fits.
pub open spec fn spec_parse_crc32(s: Seq<u8>) -> Option<u32> {
    let d = crc32_digits(s);
    if d.len() == 0 || !all_digits(d) || decimal_value(d) > u32::MAX {
        None
    } else {
        Some(decimal_value(d) as u32)
    }
}

/// A longer run of digits is worth at least as much.
proof fn lemma_decimal_mono(d: Seq<u8>, k: int)
    requires
        0 <= k <= d.len(),
        all_digits(d),
    ensures
        decimal_value(d.take(k)) <= decimal_value(d),
        decimal_value(d) >= 0,
    decreases d.len() - k,
{
    if k < d.len() {
        assert(d.take(k + 1).drop_last() =~= d.take(k));
        lemma_decimal_mono(d, k + 1);
        assert(decimal_value(d.take(k)) >= 0) by {
            lemma_decimal_nonneg(d.take(k));
        }
    } else {
        assert(d.take(k) =~= d);
        lemma_decimal_nonneg(d);
    }
}

/// Digits are worth a non-negative number.
proof fn lemma_decimal_nonneg(d: Seq<u8>)
    requires
        all_digits(d),
    ensures
        decimal_value(d) >= 0,
    decreases d.len(),
{
    if d.len() > 0 {
        lemma_decimal_nonneg(d.drop_last());
    }
}

/// Reads an object file's name (without its extension) as a crc32 in decimal.
pub fn parse_crc32(s: &[u8]) -> (r: Option<u32>)
    ensures
        r == spec_parse_crc32(s@),
{
    let start: usize = if s.len() > 0 && s[0] == 43 {
        1
    } else {
        0
    };
    let ghost d = crc32_digits(s@);
    assert(d =~= s@.skip(start as int));
    if start == s.len() {
        return None;
    }
    let mut v: u64 = 0;
    let mut i: usize = start;
    while i < s.len()
        invariant
            start <= i <= s@.len(),
            d == s@.skip(start as int),
            d == crc32_digits(s@),
            all_digits(d.take(i - start)),
            v == decimal_value(d.take(i - start)),
            v <= u32::MAX,
        decreases s@.len() - i,
    {
        let c = s[i];
        if c < 48 || c > 57 {
            assert(d[i - start] == c);
            return None;
        }
        assert(d.take(i - start + 1).drop_last() =~= d.take(i - start));
        let next = v * 10 + (c - 48) as u64;
        if next > 0xFFFF_FFFF {
            proof {
                let k = i - start + 1;
                assert(all_digits(d.take(k)));
                assert(decimal_value(d.take(k)) == next);
                if all_digits(d) {
                    lemma_decimal_mono(d, k);
                }
            }
            return None;
        }
        v = next;
        i = i + 1;
    }
    assert(d.take(i - start) =~= d);
    Some(v as u32)
}

/// The layout that the objects of a class are read with. Where a class changed between
/// versions, the layouts of the older versions carry `Alt` suffixes.
#[derive(Clone, Copy, Debug, PartialEq, Eq, Structural)]
pub enum ObjectFormatKind {
    Animation,
    Camera,
    CollisionVol,
    Fonts,
    GameObj,
    GenWorld,
    GwRoad,
    LightData,
    LodData,
    MaterialAnim,
    MaterialObj,
    MeshData,
    Omni,
    ParticlesData,
    RotShape,
    RotShapeData,
    Rtc,
    Skel,
    Spline,
    SplineGraph,
    Surface,
    SurfaceDatas,
    UserDefine,
    Warp,
    World,
    WorldRef,
    Material,
    MaterialAlt,
    MaterialAltAlt,
    Mesh,
    MeshAlt,
    MeshAltAlt,
    MeshAltAltAlt,
    Skin,
    SkinAlt,
    Node,
    NodeAlt,
}

/// The layouts that every known version reads its classes with, by class crc32.
pub open spec fn spec_shared_formats() -> Map<u32, ObjectFormatKind> {
    map![
        1175485833u32 => ObjectFormatKind::Animation,
        4240844041u32 => ObjectFormatKind::Camera,
        2398393906u32 => ObjectFormatKind::CollisionVol,
        1536002910u32 => ObjectFormatKind::Fonts,
        4096629181u32 => ObjectFormatKind::GameObj,
        838505646u32 => ObjectFormatKind::GenWorld,
        3845834591u32 => ObjectFormatKind::GwRoad,
        848525546u32 => ObjectFormatKind::LightData,
        3412401859u32 => ObjectFormatKind::LodData,
        3834418854u32 => ObjectFormatKind::MaterialAnim,
        849861735u32 => ObjectFormatKind::MaterialObj,
        3626109572u32 => ObjectFormatKind::MeshData,
        549480509u32 => ObjectFormatKind::Omni,
        954499543u32 => ObjectFormatKind::ParticlesData,
        866453734u32 => ObjectFormatKind::RotShape,
        1625945536u32 => ObjectFormatKind::RotShapeData,
        705810152u32 => ObjectFormatKind::Rtc,
        3611002348u32 => ObjectFormatKind::Skel,
        1135194223u32 => ObjectFormatKind::Spline,
        1910554652u32 => ObjectFormatKind::SplineGraph,
        1706265229u32 => ObjectFormatKind::Surface,
        3747817665u32 => ObjectFormatKind::SurfaceDatas,
        1391959958u32 => ObjectFormatKind::UserDefine,
        1114947943u32 => ObjectFormatKind::Warp,
        968261323u32 => ObjectFormatKind::World,
        2906362741u32 => ObjectFormatKind::WorldRef
    ]
}

/// The layouts of the material, mesh, skin and node classes in the version whose version
/// string is `v`; `None` for a version the backend does not know.
pub open spec fn spec_version_formats(v: Seq<u8>) -> Option<(ObjectFormatKind, ObjectFormatKind, ObjectFormatKind, ObjectFormatKind)> {
    if v == "v1.381.67.09 - Asobo Studio - Internal Cross Technology".spec_bytes()
        || v == "v1.381.66.09 - Asobo Studio - Internal Cross Technology".spec_bytes() {
        Some((ObjectFormatKind::Material, ObjectFormatKind::Mesh, ObjectFormatKind::Skin, ObjectFormatKind::Node))
    } else if v == "v1.381.65.09 - Asobo Studio - Internal Cross Technology".spec_bytes()
        || v == "v1.381.64.09 - Asobo Studio - Internal Cross Technology".spec_bytes() {
        Some((ObjectFormatKind::Material, ObjectFormatKind::MeshAlt, ObjectFormatKind::Skin, ObjectFormatKind::Node))
    } else if v == "v1.379.60.09 - Asobo Studio - Internal Cross Technology".spec_bytes() {
        Some((ObjectFormatKind::Material, ObjectFormatKind::MeshAltAlt, ObjectFormatKind::Skin, ObjectFormatKind::Node))
    } else if v == "v1.325.50.07 - Asobo Studio - Internal Cross Technology".spec_bytes() {
        Some((ObjectFormatKind::MaterialAltAlt, ObjectFormatKind::MeshAltAlt, ObjectFormatKind::SkinAlt, ObjectFormatKind::NodeAlt))
    } else if v == "v1.220.50.07 - Asobo Studio - Internal Cross Technology".spec_bytes() {
        Some((ObjectFormatKind::MaterialAlt, ObjectFormatKind::MeshAltAltAlt, ObjectFormatKind::SkinAlt, ObjectFormatKind::NodeAlt))
    } else {
        None
    }
}

/// The whole table of the version whose version string is `v`: the shared layouts, and the
/// material (2204276779), mesh (1387343541), skin (1396791303) and node (2245010728) layouts
/// of that version.
pub open spec fn spec_formats(v: Seq<u8>) -> Option<Map<u32, ObjectFormatKind>> {
    match spec_version_formats(v) {
        Some((material, mesh, skin, node)) => Some(
            spec_shared_formats().insert(2204276779u32, material).insert(1387343541u32, mesh).insert(
                1396791303u32,
                skin,
            ).insert(2245010728u32, node),
        ),
        None => None,
    }
}

/// The layout each class is read with in the version whose version string is `version`, by
/// class crc32. The version must be one the backend knows.
pub fn get_formats(version: &[u8]) -> (r: HashMap<u32, ObjectFormatKind>)
    requires
        spec_version_info(version@) is Some,
    ensures
        spec_formats(version@) == Some(r@),
{
    let mut formats: HashMap<u32, ObjectFormatKind> = HashMap::new();
    formats.insert(1175485833, ObjectFormatKind::Animation);
    formats.insert(4240844041, ObjectFormatKind::Camera);
    formats.insert(2398393906, ObjectFormatKind::CollisionVol);
    formats.insert(1536002910, ObjectFormatKind::Fonts);
    formats.insert(4096629181, ObjectFormatKind::GameObj);
    formats.insert(838505646, ObjectFormatKind::GenWorld);
    formats.insert(3845834591, ObjectFormatKind::GwRoad);
    formats.insert(848525546, ObjectFormatKind::LightData);
    formats.insert(3412401859, ObjectFormatKind::LodData);
    formats.insert(3834418854, ObjectFormatKind::MaterialAnim);
    formats.insert(849861735, ObjectFormatKind::MaterialObj);
    formats.insert(3626109572, ObjectFormatKind::MeshData);
    formats.insert(549480509, ObjectFormatKind::Omni);
    formats.insert(954499543, ObjectFormatKind::ParticlesData);
    formats.insert(866453734, ObjectFormatKind::RotShape);
    formats.insert(1625945536, ObjectFormatKind::RotShapeData);
    formats.insert(705810152, ObjectFormatKind::Rtc);
    formats.insert(3611002348, ObjectFormatKind::Skel);
    formats.insert(1135194223, ObjectFormatKind::Spline);
    formats.insert(1910554652, ObjectFormatKind::SplineGraph);
    formats.insert(1706265229, ObjectFormatKind::Surface);
    formats.insert(3747817665, ObjectFormatKind::SurfaceDatas);
    formats.insert(1391959958, ObjectFormatKind::UserDefine);
    formats.insert(1114947943, ObjectFormatKind::Warp);
    formats.insert(968261323, ObjectFormatKind::World);
    formats.insert(2906362741, ObjectFormatKind::WorldRef);
    assert(formats@ =~= spec_shared_formats());
    let (material, mesh, skin, node) = if bytes_eq(
        version,
        "v1.381.67.09 - Asobo Studio - Internal Cross Technology".as_bytes(),
    ) || bytes_eq(version, "v1.381.66.09 - Asobo Studio - Internal Cross Technology".as_bytes()) {
        (ObjectFormatKind::Material, ObjectFormatKind::Mesh, ObjectFormatKind::Skin, ObjectFormatKind::Node)
    } else if bytes_eq(version, "v1.381.65.09 - Asobo Studio - Internal Cross Technology".as_bytes())
        || bytes_eq(version, "v1.381.64.09 - Asobo Studio - Internal Cross Technology".as_bytes()) {
        (ObjectFormatKind::Material, ObjectFormatKind::MeshAlt, ObjectFormatKind::Skin, ObjectFormatKind::Node)
    } else if bytes_eq(version, "v1.379.60.09 - Asobo Studio - Internal Cross Technology".as_bytes()) {
        (ObjectFormatKind::Material, ObjectFormatKind::MeshAltAlt, ObjectFormatKind::Skin, ObjectFormatKind::Node)
    } else if bytes_eq(version, "v1.325.50.07 - Asobo Studio - Internal Cross Technology".as_bytes()) {
        (ObjectFormatKind::MaterialAltAlt, ObjectFormatKind::MeshAltAlt, ObjectFormatKind::SkinAlt, ObjectFormatKind::NodeAlt)
    } else {
        (ObjectFormatKind::MaterialAlt, ObjectFormatKind::MeshAltAltAlt, ObjectFormatKind::SkinAlt, ObjectFormatKind::NodeAlt)
    };
    assert(spec_version_formats(version@) == Some((material, mesh, skin, node)));
    formats.insert(2204276779, material);
    formats.insert(1387343541, mesh);
    formats.insert(1396791303, skin);
    formats.insert(2245010728, node);
    formats
}

} // verus!
