//! The object formats: what an object's class object (its header) and data hold, for the
//! formats that keep to integers and bytes.
use vstd::prelude::*;
use crate::bytes::{spec_le_u32, spec_le_u16, le32_bytes, le16_bytes, read_le_u32, read_le_u16, read_le_i16, push_le_u32, push_le_u16, push_words, push_bytes, lemma_le32_roundtrip, lemma_le16_roundtrip};
use crate::layout::{pascal_words_at, pascal_words_bytes, lemma_pascal_words_at_of, lemma_le32_in};
use crate::fuel_dpc::read_at;
use crate::extract::copy_range;

verus! {

/// The class object most formats share: a friendly name's crc32, and, when the class object
/// holds more, a length-counted list of crc32s.
pub struct ResourceObjectZ {
    pub friendly_name_crc32: u32,
    pub crc32s: Option<Vec<u32>>,
}

impl View for ResourceObjectZ {
    type V = (u32, Option<Seq<u32>>);

    open spec fn view(&self) -> (u32, Option<Seq<u32>>) {
        (
            self.friendly_name_crc32,
            match &self.crc32s {
                Some(v) => Some(v@),
                None => None,
            },
        )
    }
}

/// Reading a resource object that fills `s` exactly.
pub open spec fn spec_parse_resource_object(s: Seq<u8>) -> Option<(u32, Option<Seq<u32>>)> {
    if s.len() < 4 {
        None
    } else if s.len() == 4 {
        Some((spec_le_u32(s, 0), None))
    } else {
        match pascal_words_at(s, 4) {
            None => None,
            Some((ws, end)) => if end == s.len() {
                Some((spec_le_u32(s, 0), Some(ws)))
            } else {
                None
            },
        }
    }
}

/// The bytes of a resource object.
pub open spec fn spec_resource_object_bytes(v: (u32, Option<Seq<u32>>)) -> Seq<u8> {
    le32_bytes(v.0) + match v.1 {
        Some(ws) => pascal_words_bytes(ws),
        None => Seq::empty(),
    }
}

/// Reads the next `n` little-endian words... of `buf` from `off`: the length-counted run at
/// `off`.
fn parse_pascal_u32s(buf: &[u8], off: usize) -> (r: Option<(Vec<u32>, usize)>)
    ensures
        match r {
            Some((v, o)) => pascal_words_at(buf@, off as int) == Some((v@, o as int)),
            None => pascal_words_at(buf@, off as int) is None,
        },
{
    if off > buf.len() || buf.len() - off < 4 {
        return None;
    }
    let n = read_le_u32(buf, off);
    if (n as usize) > (buf.len() - off - 4) / 4 {
        return None;
    }
    let v = crate::bytes::read_words(buf, off + 4, n as usize);
    Some((v, off + 4 + 4 * (n as usize)))
}

impl ResourceObjectZ {
    /// Reads a resource object that fills `buf` exactly; `None` otherwise.
    pub fn parse(buf: &[u8]) -> (r: Option<ResourceObjectZ>)
        ensures
            match r {
                Some(v) => spec_parse_resource_object(buf@) == Some(v@),
                None => spec_parse_resource_object(buf@) is None,
            },
    {
        if buf.len() < 4 {
            return None;
        }
        let crc = read_le_u32(buf, 0);
        if buf.len() == 4 {
            return Some(ResourceObjectZ { friendly_name_crc32: crc, crc32s: None });
        }
        match parse_pascal_u32s(buf, 4) {
            None => None,
            Some((ws, end)) => if end == buf.len() {
                Some(ResourceObjectZ { friendly_name_crc32: crc, crc32s: Some(ws) })
            } else {
                None
            },
        }
    }

    /// Appends the resource object's bytes to `out`.
    pub fn write(&self, out: &mut Vec<u8>)
        requires
            self.crc32s matches Some(v) ==> v@.len() <= u32::MAX,
        ensures
            final(out)@ == old(out)@ + spec_resource_object_bytes(self@),
    {
        push_le_u32(out, self.friendly_name_crc32);
        match &self.crc32s {
            Some(v) => {
                push_le_u32(out, v.len() as u32);
                push_words(out, v.as_slice());
                assert(final(out)@ =~= old(out)@ + spec_resource_object_bytes(self@));
            },
            None => {
                assert(out@ =~= old(out)@ + spec_resource_object_bytes(self@));
            },
        }
    }
}

/// Round trip of the resource object: reading back its bytes gives it.
pub proof fn lemma_resource_object_roundtrip(v: (u32, Option<Seq<u32>>))
    requires
        v.1 matches Some(ws) ==> ws.len() <= u32::MAX,
    ensures
        spec_parse_resource_object(spec_resource_object_bytes(v)) == Some(v),
{
    let s = spec_resource_object_bytes(v);
    lemma_le32_in(Seq::empty(), v.0, s.skip(4));
    assert(Seq::<u8>::empty() + le32_bytes(v.0) + s.skip(4) =~= s);
    match v.1 {
        Some(ws) => {
            let pb = pascal_words_bytes(ws);
            crate::bytes::lemma_words_bytes_len(ws);
            assert forall|k: int| 0 <= k < pb.len() implies s[4 + k] == #[trigger] pb[k] by {}
            lemma_pascal_words_at_of(s, 4, ws);
        },
        None => {},
    }
}

/// The binary format: a resource object and raw data.
pub struct BinaryObjectFormat {}

impl BinaryObjectFormat {
    /// The binary format.
    pub fn new() -> (r: BinaryObjectFormat) {
        BinaryObjectFormat {}
    }
}

/// The user-defined format: a resource object and a length-counted text.
pub struct UserDefineObjectFormat {}

impl UserDefineObjectFormat {
    /// The user-defined format.
    pub fn new() -> (r: UserDefineObjectFormat) {
        UserDefineObjectFormat {}
    }

    /// The text a user-defined object's data holds: its length's worth of bytes after the
    /// length (zeros past the data's end); `None` when the data cannot hold the length.
    pub fn text(&self, body: &[u8]) -> (r: Option<Vec<u8>>)
        ensures
            r is Some <==> body@.len() >= 4,
            r matches Some(t) ==> t@ == read_at(body@, 4, spec_le_u32(body@, 0) as nat),
    {
        if body.len() < 4 {
            return None;
        }
        let n = read_le_u32(body, 0);
        let (t, _p) = crate::fuel_dpc::read_file_at(body, 4, n as usize);
        Some(t)
    }

    /// The data of a user-defined object with text `text`: its length, then the text.
    pub fn body(&self, text: &[u8]) -> (r: Vec<u8>)
        requires
            text@.len() <= u32::MAX,
        ensures
            r@ == le32_bytes(text@.len() as u32) + text@,
    {
        let mut out: Vec<u8> = Vec::new();
        push_le_u32(&mut out, text.len() as u32);
        push_bytes(&mut out, text);
        out
    }
}

/// Round trip of the user-defined data: the data written for the text read from a body
/// whose length word counts exactly the bytes after it is that body.
pub proof fn lemma_user_define_body_roundtrip(b: Seq<u8>)
    requires
        b.len() >= 4,
        b.len() == 4 + spec_le_u32(b, 0),
    ensures
        le32_bytes(read_at(b, 4, spec_le_u32(b, 0) as nat).len() as u32) + read_at(
            b,
            4,
            spec_le_u32(b, 0) as nat,
        ) == b,
{
    let n = spec_le_u32(b, 0);
    crate::bytes::lemma_le32_bytes_of(b, 0);
    assert(read_at(b, 4, n as nat) =~= b.skip(4));
    assert(b.subrange(0, 4) + b.skip(4) =~= b);
}

/// Round trip of the user-defined text.
pub proof fn lemma_user_define_roundtrip(text: Seq<u8>)
    requires
        text.len() <= u32::MAX,
    ensures
        read_at(le32_bytes(text.len() as u32) + text, 4, text.len()) == text,
        spec_le_u32(le32_bytes(text.len() as u32) + text, 0) == text.len(),
{
    lemma_le32_in(Seq::empty(), text.len() as u32, text);
    assert(Seq::<u8>::empty() + le32_bytes(text.len() as u32) + text =~= le32_bytes(text.len() as u32) + text);
    assert(read_at(le32_bytes(text.len() as u32) + text, 4, text.len()) =~= text);
}

/// The sound format: a resource header with the sample rate, and 16-bit mono samples.
pub struct SoundObjectFormat {}

impl SoundObjectFormat {
    /// The sound format.
    pub fn new() -> (r: SoundObjectFormat) {
        SoundObjectFormat {}
    }
}

/// The class object of a sound.
#[derive(Clone, Copy, Debug, PartialEq, Eq, Structural)]
pub struct SoundZHeader {
    pub friendly_name_crc32: u32,
    pub sample_rate: u32,
    pub data_size: Option<u32>,
    pub sound_type: Option<u16>,
    pub zero: Option<u16>,
}

/// Reading a sound header that fills `s` exactly: the data size and sound type are there
/// when the sample rate is not 0, and a final zero word when two bytes are left after them.
pub open spec fn spec_parse_sound_header(s: Seq<u8>) -> Option<SoundZHeader> {
    if s.len() < 8 {
        None
    } else if spec_le_u32(s, 4) == 0 {
        if s.len() == 8 {
            Some(
                SoundZHeader {
                    friendly_name_crc32: spec_le_u32(s, 0),
                    sample_rate: 0,
                    data_size: None,
                    sound_type: None,
                    zero: None,
                },
            )
        } else {
            None
        }
    } else if s.len() < 14 {
        None
    } else if s.len() == 14 || s.len() == 16 {
        Some(
            SoundZHeader {
                friendly_name_crc32: spec_le_u32(s, 0),
                sample_rate: spec_le_u32(s, 4),
                data_size: Some(spec_le_u32(s, 8)),
                sound_type: Some(spec_le_u16(s, 12)),
                zero: if s.len() == 16 {
                    Some(spec_le_u16(s, 14))
                } else {
                    None
                },
            },
        )
    } else {
        None
    }
}

impl SoundZHeader {
    /// Reads a sound header that fills `buf` exactly; `None` otherwise.
    pub fn parse(buf: &[u8]) -> (r: Option<SoundZHeader>)
        ensures
            r == spec_parse_sound_header(buf@),
    {
        if buf.len() < 8 {
            return None;
        }
        let crc = read_le_u32(buf, 0);
        let rate = read_le_u32(buf, 4);
        if rate == 0 {
            if buf.len() == 8 {
                return Some(SoundZHeader {
                    friendly_name_crc32: crc,
                    sample_rate: 0,
                    data_size: None,
                    sound_type: None,
                    zero: None,
                });
            }
            return None;
        }
        if buf.len() < 14 {
            return None;
        }
        if buf.len() != 14 && buf.len() != 16 {
            return None;
        }
        let zero = if buf.len() == 16 {
            Some(read_le_u16(buf, 14))
        } else {
            None
        };
        Some(SoundZHeader {
            friendly_name_crc32: crc,
            sample_rate: rate,
            data_size: Some(read_le_u32(buf, 8)),
            sound_type: Some(read_le_u16(buf, 12)),
            zero: zero,
        })
    }

    /// The sample rate a sound is played at: its own, or 44100 when it says 0.
    pub fn playback_rate(&self) -> (r: u32)
        ensures
            r == (if self.sample_rate != 0 {
                self.sample_rate
            } else {
                44100
            }),
    {
        if self.sample_rate != 0 {
            self.sample_rate
        } else {
            44100
        }
    }
}

/// The 16-bit little-endian samples of a sound's data; a last odd byte is left out.
pub fn sound_samples(data: &[u8]) -> (r: Vec<i16>)
    ensures
        r@.len() == data@.len() / 2,
        forall|k: int| 0 <= k < r@.len() ==> #[trigger] r@[k] == spec_le_u16(data@, 2 * k) as i16,
{
    let n = data.len() / 2;
    let mut out: Vec<i16> = Vec::new();
    let mut k: usize = 0;
    while k < n
        invariant
            k <= n,
            n == data@.len() / 2,
            data@.len() == data.len(),
            out@.len() == k,
            forall|j: int| 0 <= j < k ==> #[trigger] out@[j] == spec_le_u16(data@, 2 * j) as i16,
        decreases n - k,
    {
        out.push(read_le_i16(data, 2 * k));
        k = k + 1;
    }
    out
}

/// The bitmap format: a DDS-like header and the pixel data.
pub struct BitmapObjectFormat {}

impl BitmapObjectFormat {
    /// The bitmap format.
    pub fn new() -> (r: BitmapObjectFormat) {
        BitmapObjectFormat {}
    }
}

/// The alternate bitmap format, whose data starts with its own header.
pub struct BitmapObjectFormatAlt {}

impl BitmapObjectFormatAlt {
    /// The alternate bitmap format.
    pub fn new() -> (r: BitmapObjectFormatAlt) {
        BitmapObjectFormatAlt {}
    }
}

/// The pixel formats a bitmap is written out in.
#[derive(Clone, Copy, Debug, PartialEq, Eq, Structural)]
pub enum D3DFormat {
    DXT1,
    DXT5,
    A8L8,
}

/// The class object of a bitmap; `u7` holds the bits of a 32-bit float.
#[derive(Clone, Copy, Debug, PartialEq, Eq, Structural)]
pub struct BitmapZHeader {
    pub friendly_name_crc32: u32,
    pub dw_caps2: u16,
    pub width: u32,
    pub height: u32,
    pub data_size: u32,
    pub u1: u8,
    pub bitmap_type: u8,
    pub zero: u16,
    pub u7: u32,
    pub dxt_version0: u8,
    pub mip_map_count: u8,
    pub u2: u8,
    pub u3: u8,
    pub dxt_version1: u8,
    pub u4: u8,
}

/// Reading a bitmap header that fills `s` exactly (32 bytes).
pub open spec fn spec_parse_bitmap_header(s: Seq<u8>) -> Option<BitmapZHeader> {
    if s.len() != 32 {
        None
    } else {
        Some(
            BitmapZHeader {
                friendly_name_crc32: spec_le_u32(s, 0),
                dw_caps2: spec_le_u16(s, 4),
                width: spec_le_u32(s, 6),
                height: spec_le_u32(s, 10),
                data_size: spec_le_u32(s, 14),
                u1: s[18],
                bitmap_type: s[19],
                zero: spec_le_u16(s, 20),
                u7: spec_le_u32(s, 22),
                dxt_version0: s[26],
                mip_map_count: s[27],
                u2: s[28],
                u3: s[29],
                dxt_version1: s[30],
                u4: s[31],
            },
        )
    }
}

/// The 32 bytes of a bitmap header.
pub open spec fn spec_bitmap_header_bytes(h: BitmapZHeader) -> Seq<u8> {
    le32_bytes(h.friendly_name_crc32) + le16_bytes(h.dw_caps2) + le32_bytes(h.width) + le32_bytes(
        h.height,
    ) + le32_bytes(h.data_size) + seq![h.u1, h.bitmap_type] + le16_bytes(h.zero) + le32_bytes(h.u7)
        + seq![h.dxt_version0, h.mip_map_count, h.u2, h.u3, h.dxt_version1, h.u4]
}

impl BitmapZHeader {
    /// Reads a bitmap header that fills `buf` exactly; `None` otherwise.
    pub fn parse(buf: &[u8]) -> (r: Option<BitmapZHeader>)
        ensures
            r == spec_parse_bitmap_header(buf@),
    {
        if buf.len() != 32 {
            return None;
        }
        Some(BitmapZHeader {
            friendly_name_crc32: read_le_u32(buf, 0),
            dw_caps2: read_le_u16(buf, 4),
            width: read_le_u32(buf, 6),
            height: read_le_u32(buf, 10),
            data_size: read_le_u32(buf, 14),
            u1: buf[18],
            bitmap_type: buf[19],
            zero: read_le_u16(buf, 20),
            u7: read_le_u32(buf, 22),
            dxt_version0: buf[26],
            mip_map_count: buf[27],
            u2: buf[28],
            u3: buf[29],
            dxt_version1: buf[30],
            u4: buf[31],
        })
    }

    /// Appends the header's 32 bytes to `out`.
    pub fn write(&self, out: &mut Vec<u8>)
        ensures
            final(out)@ == old(out)@ + spec_bitmap_header_bytes(*self),
    {
        push_le_u32(out, self.friendly_name_crc32);
        push_le_u16(out, self.dw_caps2);
        push_le_u32(out, self.width);
        push_le_u32(out, self.height);
        push_le_u32(out, self.data_size);
        out.push(self.u1);
        out.push(self.bitmap_type);
        push_le_u16(out, self.zero);
        push_le_u32(out, self.u7);
        out.push(self.dxt_version0);
        out.push(self.mip_map_count);
        out.push(self.u2);
        out.push(self.u3);
        out.push(self.dxt_version1);
        out.push(self.u4);
        assert(out@ =~= old(out)@ + spec_bitmap_header_bytes(*self));
    }

    /// The pixel format the bitmap is written out in: DXT1 for DXT version 14, else DXT5.
    pub fn format(&self) -> (r: D3DFormat)
        ensures
            r == (if self.dxt_version0 == 14 {
                D3DFormat::DXT1
            } else {
                D3DFormat::DXT5
            }),
    {
        if self.dxt_version0 == 14 {
            D3DFormat::DXT1
        } else {
            D3DFormat::DXT5
        }
    }
}

/// The little-endian `u16` of `v`'s bytes at `off` of `s`, wherever they stand.
proof fn lemma_le16_at(s: Seq<u8>, off: int, v: u16)
    requires
        0 <= off,
        off + 2 <= s.len(),
        s[off] == le16_bytes(v)[0],
        s[off + 1] == le16_bytes(v)[1],
    ensures
        spec_le_u16(s, off) == v,
{
    lemma_le16_roundtrip(v);
}

/// The little-endian `u32` of `v`'s bytes at `off` of `s`, wherever they stand.
proof fn lemma_le32_at(s: Seq<u8>, off: int, v: u32)
    requires
        0 <= off,
        off + 4 <= s.len(),
        s[off] == le32_bytes(v)[0],
        s[off + 1] == le32_bytes(v)[1],
        s[off + 2] == le32_bytes(v)[2],
        s[off + 3] == le32_bytes(v)[3],
    ensures
        spec_le_u32(s, off) == v,
{
    lemma_le32_roundtrip(v);
}

/// Round trip of the bitmap header.
pub proof fn lemma_bitmap_header_roundtrip(h: BitmapZHeader)
    ensures
        spec_parse_bitmap_header(spec_bitmap_header_bytes(h)) == Some(h),
{
    let s = spec_bitmap_header_bytes(h);
    assert(s.len() == 32);
    lemma_le32_at(s, 0, h.friendly_name_crc32);
    lemma_le16_at(s, 4, h.dw_caps2);
    lemma_le32_at(s, 6, h.width);
    lemma_le32_at(s, 10, h.height);
    lemma_le32_at(s, 14, h.data_size);
    lemma_le16_at(s, 20, h.zero);
    lemma_le32_at(s, 22, h.u7);
}

/// The class object of an alternate bitmap.
#[derive(Clone, Copy, Debug, PartialEq, Eq, Structural)]
pub struct BitmapZHeaderAlternate {
    pub friendly_name_crc32: u32,
    pub zero0: u32,
    pub unknown0: u8,
    pub dxt_version0: u8,
    pub unknown1: u8,
    pub zero1: u16,
}

/// Reading an alternate bitmap header that fills `s` exactly (13 bytes).
pub open spec fn spec_parse_bitmap_header_alt(s: Seq<u8>) -> Option<BitmapZHeaderAlternate> {
    if s.len() != 13 {
        None
    } else {
        Some(
            BitmapZHeaderAlternate {
                friendly_name_crc32: spec_le_u32(s, 0),
                zero0: spec_le_u32(s, 4),
                unknown0: s[8],
                dxt_version0: s[9],
                unknown1: s[10],
                zero1: spec_le_u16(s, 11),
            },
        )
    }
}

/// The 13 bytes of an alternate bitmap header.
pub open spec fn spec_bitmap_header_alt_bytes(h: BitmapZHeaderAlternate) -> Seq<u8> {
    le32_bytes(h.friendly_name_crc32) + le32_bytes(h.zero0) + seq![h.unknown0, h.dxt_version0, h.unknown1]
        + le16_bytes(h.zero1)
}

impl BitmapZHeaderAlternate {
    /// Reads an alternate bitmap header that fills `buf` exactly; `None` otherwise.
    pub fn parse(buf: &[u8]) -> (r: Option<BitmapZHeaderAlternate>)
        ensures
            r == spec_parse_bitmap_header_alt(buf@),
    {
        if buf.len() != 13 {
            return None;
        }
        Some(BitmapZHeaderAlternate {
            friendly_name_crc32: read_le_u32(buf, 0),
            zero0: read_le_u32(buf, 4),
            unknown0: buf[8],
            dxt_version0: buf[9],
            unknown1: buf[10],
            zero1: read_le_u16(buf, 11),
        })
    }

    /// Appends the header's 13 bytes to `out`.
    pub fn write(&self, out: &mut Vec<u8>)
        ensures
            final(out)@ == old(out)@ + spec_bitmap_header_alt_bytes(*self),
    {
        push_le_u32(out, self.friendly_name_crc32);
        push_le_u32(out, self.zero0);
        out.push(self.unknown0);
        out.push(self.dxt_version0);
        out.push(self.unknown1);
        push_le_u16(out, self.zero1);
        assert(out@ =~= old(out)@ + spec_bitmap_header_alt_bytes(*self));
    }

    /// The pixel format the bitmap is written out in: A8L8 for DXT version 7, DXT1 for 14,
    /// else DXT5.
    pub fn format(&self) -> (r: D3DFormat)
        ensures
            r == (if self.dxt_version0 == 7 {
                D3DFormat::A8L8
            } else if self.dxt_version0 == 14 {
                D3DFormat::DXT1
            } else {
                D3DFormat::DXT5
            }),
    {
        if self.dxt_version0 == 7 {
            D3DFormat::A8L8
        } else if self.dxt_version0 == 14 {
            D3DFormat::DXT1
        } else {
            D3DFormat::DXT5
        }
    }
}

/// Round trip of the alternate bitmap header.
pub proof fn lemma_bitmap_header_alt_roundtrip(h: BitmapZHeaderAlternate)
    ensures
        spec_parse_bitmap_header_alt(spec_bitmap_header_alt_bytes(h)) == Some(h),
{
    let s = spec_bitmap_header_alt_bytes(h);
    lemma_le32_at(s, 0, h.friendly_name_crc32);
    lemma_le32_at(s, 4, h.zero0);
    lemma_le16_at(s, 11, h.zero1);
}

/// What the data of an alternate bitmap holds before its pixels.
pub struct BitmapZAlternateModel {
    pub width: u32,
    pub height: u32,
    pub zero0: u32,
    pub unknown0: u32,
    pub zero1: Option<u32>,
    pub unknown1: u16,
    pub unknown2: u8,
    pub data: Seq<u8>,
}

/// Reading the data of an alternate bitmap: four words, a zero word when the next four
/// bytes are zero, a `u16`, a byte, and the pixels.
pub open spec fn spec_parse_bitmap_alt(s: Seq<u8>) -> Option<BitmapZAlternateModel> {
    if s.len() < 20 {
        None
    } else {
        let z = spec_le_u32(s, 16) == 0;
        let off: int = if z {
            20
        } else {
            16
        };
        if off + 3 > s.len() {
            None
        } else {
            Some(
                BitmapZAlternateModel {
                    width: spec_le_u32(s, 0),
                    height: spec_le_u32(s, 4),
                    zero0: spec_le_u32(s, 8),
                    unknown0: spec_le_u32(s, 12),
                    zero1: if z {
                        Some(0u32)
                    } else {
                        None
                    },
                    unknown1: spec_le_u16(s, off),
                    unknown2: s[off + 2],
                    data: s.skip(off + 3),
                },
            )
        }
    }
}

/// The data of an alternate bitmap.
pub struct BitmapZAlternate {
    pub width: u32,
    pub height: u32,
    pub zero0: u32,
    pub unknown0: u32,
    pub zero1: Option<u32>,
    pub unknown1: u16,
    pub unknown2: u8,
    pub data: Vec<u8>,
}

impl View for BitmapZAlternate {
    type V = BitmapZAlternateModel;

    open spec fn view(&self) -> BitmapZAlternateModel {
        BitmapZAlternateModel {
            width: self.width,
            height: self.height,
            zero0: self.zero0,
            unknown0: self.unknown0,
            zero1: self.zero1,
            unknown1: self.unknown1,
            unknown2: self.unknown2,
            data: self.data@,
        }
    }
}

/// The bytes of an alternate bitmap's data.
pub open spec fn spec_bitmap_alt_bytes(b: BitmapZAlternateModel) -> Seq<u8> {
    le32_bytes(b.width) + le32_bytes(b.height) + le32_bytes(b.zero0) + le32_bytes(b.unknown0)
        + match b.zero1 {
        Some(z) => le32_bytes(z),
        None => Seq::empty(),
    } + le16_bytes(b.unknown1) + seq![b.unknown2] + b.data
}

impl BitmapZAlternate {
    /// Reads the data of an alternate bitmap; `None` when it is too short.
    pub fn parse(buf: &[u8]) -> (r: Option<BitmapZAlternate>)
        ensures
            match r {
                Some(b) => spec_parse_bitmap_alt(buf@) == Some(b@),
                None => spec_parse_bitmap_alt(buf@) is None,
            },
    {
        if buf.len() < 20 {
            return None;
        }
        let z = read_le_u32(buf, 16) == 0;
        let off: usize = if z {
            20
        } else {
            16
        };
        if buf.len() - off < 3 {
            return None;
        }
        let data = copy_range(buf, off + 3, buf.len());
        assert(data@ =~= buf@.skip(off + 3));
        Some(BitmapZAlternate {
            width: read_le_u32(buf, 0),
            height: read_le_u32(buf, 4),
            zero0: read_le_u32(buf, 8),
            unknown0: read_le_u32(buf, 12),
            zero1: if z {
                Some(0)
            } else {
                None
            },
            unknown1: read_le_u16(buf, off),
            unknown2: buf[off + 2],
            data: data,
        })
    }

    /// Appends the data's bytes to `out`.
    pub fn write(&self, out: &mut Vec<u8>)
        ensures
            final(out)@ == old(out)@ + spec_bitmap_alt_bytes(self@),
    {
        push_le_u32(out, self.width);
        push_le_u32(out, self.height);
        push_le_u32(out, self.zero0);
        push_le_u32(out, self.unknown0);
        let ghost mid = out@;
        match self.zero1 {
            Some(z) => push_le_u32(out, z),
            None => {},
        }
        push_le_u16(out, self.unknown1);
        out.push(self.unknown2);
        push_bytes(out, self.data.as_slice());
        assert(out@ =~= old(out)@ + spec_bitmap_alt_bytes(self@));
    }
}

/// Round trip of an alternate bitmap's data, when its optional zero word is there exactly
/// when the bytes after the four words would read as zero.
pub proof fn lemma_bitmap_alt_roundtrip(b: BitmapZAlternateModel)
    requires
        b.zero1 matches Some(z) ==> z == 0,
        b.zero1 is None ==> b.data.len() >= 1 && spec_le_u32(
            le16_bytes(b.unknown1) + seq![b.unknown2] + b.data,
            0,
        ) != 0,
    ensures
        spec_parse_bitmap_alt(spec_bitmap_alt_bytes(b)) == Some(b),
{
    let s = spec_bitmap_alt_bytes(b);
    lemma_le32_at(s, 0, b.width);
    lemma_le32_at(s, 4, b.height);
    lemma_le32_at(s, 8, b.zero0);
    lemma_le32_at(s, 12, b.unknown0);
    match b.zero1 {
        Some(z) => {
            lemma_le32_at(s, 16, z);
            lemma_le16_at(s, 20, b.unknown1);
            assert(s.skip(23) =~= b.data);
        },
        None => {
            let t = le16_bytes(b.unknown1) + seq![b.unknown2] + b.data;
            assert(s[16] == t[0] && s[17] == t[1] && s[18] == t[2] && s[19] == t[3]);
            lemma_le16_at(s, 16, b.unknown1);
            assert(s.skip(19) =~= b.data);
        },
    }
}

/// The data of a mesh's data object: five words.
#[derive(Clone, Copy, Debug, PartialEq, Eq, Structural)]
pub struct MeshDataZ {
    pub not_traffic_tm_or_p_moto: u32,
    pub zero0: u32,
    pub zero1: u32,
    pub zero2: u32,
    pub zero3: u32,
}

impl MeshDataZ {
    /// Reads a mesh data object's data that fills `buf` exactly (20 bytes).
    pub fn parse(buf: &[u8]) -> (r: Option<MeshDataZ>)
        ensures
            r is Some <==> buf@.len() == 20,
            r matches Some(m) ==> m == (MeshDataZ {
                not_traffic_tm_or_p_moto: spec_le_u32(buf@, 0),
                zero0: spec_le_u32(buf@, 4),
                zero1: spec_le_u32(buf@, 8),
                zero2: spec_le_u32(buf@, 12),
                zero3: spec_le_u32(buf@, 16),
            }),
    {
        if buf.len() != 20 {
            return None;
        }
        Some(MeshDataZ {
            not_traffic_tm_or_p_moto: read_le_u32(buf, 0),
            zero0: read_le_u32(buf, 4),
            zero1: read_le_u32(buf, 8),
            zero2: read_le_u32(buf, 12),
            zero3: read_le_u32(buf, 16),
        })
    }
}

/// The data of a surface's data object: one word.
#[derive(Clone, Copy, Debug, PartialEq, Eq, Structural)]
pub struct SurfaceDatasZ {
    pub one: u32,
}

impl SurfaceDatasZ {
    /// Reads a surface data object's data that fills `buf` exactly (4 bytes).
    pub fn parse(buf: &[u8]) -> (r: Option<SurfaceDatasZ>)
        ensures
            r is Some <==> buf@.len() == 4,
            r matches Some(m) ==> m.one == spec_le_u32(buf@, 0),
    {
        if buf.len() != 4 {
            return None;
        }
        Some(SurfaceDatasZ { one: read_le_u32(buf, 0) })
    }
}

/// The data of a rotating shape's data object.
pub struct RotShapeDataZ {
    pub one: u32,
    pub shorts: Vec<u16>,
    pub padding: Vec<u8>,
}

/// The `n` little-endian `u16`s of `s` from `off` on.
pub open spec fn halves_at(s: Seq<u8>, off: int, n: nat) -> Seq<u16> {
    Seq::new(n, |j: int| spec_le_u16(s, off + 2 * j))
}

impl RotShapeDataZ {
    /// Reads a rotating shape's data that fills `buf` exactly: a word, a length-counted run
    /// of `u16`s, and 28 bytes of padding for each of them.
    pub fn parse(buf: &[u8]) -> (r: Option<RotShapeDataZ>)
        ensures
            r is Some <==> (buf@.len() >= 8 && buf@.len() == 8 + 30 * (spec_le_u32(buf@, 4) as int)),
            r matches Some(m) ==> {
                let n = spec_le_u32(buf@, 4) as int;
                &&& m.one == spec_le_u32(buf@, 0)
                &&& m.shorts@ == halves_at(buf@, 8, n as nat)
                &&& m.padding@ == buf@.subrange(8 + 2 * n, buf@.len() as int)
            },
    {
        if buf.len() < 8 {
            return None;
        }
        let one = read_le_u32(buf, 0);
        let n = read_le_u32(buf, 4) as usize;
        if n > (buf.len() - 8) / 30 || buf.len() - 8 != 30 * n {
            return None;
        }
        let mut shorts: Vec<u16> = Vec::new();
        let mut j: usize = 0;
        while j < n
            invariant
                j <= n,
                8 + 30 * n == buf@.len(),
                buf@.len() == buf.len(),
                shorts@ == halves_at(buf@, 8, j as nat),
            decreases n - j,
        {
            shorts.push(read_le_u16(buf, 8 + 2 * j));
            j = j + 1;
            assert(shorts@ =~= halves_at(buf@, 8, j as nat));
        }
        let padding = copy_range(buf, 8 + 2 * n, buf.len());
        Some(RotShapeDataZ { one: one, shorts: shorts, padding: padding })
    }
}

/// A child of a game object: a NUL-terminated name, whether it is in the world, and the
/// crc32s it refers to.
pub struct GameObjZChildModel {
    pub name: Seq<u8>,
    pub is_in_world: u32,
    pub crc32s: Seq<u32>,
}

/// Reading the game object child at `off` of `s`: a length-counted name whose last byte is
/// its terminator (the length must be at least 1), a word, and a length-counted run of
/// crc32s; and the offset after it.
pub open spec fn spec_game_obj_child_at(s: Seq<u8>, off: int) -> Option<(GameObjZChildModel, int)> {
    if off < 0 || off + 4 > s.len() {
        None
    } else {
        let n = spec_le_u32(s, off) as int;
        if n == 0 || off + 4 + n + 4 > s.len() {
            None
        } else {
            match pascal_words_at(s, off + 4 + n + 4) {
                None => None,
                Some((ws, end)) => Some(
                    (
                        GameObjZChildModel {
                            name: s.subrange(off + 4, off + 4 + n - 1),
                            is_in_world: spec_le_u32(s, off + 4 + n),
                            crc32s: ws,
                        },
                        end,
                    ),
                ),
            }
        }
    }
}

/// Reading `k` game object children one after the other from `off` of `s`.
pub open spec fn spec_game_obj_children(s: Seq<u8>, off: int, k: nat) -> Option<(Seq<GameObjZChildModel>, int)>
    decreases k,
{
    if k == 0 {
        Some((Seq::empty(), off))
    } else {
        match spec_game_obj_child_at(s, off) {
            None => None,
            Some((c, next)) => match spec_game_obj_children(s, next, (k - 1) as nat) {
                None => None,
                Some((rest, end)) => Some((seq![c] + rest, end)),
            },
        }
    }
}

/// Reading a game object's data that fills `s` exactly: a length-counted run of children.
pub open spec fn spec_parse_game_obj(s: Seq<u8>) -> Option<Seq<GameObjZChildModel>> {
    if s.len() < 4 {
        None
    } else {
        match spec_game_obj_children(s, 4, spec_le_u32(s, 0) as nat) {
            None => None,
            Some((cs, end)) => if end == s.len() {
                Some(cs)
            } else {
                None
            },
        }
    }
}

/// A child of a game object.
pub struct GameObjZChild {
    pub name: Vec<u8>,
    pub is_in_world: u32,
    pub crc32s: Vec<u32>,
}

impl View for GameObjZChild {
    type V = GameObjZChildModel;

    open spec fn view(&self) -> GameObjZChildModel {
        GameObjZChildModel { name: self.name@, is_in_world: self.is_in_world, crc32s: self.crc32s@ }
    }
}

/// `r` with `c` in front of its children.
pub open spec fn prepend_children(p: Seq<GameObjZChildModel>, r: Option<(Seq<GameObjZChildModel>, int)>) -> Option<(Seq<GameObjZChildModel>, int)> {
    match r {
        Some((rest, end)) => Some((p + rest, end)),
        None => None,
    }
}

/// Reads the game object child at `off` of `buf`.
fn parse_game_obj_child(buf: &[u8], off: usize) -> (r: Option<(GameObjZChild, usize)>)
    ensures
        match r {
            Some((c, next)) => spec_game_obj_child_at(buf@, off as int) == Some((c@, next as int)),
            None => spec_game_obj_child_at(buf@, off as int) is None,
        },
{
    if off > buf.len() || buf.len() - off < 4 {
        return None;
    }
    let n = read_le_u32(buf, off) as usize;
    if n == 0 || n > buf.len() - off - 4 || buf.len() - off - 4 - n < 4 {
        return None;
    }
    let name = copy_range(buf, off + 4, off + 4 + n - 1);
    let is_in_world = read_le_u32(buf, off + 4 + n);
    match parse_pascal_u32s(buf, off + 4 + n + 4) {
        None => None,
        Some((ws, end)) => Some((GameObjZChild { name: name, is_in_world: is_in_world, crc32s: ws }, end)),
    }
}

/// Reads a game object's data that fills `buf` exactly; `None` otherwise.
pub fn parse_game_obj(buf: &[u8]) -> (r: Option<Vec<GameObjZChild>>)
    ensures
        match r {
            Some(v) => spec_parse_game_obj(buf@) == Some(v@.map_values(|c: GameObjZChild| c@)),
            None => spec_parse_game_obj(buf@) is None,
        },
{
    if buf.len() < 4 {
        return None;
    }
    let k = read_le_u32(buf, 0);
    let mut v: Vec<GameObjZChild> = Vec::new();
    let mut off: usize = 4;
    let mut j: u32 = 0;
    while j < k
        invariant
            j <= k,
            k == spec_le_u32(buf@, 0),
            buf@.len() >= 4,
            spec_game_obj_children(buf@, 4, k as nat) == prepend_children(
                v@.map_values(|c: GameObjZChild| c@),
                spec_game_obj_children(buf@, off as int, (k - j) as nat),
            ),
        decreases k - j,
    {
        match parse_game_obj_child(buf, off) {
            Some((c, next)) => {
                let ghost before = v@.map_values(|c: GameObjZChild| c@);
                let ghost cm = c@;
                v.push(c);
                assert(v@.map_values(|c: GameObjZChild| c@) =~= before + seq![cm]);
                proof {
                    match spec_game_obj_children(buf@, next as int, (k - j - 1) as nat) {
                        Some((r2, end)) => {
                            assert(before + (seq![cm] + r2) =~= (before + seq![cm]) + r2);
                        },
                        None => {},
                    }
                }
                off = next;
                j = j + 1;
            },
            None => return None,
        }
    }
    assert(v@.map_values(|c: GameObjZChild| c@) + Seq::<GameObjZChildModel>::empty() =~= v@.map_values(|c: GameObjZChild| c@));
    if off != buf.len() {
        return None;
    }
    Some(v)
}

/// The crc32s a game object refers to without owning them: those of its children, one child
/// after the other.
pub open spec fn spec_game_obj_soft_links(cs: Seq<GameObjZChildModel>) -> Seq<u32>
    decreases cs.len(),
{
    if cs.len() == 0 {
        Seq::empty()
    } else {
        spec_game_obj_soft_links(cs.drop_last()) + cs.last().crc32s
    }
}

/// The crc32s the game object with `children` refers to without owning them.
pub fn game_obj_soft_links(children: &[GameObjZChild]) -> (r: Vec<u32>)
    ensures
        r@ == spec_game_obj_soft_links(children@.map_values(|c: GameObjZChild| c@)),
{
    let ghost cs = children@.map_values(|c: GameObjZChild| c@);
    let mut r: Vec<u32> = Vec::new();
    let mut i: usize = 0;
    while i < children.len()
        invariant
            i <= children@.len(),
            cs == children@.map_values(|c: GameObjZChild| c@),
            r@ == spec_game_obj_soft_links(cs.take(i as int)),
        decreases children@.len() - i,
    {
        let c = &children[i];
        let mut j: usize = 0;
        let ghost before = r@;
        while j < c.crc32s.len()
            invariant
                j <= c.crc32s@.len(),
                r@ == before + c.crc32s@.take(j as int),
            decreases c.crc32s@.len() - j,
        {
            r.push(c.crc32s[j]);
            j = j + 1;
            assert(r@ =~= before + c.crc32s@.take(j as int));
        }
        assert(cs.take(i + 1).drop_last() =~= cs.take(i as int));
        assert(c.crc32s@.take(j as int) =~= c.crc32s@);
        i = i + 1;
    }
    assert(cs.take(i as int) =~= cs);
    r
}

/// An entry of a material object: an array name's crc32 and the material animations' crc32s.
pub struct MaterialObjZEntryModel {
    pub array_name_crc32: u32,
    pub material_anim_crc32s: Seq<u32>,
}

/// Reading the material object entry at `off` of `s`, and the offset after it.
pub open spec fn spec_material_obj_entry_at(s: Seq<u8>, off: int) -> Option<(MaterialObjZEntryModel, int)> {
    if off < 0 || off + 4 > s.len() {
        None
    } else {
        match pascal_words_at(s, off + 4) {
            None => None,
            Some((ws, end)) => Some(
                (MaterialObjZEntryModel { array_name_crc32: spec_le_u32(s, off), material_anim_crc32s: ws }, end),
            ),
        }
    }
}

/// Reading `k` material object entries one after the other from `off` of `s`.
pub open spec fn spec_material_obj_entries(s: Seq<u8>, off: int, k: nat) -> Option<(Seq<MaterialObjZEntryModel>, int)>
    decreases k,
{
    if k == 0 {
        Some((Seq::empty(), off))
    } else {
        match spec_material_obj_entry_at(s, off) {
            None => None,
            Some((e, next)) => match spec_material_obj_entries(s, next, (k - 1) as nat) {
                None => None,
                Some((rest, end)) => Some((seq![e] + rest, end)),
            },
        }
    }
}

/// Reading a material object's data that fills `s` exactly: a length-counted run of entries.
pub open spec fn spec_parse_material_obj(s: Seq<u8>) -> Option<Seq<MaterialObjZEntryModel>> {
    if s.len() < 4 {
        None
    } else {
        match spec_material_obj_entries(s, 4, spec_le_u32(s, 0) as nat) {
            None => None,
            Some((es, end)) => if end == s.len() {
                Some(es)
            } else {
                None
            },
        }
    }
}

/// An entry of a material object.
pub struct MaterialObjZEntry {
    pub array_name_crc32: u32,
    pub material_anim_crc32s: Vec<u32>,
}

impl View for MaterialObjZEntry {
    type V = MaterialObjZEntryModel;

    open spec fn view(&self) -> MaterialObjZEntryModel {
        MaterialObjZEntryModel {
            array_name_crc32: self.array_name_crc32,
            material_anim_crc32s: self.material_anim_crc32s@,
        }
    }
}

/// `r` with `p` in front of its entries.
pub open spec fn prepend_entries(p: Seq<MaterialObjZEntryModel>, r: Option<(Seq<MaterialObjZEntryModel>, int)>) -> Option<(Seq<MaterialObjZEntryModel>, int)> {
    match r {
        Some((rest, end)) => Some((p + rest, end)),
        None => None,
    }
}

/// Reads a material object's data that fills `buf` exactly; `None` otherwise.
pub fn parse_material_obj(buf: &[u8]) -> (r: Option<Vec<MaterialObjZEntry>>)
    ensures
        match r {
            Some(v) => spec_parse_material_obj(buf@) == Some(v@.map_values(|e: MaterialObjZEntry| e@)),
            None => spec_parse_material_obj(buf@) is None,
        },
{
    if buf.len() < 4 {
        return None;
    }
    let k = read_le_u32(buf, 0);
    let mut v: Vec<MaterialObjZEntry> = Vec::new();
    let mut off: usize = 4;
    let mut j: u32 = 0;
    while j < k
        invariant
            j <= k,
            k == spec_le_u32(buf@, 0),
            buf@.len() >= 4,
            spec_material_obj_entries(buf@, 4, k as nat) == prepend_entries(
                v@.map_values(|e: MaterialObjZEntry| e@),
                spec_material_obj_entries(buf@, off as int, (k - j) as nat),
            ),
        decreases k - j,
    {
        if off > buf.len() || buf.len() - off < 4 {
            return None;
        }
        let name = read_le_u32(buf, off);
        match parse_pascal_u32s(buf, off + 4) {
            Some((ws, next)) => {
                let e = MaterialObjZEntry { array_name_crc32: name, material_anim_crc32s: ws };
                let ghost before = v@.map_values(|e: MaterialObjZEntry| e@);
                let ghost em = e@;
                v.push(e);
                assert(v@.map_values(|e: MaterialObjZEntry| e@) =~= before + seq![em]);
                proof {
                    match spec_material_obj_entries(buf@, next as int, (k - j - 1) as nat) {
                        Some((r2, end)) => {
                            assert(before + (seq![em] + r2) =~= (before + seq![em]) + r2);
                        },
                        None => {},
                    }
                }
                off = next;
                j = j + 1;
            },
            None => return None,
        }
    }
    assert(v@.map_values(|e: MaterialObjZEntry| e@) + Seq::<MaterialObjZEntryModel>::empty() =~= v@.map_values(|e: MaterialObjZEntry| e@));
    if off != buf.len() {
        return None;
    }
    Some(v)
}

/// The data of a material animation: seventeen words (the sixteenth the material's crc32)
/// and a byte.
pub struct MaterialAnimZ {
    pub words: Vec<u32>,
    pub unknown16: u8,
}

impl MaterialAnimZ {
    /// Reads a material animation's data that fills `buf` exactly (69 bytes).
    pub fn parse(buf: &[u8]) -> (r: Option<MaterialAnimZ>)
        ensures
            r is Some <==> buf@.len() == 69,
            r matches Some(m) ==> m.words@ == crate::bytes::words_at(buf@, 0, 17) && m.unknown16
                == buf@[68],
    {
        if buf.len() != 69 {
            return None;
        }
        Some(MaterialAnimZ { words: crate::bytes::read_words(buf, 0, 17), unknown16: buf[68] })
    }

    /// The crc32 of the animated material.
    pub fn material_crc32(&self) -> (r: u32)
        requires
            self.words@.len() == 17,
        ensures
            r == self.words@[15],
    {
        self.words[15]
    }
}


impl BitmapObjectFormat {
    /// Unpacks a bitmap's class object `header`, which must read as a bitmap header: the
    /// header and the pixel format its data is written in.
    pub fn unpack_header(&self, header: &[u8]) -> (r: (BitmapZHeader, D3DFormat))
        requires
            spec_parse_bitmap_header(header@) is Some,
        ensures
            spec_parse_bitmap_header(header@) == Some(r.0),
            r.1 == (if r.0.dxt_version0 == 14 {
                D3DFormat::DXT1
            } else {
                D3DFormat::DXT5
            }),
    {
        match BitmapZHeader::parse(header) {
            Some(h) => {
                let f = h.format();
                (h, f)
            },
            None => vstd::pervasive::unreached(),
        }
    }
}

impl BitmapObjectFormatAlt {
    /// Unpacks an alternate bitmap's class object `header` and data `body`, which must read
    /// as an alternate bitmap header and an alternate bitmap: both, and the pixel format the
    /// data is written in.
    pub fn unpack(&self, header: &[u8], body: &[u8]) -> (r: (BitmapZHeaderAlternate, BitmapZAlternate, D3DFormat))
        requires
            spec_parse_bitmap_header_alt(header@) is Some,
            spec_parse_bitmap_alt(body@) is Some,
        ensures
            spec_parse_bitmap_header_alt(header@) == Some(r.0),
            spec_parse_bitmap_alt(body@) == Some(r.1@),
            r.2 == (if r.0.dxt_version0 == 7 {
                D3DFormat::A8L8
            } else if r.0.dxt_version0 == 14 {
                D3DFormat::DXT1
            } else {
                D3DFormat::DXT5
            }),
    {
        let h = match BitmapZHeaderAlternate::parse(header) {
            Some(h) => h,
            None => vstd::pervasive::unreached(),
        };
        let b = match BitmapZAlternate::parse(body) {
            Some(b) => b,
            None => vstd::pervasive::unreached(),
        };
        let f = h.format();
        (h, b, f)
    }
}

} // verus!
