//! Image resources: thumbnails, color samplers and the other document-level
//! records of the image resource section.

use crate::bytes::{be16, be32, lemma_read16_at, lemma_read32_at, i16_bits, i32_bits, push_be16, push_be32, read16, read32, u16_as_i16, u32_as_i32, u16_from_be, u32_from_be, i16_from_bits, i32_from_bits, bits_from_i16, bits_from_i32};
use crate::error::{invalid_format, PsdResult, error_detail};
use crate::io::reader::{code_units, PsdReader};
use crate::io::writer::PsdWriter;
use crate::psd::{position_coordinates, position_version, ColorSampler, ColorSamplerPosition};
use crate::strings::utf8_text;
use crate::types::Color;
use vstd::prelude::*;
use vstd::string::StringSliceAdditionalSpecFns;

verus! {

/// Encoding of a thumbnail's pixels.
#[derive(Debug, Clone, Copy, PartialEq, Eq, Structural)]
pub enum ThumbnailFormat {
    RawRgb,
    JpegRgb,
}

/// Thumbnail (resource 1036).
#[derive(Debug, Clone, PartialEq)]
pub struct Thumbnail {
    pub width: u32,
    pub height: u32,
    pub format: ThumbnailFormat,
    pub data: Vec<u8>,
}

/// The 28-byte header in front of a thumbnail's data.
#[derive(Debug, Clone, Copy, PartialEq, Eq, Structural)]
pub struct ThumbnailHeaderRecord {
    pub format: u32,
    pub width: u32,
    pub height: u32,
    pub width_bytes: u32,
    pub total_size: u32,
    pub compressed_size: u32,
    pub bits_per_pixel: u16,
    pub planes: u16,
}

/// The big-endian bytes of a thumbnail header, fields in order.
pub open spec fn thumbnail_header_bytes(h: ThumbnailHeaderRecord) -> Seq<u8> {
    be32(h.format) + be32(h.width) + be32(h.height) + be32(h.width_bytes) + be32(h.total_size)
        + be32(h.compressed_size) + be16(h.bits_per_pixel) + be16(h.planes)
}

/// The thumbnail header stored at the start of `s`.
pub open spec fn thumbnail_header_at(s: Seq<u8>) -> ThumbnailHeaderRecord {
    ThumbnailHeaderRecord {
        format: read32(s, 0),
        width: read32(s, 4),
        height: read32(s, 8),
        width_bytes: read32(s, 12),
        total_size: read32(s, 16),
        compressed_size: read32(s, 20),
        bits_per_pixel: read16(s, 24),
        planes: read16(s, 26),
    }
}

impl ThumbnailHeaderRecord {
    /// The header's 28 big-endian bytes.
    pub fn encode(&self) -> (r: Vec<u8>)
        ensures
            r@ == thumbnail_header_bytes(*self),
    {
        let mut out: Vec<u8> = Vec::new();
        push_be32(&mut out, self.format);
        push_be32(&mut out, self.width);
        push_be32(&mut out, self.height);
        push_be32(&mut out, self.width_bytes);
        push_be32(&mut out, self.total_size);
        push_be32(&mut out, self.compressed_size);
        push_be16(&mut out, self.bits_per_pixel);
        push_be16(&mut out, self.planes);
        out
    }

    /// Reads a header from the first 28 bytes; fewer bytes are an invalid
    /// format.
    pub fn decode(bytes: &[u8]) -> (r: PsdResult<ThumbnailHeaderRecord>)
        ensures
            r is Ok <==> bytes@.len() >= 28,
            r matches Ok(h) ==> h == thumbnail_header_at(bytes@),
            r matches Err(e) ==> e is InvalidFormat,
    {
        if bytes.len() < 28 {
            return Err(invalid_format("thumbnail header: not enough bytes"));
        }
        Ok(ThumbnailHeaderRecord {
            format: u32_from_be(bytes[0], bytes[1], bytes[2], bytes[3]),
            width: u32_from_be(bytes[4], bytes[5], bytes[6], bytes[7]),
            height: u32_from_be(bytes[8], bytes[9], bytes[10], bytes[11]),
            width_bytes: u32_from_be(bytes[12], bytes[13], bytes[14], bytes[15]),
            total_size: u32_from_be(bytes[16], bytes[17], bytes[18], bytes[19]),
            compressed_size: u32_from_be(bytes[20], bytes[21], bytes[22], bytes[23]),
            bits_per_pixel: u16_from_be(bytes[24], bytes[25]),
            planes: u16_from_be(bytes[26], bytes[27]),
        })
    }
}

/// A thumbnail header decodes back from its encoding.
pub proof fn law_thumbnail_header_roundtrip(h: ThumbnailHeaderRecord)
    ensures
        thumbnail_header_bytes(h).len() == 28,
        thumbnail_header_at(thumbnail_header_bytes(h)) == h,
{
    let s = thumbnail_header_bytes(h);
    assert(s.len() == 28);
    assert(s.subrange(0, 4) =~= be32(h.format));
    lemma_read32_at(s, 0, h.format);
    assert(s.subrange(4, 8) =~= be32(h.width));
    lemma_read32_at(s, 4, h.width);
    assert(s.subrange(8, 12) =~= be32(h.height));
    lemma_read32_at(s, 8, h.height);
    assert(s.subrange(12, 16) =~= be32(h.width_bytes));
    lemma_read32_at(s, 12, h.width_bytes);
    assert(s.subrange(16, 20) =~= be32(h.total_size));
    lemma_read32_at(s, 16, h.total_size);
    assert(s.subrange(20, 24) =~= be32(h.compressed_size));
    lemma_read32_at(s, 20, h.compressed_size);
    assert(s.subrange(24, 26) =~= be16(h.bits_per_pixel));
    lemma_read16_at(s, 24, h.bits_per_pixel);
    assert(s.subrange(26, 28) =~= be16(h.planes));
    lemma_read16_at(s, 26, h.planes);
}

/// The row stride of a 24-bit thumbnail of the given width, padded to four
/// bytes.
pub open spec fn thumbnail_width_bytes(width: u32) -> int {
    ((width * 24 + 31) / 32) * 4
}

/// Whether the header sizes of a thumbnail fit their 32-bit fields.
pub open spec fn thumbnail_sizes_fit(width: u32, height: u32) -> bool {
    &&& width * 24 + 31 <= u32::MAX
    &&& thumbnail_width_bytes(width) * height <= u32::MAX
}

/// The header written for a thumbnail: format code, dimensions, padded
/// stride, uncompressed size, data length, 24 bits per pixel, one plane.
pub open spec fn thumbnail_header_of(
    width: u32,
    height: u32,
    format: ThumbnailFormat,
    data_len: nat,
) -> ThumbnailHeaderRecord {
    ThumbnailHeaderRecord {
        format: match format {
            ThumbnailFormat::RawRgb => 0,
            ThumbnailFormat::JpegRgb => 1,
        },
        width,
        height,
        width_bytes: thumbnail_width_bytes(width) as u32,
        total_size: (thumbnail_width_bytes(width) * height) as u32,
        compressed_size: data_len as u32,
        bits_per_pixel: 24,
        planes: 1,
    }
}

/// A thumbnail header names JPEG data with format 1 and raw RGB with 0,
/// stores 24 bits per pixel in one plane, rows padded to a multiple of four
/// bytes, and the data's length as its compressed size.
pub proof fn law_thumbnail_header(width: u32, height: u32, format: ThumbnailFormat, data_len: nat)
    requires
        thumbnail_sizes_fit(width, height),
        data_len <= u32::MAX,
    ensures
        ({
            let h = thumbnail_header_of(width, height, format, data_len);
            &&& h.format == 1 <==> format == ThumbnailFormat::JpegRgb
            &&& h.format == 0 <==> format == ThumbnailFormat::RawRgb
            &&& h.width == width && h.height == height
            &&& h.width_bytes % 4 == 0
            &&& 3 * width <= h.width_bytes < 3 * width + 4
            &&& h.total_size == h.width_bytes * height
            &&& h.compressed_size == data_len
            &&& h.bits_per_pixel == 24 && h.planes == 1
        }),
{
    let wb = thumbnail_width_bytes(width);
    assert(wb % 4 == 0 && 3 * width <= wb < 3 * width + 4) by (nonlinear_arith)
        requires
            wb == ((width * 24 + 31) / 32) * 4,
            width >= 0,
    ;
    assert(0 <= wb * height) by (nonlinear_arith)
        requires
            wb >= 0,
            height >= 0,
    ;
}

/// Builds the bytes of a thumbnail resource: its header, then its data.
pub fn build_thumbnail_resource(thumbnail: &Thumbnail) -> (r: Vec<u8>)
    requires
        thumbnail_sizes_fit(thumbnail.width, thumbnail.height),
    ensures
        r@ == thumbnail_header_bytes(
            thumbnail_header_of(
                thumbnail.width,
                thumbnail.height,
                thumbnail.format,
                thumbnail.data@.len(),
            ),
        ) + thumbnail.data@,
{
    let format: u32 = match thumbnail.format {
        ThumbnailFormat::RawRgb => 0,
        ThumbnailFormat::JpegRgb => 1,
    };
    let width_bytes = ((thumbnail.width * 24 + 31) / 32) * 4;
    assert(width_bytes * thumbnail.height <= u32::MAX);
    let total_size = width_bytes * thumbnail.height;
    let compressed_size = thumbnail.data.len() as u32;
    let header = ThumbnailHeaderRecord {
        format,
        width: thumbnail.width,
        height: thumbnail.height,
        width_bytes,
        total_size,
        compressed_size,
        bits_per_pixel: 24,
        planes: 1,
    };
    let mut bytes = header.encode();
    let ghost head = bytes@;
    let n = thumbnail.data.len();
    let mut i: usize = 0;
    while i < n
        invariant
            n == thumbnail.data@.len(),
            i <= n,
            bytes@ == head + thumbnail.data@.take(i as int),
        decreases n - i,
    {
        bytes.push(thumbnail.data[i]);
        i += 1;
        assert(bytes@ =~= head + thumbnail.data@.take(i as int));
    }
    assert(thumbnail.data@.take(n as int) =~= thumbnail.data@);
    bytes
}

/// Parses a thumbnail resource: the header, then as many data bytes as it
/// declares.  `None` when the bytes are too short for either.
pub fn parse_thumbnail_resource(bytes: &[u8]) -> (r: Option<Thumbnail>)
    ensures
        ({
            let s = bytes@;
            let n = read32(s, 20) as int;
            &&& r is Some <==> (s.len() >= 28 && 28 + n <= s.len())
            &&& r matches Some(t) ==> ({
                &&& t.width == read32(s, 4)
                &&& t.height == read32(s, 8)
                &&& t.format == (if read32(s, 0) == 1 {
                    ThumbnailFormat::JpegRgb
                } else {
                    ThumbnailFormat::RawRgb
                })
                &&& t.data@ == s.subrange(28, 28 + n)
            })
        }),
{
    let header = match ThumbnailHeaderRecord::decode(bytes) {
        Ok(h) => h,
        Err(_) => {
            return None;
        },
    };
    let len = bytes.len();
    if header.compressed_size as usize > len - 28 {
        return None;
    }
    let data_end = 28 + header.compressed_size as usize;
    let mut data: Vec<u8> = Vec::new();
    let mut i: usize = 28;
    while i < data_end
        invariant
            28 <= i <= data_end <= len,
            len == bytes@.len(),
            data@ == bytes@.subrange(28, i as int),
        decreases data_end - i,
    {
        data.push(bytes[i]);
        i += 1;
        assert(data@ =~= bytes@.subrange(28, i as int));
    }
    let format = if header.format == 1 {
        ThumbnailFormat::JpegRgb
    } else {
        ThumbnailFormat::RawRgb
    };
    Some(Thumbnail { width: header.width, height: header.height, format, data })
}

/// A thumbnail resource parses back to the thumbnail it was built from.
pub proof fn law_thumbnail_roundtrip(width: u32, height: u32, format: ThumbnailFormat, data: Seq<u8>)
    requires
        thumbnail_sizes_fit(width, height),
        data.len() <= u32::MAX,
    ensures
        ({
            let s = thumbnail_header_bytes(thumbnail_header_of(width, height, format, data.len()))
                + data;
            let n = read32(s, 20) as int;
            &&& s.len() >= 28 && 28 + n <= s.len()
            &&& read32(s, 4) == width
            &&& read32(s, 8) == height
            &&& (read32(s, 0) == 1) == (format == ThumbnailFormat::JpegRgb)
            &&& s.subrange(28, 28 + n) == data
        }),
{
    let h = thumbnail_header_of(width, height, format, data.len());
    let head = thumbnail_header_bytes(h);
    law_thumbnail_header_roundtrip(h);
    let s = head + data;
    assert(thumbnail_header_at(s) == thumbnail_header_at(head)) by {
        assert forall|k: int| 0 <= k < 28 implies s[k] == head[k] by {}
    }
    assert(s.subrange(28, 28 + data.len() as int) =~= data);
}

/// Color samplers (resource 1073): a record version and the samplers.
#[derive(Debug, Clone, PartialEq)]
pub struct ColorSamplersResource {
    pub version: u32,
    pub samplers: Vec<ColorSampler>,
}

/// Length of one sampler record of the given resource version.
pub open spec fn sampler_record_len(version: u32) -> int {
    if version == 1 {
        10
    } else {
        12
    }
}

/// The sampler stored at `off` in a resource of the given version:
/// coordinates, color space, and a depth word for version 2 and above.
pub open spec fn sampler_at(s: Seq<u8>, off: int, version: u32) -> ColorSampler {
    let horizontal = u32_as_i32(read32(s, off));
    let vertical = u32_as_i32(read32(s, off + 4));
    let depth = read16(s, off + 10);
    ColorSampler {
        position: if version == 1 {
            ColorSamplerPosition::V1 { horizontal, vertical }
        } else if version == 2 {
            ColorSamplerPosition::V2 { horizontal, vertical, depth }
        } else {
            ColorSamplerPosition::Unsupported {
                version,
                horizontal,
                vertical,
                depth: if version >= 2 {
                    Some(depth)
                } else {
                    None
                },
            }
        },
        color_space: u16_as_i16(read16(s, off + 8)),
    }
}

/// The version a color samplers resource declares; 0 when it is shorter
/// than its 8-byte header.
pub open spec fn samplers_version_of(s: Seq<u8>) -> u32 {
    if s.len() < 8 {
        0
    } else {
        read32(s, 0)
    }
}

/// How many sampler records are read: the declared count, cut to the
/// records that fit entirely.
pub open spec fn samplers_count_of(s: Seq<u8>) -> int {
    if s.len() < 8 {
        0
    } else {
        let declared = read32(s, 4) as int;
        let fit = (s.len() - 8) / sampler_record_len(read32(s, 0));
        if declared < fit {
            declared
        } else {
            fit
        }
    }
}

/// The samplers read from a color samplers resource.
pub open spec fn samplers_of(s: Seq<u8>) -> Seq<ColorSampler> {
    Seq::new(
        samplers_count_of(s) as nat,
        |k: int| sampler_at(s, 8 + k * sampler_record_len(read32(s, 0)), read32(s, 0)),
    )
}

/// Reads one sampler record.
fn read_sampler(bytes: &[u8], offset: usize, version: u32) -> (r: ColorSampler)
    requires
        offset + sampler_record_len(version) <= bytes@.len(),
    ensures
        r == sampler_at(bytes@, offset as int, version),
{
    let horizontal = i32_from_bits(
        u32_from_be(bytes[offset], bytes[offset + 1], bytes[offset + 2], bytes[offset + 3]),
    );
    let vertical = i32_from_bits(
        u32_from_be(bytes[offset + 4], bytes[offset + 5], bytes[offset + 6], bytes[offset + 7]),
    );
    let color_space = i16_from_bits(u16_from_be(bytes[offset + 8], bytes[offset + 9]));
    let position = if version == 1 {
        ColorSamplerPosition::V1 { horizontal, vertical }
    } else {
        let depth = u16_from_be(bytes[offset + 10], bytes[offset + 11]);
        if version == 2 {
            ColorSamplerPosition::V2 { horizontal, vertical, depth }
        } else {
            ColorSamplerPosition::Unsupported {
                version,
                horizontal,
                vertical,
                depth: if version >= 2 {
                    Some(depth)
                } else {
                    None
                },
            }
        }
    };
    ColorSampler { position, color_space }
}

/// Parses a color samplers resource: version, count, then the records
/// that fit.  Fewer than 8 bytes give version 0 and no samplers.
pub fn parse_color_samplers_resource(bytes: &[u8]) -> (r: ColorSamplersResource)
    ensures
        r.version == samplers_version_of(bytes@),
        r.samplers@ == samplers_of(bytes@),
{
    let len = bytes.len();
    if len < 8 {
        let r = ColorSamplersResource { version: 0, samplers: Vec::new() };
        assert(r.samplers@ =~= samplers_of(bytes@));
        return r;
    }
    let version = u32_from_be(bytes[0], bytes[1], bytes[2], bytes[3]);
    let count = u32_from_be(bytes[4], bytes[5], bytes[6], bytes[7]);
    let record_len: usize = if version == 1 {
        10
    } else {
        12
    };
    let fit = (len - 8) / record_len;
    let n: usize = if (count as usize) < fit {
        count as usize
    } else {
        fit
    };
    assert(n == samplers_count_of(bytes@));
    let mut samplers: Vec<ColorSampler> = Vec::new();
    let mut k: usize = 0;
    while k < n
        invariant
            len == bytes@.len(),
            len >= 8,
            record_len == sampler_record_len(version),
            version == read32(bytes@, 0),
            n <= fit,
            fit == (len - 8) / (record_len as int),
            k <= n,
            samplers@ == Seq::new(
                k as nat,
                |j: int| sampler_at(bytes@, 8 + j * (record_len as int), version),
            ),
        decreases n - k,
    {
        assert(8 + (k + 1) * (record_len as int) <= len) by (nonlinear_arith)
            requires
                k + 1 <= fit,
                fit == (len - 8) / (record_len as int),
                record_len > 0,
                len >= 8,
        ;
        assert(8 + k * (record_len as int) + record_len == 8 + (k + 1) * (record_len as int))
            by (nonlinear_arith);
        let offset = 8 + k * record_len;
        let sampler = read_sampler(bytes, offset, version);
        samplers.push(sampler);
        k += 1;
        assert(samplers@ =~= Seq::new(
            k as nat,
            |j: int| sampler_at(bytes@, 8 + j * (record_len as int), version),
        ));
    }
    assert(samplers@ =~= samplers_of(bytes@));
    ColorSamplersResource { version, samplers }
}

/// Whether all samplers share the first one's record version.
pub open spec fn single_sampler_version(ss: Seq<ColorSampler>) -> bool {
    forall|k: int|
        0 <= k < ss.len() ==> position_version(#[trigger] ss[k].position) == position_version(
            ss[0].position,
        )
}

/// The message of the error for samplers of mixed versions.
pub open spec fn mixed_versions_message() -> Seq<char> {
    "Color samplers resource must contain a single color sampler version"@
}

/// The message of the error for samplers whose version is not the
/// resource's.
pub open spec fn version_mismatch_message() -> Seq<char> {
    "Color sampler position version does not match resource version"@
}

/// The message of the error for a version 2 or later sampler without depth.
pub open spec fn missing_depth_message() -> Seq<char> {
    "Color sampler version requires depth to serialize losslessly"@
}

/// The record version shared by all samplers: `None` for no samplers, an
/// invalid format when they differ.
pub fn infer_color_sampler_version(samplers: &[ColorSampler]) -> (r: PsdResult<Option<u32>>)
    ensures
        samplers@.len() == 0 ==> r == PsdResult::<Option<u32>>::Ok(None),
        samplers@.len() > 0 && single_sampler_version(samplers@) ==> r == PsdResult::<
            Option<u32>,
        >::Ok(Some(position_version(samplers@[0].position))),
        !single_sampler_version(samplers@) ==> (r matches Err(e) && e is InvalidFormat
            && error_detail(e) == mixed_versions_message()),
{
    let n = samplers.len();
    if n == 0 {
        return Ok(None);
    }
    let version = samplers[0].position.version();
    let mut k: usize = 1;
    while k < n
        invariant
            n == samplers@.len(),
            1 <= k <= n,
            version == position_version(samplers@[0].position),
            forall|j: int|
                0 <= j < k ==> position_version(#[trigger] samplers@[j].position) == version,
        decreases n - k,
    {
        if samplers[k].position.version() != version {
            proof {
                reveal_strlit("Color samplers resource must contain a single color sampler version");
            }
            return Err(invalid_format("Color samplers resource must contain a single color sampler version"));
        }
        k += 1;
    }
    Ok(Some(version))
}

/// The bytes of one sampler record: coordinates and color space, then a
/// depth word for version 2, or for an unsupported version 2 or later.
pub open spec fn sampler_bytes(smp: ColorSampler) -> Seq<u8> {
    let (horizontal, vertical) = position_coordinates(smp.position);
    be32(i32_bits(horizontal)) + be32(i32_bits(vertical)) + be16(i16_bits(smp.color_space))
        + match smp.position {
        ColorSamplerPosition::V1 { .. } => Seq::<u8>::empty(),
        ColorSamplerPosition::V2 { depth, .. } => be16(depth),
        ColorSamplerPosition::Unsupported { version, depth, .. } => if version >= 2 {
            be16(depth.unwrap())
        } else {
            Seq::<u8>::empty()
        },
    }
}

/// A color sampler record stores the horizontal coordinate first, then the
/// vertical one, each as a signed big-endian 32-bit value, then the color
/// space as a signed 16-bit value, then (from version 2 on) the depth.
pub proof fn law_sampler_records(s: Seq<u8>, off: int, version: u32, smp: ColorSampler)
    requires
        0 <= off,
        off + 12 <= s.len(),
    ensures
        ({
            let h = u32_as_i32((s[off] * 16777216 + s[off + 1] * 65536 + s[off + 2] * 256 + s[off
                + 3]) as u32);
            let v = u32_as_i32((s[off + 4] * 16777216 + s[off + 5] * 65536 + s[off + 6] * 256 + s[off
                + 7]) as u32);
            let read = sampler_at(s, off, version);
            &&& version == 1 ==> read.position == ColorSamplerPosition::V1 { horizontal: h, vertical: v }
            &&& version == 2 ==> read.position == ColorSamplerPosition::V2 {
                horizontal: h,
                vertical: v,
                depth: (s[off + 10] * 256 + s[off + 11]) as u16,
            }
            &&& read.color_space == u16_as_i16((s[off + 8] * 256 + s[off + 9]) as u16)
        }),
        smp.position matches ColorSamplerPosition::V1 { horizontal, vertical } ==> sampler_bytes(smp)
            == be32(i32_bits(horizontal)) + be32(i32_bits(vertical)) + be16(i16_bits(smp.color_space)),
        smp.position matches ColorSamplerPosition::V2 { horizontal, vertical, depth } ==> sampler_bytes(
            smp,
        ) == be32(i32_bits(horizontal)) + be32(i32_bits(vertical)) + be16(i16_bits(smp.color_space))
            + be16(depth),
{
}

/// The records of a list of samplers, in order.
pub open spec fn samplers_bytes(ss: Seq<ColorSampler>) -> Seq<u8>
    decreases ss.len(),
{
    if ss.len() == 0 {
        Seq::<u8>::empty()
    } else {
        samplers_bytes(ss.drop_last()) + sampler_bytes(ss.last())
    }
}

/// Whether a sampler of version 2 or later lacks the depth its record needs.
pub open spec fn lacks_depth(smp: ColorSampler) -> bool {
    smp.position matches ColorSamplerPosition::Unsupported { version, depth, .. } && version >= 2
        && depth is None
}

/// Builds a color samplers resource.  All samplers must share one record
/// version, equal to the resource's, and those of version 2 or later must
/// carry a depth.
pub fn build_color_samplers_resource(samplers: &ColorSamplersResource) -> (r: PsdResult<Vec<u8>>)
    ensures
        ({
            let ss = samplers.samplers@;
            let single = single_sampler_version(ss);
            let matching = ss.len() == 0 || position_version(ss[0].position) == samplers.version;
            let complete = forall|k: int| 0 <= k < ss.len() ==> !lacks_depth(#[trigger] ss[k]);
            &&& !single ==> (r matches Err(e) && e is InvalidFormat && error_detail(e)
                == mixed_versions_message())
            &&& single && !matching ==> (r matches Err(e) && e is InvalidFormat && error_detail(e)
                == version_mismatch_message())
            &&& single && matching && !complete ==> (r matches Err(e) && e is InvalidFormat
                && error_detail(e) == missing_depth_message())
            &&& single && matching && complete ==> (r matches Ok(b) && b@ == be32(samplers.version)
                + be32(ss.len() as u32) + samplers_bytes(ss))
        }),
{
    let list = samplers.samplers.as_slice();
    if let Some(version) = infer_color_sampler_version(list)? {
        if samplers.version != version {
            proof {
                reveal_strlit("Color sampler position version does not match resource version");
            }
            return Err(invalid_format("Color sampler position version does not match resource version"));
        }
    }
    let n = list.len();
    assert(single_sampler_version(list@));
    let mut bytes: Vec<u8> = Vec::new();
    push_be32(&mut bytes, samplers.version);
    push_be32(&mut bytes, n as u32);
    let ghost head = bytes@;
    let mut k: usize = 0;
    while k < n
        invariant
            n == list@.len(),
            list@ == samplers.samplers@,
            single_sampler_version(list@),
            n == 0 || position_version(list@[0].position) == samplers.version,
            k <= n,
            forall|j: int| 0 <= j < k ==> !lacks_depth(#[trigger] list@[j]),
            bytes@ == head + samplers_bytes(list@.take(k as int)),
        decreases n - k,
    {
        let sampler = list[k];
        let (horizontal, vertical) = sampler.position.coordinates();
        let ghost before = bytes@;
        push_be32(&mut bytes, bits_from_i32(horizontal));
        push_be32(&mut bytes, bits_from_i32(vertical));
        push_be16(&mut bytes, bits_from_i16(sampler.color_space));
        match sampler.position {
            ColorSamplerPosition::V1 { .. } => {},
            ColorSamplerPosition::V2 { depth, .. } => {
                push_be16(&mut bytes, depth);
            },
            ColorSamplerPosition::Unsupported { version, depth, .. } => {
                if version >= 2 {
                    match depth {
                        Some(d) => {
                            push_be16(&mut bytes, d);
                        },
                        None => {
                            proof {
                                reveal_strlit("Color sampler version requires depth to serialize losslessly");
                            }
                            return Err(invalid_format("Color sampler version requires depth to serialize losslessly"));
                        },
                    }
                }
            },
        }
        assert(bytes@ =~= before + sampler_bytes(list@[k as int]));
        assert(list@.take(k + 1).drop_last() =~= list@.take(k as int));
        k += 1;
    }
    assert(list@.take(n as int) =~= list@);
    Ok(bytes)
}

/// Whether a sampler has the shape the reader gives a record of `version`:
/// version 1 and 2 positions for those versions, and for later versions an
/// unsupported position of that version carrying its depth.
pub open spec fn sampler_fits_version(smp: ColorSampler, version: u32) -> bool {
    match smp.position {
        ColorSamplerPosition::V1 { .. } => version == 1,
        ColorSamplerPosition::V2 { .. } => version == 2,
        ColorSamplerPosition::Unsupported { version: v, depth, .. } => v == version && version >= 3
            && depth is Some,
    }
}

/// A fitting sampler's record has the record length of its version.
pub proof fn lemma_sampler_bytes_len(smp: ColorSampler, version: u32)
    requires
        sampler_fits_version(smp, version),
    ensures
        sampler_bytes(smp).len() == sampler_record_len(version),
{
}

/// Records of fitting samplers take one record length each.
pub proof fn lemma_samplers_bytes_len(ss: Seq<ColorSampler>, version: u32)
    requires
        forall|k: int| 0 <= k < ss.len() ==> sampler_fits_version(#[trigger] ss[k], version),
    ensures
        samplers_bytes(ss).len() == ss.len() * sampler_record_len(version),
    decreases ss.len(),
{
    if ss.len() > 0 {
        let rest = ss.drop_last();
        assert forall|k: int| 0 <= k < rest.len() implies sampler_fits_version(
            #[trigger] rest[k],
            version,
        ) by {
            assert(rest[k] == ss[k]);
        }
        lemma_samplers_bytes_len(rest, version);
        lemma_sampler_bytes_len(ss.last(), version);
        assert((ss.len() - 1) * sampler_record_len(version) + sampler_record_len(version)
            == ss.len() * sampler_record_len(version)) by (nonlinear_arith);
    }
}

/// Record `k` of a list of fitting samplers is the record of sampler `k`.
pub proof fn lemma_samplers_bytes_piece(ss: Seq<ColorSampler>, version: u32, k: int)
    requires
        forall|j: int| 0 <= j < ss.len() ==> sampler_fits_version(#[trigger] ss[j], version),
        0 <= k < ss.len(),
    ensures
        k * sampler_record_len(version) + sampler_record_len(version) <= samplers_bytes(ss).len(),
        samplers_bytes(ss).subrange(
            k * sampler_record_len(version),
            k * sampler_record_len(version) + sampler_record_len(version),
        ) == sampler_bytes(ss[k]),
    decreases ss.len(),
{
    let rl = sampler_record_len(version);
    let rest = ss.drop_last();
    assert forall|j: int| 0 <= j < rest.len() implies sampler_fits_version(
        #[trigger] rest[j],
        version,
    ) by {
        assert(rest[j] == ss[j]);
    }
    lemma_samplers_bytes_len(rest, version);
    lemma_samplers_bytes_len(ss, version);
    lemma_sampler_bytes_len(ss.last(), version);
    let a = samplers_bytes(rest);
    let b = sampler_bytes(ss.last());
    assert(samplers_bytes(ss) == a + b);
    if k == ss.len() - 1 {
        assert(k * rl == rest.len() * rl);
        assert((a + b).subrange(k * rl, k * rl + rl) =~= b);
    } else {
        lemma_samplers_bytes_piece(rest, version, k);
        assert((a + b).subrange(k * rl, k * rl + rl) =~= a.subrange(k * rl, k * rl + rl));
        assert(rest[k] == ss[k]);
    }
}

/// A sampler reads back from its record wherever the record stands.
pub proof fn lemma_sampler_read_back(s: Seq<u8>, off: int, smp: ColorSampler, version: u32)
    requires
        sampler_fits_version(smp, version),
        0 <= off,
        off + sampler_record_len(version) <= s.len(),
        s.subrange(off, off + sampler_record_len(version)) == sampler_bytes(smp),
    ensures
        sampler_at(s, off, version) == smp,
{
    let rl = sampler_record_len(version);
    let rec = s.subrange(off, off + rl);
    let (h, v) = position_coordinates(smp.position);
    assert(s.subrange(off, off + 4) =~= rec.subrange(0, 4));
    assert(rec.subrange(0, 4) =~= be32(i32_bits(h)));
    lemma_read32_at(s, off, i32_bits(h));
    crate::bytes::lemma_i32_bits_roundtrip(h);
    assert(s.subrange(off + 4, off + 8) =~= rec.subrange(4, 8));
    assert(rec.subrange(4, 8) =~= be32(i32_bits(v)));
    lemma_read32_at(s, off + 4, i32_bits(v));
    crate::bytes::lemma_i32_bits_roundtrip(v);
    assert(s.subrange(off + 8, off + 10) =~= rec.subrange(8, 10));
    assert(rec.subrange(8, 10) =~= be16(i16_bits(smp.color_space)));
    lemma_read16_at(s, off + 8, i16_bits(smp.color_space));
    crate::bytes::lemma_i16_bits_roundtrip(smp.color_space);
    match smp.position {
        ColorSamplerPosition::V1 { .. } => {},
        ColorSamplerPosition::V2 { depth, .. } => {
            assert(s.subrange(off + 10, off + 12) =~= rec.subrange(10, 12));
            assert(rec.subrange(10, 12) =~= be16(depth));
            lemma_read16_at(s, off + 10, depth);
        },
        ColorSamplerPosition::Unsupported { depth, .. } => {
            assert(s.subrange(off + 10, off + 12) =~= rec.subrange(10, 12));
            assert(rec.subrange(10, 12) =~= be16(depth.unwrap()));
            lemma_read16_at(s, off + 10, depth.unwrap());
        },
    }
}

/// A color samplers resource built from samplers that fit its version is
/// accepted by the builder and parses back to the same version and
/// samplers.
pub proof fn law_color_samplers_roundtrip(version: u32, ss: Seq<ColorSampler>)
    requires
        ss.len() <= u32::MAX,
        forall|k: int| 0 <= k < ss.len() ==> sampler_fits_version(#[trigger] ss[k], version),
    ensures
        single_sampler_version(ss),
        ss.len() == 0 || position_version(ss[0].position) == version,
        forall|k: int| 0 <= k < ss.len() ==> !lacks_depth(#[trigger] ss[k]),
        samplers_version_of(be32(version) + be32(ss.len() as u32) + samplers_bytes(ss)) == version,
        samplers_of(be32(version) + be32(ss.len() as u32) + samplers_bytes(ss)) == ss,
{
    let n = ss.len() as int;
    let rl = sampler_record_len(version);
    let body = samplers_bytes(ss);
    let b = be32(version) + be32(n as u32) + body;
    lemma_samplers_bytes_len(ss, version);
    assert(b.subrange(0, 4) =~= be32(version));
    lemma_read32_at(b, 0, version);
    assert(b.subrange(4, 8) =~= be32(n as u32));
    lemma_read32_at(b, 4, n as u32);
    assert((n * rl) / rl == n) by (nonlinear_arith)
        requires
            rl > 0,
            n >= 0,
    ;
    assert(samplers_count_of(b) == n);
    assert forall|k: int| 0 <= k < n implies sampler_at(b, 8 + k * rl, version) == ss[k] by {
        lemma_samplers_bytes_piece(ss, version, k);
        assert(b.subrange(8 + k * rl, 8 + k * rl + rl) =~= body.subrange(k * rl, k * rl + rl));
        lemma_sampler_read_back(b, 8 + k * rl, ss[k], version);
    }
    assert(samplers_of(b) =~= ss);
}

/// Visibility flags of the alpha channels (resource 1072).
#[derive(Debug, Clone, PartialEq, Eq)]
pub struct ResourceVisibility {
    pub values: Vec<bool>,
}

/// Unit of a resolution value.
#[derive(Debug, Clone, Copy, PartialEq, Eq, Structural)]
pub enum ResolutionUnit {
    PixelsPerInch,
    PixelsPerCentimeter,
}

/// Unit in which a document dimension is displayed.
#[derive(Debug, Clone, Copy, PartialEq, Eq, Structural)]
pub enum MeasurementUnit {
    Inches,
    Centimeters,
    Points,
    Picas,
    Columns,
}

/// Print flags (resource 1011).
#[derive(Debug, Clone, Copy, PartialEq, Eq, Default, Structural)]
pub struct PrintFlags {
    pub labels: bool,
    pub crop_marks: bool,
    pub color_bars: bool,
    pub registration_marks: bool,
    pub negative: bool,
    pub flip: bool,
    pub interpolate: bool,
    pub caption: bool,
    pub print_flags: bool,
}

/// Grid spacing.
#[derive(Debug, Clone, Copy, PartialEq, Eq, Structural)]
pub struct Grid {
    pub horizontal: u32,
    pub vertical: u32,
}

/// Orientation of a guide line.
#[derive(Debug, Clone, Copy, PartialEq, Eq, Structural)]
pub enum GuideDirection {
    Vertical,
    Horizontal,
}

/// How a document is scaled for printing.
#[derive(Debug, Clone, Copy, PartialEq, Eq, Structural)]
pub enum PrintScaleStyle {
    Centered,
    SizeToFit,
    UserDefined,
}

/// Integer pixel rectangle of a slice.
#[derive(Debug, Clone, Copy, PartialEq, Eq, Structural)]
pub struct SliceBounds {
    pub top: i32,
    pub left: i32,
    pub bottom: i32,
    pub right: i32,
}

/// An entry of the URL list.
#[derive(Debug, Clone, PartialEq, Eq)]
pub struct UrlEntry {
    pub id: u32,
    pub url: String,
}

impl ResolutionUnit {
    /// The stored code: 1 for pixels per inch, 2 for pixels per
    /// centimeter.
    pub fn code(&self) -> (r: u16)
        ensures
            r == (match *self {
                ResolutionUnit::PixelsPerInch => 1u16,
                ResolutionUnit::PixelsPerCentimeter => 2u16,
            }),
    {
        match self {
            ResolutionUnit::PixelsPerInch => 1,
            ResolutionUnit::PixelsPerCentimeter => 2,
        }
    }
}

impl MeasurementUnit {
    /// The stored code, 1 to 5 in declaration order.
    pub fn code(&self) -> (r: u16)
        ensures
            r == (match *self {
                MeasurementUnit::Inches => 1u16,
                MeasurementUnit::Centimeters => 2u16,
                MeasurementUnit::Points => 3u16,
                MeasurementUnit::Picas => 4u16,
                MeasurementUnit::Columns => 5u16,
            }),
    {
        match self {
            MeasurementUnit::Inches => 1,
            MeasurementUnit::Centimeters => 2,
            MeasurementUnit::Points => 3,
            MeasurementUnit::Picas => 4,
            MeasurementUnit::Columns => 5,
        }
    }
}

impl PrintScaleStyle {
    /// The stored code, 0 to 2 in declaration order.
    pub fn code(&self) -> (r: i16)
        ensures
            r == (match *self {
                PrintScaleStyle::Centered => 0i16,
                PrintScaleStyle::SizeToFit => 1i16,
                PrintScaleStyle::UserDefined => 2i16,
            }),
    {
        match self {
            PrintScaleStyle::Centered => 0,
            PrintScaleStyle::SizeToFit => 1,
            PrintScaleStyle::UserDefined => 2,
        }
    }
}

/// Whether a legacy slice record is followed by a descriptor: at least 20
/// bytes left before `end`, the descriptor version 16, a name of one
/// UTF-16 unit that is zero, and room for the class id and the item count.
pub open spec fn starts_slice_descriptor(b: Seq<u8>, offset: int, end: int) -> bool {
    let class_id_len = read32(b, offset + 10) as int;
    let class_id_bytes = if class_id_len == 0 {
        4
    } else {
        class_id_len
    };
    &&& end - offset >= 20
    &&& read32(b, offset) == 16
    &&& read32(b, offset + 4) == 1
    &&& b[offset + 8] == 0
    &&& b[offset + 9] == 0
    &&& offset + 14 + class_id_bytes + 4 <= end
}

/// Probes whether the bytes at `offset` start a slice descriptor (see
/// `starts_slice_descriptor`).
pub fn next_bytes_start_legacy_slice_descriptor(bytes: &[u8], offset: usize, end: usize) -> (r:
    bool)
    requires
        offset + 20 <= end ==> end <= bytes@.len(),
    ensures
        r == starts_slice_descriptor(bytes@, offset as int, end as int),
{
    let remaining = if end > offset {
        end - offset
    } else {
        0
    };
    if remaining < 20 {
        return false;
    }
    let descriptor_version = u32_from_be(bytes[offset], bytes[offset + 1], bytes[offset + 2], bytes[offset + 3]);
    if descriptor_version != 16 {
        return false;
    }
    let name_len = u32_from_be(bytes[offset + 4], bytes[offset + 5], bytes[offset + 6], bytes[offset + 7]);
    if name_len != 1 {
        return false;
    }
    let cursor = offset + 8;
    if bytes[cursor] != 0 || bytes[cursor + 1] != 0 {
        return false;
    }
    let cursor = cursor + 2;
    let class_id_len = u32_from_be(bytes[cursor], bytes[cursor + 1], bytes[cursor + 2], bytes[cursor + 3]) as usize;
    let cursor = cursor + 4;
    let class_id_bytes = if class_id_len == 0 {
        4
    } else {
        class_id_len
    };
    if class_id_bytes > end - cursor || end - cursor - class_id_bytes < 4 {
        return false;
    }
    true
}

/// The print flags stored in nine bytes, one flag each, nonzero for set.
pub open spec fn print_flags_at(b: Seq<u8>) -> PrintFlags {
    PrintFlags {
        labels: b[0] != 0,
        crop_marks: b[1] != 0,
        color_bars: b[2] != 0,
        registration_marks: b[3] != 0,
        negative: b[4] != 0,
        flip: b[5] != 0,
        interpolate: b[6] != 0,
        caption: b[7] != 0,
        print_flags: b[8] != 0,
    }
}

/// The byte of a flag: 1 when set.
pub open spec fn flag_byte(v: bool) -> u8 {
    if v {
        1
    } else {
        0
    }
}

/// The nine bytes of print flags.
pub open spec fn print_flags_bytes(f: PrintFlags) -> Seq<u8> {
    seq![
        flag_byte(f.labels),
        flag_byte(f.crop_marks),
        flag_byte(f.color_bars),
        flag_byte(f.registration_marks),
        flag_byte(f.negative),
        flag_byte(f.flip),
        flag_byte(f.interpolate),
        flag_byte(f.caption),
        flag_byte(f.print_flags),
    ]
}

/// Print flags are nine bytes in the order labels, crop marks, color bars,
/// registration marks, negative, flip, interpolate, caption, print flags;
/// a set flag is stored as 1 and any nonzero byte reads as set.
pub proof fn law_print_flags_order(f: PrintFlags, b: Seq<u8>)
    requires
        b.len() >= 9,
    ensures
        print_flags_bytes(f) == seq![
            if f.labels { 1u8 } else { 0u8 },
            if f.crop_marks { 1u8 } else { 0u8 },
            if f.color_bars { 1u8 } else { 0u8 },
            if f.registration_marks { 1u8 } else { 0u8 },
            if f.negative { 1u8 } else { 0u8 },
            if f.flip { 1u8 } else { 0u8 },
            if f.interpolate { 1u8 } else { 0u8 },
            if f.caption { 1u8 } else { 0u8 },
            if f.print_flags { 1u8 } else { 0u8 },
        ],
        print_flags_at(b).labels <==> b[0] != 0,
        print_flags_at(b).crop_marks <==> b[1] != 0,
        print_flags_at(b).color_bars <==> b[2] != 0,
        print_flags_at(b).registration_marks <==> b[3] != 0,
        print_flags_at(b).negative <==> b[4] != 0,
        print_flags_at(b).flip <==> b[5] != 0,
        print_flags_at(b).interpolate <==> b[6] != 0,
        print_flags_at(b).caption <==> b[7] != 0,
        print_flags_at(b).print_flags <==> b[8] != 0,
{
}

/// The values of `n` big-endian 32-bit words stored from `start`.
pub open spec fn words32(input: Seq<u8>, start: int, n: int) -> Seq<u32> {
    Seq::new(n as nat, |k: int| read32(input, start + 4 * k))
}

/// The big-endian bytes of a list of 32-bit values.
pub open spec fn be32_list(vals: Seq<u32>) -> Seq<u8>
    decreases vals.len(),
{
    if vals.len() == 0 {
        Seq::<u8>::empty()
    } else {
        be32_list(vals.drop_last()) + be32(vals.last())
    }
}

impl PsdReader {
    /// Reads print flags (resource 1011).
    pub fn read_print_flags(&mut self) -> (r: PsdResult<PrintFlags>)
        ensures
            match r {
                Ok(f) => old(self).can_read(9) && f == print_flags_at(old(self).ahead(9)) && old(
                    self,
                ).moved(final(self), 9),
                Err(e) => old(self).read_failure(9, e) && *final(self) == *old(self),
            },
    {
        let b = self.read_bytes(9)?;
        Ok(
            PrintFlags {
                labels: b[0] != 0,
                crop_marks: b[1] != 0,
                color_bars: b[2] != 0,
                registration_marks: b[3] != 0,
                negative: b[4] != 0,
                flip: b[5] != 0,
                interpolate: b[6] != 0,
                caption: b[7] != 0,
                print_flags: b[8] != 0,
            },
        )
    }

    /// Reads the copyright flag (resource 1034): one byte, nonzero for set.
    pub fn read_copyright_flag(&mut self) -> (r: PsdResult<bool>)
        ensures
            match r {
                Ok(v) => old(self).can_read(1) && v == (old(self).input()[old(self).offset as int]
                    != 0) && old(self).moved(final(self), 1),
                Err(e) => old(self).read_failure(1, e) && *final(self) == *old(self),
            },
    {
        let v = self.read_u8()?;
        Ok(v != 0)
    }

    /// Reads the global lighting angle (resource 1037).
    pub fn read_global_angle(&mut self) -> (r: PsdResult<i32>)
        ensures
            match r {
                Ok(v) => old(self).can_read(4) && v == u32_as_i32(
                    read32(old(self).input(), old(self).offset as int),
                ) && old(self).moved(final(self), 4),
                Err(e) => old(self).read_failure(4, e) && *final(self) == *old(self),
            },
    {
        self.read_i32()
    }

    /// Reads the global lighting altitude (resource 1049).
    pub fn read_global_altitude(&mut self) -> (r: PsdResult<i32>)
        ensures
            match r {
                Ok(v) => old(self).can_read(4) && v == u32_as_i32(
                    read32(old(self).input(), old(self).offset as int),
                ) && old(self).moved(final(self), 4),
                Err(e) => old(self).read_failure(4, e) && *final(self) == *old(self),
            },
    {
        self.read_i32()
    }

    /// Reads the target layer state (resource 1024).
    pub fn read_layer_state(&mut self) -> (r: PsdResult<u16>)
        ensures
            match r {
                Ok(v) => old(self).can_read(2) && v == old(self).word(0) && old(self).moved(
                    final(self),
                    2,
                ),
                Err(e) => old(self).read_failure(2, e) && *final(self) == *old(self),
            },
    {
        self.read_u16()
    }

    /// Reads the layer group ids (resource 1026): one 16-bit id per two
    /// bytes of the resource.
    pub fn read_layer_group_ids(&mut self, length: usize) -> (r: PsdResult<Vec<u16>>)
        ensures
            match r {
                Ok(ids) => (length / 2 == 0 || old(self).can_read(2 * (length / 2))) && ids@
                    == code_units(old(self).input(), old(self).offset as int, (length / 2) as int)
                    && old(self).moved(final(self), 2 * (length / 2)),
                Err(e) => final(self).same_source(old(self)) && old(self).split_read_failure(
                    2 * (length / 2),
                    e,
                ),
            },
    {
        let ghost s0 = *self;
        let count = length / 2;
        let mut groups: Vec<u16> = Vec::new();
        let mut k: usize = 0;
        while k < count
            invariant
                k <= count,
                count == length / 2,
                s0 == *old(self),
                k > 0 ==> s0.can_read(2 * k),
                s0.moved(self, 2 * k),
                groups@ == code_units(s0.input(), s0.offset as int, k as int),
            decreases count - k,
        {
            let v = match self.read_u16() {
                Ok(v) => v,
                Err(e) => {
                    assert(s0.split_read_failure(2 * count, e));
                    return Err(e);
                },
            };
            groups.push(v);
            k += 1;
            assert(groups@ =~= code_units(s0.input(), s0.offset as int, k as int));
        }
        Ok(groups)
    }

    /// Reads layer selection ids (resource 1069): a 16-bit count, then
    /// that many 32-bit ids.
    pub fn read_layer_selection_ids(&mut self) -> (r: PsdResult<Vec<u32>>)
        ensures
            ({
                let n = old(self).word(0) as int;
                match r {
                    Ok(ids) => old(self).can_read(2 + 4 * n) && ids@ == words32(
                        old(self).input(),
                        old(self).offset + 2,
                        n,
                    ) && old(self).moved(final(self), 2 + 4 * n),
                    Err(e) => final(self).same_source(old(self)) && old(self).split_read_failure(
                        2 + 4 * n,
                        e,
                    ),
                }
            }),
    {
        let ghost s0 = *self;
        let count = self.read_u16()?;
        let ghost s1 = *self;
        let mut ids: Vec<u32> = Vec::new();
        let mut k: u16 = 0;
        while k < count
            invariant
                k <= count,
                count == s0.word(0),
                s0 == *old(self),
                s0.can_read(2),
                s0.moved(&s1, 2),
                k > 0 ==> s1.can_read(4 * k),
                s1.moved(self, 4 * k),
                ids@ == words32(s0.input(), s0.offset + 2, k as int),
            decreases count - k,
        {
            let v = match self.read_u32() {
                Ok(v) => v,
                Err(e) => {
                    assert(s0.split_read_failure(2 + 4 * count, e));
                    return Err(e);
                },
            };
            ids.push(v);
            k += 1;
            assert(ids@ =~= words32(s0.input(), s0.offset + 2, k as int));
        }
        Ok(ids)
    }

    /// Reads alpha channel identifiers (resource 1053): one 32-bit id per
    /// four bytes of the resource.
    pub fn read_alpha_identifiers(&mut self, length: usize) -> (r: PsdResult<Vec<u32>>)
        ensures
            match r {
                Ok(ids) => (length / 4 == 0 || old(self).can_read(4 * (length / 4))) && ids@
                    == words32(old(self).input(), old(self).offset as int, (length / 4) as int)
                    && old(self).moved(final(self), 4 * (length / 4)),
                Err(e) => final(self).same_source(old(self)) && old(self).split_read_failure(
                    4 * (length / 4),
                    e,
                ),
            },
    {
        let ghost s0 = *self;
        let count = length / 4;
        let mut ids: Vec<u32> = Vec::new();
        let mut k: usize = 0;
        while k < count
            invariant
                k <= count,
                count == length / 4,
                s0 == *old(self),
                k > 0 ==> s0.can_read(4 * k),
                s0.moved(self, 4 * k),
                ids@ == words32(s0.input(), s0.offset as int, k as int),
            decreases count - k,
        {
            let v = match self.read_u32() {
                Ok(v) => v,
                Err(e) => {
                    assert(s0.split_read_failure(4 * count, e));
                    return Err(e);
                },
            };
            ids.push(v);
            k += 1;
            assert(ids@ =~= words32(s0.input(), s0.offset as int, k as int));
        }
        Ok(ids)
    }

    /// Reads the URL (resource 1035) as text of `length` bytes.
    pub fn read_url(&mut self, length: usize) -> (r: PsdResult<String>)
        ensures
            match r {
                Ok(s) => old(self).can_read(length as int) && s@ == utf8_text(
                    old(self).ahead(length as int),
                ) && old(self).moved(final(self), length as int),
                Err(e) => old(self).read_failure(length as int, e) && *final(self) == *old(self),
            },
    {
        self.read_ascii_string(length)
    }

    /// Reads the ICC profile (resource 1039): `length` raw bytes.
    pub fn read_icc_profile(&mut self, length: usize) -> (r: PsdResult<Vec<u8>>)
        ensures
            match r {
                Ok(v) => old(self).can_read(length as int) && v@ == old(self).ahead(length as int)
                    && old(self).moved(final(self), length as int),
                Err(e) => old(self).read_failure(length as int, e) && *final(self) == *old(self),
            },
    {
        self.read_bytes(length)
    }
}

impl PsdWriter {
    /// Writes print flags, one byte each.
    pub fn write_print_flags(&mut self, flags: &PrintFlags) -> (r: PsdResult<()>)
        requires
            old(self).offset + 9 <= usize::MAX,
        ensures
            r is Ok,
            old(self).appended(final(self), print_flags_bytes(*flags)),
    {
        let bytes = [
            flags.labels as u8,
            flags.crop_marks as u8,
            flags.color_bars as u8,
            flags.registration_marks as u8,
            flags.negative as u8,
            flags.flip as u8,
            flags.interpolate as u8,
            flags.caption as u8,
            flags.print_flags as u8,
        ];
        assert(bytes@ =~= print_flags_bytes(*flags));
        self.write_bytes(&bytes)
    }

    /// Writes the copyright flag as one byte.
    pub fn write_copyright_flag(&mut self, copyrighted: bool) -> (r: PsdResult<()>)
        requires
            old(self).offset + 1 <= usize::MAX,
        ensures
            r is Ok,
            old(self).appended(final(self), seq![flag_byte(copyrighted)]),
    {
        self.write_u8(copyrighted as u8)
    }

    /// Writes the global lighting angle.
    pub fn write_global_angle(&mut self, angle: i32) -> (r: PsdResult<()>)
        requires
            old(self).offset + 4 <= usize::MAX,
        ensures
            r is Ok,
            old(self).appended(final(self), be32(i32_bits(angle))),
    {
        self.write_i32(angle)
    }

    /// Writes the global lighting altitude.
    pub fn write_global_altitude(&mut self, altitude: i32) -> (r: PsdResult<()>)
        requires
            old(self).offset + 4 <= usize::MAX,
        ensures
            r is Ok,
            old(self).appended(final(self), be32(i32_bits(altitude))),
    {
        self.write_i32(altitude)
    }

    /// Writes the target layer state.
    pub fn write_layer_state(&mut self, state: u16) -> (r: PsdResult<()>)
        requires
            old(self).offset + 2 <= usize::MAX,
        ensures
            r is Ok,
            old(self).appended(final(self), be16(state)),
    {
        self.write_u16(state)
    }

    /// Writes layer group ids, 16 bits each.
    pub fn write_layer_group_ids(&mut self, group_ids: &[u16]) -> (r: PsdResult<()>)
        requires
            old(self).offset + 2 * group_ids@.len() <= usize::MAX,
        ensures
            r is Ok,
            old(self).appended(final(self), crate::bytes::be16_list(group_ids@)),
    {
        self.ensure_capacity(2 * group_ids.len());
        let ghost before = self.written();
        let n = group_ids.len();
        let mut k: usize = 0;
        while k < n
            invariant
                n == group_ids@.len(),
                k <= n,
                old(self).offset + 2 * n <= usize::MAX,
                self.offset == old(self).offset + 2 * k,
                self.offset <= self.buffer@.len(),
                self.written() == before + crate::bytes::be16_list(group_ids@.take(k as int)),
                self.large == old(self).large,
                self.color_mode == old(self).color_mode,
                self.global_alpha == old(self).global_alpha,
            decreases n - k,
        {
            self.write_u16(group_ids[k])?;
            assert(group_ids@.take(k + 1).drop_last() =~= group_ids@.take(k as int));
            k += 1;
        }
        assert(group_ids@.take(n as int) =~= group_ids@);
        proof {
            crate::bytes::lemma_be16_list_len(group_ids@);
            if n == 0 {
                assert(self.written() =~= before);
            }
        }
        Ok(())
    }

    /// Writes layer selection ids: their count as 16 bits, then each id.
    pub fn write_layer_selection_ids(&mut self, ids: &[u32]) -> (r: PsdResult<()>)
        requires
            old(self).offset + 2 + 4 * ids@.len() <= usize::MAX,
        ensures
            r is Ok,
            old(self).appended(final(self), be16(ids@.len() as u16) + be32_list(ids@)),
    {
        let ghost before = self.written();
        let n = ids.len();
        self.write_u16(n as u16)?;
        let ghost head = self.written();
        let mut k: usize = 0;
        while k < n
            invariant
                n == ids@.len(),
                k <= n,
                old(self).offset + 2 + 4 * n <= usize::MAX,
                self.offset == old(self).offset + 2 + 4 * k,
                self.offset <= self.buffer@.len(),
                head == before + be16(n as u16),
                self.written() == head + be32_list(ids@.take(k as int)),
                self.large == old(self).large,
                self.color_mode == old(self).color_mode,
                self.global_alpha == old(self).global_alpha,
            decreases n - k,
        {
            self.write_u32(ids[k])?;
            assert(ids@.take(k + 1).drop_last() =~= ids@.take(k as int));
            k += 1;
        }
        assert(ids@.take(n as int) =~= ids@);
        proof {
            lemma_be32_list_len(ids@);
        }
        assert(self.written() =~= before + (be16(n as u16) + be32_list(ids@)));
        Ok(())
    }

    /// Writes the URL as its UTF-8 bytes.
    pub fn write_url(&mut self, url: &str) -> (r: PsdResult<()>)
        requires
            old(self).offset + url.spec_bytes().len() <= usize::MAX,
        ensures
            r is Ok,
            old(self).appended(final(self), url.spec_bytes()),
    {
        self.write_ascii_string(url)
    }

    /// Writes XMP metadata as its UTF-8 bytes.
    pub fn write_xmp_metadata(&mut self, xmp: &str) -> (r: PsdResult<()>)
        requires
            old(self).offset + xmp.spec_bytes().len() <= usize::MAX,
        ensures
            r is Ok,
            old(self).appended(final(self), xmp.spec_bytes()),
    {
        self.write_bytes(xmp.as_bytes())
    }

    /// Writes the background color as a color structure.
    pub fn write_background_color(&mut self, color: &Color) -> (r: PsdResult<()>)
        requires
            old(self).offset + 10 <= usize::MAX,
        ensures
            r is Ok <==> crate::io::writer::has_color_structure(Some(*color)),
            r is Ok ==> old(self).appended(final(self), crate::io::writer::color_bytes(Some(*color))),
            r matches Err(e) ==> e is UnsupportedFeature && *final(self) == *old(self),
    {
        self.write_color(Some(color))
    }
}

/// Four bytes per value.
pub proof fn lemma_be32_list_len(vals: Seq<u32>)
    ensures
        be32_list(vals).len() == 4 * vals.len(),
    decreases vals.len(),
{
    if vals.len() > 0 {
        lemma_be32_list_len(vals.drop_last());
    }
}

/// Print flags written as bytes read back unchanged.
pub proof fn law_print_flags_roundtrip(f: PrintFlags)
    ensures
        print_flags_bytes(f).len() == 9,
        print_flags_at(print_flags_bytes(f)) == f,
{
}

/// Value `k` of a 32-bit value list stands at bytes `4k` to `4k + 4`.
pub proof fn lemma_be32_list_at(vals: Seq<u32>, k: int)
    requires
        0 <= k < vals.len(),
    ensures
        be32_list(vals).len() == 4 * vals.len(),
        be32_list(vals).subrange(4 * k, 4 * k + 4) == be32(vals[k]),
    decreases vals.len(),
{
    lemma_be32_list_len(vals);
    let rest = vals.drop_last();
    lemma_be32_list_len(rest);
    if k < vals.len() - 1 {
        lemma_be32_list_at(rest, k);
        assert(be32_list(vals).subrange(4 * k, 4 * k + 4) =~= be32_list(rest).subrange(4 * k, 4 * k + 4));
    } else {
        assert(be32_list(vals).subrange(4 * k, 4 * k + 4) =~= be32(vals[k]));
    }
}

/// Layer selection ids written with their count read back unchanged,
/// when there are at most 65535 of them.
pub proof fn law_layer_selection_ids_roundtrip(pre: Seq<u8>, ids: Seq<u32>, post: Seq<u8>)
    requires
        ids.len() <= 65535,
    ensures
        ({
            let s = pre + (be16(ids.len() as u16) + be32_list(ids)) + post;
            let p = pre.len() as int;
            &&& read16(s, p) == ids.len()
            &&& words32(s, p + 2, ids.len() as int) == ids
            &&& be16(ids.len() as u16).len() + be32_list(ids).len() == 2 + 4 * ids.len()
        }),
{
    let s = pre + (be16(ids.len() as u16) + be32_list(ids)) + post;
    let p = pre.len() as int;
    lemma_be32_list_len(ids);
    assert(s.subrange(p, p + 2) =~= be16(ids.len() as u16));
    lemma_read16_at(s, p, ids.len() as u16);
    assert forall|k: int| 0 <= k < ids.len() implies #[trigger] words32(s, p + 2, ids.len() as int)[k]
        == ids[k] by {
        lemma_be32_list_at(ids, k);
        assert(s.subrange(p + 2 + 4 * k, p + 2 + 4 * k + 4) =~= be32_list(ids).subrange(4 * k, 4 * k + 4));
        lemma_read32_at(s, p + 2 + 4 * k, ids[k]);
    }
    assert(words32(s, p + 2, ids.len() as int) =~= ids);
}

} // verus!

