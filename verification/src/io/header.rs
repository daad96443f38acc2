//! The file header: signature, version, channel count, size, depth and
//! color mode, 26 bytes at the start of every document.

use vstd::prelude::*;
use crate::bytes::{read16, read32, u16_from_be, u32_from_be};
use crate::error::{decimal, decimal_string, error_detail, invalid_format, signature_mismatch, PsdError, PsdResult};
use crate::io::reader::PsdReader;
use crate::strings::{utf8_lossy, utf8_text};
use crate::types::{color_mode_code, ColorMode};
use vstd::string::StringExecFns;

verus! {

/// The fields of a valid header.
pub struct PsdHeader {
    /// 1 for PSD, 2 for PSB.
    pub version: u16,
    pub channels: u16,
    pub height: u32,
    pub width: u32,
    pub bits_per_channel: u16,
    pub color_mode: ColorMode,
}

/// The header fields stored at `o`, each at its offset.
pub open spec fn header_version(b: Seq<u8>, o: int) -> u16 {
    read16(b, o + 4)
}

pub open spec fn header_channels(b: Seq<u8>, o: int) -> u16 {
    read16(b, o + 12)
}

pub open spec fn header_height(b: Seq<u8>, o: int) -> u32 {
    read32(b, o + 14)
}

pub open spec fn header_width(b: Seq<u8>, o: int) -> u32 {
    read32(b, o + 18)
}

pub open spec fn header_depth(b: Seq<u8>, o: int) -> u16 {
    read16(b, o + 22)
}

pub open spec fn header_mode(b: Seq<u8>, o: int) -> u16 {
    read16(b, o + 24)
}

/// Whether the signature at `o` is `8BPS`.
pub open spec fn header_signature_ok(b: Seq<u8>, o: int) -> bool {
    b[o] == 0x38 && b[o + 1] == 0x42 && b[o + 2] == 0x50 && b[o + 3] == 0x53
}

/// Whether the six reserved bytes after the version are zero.
pub open spec fn header_reserved_ok(b: Seq<u8>, o: int) -> bool {
    forall|k: int| 6 <= k < 12 ==> #[trigger] b[o + k] == 0
}

/// Whether a width and height are allowed for a version: not zero, and at
/// most 30000 for PSD and 300000 for PSB.
pub open spec fn header_size_ok(version: u16, width: u32, height: u32) -> bool {
    let max: u32 = if version == 1 {
        30000
    } else {
        300000
    };
    0 < width <= max && 0 < height <= max
}

/// Whether a bit depth is one that documents use.
pub open spec fn header_depth_ok(depth: u16) -> bool {
    depth == 1 || depth == 8 || depth == 16 || depth == 32
}

/// Whether a color mode code names a color mode.
pub open spec fn header_mode_ok(code: u16) -> bool {
    exists|m: ColorMode| color_mode_code(m) == code
}

/// The first check of the header at `o` that fails, in the order the
/// header is checked, as the error's detail; `None` when all pass.
pub open spec fn header_problem(b: Seq<u8>, o: int) -> Option<Seq<char>> {
    let version = header_version(b, o);
    let width = header_width(b, o);
    let height = header_height(b, o);
    let channels = header_channels(b, o);
    let depth = header_depth(b, o);
    if !header_signature_ok(b, o) {
        Some("Invalid signature: expected '"@ + "8BPS"@ + "', got '"@ + utf8_text(b.subrange(o, o + 4))
            + "'"@)
    } else if version != 1 && version != 2 {
        Some("Invalid PSD file version: "@ + decimal(version as nat))
    } else if !header_reserved_ok(b, o) {
        Some("Header reserved bytes must be zero"@)
    } else if !header_size_ok(version, width, height) {
        Some("Invalid size: "@ + decimal(width as nat) + "x"@ + decimal(height as nat))
    } else if channels == 0 || channels > 56 {
        Some("Invalid channel count: "@ + decimal(channels as nat))
    } else if !header_depth_ok(depth) {
        Some("Invalid bits per channel: "@ + decimal(depth as nat))
    } else if !header_mode_ok(header_mode(b, o)) {
        Some("Invalid color mode: "@ + decimal(header_mode(b, o) as nat))
    } else {
        None
    }
}

/// Reads and checks the file header.  A valid header sets the reader to
/// PSB layout for version 2 and records the color mode; every check that
/// fails is refused with its own message, the first one in header order.
#[verifier::loop_isolation(false)]
pub fn read_psd_header(reader: &mut PsdReader) -> (r: PsdResult<PsdHeader>)
    ensures
        ({
            let b = old(reader).input();
            let o = old(reader).offset as int;
            &&& !old(reader).can_read(26) ==> (r matches Err(e) && old(reader).read_failure(26, e)
                && *final(reader) == *old(reader))
            &&& old(reader).can_read(26) ==> (match header_problem(b, o) {
                Some(detail) => r matches Err(e) && e is InvalidFormat && error_detail(e) == detail,
                None => r matches Ok(h) && h.version == header_version(b, o) && h.channels
                    == header_channels(b, o) && h.height == header_height(b, o) && h.width
                    == header_width(b, o) && h.bits_per_channel == header_depth(b, o)
                    && color_mode_code(h.color_mode) == header_mode(b, o) && final(reader).large
                    == (h.version == 2) && final(reader).color_mode == Some(h.color_mode)
                    && final(reader).offset == old(reader).offset + 26 && final(reader).input()
                    == b && final(reader).section_end == old(reader).section_end,
            })
        }),
{
    let ghost b = reader.input();
    let ghost o = reader.offset as int;
    let bytes = reader.read_bytes(26)?;
    assert(forall|k: int| 0 <= k < 26 ==> #[trigger] bytes@[k] == b[o + k]);
    if !(bytes[0] == 0x38 && bytes[1] == 0x42 && bytes[2] == 0x50 && bytes[3] == 0x53) {
        let found = utf8_lossy(&bytes.as_slice()[0..4]);
        proof {
            assert(bytes@.subrange(0, 4) =~= b.subrange(o, o + 4));
        }
        assert(found@ == utf8_text(b.subrange(o, o + 4)));
        assert(!header_signature_ok(b, o));
        return Err(signature_mismatch("8BPS", found.as_str()));
    }
    assert(header_signature_ok(b, o));
    let version = u16_from_be(bytes[4], bytes[5]);
    assert(version == header_version(b, o));
    if version != 1 && version != 2 {
        let digits = decimal_string(version as u64);
        return Err(
            PsdError::InvalidFormat(String::from_str("Invalid PSD file version: ").concat(digits.as_str())),
        );
    }
    let mut k: usize = 6;
    while k < 12
        invariant
            6 <= k <= 12,
            bytes@.len() == 26,
            forall|q: int| 0 <= q < 26 ==> #[trigger] bytes@[q] == b[o + q],
            forall|q: int| 6 <= q < k ==> #[trigger] b[o + q] == 0,
        decreases 12 - k,
    {
        if bytes[k] != 0 {
            assert(b[o + k] != 0);
            assert(!header_reserved_ok(b, o));
            return Err(invalid_format("Header reserved bytes must be zero"));
        }
        k = k + 1;
    }
    assert(header_reserved_ok(b, o));
    let channels = u16_from_be(bytes[12], bytes[13]);
    let height = u32_from_be(bytes[14], bytes[15], bytes[16], bytes[17]);
    let width = u32_from_be(bytes[18], bytes[19], bytes[20], bytes[21]);
    let depth = u16_from_be(bytes[22], bytes[23]);
    let code = u16_from_be(bytes[24], bytes[25]);
    let max: u32 = if version == 1 {
        30000
    } else {
        300000
    };
    if width > max || height > max || width == 0 || height == 0 {
        let w = decimal_string(width as u64);
        let h = decimal_string(height as u64);
        return Err(
            PsdError::InvalidFormat(
                String::from_str("Invalid size: ").concat(w.as_str()).concat("x").concat(h.as_str()),
            ),
        );
    }
    if channels == 0 || channels > 56 {
        let digits = decimal_string(channels as u64);
        return Err(
            PsdError::InvalidFormat(String::from_str("Invalid channel count: ").concat(digits.as_str())),
        );
    }
    if !(depth == 1 || depth == 8 || depth == 16 || depth == 32) {
        let digits = decimal_string(depth as u64);
        return Err(
            PsdError::InvalidFormat(String::from_str("Invalid bits per channel: ").concat(digits.as_str())),
        );
    }
    let color_mode = match ColorMode::from_code(code) {
        Some(m) => m,
        None => {
            let digits = decimal_string(code as u64);
            return Err(
                PsdError::InvalidFormat(String::from_str("Invalid color mode: ").concat(digits.as_str())),
            );
        },
    };
    reader.large = version == 2;
    reader.color_mode = Some(color_mode);
    Ok(PsdHeader { version, channels, height, width, bits_per_channel: depth, color_mode })
}

} // verus!
