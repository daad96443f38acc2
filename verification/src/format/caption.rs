//! Caption digest (resource 1061): sixteen bytes, shown as 32 lowercase
//! hexadecimal digits.

use crate::error::{invalid_format, PsdResult};
use crate::io::reader::PsdReader;
use crate::io::writer::PsdWriter;
use crate::strings::string_from_chars;
use vstd::prelude::*;
use vstd::string::StringSliceAdditionalSpecFns;

verus! {

/// The lowercase hexadecimal digit of `v` (below 16).
pub open spec fn hex_digit(v: int) -> char {
    if v < 10 {
        (48 + v) as char
    } else {
        (87 + v) as char
    }
}

/// Bytes as lowercase hexadecimal text, two digits per byte.
pub open spec fn hex_text(bytes: Seq<u8>) -> Seq<char> {
    Seq::new(
        2 * bytes.len(),
        |i: int|
            hex_digit(
                if i % 2 == 0 {
                    bytes[i / 2] / 16
                } else {
                    bytes[i / 2] % 16
                } as int,
            ),
    )
}

/// The lowercase hexadecimal digit of `v`.
fn hex_char(v: u8) -> (c: char)
    requires
        v < 16,
    ensures
        c == hex_digit(v as int),
{
    if v < 10 {
        (48 + v) as char
    } else {
        (87 + v) as char
    }
}

impl PsdReader {
    /// Reads a caption digest: sixteen bytes as 32 lowercase hexadecimal
    /// digits.
    pub fn read_caption_digest(&mut self) -> (r: PsdResult<String>)
        ensures
            match r {
                Ok(s) => old(self).can_read(16) && s@ == hex_text(old(self).ahead(16)) && old(
                    self,
                ).moved(final(self), 16),
                Err(e) => final(self).same_source(old(self)) && old(self).split_read_failure(16, e),
            },
    {
        let ghost s0 = *self;
        let mut chars: Vec<char> = Vec::new();
        let mut k: usize = 0;
        while k < 16
            invariant
                k <= 16,
                s0 == *old(self),
                k > 0 ==> s0.can_read(k as int),
                s0.moved(self, k as int),
                k > 0 ==> chars@ == hex_text(s0.ahead(k as int)),
                k == 0 ==> chars@.len() == 0,
            decreases 16 - k,
        {
            let b = match self.read_u8() {
                Ok(b) => b,
                Err(e) => {
                    return Err(e);
                },
            };
            chars.push(hex_char(b / 16));
            chars.push(hex_char(b % 16));
            k += 1;
            assert(chars@ =~= hex_text(s0.ahead(k as int))) by {
                assert forall|i: int| 0 <= i < 2 * k implies chars@[i] == hex_text(
                    s0.ahead(k as int),
                )[i] by {
                    if i < 2 * (k - 1) {
                        assert(k - 1 > 0);
                        assert(s0.ahead(k - 1)[i / 2] == s0.ahead(k as int)[i / 2]);
                    }
                }
            }
        }
        Ok(string_from_chars(chars.as_slice()))
    }
}

/// The value of a hexadecimal digit's character code, either case.
pub open spec fn hex_value(c: u8) -> Option<u8> {
    if 48 <= c <= 57 {
        Some((c - 48) as u8)
    } else if 97 <= c <= 102 {
        Some((c - 87) as u8)
    } else if 65 <= c <= 70 {
        Some((c - 55) as u8)
    } else {
        None
    }
}

/// The value of two bytes parsed as an unsigned hexadecimal number: two
/// digits, or a plus sign and one digit.
pub open spec fn hex_pair(a: u8, b: u8) -> Option<u8> {
    if a == 43 {
        hex_value(b)
    } else {
        match (hex_value(a), hex_value(b)) {
            (Some(x), Some(y)) => Some((16 * x + y) as u8),
            _ => None,
        }
    }
}

/// A caption digest is written as two lowercase hexadecimal digits per
/// byte, the high nibble first; read back, each pair of digits (either
/// case) gives sixteen times the first digit's value plus the second's.
pub proof fn law_hex_digest(b: Seq<u8>, i: int, t: Seq<u8>, k: int)
    requires
        0 <= i < b.len(),
        0 <= k < 16,
        2 * k + 1 < t.len(),
        forall|j: int| 2 * k <= j <= 2 * k + 1 ==> (48 <= #[trigger] t[j] <= 57 || 97 <= t[j] <= 102
            || 65 <= t[j] <= 70),
    ensures
        ({
            let hi = b[i] / 16;
            let lo = b[i] % 16;
            &&& hex_text(b).len() == 2 * b.len()
            &&& hex_text(b)[2 * i] == (if hi < 10 {
                (48 + hi) as char
            } else {
                (97 + hi - 10) as char
            })
            &&& hex_text(b)[2 * i + 1] == (if lo < 10 {
                (48 + lo) as char
            } else {
                (97 + lo - 10) as char
            })
        }),
        t[2 * k] != 43 ==> ({
            let a = t[2 * k];
            let c = t[2 * k + 1];
            let va = if a <= 57 { a - 48 } else if a >= 97 { a - 87 } else { a - 55 };
            let vc = if c <= 57 { c - 48 } else if c >= 97 { c - 87 } else { c - 55 };
            &&& pair_parses(t, k)
            &&& digest_bytes(t)[k] == 16 * va + vc
        }),
{
    assert((2 * i) / 2 == i && (2 * i) % 2 == 0);
    assert((2 * i + 1) / 2 == i && (2 * i + 1) % 2 == 1);
    assert(48 <= t[2 * k] <= 57 || 97 <= t[2 * k] <= 102 || 65 <= t[2 * k] <= 70);
    assert(48 <= t[2 * k + 1] <= 57 || 97 <= t[2 * k + 1] <= 102 || 65 <= t[2 * k + 1] <= 70);
}

/// Whether byte `k` of UTF-8 text starts a character or ends the text.
pub open spec fn char_boundary(bytes: Seq<u8>, k: int) -> bool {
    k == bytes.len() || (0 <= k < bytes.len() && !(128 <= bytes[k] && bytes[k] < 192))
}

/// Whether pair `i` of the digest text can be cut out of it.
pub open spec fn pair_cuttable(bytes: Seq<u8>, i: int) -> bool {
    2 * i + 2 <= bytes.len() && char_boundary(bytes, 2 * i) && char_boundary(bytes, 2 * i + 2)
}

/// Whether pair `i` of the digest text parses.
pub open spec fn pair_parses(bytes: Seq<u8>, i: int) -> bool {
    hex_pair(bytes[2 * i], bytes[2 * i + 1]) is Some
}

/// Whether the pairs from `i` on can be cut out until one fails to parse
/// or sixteen were taken.
pub open spec fn digest_pairs_cuttable(bytes: Seq<u8>, i: int) -> bool
    decreases 16 - i,
{
    i >= 16 || (pair_cuttable(bytes, i) && (!pair_parses(bytes, i) || digest_pairs_cuttable(
        bytes,
        i + 1,
    )))
}

/// The sixteen bytes a digest's text gives where every pair parses.
pub open spec fn digest_bytes(bytes: Seq<u8>) -> Seq<u8> {
    Seq::new(16, |i: int| hex_pair(bytes[2 * i], bytes[2 * i + 1])->0)
}

/// Whether every one of the sixteen pairs parses.
pub open spec fn digest_parses(bytes: Seq<u8>) -> bool {
    forall|i: int| 0 <= i < 16 ==> #[trigger] pair_parses(bytes, i)
}

/// Parses two bytes as an unsigned hexadecimal number.
fn parse_hex_pair(a: u8, b: u8) -> (r: Option<u8>)
    ensures
        r == hex_pair(a, b),
{
    let digit = |c: u8| -> (r: Option<u8>)
        ensures
            r == hex_value(c),
        {
            if 48 <= c && c <= 57 {
                Some(c - 48)
            } else if 97 <= c && c <= 102 {
                Some(c - 87)
            } else if 65 <= c && c <= 70 {
                Some(c - 55)
            } else {
                None
            }
        };
    if a == 43 {
        digit(b)
    } else {
        match (digit(a), digit(b)) {
            (Some(x), Some(y)) => Some(16 * x + y),
            _ => None,
        }
    }
}

/// Whether pairs `0..k` all parse.
proof fn lemma_cuttable_prefix(bytes: Seq<u8>, i: int, k: int)
    requires
        0 <= i <= k < 16,
        digest_pairs_cuttable(bytes, i),
        forall|j: int| i <= j < k ==> #[trigger] pair_parses(bytes, j),
    ensures
        pair_cuttable(bytes, k),
    decreases k - i,
{
    if i < k {
        lemma_cuttable_prefix(bytes, i + 1, k);
    }
}

impl PsdWriter {
    /// Writes a caption digest given as 32 hexadecimal digits; text whose
    /// pairs do not all parse is an invalid format.
    pub fn write_caption_digest(&mut self, digest: &str) -> (r: PsdResult<()>)
        requires
            digest_pairs_cuttable(digest.spec_bytes(), 0),
            old(self).offset + 16 <= usize::MAX,
        ensures
            r is Ok <==> digest_parses(digest.spec_bytes()),
            r is Ok ==> old(self).appended(final(self), digest_bytes(digest.spec_bytes())),
            r matches Err(e) ==> e is InvalidFormat,
    {
        let bytes = digest.as_bytes();
        let ghost b = digest.spec_bytes();
        let ghost before = self.written();
        let mut out: Vec<u8> = Vec::new();
        let mut i: usize = 0;
        while i < 16
            invariant
                i <= 16,
                bytes@ == b,
                b == digest.spec_bytes(),
                digest_pairs_cuttable(b, 0),
                forall|j: int| 0 <= j < i ==> #[trigger] pair_parses(b, j),
                out@ == digest_bytes(b).take(i as int),
            decreases 16 - i,
        {
            proof {
                lemma_cuttable_prefix(b, 0, i as int);
            }
            let v = match parse_hex_pair(bytes[2 * i], bytes[2 * i + 1]) {
                Some(v) => v,
                None => {
                    assert(!pair_parses(b, i as int));
                    assert(!digest_parses(b));
                    return Err(invalid_format("Invalid hex digest"));
                },
            };
            out.push(v);
            i += 1;
            assert(out@ =~= digest_bytes(b).take(i as int));
        }
        assert(digest_bytes(b).take(16) =~= digest_bytes(b));
        self.write_bytes(out.as_slice())?;
        Ok(())
    }
}


/// A caption digest read as hexadecimal text and written back gives the
/// same sixteen bytes.
pub proof fn law_caption_digest_roundtrip(bytes: Seq<u8>)
    requires
        bytes.len() == 16,
    ensures
        ({
            let t = vstd::utf8::encode_utf8(hex_text(bytes));
            &&& digest_pairs_cuttable(t, 0)
            &&& digest_parses(t)
            &&& digest_bytes(t) == bytes
        }),
{
    let h = hex_text(bytes);
    assert(vstd::utf8::is_ascii_chars(h)) by {
        assert forall|i: int| 0 <= i < h.len() implies '\0' <= #[trigger] h[i] <= '\u{7f}' by {
            let v = if i % 2 == 0 {
                bytes[i / 2] / 16
            } else {
                bytes[i / 2] % 16
            };
            assert(0 <= v < 16);
        }
    }
    vstd::utf8::is_ascii_chars_encode_utf8(h);
    let t = vstd::utf8::encode_utf8(h);
    assert(t.len() == 32);
    assert forall|k: int| 0 <= k < 32 implies #[trigger] hex_value(t[k]) == Some(
        (if k % 2 == 0 {
            bytes[k / 2] / 16
        } else {
            bytes[k / 2] % 16
        }) as u8,
    ) by {
        assert(h[k] as u8 == t[k]);
    }
    assert forall|i: int| 0 <= i < 16 implies #[trigger] pair_parses(t, i) && hex_pair(
        t[2 * i],
        t[2 * i + 1],
    ) == Some(bytes[i]) by {
        assert(hex_value(t[2 * i]) == Some((bytes[i] / 16) as u8));
        assert(hex_value(t[2 * i + 1]) == Some((bytes[i] % 16) as u8));
        assert(t[2 * i] != 43u8);
    }
    assert(digest_bytes(t) =~= bytes);
    lemma_all_cuttable(t, 0);
}

/// Text of 32 ASCII bytes whose pairs all parse can be cut into pairs.
proof fn lemma_all_cuttable(t: Seq<u8>, i: int)
    requires
        t.len() == 32,
        0 <= i <= 16,
        forall|k: int| 0 <= k < 32 ==> #[trigger] t[k] < 128,
    ensures
        digest_pairs_cuttable(t, i),
    decreases 16 - i,
{
    if i < 16 {
        lemma_all_cuttable(t, i + 1);
        assert(t[2 * i] < 128);
        if 2 * i + 2 < 32 {
            assert(t[2 * i + 2] < 128);
        }
    }
}

} // verus!
