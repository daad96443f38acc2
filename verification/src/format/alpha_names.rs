//! Names of alpha channels: Pascal-style names (resource 1006) and
//! UTF-16 names (resource 1045).

use crate::bytes::read32;
use crate::error::PsdResult;
use crate::io::reader::{utf16_payload, PsdReader};
use crate::strings::{lossy_utf16, utf8_text};
use vstd::prelude::*;

verus! {

/// Whether `n` bytes at `o` can be read by `r`: inside its section and
/// present.
pub open spec fn readable(r: PsdReader, o: int, n: int) -> bool {
    &&& match r.section_bound() {
        None => true,
        Some(e) => o + n <= e,
    }
    &&& o + n <= r.input().len()
}

/// `found` with `names` put before its names.
pub open spec fn after_names(names: Seq<Seq<char>>, found: Option<(Seq<Seq<char>>, int)>) -> Option<
    (Seq<Seq<char>>, int),
> {
    match found {
        None => None,
        Some((rest, e)) => Some((names + rest, e)),
    }
}

/// The alpha names read by `r` from `o` with `remaining` bytes left: each
/// a length byte and that many bytes of text, while bytes remain.  The
/// result is the names and where reading ends; `None` where a read fails
/// or a name is longer than what remains.
pub open spec fn alpha_names_from(r: PsdReader, o: int, remaining: int) -> Option<
    (Seq<Seq<char>>, int),
>
    decreases remaining,
{
    if remaining <= 0 {
        Some((seq![], o))
    } else if !readable(r, o, 1) {
        None
    } else {
        let len = r.input()[o] as int;
        if !readable(r, o + 1, len) || len > remaining - 1 {
            None
        } else {
            after_names(
                seq![utf8_text(r.input().subrange(o + 1, o + 1 + len))],
                alpha_names_from(r, o + 1 + len, remaining - 1 - len),
            )
        }
    }
}

/// Whether reading alpha names from `o` with `remaining` bytes left comes
/// to a name that was read but is longer than what remains.
pub open spec fn alpha_names_overrun(r: PsdReader, o: int, remaining: int) -> bool
    decreases remaining,
{
    if remaining <= 0 || !readable(r, o, 1) {
        false
    } else {
        let len = r.input()[o] as int;
        if !readable(r, o + 1, len) {
            false
        } else if len > remaining - 1 {
            true
        } else {
            alpha_names_overrun(r, o + 1 + len, remaining - 1 - len)
        }
    }
}

/// The UTF-16 alpha names read by `r` from `o` with `remaining` bytes
/// left: while at least six bytes remain, a 32-bit length that counts a
/// terminating zero unit (zero ends the list), the units, and the zero
/// unit.  One trailing zero among the units is dropped.  The result is the
/// names and where reading ends; `None` where a read fails.
pub open spec fn alpha_unicode_names_from(r: PsdReader, o: int, remaining: int) -> Option<
    (Seq<Seq<char>>, int),
>
    decreases remaining,
{
    if remaining < 6 {
        Some((seq![], o))
    } else if !readable(r, o, 4) {
        None
    } else {
        let n = read32(r.input(), o) as int;
        if n == 0 {
            Some((seq![], o + 4))
        } else {
            let cc = n - 1;
            if (cc > 0 && !readable(r, o + 4, 2 * cc)) || !readable(r, o + 4 + 2 * cc, 2) {
                None
            } else {
                after_names(
                    seq![lossy_utf16(utf16_payload(r.input(), o + 4, cc))],
                    alpha_unicode_names_from(
                        r,
                        o + 6 + 2 * cc,
                        if remaining > 6 + 2 * cc {
                            remaining - 6 - 2 * cc
                        } else {
                            0
                        },
                    ),
                )
            }
        }
    }
}

impl PsdReader {
    /// Reads alpha channel names (resource 1006) of `length` bytes (see
    /// `alpha_names_from`).
    pub fn read_alpha_names(&mut self, length: usize) -> (r: PsdResult<Vec<String>>)
        requires
            !alpha_names_overrun(*old(self), old(self).offset as int, length as int),
        ensures
            match r {
                Ok(names) => alpha_names_from(*old(self), old(self).offset as int, length as int)
                    matches Some((ns, end)) && names.deep_view() == ns && old(self).moved(
                    final(self),
                    end - old(self).offset,
                ),
                Err(e) => alpha_names_from(*old(self), old(self).offset as int, length as int) is None
                    && final(self).same_source(old(self)),
            },
    {
        let ghost s0 = *self;
        let ghost target = alpha_names_from(s0, s0.offset as int, length as int);
        let mut names: Vec<String> = Vec::new();
        let mut remaining = length;
        assert(target == after_names(names.deep_view(), alpha_names_from(s0, s0.offset as int, length as int))) by {
            if let Some((rest, e)) = target {
                assert(names.deep_view() + rest =~= rest);
            }
        }
        while remaining > 0
            invariant
                s0 == *old(self),
                s0.same_source(self),
                self.offset >= s0.offset,
                target == alpha_names_from(s0, s0.offset as int, length as int),
                target == after_names(
                    names.deep_view(),
                    alpha_names_from(s0, self.offset as int, remaining as int),
                ),
                !alpha_names_overrun(s0, self.offset as int, remaining as int),
            decreases remaining,
        {
            let ghost o = self.offset as int;
            let ghost before = names.deep_view();
            let name_len = self.read_u8()? as usize;
            remaining -= 1;
            let name = self.read_bytes(name_len)?;
            remaining -= name_len;
            let text = crate::strings::utf8_lossy(name.as_slice());
            names.push(text);
            proof {
                let t = utf8_text(s0.input().subrange(o + 1, o + 1 + name_len));
                assert(names.deep_view() =~= before.push(t)) by {
                    assert(names.deep_view()[before.len() as int] == t);
                }
                match alpha_names_from(s0, self.offset as int, remaining as int) {
                    Some((rest, e)) => {
                        assert(before + (seq![t] + rest) =~= before.push(t) + rest);
                    },
                    None => {},
                }
            }
        }
        proof {
            assert(names.deep_view() + seq![] =~= names.deep_view());
        }
        Ok(names)
    }

    /// Reads UTF-16 alpha channel names (resource 1045) of `length` bytes
    /// (see `alpha_unicode_names_from`).
    pub fn read_alpha_unicode_names(&mut self, length: usize) -> (r: PsdResult<Vec<String>>)
        ensures
            match r {
                Ok(names) => alpha_unicode_names_from(
                    *old(self),
                    old(self).offset as int,
                    length as int,
                ) matches Some((ns, end)) && names.deep_view() == ns && old(self).moved(
                    final(self),
                    end - old(self).offset,
                ),
                Err(e) => alpha_unicode_names_from(
                    *old(self),
                    old(self).offset as int,
                    length as int,
                ) is None && final(self).same_source(old(self)),
            },
    {
        let ghost s0 = *self;
        let ghost target = alpha_unicode_names_from(s0, s0.offset as int, length as int);
        let mut names: Vec<String> = Vec::new();
        let mut remaining = length;
        assert(target == after_names(
            names.deep_view(),
            alpha_unicode_names_from(s0, s0.offset as int, length as int),
        )) by {
            if let Some((rest, e)) = target {
                assert(names.deep_view() + rest =~= rest);
            }
        }
        while remaining >= 6
            invariant
                s0 == *old(self),
                s0.same_source(self),
                target == alpha_unicode_names_from(s0, s0.offset as int, length as int),
                target == after_names(
                    names.deep_view(),
                    alpha_unicode_names_from(s0, self.offset as int, remaining as int),
                ),
            decreases remaining,
        {
            let ghost o = self.offset as int;
            let ghost before = names.deep_view();
            let name_length = self.read_u32()? as usize;
            if name_length == 0 {
                proof {
                    assert(before + seq![] =~= before);
                }
                return Ok(names);
            }
            let char_count = name_length - 1;
            let name = self.read_unicode_string_with_length(char_count)?;
            let _null = self.read_u16()?;
            names.push(name);
            let used: usize = if char_count > (usize::MAX - 6) / 2 {
                usize::MAX
            } else {
                6 + 2 * char_count
            };
            remaining = remaining.saturating_sub(used);
            proof {
                let t = lossy_utf16(utf16_payload(s0.input(), o + 4, char_count as int));
                assert(names.deep_view() =~= before.push(t)) by {
                    assert(names.deep_view()[before.len() as int] == t);
                }
                match alpha_unicode_names_from(s0, self.offset as int, remaining as int) {
                    Some((rest, e)) => {
                        assert(before + (seq![t] + rest) =~= before.push(t) + rest);
                    },
                    None => {},
                }
            }
        }
        proof {
            assert(names.deep_view() + seq![] =~= names.deep_view());
        }
        Ok(names)
    }
}

} // verus!
