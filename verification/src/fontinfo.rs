//! Validation and upconversion rules for font-level info.
//!
//! Each check mirrors one rule the UFO format places on `fontinfo` data:
//! reserved OS/2 selection bits, the head-table creation date's format,
//! family class ranges, bounded Postscript hint lists, sorted gasp records,
//! unique guideline identifiers, and the legacy font style enumeration.

use vstd::prelude::*;
use vstd::string::StrSliceExecFns;
use crate::error::FontInfoErrorKind;
use crate::shared::Guideline;
use crate::glyph::opt_id_view;

verus! {

/// Selection bits zero, five and six are reserved: they are derived from
/// other fields and must not be stored.
pub open spec fn has_reserved_selection_bit(bits: Seq<u32>) -> bool {
    exists|i: int| 0 <= i < bits.len() && (bits[i] == 0 || bits[i] == 5 || bits[i] == 6)
}

/// Checks an openTypeOS2Selection list for the reserved bits.
pub fn validate_os2_selection(bits: &Vec<u32>) -> (r: Result<(), FontInfoErrorKind>)
    ensures
        match r {
            Ok(()) => !has_reserved_selection_bit(bits@),
            Err(e) => has_reserved_selection_bit(bits@) && e
                == FontInfoErrorKind::DisallowedSelectionBits,
        },
{
    let n = bits.len();
    let mut i: usize = 0;
    while i < n
        invariant
            i <= n,
            n == bits@.len(),
            forall|j: int| 0 <= j < i ==> bits@[j] != 0 && bits@[j] != 5 && bits@[j] != 6,
        decreases n - i,
    {
        let b = bits[i];
        if b == 0 || b == 5 || b == 6 {
            return Err(FontInfoErrorKind::DisallowedSelectionBits);
        }
        i += 1;
    }
    Ok(())
}

/// Whether the class pair lies in the ranges the OS/2 table allows.
pub open spec fn valid_os2_family_class(class: i64, subclass: i64) -> bool {
    0 <= class <= 14 && 0 <= subclass <= 15
}

/// Checks an openTypeOS2FamilyClass pair against its allowed ranges.
pub fn validate_os2_family_class(class: i64, subclass: i64) -> (r: Result<(), FontInfoErrorKind>)
    ensures
        match r {
            Ok(()) => valid_os2_family_class(class, subclass),
            Err(e) => !valid_os2_family_class(class, subclass) && e
                == FontInfoErrorKind::InvalidOs2FamilyClass,
        },
{
    if class < 0 || class > 14 || subclass < 0 || subclass > 15 {
        return Err(FontInfoErrorKind::InvalidOs2FamilyClass);
    }
    Ok(())
}

/// Checks a Postscript hint list's length against the bound the
/// specification places on the named property.
pub fn validate_postscript_list_length(name: &'static str, max_len: u8, len: usize) -> (r: Result<
    (),
    FontInfoErrorKind,
>)
    ensures
        match r {
            Ok(()) => len <= max_len,
            Err(e) => len > max_len && e == (FontInfoErrorKind::InvalidPostscriptListLength {
                name,
                max_len,
                len,
            }),
        },
{
    if len > max_len as usize {
        return Err(FontInfoErrorKind::InvalidPostscriptListLength { name, max_len, len });
    }
    Ok(())
}

/// One record of the gasp table: rasterizer behavior up to a size.
#[derive(Debug, PartialEq)]
pub struct GaspRangeRecord {
    /// The upper limit of the size range, in pixels per em.
    pub range_max_ppem: u32,
    /// The rasterizer behavior bits for the range.
    pub range_gasp_behavior: Vec<u32>,
}

/// Whether gasp records are sorted by their upper size limits.
pub open spec fn gasp_records_sorted(records: Seq<GaspRangeRecord>) -> bool {
    forall|i: int, j: int|
        0 <= i < j < records.len() ==> records[i].range_max_ppem <= records[j].range_max_ppem
}

/// Checks that openTypeGaspRangeRecords is non-decreasing by rangeMaxPPEM.
pub fn validate_gasp_records(records: &Vec<GaspRangeRecord>) -> (r: Result<(), FontInfoErrorKind>)
    ensures
        match r {
            Ok(()) => gasp_records_sorted(records@),
            Err(e) => !gasp_records_sorted(records@) && e
                == FontInfoErrorKind::UnsortedGaspEntries,
        },
{
    let n = records.len();
    let mut i: usize = 1;
    while i < n
        invariant
            1 <= i <= n || n == 0,
            n == records@.len(),
            forall|j: int|
                0 < j < i ==> records@[j - 1].range_max_ppem <= (#[trigger] records@[j]).range_max_ppem,
        decreases n - i,
    {
        if records[i - 1].range_max_ppem > records[i].range_max_ppem {
            return Err(FontInfoErrorKind::UnsortedGaspEntries);
        }
        i += 1;
    }
    proof {
        assert forall|a: int, b: int|
            0 <= a < b < records@.len() implies records@[a].range_max_ppem
            <= records@[b].range_max_ppem by {
            lemma_adjacent_sorted(records@, a, b);
        }
    }
    Ok(())
}

/// Adjacent order extends to any two positions.
proof fn lemma_adjacent_sorted(records: Seq<GaspRangeRecord>, a: int, b: int)
    requires
        forall|j: int|
            0 < j < records.len() ==> records[j - 1].range_max_ppem <= (#[trigger] records[j]).range_max_ppem,
        0 <= a <= b < records.len(),
    ensures
        records[a].range_max_ppem <= records[b].range_max_ppem,
    decreases b - a,
{
    if a < b {
        lemma_adjacent_sorted(records, a, b - 1);
    }
}

/// Whether a character is an ASCII digit.
pub open spec fn is_ascii_digit(c: char) -> bool {
    '0' <= c && c <= '9'
}

/// Whether a character sequence has the shape `YYYY/MM/DD HH:MM:SS`.
pub open spec fn valid_head_created(s: Seq<char>) -> bool {
    &&& s.len() == 19
    &&& s[4] == '/'
    &&& s[7] == '/'
    &&& s[10] == ' '
    &&& s[13] == ':'
    &&& s[16] == ':'
    &&& forall|i: int|
        0 <= i < 19 && i != 4 && i != 7 && i != 10 && i != 13 && i != 16 ==> is_ascii_digit(
            #[trigger] s[i],
        )
}

/// Checks an openTypeHeadCreated date string for the shape
/// `YYYY/MM/DD HH:MM:SS`.
pub fn validate_head_created(s: &str) -> (r: Result<(), FontInfoErrorKind>)
    ensures
        match r {
            Ok(()) => valid_head_created(s@),
            Err(e) => !valid_head_created(s@) && e
                == FontInfoErrorKind::InvalidOpenTypeHeadCreatedDate,
        },
{
    let n = s.unicode_len();
    if n != 19 {
        return Err(FontInfoErrorKind::InvalidOpenTypeHeadCreatedDate);
    }
    let mut i: usize = 0;
    while i < 19
        invariant
            i <= 19,
            s@.len() == 19,
            forall|j: int|
                0 <= j < i ==> (if j == 4 || j == 7 {
                    s@[j] == '/'
                } else if j == 10 {
                    s@[j] == ' '
                } else if j == 13 || j == 16 {
                    s@[j] == ':'
                } else {
                    is_ascii_digit(s@[j])
                }),
        decreases 19 - i,
    {
        let c = s.get_char(i);
        let ok = if i == 4 || i == 7 {
            c == '/'
        } else if i == 10 {
            c == ' '
        } else if i == 13 || i == 16 {
            c == ':'
        } else {
            c >= '0' && c <= '9'
        };
        if !ok {
            return Err(FontInfoErrorKind::InvalidOpenTypeHeadCreatedDate);
        }
        i += 1;
    }
    Ok(())
}

/// Whether two guidelines carry the same identifier.
pub open spec fn guideline_ids_unique(gs: Seq<Guideline>) -> bool {
    forall|i: int, j: int|
        0 <= i < j < gs.len() ==> opt_id_view(gs[i].identifier) is Some ==> opt_id_view(
            gs[i].identifier,
        ) != opt_id_view(gs[j].identifier)
}

/// Checks that guideline identifiers are unique within the font info.
pub fn validate_guideline_identifiers(gs: &Vec<Guideline>) -> (r: Result<(), FontInfoErrorKind>)
    ensures
        match r {
            Ok(()) => guideline_ids_unique(gs@),
            Err(e) => !guideline_ids_unique(gs@) && e
                == FontInfoErrorKind::DuplicateGuidelineIdentifiers,
        },
{
    let n = gs.len();
    let mut i: usize = 0;
    while i < n
        invariant
            i <= n,
            n == gs@.len(),
            forall|a: int, b: int|
                0 <= a < b < gs@.len() && a < i ==> opt_id_view(gs@[a].identifier) is Some
                    ==> opt_id_view(gs@[a].identifier) != opt_id_view(gs@[b].identifier),
        decreases n - i,
    {
        match gs[i].identifier() {
            Some(id) => {
                let mut j: usize = i + 1;
                while j < n
                    invariant
                        i < j <= n,
                        i < n,
                        n == gs@.len(),
                        opt_id_view(gs@[i as int].identifier) == Some(id@),
                        forall|b: int|
                            i < b < j ==> opt_id_view(gs@[i as int].identifier) != opt_id_view(
                                gs@[b].identifier,
                            ),
                    decreases n - j,
                {
                    match gs[j].identifier() {
                        Some(other) => {
                            if crate::util::str_eq(id.as_str(), other.as_str()) {
                                return Err(FontInfoErrorKind::DuplicateGuidelineIdentifiers);
                            }
                        },
                        None => {},
                    }
                    j += 1;
                }
            },
            None => {},
        }
        i += 1;
    }
    Ok(())
}

/// The style-map style of a font, as UFO v3 records it.
#[derive(Debug, Clone, Copy, PartialEq, Eq, Structural)]
pub enum StyleMapStyle {
    /// The regular style.
    Regular,
    /// The italic style.
    Italic,
    /// The bold style.
    Bold,
    /// The bold italic style.
    BoldItalic,
}

/// The style a legacy fontStyle number denotes, if it is a known one.
pub open spec fn spec_style_for(style: i32) -> Option<StyleMapStyle> {
    if style == 64 {
        Some(StyleMapStyle::Regular)
    } else if style == 1 {
        Some(StyleMapStyle::Italic)
    } else if style == 32 {
        Some(StyleMapStyle::Bold)
    } else if style == 33 {
        Some(StyleMapStyle::BoldItalic)
    } else {
        None
    }
}

/// Upconverts the UFO v1 numeric fontStyle field to a style-map style.
pub fn upconvert_font_style(style: i32) -> (r: Result<StyleMapStyle, FontInfoErrorKind>)
    ensures
        match r {
            Ok(s) => spec_style_for(style) == Some(s),
            Err(e) => spec_style_for(style) is None && e == FontInfoErrorKind::UnknownFontStyle(
                style,
            ),
        },
{
    match style {
        64 => Ok(StyleMapStyle::Regular),
        1 => Ok(StyleMapStyle::Italic),
        32 => Ok(StyleMapStyle::Bold),
        33 => Ok(StyleMapStyle::BoldItalic),
        _ => Err(FontInfoErrorKind::UnknownFontStyle(style)),
    }
}

} // verus!
