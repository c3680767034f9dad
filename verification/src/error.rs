//! Error types.

use vstd::prelude::*;
use vstd::string::StringExecFns;
use crate::util::push_char;

verus! {

/// Errors that occur while working with font objects.
#[derive(Debug, Clone, PartialEq, Eq)]
pub enum Error {
    /// An error returned when an expected layer is missing.
    MissingLayer(String),
    /// An error returned when a layer is duplicated.
    DuplicateLayer(String),
    /// An error returned when there is a duplicate glyph.
    DuplicateGlyph {
        /// The layer name.
        layer: String,
        /// The glyph name.
        glyph: String,
    },
    /// An error returned when there is a missing expected glyph.
    MissingGlyph {
        /// The layer name.
        layer: String,
        /// The glyph name.
        glyph: String,
    },
}

/// An error pointing to invalid data in the font's info.
#[derive(Debug, Clone, PartialEq, Eq)]
pub enum FontInfoErrorKind {
    /// openTypeOS2Selection contained bits 0, 5 or 6.
    DisallowedSelectionBits,
    /// Guideline identifiers were not unique within the fontinfo.plist file.
    DuplicateGuidelineIdentifiers,
    /// Found an empty WOFF element or record.
    EmptyWoffAttribute(&'static str),
    /// The openTypeHeadCreated had the wrong format.
    InvalidOpenTypeHeadCreatedDate,
    /// The openTypeOS2FamilyClass had out of range values.
    InvalidOs2FamilyClass,
    /// A Postscript data list had more elements than the specification allows.
    InvalidPostscriptListLength {
        /// The name of the property.
        name: &'static str,
        /// The maximum allowed number of elements.
        max_len: u8,
        /// The found number of elements.
        len: usize,
    },
    /// Unrecognized UFO v1 fontStyle field.
    UnknownFontStyle(i32),
    /// Unrecognized UFO v1 msCharSet field.
    UnknownMsCharSet(i32),
    /// Unrecognized openTypeOS2WidthClass.
    UnknownWidthClass(String),
    /// The openTypeGaspRangeRecords field was unsorted.
    UnsortedGaspEntries,
}

/// An error representing a failure with a particular store entry.
#[derive(Debug, Clone, PartialEq, Eq)]
pub struct StoreEntryError {
    /// The path of the offending entry.
    pub path: String,
    /// The underlying error.
    pub source: StoreError,
}

impl StoreEntryError {
    /// Returns a new [`StoreEntryError`].
    pub fn new(path: String, source: StoreError) -> (r: Self)
        ensures
            r.path == path,
            r.source == source,
    {
        Self { path, source }
    }
}

/// An error representing a failure to insert content into a store.
#[derive(Debug, Clone, PartialEq, Eq)]
pub enum StoreError {
    /// Tried to insert a path whose ancestor is in the store already,
    /// implying nesting a file under a file.
    DirUnderFile,
    /// The path was empty.
    EmptyPath,
    /// The path was neither plain file nor directory, but e.g. a symlink.
    NotPlainFileOrDir,
    /// The path was absolute; only relative paths are allowed.
    PathIsAbsolute,
    /// The path was not a plain file, but e.g. a directory or symlink.
    NotPlainFile,
    /// The path contained a subdirectory; the image store is flat.
    Subdir,
    /// The image did not have a valid PNG header.
    InvalidImage,
}

/// An error representing a failure to validate UFO groups.
#[derive(Debug, Clone, PartialEq, Eq)]
pub enum GroupsValidationError {
    /// An error returned when there is an invalid groups name.
    InvalidName,
    /// An error returned when there are overlapping kerning groups.
    OverlappingKerningGroups {
        /// The glyph name.
        glyph_name: String,
        /// The group name.
        group_name: String,
    },
}

/// An error representing an invalid color string.
#[derive(Debug, Clone, PartialEq, Eq)]
pub struct InvalidColorString {
    /// The source string that caused the error.
    pub string: String,
}

impl InvalidColorString {
    /// Returns a new [`InvalidColorString`] recording the rejected input.
    pub fn new(source: String) -> (r: Self)
        ensures
            r.string == source,
    {
        InvalidColorString { string: source }
    }
}

/// An error returned when there is an inappropriate negative sign on a value.
#[derive(Debug, Clone, PartialEq, Eq)]
pub struct ExpectedPositiveValue;

/// An error returned when there is a problem converting an outline contour.
#[derive(Debug, Clone, PartialEq, Eq)]
pub struct ConvertContourError {
    /// The underlying error.
    pub kind: ErrorKind,
}

impl ConvertContourError {
    /// Returns a new [`ConvertContourError`].
    pub fn new(kind: ErrorKind) -> (r: Self)
        ensures
            r.kind == kind,
    {
        ConvertContourError { kind }
    }
}

/// The reason for a glif parse failure.
#[derive(Debug, Clone, Copy, PartialEq, Eq)]
pub enum ErrorKind {
    /// The glif version is not supported by this library.
    UnsupportedGlifVersion,
    /// An unknown point type.
    UnknownPointType,
    /// The first XML element of a glif file is invalid.
    WrongFirstElement,
    /// Missing a close tag.
    MissingCloseTag,
    /// Has an unexpected tag.
    UnexpectedTag,
    /// Has an invalid hexadecimal value.
    BadHexValue,
    /// Has an invalid numeric value.
    BadNumber,
    /// Has an invalid color value.
    BadColor,
    /// Has an invalid anchor definition.
    BadAnchor,
    /// Has an invalid point definition.
    BadPoint,
    /// Has an invalid guideline definition.
    BadGuideline,
    /// Has an invalid component definition.
    BadComponent,
    /// Has an invalid image definition.
    BadImage,
    /// Has an invalid identifier.
    BadIdentifier,
    /// Has an invalid lib.
    BadLib,
    /// Has an unexpected duplicate value.
    UnexpectedDuplicate,
    /// Has an unexpected move definition.
    UnexpectedMove,
    /// Has an unexpected smooth definition.
    UnexpectedSmooth,
    /// Has an unexpected element definition.
    UnexpectedElement,
    /// Has an unexpected attribute definition.
    UnexpectedAttribute,
    /// Has an unexpected end of file definition.
    UnexpectedEof,
    /// Has an unexpected point following an off curve point definition.
    UnexpectedPointAfterOffCurve,
    /// Has too many off curve points in sequence.
    TooManyOffCurves,
    /// The contour pen path was not started.
    PenPathNotStarted,
    /// Has trailing off curve points defined.
    TrailingOffCurves,
    /// Has duplicate identifiers.
    DuplicateIdentifier,
    /// Has unexpected drawing data.
    UnexpectedDrawing,
    /// Has incomplete drawing data.
    UnfinishedDrawing,
    /// Has an unexpected point field.
    UnexpectedPointField,
    /// Has an unexpected component field.
    UnexpectedComponentField,
    /// Has an unexpected anchor field.
    UnexpectedAnchorField,
    /// Has an unexpected guideline field.
    UnexpectedGuidelineField,
    /// Has an unexpected image field.
    UnexpectedImageField,
}

} // verus!

verus! {

/// The decimal form of a number, with a sign where it is negative.
pub open spec fn spec_signed_decimal(n: int) -> Seq<char> {
    if n < 0 {
        seq!['-'] + crate::filenames::spec_decimal(-n)
    } else {
        crate::filenames::spec_decimal(n)
    }
}

impl FontInfoErrorKind {
    /// A human-readable description of the invalid data, embedding the
    /// variant's fields.
    pub fn message(&self) -> (r: String)
        ensures
            r@ == match *self {
                FontInfoErrorKind::DisallowedSelectionBits => (
                "openTypeOS2Selection must not contain bits 0, 5 or 6")@,
                FontInfoErrorKind::DuplicateGuidelineIdentifiers => (
                "guideline identifiers must be unique within the fontinfo.plist file")@,
                FontInfoErrorKind::EmptyWoffAttribute(s) => ("a '")@ + s@ + (
                "' element must not be empty")@,
                FontInfoErrorKind::InvalidOpenTypeHeadCreatedDate => (
                "openTypeHeadCreated must be of format 'YYYY/MM/DD HH:MM:SS'")@,
                FontInfoErrorKind::InvalidOs2FamilyClass => (
                "openTypeOS2FamilyClass must be two numbers in the range 0-14 and 0-15, respectively")@,
                FontInfoErrorKind::InvalidPostscriptListLength { name, max_len, len } => (
                "the Postscript field '")@ + name@ + ("' must contain at most ")@
                    + crate::filenames::spec_decimal(max_len as int) + (" items but found ")@
                    + crate::filenames::spec_decimal(len as int),
                FontInfoErrorKind::UnknownFontStyle(s) => ("unrecognized fontStyle '")@
                    + spec_signed_decimal(s as int) + ("'")@,
                FontInfoErrorKind::UnknownMsCharSet(c) => ("unrecognized msCharSet '")@
                    + spec_signed_decimal(c as int) + ("'")@,
                FontInfoErrorKind::UnknownWidthClass(w) => ("unrecognized OS/2 width class '")@
                    + w@ + ("'")@,
                FontInfoErrorKind::UnsortedGaspEntries => (
                "openTypeGaspRangeRecords must be sorted by their rangeMaxPPEM values")@,
            },
    {
        match self {
            FontInfoErrorKind::DisallowedSelectionBits => String::from_str(
                "openTypeOS2Selection must not contain bits 0, 5 or 6",
            ),
            FontInfoErrorKind::DuplicateGuidelineIdentifiers => String::from_str(
                "guideline identifiers must be unique within the fontinfo.plist file",
            ),
            FontInfoErrorKind::EmptyWoffAttribute(s) => {
                let mut m = String::from_str("a '");
                m.append(s);
                m.append("' element must not be empty");
                m
            },
            FontInfoErrorKind::InvalidOpenTypeHeadCreatedDate => String::from_str(
                "openTypeHeadCreated must be of format 'YYYY/MM/DD HH:MM:SS'",
            ),
            FontInfoErrorKind::InvalidOs2FamilyClass => String::from_str(
                "openTypeOS2FamilyClass must be two numbers in the range 0-14 and 0-15, respectively",
            ),
            FontInfoErrorKind::InvalidPostscriptListLength { name, max_len, len } => {
                let mut m = String::from_str("the Postscript field '");
                m.append(name);
                m.append("' must contain at most ");
                crate::filenames::push_decimal(*max_len as u128, &mut m);
                m.append(" items but found ");
                crate::filenames::push_decimal(*len as u128, &mut m);
                m
            },
            FontInfoErrorKind::UnknownFontStyle(s) => {
                let mut m = String::from_str("unrecognized fontStyle '");
                push_signed_decimal(*s, &mut m);
                m.append("'");
                m
            },
            FontInfoErrorKind::UnknownMsCharSet(c) => {
                let mut m = String::from_str("unrecognized msCharSet '");
                push_signed_decimal(*c, &mut m);
                m.append("'");
                m
            },
            FontInfoErrorKind::UnknownWidthClass(w) => {
                let mut m = String::from_str("unrecognized OS/2 width class '");
                m.append(w.as_str());
                m.append("'");
                m
            },
            FontInfoErrorKind::UnsortedGaspEntries => String::from_str(
                "openTypeGaspRangeRecords must be sorted by their rangeMaxPPEM values",
            ),
        }
    }
}

/// Appends the decimal form of a signed number, with its sign.
fn push_signed_decimal(n: i32, out: &mut String)
    ensures
        final(out)@ == old(out)@ + spec_signed_decimal(n as int),
{
    if n < 0 {
        push_char(out, '-');
        let mag: u128 = if n == i32::MIN {
            0x80000000u128
        } else {
            (-n) as u128
        };
        proof {
            assert(mag as int == -(n as int));
        }
        crate::filenames::push_decimal(mag, out);
        proof {
            assert(final(out)@ =~= old(out)@ + spec_signed_decimal(n as int));
        }
    } else {
        crate::filenames::push_decimal(n as u128, out);
    }
}

} // verus!
