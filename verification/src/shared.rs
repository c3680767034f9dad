//! Shared primitives: identifiers, colors and guidelines.

use vstd::prelude::*;
use vstd::string::StrSliceExecFns;
use crate::error::{ErrorKind, InvalidColorString};
use crate::plist::Plist;
use crate::util::push_char;

verus! {

/// The reserved lib key under which per-object libs are stored on disk.
pub const PUBLIC_OBJECT_LIBS_KEY: &'static str = "public.objectLibs";

/// Whether a character lies in the printable ASCII range.
pub open spec fn printable_ascii(c: char) -> bool {
    0x20 <= c as u32 <= 0x7e
}

/// Whether a character sequence is a well-formed identifier: between one and
/// a hundred characters, all printable ASCII.
pub open spec fn valid_identifier(s: Seq<char>) -> bool {
    &&& 1 <= s.len() <= 100
    &&& forall|i: int| 0 <= i < s.len() ==> printable_ascii(s[i])
}

/// A unique identifier for a sub-object within a glyph: an opaque string of
/// one to a hundred printable ASCII characters.
#[derive(Debug, PartialEq, Eq)]
pub struct Identifier {
    inner: String,
}

impl View for Identifier {
    type V = Seq<char>;

    closed spec fn view(&self) -> Seq<char> {
        self.inner@
    }
}

/// The character for a single hexadecimal digit, lower case.
pub open spec fn spec_hex_char(n: u8) -> char {
    if n == 0 { '0' } else if n == 1 { '1' } else if n == 2 { '2' } else if n == 3 { '3' }
    else if n == 4 { '4' } else if n == 5 { '5' } else if n == 6 { '6' } else if n == 7 { '7' }
    else if n == 8 { '8' } else if n == 9 { '9' } else if n == 10 { 'a' } else if n == 11 { 'b' }
    else if n == 12 { 'c' } else if n == 13 { 'd' } else if n == 14 { 'e' } else { 'f' }
}

/// The character for a single hexadecimal digit, lower case.
pub fn hex_char(n: u8) -> (c: char)
    requires
        n < 16,
    ensures
        c == spec_hex_char(n),
        printable_ascii(c),
{
    match n {
        0 => '0',
        1 => '1',
        2 => '2',
        3 => '3',
        4 => '4',
        5 => '5',
        6 => '6',
        7 => '7',
        8 => '8',
        9 => '9',
        10 => 'a',
        11 => 'b',
        12 => 'c',
        13 => 'd',
        14 => 'e',
        _ => 'f',
    }
}


/// Whether a character is a lower-case hexadecimal digit.
pub open spec fn is_hex_digit_lower(c: char) -> bool {
    ('0' <= c && c <= '9') || ('a' <= c && c <= 'f')
}

/// Whether a character sequence is the text of a version 4 UUID.
pub open spec fn uuid_v4_text(s: Seq<char>) -> bool {
    &&& s.len() == 36
    &&& s[8] == '-' && s[13] == '-' && s[18] == '-' && s[23] == '-'
    &&& forall|i: int|
        0 <= i < 36 && i != 8 && i != 13 && i != 18 && i != 23 ==> is_hex_digit_lower(
            #[trigger] s[i],
        )
    &&& s[14] == '4'
    &&& s[19] == '8' || s[19] == '9' || s[19] == 'a' || s[19] == 'b'
}

/// Every hexadecimal digit character is a printable lower-case digit.
proof fn lemma_hex_chars_lower()
    ensures
        forall|n: u8| n < 16 ==> is_hex_digit_lower(#[trigger] spec_hex_char(n)),
        forall|n: u8| n < 16 ==> printable_ascii(#[trigger] spec_hex_char(n)),
{
}

/// Appends the two hexadecimal digits of a byte.
fn push_byte_hex(s: &mut String, b: u8)
    ensures
        final(s)@ == old(s)@.push(spec_hex_char(b / 16)).push(spec_hex_char(b % 16)),
{
    push_char(s, hex_char(b / 16));
    push_char(s, hex_char(b % 16));
}

/// Relies on `rand::random` to draw sixteen uniformly random bytes from the
/// thread-local generator. It can abort if the operating system's entropy
/// source fails at first use; that is environmental, not input-dependent.
#[verifier::external_body]
fn random_bytes_16() -> (r: [u8; 16]) {
    rand::random()
}

impl Identifier {
    #[verifier::type_invariant]
    pub(crate) open spec fn type_inv(self) -> bool {
        valid_identifier(self@)
    }

    /// Creates an identifier from a string, rejecting strings that are
    /// empty, longer than a hundred characters, or not printable ASCII.
    pub fn new(s: String) -> (r: Result<Identifier, ErrorKind>)
        ensures
            match r {
                Ok(id) => valid_identifier(s@) && id@ == s@,
                Err(e) => !valid_identifier(s@) && e == ErrorKind::BadIdentifier,
            },
    {
        let n = s.as_str().unicode_len();
        if n < 1 || n > 100 {
            return Err(ErrorKind::BadIdentifier);
        }
        let mut i: usize = 0;
        while i < n
            invariant
                i <= n,
                n == s@.len(),
                forall|j: int| 0 <= j < i ==> printable_ascii(s@[j]),
            decreases n - i,
        {
            let c = s.as_str().get_char(i);
            let u = c as u32;
            if u < 0x20 || u > 0x7e {
                return Err(ErrorKind::BadIdentifier);
            }
            i += 1;
        }
        Ok(Identifier { inner: s })
    }

    /// The identifier's text. Every identifier is well formed: one can only
    /// be made by checked construction or fresh UUID synthesis.
    pub fn as_str(&self) -> (r: &str)
        ensures
            r@ == self@,
            valid_identifier(self@),
    {
        proof {
            use_type_invariant(&*self);
        }
        self.inner.as_str()
    }

    /// Generates a fresh identifier in the textual form of a version 4
    /// UUID: thirty-six characters, hyphens after the eighth, thirteenth,
    /// eighteenth and twenty-third, lower-case hexadecimal digits elsewhere,
    /// a `4` for the version and a variant digit in `8`, `9`, `a` or `b`.
    /// The digits are random; only this shape is promised.
    #[verifier::rlimit(100)]
    pub fn from_uuidv4() -> (r: Identifier)
        ensures
            uuid_v4_text(r@),
            valid_identifier(r@),
    {
        let bytes = random_bytes_16();
        // A version 4 UUID fixes the version nibble and the variant bits.
        let b6raw: u8 = bytes[6];
        let b8raw: u8 = bytes[8];
        let b6: u8 = (b6raw & 0x0f) | 0x40;
        let b8: u8 = (b8raw & 0x3f) | 0x80;
        proof {
            assert((b6raw & 0x0f) | 0x40 == (b6raw & 0x0f) + 0x40) by (bit_vector);
            assert(b6raw & 0x0f <= 15) by (bit_vector);
            assert((b8raw & 0x3f) | 0x80 == (b8raw & 0x3f) + 0x80) by (bit_vector);
            assert(b8raw & 0x3f <= 63) by (bit_vector);
            assert(b6 / 16 == 4);
            assert(8 <= b8 / 16 <= 11);
        }
        let mut s = String::new();
        push_byte_hex(&mut s, bytes[0]);
        push_byte_hex(&mut s, bytes[1]);
        push_byte_hex(&mut s, bytes[2]);
        push_byte_hex(&mut s, bytes[3]);
        push_char(&mut s, '-');
        push_byte_hex(&mut s, bytes[4]);
        push_byte_hex(&mut s, bytes[5]);
        push_char(&mut s, '-');
        push_byte_hex(&mut s, b6);
        push_byte_hex(&mut s, bytes[7]);
        push_char(&mut s, '-');
        push_byte_hex(&mut s, b8);
        push_byte_hex(&mut s, bytes[9]);
        push_char(&mut s, '-');
        push_byte_hex(&mut s, bytes[10]);
        push_byte_hex(&mut s, bytes[11]);
        push_byte_hex(&mut s, bytes[12]);
        push_byte_hex(&mut s, bytes[13]);
        push_byte_hex(&mut s, bytes[14]);
        push_byte_hex(&mut s, bytes[15]);
        proof {
            assert(s@.len() == 36);
            lemma_hex_chars_lower();
            assert forall|i: int|
                0 <= i < 36 && i != 8 && i != 13 && i != 18 && i != 23 implies is_hex_digit_lower(
                #[trigger] s@[i],
            ) by {}
            assert(s@[8] == '-' && s@[13] == '-' && s@[18] == '-' && s@[23] == '-');
            assert(s@[14] == spec_hex_char(b6 / 16));
            assert(s@[19] == spec_hex_char(b8 / 16));
            assert forall|i: int| 0 <= i < 36 implies printable_ascii(#[trigger] s@[i]) by {
                if i != 8 && i != 13 && i != 18 && i != 23 {
                    assert(is_hex_digit_lower(s@[i]));
                }
            }
        }
        Identifier { inner: s }
    }
}

/// A color in RGBA form, each channel an eight-bit value.
#[derive(Debug, Clone, Copy, PartialEq, Eq, Structural)]
pub struct Color {
    /// The red channel.
    pub red: u8,
    /// The green channel.
    pub green: u8,
    /// The blue channel.
    pub blue: u8,
    /// The alpha channel.
    pub alpha: u8,
}

/// Whether a character is a hexadecimal digit.
pub open spec fn is_hex_digit(c: char) -> bool {
    ('0' <= c && c <= '9') || ('a' <= c && c <= 'f') || ('A' <= c && c <= 'F')
}

/// The numeric value of a hexadecimal digit.
pub open spec fn spec_hex_value(c: char) -> u8 {
    if '0' <= c && c <= '9' {
        (c as u32 - '0' as u32) as u8
    } else if 'a' <= c && c <= 'f' {
        (c as u32 - 'a' as u32 + 10) as u8
    } else {
        (c as u32 - 'A' as u32 + 10) as u8
    }
}

/// Whether a character sequence is a well-formed `rrggbbaa` color string.
pub open spec fn valid_color_string(s: Seq<char>) -> bool {
    s.len() == 8 && forall|i: int| 0 <= i < 8 ==> is_hex_digit(s[i])
}

/// The color denoted by a well-formed `rrggbbaa` color string.
pub open spec fn spec_color_of(s: Seq<char>) -> Color {
    Color {
        red: (spec_hex_value(s[0]) * 16 + spec_hex_value(s[1])) as u8,
        green: (spec_hex_value(s[2]) * 16 + spec_hex_value(s[3])) as u8,
        blue: (spec_hex_value(s[4]) * 16 + spec_hex_value(s[5])) as u8,
        alpha: (spec_hex_value(s[6]) * 16 + spec_hex_value(s[7])) as u8,
    }
}

/// Reading back the character of a hexadecimal digit yields the digit.
proof fn lemma_hex_value_char(n: u8)
    requires
        n < 16,
    ensures
        is_hex_digit(spec_hex_char(n)),
        spec_hex_value(spec_hex_char(n)) == n,
{
}

/// The numeric value of a hexadecimal digit character.
fn hex_value(c: char) -> (r: u8)
    requires
        is_hex_digit(c),
    ensures
        r == spec_hex_value(c),
        r < 16,
{
    let u = c as u32;
    if u >= '0' as u32 && u <= '9' as u32 {
        (u - '0' as u32) as u8
    } else if u >= 'a' as u32 && u <= 'f' as u32 {
        (u - 'a' as u32 + 10) as u8
    } else {
        (u - 'A' as u32 + 10) as u8
    }
}

impl Color {
    /// Parses an `rrggbbaa` hexadecimal color string.
    pub fn parse(s: &str) -> (r: Result<Color, InvalidColorString>)
        ensures
            match r {
                Ok(c) => valid_color_string(s@) && c == spec_color_of(s@),
                Err(e) => !valid_color_string(s@) && e.string@ == s@,
            },
    {
        let n = s.unicode_len();
        if n != 8 {
            return Err(InvalidColorString::new(s.to_owned()));
        }
        let mut i: usize = 0;
        while i < 8
            invariant
                i <= 8,
                s@.len() == 8,
                forall|j: int| 0 <= j < i ==> is_hex_digit(s@[j]),
            decreases 8 - i,
        {
            let c = s.get_char(i);
            let u = c as u32;
            let ok = (u >= '0' as u32 && u <= '9' as u32) || (u >= 'a' as u32 && u <= 'f' as u32)
                || (u >= 'A' as u32 && u <= 'F' as u32);
            if !ok {
                return Err(InvalidColorString::new(s.to_owned()));
            }
            i += 1;
        }
        Ok(
            Color {
                red: hex_value(s.get_char(0)) * 16 + hex_value(s.get_char(1)),
                green: hex_value(s.get_char(2)) * 16 + hex_value(s.get_char(3)),
                blue: hex_value(s.get_char(4)) * 16 + hex_value(s.get_char(5)),
                alpha: hex_value(s.get_char(6)) * 16 + hex_value(s.get_char(7)),
            },
        )
    }

    /// Writes the color as a lower-case `rrggbbaa` hexadecimal string.
    #[verifier::rlimit(50)]
    pub fn to_hex(&self) -> (r: String)
        ensures
            r@ == seq![
                spec_hex_char(self.red / 16),
                spec_hex_char(self.red % 16),
                spec_hex_char(self.green / 16),
                spec_hex_char(self.green % 16),
                spec_hex_char(self.blue / 16),
                spec_hex_char(self.blue % 16),
                spec_hex_char(self.alpha / 16),
                spec_hex_char(self.alpha % 16),
            ],
            valid_color_string(r@),
            spec_color_of(r@) == *self,
    {
        let mut s = String::new();
        push_char(&mut s, hex_char(self.red / 16));
        push_char(&mut s, hex_char(self.red % 16));
        push_char(&mut s, hex_char(self.green / 16));
        push_char(&mut s, hex_char(self.green % 16));
        push_char(&mut s, hex_char(self.blue / 16));
        push_char(&mut s, hex_char(self.blue % 16));
        push_char(&mut s, hex_char(self.alpha / 16));
        push_char(&mut s, hex_char(self.alpha % 16));
        proof {
            assert(s@ =~= seq![
                spec_hex_char(self.red / 16),
                spec_hex_char(self.red % 16),
                spec_hex_char(self.green / 16),
                spec_hex_char(self.green % 16),
                spec_hex_char(self.blue / 16),
                spec_hex_char(self.blue % 16),
                spec_hex_char(self.alpha / 16),
                spec_hex_char(self.alpha % 16),
            ]);
            lemma_hex_value_char(self.red / 16);
            lemma_hex_value_char(self.red % 16);
            lemma_hex_value_char(self.green / 16);
            lemma_hex_value_char(self.green % 16);
            lemma_hex_value_char(self.blue / 16);
            lemma_hex_value_char(self.blue % 16);
            lemma_hex_value_char(self.alpha / 16);
            lemma_hex_value_char(self.alpha % 16);
            assert(spec_color_of(s@).red == self.red);
            assert(spec_color_of(s@).green == self.green);
            assert(spec_color_of(s@).blue == self.blue);
            assert(spec_color_of(s@).alpha == self.alpha);
        }
        s
    }
}

/// A guideline's placement: vertical, horizontal, or at an angle.
#[derive(Debug, Clone, PartialEq, Eq)]
pub enum Line {
    /// A vertical line at the given x coordinate.
    Vertical(i64),
    /// A horizontal line at the given y coordinate.
    Horizontal(i64),
    /// A line through `(x, y)` at `degrees` degrees counter-clockwise from
    /// the horizontal.
    Angle {
        /// The x coordinate.
        x: i64,
        /// The y coordinate.
        y: i64,
        /// The angle in degrees.
        degrees: i64,
    },
}

/// A straight line used as a drawing aid.
#[derive(Debug, PartialEq)]
pub struct Guideline {
    /// The guideline's placement.
    pub line: Line,
    /// An arbitrary name.
    pub name: Option<String>,
    /// The guideline's display color.
    pub color: Option<Color>,
    /// Unique identifier for the guideline. This attribute is only required
    /// when a lib is present and should otherwise only be added as needed.
    pub identifier: Option<Identifier>,
    /// The guideline's lib for arbitrary data.
    pub lib: Option<Plist>,
}

impl Guideline {
    /// Returns a new guideline.
    pub fn new(
        line: Line,
        name: Option<String>,
        color: Option<Color>,
        identifier: Option<Identifier>,
        lib: Option<Plist>,
    ) -> (r: Self)
        ensures
            r.line == line,
            r.name == name,
            r.color == color,
            r.identifier == identifier,
            r.lib == lib,
    {
        Self { line, name, color, identifier, lib }
    }

    /// Returns a reference to the guideline's lib.
    pub fn lib(&self) -> (r: Option<&Plist>)
        ensures
            match r {
                Some(l) => self.lib == Some(*l),
                None => self.lib is None,
            },
    {
        self.lib.as_ref()
    }

    /// Replaces the lib by the one given, returning the old lib if present.
    /// Sets a new UUID v4 identifier if none is set already.
    pub fn replace_lib(&mut self, lib: Plist) -> (r: Option<Plist>)
        ensures
            final(self).lib == Some(lib),
            r == old(self).lib,
            old(self).identifier is Some ==> final(self).identifier == old(self).identifier,
            old(self).identifier is None ==> (final(self).identifier matches Some(id)
                && uuid_v4_text(id@)),
            final(self).identifier matches Some(id) && valid_identifier(id@),
            final(self).line == old(self).line,
            final(self).name == old(self).name,
            final(self).color == old(self).color,
    {
        if self.identifier.is_none() {
            self.identifier = Some(Identifier::from_uuidv4());
        }
        match &self.identifier {
            Some(id) => proof {
                use_type_invariant(id);
            },
            None => (),
        }
        let r = self.lib.take();
        self.lib = Some(lib);
        r
    }

    /// Takes the lib out of the guideline, leaving nothing in its place.
    pub fn take_lib(&mut self) -> (r: Option<Plist>)
        ensures
            r == old(self).lib,
            final(self).lib is None,
            final(self).identifier == old(self).identifier,
            final(self).line == old(self).line,
            final(self).name == old(self).name,
            final(self).color == old(self).color,
    {
        self.lib.take()
    }

    /// Returns a reference to the guideline's identifier.
    pub fn identifier(&self) -> (r: Option<&Identifier>)
        ensures
            match r {
                Some(id) => self.identifier == Some(*id),
                None => self.identifier is None,
            },
    {
        self.identifier.as_ref()
    }

    /// Replaces the identifier by the one given, returning the old
    /// identifier if present.
    pub fn replace_identifier(&mut self, id: Identifier) -> (r: Option<Identifier>)
        ensures
            final(self).identifier == Some(id),
            r == old(self).identifier,
            final(self).lib == old(self).lib,
            final(self).line == old(self).line,
            final(self).name == old(self).name,
            final(self).color == old(self).color,
    {
        let r = self.identifier.take();
        self.identifier = Some(id);
        r
    }
}

} // verus!
