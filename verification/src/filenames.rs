//! Computing on-disk file names for glyphs.
//!
//! Glyph names may hold characters that file systems refuse or confuse, so
//! the name of a `.glif` file is derived from the glyph name by escaping:
//! a leading period and every control or reserved character become an
//! underscore, an ASCII capital gains a trailing underscore, and the result
//! is cut back to fit in 255 bytes before the `.glif` suffix is added.

use vstd::prelude::*;
use vstd::string::StrSliceExecFns;
use crate::shared::{hex_char, spec_hex_char};
use crate::util::{push_char, str_eq};

verus! {

/// Characters never allowed in a glyph file name.
pub open spec fn special_illegal(c: char) -> bool {
    c == '\\' || c == '*' || c == '+' || c == '/' || c == ':' || c == '<' || c == '>' || c == '?'
        || c == '[' || c == ']' || c == '|'
}

/// What one character of a glyph name contributes to its file name.
pub open spec fn mapped_char(c: char) -> Seq<char> {
    if (c as u32) < 0x20 || c as u32 == 0x7f || special_illegal(c) {
        seq!['_']
    } else if 'A' <= c && c <= 'Z' {
        seq![c, '_']
    } else {
        seq![c]
    }
}

/// What the first character contributes: a leading period is escaped.
pub open spec fn mapped_first(c: char) -> Seq<char> {
    if c == '.' {
        seq!['_']
    } else {
        mapped_char(c)
    }
}

/// The contributions of every character after the first.
pub open spec fn mapped_tail(s: Seq<char>) -> Seq<char>
    decreases s.len(),
{
    if s.len() == 0 {
        Seq::empty()
    } else {
        mapped_char(s[0]) + mapped_tail(s.subrange(1, s.len() as int))
    }
}

/// A glyph name with every character escaped.
pub open spec fn mapped_name(s: Seq<char>) -> Seq<char> {
    if s.len() == 0 {
        Seq::empty()
    } else {
        mapped_first(s[0]) + mapped_tail(s.subrange(1, s.len() as int))
    }
}

/// The number of bytes a character occupies in UTF-8.
pub open spec fn utf8_len(c: char) -> int {
    if (c as u32) < 0x80 {
        1
    } else if (c as u32) < 0x800 {
        2
    } else if (c as u32) < 0x10000 {
        3
    } else {
        4
    }
}

/// The number of bytes a character sequence occupies in UTF-8.
pub open spec fn byte_len(s: Seq<char>) -> int
    decreases s.len(),
{
    if s.len() == 0 {
        0int
    } else {
        utf8_len(s[0]) + byte_len(s.subrange(1, s.len() as int))
    }
}

/// The longest prefix whose UTF-8 form fits in the given number of bytes.
pub open spec fn truncated(s: Seq<char>, max: int) -> Seq<char>
    decreases s.len(),
{
    if byte_len(s) <= max {
        s
    } else if s.len() == 0 {
        s
    } else {
        truncated(s.drop_last(), max)
    }
}

/// The file name a glyph name maps to.
pub open spec fn spec_file_name(s: Seq<char>) -> Seq<char> {
    truncated(mapped_name(s), 250) + seq!['.', 'g', 'l', 'i', 'f']
}

/// Escaping one more character extends the escaped name.
proof fn lemma_mapped_tail_snoc(s: Seq<char>, c: char)
    ensures
        mapped_tail(s.push(c)) == mapped_tail(s) + mapped_char(c),
    decreases s.len(),
{
    let t = s.push(c);
    if s.len() == 0 {
        assert(t.subrange(1, t.len() as int) =~= Seq::empty());
        assert(mapped_tail(t) == mapped_char(c) + mapped_tail(Seq::empty()));
        assert(mapped_char(c) + Seq::empty() =~= mapped_char(c));
        assert(mapped_tail(s) + mapped_char(c) =~= mapped_char(c));
    } else {
        assert(t.subrange(1, t.len() as int) =~= s.subrange(1, s.len() as int).push(c));
        lemma_mapped_tail_snoc(s.subrange(1, s.len() as int), c);
        assert(mapped_tail(t) =~= mapped_tail(s) + mapped_char(c));
    }
}

/// Escaping one more character extends the escaped name.
proof fn lemma_mapped_name_snoc(s: Seq<char>, c: char)
    ensures
        s.len() == 0 ==> mapped_name(s.push(c)) == mapped_first(c),
        s.len() > 0 ==> mapped_name(s.push(c)) == mapped_name(s) + mapped_char(c),
{
    let t = s.push(c);
    if s.len() == 0 {
        assert(t.subrange(1, t.len() as int) =~= Seq::empty());
        assert(mapped_name(t) =~= mapped_first(c));
    } else {
        assert(t[0] == s[0]);
        assert(t.subrange(1, t.len() as int) =~= s.subrange(1, s.len() as int).push(c));
        lemma_mapped_tail_snoc(s.subrange(1, s.len() as int), c);
        assert(mapped_name(t) =~= mapped_name(s) + mapped_char(c));
    }
}

/// One more character adds its UTF-8 width.
proof fn lemma_byte_len_snoc(s: Seq<char>, c: char)
    ensures
        byte_len(s.push(c)) == byte_len(s) + utf8_len(c),
    decreases s.len(),
{
    let t = s.push(c);
    if s.len() == 0 {
        assert(t.subrange(1, t.len() as int) =~= Seq::empty());
        assert(byte_len(t) == utf8_len(c) + byte_len(Seq::<char>::empty()));
    } else {
        assert(t[0] == s[0]);
        assert(t.subrange(1, t.len() as int) =~= s.subrange(1, s.len() as int).push(c));
        lemma_byte_len_snoc(s.subrange(1, s.len() as int), c);
    }
}

/// A sequence's UTF-8 form is never smaller than its length and never empty
/// for a non-empty sequence.
proof fn lemma_byte_len_bounds(s: Seq<char>)
    ensures
        byte_len(s) >= s.len(),
        byte_len(s) <= 4 * s.len(),
    decreases s.len(),
{
    if s.len() > 0 {
        lemma_byte_len_bounds(s.subrange(1, s.len() as int));
    }
}

/// The truncated form fits, and truncation does nothing to what fits.
proof fn lemma_truncated_fits(s: Seq<char>, max: int)
    requires
        max >= 0,
    ensures
        byte_len(truncated(s, max)) <= max,
        truncated(s, max).len() <= s.len(),
    decreases s.len(),
{
    if byte_len(s) <= max {
    } else if s.len() == 0 {
        lemma_byte_len_bounds(s);
    } else {
        lemma_truncated_fits(s.drop_last(), max);
    }
}

/// The number of bytes a character occupies in UTF-8.
fn char_utf8_len(c: char) -> (n: usize)
    ensures
        n == utf8_len(c),
        1 <= n <= 4,
{
    let u = c as u32;
    if u < 0x80 {
        1
    } else if u < 0x800 {
        2
    } else if u < 0x10000 {
        3
    } else {
        4
    }
}

/// Given a glyph name, compute an appropriate file name: escape each
/// character, keep at most 250 bytes of the result, and append `.glif`.
pub fn default_file_name_for_glyph_name(name: &str) -> (r: String)
    ensures
        r@ == spec_file_name(name@),
        byte_len(r@) <= 255,
        r@.len() >= 5,
        r@.subrange(r@.len() - 5, r@.len() as int) == seq!['.', 'g', 'l', 'i', 'f'],
{
    let n = name.unicode_len();
    let mut acc: Vec<char> = Vec::new();
    let mut blen: u128 = 0;
    let mut i: usize = 0;
    while i < n
        invariant
            i <= n,
            n == name@.len(),
            acc@ == mapped_name(name@.take(i as int)),
            blen == byte_len(acc@),
            blen <= 5 * (i as int),
        decreases n - i,
    {
        let c = name.get_char(i);
        let ghost acc_pre = acc@;
        let ghost prefix = name@.take(i as int);
        let u = c as u32;
        if c == '.' && i == 0 {
            acc.push('_');
            blen = blen + 1;
        } else if u < 0x20 || u == 0x7f || c == '\\' || c == '*' || c == '+' || c == '/' || c == ':'
            || c == '<' || c == '>' || c == '?' || c == '[' || c == ']' || c == '|' {
            acc.push('_');
            blen = blen + char_utf8_len('_') as u128;
        } else if u >= 'A' as u32 && u <= 'Z' as u32 {
            acc.push(c);
            acc.push('_');
            blen = blen + char_utf8_len(c) as u128 + 1;
        } else {
            acc.push(c);
            blen = blen + char_utf8_len(c) as u128;
        }
        proof {
            assert(name@.take(i + 1 as int) =~= prefix.push(c));
            lemma_mapped_name_snoc(prefix, c);
            if i == 0 {
                assert(acc@ =~= mapped_first(c));
                assert(mapped_name(prefix.push(c)) == mapped_first(c));
            } else {
                assert(acc@ =~= acc_pre + mapped_char(c));
            }
            if acc@.len() == acc_pre.len() + 1 {
                lemma_byte_len_snoc(acc_pre, acc@.last());
            } else {
                lemma_byte_len_snoc(acc_pre, c);
                lemma_byte_len_snoc(acc_pre.push(c), '_');
                assert(acc@ =~= acc_pre.push(c).push('_'));
            }
        }
        i += 1;
    }
    proof {
        assert(name@.take(n as int) =~= name@);
    }
    // Keep at most 250 bytes so the suffix still fits in 255.
    let ghost mapped = acc@;
    while blen > 250
        invariant
            blen == byte_len(acc@),
            truncated(acc@, 250) == truncated(mapped, 250),
        decreases acc@.len(),
    {
        proof {
            lemma_byte_len_bounds(acc@);
            lemma_byte_len_snoc(acc@.drop_last(), acc@.last());
            assert(acc@.drop_last().push(acc@.last()) =~= acc@);
            lemma_byte_len_bounds(acc@.drop_last());
        }
        let c = acc.pop().unwrap();
        blen = blen - char_utf8_len(c) as u128;
    }
    proof {
        assert(acc@ == truncated(mapped, 250));
        lemma_truncated_fits(mapped, 250);
    }
    let mut out = String::new();
    let m = acc.len();
    let mut j: usize = 0;
    while j < m
        invariant
            j <= m,
            m == acc@.len(),
            out@ == acc@.take(j as int),
        decreases m - j,
    {
        push_char(&mut out, acc[j]);
        proof {
            assert(acc@.take(j + 1 as int) =~= acc@.take(j as int).push(acc@[j as int]));
        }
        j += 1;
    }
    proof {
        assert(out@ =~= acc@);
    }
    push_char(&mut out, '.');
    push_char(&mut out, 'g');
    push_char(&mut out, 'l');
    push_char(&mut out, 'i');
    push_char(&mut out, 'f');
    proof {
        assert(out@ =~= acc@ + seq!['.', 'g', 'l', 'i', 'f']);
        assert(out@.subrange(out@.len() - 5, out@.len() as int) =~= seq!['.', 'g', 'l', 'i', 'f']);
        lemma_byte_len_snoc(acc@, '.');
        lemma_byte_len_snoc(acc@.push('.'), 'g');
        lemma_byte_len_snoc(acc@.push('.').push('g'), 'l');
        lemma_byte_len_snoc(acc@.push('.').push('g').push('l'), 'i');
        lemma_byte_len_snoc(acc@.push('.').push('g').push('l').push('i'), 'f');
        assert(out@ =~= acc@.push('.').push('g').push('l').push('i').push('f'));
    }
    out
}

} // verus!

verus! {

// ---------------------------------------------------------------------------
// Collision resolution: a numeric suffix before `.glif`.
// ---------------------------------------------------------------------------

/// The decimal form of a non-negative number.
pub open spec fn spec_decimal(n: int) -> Seq<char>
    decreases n,
{
    if n < 10 {
        seq![spec_hex_char(if 0 <= n { n as u8 } else { 0u8 })]
    } else {
        spec_decimal(n / 10) + seq![spec_hex_char((n % 10) as u8)]
    }
}

/// Digit characters determine their digits.
proof fn lemma_digit_char_injective(a: u8, b: u8)
    requires
        a < 10,
        b < 10,
        spec_hex_char(a) == spec_hex_char(b),
    ensures
        a == b,
{
}

/// A decimal form is never empty.
pub(crate) proof fn lemma_decimal_len(n: int)
    ensures
        spec_decimal(n).len() >= 1,
    decreases n,
{
    if n >= 10 {
        lemma_decimal_len(n / 10);
    }
}

/// Distinct numbers have distinct decimal forms.
proof fn lemma_decimal_injective(a: int, b: int)
    requires
        a >= 0,
        b >= 0,
        spec_decimal(a) == spec_decimal(b),
    ensures
        a == b,
    decreases a + b,
{
    if a < 10 && b < 10 {
        assert(spec_decimal(a) =~= seq![spec_hex_char(a as u8)]);
        assert(spec_decimal(b) =~= seq![spec_hex_char(b as u8)]);
        assert(spec_decimal(a)[0] == spec_hex_char(a as u8));
        assert(spec_decimal(b)[0] == spec_hex_char(b as u8));
        assert(spec_hex_char(a as u8) == spec_hex_char(b as u8));
        lemma_digit_char_injective(a as u8, b as u8);
    } else if a < 10 {
        lemma_decimal_len(b / 10);
        assert(spec_decimal(b).len() >= 2);
    } else if b < 10 {
        lemma_decimal_len(a / 10);
        assert(spec_decimal(a).len() >= 2);
    } else {
        let da = spec_decimal(a);
        let db = spec_decimal(b);
        assert(da.last() == spec_hex_char((a % 10) as u8));
        assert(db.last() == spec_hex_char((b % 10) as u8));
        assert(spec_hex_char((a % 10) as u8) == spec_hex_char((b % 10) as u8));
        lemma_digit_char_injective((a % 10) as u8, (b % 10) as u8);
        assert(a % 10 == b % 10);
        assert(da.drop_last() =~= spec_decimal(a / 10));
        assert(db.drop_last() =~= spec_decimal(b / 10));
        lemma_decimal_injective(a / 10, b / 10);
    }
}

/// Appends the decimal form of a number to a string.
pub(crate) fn push_decimal(n: u128, out: &mut String)
    ensures
        final(out)@ == old(out)@ + spec_decimal(n as int),
    decreases n,
{
    if n < 10 {
        push_char(out, hex_char(n as u8));
        proof {
            assert(final(out)@ =~= old(out)@ + spec_decimal(n as int));
        }
    } else {
        push_decimal(n / 10, out);
        push_char(out, hex_char((n % 10) as u8));
        proof {
            assert(final(out)@ =~= old(out)@ + spec_decimal(n as int));
        }
    }
}

/// The file name a glyph name maps to when a numeric suffix is needed to
/// avoid a collision. The escaped name is cut back further, to 229 bytes,
/// so that the marker, up to twenty digits and the suffix still fit in 255.
pub open spec fn spec_numbered_file_name(s: Seq<char>, n: int) -> Seq<char> {
    truncated(mapped_name(s), 229) + seq!['#'] + spec_decimal(n) + seq!['.', 'g', 'l', 'i', 'f']
}

/// A power of ten.
pub open spec fn pow10(k: nat) -> int
    decreases k,
{
    if k == 0 {
        1int
    } else {
        10 * pow10((k - 1) as nat)
    }
}

/// A number below the k-th power of ten has at most k decimal digits.
proof fn lemma_decimal_len_le(n: int, k: nat)
    requires
        0 <= n < pow10(k),
        k >= 1,
    ensures
        spec_decimal(n).len() <= k,
    decreases k,
{
    if n < 10 {
    } else {
        if k == 1 {
            assert(pow10(1) == 10);
        }
        assert(n / 10 < pow10((k - 1) as nat));
        lemma_decimal_len_le(n / 10, (k - 1) as nat);
    }
}

/// Every character of a decimal form is a digit, one byte wide.
proof fn lemma_decimal_ascii(n: int)
    ensures
        byte_len(spec_decimal(n)) == spec_decimal(n).len(),
    decreases n,
{
    if n < 10 {
        let c = spec_hex_char(if 0 <= n { n as u8 } else { 0u8 });
        assert(spec_decimal(n) =~= Seq::<char>::empty().push(c));
        lemma_byte_len_snoc(Seq::<char>::empty(), c);
    } else {
        lemma_decimal_ascii(n / 10);
        lemma_byte_len_snoc(spec_decimal(n / 10), spec_hex_char((n % 10) as u8));
        assert(spec_decimal(n) =~= spec_decimal(n / 10).push(spec_hex_char((n % 10) as u8)));
    }
}

/// The `.glif` suffix is five bytes.
proof fn lemma_byte_len_suffix()
    ensures
        byte_len(seq!['.', 'g', 'l', 'i', 'f']) == 5,
{
    let s = seq!['.', 'g', 'l', 'i', 'f'];
    assert(s =~= Seq::<char>::empty().push('.').push('g').push('l').push('i').push('f'));
    lemma_byte_len_snoc(Seq::<char>::empty(), '.');
    lemma_byte_len_snoc(Seq::<char>::empty().push('.'), 'g');
    lemma_byte_len_snoc(Seq::<char>::empty().push('.').push('g'), 'l');
    lemma_byte_len_snoc(Seq::<char>::empty().push('.').push('g').push('l'), 'i');
    lemma_byte_len_snoc(Seq::<char>::empty().push('.').push('g').push('l').push('i'), 'f');
}

/// Byte lengths add over concatenation.
proof fn lemma_byte_len_add(a: Seq<char>, b: Seq<char>)
    ensures
        byte_len(a + b) == byte_len(a) + byte_len(b),
    decreases b.len(),
{
    if b.len() == 0 {
        assert(a + b =~= a);
    } else {
        lemma_byte_len_add(a, b.drop_last());
        lemma_byte_len_snoc(a + b.drop_last(), b.last());
        assert((a + b.drop_last()).push(b.last()) =~= a + b);
        lemma_byte_len_snoc(b.drop_last(), b.last());
        assert(b.drop_last().push(b.last()) =~= b);
    }
}

/// Distinct numbers give distinct numbered file names.
proof fn lemma_numbered_injective(s: Seq<char>, a: int, b: int)
    requires
        a >= 0,
        b >= 0,
        spec_numbered_file_name(s, a) == spec_numbered_file_name(s, b),
    ensures
        a == b,
{
    let p = truncated(mapped_name(s), 229) + seq!['#'];
    let ca = spec_numbered_file_name(s, a);
    let cb = spec_numbered_file_name(s, b);
    let da = spec_decimal(a);
    let db = spec_decimal(b);
    assert(ca.len() == p.len() + da.len() + 5);
    assert(cb.len() == p.len() + db.len() + 5);
    assert(da.len() == db.len());
    assert forall|i: int| 0 <= i < da.len() implies da[i] == db[i] by {
        assert(ca[p.len() + i] == da[i]);
        assert(cb[p.len() + i] == db[i]);
    }
    assert(da =~= db);
    lemma_decimal_injective(a, b);
}

/// Whether a numbered file name avoids every existing name.
pub open spec fn numbered_free(s: Seq<char>, existing: Seq<String>, n: int) -> bool {
    forall|i: int|
        0 <= i < existing.len() ==> (#[trigger] existing[i])@ != spec_numbered_file_name(s, n)
}

/// Among any `existing.len() + 1` consecutive numbers, some numbered file
/// name avoids every existing name.
proof fn lemma_free_number(s: Seq<char>, existing: Seq<String>, lo: int)
    requires
        lo >= 0,
    ensures
        exists|n: int| lo <= n <= lo + existing.len() && #[trigger] numbered_free(s, existing, n),
    decreases existing.len(),
{
    if exists|i: int|
        0 <= i < existing.len() && (#[trigger] existing[i])@ == spec_numbered_file_name(s, lo) {
        let i0 = choose|i: int|
            0 <= i < existing.len() && (#[trigger] existing[i])@ == spec_numbered_file_name(s, lo);
        let rest = existing.remove(i0);
        lemma_free_number(s, rest, lo + 1);
        let n = choose|n: int|
            lo + 1 <= n <= lo + 1 + rest.len() && #[trigger] numbered_free(s, rest, n);
        assert forall|i: int|
            0 <= i < existing.len() implies (#[trigger] existing[i])@ != spec_numbered_file_name(
            s,
            n,
        ) by {
            if i == i0 {
                if existing[i]@ == spec_numbered_file_name(s, n) {
                    lemma_numbered_injective(s, lo, n);
                }
            } else {
                let j = if i < i0 {
                    i
                } else {
                    i - 1
                };
                assert(rest[j] == existing[i]);
            }
        }
        assert(numbered_free(s, existing, n));
    } else {
        assert(numbered_free(s, existing, lo));
    }
}

/// Whether one of the existing names equals the given one.
fn name_taken(existing: &Vec<String>, s: &str) -> (r: bool)
    ensures
        r == exists|i: int| 0 <= i < existing@.len() && (#[trigger] existing@[i])@ == s@,
{
    let n = existing.len();
    let mut i: usize = 0;
    while i < n
        invariant
            i <= n,
            n == existing@.len(),
            forall|j: int| 0 <= j < i ==> (#[trigger] existing@[j])@ != s@,
        decreases n - i,
    {
        if str_eq(existing[i].as_str(), s) {
            return true;
        }
        i += 1;
    }
    false
}

/// The escaped glyph name cut back to 229 bytes, without the suffix.
fn file_name_stem(name: &str) -> (r: Vec<char>)
    ensures
        r@ == truncated(mapped_name(name@), 229),
{
    let n = name.unicode_len();
    let mut acc: Vec<char> = Vec::new();
    let mut blen: u128 = 0;
    let mut i: usize = 0;
    while i < n
        invariant
            i <= n,
            n == name@.len(),
            acc@ == mapped_name(name@.take(i as int)),
            blen == byte_len(acc@),
            blen <= 5 * (i as int),
        decreases n - i,
    {
        let c = name.get_char(i);
        let ghost acc_pre = acc@;
        let ghost prefix = name@.take(i as int);
        let u = c as u32;
        if c == '.' && i == 0 {
            acc.push('_');
            blen = blen + 1;
        } else if u < 0x20 || u == 0x7f || c == '\\' || c == '*' || c == '+' || c == '/' || c == ':'
            || c == '<' || c == '>' || c == '?' || c == '[' || c == ']' || c == '|' {
            acc.push('_');
            blen = blen + char_utf8_len('_') as u128;
        } else if u >= 'A' as u32 && u <= 'Z' as u32 {
            acc.push(c);
            acc.push('_');
            blen = blen + char_utf8_len(c) as u128 + 1;
        } else {
            acc.push(c);
            blen = blen + char_utf8_len(c) as u128;
        }
        proof {
            assert(name@.take(i + 1 as int) =~= prefix.push(c));
            lemma_mapped_name_snoc(prefix, c);
            if i == 0 {
                assert(acc@ =~= mapped_first(c));
                assert(mapped_name(prefix.push(c)) == mapped_first(c));
            } else {
                assert(acc@ =~= acc_pre + mapped_char(c));
            }
            if acc@.len() == acc_pre.len() + 1 {
                lemma_byte_len_snoc(acc_pre, acc@.last());
            } else {
                lemma_byte_len_snoc(acc_pre, c);
                lemma_byte_len_snoc(acc_pre.push(c), '_');
                assert(acc@ =~= acc_pre.push(c).push('_'));
            }
        }
        i += 1;
    }
    proof {
        assert(name@.take(n as int) =~= name@);
    }
    let ghost mapped = acc@;
    while blen > 229
        invariant
            blen == byte_len(acc@),
            truncated(acc@, 229) == truncated(mapped, 229),
        decreases acc@.len(),
    {
        proof {
            lemma_byte_len_bounds(acc@);
            lemma_byte_len_snoc(acc@.drop_last(), acc@.last());
            assert(acc@.drop_last().push(acc@.last()) =~= acc@);
            lemma_byte_len_bounds(acc@.drop_last());
        }
        let c = acc.pop().unwrap();
        blen = blen - char_utf8_len(c) as u128;
    }
    proof {
        assert(acc@ == truncated(mapped, 229));
    }
    acc
}

/// The numbered file name for a glyph name.
fn make_numbered(stem: &Vec<char>, n: u128) -> (r: String)
    ensures
        r@ == stem@ + seq!['#'] + spec_decimal(n as int) + seq!['.', 'g', 'l', 'i', 'f'],
{
    let mut out = String::new();
    let m = stem.len();
    let mut j: usize = 0;
    while j < m
        invariant
            j <= m,
            m == stem@.len(),
            out@ == stem@.take(j as int),
        decreases m - j,
    {
        push_char(&mut out, stem[j]);
        proof {
            assert(stem@.take(j + 1 as int) =~= stem@.take(j as int).push(stem@[j as int]));
        }
        j += 1;
    }
    proof {
        assert(out@ =~= stem@);
    }
    push_char(&mut out, '#');
    push_decimal(n, &mut out);
    push_char(&mut out, '.');
    push_char(&mut out, 'g');
    push_char(&mut out, 'l');
    push_char(&mut out, 'i');
    push_char(&mut out, 'f');
    proof {
        assert(out@ =~= stem@ + seq!['#'] + spec_decimal(n as int) + seq!['.', 'g', 'l', 'i', 'f']);
    }
    out
}

/// Given a glyph name and the file names already taken in its layer,
/// compute a file name that collides with none of them: the default name
/// when it is free, else the default name with the smallest numeric suffix,
/// counted from one, that is free.
#[verifier::loop_isolation(false)]
pub fn unique_file_name_for_glyph_name(name: &str, existing: &Vec<String>) -> (r: String)
    ensures
        byte_len(r@) <= 255,
        forall|i: int| 0 <= i < existing@.len() ==> (#[trigger] existing@[i])@ != r@,
        (forall|i: int|
            0 <= i < existing@.len() ==> (#[trigger] existing@[i])@ != spec_file_name(name@))
            ==> r@ == spec_file_name(name@),
        r@ != spec_file_name(name@) ==> exists|n: int|
            1 <= n && r@ == #[trigger] spec_numbered_file_name(name@, n) && (forall|m: int|
                1 <= m < n ==> !(#[trigger] numbered_free(name@, existing@, m))),
{
    let base = default_file_name_for_glyph_name(name);
    if !name_taken(existing, base.as_str()) {
        return base;
    }
    let stem = file_name_stem(name);
    proof {
        lemma_free_number(name@, existing@, 1);
    }
    let ghost nstar = choose|n: int|
        1 <= n <= 1 + existing@.len() && #[trigger] numbered_free(name@, existing@, n);
    let bound = existing.len();
    proof {
        assert(nstar <= 1 + bound);
    }
    let mut n: u128 = 1;
    loop
        invariant
            1 <= n <= nstar,
            forall|m: int| 1 <= m < n ==> !(#[trigger] numbered_free(name@, existing@, m)),
        decreases nstar - n,
    {
        let candidate = make_numbered(&stem, n);
        if !name_taken(existing, candidate.as_str()) {
            proof {
                assert(candidate@ == spec_numbered_file_name(name@, n as int));
                lemma_truncated_fits(mapped_name(name@), 229);
                lemma_byte_len_add(truncated(mapped_name(name@), 229), seq!['#']);
                lemma_byte_len_add(
                    truncated(mapped_name(name@), 229) + seq!['#'],
                    spec_decimal(n as int),
                );
                lemma_byte_len_add(
                    truncated(mapped_name(name@), 229) + seq!['#'] + spec_decimal(n as int),
                    seq!['.', 'g', 'l', 'i', 'f'],
                );
                lemma_decimal_ascii(n as int);
                reveal_with_fuel(pow10, 21);
                assert(pow10(20) == 100000000000000000000int);
                assert(n <= nstar);
                assert(nstar <= 1 + bound);
                assert((n as int) < pow10(20));
                lemma_decimal_len_le(n as int, 20);
                assert(seq!['#'] =~= Seq::<char>::empty().push('#'));
                lemma_byte_len_snoc(Seq::<char>::empty(), '#');
                assert(byte_len(seq!['#']) == 1);
                lemma_byte_len_suffix();
                assert(byte_len(candidate@) <= 229 + 1 + 20 + 5);
                if candidate@ == spec_file_name(name@) {
                    assert(exists|i: int|
                        0 <= i < existing@.len() && (#[trigger] existing@[i])@ == candidate@);
                }
            }
            return candidate;
        }
        proof {
            assert(!numbered_free(name@, existing@, n as int));
            assert(n < nstar);
        }
        n = n + 1;
    }
}

} // verus!
