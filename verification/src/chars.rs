//! Character classification and small text utilities.
//!
//! Digit classes, operator characters and white space are specified exactly.
//! The Unicode identifier classes `XID_Start` and `XID_Continue` are fixed
//! table lookups provided by an outside crate; they are named by
//! uninterpreted spec functions and reached through trusted wrappers.

use vstd::prelude::*;
use vstd::std_specs::iter::IteratorSpec;

verus! {

broadcast use vstd::string::group_string_axioms;

/// `c` is a decimal digit.
pub open spec fn spec_is_dec(c: char) -> bool {
    '0' <= c <= '9'
}

/// `c` is a hexadecimal digit.
pub open spec fn spec_is_hex(c: char) -> bool {
    spec_is_dec(c) || 'a' <= c <= 'f' || 'A' <= c <= 'F'
}

/// `c` is a binary digit.
pub open spec fn spec_is_bin(c: char) -> bool {
    c == '0' || c == '1'
}

/// `c` is an octal digit.
pub open spec fn spec_is_oct(c: char) -> bool {
    '0' <= c <= '7'
}

#[verifier::when_used_as_spec(spec_is_dec)]
pub fn is_dec(c: char) -> (r: bool)
    ensures
        r == spec_is_dec(c),
{
    '0' <= c && c <= '9'
}

#[verifier::when_used_as_spec(spec_is_hex)]
pub fn is_hex(c: char) -> (r: bool)
    ensures
        r == spec_is_hex(c),
{
    is_dec(c) || ('a' <= c && c <= 'f') || ('A' <= c && c <= 'F')
}

#[verifier::when_used_as_spec(spec_is_bin)]
pub fn is_bin(c: char) -> (r: bool)
    ensures
        r == spec_is_bin(c),
{
    c == '0' || c == '1'
}

#[verifier::when_used_as_spec(spec_is_oct)]
pub fn is_oct(c: char) -> (r: bool)
    ensures
        r == spec_is_oct(c),
{
    '0' <= c && c <= '7'
}

/// The value of the digit `c`, in any radix where it is a digit.
pub open spec fn spec_digit_val(c: char) -> int {
    if spec_is_dec(c) {
        c as int - '0' as int
    } else if 'a' <= c <= 'f' {
        c as int - 'a' as int + 10
    } else if 'A' <= c <= 'F' {
        c as int - 'A' as int + 10
    } else {
        0
    }
}

/// The numeric value of a digit character, between 0 and 15.
pub fn digit_val(c: char) -> (v: u32)
    requires
        spec_is_hex(c),
    ensures
        v == spec_digit_val(c),
        v < 16,
{
    let u = c as u32;
    if '0' <= c && c <= '9' {
        u - ('0' as u32)
    } else if 'a' <= c && c <= 'f' {
        u - ('a' as u32) + 10
    } else {
        u - ('A' as u32) + 10
    }
}

/// `c` is one of the characters operators are spelled with.
pub open spec fn spec_is_operator_char(c: char) -> bool {
    c == '!' || c == '%' || c == '&' || c == '*' || c == '+' || c == '-' || c == '.' || c == '/'
        || c == ':' || c == '<' || c == '=' || c == '>' || c == '^' || c == '|' || c == '~'
}

#[verifier::when_used_as_spec(spec_is_operator_char)]
pub fn is_operator_char(c: char) -> (r: bool)
    ensures
        r == spec_is_operator_char(c),
{
    match c {
        '!' => true,
        '%' => true,
        '&' => true,
        '*' => true,
        '+' => true,
        '-' => true,
        '.' => true,
        '/' => true,
        ':' => true,
        '<' => true,
        '=' => true,
        '>' => true,
        '^' => true,
        '|' => true,
        '~' => true,
        _ => false,
    }
}

/// `c` has the Unicode `White_Space` property.
pub open spec fn spec_white_space(c: char) -> bool {
    c == '\t' || c == '\n' || c == '\u{B}' || c == '\u{C}' || c == '\r' || c == ' ' || c == '\u{85}'
        || c == '\u{A0}' || c == '\u{1680}' || ('\u{2000}' <= c <= '\u{200A}') || c == '\u{2028}'
        || c == '\u{2029}' || c == '\u{202F}' || c == '\u{205F}' || c == '\u{3000}'
}

/// Membership in the Unicode `White_Space` class (the 25 code points that
/// carry the property).
#[verifier::when_used_as_spec(spec_white_space)]
pub fn white_space(c: char) -> (r: bool)
    ensures
        r == spec_white_space(c),
{
    match c {
        '\t' | '\n' | '\u{B}' | '\u{C}' | '\r' | ' ' => true,
        '\u{85}' | '\u{A0}' | '\u{1680}' => true,
        '\u{2028}' | '\u{2029}' | '\u{202F}' | '\u{205F}' | '\u{3000}' => true,
        _ => '\u{2000}' <= c && c <= '\u{200A}',
    }
}

/// The Unicode `XID_Start` property of a character.
pub uninterp spec fn xid_start(c: char) -> bool;

/// The Unicode `XID_Continue` property of a character.
pub uninterp spec fn xid_continue(c: char) -> bool;

/// Relies on `unic_ucd_ident::is_xid_start`: the Unicode `XID_Start`
/// property, a fixed table lookup depending on the character alone.
#[verifier::external_body]
fn xid_start_ch(c: char) -> (r: bool)
    ensures
        r == xid_start(c),
{
    unic_ucd_ident::is_xid_start(c)
}

/// Relies on `unic_ucd_ident::is_xid_continue`: the Unicode `XID_Continue`
/// property, a fixed table lookup depending on the character alone.
#[verifier::external_body]
fn xid_continue_ch(c: char) -> (r: bool)
    ensures
        r == xid_continue(c),
{
    unic_ucd_ident::is_xid_continue(c)
}

/// `c` may start an identifier.
pub fn is_ident_start(c: char) -> (r: bool)
    ensures
        r == xid_start(c),
{
    xid_start_ch(c)
}

/// `c` may continue an identifier: `XID_Continue`, plus `-`.
pub open spec fn spec_is_ident_continue(c: char) -> bool {
    xid_continue(c) || c == '-'
}

pub fn is_ident_continue(c: char) -> (r: bool)
    ensures
        r == spec_is_ident_continue(c),
{
    xid_continue_ch(c) || c == '-'
}

/// Relies on `String::push`: appends one character at the end.
#[verifier::external_body]
pub(crate) fn push_char(s: &mut String, c: char)
    ensures
        final(s)@ == old(s)@.push(c),
{
    s.push(c);
}

/// Relies on `char::from_u32`: `Some` exactly for Unicode scalar values
/// (at most 0x10FFFF and not a surrogate), returning the scalar itself.
#[verifier::external_body]
pub(crate) fn char_from_u32(v: u32) -> (r: Option<char>)
    ensures
        r is Some <==> vstd::utf8::is_scalar(v),
        r is Some ==> r->0 as u32 == v,
{
    char::from_u32(v)
}

/// Build an owned string out of a slice of characters.
pub fn string_from_chars(v: &[char]) -> (s: String)
    ensures
        s@ == v@,
{
    let mut s = String::new();
    let mut i: usize = 0;
    while i < v.len()
        invariant
            i <= v.len(),
            s@ == v@.take(i as int),
        decreases v.len() - i,
    {
        push_char(&mut s, v[i]);
        proof {
            assert(v@.take(i + 1) =~= v@.take(i as int).push(v@[i as int]));
        }
        i = i + 1;
    }
    proof {
        assert(v@.take(v@.len() as int) =~= v@);
    }
    s
}

/// Decode a string into its sequence of characters.
pub fn chars_vec(s: &str) -> (v: Vec<char>)
    ensures
        v@ == s@,
{
    let mut it = s.chars();
    let mut v: Vec<char> = Vec::new();
    loop
        invariant
            v@ + it.remaining() == s@,
            it.decrease() is Some,
        decreases it.decrease()->0,
    {
        match it.next() {
            Some(c) => {
                v.push(c);
            },
            None => {
                proof {
                    assert(it.remaining().len() == 0);
                    assert(v@ =~= s@);
                }
                return v;
            },
        }
    }
}

/// A class of characters that a maximal run is scanned over.
#[derive(Clone, Copy, PartialEq, Eq, Debug)]
pub enum Class {
    /// Decimal digit or separator.
    DecUnd,
    /// Decimal digit.
    Dec,
    /// Hexadecimal digit or separator.
    HexUnd,
    /// Binary digit or separator.
    BinUnd,
    /// Octal digit or separator.
    OctUnd,
    /// Hexadecimal digit.
    Hex,
    /// Operator character.
    Op,
    /// Identifier continuation character.
    IdentCont,
    /// Anything but a newline.
    NotNewline,
    /// Anything but a single quote.
    NotQuote,
    /// Anything but a newline or a double quote.
    HdDq,
    /// Anything but a newline or a single quote.
    HdSq,
    /// Horizontal white space: white space other than newline.
    HWhite,
}

/// Membership of `c` in the class `cl`.
pub open spec fn class_pred(cl: Class, c: char) -> bool {
    match cl {
        Class::DecUnd => spec_is_dec(c) || c == '_',
        Class::Dec => spec_is_dec(c),
        Class::HexUnd => spec_is_hex(c) || c == '_',
        Class::BinUnd => spec_is_bin(c) || c == '_',
        Class::OctUnd => spec_is_oct(c) || c == '_',
        Class::Hex => spec_is_hex(c),
        Class::Op => spec_is_operator_char(c),
        Class::IdentCont => spec_is_ident_continue(c),
        Class::NotNewline => c != '\n',
        Class::NotQuote => c != '\'',
        Class::HdDq => c != '\n' && c != '"',
        Class::HdSq => c != '\n' && c != '\'',
        Class::HWhite => spec_white_space(c) && c != '\n',
    }
}

pub(crate) fn class_test(cl: Class, c: char) -> (r: bool)
    ensures
        r == class_pred(cl, c),
{
    match cl {
        Class::DecUnd => is_dec(c) || c == '_',
        Class::Dec => is_dec(c),
        Class::HexUnd => is_hex(c) || c == '_',
        Class::BinUnd => is_bin(c) || c == '_',
        Class::OctUnd => is_oct(c) || c == '_',
        Class::Hex => is_hex(c),
        Class::Op => is_operator_char(c),
        Class::IdentCont => is_ident_continue(c),
        Class::NotNewline => c != '\n',
        Class::NotQuote => c != '\'',
        Class::HdDq => c != '\n' && c != '"',
        Class::HdSq => c != '\n' && c != '\'',
        Class::HWhite => white_space(c) && c != '\n',
    }
}

/// The position where the maximal run of class `cl` characters beginning
/// at `i` ends: the first position at or after `i` holding no such
/// character, or the end of the text.
pub open spec fn scan_end(s: Seq<char>, i: int, cl: Class) -> int
    decreases s.len() - i,
    when i <= s.len()
{
    if i < s.len() && class_pred(cl, s[i]) {
        scan_end(s, i + 1, cl)
    } else {
        i
    }
}

/// What `scan_end` delimits: a run of class characters, ended by the text
/// or by a character outside the class.
pub proof fn lemma_scan_end(s: Seq<char>, i: int, cl: Class)
    requires
        0 <= i <= s.len(),
    ensures
        i <= scan_end(s, i, cl) <= s.len(),
        forall|j: int| i <= j < scan_end(s, i, cl) ==> class_pred(cl, #[trigger] s[j]),
        scan_end(s, i, cl) < s.len() ==> !class_pred(cl, s[scan_end(s, i, cl)]),
    decreases s.len() - i,
{
    if i < s.len() && class_pred(cl, s[i]) {
        lemma_scan_end(s, i + 1, cl);
    }
}

} // verus!
