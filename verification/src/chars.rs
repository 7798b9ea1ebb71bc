//! Character properties from std's Unicode tables.

use vstd::prelude::*;

verus! {

/// The Unicode properties alphabetic or numeric.
pub uninterp spec fn is_alnum(c: char) -> bool;

/// The Unicode property White_Space.
#[verifier::opaque]
pub open spec fn is_space(c: char) -> bool {
    let u = c as u32;
    9 <= u <= 13 || u == 0x20 || u == 0x85 || u == 0xa0 || u == 0x1680 || 0x2000 <= u <= 0x200a
        || u == 0x2028 || u == 0x2029 || u == 0x202f || u == 0x205f || u == 0x3000
}

/// The general category Control.
#[verifier::opaque]
pub open spec fn is_ctrl(c: char) -> bool {
    let u = c as u32;
    u <= 0x1f || 0x7f <= u <= 0x9f
}

/// `char::is_alphanumeric` of std is a property of the character alone.
pub assume_specification[ char::is_alphanumeric ](c: char) -> (r: bool)
    ensures
        r == is_alnum(c),
;

/// `char::is_whitespace` of std tells the characters with the property
/// White_Space.
pub assume_specification[ char::is_whitespace ](c: char) -> (r: bool)
    ensures
        r == is_space(c),
;

/// `char::is_control` of std tells the characters of the category Control.
pub assume_specification[ char::is_control ](c: char) -> (r: bool)
    ensures
        r == is_ctrl(c),
;

/// The Unicode property Uppercase.
pub uninterp spec fn is_upper(c: char) -> bool;

/// The Unicode property Lowercase.
pub uninterp spec fn is_lower(c: char) -> bool;

/// Lower-case form of a character, which may be several.
pub uninterp spec fn lower_char_of(c: char) -> Seq<char>;

/// Upper-case form of a character, which may be several.
pub uninterp spec fn upper_char_of(c: char) -> Seq<char>;

/// Lower-case form of a text.
pub uninterp spec fn lower_of(s: Seq<char>) -> Seq<char>;

/// `char::is_uppercase` of std is a property of the character alone.
pub assume_specification[ char::is_uppercase ](c: char) -> (r: bool)
    ensures
        r == is_upper(c),
;

/// `char::is_lowercase` of std is a property of the character alone.
pub assume_specification[ char::is_lowercase ](c: char) -> (r: bool)
    ensures
        r == is_lower(c),
;

/// `char::to_lowercase` of std, its characters put in a `String`: a function
/// of the character alone.
#[verifier::external_body]
pub(crate) fn lower_char(c: char) -> (r: String)
    ensures
        r@ == lower_char_of(c),
{
    c.to_lowercase().collect()
}

/// `char::to_uppercase` of std, its characters put in a `String`: a function
/// of the character alone.
#[verifier::external_body]
pub(crate) fn upper_char(c: char) -> (r: String)
    ensures
        r@ == upper_char_of(c),
{
    c.to_uppercase().collect()
}

/// `str::to_lowercase` of std is a function of the text alone.
pub assume_specification[ str::to_lowercase ](s: &str) -> (r: String)
    ensures
        r@ == lower_of(s@),
;

pub open spec fn space_fn() -> spec_fn(char) -> bool {
    |c: char| is_space(c)
}

/// Every character is white space.
pub open spec fn blank(s: Seq<char>) -> bool {
    forall|i: int| 0 <= i < s.len() ==> is_space(#[trigger] s[i])
}

/// Whether a line holds nothing but white space.
pub fn is_blank(s: &str) -> (r: bool)
    ensures
        r == blank(s@),
{
    let v: Vec<char> = crate::text::chars_of(s);
    let mut i: usize = 0;
    while i < v.len()
        invariant
            i <= v.len(),
            v@ == s@,
            forall|k: int| 0 <= k < i ==> is_space(#[trigger] s@[k]),
        decreases v.len() - i,
    {
        if !v[i].is_whitespace() {
            assert(!is_space(s@[i as int]));
            return false;
        }
        i += 1;
    }
    true
}

pub open spec fn is_digit(c: char) -> bool {
    '0' <= c <= '9'
}

pub open spec fn is_ascii_upper(c: char) -> bool {
    'A' <= c <= 'Z'
}

pub open spec fn is_ascii_lower(c: char) -> bool {
    'a' <= c <= 'z'
}

pub open spec fn is_ascii_alpha(c: char) -> bool {
    is_ascii_upper(c) || is_ascii_lower(c)
}

pub open spec fn is_ascii_alnum(c: char) -> bool {
    is_ascii_alpha(c) || is_digit(c)
}

pub fn ascii_digit(c: char) -> (r: bool)
    ensures
        r == is_digit(c),
{
    '0' <= c && c <= '9'
}

pub fn ascii_upper(c: char) -> (r: bool)
    ensures
        r == is_ascii_upper(c),
{
    'A' <= c && c <= 'Z'
}

pub fn ascii_alpha(c: char) -> (r: bool)
    ensures
        r == is_ascii_alpha(c),
{
    ('A' <= c && c <= 'Z') || ('a' <= c && c <= 'z')
}

pub fn ascii_alnum(c: char) -> (r: bool)
    ensures
        r == is_ascii_alnum(c),
{
    ascii_alpha(c) || ascii_digit(c)
}

} // verus!
