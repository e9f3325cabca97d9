//! Characters and character sequences: the classes of characters that the
//! two parsers scan by, and the conversions between strings and vectors of
//! characters.
//!
//! Every parser works on a `Vec<char>`, so a position is an index of a
//! character, and the text between two positions is a `subrange` of the view.

use vstd::prelude::*;

verus! {

/// What `char::is_alphanumeric` returns for `c`. The library consults it for
/// characters outside ASCII only.
pub uninterp spec fn unicode_alphanumeric(c: char) -> bool;

/// `char::is_alphanumeric`, which decides by the Unicode tables of the
/// standard library. The contract gives the result its name and claims nothing
/// else of it.
#[verifier::external_body]
fn unicode_is_alphanumeric(c: char) -> (b: bool)
    ensures
        b == unicode_alphanumeric(c),
{
    c.is_alphanumeric()
}

/// `String::push` appends one character to the string.
pub assume_specification[ String::push ](s: &mut String, ch: char)
    ensures
        final(s)@ == old(s)@.push(ch),
;

/// Equality of string slices, `str::eq`, compares their characters.
pub assume_specification[ <str as PartialEq>::eq ](a: &str, b: &str) -> (r: bool)
    ensures
        r == (a@ == b@),
;

/// `String::push_str` appends a string slice to the string.
pub assume_specification[ String::push_str ](s: &mut String, other: &str)
    ensures
        final(s)@ == old(s)@ + other@,
;

/// A decimal digit, `0` to `9`.
pub open spec fn is_ascii_digit(c: char) -> bool {
    '0' <= c <= '9'
}

/// A letter of ASCII, `a` to `z` or `A` to `Z`.
pub open spec fn is_ascii_letter(c: char) -> bool {
    ('a' <= c <= 'z') || ('A' <= c <= 'Z')
}

/// White space: the characters with the Unicode property `White_Space`,
/// which are U+0009 to U+000D, U+0020, U+0085, U+00A0, U+1680, U+2000 to
/// U+200A, U+2028, U+2029, U+202F, U+205F and U+3000.
pub open spec fn is_whitespace(c: char) -> bool {
    let n = c as u32;
    (0x09 <= n <= 0x0D) || n == 0x20 || n == 0x85 || n == 0xA0 || n == 0x1680 || (0x2000 <= n
        <= 0x200A) || n == 0x2028 || n == 0x2029 || n == 0x202F || n == 0x205F || n == 0x3000
}

/// A letter or a digit: among ASCII the 62 characters `a-z`, `A-Z`, `0-9`;
/// beyond ASCII whatever Unicode counts as alphabetic or numeric.
pub open spec fn is_alphanumeric(c: char) -> bool {
    if (c as u32) < 0x80 {
        is_ascii_digit(c) || is_ascii_letter(c)
    } else {
        unicode_alphanumeric(c)
    }
}

/// A character of a CSS identifier.
pub open spec fn is_identifier_char(c: char) -> bool {
    is_alphanumeric(c) || c == '-' || c == '_'
}

/// Whether the character is white space.
pub fn char_is_whitespace(c: char) -> (b: bool)
    ensures
        b == is_whitespace(c),
{
    let n: u32 = c as u32;
    (0x09 <= n && n <= 0x0D) || n == 0x20 || n == 0x85 || n == 0xA0 || n == 0x1680 || (0x2000 <= n
        && n <= 0x200A) || n == 0x2028 || n == 0x2029 || n == 0x202F || n == 0x205F || n == 0x3000
}

/// Whether the character is a letter or a digit.
pub fn char_is_alphanumeric(c: char) -> (b: bool)
    ensures
        b == is_alphanumeric(c),
{
    if (c as u32) < 0x80 {
        ('0' <= c && c <= '9') || ('a' <= c && c <= 'z') || ('A' <= c && c <= 'Z')
    } else {
        unicode_is_alphanumeric(c)
    }
}

/// The classes of characters that the parsers scan by.
#[derive(Clone, Copy, Debug, PartialEq, Eq, Structural)]
pub enum CharClass {
    /// White space.
    Whitespace,
    /// Letters and digits: the characters of a tag or attribute name.
    Alphanumeric,
    /// Letters, digits, `-` and `_`: the characters of a CSS identifier.
    Identifier,
    /// Digits and the decimal point.
    Numeric,
    /// Everything but white space: the characters of a word.
    Word,
    /// Every character but the given one.
    Until(char),
    /// The characters of an attribute value without quotes: everything but
    /// white space, `>` and `/`.
    Unquoted,
}

impl CharClass {
    /// Whether the character belongs to the class.
    pub open spec fn holds(self, c: char) -> bool {
        match self {
            CharClass::Whitespace => is_whitespace(c),
            CharClass::Alphanumeric => is_alphanumeric(c),
            CharClass::Identifier => is_identifier_char(c),
            CharClass::Numeric => is_ascii_digit(c) || c == '.',
            CharClass::Word => !is_whitespace(c),
            CharClass::Until(stop) => c != stop,
            CharClass::Unquoted => !is_whitespace(c) && c != '>' && c != '/',
        }
    }

    /// Whether the character belongs to the class.
    pub fn test(self, c: char) -> (b: bool)
        ensures
            b == self.holds(c),
    {
        match self {
            CharClass::Whitespace => char_is_whitespace(c),
            CharClass::Alphanumeric => char_is_alphanumeric(c),
            CharClass::Identifier => char_is_alphanumeric(c) || c == '-' || c == '_',
            CharClass::Numeric => ('0' <= c && c <= '9') || c == '.',
            CharClass::Word => !char_is_whitespace(c),
            CharClass::Until(stop) => c != stop,
            CharClass::Unquoted => !char_is_whitespace(c) && c != '>' && c != '/',
        }
    }
}

/// How many characters of `s`, from position `pos` on, belong to `class`
/// without interruption.
pub open spec fn run_len(s: Seq<char>, pos: int, class: CharClass) -> nat
    decreases s.len() - pos,
{
    if 0 <= pos < s.len() && class.holds(s[pos]) {
        1 + run_len(s, pos + 1, class)
    } else {
        0
    }
}

/// The position at which the run of `class` that starts at `pos` ends.
pub open spec fn run_end(s: Seq<char>, pos: int, class: CharClass) -> int {
    pos + run_len(s, pos, class)
}

/// `run_end` is the first position from `pos` on that holds no character of
/// the class.
pub proof fn lemma_run_end(s: Seq<char>, pos: int, class: CharClass)
    requires
        0 <= pos <= s.len(),
    ensures
        pos <= run_end(s, pos, class) <= s.len(),
        forall|i: int| pos <= i < run_end(s, pos, class) ==> class.holds(#[trigger] s[i]),
        run_end(s, pos, class) < s.len() ==> !class.holds(s[run_end(s, pos, class)]),
    decreases s.len() - pos,
{
    if pos < s.len() && class.holds(s[pos]) {
        lemma_run_end(s, pos + 1, class);
    }
}

/// A position with the three properties of `run_end` is `run_end`.
pub proof fn lemma_run_end_unique(s: Seq<char>, pos: int, class: CharClass, end: int)
    requires
        0 <= pos <= end <= s.len(),
        forall|i: int| pos <= i < end ==> class.holds(#[trigger] s[i]),
        end < s.len() ==> !class.holds(s[end]),
    ensures
        run_end(s, pos, class) == end,
    decreases end - pos,
{
    if pos < end {
        assert(class.holds(s[pos]));
        lemma_run_end_unique(s, pos + 1, class, end);
    }
}

/// Scans the run of `class` that starts at `pos`, and returns where it ends.
pub fn scan(v: &Vec<char>, pos: usize, class: CharClass) -> (end: usize)
    requires
        pos <= v.len(),
    ensures
        end == run_end(v@, pos as int, class),
        pos <= end <= v.len(),
{
    let mut end: usize = pos;
    while end < v.len() && class.test(v[end])
        invariant
            pos <= end <= v.len(),
            run_end(v@, pos as int, class) == run_end(v@, end as int, class),
        decreases v.len() - end,
    {
        end = end + 1;
    }
    end
}

/// Whether position `pos` of `s` holds the character `c`.
pub open spec fn has_char(s: Seq<char>, pos: int, c: char) -> bool {
    0 <= pos < s.len() && s[pos] == c
}

/// Whether `pat` stands in `s` at position `pos`.
pub open spec fn has_prefix(s: Seq<char>, pos: int, pat: Seq<char>) -> bool {
    &&& 0 <= pos
    &&& pos + pat.len() <= s.len()
    &&& s.subrange(pos, pos + pat.len()) == pat
}

/// The characters of a string, one by one.
pub fn chars_of(s: &str) -> (v: Vec<char>)
    ensures
        v@ == s@,
{
    let mut v: Vec<char> = Vec::new();
    for c in it: s.chars()
        invariant
            v@ == it.seq().take(it.index() as int),
            it.seq() == s@,
    {
        v.push(c);
    }
    v
}

/// The string made of the characters of `v` from `from` up to `to`.
pub fn string_of(v: &Vec<char>, from: usize, to: usize) -> (s: String)
    requires
        from <= to <= v.len(),
    ensures
        s@ == v@.subrange(from as int, to as int),
{
    let mut s = String::new();
    let mut i: usize = from;
    while i < to
        invariant
            from <= i <= to <= v.len(),
            s@ == v@.subrange(from as int, i as int),
        decreases to - i,
    {
        s.push(v[i]);
        i = i + 1;
        assert(v@.subrange(from as int, i as int) == v@.subrange(from as int, i - 1).push(
            v@[i - 1],
        ));
    }
    s
}

/// A copy of the characters of `v` from `from` up to `to`.
pub fn slice_of(v: &Vec<char>, from: usize, to: usize) -> (r: Vec<char>)
    requires
        from <= to <= v.len(),
    ensures
        r@ == v@.subrange(from as int, to as int),
{
    let mut r: Vec<char> = Vec::new();
    let mut i: usize = from;
    while i < to
        invariant
            from <= i <= to <= v.len(),
            r@ == v@.subrange(from as int, i as int),
        decreases to - i,
    {
        r.push(v[i]);
        i = i + 1;
        assert(v@.subrange(from as int, i as int) == v@.subrange(from as int, i - 1).push(
            v@[i - 1],
        ));
    }
    r
}

/// Whether `pat` stands in `v` at position `pos`.
pub fn starts_with_at(v: &Vec<char>, pos: usize, pat: &Vec<char>) -> (b: bool)
    ensures
        b == has_prefix(v@, pos as int, pat@),
{
    if pat.len() > v.len() || pos > v.len() - pat.len() {
        return false;
    }
    let mut i: usize = 0;
    while i < pat.len()
        invariant
            pos + pat.len() <= v.len(),
            i <= pat.len(),
            forall|j: int| 0 <= j < i ==> v@[pos + j] == pat@[j],
        decreases pat.len() - i,
    {
        if v[pos + i] != pat[i] {
            assert(v@.subrange(pos as int, pos + pat.len())[i as int] != pat@[i as int]);
            return false;
        }
        i = i + 1;
    }
    assert(v@.subrange(pos as int, pos + pat.len()) =~= pat@);
    true
}


/// The character of a decimal digit.
pub open spec fn digit_char(d: nat) -> char {
    if d == 0 {
        '0'
    } else if d == 1 {
        '1'
    } else if d == 2 {
        '2'
    } else if d == 3 {
        '3'
    } else if d == 4 {
        '4'
    } else if d == 5 {
        '5'
    } else if d == 6 {
        '6'
    } else if d == 7 {
        '7'
    } else if d == 8 {
        '8'
    } else {
        '9'
    }
}

/// The number in decimal digits, without leading zeros.
pub open spec fn decimal(n: nat) -> Seq<char>
    decreases n,
{
    if n < 10 {
        seq![digit_char(n)]
    } else {
        decimal(n / 10).push(digit_char(n % 10))
    }
}

fn digit_to_char(d: usize) -> (c: char)
    requires
        d < 10,
    ensures
        c == digit_char(d as nat),
{
    match d {
        0 => '0',
        1 => '1',
        2 => '2',
        3 => '3',
        4 => '4',
        5 => '5',
        6 => '6',
        7 => '7',
        8 => '8',
        _ => '9',
    }
}

/// Appends the number in decimal digits.
pub fn push_decimal(s: &mut String, n: usize)
    ensures
        final(s)@ == old(s)@ + decimal(n as nat),
    decreases n,
{
    if n < 10 {
        s.push(digit_to_char(n));
        assert(s@ =~= old(s)@ + decimal(n as nat));
    } else {
        push_decimal(s, n / 10);
        s.push(digit_to_char(n % 10));
        assert(s@ =~= old(s)@ + decimal(n as nat));
    }
}

} // verus!
