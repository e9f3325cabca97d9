//! Style sheets: the data model, the grammar as functions on sequences of
//! characters, and a parser that is proved to compute them.
//!
//! Lengths are fixed-point numbers: a length counts thousandths of a pixel.

use vstd::prelude::*;
use crate::text::{
    chars_of, is_ascii_digit, is_identifier_char, lemma_run_end, run_end, scan, slice_of,
    string_of, CharClass,
};

verus! {

/// How many units of length make one pixel.
pub const UNITS_PER_PIXEL: i64 = 1000;

/// A style sheet: its rules in source order.
#[derive(Debug, PartialEq, Eq)]
pub struct Stylesheet {
    pub rules: Vec<Rule>,
}

/// A rule: the selectors, the most specific first, and the declarations in
/// source order.
#[derive(Debug, PartialEq, Eq)]
pub struct Rule {
    pub selectors: Vec<Selector>,
    pub declarations: Vec<Declaration>,
}

/// A selector. Only simple selectors exist.
#[derive(Debug, PartialEq, Eq)]
pub enum Selector {
    Simple(SimpleSelector),
}

/// A simple selector: what it asks of the tag name, of the id and of the
/// classes of an element.
#[derive(Debug, PartialEq, Eq)]
pub struct SimpleSelector {
    pub tag_name: Option<String>,
    pub id: Option<String>,
    pub classes: Vec<String>,
}

/// A declaration: a property name and its value.
#[derive(Debug, PartialEq, Eq)]
pub struct Declaration {
    pub name: String,
    pub value: Value,
}

/// A value of a property. A length counts thousandths of its unit.
#[derive(Debug, PartialEq, Eq)]
pub enum Value {
    Keyword(String),
    Length(i64, Unit),
    Color(Color),
}

/// The unit of a length.
#[derive(Debug, Clone, Copy, PartialEq, Eq, Structural)]
pub enum Unit {
    Px,
}

/// A colour with 8-bit channels.
#[derive(Debug, Clone, Copy, PartialEq, Eq, Structural)]
pub struct Color {
    pub r: u8,
    pub g: u8,
    pub b: u8,
    pub a: u8,
}

/// The strength of a selector: whether it names an id, how many classes, and
/// whether it names a tag. Compared in that order.
pub type Specificity = (usize, usize, usize);

/// Why a style sheet was rejected.
#[derive(Debug, Clone, Copy, PartialEq, Eq, Structural)]
pub enum CssError {
    /// The text ends inside a rule.
    UnexpectedEof,
    /// A selector is followed by something other than `,` or `{`.
    InvalidSelector,
    /// A property name is not followed by `:`.
    MissingColon,
    /// A value is not followed by `;`.
    MissingSemicolon,
    /// A number has more than one decimal point.
    InvalidNumber,
    /// A number is larger than a length can hold.
    NumberTooLarge,
    /// The unit of a length is not `px`.
    UnknownUnit,
    /// `#` is not followed by six hexadecimal digits.
    InvalidColor,
}

/// A value as a mathematical value.
pub ghost enum ValueView {
    Keyword(Seq<char>),
    Length(i64, Unit),
    Color(Color),
}

/// A declaration as a mathematical value.
pub ghost struct DeclarationView {
    pub name: Seq<char>,
    pub value: ValueView,
}

/// A simple selector as a mathematical value.
pub ghost struct SimpleSelectorView {
    pub tag_name: Option<Seq<char>>,
    pub id: Option<Seq<char>>,
    pub classes: Seq<Seq<char>>,
}

/// A selector as a mathematical value.
pub ghost enum SelectorView {
    Simple(SimpleSelectorView),
}

/// A rule as a mathematical value.
pub ghost struct RuleView {
    pub selectors: Seq<SelectorView>,
    pub declarations: Seq<DeclarationView>,
}

/// A style sheet as a mathematical value.
pub ghost struct StylesheetView {
    pub rules: Seq<RuleView>,
}

/// The characters of a string that may be missing.
pub open spec fn opt_view(o: Option<String>) -> Option<Seq<char>> {
    match o {
        Some(s) => Some(s@),
        None => None,
    }
}

impl Value {
    /// The value as a mathematical value.
    pub open spec fn view(&self) -> ValueView {
        match self {
            Value::Keyword(s) => ValueView::Keyword(s@),
            Value::Length(n, u) => ValueView::Length(*n, *u),
            Value::Color(c) => ValueView::Color(*c),
        }
    }

    /// The length in thousandths of a pixel; 0 for what is no length.
    pub fn to_px(&self) -> (n: i64)
        ensures
            n == self@.to_px(),
    {
        match self {
            Value::Length(n, Unit::Px) => *n,
            _ => 0,
        }
    }

    /// Whether the value is the keyword `word`.
    pub fn is_keyword(&self, word: &str) -> (b: bool)
        ensures
            b == (self@ == ValueView::Keyword(word@)),
    {
        match self {
            Value::Keyword(s) => s.as_str().eq(word),
            _ => false,
        }
    }
}

impl Clone for Value {
    fn clone(&self) -> (r: Self)
        ensures
            r == *self,
    {
        match self {
            Value::Keyword(s) => Value::Keyword(s.clone()),
            Value::Length(n, u) => Value::Length(*n, *u),
            Value::Color(c) => Value::Color(*c),
        }
    }
}

impl ValueView {
    /// The length in thousandths of a pixel; 0 for what is no length.
    pub open spec fn to_px(self) -> int {
        match self {
            ValueView::Length(n, Unit::Px) => n as int,
            _ => 0,
        }
    }
}

impl Color {
    /// The colour as `#rrggbb`, in lower-case hexadecimal digits.
    pub open spec fn hex(self) -> Seq<char> {
        seq![
            '#',
            hex_digit(self.r as int / 16),
            hex_digit(self.r as int % 16),
            hex_digit(self.g as int / 16),
            hex_digit(self.g as int % 16),
            hex_digit(self.b as int / 16),
            hex_digit(self.b as int % 16),
        ]
    }

    /// Writes the colour as `#rrggbb`.
    pub fn to_hex_string(&self) -> (s: String)
        ensures
            s@ == self.hex(),
    {
        let mut s = String::new();
        s.push('#');
        s.push(hex_digit_char(self.r / 16));
        s.push(hex_digit_char(self.r % 16));
        s.push(hex_digit_char(self.g / 16));
        s.push(hex_digit_char(self.g % 16));
        s.push(hex_digit_char(self.b / 16));
        s.push(hex_digit_char(self.b % 16));
        assert(s@ =~= self.hex());
        s
    }
}

/// The hexadecimal digit, in lower case, for a number below 16.
pub open spec fn hex_digit(n: int) -> char {
    if n == 0 {
        '0'
    } else if n == 1 {
        '1'
    } else if n == 2 {
        '2'
    } else if n == 3 {
        '3'
    } else if n == 4 {
        '4'
    } else if n == 5 {
        '5'
    } else if n == 6 {
        '6'
    } else if n == 7 {
        '7'
    } else if n == 8 {
        '8'
    } else if n == 9 {
        '9'
    } else if n == 10 {
        'a'
    } else if n == 11 {
        'b'
    } else if n == 12 {
        'c'
    } else if n == 13 {
        'd'
    } else if n == 14 {
        'e'
    } else {
        'f'
    }
}

fn hex_digit_char(n: u8) -> (c: char)
    requires
        n < 16,
    ensures
        c == hex_digit(n as int),
{
    match n {
        0 => '0',
        1 => '1',
        2 => '2',
        3 => '3',
        4 => '4',
        5 => '5',
        6 => '6',
        7 => '7',
        8 => '8',
        9 => '9',
        10 => 'a',
        11 => 'b',
        12 => 'c',
        13 => 'd',
        14 => 'e',
        _ => 'f',
    }
}

impl Declaration {
    /// The declaration as a mathematical value.
    pub open spec fn view(&self) -> DeclarationView {
        DeclarationView { name: self.name@, value: self.value@ }
    }
}

impl SimpleSelector {
    /// The selector as a mathematical value.
    pub open spec fn view(&self) -> SimpleSelectorView {
        SimpleSelectorView {
            tag_name: opt_view(self.tag_name),
            id: opt_view(self.id),
            classes: self.classes.deep_view(),
        }
    }
}

impl Selector {
    /// The selector as a mathematical value.
    pub open spec fn view(&self) -> SelectorView {
        match self {
            Selector::Simple(s) => SelectorView::Simple(s@),
        }
    }

    /// The specificity of the selector.
    pub fn specificity(&self) -> (r: Specificity)
        ensures
            (r.0 as int, r.1 as int, r.2 as int) == self@.specificity(),
    {
        match self {
            Selector::Simple(simple) => {
                let a: usize = if simple.id.is_some() {
                    1
                } else {
                    0
                };
                let b: usize = simple.classes.len();
                let c: usize = if simple.tag_name.is_some() {
                    1
                } else {
                    0
                };
                (a, b, c)
            },
        }
    }
}

impl SelectorView {
    /// The specificity: 1 or 0 for the id, the number of classes, 1 or 0 for
    /// the tag name.
    pub open spec fn specificity(self) -> (int, int, int) {
        match self {
            SelectorView::Simple(s) => (
                if s.id is Some {
                    1int
                } else {
                    0int
                },
                s.classes.len() as int,
                if s.tag_name is Some {
                    1int
                } else {
                    0int
                },
            ),
        }
    }
}

/// Whether specificity `a` is strictly below `b`: the triples are compared
/// component by component, the first first.
pub open spec fn specificity_lt(a: (int, int, int), b: (int, int, int)) -> bool {
    a.0 < b.0 || (a.0 == b.0 && (a.1 < b.1 || (a.1 == b.1 && a.2 < b.2)))
}

/// Whether specificity `a` is strictly below `b`.
pub fn specificity_less(a: Specificity, b: Specificity) -> (r: bool)
    ensures
        r == specificity_lt((a.0 as int, a.1 as int, a.2 as int), (b.0 as int, b.1 as int, b.2 as int)),
{
    a.0 < b.0 || (a.0 == b.0 && (a.1 < b.1 || (a.1 == b.1 && a.2 < b.2)))
}

/// The views of a sequence of selectors.
pub open spec fn selectors_view(s: Seq<Selector>) -> Seq<SelectorView> {
    Seq::new(s.len(), |i: int| s[i]@)
}

/// The views of a sequence of declarations.
pub open spec fn declarations_view(s: Seq<Declaration>) -> Seq<DeclarationView> {
    Seq::new(s.len(), |i: int| s[i]@)
}

/// The views of a sequence of rules.
pub open spec fn rules_view(s: Seq<Rule>) -> Seq<RuleView> {
    Seq::new(s.len(), |i: int| s[i]@)
}

impl Rule {
    /// The rule as a mathematical value.
    pub open spec fn view(&self) -> RuleView {
        RuleView {
            selectors: selectors_view(self.selectors@),
            declarations: declarations_view(self.declarations@),
        }
    }
}

impl Stylesheet {
    /// The style sheet as a mathematical value.
    pub open spec fn view(&self) -> StylesheetView {
        StylesheetView { rules: rules_view(self.rules@) }
    }
}


// ---------------------------------------------------------------------------
// Numbers

/// The value of a decimal digit.
pub open spec fn digit_value(c: char) -> int {
    c as int - '0' as int
}

/// The number that a sequence of decimal digits writes.
pub open spec fn digits_value(s: Seq<char>) -> int
    decreases s.len(),
{
    if s.len() == 0 {
        0
    } else {
        digits_value(s.drop_last()) * 10 + digit_value(s.last())
    }
}

/// Whether every character is a decimal digit.
pub open spec fn all_digits(s: Seq<char>) -> bool {
    forall|i: int| 0 <= i < s.len() ==> is_ascii_digit(#[trigger] s[i])
}

/// Where the integer part of a number ends: at its first `.`, or at its end.
pub open spec fn integer_end(s: Seq<char>) -> int {
    run_end(s, 0, CharClass::Until('.'))
}

/// The digits after the decimal point.
pub open spec fn fraction_digits(s: Seq<char>) -> Seq<char> {
    if integer_end(s) < s.len() {
        s.subrange(integer_end(s) + 1, s.len() as int)
    } else {
        Seq::empty()
    }
}

/// A number is a run of digits with at most one decimal point in it.
pub open spec fn is_decimal(s: Seq<char>) -> bool {
    all_digits(s.subrange(0, integer_end(s))) && all_digits(fraction_digits(s))
}

/// The thousandths that the first three digits of a fraction write.
pub open spec fn fraction_thousandths(f: Seq<char>) -> int {
    if f.len() == 0 {
        0
    } else if f.len() == 1 {
        digit_value(f[0]) * 100
    } else if f.len() == 2 {
        digit_value(f[0]) * 100 + digit_value(f[1]) * 10
    } else {
        digit_value(f[0]) * 100 + digit_value(f[1]) * 10 + digit_value(f[2])
    }
}

/// The number in thousandths, rounded down.
pub open spec fn decimal_thousandths(s: Seq<char>) -> int {
    digits_value(s.subrange(0, integer_end(s))) * 1000 + fraction_thousandths(fraction_digits(s))
}

/// The value of a hexadecimal digit, if it is one.
pub open spec fn hex_value(c: char) -> Option<int> {
    if '0' <= c <= '9' {
        Some(c as int - '0' as int)
    } else if 'a' <= c <= 'f' {
        Some(c as int - 'a' as int + 10)
    } else if 'A' <= c <= 'F' {
        Some(c as int - 'A' as int + 10)
    } else {
        None
    }
}

/// The byte that two hexadecimal digits at `pos` write.
pub open spec fn hex_pair(s: Seq<char>, pos: int) -> Option<int> {
    if 0 <= pos && pos + 2 <= s.len() {
        match (hex_value(s[pos]), hex_value(s[pos + 1])) {
            (Some(h), Some(l)) => Some(h * 16 + l),
            _ => None,
        }
    } else {
        None
    }
}

/// The unit `px`, in either case.
pub open spec fn is_px(s: Seq<char>) -> bool {
    s.len() == 2 && (s[0] == 'p' || s[0] == 'P') && (s[1] == 'x' || s[1] == 'X')
}

// ---------------------------------------------------------------------------
// The grammar

/// The selector that matches everything.
pub open spec fn universal_selector() -> SimpleSelectorView {
    SimpleSelectorView { tag_name: None, id: None, classes: Seq::empty() }
}

/// A simple selector from `pos` on, added to `acc`: any number of `#id`,
/// `.class`, `*` and tag names; a later id or tag name replaces an earlier
/// one. The result is the selector and the position behind it.
pub open spec fn simple_selector(s: Seq<char>, pos: int, acc: SimpleSelectorView) -> (
    SimpleSelectorView,
    int,
)
    decreases s.len() - pos,
{
    if !(0 <= pos < s.len()) {
        (acc, pos)
    } else if s[pos] == '#' {
        let end = run_end(s, pos + 1, CharClass::Identifier);
        proof {
            lemma_run_end(s, pos + 1, CharClass::Identifier);
        }
        simple_selector(
            s,
            end,
            SimpleSelectorView { id: Some(s.subrange(pos + 1, end)), ..acc },
        )
    } else if s[pos] == '.' {
        let end = run_end(s, pos + 1, CharClass::Identifier);
        proof {
            lemma_run_end(s, pos + 1, CharClass::Identifier);
        }
        simple_selector(
            s,
            end,
            SimpleSelectorView { classes: acc.classes.push(s.subrange(pos + 1, end)), ..acc },
        )
    } else if s[pos] == '*' {
        simple_selector(s, pos + 1, acc)
    } else if is_identifier_char(s[pos]) {
        let end = run_end(s, pos, CharClass::Identifier);
        proof {
            lemma_run_end(s, pos, CharClass::Identifier);
        }
        simple_selector(s, end, SimpleSelectorView { tag_name: Some(s.subrange(pos, end)), ..acc })
    } else {
        (acc, pos)
    }
}

/// A simple selector ends inside the text, not in front of where it starts.
pub proof fn lemma_simple_selector(s: Seq<char>, pos: int, acc: SimpleSelectorView)
    requires
        0 <= pos <= s.len(),
    ensures
        pos <= simple_selector(s, pos, acc).1 <= s.len(),
    decreases s.len() - pos,
{
    if pos < s.len() {
        if s[pos] == '#' || s[pos] == '.' {
            lemma_run_end(s, pos + 1, CharClass::Identifier);
            let end = run_end(s, pos + 1, CharClass::Identifier);
            if s[pos] == '#' {
                lemma_simple_selector(
                    s,
                    end,
                    SimpleSelectorView { id: Some(s.subrange(pos + 1, end)), ..acc },
                );
            } else {
                lemma_simple_selector(
                    s,
                    end,
                    SimpleSelectorView {
                        classes: acc.classes.push(s.subrange(pos + 1, end)),
                        ..acc
                    },
                );
            }
        } else if s[pos] == '*' {
            lemma_simple_selector(s, pos + 1, acc);
        } else if is_identifier_char(s[pos]) {
            lemma_run_end(s, pos, CharClass::Identifier);
            let end = run_end(s, pos, CharClass::Identifier);
            lemma_simple_selector(
                s,
                end,
                SimpleSelectorView { tag_name: Some(s.subrange(pos, end)), ..acc },
            );
        }
    }
}

/// The selectors of a rule, from `pos` on and separated by commas, in source
/// order, and the position of the `{` behind them.
pub open spec fn selector_list(s: Seq<char>, pos: int) -> Result<(Seq<SelectorView>, int), CssError>
    decreases s.len() - pos,
{
    let (first, p1) = simple_selector(s, pos, universal_selector());
    let p2 = run_end(s, p1, CharClass::Whitespace);
    if !(0 <= pos <= p2 < s.len()) {
        Err(CssError::UnexpectedEof)
    } else if s[p2] == ',' {
        let p3 = run_end(s, p2 + 1, CharClass::Whitespace);
        proof {
            lemma_simple_selector(s, pos, universal_selector());
            lemma_run_end(s, p2 + 1, CharClass::Whitespace);
        }
        match selector_list(s, p3) {
            Ok((rest, end)) => Ok((seq![SelectorView::Simple(first)] + rest, end)),
            Err(e) => Err(e),
        }
    } else if s[p2] == '{' {
        Ok((seq![SelectorView::Simple(first)], p2))
    } else {
        Err(CssError::InvalidSelector)
    }
}

/// Where `x` goes into `sorted`: before the first selector that is strictly
/// less specific.
pub open spec fn insertion_point(sorted: Seq<SelectorView>, x: SelectorView) -> int
    decreases sorted.len(),
{
    if sorted.len() == 0 {
        0
    } else if specificity_lt(sorted[0].specificity(), x.specificity()) {
        0
    } else {
        1 + insertion_point(sorted.drop_first(), x)
    }
}

/// The selectors in descending order of specificity; selectors of equal
/// specificity keep their source order.
pub open spec fn sort_selectors(s: Seq<SelectorView>) -> Seq<SelectorView>
    decreases s.len(),
{
    if s.len() == 0 {
        s
    } else {
        let sorted = sort_selectors(s.drop_last());
        sorted.insert(insertion_point(sorted, s.last()), s.last())
    }
}

/// All selectors in front of the insertion point are at least as specific
/// as `x`; the selector at the insertion point is less specific.
proof fn lemma_insertion_point(sorted: Seq<SelectorView>, x: SelectorView)
    ensures
        0 <= insertion_point(sorted, x) <= sorted.len(),
        forall|i: int|
            0 <= i < insertion_point(sorted, x) ==> !specificity_lt(
                (#[trigger] sorted[i]).specificity(),
                x.specificity(),
            ),
        insertion_point(sorted, x) < sorted.len() ==> specificity_lt(
            sorted[insertion_point(sorted, x)].specificity(),
            x.specificity(),
        ),
    decreases sorted.len(),
{
    if sorted.len() > 0 && !specificity_lt(sorted[0].specificity(), x.specificity()) {
        let rest = sorted.drop_first();
        lemma_insertion_point(rest, x);
        assert forall|i: int| 0 <= i < insertion_point(sorted, x) implies !specificity_lt(
            (#[trigger] sorted[i]).specificity(),
            x.specificity(),
        ) by {
            if i > 0 {
                assert(sorted[i] == rest[i - 1]);
            }
        }
        if insertion_point(sorted, x) < sorted.len() {
            assert(sorted[insertion_point(sorted, x)] == rest[insertion_point(rest, x)]);
        }
    }
}

/// The selectors of a rule stand in descending order of specificity, and
/// they are the selectors that were written, each as often as it was
/// written.
pub proof fn lemma_sort_selectors(s: Seq<SelectorView>)
    ensures
        sort_selectors(s).len() == s.len(),
        sort_selectors(s).to_multiset() == s.to_multiset(),
        forall|a: int, b: int|
            0 <= a < b < sort_selectors(s).len() ==> !specificity_lt(
                (#[trigger] sort_selectors(s)[a]).specificity(),
                (#[trigger] sort_selectors(s)[b]).specificity(),
            ),
    decreases s.len(),
{
    broadcast use vstd::seq_lib::group_to_multiset_ensures;

    if s.len() > 0 {
        let front = s.drop_last();
        let x = s.last();
        lemma_sort_selectors(front);
        let sorted = sort_selectors(front);
        lemma_insertion_point(sorted, x);
        let at = insertion_point(sorted, x);
        let now = sort_selectors(s);
        assert(now == sorted.insert(at, x));
        assert(now.remove(at) =~= sorted);
        assert(s =~= front.push(x));
        assert(now.to_multiset() =~= sorted.to_multiset().insert(x)) by {
            assert(now.remove(at).to_multiset() =~= now.to_multiset().remove(now[at]));
            assert(now.contains(x)) by {
                assert(now[at] == x);
            }
        }
        assert forall|a: int, b: int| 0 <= a < b < now.len() implies !specificity_lt(
            (#[trigger] now[a]).specificity(),
            (#[trigger] now[b]).specificity(),
        ) by {
            if b < at {
                assert(now[a] == sorted[a] && now[b] == sorted[b]);
            } else if b == at {
                assert(now[a] == sorted[a]);
            } else if a < at {
                assert(now[a] == sorted[a] && now[b] == sorted[b - 1]);
            } else if a == at {
                assert(now[b] == sorted[b - 1]);
                if at < b - 1 {
                    assert(!specificity_lt(sorted[at].specificity(), sorted[b - 1].specificity()));
                }
            } else {
                assert(now[a] == sorted[a - 1] && now[b] == sorted[b - 1]);
            }
        }
    }
}

/// A length at `pos`: a number and the unit `px`.
pub open spec fn length(s: Seq<char>, pos: int) -> Result<(ValueView, int), CssError> {
    let number_end = run_end(s, pos, CharClass::Numeric);
    let number = s.subrange(pos, number_end);
    let unit_end = run_end(s, number_end, CharClass::Identifier);
    if !is_decimal(number) {
        Err(CssError::InvalidNumber)
    } else if decimal_thousandths(number) > i64::MAX {
        Err(CssError::NumberTooLarge)
    } else if !is_px(s.subrange(number_end, unit_end)) {
        Err(CssError::UnknownUnit)
    } else {
        Ok((ValueView::Length(decimal_thousandths(number) as i64, Unit::Px), unit_end))
    }
}

/// A colour at `pos`: `#` and six hexadecimal digits. The colour is opaque.
pub open spec fn color(s: Seq<char>, pos: int) -> Result<(ValueView, int), CssError> {
    match (hex_pair(s, pos + 1), hex_pair(s, pos + 3), hex_pair(s, pos + 5)) {
        (Some(r), Some(g), Some(b)) => Ok(
            (ValueView::Color(Color { r: r as u8, g: g as u8, b: b as u8, a: 255 }), pos + 7),
        ),
        _ => Err(CssError::InvalidColor),
    }
}

/// A value at `pos`: a length where a digit stands, a colour where `#`
/// stands, a keyword otherwise.
pub open spec fn value(s: Seq<char>, pos: int) -> Result<(ValueView, int), CssError> {
    if !(0 <= pos < s.len()) {
        Err(CssError::UnexpectedEof)
    } else if is_ascii_digit(s[pos]) {
        length(s, pos)
    } else if s[pos] == '#' {
        color(s, pos)
    } else {
        let end = run_end(s, pos, CharClass::Identifier);
        Ok((ValueView::Keyword(s.subrange(pos, end)), end))
    }
}

/// A declaration at `pos`: a name, `:`, a value and `;`, with white space
/// between them as one likes.
pub open spec fn declaration(s: Seq<char>, pos: int) -> Result<(DeclarationView, int), CssError> {
    let name_end = run_end(s, pos, CharClass::Identifier);
    let colon = run_end(s, name_end, CharClass::Whitespace);
    if !(0 <= colon < s.len()) {
        Err(CssError::UnexpectedEof)
    } else if s[colon] != ':' {
        Err(CssError::MissingColon)
    } else {
        match value(s, run_end(s, colon + 1, CharClass::Whitespace)) {
            Err(e) => Err(e),
            Ok((v, value_end)) => {
                let semicolon = run_end(s, value_end, CharClass::Whitespace);
                if !(0 <= semicolon < s.len()) {
                    Err(CssError::UnexpectedEof)
                } else if s[semicolon] != ';' {
                    Err(CssError::MissingSemicolon)
                } else {
                    Ok((DeclarationView { name: s.subrange(pos, name_end), value: v }, semicolon + 1))
                }
            },
        }
    }
}

/// A value ends inside the text, not in front of where it starts.
pub proof fn lemma_value(s: Seq<char>, pos: int)
    requires
        0 <= pos <= s.len(),
    ensures
        match value(s, pos) {
            Ok((_, end)) => pos <= end <= s.len(),
            Err(_) => true,
        },
{
    if pos < s.len() {
        lemma_run_end(s, pos, CharClass::Identifier);
        lemma_run_end(s, pos, CharClass::Numeric);
        lemma_run_end(s, run_end(s, pos, CharClass::Numeric), CharClass::Identifier);
    }
}

/// A declaration takes at least one character, and ends inside the text.
pub proof fn lemma_declaration(s: Seq<char>, pos: int)
    requires
        0 <= pos <= s.len(),
    ensures
        match declaration(s, pos) {
            Ok((_, end)) => pos < end <= s.len(),
            Err(_) => true,
        },
{
    lemma_run_end(s, pos, CharClass::Identifier);
    let name_end = run_end(s, pos, CharClass::Identifier);
    lemma_run_end(s, name_end, CharClass::Whitespace);
    let colon = run_end(s, name_end, CharClass::Whitespace);
    if colon < s.len() {
        lemma_run_end(s, colon + 1, CharClass::Whitespace);
        let p = run_end(s, colon + 1, CharClass::Whitespace);
        lemma_value(s, p);
        match value(s, p) {
            Ok((_, value_end)) => {
                lemma_run_end(s, value_end, CharClass::Whitespace);
            },
            Err(_) => {},
        }
    }
}

/// The declarations of a rule from `pos` on, up to and with the closing `}`.
pub open spec fn declaration_list(s: Seq<char>, pos: int) -> Result<
    (Seq<DeclarationView>, int),
    CssError,
>
    decreases s.len() - pos,
{
    let p = run_end(s, pos, CharClass::Whitespace);
    if !(0 <= pos <= p < s.len()) {
        Err(CssError::UnexpectedEof)
    } else if s[p] == '}' {
        Ok((Seq::empty(), p + 1))
    } else {
        match declaration(s, p) {
            Err(e) => Err(e),
            Ok((d, next)) => {
                proof {
                    lemma_declaration(s, p);
                }
                match declaration_list(s, next) {
                    Err(e) => Err(e),
                    Ok((rest, end)) => Ok((seq![d] + rest, end)),
                }
            },
        }
    }
}

/// A selector list holds a selector, and ends at a `{` inside the text.
pub proof fn lemma_selector_list(s: Seq<char>, pos: int)
    requires
        0 <= pos <= s.len(),
    ensures
        match selector_list(s, pos) {
            Ok((l, end)) => pos <= end < s.len() && s[end] == '{' && l.len() > 0,
            Err(_) => true,
        },
    decreases s.len() - pos,
{
    lemma_simple_selector(s, pos, universal_selector());
    let p1 = simple_selector(s, pos, universal_selector()).1;
    lemma_run_end(s, p1, CharClass::Whitespace);
    let p2 = run_end(s, p1, CharClass::Whitespace);
    if p2 < s.len() && s[p2] == ',' {
        lemma_run_end(s, p2 + 1, CharClass::Whitespace);
        lemma_selector_list(s, run_end(s, p2 + 1, CharClass::Whitespace));
    }
}

/// A declaration list takes at least one character, and ends inside the text.
pub proof fn lemma_declaration_list(s: Seq<char>, pos: int)
    requires
        0 <= pos <= s.len(),
    ensures
        match declaration_list(s, pos) {
            Ok((_, end)) => pos < end <= s.len(),
            Err(_) => true,
        },
    decreases s.len() - pos,
{
    lemma_run_end(s, pos, CharClass::Whitespace);
    let p = run_end(s, pos, CharClass::Whitespace);
    if p < s.len() && s[p] != '}' {
        lemma_declaration(s, p);
        match declaration(s, p) {
            Ok((_, next)) => {
                lemma_declaration_list(s, next);
            },
            Err(_) => {},
        }
    }
}

/// A rule at `pos`: the selectors, sorted, and the declarations in braces.
pub open spec fn rule(s: Seq<char>, pos: int) -> Result<(RuleView, int), CssError> {
    match selector_list(s, pos) {
        Err(e) => Err(e),
        Ok((selectors, brace)) => match declaration_list(s, brace + 1) {
            Err(e) => Err(e),
            Ok((declarations, end)) => Ok(
                (RuleView { selectors: sort_selectors(selectors), declarations }, end),
            ),
        },
    }
}

/// A rule takes at least one character, and ends inside the text.
pub proof fn lemma_rule(s: Seq<char>, pos: int)
    requires
        0 <= pos <= s.len(),
    ensures
        match rule(s, pos) {
            Ok((_, end)) => pos < end <= s.len(),
            Err(_) => true,
        },
{
    lemma_selector_list(s, pos);
    match selector_list(s, pos) {
        Ok((_, brace)) => {
            lemma_declaration_list(s, brace + 1);
        },
        Err(_) => {},
    }
}

/// The rules from `pos` to the end of the text, with white space between
/// them as one likes.
pub open spec fn rule_list(s: Seq<char>, pos: int) -> Result<Seq<RuleView>, CssError>
    decreases s.len() - pos,
{
    let p = run_end(s, pos, CharClass::Whitespace);
    if !(0 <= pos <= p < s.len()) {
        Ok(Seq::empty())
    } else {
        match rule(s, p) {
            Err(e) => Err(e),
            Ok((r, next)) => {
                proof {
                    lemma_rule(s, p);
                }
                match rule_list(s, next) {
                    Err(e) => Err(e),
                    Ok(rest) => Ok(seq![r] + rest),
                }
            },
        }
    }
}

/// The style sheet that a text writes, or the reason why it writes none.
pub open spec fn stylesheet(s: Seq<char>) -> Result<StylesheetView, CssError> {
    match rule_list(s, 0) {
        Ok(rules) => Ok(StylesheetView { rules }),
        Err(e) => Err(e),
    }
}


// ---------------------------------------------------------------------------
// The parser

/// A list that was read so far, in front of what the rest of the text gives.
pub open spec fn prepend<T>(acc: Seq<T>, rest: Result<(Seq<T>, int), CssError>) -> Result<
    (Seq<T>, int),
    CssError,
> {
    match rest {
        Ok((l, end)) => Ok((acc + l, end)),
        Err(e) => Err(e),
    }
}

/// The rules that were read so far, in front of what the rest of the text
/// gives.
pub open spec fn prepend_rules(acc: Seq<RuleView>, rest: Result<Seq<RuleView>, CssError>) -> Result<
    Seq<RuleView>,
    CssError,
> {
    match rest {
        Ok(l) => Ok(acc + l),
        Err(e) => Err(e),
    }
}

/// A prefix of a run of digits writes no more than the whole run.
pub proof fn lemma_digits_value_prefix(s: Seq<char>, k: int)
    requires
        all_digits(s),
        0 <= k <= s.len(),
    ensures
        0 <= digits_value(s.take(k)) <= digits_value(s),
    decreases s.len() - k,
{
    if k == s.len() {
        assert(s.take(k) =~= s);
        lemma_digits_value_nonnegative(s);
    } else {
        lemma_digits_value_prefix(s, k + 1);
        assert(s.take(k + 1).drop_last() =~= s.take(k));
        assert(is_ascii_digit(s[k]));
        assert(s.take(k + 1).last() == s[k]);
        lemma_digits_value_nonnegative(s.take(k));
    }
}

/// A run of digits writes no negative number.
pub proof fn lemma_digits_value_nonnegative(s: Seq<char>)
    requires
        all_digits(s),
    ensures
        0 <= digits_value(s),
    decreases s.len(),
{
    if s.len() > 0 {
        assert(is_ascii_digit(s[s.len() - 1]));
        lemma_digits_value_nonnegative(s.drop_last());
    }
}

fn digits_only(v: &Vec<char>, from: usize, to: usize) -> (b: bool)
    requires
        from <= to <= v.len(),
    ensures
        b == all_digits(v@.subrange(from as int, to as int)),
{
    let mut i: usize = from;
    while i < to
        invariant
            from <= i <= to <= v.len(),
            forall|j: int| from <= j < i ==> is_ascii_digit(#[trigger] v@[j]),
        decreases to - i,
    {
        if !('0' <= v[i] && v[i] <= '9') {
            assert(!is_ascii_digit(v@.subrange(from as int, to as int)[i - from]));
            return false;
        }
        i = i + 1;
    }
    true
}

fn digit_of(c: char) -> (d: i64)
    requires
        is_ascii_digit(c),
    ensures
        d == digit_value(c),
        0 <= d <= 9,
{
    ((c as u32) - ('0' as u32)) as i64
}

/// The value of a number in thousandths.
pub fn parse_decimal(number: &Vec<char>) -> (r: Result<i64, CssError>)
    ensures
        r == (if !is_decimal(number@) {
            Err::<i64, CssError>(CssError::InvalidNumber)
        } else if decimal_thousandths(number@) > i64::MAX {
            Err(CssError::NumberTooLarge)
        } else {
            Ok(decimal_thousandths(number@) as i64)
        }),
{
    let n = number.len();
    let dot = scan(number, 0, CharClass::Until('.'));
    let fraction_start = if dot < n {
        dot + 1
    } else {
        n
    };
    assert(fraction_digits(number@) =~= number@.subrange(fraction_start as int, n as int));
    if !digits_only(number, 0, dot) || !digits_only(number, fraction_start, n) {
        return Err(CssError::InvalidNumber);
    }
    let ghost whole = number@.subrange(0, dot as int);
    let ghost fraction = fraction_digits(number@);
    let limit: i64 = i64::MAX / 1000;
    let mut acc: i64 = 0;
    let mut i: usize = 0;
    assert(whole.take(0) =~= Seq::<char>::empty());
    while i < dot
        invariant
            i <= dot <= number.len(),
            whole == number@.subrange(0, dot as int),
            dot == integer_end(number@),
            fraction == fraction_digits(number@),
            all_digits(whole),
            all_digits(fraction),
            acc == digits_value(whole.take(i as int)),
            0 <= acc <= limit,
            limit == i64::MAX / 1000,
        decreases dot - i,
    {
        assert(is_ascii_digit(whole[i as int]));
        let d = digit_of(number[i]);
        let next = acc * 10 + d;
        proof {
            assert(whole.take(i + 1).drop_last() =~= whole.take(i as int));
            assert(whole.take(i + 1).last() == whole[i as int]);
            assert(next == digits_value(whole.take(i + 1)));
        }
        if next > limit {
            proof {
                lemma_digits_value_prefix(whole, i + 1);
                lemma_fraction_bounds(fraction);
            }
            return Err(CssError::NumberTooLarge);
        }
        acc = next;
        i = i + 1;
    }
    assert(whole.take(dot as int) =~= whole);
    let m = n - fraction_start;
    let mut thousandths: i64 = 0;
    if m >= 1 {
        assert(is_ascii_digit(fraction[0]));
        thousandths = digit_of(number[fraction_start]) * 100;
    }
    if m >= 2 {
        assert(is_ascii_digit(fraction[1]));
        thousandths = thousandths + digit_of(number[fraction_start + 1]) * 10;
    }
    if m >= 3 {
        assert(is_ascii_digit(fraction[2]));
        thousandths = thousandths + digit_of(number[fraction_start + 2]);
    }
    assert(thousandths == fraction_thousandths(fraction));
    let total: i128 = (acc as i128) * 1000 + (thousandths as i128);
    if total > i64::MAX as i128 {
        Err(CssError::NumberTooLarge)
    } else {
        Ok(total as i64)
    }
}

/// The thousandths of a fraction lie between 0 and 999.
pub proof fn lemma_fraction_bounds(f: Seq<char>)
    requires
        all_digits(f),
    ensures
        0 <= fraction_thousandths(f) <= 999,
{
    if f.len() >= 1 {
        assert(is_ascii_digit(f[0]));
    }
    if f.len() >= 2 {
        assert(is_ascii_digit(f[1]));
    }
    if f.len() >= 3 {
        assert(is_ascii_digit(f[2]));
    }
}

fn hex_of(c: char) -> (r: Option<u8>)
    ensures
        match r {
            Some(v) => hex_value(c) == Some(v as int) && v < 16,
            None => hex_value(c) is None,
        },
{
    if '0' <= c && c <= '9' {
        Some(((c as u32) - ('0' as u32)) as u8)
    } else if 'a' <= c && c <= 'f' {
        Some(((c as u32) - ('a' as u32) + 10) as u8)
    } else if 'A' <= c && c <= 'F' {
        Some(((c as u32) - ('A' as u32) + 10) as u8)
    } else {
        None
    }
}

/// The selectors in descending order of specificity; selectors of equal
/// specificity keep their order.
pub fn sort_by_specificity(selectors: Vec<Selector>) -> (sorted: Vec<Selector>)
    ensures
        selectors_view(sorted@) == sort_selectors(selectors_view(selectors@)),
{
    let ghost input = selectors_view(selectors@);
    let mut sorted: Vec<Selector> = Vec::new();
    assert(input.take(0) =~= Seq::<SelectorView>::empty());
    assert(selectors_view(sorted@) =~= Seq::<SelectorView>::empty());
    for selector in it: selectors
        invariant
            input == selectors_view(it.seq()),
            selectors_view(sorted@) == sort_selectors(input.take(it.index() as int)),
    {
        let ghost k = it.index() as int;
        let ghost before = selectors_view(sorted@);
        let key = selector.specificity();
        let mut i: usize = 0;
        assert(before.skip(0) =~= before);
        while i < sorted.len() && !specificity_less(sorted[i].specificity(), key)
            invariant
                i <= sorted.len(),
                before == selectors_view(sorted@),
                (key.0 as int, key.1 as int, key.2 as int) == selector@.specificity(),
                insertion_point(before, selector@) == i + insertion_point(
                    before.skip(i as int),
                    selector@,
                ),
            decreases sorted.len() - i,
        {
            assert(before.skip(i as int).drop_first() =~= before.skip(i + 1));
            i = i + 1;
        }
        sorted.insert(i, selector);
        assert(selectors_view(sorted@) =~= before.insert(i as int, selector@));
        assert(input.take(k + 1).drop_last() =~= input.take(k));
        assert(input.take(k + 1).last() == selector@);
    }
    assert(input.take(input.len() as int) =~= input);
    sorted
}

/// The parser of style sheets: a cursor into the text.
pub struct Parser {
    pos: usize,
    input: Vec<char>,
}

impl Parser {
    /// Parses a style sheet.
    pub fn parse(source: String) -> (r: Result<Stylesheet, CssError>)
        ensures
            match (r, stylesheet(source@)) {
                (Ok(sheet), Ok(v)) => sheet@ == v,
                (Err(e), Err(f)) => e == f,
                _ => false,
            },
    {
        let mut parser = Parser { pos: 0, input: chars_of(source.as_str()) };
        match parser.parse_rules() {
            Ok(rules) => Ok(Stylesheet { rules }),
            Err(e) => Err(e),
        }
    }

    /// The rules up to the end of the text.
    fn parse_rules(&mut self) -> (r: Result<Vec<Rule>, CssError>)
        requires
            old(self).pos <= old(self).input.len(),
        ensures
            final(self).input == old(self).input,
            final(self).pos <= final(self).input.len(),
            match (r, rule_list(old(self).input@, old(self).pos as int)) {
                (Ok(rules), Ok(v)) => rules_view(rules@) == v,
                (Err(e), Err(f)) => e == f,
                _ => false,
            },
    {
        let mut rules: Vec<Rule> = Vec::new();
        let ghost s = self.input@;
        let ghost start = self.pos as int;
        assert(rules_view(rules@) =~= Seq::<RuleView>::empty());
        assert(Seq::<RuleView>::empty() + rule_list(s, start)->Ok_0 =~= rule_list(s, start)->Ok_0);
        loop
            invariant
                self.input@ == s,
                s == old(self).input@,
                self.input == old(self).input,
                self.pos <= self.input.len(),
                start == old(self).pos,
                prepend_rules(rules_view(rules@), rule_list(s, self.pos as int)) == rule_list(
                    s,
                    start,
                ),
            decreases self.input.len() - self.pos,
        {
            let ghost here = self.pos as int;
            self.consume_whitespace();
            if self.eof() {
                assert(rules_view(rules@) + Seq::<RuleView>::empty() =~= rules_view(rules@));
                return Ok(rules);
            }
            proof {
                lemma_rule(s, self.pos as int);
            }
            let ghost acc = rules_view(rules@);
            match self.parse_rule() {
                Err(e) => {
                    return Err(e);
                },
                Ok(rule) => {
                    rules.push(rule);
                    proof {
                        let rest = rule_list(s, self.pos as int);
                        assert(rules_view(rules@) =~= acc + seq![rule@]);
                        if rest is Ok {
                            assert(acc + (seq![rule@] + rest->Ok_0) =~= (acc + seq![rule@])
                                + rest->Ok_0);
                        }
                    }
                },
            }
        }
    }

    /// One rule.
    fn parse_rule(&mut self) -> (r: Result<Rule, CssError>)
        requires
            old(self).pos <= old(self).input.len(),
        ensures
            final(self).input == old(self).input,
            final(self).pos <= final(self).input.len(),
            match (r, rule(old(self).input@, old(self).pos as int)) {
                (Ok(x), Ok((v, p))) => x@ == v && final(self).pos == p,
                (Err(e), Err(f)) => e == f,
                _ => false,
            },
    {
        proof {
            lemma_selector_list(self.input@, self.pos as int);
        }
        let selectors = match self.parse_selectors() {
            Ok(l) => l,
            Err(e) => {
                return Err(e);
            },
        };
        let declarations = match self.parse_declarations() {
            Ok(l) => l,
            Err(e) => {
                return Err(e);
            },
        };
        Ok(Rule { selectors, declarations })
    }

    /// The selectors of a rule, sorted. The cursor stops at the `{`.
    fn parse_selectors(&mut self) -> (r: Result<Vec<Selector>, CssError>)
        requires
            old(self).pos <= old(self).input.len(),
        ensures
            final(self).input == old(self).input,
            final(self).pos <= final(self).input.len(),
            match (r, selector_list(old(self).input@, old(self).pos as int)) {
                (Ok(x), Ok((v, p))) => selectors_view(x@) == sort_selectors(v) && final(self).pos
                    == p,
                (Err(e), Err(f)) => e == f,
                _ => false,
            },
    {
        let mut selectors: Vec<Selector> = Vec::new();
        let ghost s = self.input@;
        let ghost start = self.pos as int;
        assert(selectors_view(selectors@) =~= Seq::<SelectorView>::empty());
        assert(selector_list(s, start) is Ok ==> Seq::<SelectorView>::empty() + selector_list(
            s,
            start,
        )->Ok_0.0 =~= selector_list(s, start)->Ok_0.0);
        loop
            invariant
                self.input@ == s,
                s == old(self).input@,
                self.input == old(self).input,
                self.pos <= self.input.len(),
                start == old(self).pos,
                prepend(selectors_view(selectors@), selector_list(s, self.pos as int))
                    == selector_list(s, start),
            decreases self.input.len() - self.pos,
        {
            let ghost here = self.pos as int;
            let ghost acc = selectors_view(selectors@);
            proof {
                lemma_simple_selector(s, here, universal_selector());
            }
            let simple = self.parse_simple_selector();
            selectors.push(Selector::Simple(simple));
            assert(selectors_view(selectors@) =~= acc + seq![SelectorView::Simple(simple@)]);
            self.consume_whitespace();
            if self.eof() {
                return Err(CssError::UnexpectedEof);
            }
            let c = self.next_char();
            if c == ',' {
                self.consume_char();
                self.consume_whitespace();
                proof {
                    let rest = selector_list(s, self.pos as int);
                    if rest is Ok {
                        assert(acc + (seq![SelectorView::Simple(simple@)] + rest->Ok_0.0) =~= (acc
                            + seq![SelectorView::Simple(simple@)]) + rest->Ok_0.0);
                    }
                }
            } else if c == '{' {
                return Ok(sort_by_specificity(selectors));
            } else {
                return Err(CssError::InvalidSelector);
            }
        }
    }

    /// One simple selector.
    fn parse_simple_selector(&mut self) -> (r: SimpleSelector)
        requires
            old(self).pos <= old(self).input.len(),
        ensures
            final(self).input == old(self).input,
            final(self).pos <= final(self).input.len(),
            (r@, final(self).pos as int) == simple_selector(
                old(self).input@,
                old(self).pos as int,
                universal_selector(),
            ),
    {
        let mut selector = SimpleSelector { tag_name: None, id: None, classes: Vec::new() };
        let ghost s = self.input@;
        let ghost start = self.pos as int;
        assert(selector.classes.deep_view() =~= Seq::<Seq<char>>::empty());
        while !self.eof()
            invariant
                self.input@ == s,
                s == old(self).input@,
                self.input == old(self).input,
                self.pos <= self.input.len(),
                simple_selector(s, self.pos as int, selector@) == simple_selector(
                    s,
                    start,
                    universal_selector(),
                ),
            ensures
                (selector@, self.pos as int) == simple_selector(s, start, universal_selector()),
            decreases self.input.len() - self.pos,
        {
            let c = self.next_char();
            let ghost acc = selector@;
            if c == '#' {
                self.consume_char();
                selector.id = Some(self.parse_identifier());
                assert(selector@ =~= SimpleSelectorView { id: selector@.id, ..acc });
            } else if c == '.' {
                self.consume_char();
                let class = self.parse_identifier();
                selector.classes.push(class);
                assert(selector.classes.deep_view() =~= acc.classes.push(class@));
                assert(selector@ =~= SimpleSelectorView {
                    classes: acc.classes.push(class@),
                    ..acc
                });
            } else if c == '*' {
                self.consume_char();
            } else if CharClass::Identifier.test(c) {
                proof {
                    lemma_run_end(s, self.pos as int, CharClass::Identifier);
                }
                selector.tag_name = Some(self.parse_identifier());
                assert(selector@ =~= SimpleSelectorView { tag_name: selector@.tag_name, ..acc });
            } else {
                break ;
            }
        }
        selector
    }

    /// The declarations of a rule, with the braces around them.
    fn parse_declarations(&mut self) -> (r: Result<Vec<Declaration>, CssError>)
        requires
            old(self).pos < old(self).input.len(),
        ensures
            final(self).input == old(self).input,
            final(self).pos <= final(self).input.len(),
            match (r, declaration_list(old(self).input@, old(self).pos + 1)) {
                (Ok(x), Ok((v, p))) => declarations_view(x@) == v && final(self).pos == p,
                (Err(e), Err(f)) => e == f,
                _ => false,
            },
    {
        self.consume_char();
        let mut declarations: Vec<Declaration> = Vec::new();
        let ghost s = self.input@;
        let ghost start = self.pos as int;
        assert(declarations_view(declarations@) =~= Seq::<DeclarationView>::empty());
        assert(declaration_list(s, start) is Ok ==> Seq::<DeclarationView>::empty()
            + declaration_list(s, start)->Ok_0.0 =~= declaration_list(s, start)->Ok_0.0);
        loop
            invariant
                self.input@ == s,
                s == old(self).input@,
                self.input == old(self).input,
                self.pos <= self.input.len(),
                start == old(self).pos + 1,
                prepend(declarations_view(declarations@), declaration_list(s, self.pos as int))
                    == declaration_list(s, start),
            decreases self.input.len() - self.pos,
        {
            let ghost acc = declarations_view(declarations@);
            self.consume_whitespace();
            if self.eof() {
                return Err(CssError::UnexpectedEof);
            }
            if self.next_char() == '}' {
                self.consume_char();
                assert(acc + Seq::<DeclarationView>::empty() =~= acc);
                return Ok(declarations);
            }
            proof {
                lemma_declaration(s, self.pos as int);
            }
            match self.parse_declaration() {
                Err(e) => {
                    return Err(e);
                },
                Ok(d) => {
                    declarations.push(d);
                    proof {
                        let rest = declaration_list(s, self.pos as int);
                        assert(declarations_view(declarations@) =~= acc + seq![d@]);
                        if rest is Ok {
                            assert(acc + (seq![d@] + rest->Ok_0.0) =~= (acc + seq![d@])
                                + rest->Ok_0.0);
                        }
                    }
                },
            }
        }
    }

    /// One declaration.
    fn parse_declaration(&mut self) -> (r: Result<Declaration, CssError>)
        requires
            old(self).pos <= old(self).input.len(),
        ensures
            final(self).input == old(self).input,
            final(self).pos <= final(self).input.len(),
            match (r, declaration(old(self).input@, old(self).pos as int)) {
                (Ok(x), Ok((v, p))) => x@ == v && final(self).pos == p,
                (Err(e), Err(f)) => e == f,
                _ => false,
            },
    {
        let name = self.parse_identifier();
        self.consume_whitespace();
        if self.eof() {
            return Err(CssError::UnexpectedEof);
        }
        if self.consume_char() != ':' {
            return Err(CssError::MissingColon);
        }
        self.consume_whitespace();
        let value = match self.parse_value() {
            Ok(v) => v,
            Err(e) => {
                return Err(e);
            },
        };
        self.consume_whitespace();
        if self.eof() {
            return Err(CssError::UnexpectedEof);
        }
        if self.consume_char() != ';' {
            return Err(CssError::MissingSemicolon);
        }
        Ok(Declaration { name, value })
    }

    /// One value.
    fn parse_value(&mut self) -> (r: Result<Value, CssError>)
        requires
            old(self).pos <= old(self).input.len(),
        ensures
            final(self).input == old(self).input,
            final(self).pos <= final(self).input.len(),
            match (r, value(old(self).input@, old(self).pos as int)) {
                (Ok(x), Ok((v, p))) => x@ == v && final(self).pos == p,
                (Err(e), Err(f)) => e == f,
                _ => false,
            },
    {
        if self.eof() {
            return Err(CssError::UnexpectedEof);
        }
        let c = self.next_char();
        if '0' <= c && c <= '9' {
            self.parse_length()
        } else if c == '#' {
            self.parse_color()
        } else {
            Ok(Value::Keyword(self.parse_identifier()))
        }
    }

    /// A length: a number and its unit.
    fn parse_length(&mut self) -> (r: Result<Value, CssError>)
        requires
            old(self).pos <= old(self).input.len(),
        ensures
            final(self).input == old(self).input,
            final(self).pos <= final(self).input.len(),
            match (r, length(old(self).input@, old(self).pos as int)) {
                (Ok(x), Ok((v, p))) => x@ == v && final(self).pos == p,
                (Err(e), Err(f)) => e == f,
                _ => false,
            },
    {
        let number = match self.parse_float() {
            Ok(n) => n,
            Err(e) => {
                return Err(e);
            },
        };
        let unit = match self.parse_unit() {
            Ok(u) => u,
            Err(e) => {
                return Err(e);
            },
        };
        Ok(Value::Length(number, unit))
    }

    /// A number, in thousandths.
    fn parse_float(&mut self) -> (r: Result<i64, CssError>)
        requires
            old(self).pos <= old(self).input.len(),
        ensures
            final(self).input == old(self).input,
            final(self).pos == run_end(old(self).input@, old(self).pos as int, CharClass::Numeric),
            final(self).pos <= final(self).input.len(),
            ({
                let number = old(self).input@.subrange(old(self).pos as int, final(self).pos as int);
                r == (if !is_decimal(number) {
                    Err::<i64, CssError>(CssError::InvalidNumber)
                } else if decimal_thousandths(number) > i64::MAX {
                    Err(CssError::NumberTooLarge)
                } else {
                    Ok(decimal_thousandths(number) as i64)
                })
            }),
    {
        let start = self.pos;
        let end = scan(&self.input, self.pos, CharClass::Numeric);
        self.pos = end;
        let number = slice_of(&self.input, start, end);
        parse_decimal(&number)
    }

    /// The unit of a length.
    fn parse_unit(&mut self) -> (r: Result<Unit, CssError>)
        requires
            old(self).pos <= old(self).input.len(),
        ensures
            final(self).input == old(self).input,
            final(self).pos == run_end(old(self).input@, old(self).pos as int, CharClass::Identifier),
            final(self).pos <= final(self).input.len(),
            r == (if is_px(
                old(self).input@.subrange(old(self).pos as int, final(self).pos as int),
            ) {
                Ok::<Unit, CssError>(Unit::Px)
            } else {
                Err(CssError::UnknownUnit)
            }),
    {
        let start = self.pos;
        let end = scan(&self.input, self.pos, CharClass::Identifier);
        self.pos = end;
        if end - start == 2 && (self.input[start] == 'p' || self.input[start] == 'P') && (
        self.input[start + 1] == 'x' || self.input[start + 1] == 'X') {
            Ok(Unit::Px)
        } else {
            Err(CssError::UnknownUnit)
        }
    }

    /// A colour: `#` and six hexadecimal digits.
    fn parse_color(&mut self) -> (r: Result<Value, CssError>)
        requires
            old(self).pos < old(self).input.len(),
        ensures
            final(self).input == old(self).input,
            final(self).pos <= final(self).input.len(),
            match (r, color(old(self).input@, old(self).pos as int)) {
                (Ok(x), Ok((v, p))) => x@ == v && final(self).pos == p,
                (Err(e), Err(f)) => e == f,
                _ => false,
            },
    {
        self.consume_char();
        let r = match self.parse_hex_pair() {
            Some(v) => v,
            None => {
                return Err(CssError::InvalidColor);
            },
        };
        let g = match self.parse_hex_pair() {
            Some(v) => v,
            None => {
                return Err(CssError::InvalidColor);
            },
        };
        let b = match self.parse_hex_pair() {
            Some(v) => v,
            None => {
                return Err(CssError::InvalidColor);
            },
        };
        Ok(Value::Color(Color { r, g, b, a: 255 }))
    }

    /// Two hexadecimal digits. Where none stand, the cursor stays.
    fn parse_hex_pair(&mut self) -> (r: Option<u8>)
        requires
            old(self).pos <= old(self).input.len(),
        ensures
            final(self).input == old(self).input,
            final(self).pos <= final(self).input.len(),
            match r {
                Some(v) => hex_pair(old(self).input@, old(self).pos as int) == Some(v as int)
                    && final(self).pos == old(self).pos + 2,
                None => hex_pair(old(self).input@, old(self).pos as int) is None && final(self).pos
                    == old(self).pos,
            },
    {
        if self.input.len() - self.pos < 2 {
            return None;
        }
        match (hex_of(self.input[self.pos]), hex_of(self.input[self.pos + 1])) {
            (Some(h), Some(l)) => {
                self.pos = self.pos + 2;
                Some(h * 16 + l)
            },
            _ => None,
        }
    }

    /// An identifier: the run of identifier characters at the cursor.
    fn parse_identifier(&mut self) -> (r: String)
        requires
            old(self).pos <= old(self).input.len(),
        ensures
            final(self).input == old(self).input,
            final(self).pos == run_end(old(self).input@, old(self).pos as int, CharClass::Identifier),
            final(self).pos <= final(self).input.len(),
            r@ == old(self).input@.subrange(old(self).pos as int, final(self).pos as int),
    {
        self.consume_while(CharClass::Identifier)
    }

    /// Moves the cursor over white space.
    fn consume_whitespace(&mut self)
        requires
            old(self).pos <= old(self).input.len(),
        ensures
            final(self).input == old(self).input,
            final(self).pos == run_end(old(self).input@, old(self).pos as int, CharClass::Whitespace),
            final(self).pos <= final(self).input.len(),
    {
        self.pos = scan(&self.input, self.pos, CharClass::Whitespace);
    }

    /// Moves the cursor over the run of `class`, and returns the run.
    fn consume_while(&mut self, class: CharClass) -> (r: String)
        requires
            old(self).pos <= old(self).input.len(),
        ensures
            final(self).input == old(self).input,
            final(self).pos == run_end(old(self).input@, old(self).pos as int, class),
            final(self).pos <= final(self).input.len(),
            r@ == old(self).input@.subrange(old(self).pos as int, final(self).pos as int),
    {
        let start = self.pos;
        let end = scan(&self.input, self.pos, class);
        self.pos = end;
        string_of(&self.input, start, end)
    }

    /// The character at the cursor.
    fn next_char(&self) -> (c: char)
        requires
            self.pos < self.input.len(),
        ensures
            c == self.input@[self.pos as int],
    {
        self.input[self.pos]
    }

    /// Whether the cursor is at the end of the text.
    fn eof(&self) -> (b: bool)
        ensures
            b == (self.pos >= self.input.len()),
    {
        self.pos >= self.input.len()
    }

    /// Moves the cursor over one character, and returns it.
    fn consume_char(&mut self) -> (c: char)
        requires
            old(self).pos < old(self).input.len(),
        ensures
            final(self).input == old(self).input,
            final(self).pos == old(self).pos + 1,
            c == old(self).input@[old(self).pos as int],
    {
        let c = self.input[self.pos];
        self.pos = self.pos + 1;
        c
    }
}

} // verus!
