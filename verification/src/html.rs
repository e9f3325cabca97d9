//! HTML: the grammar as functions on sequences of characters, and a parser
//! that is proved to compute them.
//!
//! The parser is lenient. A closing tag that names another element than the
//! one it closes is noted and accepted, and an element that is still open at
//! the end of the text is closed there.

use vstd::prelude::*;
use crate::dom::{attrs_view, nodes_view, AttrMap, Node, NodeView};
use crate::text::{
    chars_of, has_char, lemma_run_end, run_end, scan, string_of, CharClass,
};

verus! {

/// Why a document was rejected.
#[derive(Debug, Clone, Copy, PartialEq, Eq, Structural)]
pub enum HtmlError {
    /// The text ends inside a tag.
    UnexpectedEof,
    /// Inside a start tag stands something that is no attribute.
    MalformedAttribute,
    /// The name in a closing tag is not followed by `>`.
    UnclosedTag,
}

/// A closing tag that names another element than the one it closes.
#[derive(Debug, PartialEq, Eq)]
pub struct Mismatch {
    /// The name of the element that is open.
    pub expected: String,
    /// The name in the closing tag.
    pub found: String,
}

/// A mismatched closing tag as a mathematical value.
pub ghost struct MismatchView {
    pub expected: Seq<char>,
    pub found: Seq<char>,
}

impl Mismatch {
    /// The mismatch as a mathematical value.
    pub open spec fn view(&self) -> MismatchView {
        MismatchView { expected: self.expected@, found: self.found@ }
    }
}

/// The views of a sequence of mismatches.
pub open spec fn mismatches_view(s: Seq<Mismatch>) -> Seq<MismatchView> {
    Seq::new(s.len(), |i: int| s[i]@)
}

/// What the grammar gives for a part of the text: a value, the position
/// behind the part, and the mismatched closing tags inside it.
pub ghost struct Parsed<T> {
    pub value: T,
    pub end: int,
    pub warnings: Seq<MismatchView>,
}

// ---------------------------------------------------------------------------
// The grammar

/// `</` at `pos`.
pub open spec fn at_closing_tag(s: Seq<char>, pos: int) -> bool {
    has_char(s, pos, '<') && has_char(s, pos + 1, '/')
}

/// `<!--` at `pos`.
pub open spec fn at_comment(s: Seq<char>, pos: int) -> bool {
    has_char(s, pos, '<') && has_char(s, pos + 1, '!') && has_char(s, pos + 2, '-') && has_char(
        s,
        pos + 3,
        '-',
    )
}

/// `<!` at `pos`.
pub open spec fn at_declaration(s: Seq<char>, pos: int) -> bool {
    has_char(s, pos, '<') && has_char(s, pos + 1, '!')
}

/// `/>` at `pos`.
pub open spec fn at_self_close(s: Seq<char>, pos: int) -> bool {
    has_char(s, pos, '/') && has_char(s, pos + 1, '>')
}

/// `-->` at `pos`.
pub open spec fn at_comment_end(s: Seq<char>, pos: int) -> bool {
    has_char(s, pos, '-') && has_char(s, pos + 1, '-') && has_char(s, pos + 2, '>')
}

/// The position behind the first `-->` from `pos` on, or the end of the text
/// where there is none.
pub open spec fn comment_end(s: Seq<char>, pos: int) -> int
    decreases s.len() - pos,
{
    if !(0 <= pos < s.len()) {
        pos
    } else if at_comment_end(s, pos) {
        pos + 3
    } else {
        comment_end(s, pos + 1)
    }
}

/// A comment ends inside the text, not in front of where it is searched from.
pub proof fn lemma_comment_end(s: Seq<char>, pos: int)
    requires
        0 <= pos <= s.len(),
    ensures
        pos <= comment_end(s, pos) <= s.len(),
    decreases s.len() - pos,
{
    if pos < s.len() && !at_comment_end(s, pos) {
        lemma_comment_end(s, pos + 1);
    }
}

/// The position behind the declaration `<!...>` at `pos`: behind the first
/// `>`, or the end of the text where there is none.
pub open spec fn declaration_end(s: Seq<char>, pos: int) -> int {
    let close = run_end(s, pos + 2, CharClass::Until('>'));
    if close < s.len() {
        close + 1
    } else {
        close
    }
}

/// A quoted attribute value at `pos`, where the opening quote stands.
pub open spec fn quoted_value(s: Seq<char>, pos: int) -> Result<(Seq<char>, int), HtmlError> {
    let close = run_end(s, pos + 1, CharClass::Until(s[pos]));
    if 0 <= pos < close < s.len() {
        Ok((s.subrange(pos + 1, close), close + 1))
    } else {
        Err(HtmlError::UnexpectedEof)
    }
}

/// An attribute at `pos`: a name, and perhaps `=` and a value in quotes or
/// without. Without `=` the value is empty.
pub open spec fn attribute(s: Seq<char>, pos: int) -> Result<
    ((Seq<char>, Seq<char>), int),
    HtmlError,
> {
    let name_end = run_end(s, pos, CharClass::Alphanumeric);
    let name = s.subrange(pos, name_end);
    let p1 = run_end(s, name_end, CharClass::Whitespace);
    if !(0 <= pos <= p1 < s.len()) {
        Err(HtmlError::UnexpectedEof)
    } else if s[p1] != '=' {
        Ok(((name, Seq::empty()), p1))
    } else {
        let p2 = run_end(s, p1 + 1, CharClass::Whitespace);
        if !(p2 < s.len()) {
            Err(HtmlError::UnexpectedEof)
        } else if s[p2] == '"' || s[p2] == '\'' {
            match quoted_value(s, p2) {
                Ok((v, end)) => Ok(((name, v), end)),
                Err(e) => Err(e),
            }
        } else {
            let end = run_end(s, p2, CharClass::Unquoted);
            Ok(((name, s.subrange(p2, end)), end))
        }
    }
}

/// An attribute ends inside the text, not in front of where it starts.
pub proof fn lemma_attribute(s: Seq<char>, pos: int)
    requires
        0 <= pos <= s.len(),
    ensures
        match attribute(s, pos) {
            Ok((_, end)) => pos <= end <= s.len(),
            Err(_) => true,
        },
{
    lemma_run_end(s, pos, CharClass::Alphanumeric);
    let name_end = run_end(s, pos, CharClass::Alphanumeric);
    lemma_run_end(s, name_end, CharClass::Whitespace);
    let p1 = run_end(s, name_end, CharClass::Whitespace);
    if p1 < s.len() && s[p1] == '=' {
        lemma_run_end(s, p1 + 1, CharClass::Whitespace);
        let p2 = run_end(s, p1 + 1, CharClass::Whitespace);
        if p2 < s.len() {
            lemma_run_end(s, p2 + 1, CharClass::Until(s[p2]));
            lemma_run_end(s, p2, CharClass::Unquoted);
        }
    }
}

/// The attributes of a start tag from `pos` on, added to `acc`; a later
/// attribute replaces an earlier one of the same name. The position is that
/// of the `>` or `/>` that ends the tag.
pub open spec fn attributes(s: Seq<char>, pos: int, acc: Map<Seq<char>, Seq<char>>) -> Result<
    (Map<Seq<char>, Seq<char>>, int),
    HtmlError,
>
    decreases s.len() - pos,
{
    let p = run_end(s, pos, CharClass::Whitespace);
    if !(0 <= pos <= p < s.len()) {
        Err(HtmlError::UnexpectedEof)
    } else if s[p] == '>' || at_self_close(s, p) {
        Ok((acc, p))
    } else {
        match attribute(s, p) {
            Err(e) => Err(e),
            Ok(((name, value), next)) => if p < next <= s.len() {
                attributes(s, next, acc.insert(name, value))
            } else {
                Err(HtmlError::MalformedAttribute)
            },
        }
    }
}

/// The attributes of a start tag end at a `>` or a `/>` inside the text.
pub proof fn lemma_attributes(s: Seq<char>, pos: int, acc: Map<Seq<char>, Seq<char>>)
    requires
        0 <= pos <= s.len(),
    ensures
        match attributes(s, pos, acc) {
            Ok((_, end)) => pos <= end < s.len() && (s[end] == '>' || at_self_close(s, end)),
            Err(_) => true,
        },
    decreases s.len() - pos,
{
    lemma_run_end(s, pos, CharClass::Whitespace);
    let p = run_end(s, pos, CharClass::Whitespace);
    if p < s.len() && !(s[p] == '>' || at_self_close(s, p)) {
        match attribute(s, p) {
            Err(e) => {},
            Ok(((name, value), next)) => {
                if p < next <= s.len() {
                    lemma_attributes(s, next, acc.insert(name, value));
                }
            },
        }
    }
}

/// The sibling nodes from `pos` on, up to a closing tag or the end of the
/// text. White space in front of a node is skipped.
pub open spec fn nodes(s: Seq<char>, pos: int) -> Result<Parsed<Seq<NodeView>>, HtmlError>
    decreases s.len() - pos, 2int,
{
    let p = run_end(s, pos, CharClass::Whitespace);
    if !(0 <= pos <= p < s.len()) || at_closing_tag(s, p) {
        Ok(Parsed { value: Seq::empty(), end: p, warnings: Seq::empty() })
    } else {
        match node(s, p) {
            Err(e) => Err(e),
            Ok(first) => if p < first.end <= s.len() {
                match nodes(s, first.end) {
                    Err(e) => Err(e),
                    Ok(rest) => Ok(
                        Parsed {
                            value: seq![first.value] + rest.value,
                            end: rest.end,
                            warnings: first.warnings + rest.warnings,
                        },
                    ),
                }
            } else {
                Ok(Parsed { value: seq![first.value], end: first.end, warnings: first.warnings })
            },
        }
    }
}

/// What follows a comment or a declaration that ends at `pos`: the next
/// node, or an empty text where a closing tag or the end of the text follows.
pub open spec fn node_after(s: Seq<char>, from: int, pos: int) -> Result<Parsed<NodeView>, HtmlError>
    decreases s.len() - from, 0int,
{
    if from < pos < s.len() && !at_closing_tag(s, pos) {
        node(s, pos)
    } else {
        Ok(Parsed { value: NodeView::text(Seq::empty()), end: pos, warnings: Seq::empty() })
    }
}

/// The node at `pos`: an element, a text up to the next `<`, or what follows
/// a comment or a declaration.
pub open spec fn node(s: Seq<char>, pos: int) -> Result<Parsed<NodeView>, HtmlError>
    decreases s.len() - pos, 1int,
{
    if !(0 <= pos < s.len()) {
        Err(HtmlError::UnexpectedEof)
    } else if s[pos] != '<' {
        let end = run_end(s, pos, CharClass::Until('<'));
        Ok(Parsed { value: NodeView::text(s.subrange(pos, end)), end, warnings: Seq::empty() })
    } else if at_comment(s, pos) {
        node_after(s, pos, comment_end(s, pos + 4))
    } else if at_declaration(s, pos) {
        node_after(s, pos, declaration_end(s, pos))
    } else {
        element(s, pos)
    }
}

/// The element whose start tag stands at `pos`.
pub open spec fn element(s: Seq<char>, pos: int) -> Result<Parsed<NodeView>, HtmlError>
    decreases s.len() - pos, 0int,
{
    let name_end = run_end(s, pos + 1, CharClass::Alphanumeric);
    let name = s.subrange(pos + 1, name_end);
    match attributes(s, name_end, Map::empty()) {
        Err(e) => Err(e),
        Ok((attrs, tag_end)) => if !(0 <= pos < tag_end < s.len()) {
            Err(HtmlError::UnexpectedEof)
        } else if s[tag_end] == '/' {
            Ok(
                Parsed {
                    value: NodeView::element(name, attrs, Seq::empty()),
                    end: tag_end + 2,
                    warnings: Seq::empty(),
                },
            )
        } else {
            match nodes(s, tag_end + 1) {
                Err(e) => Err(e),
                Ok(children) => {
                    let node = NodeView::element(name, attrs, children.value);
                    if at_closing_tag(s, children.end) {
                        let close_end = run_end(s, children.end + 2, CharClass::Alphanumeric);
                        let close = s.subrange(children.end + 2, close_end);
                        if !(close_end < s.len()) {
                            Err(HtmlError::UnexpectedEof)
                        } else if s[close_end] != '>' {
                            Err(HtmlError::UnclosedTag)
                        } else {
                            Ok(
                                Parsed {
                                    value: node,
                                    end: close_end + 1,
                                    warnings: children.warnings + closing_warning(name, close),
                                },
                            )
                        }
                    } else {
                        Ok(Parsed { value: node, end: children.end, warnings: children.warnings })
                    }
                },
            }
        },
    }
}

/// The warning that a closing tag `close` gives for an element `name`.
pub open spec fn closing_warning(name: Seq<char>, close: Seq<char>) -> Seq<MismatchView> {
    if close != name {
        seq![MismatchView { expected: name, found: close }]
    } else {
        Seq::empty()
    }
}

/// The document that a text writes: its one top-level node, or an element
/// `html` around its top-level nodes where there is not exactly one.
pub open spec fn document(s: Seq<char>) -> Result<(NodeView, Seq<MismatchView>), HtmlError> {
    match nodes(s, 0) {
        Err(e) => Err(e),
        Ok(top) => if top.value.len() == 1 {
            Ok((top.value[0], top.warnings))
        } else {
            Ok((NodeView::element(html_tag(), Map::empty(), top.value), top.warnings))
        },
    }
}

/// The tag name `html`.
pub open spec fn html_tag() -> Seq<char> {
    seq!['h', 't', 'm', 'l']
}


/// Every node takes at least one character, and no part of the grammar
/// reaches beyond the end of the text.
pub proof fn lemma_nodes_bounds(s: Seq<char>, pos: int)
    requires
        0 <= pos <= s.len(),
    ensures
        match nodes(s, pos) {
            Ok(p) => pos <= p.end <= s.len() && (p.end == s.len() || at_closing_tag(s, p.end)),
            Err(_) => true,
        },
    decreases s.len() - pos, 2int,
{
    lemma_run_end(s, pos, CharClass::Whitespace);
    let p = run_end(s, pos, CharClass::Whitespace);
    if p < s.len() && !at_closing_tag(s, p) {
        lemma_node_bounds(s, p);
        match node(s, p) {
            Ok(first) => {
                lemma_nodes_bounds(s, first.end);
            },
            Err(_) => {},
        }
    }
}

/// A node takes at least one character, and ends inside the text.
pub proof fn lemma_node_bounds(s: Seq<char>, pos: int)
    requires
        0 <= pos < s.len(),
    ensures
        match node(s, pos) {
            Ok(p) => pos < p.end <= s.len(),
            Err(_) => true,
        },
    decreases s.len() - pos, 1int,
{
    if s[pos] != '<' {
        lemma_run_end(s, pos, CharClass::Until('<'));
    } else if at_comment(s, pos) {
        lemma_comment_end(s, pos + 4);
        let next = comment_end(s, pos + 4);
        if next < s.len() && !at_closing_tag(s, next) {
            lemma_node_bounds(s, next);
        }
    } else if at_declaration(s, pos) {
        lemma_run_end(s, pos + 2, CharClass::Until('>'));
        let next = declaration_end(s, pos);
        if next < s.len() && !at_closing_tag(s, next) {
            lemma_node_bounds(s, next);
        }
    } else {
        lemma_element_bounds(s, pos);
    }
}

/// An element takes at least one character, and ends inside the text.
pub proof fn lemma_element_bounds(s: Seq<char>, pos: int)
    requires
        0 <= pos < s.len(),
    ensures
        match element(s, pos) {
            Ok(p) => pos < p.end <= s.len(),
            Err(_) => true,
        },
    decreases s.len() - pos, 0int,
{
    lemma_run_end(s, pos + 1, CharClass::Alphanumeric);
    let name_end = run_end(s, pos + 1, CharClass::Alphanumeric);
    lemma_attributes(s, name_end, Map::empty());
    match attributes(s, name_end, Map::empty()) {
        Err(_) => {},
        Ok((_, tag_end)) => {
            if s[tag_end] != '/' {
                lemma_nodes_bounds(s, tag_end + 1);
                match nodes(s, tag_end + 1) {
                    Ok(children) => {
                        if at_closing_tag(s, children.end) {
                            lemma_run_end(s, children.end + 2, CharClass::Alphanumeric);
                        }
                    },
                    Err(_) => {},
                }
            }
        },
    }
}

// ---------------------------------------------------------------------------
// The parser

/// The nodes and warnings that were read so far, in front of what the rest
/// of the text gives.
pub open spec fn prepend_nodes(
    acc: Seq<NodeView>,
    warnings: Seq<MismatchView>,
    rest: Result<Parsed<Seq<NodeView>>, HtmlError>,
) -> Result<Parsed<Seq<NodeView>>, HtmlError> {
    match rest {
        Ok(p) => Ok(
            Parsed { value: acc + p.value, end: p.end, warnings: warnings + p.warnings },
        ),
        Err(e) => Err(e),
    }
}

/// Setting an attribute sets it in the view.
pub proof fn lemma_attrs_insert(before: AttrMap, after: AttrMap, name: Seq<char>, value: String)
    requires
        after@ == before@.insert(name, value),
    ensures
        attrs_view(after) == attrs_view(before).insert(name, value@),
{
    assert(attrs_view(after) =~= attrs_view(before).insert(name, value@));
}

/// The parser of documents: a cursor into the text, and the mismatched
/// closing tags that it has passed.
pub struct Parser {
    pos: usize,
    input: Vec<char>,
    warnings: Vec<Mismatch>,
}

impl Parser {
    /// Parses a document.
    pub fn parse(source: String) -> (r: Result<Node, HtmlError>)
        ensures
            match (r, document(source@)) {
                (Ok(root), Ok((v, _))) => root@ == v,
                (Err(e), Err(f)) => e == f,
                _ => false,
            },
    {
        match Self::parse_with_warnings(source) {
            Ok((root, _)) => Ok(root),
            Err(e) => Err(e),
        }
    }

    /// Parses a document, and returns with it the mismatched closing tags in
    /// the order in which they stand in the text.
    pub fn parse_with_warnings(source: String) -> (r: Result<(Node, Vec<Mismatch>), HtmlError>)
        ensures
            match (r, document(source@)) {
                (Ok((root, warnings)), Ok((v, w))) => root@ == v && mismatches_view(warnings@) == w,
                (Err(e), Err(f)) => e == f,
                _ => false,
            },
    {
        let mut parser = Parser { pos: 0, input: chars_of(source.as_str()), warnings: Vec::new() };
        assert(mismatches_view(parser.warnings@) =~= Seq::<MismatchView>::empty());
        let mut list = match parser.parse_nodes() {
            Ok(list) => list,
            Err(e) => {
                return Err(e);
            },
        };
                assert(Seq::<MismatchView>::empty() + nodes(source@, 0)->Ok_0.warnings =~= nodes(
            source@,
            0,
        )->Ok_0.warnings);
        if list.len() == 1 {
            let root = list.remove(0);
            Ok((root, parser.warnings))
        } else {
            let mut name = String::new();
            name.push('h');
            name.push('t');
            name.push('m');
            name.push('l');
            assert(name@ =~= html_tag());
            let attrs = AttrMap::new();
            assert(attrs_view(attrs) =~= Map::<Seq<char>, Seq<char>>::empty());
            Ok((Node::element(name, attrs, list), parser.warnings))
        }
    }

    /// The sibling nodes at the cursor.
    fn parse_nodes(&mut self) -> (r: Result<Vec<Node>, HtmlError>)
        requires
            old(self).pos <= old(self).input.len(),
        ensures
            final(self).input == old(self).input,
            final(self).pos <= final(self).input.len(),
            match (r, nodes(old(self).input@, old(self).pos as int)) {
                (Ok(x), Ok(p)) => nodes_view(x@) == p.value && final(self).pos == p.end
                    && mismatches_view(final(self).warnings@) == mismatches_view(
                    old(self).warnings@,
                ) + p.warnings,
                (Err(e), Err(f)) => e == f,
                _ => false,
            },
        decreases old(self).input.len() - old(self).pos, 2int,
    {
        let mut list: Vec<Node> = Vec::new();
        let ghost s = self.input@;
        let ghost start = self.pos as int;
        let ghost w0 = mismatches_view(self.warnings@);
        let ghost w = Seq::<MismatchView>::empty();
        proof {
            assert(nodes_view(list@) =~= Seq::<NodeView>::empty());
            assert(w0 + w =~= w0);
            let all = nodes(s, start);
            if all is Ok {
                assert(Seq::<NodeView>::empty() + all->Ok_0.value =~= all->Ok_0.value);
                assert(w + all->Ok_0.warnings =~= all->Ok_0.warnings);
            }
        }
        loop
            invariant
                self.input@ == s,
                s == old(self).input@,
                self.input == old(self).input,
                start == old(self).pos,
                start <= self.pos <= self.input.len(),
                w0 == mismatches_view(old(self).warnings@),
                mismatches_view(self.warnings@) == w0 + w,
                prepend_nodes(nodes_view(list@), w, nodes(s, self.pos as int)) == nodes(s, start),
            decreases self.input.len() - self.pos,
        {
            let ghost acc = nodes_view(list@);
            self.consume_whitespace();
            if self.eof() || self.at_closing_tag() {
                proof {
                    assert(acc + Seq::<NodeView>::empty() =~= acc);
                    assert(w + Seq::<MismatchView>::empty() =~= w);
                }
                return Ok(list);
            }
            proof {
                lemma_node_bounds(s, self.pos as int);
            }
            let ghost first = node(s, self.pos as int);
            match self.parse_node() {
                Err(e) => {
                    return Err(e);
                },
                Ok(n) => {
                    list.push(n);
                    proof {
                        let rest = nodes(s, self.pos as int);
                        let f = first->Ok_0;
                        assert(nodes_view(list@) =~= acc + seq![n@]);
                        if rest is Ok {
                            assert(acc + (seq![n@] + rest->Ok_0.value) =~= (acc + seq![n@])
                                + rest->Ok_0.value);
                            assert(w + (f.warnings + rest->Ok_0.warnings) =~= (w + f.warnings)
                                + rest->Ok_0.warnings);
                        }
                        assert(w0 + (w + f.warnings) =~= (w0 + w) + f.warnings);
                        w = w + f.warnings;
                    }
                },
            }
        }
    }

    /// The node at the cursor.
    fn parse_node(&mut self) -> (r: Result<Node, HtmlError>)
        requires
            old(self).pos < old(self).input.len(),
        ensures
            final(self).input == old(self).input,
            final(self).pos <= final(self).input.len(),
            match (r, node(old(self).input@, old(self).pos as int)) {
                (Ok(x), Ok(p)) => x@ == p.value && final(self).pos == p.end && mismatches_view(
                    final(self).warnings@,
                ) == mismatches_view(old(self).warnings@) + p.warnings,
                (Err(e), Err(f)) => e == f,
                _ => false,
            },
        decreases old(self).input.len() - old(self).pos, 1int,
    {
        let ghost w0 = mismatches_view(self.warnings@);
        assert(w0 + Seq::<MismatchView>::empty() =~= w0);
        if self.next_char() != '<' {
            return Ok(self.parse_text());
        }
        if self.at_comment() {
            self.parse_comment();
        } else if self.at_declaration() {
            self.parse_doctype();
        } else {
            return self.parse_element();
        }
        if !self.eof() && !self.at_closing_tag() {
            self.parse_node()
        } else {
            Ok(Node::text(String::new()))
        }
    }

    /// The element at the cursor.
    fn parse_element(&mut self) -> (r: Result<Node, HtmlError>)
        requires
            old(self).pos < old(self).input.len(),
        ensures
            final(self).input == old(self).input,
            final(self).pos <= final(self).input.len(),
            match (r, element(old(self).input@, old(self).pos as int)) {
                (Ok(x), Ok(p)) => x@ == p.value && final(self).pos == p.end && mismatches_view(
                    final(self).warnings@,
                ) == mismatches_view(old(self).warnings@) + p.warnings,
                (Err(e), Err(f)) => e == f,
                _ => false,
            },
        decreases old(self).input.len() - old(self).pos, 0int,
    {
        let ghost s = self.input@;
        let ghost w0 = mismatches_view(self.warnings@);
        self.consume_char();
        let tag_name = self.parse_tag_name();
        proof {
            lemma_attributes(s, self.pos as int, Map::empty());
        }
        let attrs = match self.parse_attributes() {
            Ok(a) => a,
            Err(e) => {
                return Err(e);
            },
        };
        if self.next_char() == '/' {
            self.consume_char();
            self.consume_char();
            let children: Vec<Node> = Vec::new();
            assert(nodes_view(children@) =~= Seq::<NodeView>::empty());
            assert(w0 + Seq::<MismatchView>::empty() =~= w0);
            return Ok(Node::element(tag_name, attrs, children));
        }
        self.consume_char();
        proof {
            lemma_nodes_bounds(s, self.pos as int);
        }
        let children = match self.parse_nodes() {
            Ok(c) => c,
            Err(e) => {
                return Err(e);
            },
        };
        let ghost w1 = mismatches_view(self.warnings@);
        if self.at_closing_tag() {
            self.consume_char();
            self.consume_char();
            let close_tag = self.parse_tag_name();
            if self.eof() {
                return Err(HtmlError::UnexpectedEof);
            }
            if self.consume_char() != '>' {
                return Err(HtmlError::UnclosedTag);
            }
            if close_tag != tag_name {
                let expected = tag_name.clone();
                let mismatch = Mismatch { expected, found: close_tag };
                self.warnings.push(mismatch);
                assert(mismatches_view(self.warnings@) =~= w1 + seq![mismatch@]);
                assert(w0 + (w1.skip(w0.len() as int) + seq![mismatch@]) =~= w1 + seq![
                    mismatch@,
                ]);
            } else {
                assert(w1 + Seq::<MismatchView>::empty() =~= w1);
            }
        }
        Ok(Node::element(tag_name, attrs, children))
    }

    /// Moves the cursor over the comment that starts at it.
    fn parse_comment(&mut self)
        requires
            at_comment(old(self).input@, old(self).pos as int),
        ensures
            final(self).input == old(self).input,
            final(self).warnings == old(self).warnings,
            final(self).pos == comment_end(old(self).input@, old(self).pos + 4),
            old(self).pos + 4 <= final(self).pos <= final(self).input.len(),
    {
        assert(has_char(self.input@, self.pos + 3, '-'));
        assert(self.pos + 3 < self.input.len());
        self.pos = self.pos + 4;
        let ghost s = self.input@;
        let ghost start = self.pos as int;
        loop
            invariant_except_break
                comment_end(s, self.pos as int) == comment_end(s, start),
            invariant
                self.input@ == s,
                self.input == old(self).input,
                self.warnings == old(self).warnings,
                start == old(self).pos + 4,
                start <= self.pos <= self.input.len(),
            ensures
                self.pos == comment_end(s, start),
                start <= self.pos <= self.input.len(),
            decreases self.input.len() - self.pos,
        {
            if self.eof() {
                break ;
            }
            if self.at_comment_end() {
                self.pos = self.pos + 3;
                break ;
            }
            self.consume_char();
        }
    }

    /// Moves the cursor over the declaration that starts at it.
    fn parse_doctype(&mut self)
        requires
            at_declaration(old(self).input@, old(self).pos as int),
        ensures
            final(self).input == old(self).input,
            final(self).warnings == old(self).warnings,
            final(self).pos == declaration_end(old(self).input@, old(self).pos as int),
            old(self).pos + 2 <= final(self).pos <= final(self).input.len(),
    {
        self.consume_char();
        self.consume_char();
        self.pos = scan(&self.input, self.pos, CharClass::Until('>'));
        if !self.eof() {
            self.consume_char();
        }
    }

    /// A tag or attribute name: the run of letters and digits at the cursor.
    fn parse_tag_name(&mut self) -> (r: String)
        requires
            old(self).pos <= old(self).input.len(),
        ensures
            final(self).input == old(self).input,
            final(self).warnings == old(self).warnings,
            final(self).pos == run_end(
                old(self).input@,
                old(self).pos as int,
                CharClass::Alphanumeric,
            ),
            final(self).pos <= final(self).input.len(),
            r@ == old(self).input@.subrange(old(self).pos as int, final(self).pos as int),
    {
        self.consume_while(CharClass::Alphanumeric)
    }

    /// The attributes of a start tag. The cursor stops at the `>` or `/>`.
    fn parse_attributes(&mut self) -> (r: Result<AttrMap, HtmlError>)
        requires
            old(self).pos <= old(self).input.len(),
        ensures
            final(self).input == old(self).input,
            final(self).warnings == old(self).warnings,
            final(self).pos <= final(self).input.len(),
            match (r, attributes(old(self).input@, old(self).pos as int, Map::empty())) {
                (Ok(x), Ok((v, p))) => attrs_view(x) == v && final(self).pos == p,
                (Err(e), Err(f)) => e == f,
                _ => false,
            },
    {
        let mut attrs = AttrMap::new();
        let ghost s = self.input@;
        let ghost start = self.pos as int;
        assert(attrs_view(attrs) =~= Map::<Seq<char>, Seq<char>>::empty());
        loop
            invariant
                self.input@ == s,
                s == old(self).input@,
                self.input == old(self).input,
                self.warnings == old(self).warnings,
                start == old(self).pos,
                self.pos <= self.input.len(),
                attributes(s, self.pos as int, attrs_view(attrs)) == attributes(
                    s,
                    start,
                    Map::empty(),
                ),
            decreases self.input.len() - self.pos,
        {
            self.consume_whitespace();
            if self.eof() {
                return Err(HtmlError::UnexpectedEof);
            }
            if self.next_char() == '>' || self.at_self_close() {
                return Ok(attrs);
            }
            let here = self.pos;
            proof {
                lemma_attribute(s, here as int);
            }
            match self.parse_attribute() {
                Err(e) => {
                    return Err(e);
                },
                Ok((name, value)) => {
                    if self.pos <= here {
                        return Err(HtmlError::MalformedAttribute);
                    }
                    let ghost before = attrs;
                    let ghost key = name@;
                    let ghost val = value;
                    attrs.insert(name, value);
                    proof {
                        lemma_attrs_insert(before, attrs, key, val);
                    }
                },
            }
        }
    }

    /// One attribute: its name and its value.
    fn parse_attribute(&mut self) -> (r: Result<(String, String), HtmlError>)
        requires
            old(self).pos <= old(self).input.len(),
        ensures
            final(self).input == old(self).input,
            final(self).warnings == old(self).warnings,
            final(self).pos <= final(self).input.len(),
            match (r, attribute(old(self).input@, old(self).pos as int)) {
                (Ok((name, value)), Ok(((n, v), p))) => name@ == n && value@ == v
                    && final(self).pos == p,
                (Err(e), Err(f)) => e == f,
                _ => false,
            },
    {
        let name = self.parse_tag_name();
        self.consume_whitespace();
        if self.eof() {
            return Err(HtmlError::UnexpectedEof);
        }
        if self.next_char() != '=' {
            return Ok((name, String::new()));
        }
        self.consume_char();
        self.consume_whitespace();
        if self.eof() {
            return Err(HtmlError::UnexpectedEof);
        }
        let c = self.next_char();
        let value = if c == '"' || c == '\'' {
            match self.parse_attr_value() {
                Ok(v) => v,
                Err(e) => {
                    return Err(e);
                },
            }
        } else {
            self.consume_while(CharClass::Unquoted)
        };
        Ok((name, value))
    }

    /// A quoted attribute value. The cursor stands at the opening quote.
    fn parse_attr_value(&mut self) -> (r: Result<String, HtmlError>)
        requires
            old(self).pos < old(self).input.len(),
        ensures
            final(self).input == old(self).input,
            final(self).warnings == old(self).warnings,
            final(self).pos <= final(self).input.len(),
            match (r, quoted_value(old(self).input@, old(self).pos as int)) {
                (Ok(x), Ok((v, p))) => x@ == v && final(self).pos == p,
                (Err(e), Err(f)) => e == f,
                _ => false,
            },
    {
        let open_quote = self.consume_char();
        let value = self.consume_while(CharClass::Until(open_quote));
        if self.eof() {
            return Err(HtmlError::UnexpectedEof);
        }
        proof {
            lemma_run_end(self.input@, old(self).pos + 1, CharClass::Until(open_quote));
        }
        self.consume_char();
        Ok(value)
    }

    /// A text node: the characters up to the next `<`.
    fn parse_text(&mut self) -> (r: Node)
        requires
            old(self).pos <= old(self).input.len(),
        ensures
            final(self).input == old(self).input,
            final(self).warnings == old(self).warnings,
            final(self).pos == run_end(old(self).input@, old(self).pos as int, CharClass::Until('<')),
            final(self).pos <= final(self).input.len(),
            r@ == NodeView::text(
                old(self).input@.subrange(old(self).pos as int, final(self).pos as int),
            ),
    {
        Node::text(self.consume_while(CharClass::Until('<')))
    }

    /// Moves the cursor over white space.
    fn consume_whitespace(&mut self)
        requires
            old(self).pos <= old(self).input.len(),
        ensures
            final(self).input == old(self).input,
            final(self).warnings == old(self).warnings,
            final(self).pos == run_end(old(self).input@, old(self).pos as int, CharClass::Whitespace),
            old(self).pos <= final(self).pos <= final(self).input.len(),
    {
        self.pos = scan(&self.input, self.pos, CharClass::Whitespace);
    }

    /// Moves the cursor over the run of `class`, and returns the run.
    fn consume_while(&mut self, class: CharClass) -> (r: String)
        requires
            old(self).pos <= old(self).input.len(),
        ensures
            final(self).input == old(self).input,
            final(self).warnings == old(self).warnings,
            final(self).pos == run_end(old(self).input@, old(self).pos as int, class),
            old(self).pos <= final(self).pos <= final(self).input.len(),
            r@ == old(self).input@.subrange(old(self).pos as int, final(self).pos as int),
    {
        let start = self.pos;
        let end = scan(&self.input, self.pos, class);
        self.pos = end;
        string_of(&self.input, start, end)
    }

    /// The character at the cursor.
    fn next_char(&self) -> (c: char)
        requires
            self.pos < self.input.len(),
        ensures
            c == self.input@[self.pos as int],
    {
        self.input[self.pos]
    }

    /// Whether `c` stands `offset` characters behind the cursor.
    fn has_char_at(&self, offset: usize, c: char) -> (b: bool)
        requires
            self.pos <= self.input.len(),
        ensures
            b == has_char(self.input@, self.pos + offset, c),
    {
        offset < self.input.len() - self.pos && self.input[self.pos + offset] == c
    }

    /// Whether `</` stands at the cursor.
    fn at_closing_tag(&self) -> (b: bool)
        requires
            self.pos <= self.input.len(),
        ensures
            b == at_closing_tag(self.input@, self.pos as int),
    {
        self.has_char_at(0, '<') && self.has_char_at(1, '/')
    }

    /// Whether `<!--` stands at the cursor.
    fn at_comment(&self) -> (b: bool)
        requires
            self.pos <= self.input.len(),
        ensures
            b == at_comment(self.input@, self.pos as int),
    {
        self.has_char_at(0, '<') && self.has_char_at(1, '!') && self.has_char_at(2, '-')
            && self.has_char_at(3, '-')
    }

    /// Whether `<!` stands at the cursor.
    fn at_declaration(&self) -> (b: bool)
        requires
            self.pos <= self.input.len(),
        ensures
            b == at_declaration(self.input@, self.pos as int),
    {
        self.has_char_at(0, '<') && self.has_char_at(1, '!')
    }

    /// Whether `/>` stands at the cursor.
    fn at_self_close(&self) -> (b: bool)
        requires
            self.pos <= self.input.len(),
        ensures
            b == at_self_close(self.input@, self.pos as int),
    {
        self.has_char_at(0, '/') && self.has_char_at(1, '>')
    }

    /// Whether `-->` stands at the cursor.
    fn at_comment_end(&self) -> (b: bool)
        requires
            self.pos <= self.input.len(),
        ensures
            b == at_comment_end(self.input@, self.pos as int),
    {
        self.has_char_at(0, '-') && self.has_char_at(1, '-') && self.has_char_at(2, '>')
    }

    /// Whether the cursor is at the end of the text.
    fn eof(&self) -> (b: bool)
        ensures
            b == (self.pos >= self.input.len()),
    {
        self.pos >= self.input.len()
    }

    /// Moves the cursor over one character, and returns it.
    fn consume_char(&mut self) -> (c: char)
        requires
            old(self).pos < old(self).input.len(),
        ensures
            final(self).input == old(self).input,
            final(self).warnings == old(self).warnings,
            final(self).pos == old(self).pos + 1,
            c == old(self).input@[old(self).pos as int],
    {
        let c = self.input[self.pos];
        self.pos = self.pos + 1;
        c
    }
}

} // verus!
