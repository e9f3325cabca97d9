//! Writing a document tree back as HTML, and the law that reading what was
//! written gives the tree again.

use vstd::prelude::*;
use crate::dom::{attrs_view, nodes_view, AttrMap, Node, NodeType, NodeView};
use crate::html::{
    at_closing_tag, at_comment, at_declaration, attribute, attributes, document,
    element, node, nodes, quoted_value, MismatchView, Parsed,
};
use crate::text::{
    is_alphanumeric, is_whitespace, lemma_run_end_unique, run_end, CharClass,
};

verus! {

/// An attribute in a start tag: a space, the name, and the value in double
/// quotes.
pub open spec fn attribute_html(name: Seq<char>, value: Seq<char>) -> Seq<char> {
    seq![' '] + name + seq!['=', '"'] + value + seq!['"']
}

/// The attributes from the `k`th on, in the order of the entries.
pub open spec fn attributes_html(entries: Seq<(String, String)>, k: int) -> Seq<char>
    decreases entries.len() - k,
{
    if !(0 <= k < entries.len()) {
        Seq::empty()
    } else {
        attribute_html(entries[k].0@, entries[k].1@) + attributes_html(entries, k + 1)
    }
}

/// The children of `node` from the `k`th on, one after the other.
pub open spec fn children_html(node: Node, k: int) -> Seq<char>
    decreases node, node.children@.len() - k + 1,
{
    if !(0 <= k < node.children@.len()) {
        Seq::empty()
    } else {
        html_of(node.children@[k]) + children_html(node, k + 1)
    }
}

/// A tree as HTML: a text as it is; an element as its start tag with the
/// attributes in the order of their entries, its children, and its closing
/// tag.
pub open spec fn html_of(node: Node) -> Seq<char>
    decreases node, node.children@.len() + 2,
{
    match node.node_type {
        NodeType::Text(text) => text@,
        NodeType::Element(e) => seq!['<'] + e.tag_name@ + attributes_html(e.attributes.entries(), 0)
            + seq!['>'] + children_html(node, 0) + seq!['<', '/'] + e.tag_name@ + seq!['>'],
    }
}

/// Writes the attributes of an element.
fn write_attributes(attributes: &AttrMap, out: &mut String)
    ensures
        final(out)@ == old(out)@ + attributes_html(attributes.entries(), 0),
{
    let ghost entries = attributes.entries();
    let ghost start = out@;
    let n = attributes.len();
    let mut k: usize = 0;
    while k < n
        invariant
            k <= n,
            n == entries.len(),
            entries == attributes.entries(),
            out@ + attributes_html(entries, k as int) == start + attributes_html(entries, 0),
        decreases n - k,
    {
        let ghost before = out@;
        out.push(' ');
        out.push_str(attributes.key_at(k).as_str());
        out.push('=');
        out.push('"');
        out.push_str(attributes.value_at(k).as_str());
        out.push('"');
        assert(out@ =~= before + attribute_html(entries[k as int].0@, entries[k as int].1@));
        assert(before + (attribute_html(entries[k as int].0@, entries[k as int].1@)
            + attributes_html(entries, k + 1)) =~= (before + attribute_html(
            entries[k as int].0@,
            entries[k as int].1@,
        )) + attributes_html(entries, k + 1));
        k = k + 1;
    }
    assert(out@ + Seq::<char>::empty() =~= out@);
}

/// Writes a tree as HTML behind what `out` holds.
pub fn write_html(node: &Node, out: &mut String)
    ensures
        final(out)@ == old(out)@ + html_of(*node),
    decreases node,
{
    let ghost start = out@;
    match &node.node_type {
        NodeType::Text(text) => {
            out.push_str(text.as_str());
        },
        NodeType::Element(e) => {
            out.push('<');
            out.push_str(e.tag_name.as_str());
            write_attributes(&e.attributes, out);
            out.push('>');
            let ghost head = out@;
            assert(head =~= start + (seq!['<'] + e.tag_name@ + attributes_html(
                e.attributes.entries(),
                0,
            ) + seq!['>']));
            let mut k: usize = 0;
            while k < node.children.len()
                invariant
                    k <= node.children.len(),
                    out@ + children_html(*node, k as int) == head + children_html(*node, 0),
                decreases node.children.len() - k,
            {
                let ghost before = out@;
                write_html(&node.children[k], out);
                assert(before + (html_of(node.children@[k as int]) + children_html(*node, k + 1))
                    =~= (before + html_of(node.children@[k as int])) + children_html(
                    *node,
                    k + 1,
                ));
                k = k + 1;
            }
            assert(out@ + Seq::<char>::empty() =~= out@);
            let ghost body = out@;
            out.push('<');
            out.push('/');
            out.push_str(e.tag_name.as_str());
            out.push('>');
            assert(out@ =~= body + (seq!['<', '/'] + e.tag_name@ + seq!['>']));
            assert(out@ =~= start + html_of(*node));
        },
    }
}

/// The tree as HTML.
pub fn to_html(node: &Node) -> (text: String)
    ensures
        text@ == html_of(*node),
{
    let mut text = String::new();
    write_html(node, &mut text);
    assert(Seq::<char>::empty() + html_of(*node) =~= html_of(*node));
    text
}


// ---------------------------------------------------------------------------
// Reading what was written

/// Whether a text can be a name in what is written: letters and digits only.
pub open spec fn is_name(name: Seq<char>) -> bool {
    forall|i: int|
        0 <= i < name.len() ==> is_alphanumeric(#[trigger] name[i]) && !is_whitespace(name[i])
}

/// Whether the attributes can be written and read again: the names are
/// names, no name occurs twice, and no value holds a double quote.
pub open spec fn canonical_attributes(attributes: AttrMap) -> bool {
    &&& attributes.wf()
    &&& forall|k: int|
        0 <= k < attributes.entries().len() ==> is_name((#[trigger] attributes.entries()[k]).0@)
    &&& forall|k: int, j: int|
        0 <= k < attributes.entries().len() && 0 <= j < attributes.entries()[k].1@.len()
            ==> #[trigger] attributes.entries()[k].1@[j] != '"'
}

/// Whether a tree is one that the parser can give: a text is not empty,
/// holds no `<`, starts with no white space, and has no children; the tag
/// name of an element is a name, its attributes can be written, no two of
/// its children are texts that follow each other, and its children are such
/// trees.
pub open spec fn canonical(node: Node) -> bool
    decreases node,
{
    match node.node_type {
        NodeType::Text(text) => {
            &&& node.children@.len() == 0
            &&& text@.len() > 0
            &&& !is_whitespace(text@[0])
            &&& forall|i: int| 0 <= i < text@.len() ==> #[trigger] text@[i] != '<'
        },
        NodeType::Element(e) => {
            &&& is_name(e.tag_name@)
            &&& canonical_attributes(e.attributes)
            &&& forall|i: int|
                0 <= i < node.children@.len() ==> canonical(#[trigger] node.children@[i])
            &&& forall|i: int|
                0 <= i < node.children@.len() - 1 ==> !((#[trigger] node.children@[i]).node_type is Text
                    && node.children@[i + 1].node_type is Text)
        },
    }
}

/// `t` stands in `s` at `pos`.
pub open spec fn occurs(s: Seq<char>, pos: int, t: Seq<char>) -> bool {
    &&& 0 <= pos
    &&& pos + t.len() <= s.len()
    &&& forall|i: int| 0 <= i < t.len() ==> s[pos + i] == #[trigger] t[i]
}

proof fn lemma_occurs_split(s: Seq<char>, pos: int, a: Seq<char>, b: Seq<char>)
    requires
        occurs(s, pos, a + b),
    ensures
        occurs(s, pos, a),
        occurs(s, pos + a.len(), b),
{
    assert forall|i: int| 0 <= i < a.len() implies s[pos + i] == #[trigger] a[i] by {
        assert((a + b)[i] == a[i]);
    }
    assert forall|i: int| 0 <= i < b.len() implies s[pos + a.len() + i] == #[trigger] b[i] by {
        assert((a + b)[a.len() + i] == b[i]);
    }
}

proof fn lemma_occurs_join(s: Seq<char>, pos: int, a: Seq<char>, b: Seq<char>)
    requires
        occurs(s, pos, a),
        occurs(s, pos + a.len(), b),
    ensures
        occurs(s, pos, a + b),
{
    assert forall|i: int| 0 <= i < (a + b).len() implies s[pos + i] == #[trigger] (a + b)[i] by {
        if i < a.len() {
            assert((a + b)[i] == a[i]);
        } else {
            assert((a + b)[i] == b[i - a.len()]);
            assert(s[pos + a.len() + (i - a.len())] == b[i - a.len()]);
        }
    }
}

proof fn lemma_occurs_subrange(s: Seq<char>, pos: int, t: Seq<char>)
    requires
        occurs(s, pos, t),
    ensures
        s.subrange(pos, pos + t.len()) == t,
{
    assert forall|i: int| 0 <= i < t.len() implies s.subrange(pos, pos + t.len())[i] == t[i] by {
        assert(s[pos + i] == t[i]);
    }
    assert(s.subrange(pos, pos + t.len()) =~= t);
}

/// A text of characters of a class, with no such character behind it, is a
/// run of the class.
proof fn lemma_run_over(s: Seq<char>, pos: int, t: Seq<char>, class: CharClass)
    requires
        occurs(s, pos, t),
        forall|i: int| 0 <= i < t.len() ==> class.holds(#[trigger] t[i]),
        pos + t.len() == s.len() || !class.holds(s[pos + t.len()]),
    ensures
        run_end(s, pos, class) == pos + t.len(),
{
    assert forall|i: int| pos <= i < pos + t.len() implies class.holds(#[trigger] s[i]) by {
        assert(s[pos + (i - pos)] == t[i - pos]);
    }
    lemma_run_end_unique(s, pos, class, pos + t.len());
}

/// The map that the first `n` entries give when they are set one after the
/// other.
pub open spec fn entries_map(entries: Seq<(String, String)>, n: int) -> Map<Seq<char>, Seq<char>>
    decreases n,
{
    if n <= 0 || n > entries.len() {
        Map::empty()
    } else {
        entries_map(entries, n - 1).insert(entries[n - 1].0@, entries[n - 1].1@)
    }
}

proof fn lemma_entries_map_holds(entries: Seq<(String, String)>, n: int)
    requires
        0 <= n <= entries.len(),
        crate::dom::keys_of(entries).no_duplicates(),
    ensures
        forall|key: Seq<char>|
            entries_map(entries, n).contains_key(key) <==> exists|i: int|
                0 <= i < n && (#[trigger] entries[i]).0@ == key,
        forall|i: int|
            0 <= i < n ==> entries_map(entries, n)[(#[trigger] entries[i]).0@] == entries[i].1@,
    decreases n,
{
    if n > 0 {
        lemma_entries_map_holds(entries, n - 1);
        let before = entries_map(entries, n - 1);
        let now = entries_map(entries, n);
        let keys = crate::dom::keys_of(entries);
        assert forall|key: Seq<char>| now.contains_key(key) <==> exists|i: int|
            0 <= i < n && (#[trigger] entries[i]).0@ == key by {
            if now.contains_key(key) {
                if key == entries[n - 1].0@ {
                } else {
                    assert(before.contains_key(key));
                    let i = choose|i: int| 0 <= i < n - 1 && (#[trigger] entries[i]).0@ == key;
                    assert(0 <= i < n && entries[i].0@ == key);
                }
            }
            if exists|i: int| 0 <= i < n && (#[trigger] entries[i]).0@ == key {
                let i = choose|i: int| 0 <= i < n && (#[trigger] entries[i]).0@ == key;
                if i < n - 1 {
                    assert(before.contains_key(key));
                }
            }
        }
        assert forall|i: int| 0 <= i < n implies now[(#[trigger] entries[i]).0@]
            == entries[i].1@ by {
            if i < n - 1 {
                assert(keys[i] == entries[i].0@);
                assert(keys[n - 1] == entries[n - 1].0@);
                assert(keys[i] != keys[n - 1]);
            }
        }
    }
}

/// Setting the entries of a map one after the other gives the map.
proof fn lemma_entries_map(attributes: AttrMap)
    requires
        attributes.wf(),
    ensures
        entries_map(attributes.entries(), attributes.entries().len() as int) == attrs_view(
            attributes,
        ),
{
    let entries = attributes.entries();
    let n = entries.len() as int;
    let built = entries_map(entries, n);
    let keys = attributes.keys();
    lemma_entries_map_holds(entries, n);
    assert forall|key: Seq<char>| built.contains_key(key) <==> attrs_view(attributes).contains_key(
        key,
    ) by {
        if built.contains_key(key) {
            let i = choose|i: int| 0 <= i < n && (#[trigger] entries[i]).0@ == key;
            assert(keys[i] == key);
        }
        if attrs_view(attributes).contains_key(key) {
            assert(keys.contains(key));
            let i = choose|i: int| 0 <= i < keys.len() && keys[i] == key;
            assert(entries[i].0@ == key);
        }
    }
    assert forall|key: Seq<char>| built.contains_key(key) implies built[key] == attrs_view(
        attributes,
    )[key] by {
        let i = choose|i: int| 0 <= i < n && (#[trigger] entries[i]).0@ == key;
        attributes.lemma_entry(i);
    }
    assert(built =~= attrs_view(attributes));
}

/// The attributes that were written, from the `k`th on, are read as they
/// were written.
proof fn lemma_attributes_round_trip(
    s: Seq<char>,
    pos: int,
    entries: Seq<(String, String)>,
    k: int,
)
    requires
        0 <= k <= entries.len(),
        occurs(s, pos, attributes_html(entries, k) + seq!['>']),
        forall|i: int| 0 <= i < entries.len() ==> is_name((#[trigger] entries[i]).0@),
        forall|i: int, j: int|
            0 <= i < entries.len() && 0 <= j < entries[i].1@.len() ==> #[trigger] entries[i].1@[j]
                != '"',
    ensures
        attributes(s, pos, entries_map(entries, k)) == Ok::<
            (Map<Seq<char>, Seq<char>>, int),
            crate::html::HtmlError,
        >((entries_map(entries, entries.len() as int), pos + attributes_html(entries, k).len())),
    decreases entries.len() - k,
{
    let acc = entries_map(entries, k);
    let gt = seq!['>'];
    if k == entries.len() {
        assert(attributes_html(entries, k) =~= Seq::<char>::empty());
        lemma_occurs_split(s, pos, attributes_html(entries, k), gt);
        assert(s[pos + 0] == gt[0]);
        lemma_run_end_unique(s, pos, CharClass::Whitespace, pos);
    } else {
        let name = entries[k].0@;
        let value = entries[k].1@;
        let rest = attributes_html(entries, k + 1);
        let space = seq![' '];
        let eq = seq!['=', '"'];
        let quote = seq!['"'];
        let one = attribute_html(name, value);
        assert(attributes_html(entries, k) == one + rest);
        assert(is_name(name));
        lemma_occurs_split(s, pos, one + rest, gt);
        lemma_occurs_split(s, pos, one, rest);
        lemma_occurs_split(s, pos, space + name + eq + value, quote);
        lemma_occurs_split(s, pos, space + name + eq, value);
        lemma_occurs_split(s, pos, space + name, eq);
        lemma_occurs_split(s, pos, space, name);
        let q1 = pos + 1;
        let q2 = q1 + name.len();
        let q3 = q2 + 1;
        let q4 = q3 + 1;
        let q5 = q4 + value.len();
        let q6 = q5 + 1;
        assert(s[pos + 0] == space[0]);
        assert(s[q2 + 0] == eq[0]);
        assert(s[q2 + 1] == eq[1]);
        assert(s[q5 + 0] == quote[0]);
        assert(one.len() == q6 - pos);
        // the white space in front of the name
        assert(!is_whitespace(s[q1])) by {
            if name.len() > 0 {
                assert(s[q1 + 0] == name[0]);
            }
        }
        lemma_run_end_unique(s, pos, CharClass::Whitespace, q1);
        assert(s[q1] != '>' && s[q1] != '/') by {
            if name.len() > 0 {
                assert(s[q1 + 0] == name[0]);
                assert(is_alphanumeric(name[0]));
            }
        }
        // the name
        lemma_run_over(s, q1, name, CharClass::Alphanumeric);
        lemma_occurs_subrange(s, q1, name);
        lemma_run_end_unique(s, q2, CharClass::Whitespace, q2);
        lemma_run_end_unique(s, q3, CharClass::Whitespace, q3);
        // the value
        assert forall|i: int| 0 <= i < value.len() implies CharClass::Until('"').holds(
            #[trigger] value[i],
        ) by {
            assert(entries[k].1@[i] != '"');
        }
        lemma_run_over(s, q4, value, CharClass::Until('"'));
        lemma_occurs_subrange(s, q4, value);
        assert(quoted_value(s, q3) == Ok::<(Seq<char>, int), crate::html::HtmlError>((value, q6)));
        assert(attribute(s, q1) == Ok::<((Seq<char>, Seq<char>), int), crate::html::HtmlError>(
            ((name, value), q6),
        ));
        // the rest
        lemma_occurs_join(s, q6, rest, gt);
        lemma_attributes_round_trip(s, q6, entries, k + 1);
        assert(entries_map(entries, k + 1) == acc.insert(name, value));
    }
}

/// What an element is written as starts with `<` and goes on with neither
/// `/` nor `!`.
proof fn lemma_element_head(node: Node)
    requires
        node.node_type is Element,
        canonical(node),
    ensures
        html_of(node).len() >= 2,
        html_of(node)[0] == '<',
        html_of(node)[1] != '/',
        html_of(node)[1] != '!',
        html_of(node)[1] != '<',
{
    let e = node.node_type->Element_0;
    let tag = e.tag_name@;
    let entries = e.attributes.entries();
    let a = attributes_html(entries, 0);
    let h = html_of(node);
    let front = seq!['<'] + tag + a + seq!['>'];
    assert(h == front + children_html(node, 0) + seq!['<', '/'] + tag + seq!['>']);
    assert(h[0] == front[0]);
    assert(h[1] == front[1]);
    if tag.len() > 0 {
        assert(front[1] == tag[0]);
        assert(is_alphanumeric(tag[0]));
    } else if entries.len() > 0 {
        assert(a == attribute_html(entries[0].0@, entries[0].1@) + attributes_html(entries, 1));
        assert(front[1] == a[0]);
        assert(a[0] == ' ');
    } else {
        assert(a =~= Seq::<char>::empty());
        assert(front[1] == '>');
    }
}

/// What a canonical tree is written as is not empty, and starts with no
/// white space.
proof fn lemma_html_head(node: Node)
    requires
        canonical(node),
    ensures
        html_of(node).len() >= 1,
        !is_whitespace(html_of(node)[0]),
        node.node_type is Text ==> html_of(node)[0] != '<',
        node.node_type is Element ==> html_of(node)[0] == '<',
{
    if node.node_type is Element {
        lemma_element_head(node);
    }
}

/// The children that were written, from the `k`th on, are read as they were
/// written, where a closing tag or the end of the text follows them.
proof fn lemma_children_round_trip(s: Seq<char>, pos: int, node: Node, k: int)
    requires
        node.node_type is Element,
        canonical(node),
        0 <= k <= node.children@.len(),
        occurs(s, pos, children_html(node, k)),
        pos + children_html(node, k).len() == s.len() || at_closing_tag(
            s,
            pos + children_html(node, k).len(),
        ),
    ensures
        nodes(s, pos) == Ok::<Parsed<Seq<NodeView>>, crate::html::HtmlError>(
            Parsed {
                value: nodes_view(node.children@).skip(k),
                end: pos + children_html(node, k).len(),
                warnings: Seq::empty(),
            },
        ),
    decreases node, node.children@.len() - k + 1,
{
    let n = node.children@.len() as int;
    let views = nodes_view(node.children@);
    if k == n {
        assert(children_html(node, k) =~= Seq::<char>::empty());
        assert(views.skip(k) =~= Seq::<NodeView>::empty());
        lemma_run_end_unique(s, pos, CharClass::Whitespace, pos);
    } else {
        let child = node.children@[k];
        let rest = children_html(node, k + 1);
        let h = html_of(child);
        assert(children_html(node, k) == h + rest);
        assert(canonical(child));
        lemma_occurs_split(s, pos, h, rest);
        lemma_html_head(child);
        let next = pos + h.len();
        let end = next + rest.len();
        assert(s[pos + 0] == h[0]);
        lemma_run_end_unique(s, pos, CharClass::Whitespace, pos);
        if child.node_type is Element {
            lemma_element_head(child);
            assert(s[pos + 1] == h[1]);
        }
        assert(!at_closing_tag(s, pos));
        if child.node_type is Text {
            assert(next == s.len() || s[next] == '<') by {
                if k + 1 < n {
                    let sibling = node.children@[k + 1];
                    assert(canonical(sibling));
                    assert(!(node.children@[k].node_type is Text && node.children@[k + 1].node_type is Text));
                    assert(rest == html_of(sibling) + children_html(node, k + 2));
                    lemma_html_head(sibling);
                    assert(s[next + 0] == rest[0]);
                    assert(rest[0] == html_of(sibling)[0]);
                } else {
                    assert(rest =~= Seq::<char>::empty());
                }
            }
        }
        lemma_node_round_trip(s, pos, child);
        lemma_children_round_trip(s, next, node, k + 1);
        assert(views.skip(k) =~= seq![child@] + views.skip(k + 1));
        assert(Seq::<MismatchView>::empty() + Seq::<MismatchView>::empty() =~= Seq::<
            MismatchView,
        >::empty());
    }
}

/// A tree that was written is read as it was written, where a text is
/// followed by `<` or by the end of the text.
proof fn lemma_node_round_trip(s: Seq<char>, pos: int, n: Node)
    requires
        canonical(n),
        occurs(s, pos, html_of(n)),
        n.node_type is Text ==> (pos + html_of(n).len() == s.len() || s[pos + html_of(n).len()]
            == '<'),
    ensures
        node(s, pos) == Ok::<Parsed<NodeView>, crate::html::HtmlError>(
            Parsed { value: n@, end: pos + html_of(n).len(), warnings: Seq::empty() },
        ),
    decreases n, n.children@.len() + 2,
{
    match n.node_type {
        NodeType::Text(text) => {
            let t = text@;
            assert(s[pos + 0] == t[0]);
            assert forall|i: int| 0 <= i < t.len() implies CharClass::Until('<').holds(
                #[trigger] t[i],
            ) by {}
            lemma_run_over(s, pos, t, CharClass::Until('<'));
            lemma_occurs_subrange(s, pos, t);
            assert(n@.children =~= Seq::<NodeView>::empty());
            assert(n@ == NodeView::text(t));
        },
        NodeType::Element(e) => {
            let tag = e.tag_name@;
            let entries = e.attributes.entries();
            let a = attributes_html(entries, 0);
            let c = children_html(n, 0);
            let lt = seq!['<'];
            let gt = seq!['>'];
            let close = seq!['<', '/'];
            let h = html_of(n);
            assert(h == lt + tag + a + gt + c + close + tag + gt);
            lemma_element_head(n);
            lemma_occurs_split(s, pos, lt + tag + a + gt + c + close + tag, gt);
            lemma_occurs_split(s, pos, lt + tag + a + gt + c + close, tag);
            lemma_occurs_split(s, pos, lt + tag + a + gt + c, close);
            lemma_occurs_split(s, pos, lt + tag + a + gt, c);
            lemma_occurs_split(s, pos, lt + tag + a, gt);
            lemma_occurs_split(s, pos, lt + tag, a);
            lemma_occurs_split(s, pos, lt, tag);
            let p1 = pos + 1;
            let p2 = p1 + tag.len();
            let p3 = p2 + a.len();
            let p4 = p3 + 1;
            let p5 = p4 + c.len();
            let p6 = p5 + 2;
            let p7 = p6 + tag.len();
            assert(s[pos + 0] == lt[0]);
            assert(s[p3 + 0] == gt[0]);
            assert(s[p5 + 0] == close[0]);
            assert(s[p5 + 1] == close[1]);
            assert(s[p7 + 0] == gt[0]);
            assert(h.len() == p7 + 1 - pos);
            assert(s[pos + 1] == h[1]);
            assert(!at_comment(s, pos));
            assert(!at_declaration(s, pos));
            // the tag name
            assert(!is_alphanumeric(s[p2])) by {
                if entries.len() > 0 {
                    assert(a == attribute_html(entries[0].0@, entries[0].1@) + attributes_html(
                        entries,
                        1,
                    ));
                    assert(s[p2 + 0] == a[0]);
                } else {
                    assert(a =~= Seq::<char>::empty());
                }
            }
            lemma_run_over(s, p1, tag, CharClass::Alphanumeric);
            lemma_occurs_subrange(s, p1, tag);
            // the attributes
            lemma_occurs_join(s, p2, a, gt);
            lemma_attributes_round_trip(s, p2, entries, 0);
            lemma_entries_map(e.attributes);
            assert(attributes(s, p2, Map::empty()) == Ok::<
                (Map<Seq<char>, Seq<char>>, int),
                crate::html::HtmlError,
            >((attrs_view(e.attributes), p3)));
            // the children
            assert(at_closing_tag(s, p5));
            lemma_children_round_trip(s, p4, n, 0);
            let views = nodes_view(n.children@);
            assert(views.skip(0) =~= views);
            // the closing tag
            lemma_run_over(s, p6, tag, CharClass::Alphanumeric);
            lemma_occurs_subrange(s, p6, tag);
            assert(Seq::<MismatchView>::empty() + Seq::<MismatchView>::empty() =~= Seq::<
                MismatchView,
            >::empty());
            assert(n@.children =~= views);
            assert(n@ == NodeView::element(tag, attrs_view(e.attributes), views));
            assert(element(s, pos) == Ok::<Parsed<NodeView>, crate::html::HtmlError>(
                Parsed { value: n@, end: p7 + 1, warnings: Seq::empty() },
            ));
        },
    }
}

/// Round trip: a canonical tree that is written as HTML and read again is
/// the same tree, and the parser has nothing to warn of.
pub proof fn lemma_round_trip(n: Node)
    requires
        canonical(n),
    ensures
        document(html_of(n)) == Ok::<(NodeView, Seq<MismatchView>), crate::html::HtmlError>(
            (n@, Seq::empty()),
        ),
{
    let s = html_of(n);
    lemma_html_head(n);
    assert(occurs(s, 0, s));
    lemma_run_end_unique(s, 0, CharClass::Whitespace, 0);
    if n.node_type is Element {
        lemma_element_head(n);
    }
    assert(!at_closing_tag(s, 0));
    lemma_node_round_trip(s, 0, n);
    let end = s.len() as int;
    lemma_run_end_unique(s, end, CharClass::Whitespace, end);
    assert(nodes(s, end) == Ok::<Parsed<Seq<NodeView>>, crate::html::HtmlError>(
        Parsed { value: Seq::empty(), end, warnings: Seq::empty() },
    ));
    assert(seq![n@] + Seq::<NodeView>::empty() =~= seq![n@]);
    assert(Seq::<MismatchView>::empty() + Seq::<MismatchView>::empty() =~= Seq::<
        MismatchView,
    >::empty());
    assert(nodes(s, 0) == Ok::<Parsed<Seq<NodeView>>, crate::html::HtmlError>(
        Parsed { value: seq![n@], end, warnings: Seq::empty() },
    ));
}

} // verus!
