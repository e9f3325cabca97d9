//! The document tree: elements with a tag name and attributes, and text.

use vstd::prelude::*;
use crate::text::{chars_of, run_end, scan, string_of, CharClass};

verus! {

/// The keys of a list of entries.
pub open spec fn keys_of<V>(entries: Seq<(String, V)>) -> Seq<Seq<char>> {
    Seq::new(entries.len(), |i: int| entries[i].0@)
}

/// A map from strings to values, kept as a list of entries in the order in
/// which their keys first came. No key occurs twice.
#[derive(Debug)]
pub struct StrMap<V> {
    entries: Vec<(String, V)>,
}

impl<V> StrMap<V> {
    /// The entries, in the order in which their keys were first inserted.
    pub closed spec fn entries(&self) -> Seq<(String, V)> {
        self.entries@
    }

    /// The keys, in the order of the entries.
    pub open spec fn keys(&self) -> Seq<Seq<char>> {
        keys_of(self.entries())
    }

    /// No key occurs twice. Every map that this library builds is well formed.
    pub open spec fn wf(&self) -> bool {
        self.keys().no_duplicates()
    }

    #[verifier::type_invariant]
    closed spec fn inv(&self) -> bool {
        keys_of(self.entries@).no_duplicates()
    }

    /// The mapping that the entries stand for.
    pub open spec fn view(&self) -> Map<Seq<char>, V> {
        Map::new(
            |k: Seq<char>| self.keys().contains(k),
            |k: Seq<char>| self.entries()[self.keys().index_of(k)].1,
        )
    }

    /// In a well-formed map the entry at `i` is what the view holds for its key.
    pub proof fn lemma_entry(&self, i: int)
        requires
            self.wf(),
            0 <= i < self.entries().len(),
        ensures
            self@.contains_key(self.entries()[i].0@),
            self@[self.entries()[i].0@] == self.entries()[i].1,
            self.keys().index_of(self.entries()[i].0@) == i,
    {
        let k = self.entries()[i].0@;
        assert(self.keys()[i] == k);
        let j = self.keys().index_of(k);
        assert(self.keys()[j] == k);
    }

    /// An empty map.
    pub fn new() -> (m: Self)
        ensures
            m@ == Map::<Seq<char>, V>::empty(),
            m.entries().len() == 0,
            m.wf(),
    {
        let m = StrMap { entries: Vec::new() };
        assert(m@ =~= Map::<Seq<char>, V>::empty());
        m
    }

    /// The number of entries.
    pub fn len(&self) -> (n: usize)
        ensures
            n == self.entries().len(),
            n == self@.dom().len(),
            self@.dom().finite(),
    {
        proof {
            use_type_invariant(self);
            self.lemma_dom();
        }
        self.entries.len()
    }

    /// The domain of the view is the set of the keys.
    pub proof fn lemma_dom(&self)
        requires
            self.wf(),
        ensures
            self@.dom() == self.keys().to_set(),
            self@.dom().finite(),
            self@.dom().len() == self.entries().len(),
    {
        assert(self@.dom() =~= self.keys().to_set());
        self.keys().unique_seq_to_set();
    }

    fn position(entries: &Vec<(String, V)>, key: &str) -> (r: Option<usize>)
        ensures
            match r {
                Some(i) => i < entries.len() && entries@[i as int].0@ == key@,
                None => forall|j: int| 0 <= j < entries.len() ==> entries@[j].0@ != key@,
            },
    {
        let mut i: usize = 0;
        while i < entries.len()
            invariant
                i <= entries.len(),
                forall|j: int| 0 <= j < i ==> entries@[j].0@ != key@,
            decreases entries.len() - i,
        {
            if entries[i].0.as_str().eq(key) {
                return Some(i);
            }
            i = i + 1;
        }
        None
    }

    /// The value that the map holds for `key`.
    pub fn get(&self, key: &str) -> (r: Option<&V>)
        ensures
            match r {
                Some(v) => self@.contains_key(key@) && *v == self@[key@],
                None => !self@.contains_key(key@),
            },
    {
        proof {
            use_type_invariant(self);
        }
        match Self::position(&self.entries, key) {
            Some(i) => {
                proof {
                    self.lemma_entry(i as int);
                }
                Some(&self.entries[i].1)
            },
            None => {
                assert forall|j: int| 0 <= j < self.keys().len() implies self.keys()[j]
                    != key@ by {
                    assert(self.entries@[j].0@ != key@);
                }
                None
            },
        }
    }

    /// Whether the map holds a value for `key`.
    pub fn contains_key(&self, key: &str) -> (b: bool)
        ensures
            b == self@.contains_key(key@),
    {
        self.get(key).is_some()
    }

    /// Sets the value for `key`. A key that the map holds already keeps its
    /// place among the entries.
    pub fn insert(&mut self, key: String, value: V)
        ensures
            final(self)@ == old(self)@.insert(key@, value),
            final(self).wf(),
            old(self)@.contains_key(key@) ==> final(self).keys() == old(self).keys(),
            !old(self)@.contains_key(key@) ==> final(self).entries() == old(self).entries().push(
                (key, value),
            ),
    {
        proof {
            use_type_invariant(&*self);
        }
        let ghost before = *self;
        let mut entries: Vec<(String, V)> = Vec::new();
        core::mem::swap(&mut self.entries, &mut entries);
        let ghost old_keys = keys_of(entries@);
        let ghost n = entries@.len() as int;
        assert(old_keys == before.keys());
        match Self::position(&entries, key.as_str()) {
            Some(i) => {
                entries[i] = (key, value);
                assert(keys_of(entries@) =~= old_keys);
                proof {
                    before.lemma_entry(i as int);
                }
            },
            None => {
                entries.push((key, value));
                assert(keys_of(entries@) =~= old_keys.push(key@));
                assert(!old_keys.contains(key@));
                assert forall|a: int, b: int|
                    0 <= a < n + 1 && 0 <= b < n + 1 && a != b implies keys_of(entries@)[a]
                    != keys_of(entries@)[b] by {
                    if a < n && b < n {
                        assert(old_keys[a] != old_keys[b]);
                    } else if a < n {
                        assert(old_keys.contains(old_keys[a]));
                    } else {
                        assert(old_keys.contains(old_keys[b]));
                    }
                }
            },
        }
        assert(keys_of(entries@).no_duplicates());
        let ghost new_entries = entries@;
        core::mem::swap(&mut self.entries, &mut entries);
        assert(self.entries() == new_entries);
        assert(self@ =~= before@.insert(key@, value)) by {
            assert forall|k: Seq<char>| before@.contains_key(k) implies self@.contains_key(k) by {
                let j = before.keys().index_of(k);
                assert(self.keys()[j] == k);
            }
            assert(self.keys().contains(key@)) by {
                if before@.contains_key(key@) {
                } else {
                    assert(self.keys()[n] == key@);
                }
            }
            assert forall|k: Seq<char>| self@.contains_key(k) implies before@.insert(
                key@,
                value,
            ).contains_key(k) && #[trigger] self@[k] == before@.insert(key@, value)[k] by {
                let j = self.keys().index_of(k);
                assert(self.keys()[j] == k);
                if k != key@ {
                    assert(before.keys()[j] == k);
                    before.lemma_entry(j);
                }
            }
        }
    }

    /// The key of the entry at `i`.
    pub fn key_at(&self, i: usize) -> (k: &String)
        requires
            i < self.entries().len(),
        ensures
            *k == self.entries()[i as int].0,
    {
        &self.entries[i].0
    }

    /// The value of the entry at `i`.
    pub fn value_at(&self, i: usize) -> (v: &V)
        requires
            i < self.entries().len(),
        ensures
            *v == self.entries()[i as int].1,
    {
        &self.entries[i].1
    }
}

/// The attributes of an element: a map from names to values.
pub type AttrMap = StrMap<String>;

/// An element: its tag name and its attributes.
#[derive(Debug)]
pub struct ElementData {
    pub tag_name: String,
    pub attributes: AttrMap,
}

/// What a node is: an element or a run of text.
#[derive(Debug)]
pub enum NodeType {
    Element(ElementData),
    Text(String),
}

/// A node of the document tree, which owns its children in document order.
#[derive(Debug)]
pub struct Node {
    pub node_type: NodeType,
    pub children: Vec<Node>,
}

/// An element as a mathematical value.
pub ghost struct ElementView {
    pub tag_name: Seq<char>,
    pub attributes: Map<Seq<char>, Seq<char>>,
}

/// What a node is, as a mathematical value.
pub ghost enum NodeTypeView {
    Element(ElementView),
    Text(Seq<char>),
}

/// A document tree as a mathematical value.
pub ghost struct NodeView {
    pub node_type: NodeTypeView,
    pub children: Seq<NodeView>,
}

/// The attribute map as a map from names to the characters of the values.
pub open spec fn attrs_view(m: AttrMap) -> Map<Seq<char>, Seq<char>> {
    m@.map_values(|v: String| v@)
}

impl ElementData {
    /// The element as a mathematical value.
    pub open spec fn view(&self) -> ElementView {
        ElementView { tag_name: self.tag_name@, attributes: attrs_view(self.attributes) }
    }

    /// The value of the attribute `name`.
    pub fn get_attribute(&self, name: &str) -> (r: Option<&String>)
        ensures
            match r {
                Some(v) => self@.attributes.contains_key(name@) && v@ == self@.attributes[name@],
                None => !self@.attributes.contains_key(name@),
            },
    {
        self.attributes.get(name)
    }

    /// The value of the attribute `id`.
    pub fn id(&self) -> (r: Option<&String>)
        ensures
            match r {
                Some(v) => self@.id() == Some(v@),
                None => self@.id() is None,
            },
    {
        self.get_attribute("id")
    }

    /// The class names: the words of the attribute `class`.
    pub fn classes(&self) -> (r: Vec<String>)
        ensures
            r.deep_view() == self@.classes(),
    {
        match self.get_attribute("class") {
            Some(s) => {
                let chars = chars_of(s.as_str());
                split_words(&chars)
            },
            None => {
                let r: Vec<String> = Vec::new();
                assert(r.deep_view() =~= Seq::<Seq<char>>::empty());
                r
            },
        }
    }
}

impl ElementView {
    /// The value of the attribute `id`.
    pub open spec fn id(self) -> Option<Seq<char>> {
        if self.attributes.contains_key("id"@) {
            Some(self.attributes["id"@])
        } else {
            None
        }
    }

    /// The class names: the words of the attribute `class`, in order.
    pub open spec fn classes(self) -> Seq<Seq<char>> {
        if self.attributes.contains_key("class"@) {
            words(self.attributes["class"@], 0)
        } else {
            Seq::empty()
        }
    }
}

impl NodeType {
    /// What the node is, as a mathematical value.
    pub open spec fn view(&self) -> NodeTypeView {
        match self {
            NodeType::Element(e) => NodeTypeView::Element(e@),
            NodeType::Text(t) => NodeTypeView::Text(t@),
        }
    }
}

impl Node {
    /// The tree as a mathematical value.
    pub open spec fn view(&self) -> NodeView
        decreases self,
    {
        NodeView {
            node_type: self.node_type@,
            children: Seq::new(
                self.children@.len(),
                |i: int|
                    if 0 <= i < self.children@.len() {
                        self.children@[i].view()
                    } else {
                        arbitrary()
                    },
            ),
        }
    }

    /// A text node.
    pub fn text(data: String) -> (n: Node)
        ensures
            n@ == NodeView::text(data@),
    {
        let n = Node { node_type: NodeType::Text(data), children: Vec::new() };
        assert(n@.children =~= Seq::empty());
        n
    }

    /// An element with the given name, attributes and children.
    pub fn element(name: String, attrs: AttrMap, children: Vec<Node>) -> (n: Node)
        ensures
            n@ == NodeView::element(name@, attrs_view(attrs), nodes_view(children@)),
            n.children == children,
    {
        let ghost kids = children@;
        let n = Node {
            node_type: NodeType::Element(ElementData { tag_name: name, attributes: attrs }),
            children,
        };
        assert(n@.children =~= nodes_view(kids));
        n
    }
}

/// The views of a sequence of nodes.
pub open spec fn nodes_view(s: Seq<Node>) -> Seq<NodeView> {
    Seq::new(s.len(), |i: int| s[i]@)
}

impl NodeView {
    /// A text node.
    pub open spec fn text(data: Seq<char>) -> NodeView {
        NodeView { node_type: NodeTypeView::Text(data), children: Seq::empty() }
    }

    /// An element with the given name, attributes and children.
    pub open spec fn element(
        name: Seq<char>,
        attrs: Map<Seq<char>, Seq<char>>,
        children: Seq<NodeView>,
    ) -> NodeView {
        NodeView {
            node_type: NodeTypeView::Element(ElementView { tag_name: name, attributes: attrs }),
            children,
        }
    }
}

/// The words of `s` from position `pos` on: the maximal runs of characters
/// that are no white space, in order.
pub open spec fn words(s: Seq<char>, pos: int) -> Seq<Seq<char>>
    decreases s.len() - pos,
{
    let start = run_end(s, pos, CharClass::Whitespace);
    let end = run_end(s, start, CharClass::Word);
    if 0 <= pos && start < end <= s.len() {
        seq![s.subrange(start, end)] + words(s, end)
    } else {
        Seq::empty()
    }
}

/// Splits a text into its words.
pub fn split_words(v: &Vec<char>) -> (r: Vec<String>)
    ensures
        r.deep_view() == words(v@, 0),
{
    let mut r: Vec<String> = Vec::new();
    let mut pos: usize = 0;
    assert(r.deep_view() =~= Seq::<Seq<char>>::empty());
    loop
        invariant
            pos <= v.len(),
            r.deep_view() + words(v@, pos as int) == words(v@, 0),
        decreases v.len() - pos,
    {
        let start = scan(v, pos, CharClass::Whitespace);
        let end = scan(v, start, CharClass::Word);
        if start == end {
            assert(words(v@, pos as int) == Seq::<Seq<char>>::empty());
            assert(r.deep_view() + Seq::<Seq<char>>::empty() =~= r.deep_view());
            return r;
        }
        let ghost before = r.deep_view();
        let w = string_of(v, start, end);
        r.push(w);
        assert(r.deep_view() =~= before + seq![v@.subrange(start as int, end as int)]);
        assert(before + (seq![v@.subrange(start as int, end as int)] + words(v@, end as int))
            =~= before + seq![v@.subrange(start as int, end as int)] + words(v@, end as int));
        pos = end;
    }
}

} // verus!
