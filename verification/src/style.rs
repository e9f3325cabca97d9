//! Style resolution: which rules match an element, how their declarations
//! cascade into one value per property, and what a node inherits.

use vstd::prelude::*;
use crate::css::{
    declarations_view, specificity_less, specificity_lt, Color, DeclarationView,
    Rule, RuleView, Selector, SelectorView, SimpleSelector, SimpleSelectorView, Specificity,
    Stylesheet, StylesheetView, Value, ValueView,
};
use crate::dom::{ElementData, ElementView, Node, NodeType, NodeTypeView, NodeView, StrMap};

verus! {

/// The values of the properties of one node, by property name.
pub type PropertyMap = StrMap<Value>;

/// A node of the document with the values of its properties, and its
/// children styled in the same way.
#[derive(Debug)]
pub struct StyledNode<'a> {
    pub node: &'a Node,
    pub specified_values: PropertyMap,
    pub children: Vec<StyledNode<'a>>,
}

/// How a node takes part in layout.
#[derive(Debug, Clone, Copy, PartialEq, Eq, Structural)]
pub enum Display {
    Inline,
    Block,
    /// `display: none`: the node and all below it are left out.
    Omitted,
}

/// A styled tree as a mathematical value.
pub ghost struct StyledView {
    pub node: NodeView,
    pub values: Map<Seq<char>, ValueView>,
    pub children: Seq<StyledView>,
}

/// The property map as a map from names to the views of the values.
pub open spec fn values_view(m: PropertyMap) -> Map<Seq<char>, ValueView> {
    m@.map_values(|v: Value| v@)
}

/// The tag names of the elements that are blocks unless a rule says otherwise.
pub open spec fn is_block_tag(name: Seq<char>) -> bool {
    name == "html"@ || name == "body"@ || name == "div"@ || name == "p"@ || name == "h1"@ || name
        == "h2"@ || name == "h3"@ || name == "h4"@ || name == "h5"@ || name == "h6"@ || name
        == "ul"@ || name == "ol"@ || name == "li"@ || name == "header"@ || name == "footer"@
        || name == "section"@ || name == "article"@ || name == "nav"@ || name == "aside"@ || name
        == "main"@
}

/// Whether elements of this name are blocks unless a rule says otherwise.
pub fn is_block_level(name: &str) -> (b: bool)
    ensures
        b == is_block_tag(name@),
{
    name.eq("html") || name.eq("body") || name.eq("div") || name.eq("p") || name.eq("h1")
        || name.eq("h2") || name.eq("h3") || name.eq("h4") || name.eq("h5") || name.eq("h6")
        || name.eq("ul") || name.eq("ol") || name.eq("li") || name.eq("header") || name.eq(
        "footer",
    ) || name.eq("section") || name.eq("article") || name.eq("nav") || name.eq("aside") || name.eq(
        "main",
    )
}

impl StyledView {
    /// The value of the property `name`.
    pub open spec fn value(self, name: Seq<char>) -> Option<ValueView> {
        if self.values.contains_key(name) {
            Some(self.values[name])
        } else {
            None
        }
    }

    /// How the node takes part in layout: as the keyword of `display` says
    /// (`block`, `none`, anything else is inline); without such a keyword an
    /// element is a block if its tag is one of the block tags, and everything
    /// else is inline.
    pub open spec fn display(self) -> Display {
        match self.value("display"@) {
            Some(ValueView::Keyword(word)) => if word == "block"@ {
                Display::Block
            } else if word == "none"@ {
                Display::Omitted
            } else {
                Display::Inline
            },
            _ => match self.node.node_type {
                NodeTypeView::Element(e) => if is_block_tag(e.tag_name) {
                    Display::Block
                } else {
                    Display::Inline
                },
                NodeTypeView::Text(_) => Display::Inline,
            },
        }
    }

    /// The value of `name`; without one, that of `fallback`; without one,
    /// `default`.
    pub open spec fn lookup(self, name: Seq<char>, fallback: Seq<char>, default: ValueView)
        -> ValueView {
        match self.value(name) {
            Some(v) => v,
            None => match self.value(fallback) {
                Some(v) => v,
                None => default,
            },
        }
    }
}

impl<'a> StyledNode<'a> {
    /// The tree as a mathematical value.
    pub open spec fn view(&self) -> StyledView
        decreases self,
    {
        StyledView {
            node: self.node@,
            values: values_view(self.specified_values),
            children: Seq::new(
                self.children@.len(),
                |i: int|
                    if 0 <= i < self.children@.len() {
                        self.children@[i].view()
                    } else {
                        arbitrary()
                    },
            ),
        }
    }

    /// The value of the property `name`.
    pub fn value(&self, name: &str) -> (r: Option<Value>)
        ensures
            match r {
                Some(v) => self@.value(name@) == Some(v@),
                None => self@.value(name@) is None,
            },
    {
        match self.specified_values.get(name) {
            Some(v) => Some(v.clone()),
            None => None,
        }
    }

    /// How the node takes part in layout.
    pub fn display(&self) -> (r: Display)
        ensures
            r == self@.display(),
    {
        match self.specified_values.get("display") {
            Some(Value::Keyword(word)) => {
                if word.as_str().eq("block") {
                    Display::Block
                } else if word.as_str().eq("none") {
                    Display::Omitted
                } else {
                    Display::Inline
                }
            },
            _ => match &self.node.node_type {
                NodeType::Element(elem) => {
                    if is_block_level(elem.tag_name.as_str()) {
                        Display::Block
                    } else {
                        Display::Inline
                    }
                },
                NodeType::Text(_) => Display::Inline,
            },
        }
    }

    /// The value of `name`; without one, that of `fallback_name`; without
    /// one, `default`.
    pub fn lookup(&self, name: &str, fallback_name: &str, default: &Value) -> (r: Value)
        ensures
            r@ == self@.lookup(name@, fallback_name@, default@),
    {
        match self.value(name) {
            Some(v) => v,
            None => match self.value(fallback_name) {
                Some(v) => v,
                None => default.clone(),
            },
        }
    }
}

// ---------------------------------------------------------------------------
// Matching

/// Whether a simple selector matches an element: the tag name, where the
/// selector has one, is the element's; the id, where it has one, is the
/// element's; and each of its classes is a class of the element.
pub open spec fn matches_simple(elem: ElementView, selector: SimpleSelectorView) -> bool {
    &&& selector.tag_name is Some ==> selector.tag_name == Some(elem.tag_name)
    &&& selector.id is Some ==> selector.id == elem.id()
    &&& forall|i: int|
        0 <= i < selector.classes.len() ==> elem.classes().contains(#[trigger] selector.classes[i])
}

/// Whether a selector matches an element.
pub open spec fn selector_matches(elem: ElementView, selector: SelectorView) -> bool {
    match selector {
        SelectorView::Simple(s) => matches_simple(elem, s),
    }
}

/// The first of the selectors from `from` on that matches the element.
pub open spec fn first_match(elem: ElementView, selectors: Seq<SelectorView>, from: int) -> Option<
    int,
>
    decreases selectors.len() - from,
{
    if !(0 <= from < selectors.len()) {
        None
    } else if selector_matches(elem, selectors[from]) {
        Some(from)
    } else {
        first_match(elem, selectors, from + 1)
    }
}

/// The specificity with which a rule matches an element: that of the first
/// of its selectors that matches. `None` where none does.
pub open spec fn rule_match(elem: ElementView, rule: RuleView) -> Option<(int, int, int)> {
    match first_match(elem, rule.selectors, 0) {
        Some(i) => Some(rule.selectors[i].specificity()),
        None => None,
    }
}

/// A rule that matches an element: its place in the style sheet, and the
/// specificity with which it matches.
pub ghost struct MatchView {
    pub specificity: (int, int, int),
    pub rule: int,
}

/// Among the first `n` rules of the style sheet, those that match the
/// element, in source order.
pub open spec fn matched_rules(elem: ElementView, sheet: StylesheetView, n: int) -> Seq<MatchView>
    decreases n,
{
    if n <= 0 || n > sheet.rules.len() {
        Seq::empty()
    } else {
        let before = matched_rules(elem, sheet, n - 1);
        match rule_match(elem, sheet.rules[n - 1]) {
            Some(specificity) => before.push(MatchView { specificity, rule: n - 1 }),
            None => before,
        }
    }
}

/// Where `x` goes into `sorted`: before the first match that is strictly more
/// specific.
pub open spec fn match_insertion_point(sorted: Seq<MatchView>, x: MatchView) -> int
    decreases sorted.len(),
{
    if sorted.len() == 0 {
        0
    } else if specificity_lt(x.specificity, sorted[0].specificity) {
        0
    } else {
        1 + match_insertion_point(sorted.drop_first(), x)
    }
}

/// The matches in ascending order of specificity; matches of equal
/// specificity keep their order.
pub open spec fn sort_matches(m: Seq<MatchView>) -> Seq<MatchView>
    decreases m.len(),
{
    if m.len() == 0 {
        m
    } else {
        let sorted = sort_matches(m.drop_last());
        sorted.insert(match_insertion_point(sorted, m.last()), m.last())
    }
}

// ---------------------------------------------------------------------------
// The cascade

/// The colour of links: `#0000EE`.
pub open spec fn link_color() -> Color {
    Color { r: 0, g: 0, b: 238, a: 255 }
}

/// Opaque black.
pub open spec fn black() -> Color {
    Color { r: 0, g: 0, b: 0, a: 255 }
}

/// `values`, and where they are missing the values that an element has
/// before any rule applies: `display: block` for the block tags, and a
/// colour for `a` and for `h1`.
pub open spec fn with_default_styles(values: Map<Seq<char>, ValueView>, elem: ElementView) -> Map<
    Seq<char>,
    ValueView,
> {
    let shown = if is_block_tag(elem.tag_name) && !values.contains_key("display"@) {
        values.insert("display"@, ValueView::Keyword("block"@))
    } else {
        values
    };
    if elem.tag_name == "a"@ && !shown.contains_key("color"@) {
        shown.insert("color"@, ValueView::Color(link_color()))
    } else if elem.tag_name == "h1"@ && !shown.contains_key("color"@) {
        shown.insert("color"@, ValueView::Color(black()))
    } else {
        shown
    }
}

/// The values that an element has before any rule applies.
pub open spec fn default_styles(elem: ElementView) -> Map<Seq<char>, ValueView> {
    with_default_styles(Map::empty(), elem)
}

/// The values after the first `n` of the declarations were applied, one
/// after the other; a later declaration of a property replaces an earlier one.
pub open spec fn apply_declarations(
    values: Map<Seq<char>, ValueView>,
    declarations: Seq<DeclarationView>,
    n: int,
) -> Map<Seq<char>, ValueView>
    decreases n,
{
    if n <= 0 || n > declarations.len() {
        values
    } else {
        apply_declarations(values, declarations, n - 1).insert(
            declarations[n - 1].name,
            declarations[n - 1].value,
        )
    }
}

/// The values after the declarations of the first `n` of the matches were
/// applied, match after match.
pub open spec fn apply_matches(
    values: Map<Seq<char>, ValueView>,
    sheet: StylesheetView,
    order: Seq<MatchView>,
    n: int,
) -> Map<Seq<char>, ValueView>
    decreases n,
{
    if n <= 0 || n > order.len() {
        values
    } else {
        let declarations = sheet.rules[order[n - 1].rule].declarations;
        apply_declarations(
            apply_matches(values, sheet, order, n - 1),
            declarations,
            declarations.len() as int,
        )
    }
}

/// The matches of an element in the order in which they apply: by ascending
/// specificity, and by source order where that is equal.
pub open spec fn cascade_order(elem: ElementView, sheet: StylesheetView) -> Seq<MatchView> {
    sort_matches(matched_rules(elem, sheet, sheet.rules.len() as int))
}

/// The values that the style sheet gives an element: its defaults, and over
/// them the declarations of the rules that match, in cascade order.
pub open spec fn cascaded_values(elem: ElementView, sheet: StylesheetView) -> Map<
    Seq<char>,
    ValueView,
> {
    let order = cascade_order(elem, sheet);
    apply_matches(default_styles(elem), sheet, order, order.len() as int)
}

/// The values of a node after inheritance: its own, and the colour of its
/// parent where the node has none of its own.
pub open spec fn inherit(
    own: Map<Seq<char>, ValueView>,
    parent: Option<Map<Seq<char>, ValueView>>,
) -> Map<Seq<char>, ValueView> {
    match parent {
        Some(p) => if p.contains_key("color"@) && !own.contains_key("color"@) {
            own.insert("color"@, p["color"@])
        } else {
            own
        },
        None => own,
    }
}

/// The values of a node before inheritance: for an element what the style
/// sheet gives it, for a text none.
pub open spec fn own_values(node: NodeView, sheet: StylesheetView) -> Map<Seq<char>, ValueView> {
    match node.node_type {
        NodeTypeView::Element(e) => cascaded_values(e, sheet),
        NodeTypeView::Text(_) => Map::empty(),
    }
}

/// The styled tree of a node whose parent has the values `parent`.
pub open spec fn styled(
    node: NodeView,
    sheet: StylesheetView,
    parent: Option<Map<Seq<char>, ValueView>>,
) -> StyledView
    decreases node,
{
    let values = inherit(own_values(node, sheet), parent);
    StyledView {
        node,
        values,
        children: Seq::new(
            node.children.len(),
            |i: int|
                if 0 <= i < node.children.len() {
                    styled(node.children[i], sheet, Some(values))
                } else {
                    arbitrary()
                },
        ),
    }
}


// ---------------------------------------------------------------------------
// What the cascade guarantees

/// The value that the first `n` of the declarations give a property: that of
/// the last of them that names it.
pub open spec fn declared(declarations: Seq<DeclarationView>, n: int, property: Seq<char>) -> Option<
    ValueView,
>
    decreases n,
{
    if n <= 0 || n > declarations.len() {
        None
    } else if declarations[n - 1].name == property {
        Some(declarations[n - 1].value)
    } else {
        declared(declarations, n - 1, property)
    }
}

/// The value that a rule gives a property, if it sets it.
pub open spec fn rule_sets(rule: RuleView, property: Seq<char>) -> Option<ValueView> {
    declared(rule.declarations, rule.declarations.len() as int, property)
}

/// Whether the match `a` ranks above the match `b`: it is more specific, or
/// as specific and later in the style sheet.
pub open spec fn outranks(a: MatchView, b: MatchView) -> bool {
    specificity_lt(b.specificity, a.specificity) || (b.specificity == a.specificity && b.rule
        < a.rule)
}

/// The match of the rule at `r`.
pub open spec fn match_of(elem: ElementView, sheet: StylesheetView, r: int) -> MatchView {
    MatchView { specificity: rule_match(elem, sheet.rules[r])->0, rule: r }
}

/// Whether the rule at `r` matches the element and sets the property.
pub open spec fn competes(elem: ElementView, sheet: StylesheetView, r: int, property: Seq<char>)
    -> bool {
    &&& 0 <= r < sheet.rules.len()
    &&& rule_match(elem, sheet.rules[r]) is Some
    &&& rule_sets(sheet.rules[r], property) is Some
}

/// The value of a property in a map, if it has one.
pub open spec fn value_in(values: Map<Seq<char>, ValueView>, property: Seq<char>) -> Option<
    ValueView,
> {
    if values.contains_key(property) {
        Some(values[property])
    } else {
        None
    }
}

proof fn lemma_apply_declarations(
    values: Map<Seq<char>, ValueView>,
    declarations: Seq<DeclarationView>,
    n: int,
    property: Seq<char>,
)
    requires
        0 <= n <= declarations.len(),
    ensures
        value_in(apply_declarations(values, declarations, n), property) == match declared(
            declarations,
            n,
            property,
        ) {
            Some(v) => Some(v),
            None => value_in(values, property),
        },
    decreases n,
{
    if n > 0 {
        lemma_apply_declarations(values, declarations, n - 1, property);
    }
}

/// While the matches from `j` on up to `n` do not set the property, the
/// first `n` matches give it the value that the first `j` give it.
proof fn lemma_apply_matches_silent(
    values: Map<Seq<char>, ValueView>,
    sheet: StylesheetView,
    order: Seq<MatchView>,
    j: int,
    n: int,
    property: Seq<char>,
)
    requires
        0 <= j <= n <= order.len(),
        forall|k: int| j <= k < n ==> rule_sets(sheet.rules[order[k].rule], property) is None,
    ensures
        value_in(apply_matches(values, sheet, order, n), property) == value_in(
            apply_matches(values, sheet, order, j),
            property,
        ),
    decreases n - j,
{
    if j < n {
        lemma_apply_matches_silent(values, sheet, order, j, n - 1, property);
        let declarations = sheet.rules[order[n - 1].rule].declarations;
        lemma_apply_declarations(
            apply_matches(values, sheet, order, n - 1),
            declarations,
            declarations.len() as int,
            property,
        );
    }
}

/// The matches among the first `n` rules are those of the rules that match,
/// each once, in source order.
proof fn lemma_matched_rules(elem: ElementView, sheet: StylesheetView, n: int)
    requires
        0 <= n <= sheet.rules.len(),
    ensures
        forall|k: int|
            #![trigger matched_rules(elem, sheet, n)[k]]
            0 <= k < matched_rules(elem, sheet, n).len() ==> {
                let m = matched_rules(elem, sheet, n)[k];
                0 <= m.rule < n && rule_match(elem, sheet.rules[m.rule]) is Some && m == match_of(
                    elem,
                    sheet,
                    m.rule,
                )
            },
        forall|a: int, b: int|
            0 <= a < b < matched_rules(elem, sheet, n).len() ==> (#[trigger] matched_rules(
                elem,
                sheet,
                n,
            )[a]).rule < (#[trigger] matched_rules(elem, sheet, n)[b]).rule,
        forall|r: int|
            0 <= r < n && rule_match(elem, sheet.rules[r]) is Some ==> matched_rules(
                elem,
                sheet,
                n,
            ).contains(#[trigger] match_of(elem, sheet, r)),
    decreases n,
{
    if n > 0 {
        lemma_matched_rules(elem, sheet, n - 1);
        let before = matched_rules(elem, sheet, n - 1);
        let now = matched_rules(elem, sheet, n);
        match rule_match(elem, sheet.rules[n - 1]) {
            Some(specificity) => {
                let added = MatchView { specificity, rule: n - 1 };
                assert(now == before.push(added));
                assert forall|r: int|
                    0 <= r < n && rule_match(elem, sheet.rules[r]) is Some implies now.contains(
                    #[trigger] match_of(elem, sheet, r),
                ) by {
                    if r < n - 1 {
                        let k = choose|k: int|
                            0 <= k < before.len() && before[k] == match_of(elem, sheet, r);
                        assert(now[k] == match_of(elem, sheet, r));
                    } else {
                        assert(now[before.len() as int] == match_of(elem, sheet, r));
                    }
                }
            },
            None => {},
        }
    }
}

/// All matches in front of the insertion point are at most as specific as
/// `x`; the match at the insertion point is more specific.
proof fn lemma_match_insertion_point(sorted: Seq<MatchView>, x: MatchView)
    ensures
        0 <= match_insertion_point(sorted, x) <= sorted.len(),
        forall|i: int|
            0 <= i < match_insertion_point(sorted, x) ==> !specificity_lt(
                x.specificity,
                (#[trigger] sorted[i]).specificity,
            ),
        match_insertion_point(sorted, x) < sorted.len() ==> specificity_lt(
            x.specificity,
            sorted[match_insertion_point(sorted, x)].specificity,
        ),
    decreases sorted.len(),
{
    if sorted.len() > 0 && !specificity_lt(x.specificity, sorted[0].specificity) {
        let rest = sorted.drop_first();
        lemma_match_insertion_point(rest, x);
        assert forall|i: int| 0 <= i < match_insertion_point(sorted, x) implies !specificity_lt(
            x.specificity,
            (#[trigger] sorted[i]).specificity,
        ) by {
            if i > 0 {
                assert(sorted[i] == rest[i - 1]);
            }
        }
        if match_insertion_point(sorted, x) < sorted.len() {
            assert(sorted[match_insertion_point(sorted, x)] == rest[match_insertion_point(rest, x)]);
        }
    }
}

/// Matches that stand in source order are, once sorted, the same matches in
/// ascending rank.
proof fn lemma_sort_matches(m: Seq<MatchView>)
    requires
        forall|a: int, b: int| 0 <= a < b < m.len() ==> (#[trigger] m[a]).rule < (#[trigger] m[b]).rule,
    ensures
        sort_matches(m).len() == m.len(),
        forall|x: MatchView| sort_matches(m).contains(x) <==> m.contains(x),
        forall|a: int, b: int|
            0 <= a < b < sort_matches(m).len() ==> outranks(
                #[trigger] sort_matches(m)[b],
                #[trigger] sort_matches(m)[a],
            ),
    decreases m.len(),
{
    if m.len() > 0 {
        let front = m.drop_last();
        let x = m.last();
        assert forall|a: int, b: int| 0 <= a < b < front.len() implies (#[trigger] front[a]).rule < (
        #[trigger] front[b]).rule by {
            assert(front[a] == m[a] && front[b] == m[b]);
        }
        lemma_sort_matches(front);
        let sorted = sort_matches(front);
        lemma_match_insertion_point(sorted, x);
        let at = match_insertion_point(sorted, x);
        let now = sort_matches(m);
        assert(now == sorted.insert(at, x));
        assert forall|y: MatchView| now.contains(y) <==> m.contains(y) by {
            if now.contains(y) {
                let k = choose|k: int| 0 <= k < now.len() && now[k] == y;
                if k < at {
                    assert(sorted[k] == y);
                    assert(sorted.contains(y));
                    assert(front.contains(y));
                    let j = choose|j: int| 0 <= j < front.len() && front[j] == y;
                    assert(m[j] == y);
                } else if k == at {
                    assert(m[m.len() - 1] == y);
                } else {
                    assert(sorted[k - 1] == y);
                    assert(sorted.contains(y));
                    assert(front.contains(y));
                    let j = choose|j: int| 0 <= j < front.len() && front[j] == y;
                    assert(m[j] == y);
                }
            }
            if m.contains(y) {
                let j = choose|j: int| 0 <= j < m.len() && m[j] == y;
                if j < m.len() - 1 {
                    assert(front[j] == y);
                    assert(front.contains(y));
                    assert(sorted.contains(y));
                    let k = choose|k: int| 0 <= k < sorted.len() && sorted[k] == y;
                    if k < at {
                        assert(now[k] == y);
                    } else {
                        assert(now[k + 1] == y);
                    }
                } else {
                    assert(now[at] == y);
                }
            }
        }
        assert forall|a: int, b: int| 0 <= a < b < now.len() implies outranks(
            #[trigger] now[b],
            #[trigger] now[a],
        ) by {
            // every match that was sorted before stands in front of `x` in the source
            assert forall|k: int| 0 <= k < sorted.len() implies (#[trigger] sorted[k]).rule
                < x.rule by {
                assert(sorted.contains(sorted[k]));
                assert(front.contains(sorted[k]));
                let j = choose|j: int| 0 <= j < front.len() && front[j] == sorted[k];
                assert(m[j] == sorted[k]);
                assert(m[m.len() - 1] == x);
            }
            if b < at {
                assert(now[a] == sorted[a] && now[b] == sorted[b]);
            } else if b == at {
                assert(now[a] == sorted[a]);
            } else if a < at {
                assert(now[a] == sorted[a] && now[b] == sorted[b - 1]);
            } else if a == at {
                assert(now[b] == sorted[b - 1]);
                if at < b - 1 {
                    assert(outranks(sorted[b - 1], sorted[at]));
                }
            } else {
                assert(now[a] == sorted[a - 1] && now[b] == sorted[b - 1]);
            }
        }
    }
}

/// The winner of the cascade: where a rule matches the element and sets a
/// property, and ranks above every other rule that does, the element has
/// the value that this rule gives the property. A rule ranks above another
/// if it matches with a higher specificity, or with the same and stands
/// later in the style sheet.
pub proof fn lemma_cascade_winner(
    elem: ElementView,
    sheet: StylesheetView,
    r: int,
    property: Seq<char>,
)
    requires
        competes(elem, sheet, r, property),
        forall|q: int|
            q != r && #[trigger] competes(elem, sheet, q, property) ==> outranks(
                match_of(elem, sheet, r),
                match_of(elem, sheet, q),
            ),
    ensures
        value_in(cascaded_values(elem, sheet), property) == rule_sets(sheet.rules[r], property),
{
    let n = sheet.rules.len() as int;
    let m = matched_rules(elem, sheet, n);
    let order = cascade_order(elem, sheet);
    let x = match_of(elem, sheet, r);
    lemma_matched_rules(elem, sheet, n);
    lemma_sort_matches(m);
    assert(m.contains(x));
    assert(order.contains(x));
    let j = choose|j: int| 0 <= j < order.len() && order[j] == x;
    assert forall|k: int| j + 1 <= k < order.len() implies rule_sets(
        sheet.rules[order[k].rule],
        property,
    ) is None by {
        let y = order[k];
        assert(outranks(order[k], order[j]));
        assert(order.contains(y));
        assert(m.contains(y));
        let i = choose|i: int| 0 <= i < m.len() && m[i] == y;
        assert(y == match_of(elem, sheet, y.rule));
        if rule_sets(sheet.rules[y.rule], property) is Some {
            assert(competes(elem, sheet, y.rule, property));
        }
    }
    lemma_apply_matches_silent(
        default_styles(elem),
        sheet,
        order,
        j + 1,
        order.len() as int,
        property,
    );
    let declarations = sheet.rules[r].declarations;
    lemma_apply_declarations(
        apply_matches(default_styles(elem), sheet, order, j),
        declarations,
        declarations.len() as int,
        property,
    );
}

/// Specificity ordering: where two rules match an element and set the same
/// property, the more specific of the two wins against the other; the
/// element has its value, unless a third rule outranks it.
pub proof fn lemma_specificity_wins(
    elem: ElementView,
    sheet: StylesheetView,
    r1: int,
    r2: int,
    property: Seq<char>,
)
    requires
        competes(elem, sheet, r1, property),
        competes(elem, sheet, r2, property),
        specificity_lt(
            match_of(elem, sheet, r2).specificity,
            match_of(elem, sheet, r1).specificity,
        ),
        forall|q: int|
            q != r1 && q != r2 && #[trigger] competes(elem, sheet, q, property) ==> outranks(
                match_of(elem, sheet, r1),
                match_of(elem, sheet, q),
            ),
    ensures
        value_in(cascaded_values(elem, sheet), property) == rule_sets(sheet.rules[r1], property),
{
    lemma_cascade_winner(elem, sheet, r1, property);
}

/// Cascade stability: where two rules match an element with the same
/// specificity and set the same property, the later of the two wins against
/// the other; the element has its value, unless a third rule outranks it.
pub proof fn lemma_source_order_wins(
    elem: ElementView,
    sheet: StylesheetView,
    r1: int,
    r2: int,
    property: Seq<char>,
)
    requires
        competes(elem, sheet, r1, property),
        competes(elem, sheet, r2, property),
        match_of(elem, sheet, r1).specificity == match_of(elem, sheet, r2).specificity,
        r1 < r2,
        forall|q: int|
            q != r1 && q != r2 && #[trigger] competes(elem, sheet, q, property) ==> outranks(
                match_of(elem, sheet, r2),
                match_of(elem, sheet, q),
            ),
    ensures
        value_in(cascaded_values(elem, sheet), property) == rule_sets(sheet.rules[r2], property),
{
    lemma_cascade_winner(elem, sheet, r2, property);
}

/// Where no rule that matches the element sets a property, the element has
/// the value that it has by default.
pub proof fn lemma_cascade_default(elem: ElementView, sheet: StylesheetView, property: Seq<char>)
    requires
        forall|q: int| !#[trigger] competes(elem, sheet, q, property),
    ensures
        value_in(cascaded_values(elem, sheet), property) == value_in(
            default_styles(elem),
            property,
        ),
{
    let n = sheet.rules.len() as int;
    let m = matched_rules(elem, sheet, n);
    let order = cascade_order(elem, sheet);
    lemma_matched_rules(elem, sheet, n);
    lemma_sort_matches(m);
    assert forall|k: int| 0 <= k < order.len() implies rule_sets(
        sheet.rules[order[k].rule],
        property,
    ) is None by {
        let y = order[k];
        assert(order.contains(y));
        assert(m.contains(y));
        let i = choose|i: int| 0 <= i < m.len() && m[i] == y;
        assert(!competes(elem, sheet, y.rule, property));
    }
    lemma_apply_matches_silent(default_styles(elem), sheet, order, 0, order.len() as int, property);
}

/// Inheritance: a child without a colour of its own has the colour of its
/// parent, if the parent has one; every other property of the child is what
/// the child has of its own, whatever the parent has.
pub proof fn lemma_inheritance(
    node: NodeView,
    sheet: StylesheetView,
    parent: Option<Map<Seq<char>, ValueView>>,
    i: int,
    property: Seq<char>,
)
    requires
        0 <= i < node.children.len(),
    ensures
        ({
            let tree = styled(node, sheet, parent);
            let child = tree.children[i];
            let own = own_values(node.children[i], sheet);
            &&& child.node == node.children[i]
            &&& tree.value("color"@) is Some && !own.contains_key("color"@) ==> child.value(
                "color"@,
            ) == tree.value("color"@)
            &&& own.contains_key("color"@) ==> child.value("color"@) == Some(own["color"@])
            &&& property != "color"@ ==> child.value(property) == (if own.contains_key(property) {
                Some(own[property])
            } else {
                None
            })
        }),
{
    let values = inherit(own_values(node, sheet), parent);
    let child = styled(node.children[i], sheet, Some(values));
    assert(styled(node, sheet, parent).children[i] == child);
    assert(child.values == inherit(own_values(node.children[i], sheet), Some(values)));
}

/// Whether a styled tree has the shape of a document tree: the styled node
/// stands for the node, and its children, in order, for the children.
pub open spec fn mirrors(tree: StyledView, node: NodeView) -> bool
    decreases node,
{
    &&& tree.node == node
    &&& tree.children.len() == node.children.len()
    &&& forall|i: int|
        0 <= i < node.children.len() ==> mirrors(#[trigger] tree.children[i], node.children[i])
}

/// Every styled node stands for a node of the document: the styled tree has
/// the shape of the document tree.
pub proof fn lemma_styled_mirrors(
    node: NodeView,
    sheet: StylesheetView,
    parent: Option<Map<Seq<char>, ValueView>>,
)
    ensures
        mirrors(styled(node, sheet, parent), node),
    decreases node,
{
    let tree = styled(node, sheet, parent);
    assert forall|i: int| 0 <= i < node.children.len() implies mirrors(
        #[trigger] tree.children[i],
        node.children[i],
    ) by {
        lemma_styled_mirrors(node.children[i], sheet, Some(tree.values));
    }
}

// ---------------------------------------------------------------------------
// The resolver

/// The matches as mathematical values.
pub open spec fn matches_view(v: Seq<(Specificity, usize)>) -> Seq<MatchView> {
    Seq::new(
        v.len(),
        |i: int|
            MatchView {
                specificity: (v[i].0.0 as int, v[i].0.1 as int, v[i].0.2 as int),
                rule: v[i].1 as int,
            },
    )
}

/// The values of the parent, if there is one, as a mathematical value.
pub open spec fn parent_view(parent: Option<&PropertyMap>) -> Option<Map<Seq<char>, ValueView>> {
    match parent {
        Some(p) => Some(values_view(*p)),
        None => None,
    }
}

/// Setting a property sets it in the view.
pub proof fn lemma_values_insert(before: PropertyMap, after: PropertyMap, name: Seq<char>, value: Value)
    requires
        after@ == before@.insert(name, value),
    ensures
        values_view(after) == values_view(before).insert(name, value@),
{
    assert(values_view(after) =~= values_view(before).insert(name, value@));
}

/// Styles a document: every node gets the values that the style sheet and
/// inheritance give it.
pub fn style_tree<'a>(root: &'a Node, stylesheet: &'a Stylesheet) -> (r: StyledNode<'a>)
    ensures
        r@ == styled(root@, stylesheet@, None),
{
    style_tree_with_parent(root, stylesheet, None)
}

fn style_tree_with_parent<'a>(
    node: &'a Node,
    stylesheet: &'a Stylesheet,
    parent_values: Option<&PropertyMap>,
) -> (r: StyledNode<'a>)
    ensures
        r@ == styled(node@, stylesheet@, parent_view(parent_values)),
        r.node == node,
    decreases node,
{
    let mut values = match &node.node_type {
        NodeType::Element(elem) => specified_values(elem, stylesheet),
        NodeType::Text(_) => {
            let m = PropertyMap::new();
            assert(values_view(m) =~= Map::<Seq<char>, ValueView>::empty());
            m
        },
    };
    assert(values_view(values) == own_values(node@, stylesheet@));
    if let Some(parent) = parent_values {
        if let Some(parent_color) = parent.get("color") {
            if !values.contains_key("color") {
                let ghost before = values;
                let color = parent_color.clone();
                values.insert("color".to_owned(), color);
                proof {
                    lemma_values_insert(before, values, "color"@, color);
                }
            }
        }
    }
    assert(values_view(values) == inherit(
        own_values(node@, stylesheet@),
        parent_view(parent_values),
    ));
    let mut children: Vec<StyledNode<'a>> = Vec::new();
    let mut i: usize = 0;
    while i < node.children.len()
        invariant
            i <= node.children.len(),
            children.len() == i,
            forall|j: int|
                0 <= j < i ==> (#[trigger] children@[j])@ == styled(
                    node@.children[j],
                    stylesheet@,
                    Some(values_view(values)),
                ),
        decreases node.children.len() - i,
    {
        let child = style_tree_with_parent(&node.children[i], stylesheet, Some(&values));
        children.push(child);
        i = i + 1;
    }
    let r = StyledNode { node, specified_values: values, children };
    assert(r@.children =~= styled(node@, stylesheet@, parent_view(parent_values)).children);
    r
}

/// The values that the style sheet gives an element.
fn specified_values(elem: &ElementData, stylesheet: &Stylesheet) -> (values: PropertyMap)
    ensures
        values_view(values) == cascaded_values(elem@, stylesheet@),
{
    let mut values = PropertyMap::new();
    assert(values_view(values) =~= Map::<Seq<char>, ValueView>::empty());
    apply_default_styles(elem, &mut values);
    let rules = sort_by_specificity(matching_rules(elem, stylesheet));
    let ghost order = cascade_order(elem@, stylesheet@);
    let ghost sheet = stylesheet@;
    let mut i: usize = 0;
    while i < rules.len()
        invariant
            i <= rules.len(),
            matches_view(rules@) == order,
            sheet == stylesheet@,
            forall|j: int| 0 <= j < rules.len() ==> (#[trigger] rules@[j]).1 < stylesheet.rules.len(),
            values_view(values) == apply_matches(default_styles(elem@), sheet, order, i as int),
        decreases rules.len() - i,
    {
        let rule = &stylesheet.rules[rules[i].1];
        let ghost declarations = sheet.rules[order[i as int].rule].declarations;
        assert(declarations == declarations_view(rule.declarations@));
        let mut k: usize = 0;
        while k < rule.declarations.len()
            invariant
                k <= rule.declarations.len(),
                declarations == declarations_view(rule.declarations@),
                values_view(values) == apply_declarations(
                    apply_matches(default_styles(elem@), sheet, order, i as int),
                    declarations,
                    k as int,
                ),
            decreases rule.declarations.len() - k,
        {
            let declaration = &rule.declarations[k];
            let ghost before = values;
            let value = declaration.value.clone();
            values.insert(declaration.name.clone(), value);
            proof {
                lemma_values_insert(before, values, declaration.name@, value);
            }
            k = k + 1;
        }
        i = i + 1;
    }
    values
}

/// Adds the values that an element has before any rule applies, where
/// `values` has none for the property.
fn apply_default_styles(elem: &ElementData, values: &mut PropertyMap)
    ensures
        values_view(*final(values)) == with_default_styles(values_view(*old(values)), elem@),
{
    if is_block_level(elem.tag_name.as_str()) && !values.contains_key("display") {
        let ghost before = *values;
        let value = Value::Keyword("block".to_owned());
        values.insert("display".to_owned(), value);
        proof {
            lemma_values_insert(before, *values, "display"@, value);
        }
    }
    if elem.tag_name.as_str().eq("a") {
        if !values.contains_key("color") {
            let ghost before = *values;
            let value = Value::Color(Color { r: 0, g: 0, b: 238, a: 255 });
            values.insert("color".to_owned(), value);
            proof {
                lemma_values_insert(before, *values, "color"@, value);
            }
        }
    } else if elem.tag_name.as_str().eq("h1") {
        if !values.contains_key("color") {
            let ghost before = *values;
            let value = Value::Color(Color { r: 0, g: 0, b: 0, a: 255 });
            values.insert("color".to_owned(), value);
            proof {
                lemma_values_insert(before, *values, "color"@, value);
            }
        }
    }
}

/// The matches in ascending order of specificity; matches of equal
/// specificity keep their order.
fn sort_by_specificity(matches: Vec<(Specificity, usize)>) -> (sorted: Vec<(Specificity, usize)>)
    ensures
        matches_view(sorted@) == sort_matches(matches_view(matches@)),
        forall|j: int|
            0 <= j < sorted.len() ==> exists|k: int|
                0 <= k < matches.len() && matches@[k] == #[trigger] sorted@[j],
{
    let ghost input = matches_view(matches@);
    let mut sorted: Vec<(Specificity, usize)> = Vec::new();
    assert(input.take(0) =~= Seq::<MatchView>::empty());
    assert(matches_view(sorted@) =~= Seq::<MatchView>::empty());
    let mut n: usize = 0;
    while n < matches.len()
        invariant
            n <= matches.len(),
            input == matches_view(matches@),
            matches_view(sorted@) == sort_matches(input.take(n as int)),
            forall|j: int|
                0 <= j < sorted.len() ==> exists|k: int|
                    0 <= k < matches.len() && matches@[k] == #[trigger] sorted@[j],
        decreases matches.len() - n,
    {
        let x = matches[n];
        let ghost before = matches_view(sorted@);
        let ghost before_exec = sorted@;
        let ghost xv = input[n as int];
        let mut i: usize = 0;
        assert(before.skip(0) =~= before);
        while i < sorted.len() && !specificity_less(x.0, sorted[i].0)
            invariant
                i <= sorted.len(),
                before == matches_view(sorted@),
                xv == input[n as int],
                n < matches.len(),
                input == matches_view(matches@),
                x == matches@[n as int],
                match_insertion_point(before, xv) == i + match_insertion_point(
                    before.skip(i as int),
                    xv,
                ),
            decreases sorted.len() - i,
        {
            assert(before.skip(i as int).drop_first() =~= before.skip(i + 1));
            i = i + 1;
        }
        sorted.insert(i, x);
        assert(matches_view(sorted@) =~= before.insert(i as int, xv));
        assert(input.take(n + 1).drop_last() =~= input.take(n as int));
        assert(input.take(n + 1).last() == xv);
        assert forall|j: int| 0 <= j < sorted.len() implies exists|k: int|
            0 <= k < matches.len() && matches@[k] == #[trigger] sorted@[j] by {
            if j < i {
                assert(sorted@[j] == before_exec[j]);
            } else if j == i {
                assert(matches@[n as int] == sorted@[j]);
            } else {
                assert(sorted@[j] == before_exec[j - 1]);
            }
        }
        n = n + 1;
    }
    assert(input.take(input.len() as int) =~= input);
    sorted
}

/// The rules that match an element, each with the specificity with which it
/// matches, in source order.
fn matching_rules(elem: &ElementData, stylesheet: &Stylesheet) -> (r: Vec<(Specificity, usize)>)
    ensures
        matches_view(r@) == matched_rules(elem@, stylesheet@, stylesheet.rules.len() as int),
        forall|j: int| 0 <= j < r.len() ==> (#[trigger] r@[j]).1 < stylesheet.rules.len(),
{
    let mut r: Vec<(Specificity, usize)> = Vec::new();
    let mut n: usize = 0;
    assert(matches_view(r@) =~= Seq::<MatchView>::empty());
    while n < stylesheet.rules.len()
        invariant
            n <= stylesheet.rules.len(),
            matches_view(r@) == matched_rules(elem@, stylesheet@, n as int),
            forall|j: int| 0 <= j < r.len() ==> (#[trigger] r@[j]).1 < stylesheet.rules.len(),
        decreases stylesheet.rules.len() - n,
    {
        let ghost before = matches_view(r@);
        match match_rule(elem, &stylesheet.rules[n]) {
            Some(specificity) => {
                r.push((specificity, n));
                assert(matches_view(r@) =~= before.push(
                    MatchView {
                        specificity: (
                            specificity.0 as int,
                            specificity.1 as int,
                            specificity.2 as int,
                        ),
                        rule: n as int,
                    },
                ));
            },
            None => {},
        }
        n = n + 1;
    }
    r
}

/// The specificity with which a rule matches an element, if it does.
fn match_rule(elem: &ElementData, rule: &Rule) -> (r: Option<Specificity>)
    ensures
        match r {
            Some(s) => rule_match(elem@, rule@) == Some((s.0 as int, s.1 as int, s.2 as int)),
            None => rule_match(elem@, rule@) is None,
        },
{
    let mut i: usize = 0;
    while i < rule.selectors.len()
        invariant
            i <= rule.selectors.len(),
            first_match(elem@, rule@.selectors, i as int) == first_match(elem@, rule@.selectors, 0),
        decreases rule.selectors.len() - i,
    {
        if matches(elem, &rule.selectors[i]) {
            return Some(rule.selectors[i].specificity());
        }
        i = i + 1;
    }
    None
}

/// Whether a selector matches an element.
fn matches(elem: &ElementData, selector: &Selector) -> (b: bool)
    ensures
        b == selector_matches(elem@, selector@),
{
    match selector {
        Selector::Simple(simple) => matches_simple_selector(elem, simple),
    }
}

/// Whether a simple selector matches an element.
fn matches_simple_selector(elem: &ElementData, selector: &SimpleSelector) -> (b: bool)
    ensures
        b == matches_simple(elem@, selector@),
{
    if let Some(name) = &selector.tag_name {
        if elem.tag_name != *name {
            return false;
        }
    }
    if let Some(id) = &selector.id {
        match elem.id() {
            Some(value) => {
                if *value != *id {
                    return false;
                }
            },
            None => {
                return false;
            },
        }
    }
    let elem_classes = elem.classes();
    let mut i: usize = 0;
    while i < selector.classes.len()
        invariant
            i <= selector.classes.len(),
            elem_classes.deep_view() == elem@.classes(),
            forall|j: int|
                0 <= j < i ==> elem@.classes().contains(#[trigger] selector@.classes[j]),
        decreases selector.classes.len() - i,
    {
        if !contains_string(&elem_classes, &selector.classes[i]) {
            assert(selector@.classes[i as int] == selector.classes@[i as int]@);
            return false;
        }
        assert(selector@.classes[i as int] == selector.classes@[i as int]@);
        i = i + 1;
    }
    true
}

/// Whether `word` is one of `words`.
fn contains_string(words: &Vec<String>, word: &String) -> (b: bool)
    ensures
        b == words.deep_view().contains(word@),
{
    let mut i: usize = 0;
    while i < words.len()
        invariant
            i <= words.len(),
            forall|j: int| 0 <= j < i ==> words.deep_view()[j] != word@,
        decreases words.len() - i,
    {
        if words[i] == *word {
            assert(words.deep_view()[i as int] == word@);
            return true;
        }
        i = i + 1;
    }
    false
}

} // verus!
