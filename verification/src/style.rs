//! Style resolution over the parsed tree: each element gathers the
//! declarations of every rule whose selector list matches it.

use vstd::prelude::*;

use crate::dom::{contains_token, split_tokens, str_eq, strs_view, ElementData, Node, NodeType};

verus! {

/// The unit of a length value.
pub enum Unit {
    Px,
}

/// A declared property value: a keyword or other textual value, or a length
/// in whole units.
pub enum Value {
    Other(String),
    Length(i64, Unit),
}

impl Value {
    /// A copy of the value.
    pub fn duplicate(&self) -> (r: Value)
        ensures
            r == self,
    {
        match self {
            Value::Other(s) => Value::Other(s.clone()),
            Value::Length(n, _) => Value::Length(*n, Unit::Px),
        }
    }
}

/// One declaration: a property name bound to a value.
pub struct Declaration {
    pub property: String,
    pub value: Value,
}

/// One simple selector: an optional tag name, an optional id, and class
/// names that must all be present.
pub struct SimpleSelector {
    pub tag_name: Option<String>,
    pub id: Option<String>,
    pub classes: Vec<String>,
}

/// A selector: simple selectors of which one match suffices.
pub struct Selector {
    pub simple: Vec<SimpleSelector>,
}

/// One rule: selectors and the declarations they carry.
pub struct Rule {
    pub selectors: Vec<Selector>,
    pub declarations: Vec<Declaration>,
}

/// A stylesheet: rules applied in order, later declarations overriding
/// earlier ones for the same property.
pub struct Stylesheet {
    pub rules: Vec<Rule>,
}

/// How an element is displayed.
pub enum Display {
    Block,
    Inline,
    InlineBlock,
    Hidden,
}

/// Whether one simple selector matches the element: its tag name where
/// given, its id where given, and each of its class names.
pub open spec fn simple_matches(e: ElementData, sm: SimpleSelector) -> bool {
    &&& (sm.tag_name matches Option::Some(t) ==> t@ == e.tag_name@)
    &&& (sm.id matches Option::Some(id) ==> e.attributes@.contains_key("id"@)
        && e.attributes@["id"@] == id@)
    &&& (forall|k: int|
        0 <= k < sm.classes@.len() ==> split_tokens(e.class_value()).contains(
            #[trigger] sm.classes@[k]@,
        ))
}

/// Whether a selector matches the element: some simple selector of it does.
pub open spec fn sel_matches(e: ElementData, sel: Selector) -> bool {
    exists|i: int| 0 <= i < sel.simple@.len() && simple_matches(e, #[trigger] sel.simple@[i])
}

/// Whether some selector of the rule matches the element.
pub open spec fn rule_matches(e: ElementData, r: Rule) -> bool {
    exists|i: int| 0 <= i < r.selectors@.len() && sel_matches(e, #[trigger] r.selectors@[i])
}

/// The declarations folded, in order, onto a property map.
pub open spec fn decls_fold(ds: Seq<Declaration>, m: Map<Seq<char>, Value>) -> Map<
    Seq<char>,
    Value,
>
    decreases ds.len(),
{
    if ds.len() == 0 {
        m
    } else {
        decls_fold(ds.drop_first(), m.insert(ds.first().property@, ds.first().value))
    }
}

/// The rules applied, in order, onto a property map: a matching rule folds
/// in its declarations, any other leaves the map as it is.
pub open spec fn sheet_styles(rules: Seq<Rule>, e: ElementData, m: Map<Seq<char>, Value>) -> Map<
    Seq<char>,
    Value,
>
    decreases rules.len(),
{
    if rules.len() == 0 {
        m
    } else {
        sheet_styles(rules.drop_first(), e, if rule_matches(e, rules.first()) {
            decls_fold(rules.first().declarations@, m)
        } else {
            m
        })
    }
}

/// The properties an element gets from a stylesheet.
pub open spec fn spec_styles(e: ElementData, ss: Stylesheet) -> Map<Seq<char>, Value> {
    sheet_styles(ss.rules@, e, Map::empty())
}

/// Whether a simple selector matches the element, decided at run time.
fn simple_matches_exec(element: &ElementData, sm: &SimpleSelector) -> (r: bool)
    ensures
        r == simple_matches(*element, *sm),
{
    let tag_ok = match &sm.tag_name {
        Option::Some(t) => str_eq(t.as_str(), element.tag_name.as_str()),
        Option::None => true,
    };
    if !tag_ok {
        return false;
    }
    let id_ok = match &sm.id {
        Option::Some(id) => {
            match element.id() {
                Option::Some(i) => str_eq(i.as_str(), id.as_str()),
                Option::None => false,
            }
        },
        Option::None => true,
    };
    if !id_ok {
        return false;
    }
    let element_classes = element.classes();
    let mut k: usize = 0;
    loop
        invariant
            0 <= k <= sm.classes@.len(),
            strs_view(element_classes@) == split_tokens(element.class_value()),
            forall|j: int|
                0 <= j < k ==> split_tokens(element.class_value()).contains(
                    #[trigger] sm.classes@[j]@,
                ),
        ensures
            k <= sm.classes@.len(),
            forall|j: int|
                0 <= j < k ==> split_tokens(element.class_value()).contains(
                    #[trigger] sm.classes@[j]@,
                ),
            k == sm.classes@.len() || !split_tokens(element.class_value()).contains(
                sm.classes@[k as int]@,
            ),
        decreases sm.classes@.len() - k,
    {
        if k >= sm.classes.len() {
            break ;
        }
        if !contains_token(&element_classes, &sm.classes[k]) {
            break ;
        }
        k = k + 1;
    }
    k == sm.classes.len()
}

/// Whether a selector matches the element: its simple selectors are tried
/// in order and one match suffices.
pub fn selector_matches(element: &ElementData, selector: &Selector) -> (r: bool)
    ensures
        r == sel_matches(*element, *selector),
{
    let mut i: usize = 0;
    loop
        invariant
            0 <= i <= selector.simple@.len(),
            forall|j: int| 0 <= j < i ==> !simple_matches(*element, #[trigger] selector.simple@[j]),
        ensures
            i <= selector.simple@.len(),
            forall|j: int| 0 <= j < i ==> !simple_matches(*element, #[trigger] selector.simple@[j]),
            i == selector.simple@.len() || simple_matches(*element, selector.simple@[i as int]),
        decreases selector.simple@.len() - i,
    {
        if i >= selector.simple.len() {
            break ;
        }
        if simple_matches_exec(element, &selector.simple[i]) {
            break ;
        }
        i = i + 1;
    }
    if i < selector.simple.len() {
        proof {
            assert(sel_matches(*element, *selector));
        }
        true
    } else {
        false
    }
}

/// A property map: property names bound to values, later bindings
/// overriding earlier ones.
pub struct PropertyMap {
    pairs: Vec<(String, Value)>,
}

/// The mapping described by a sequence of property/value pairs.
pub closed spec fn prop_map_of(pairs: Seq<(String, Value)>) -> Map<Seq<char>, Value>
    decreases pairs.len(),
{
    if pairs.len() == 0 {
        Map::empty()
    } else {
        prop_map_of(pairs.drop_last()).insert(pairs.last().0@, pairs.last().1)
    }
}

impl View for PropertyMap {
    type V = Map<Seq<char>, Value>;

    closed spec fn view(&self) -> Map<Seq<char>, Value> {
        prop_map_of(self.pairs@)
    }
}

proof fn lemma_prop_map_found(pairs: Seq<(String, Value)>, key: Seq<char>, i: int)
    requires
        0 <= i < pairs.len(),
        pairs[i].0@ == key,
        forall|j: int| i < j < pairs.len() ==> #[trigger] pairs[j].0@ != key,
    ensures
        prop_map_of(pairs).contains_key(key),
        prop_map_of(pairs)[key] == pairs[i].1,
    decreases pairs.len(),
{
    if i == pairs.len() - 1 {
    } else {
        assert(pairs.drop_last()[i] == pairs[i]);
        lemma_prop_map_found(pairs.drop_last(), key, i);
    }
}

proof fn lemma_prop_map_absent(pairs: Seq<(String, Value)>, key: Seq<char>)
    requires
        forall|j: int| 0 <= j < pairs.len() ==> #[trigger] pairs[j].0@ != key,
    ensures
        !prop_map_of(pairs).contains_key(key),
    decreases pairs.len(),
{
    if pairs.len() > 0 {
        lemma_prop_map_absent(pairs.drop_last(), key);
    }
}

impl PropertyMap {
    /// An empty property map.
    pub fn new() -> (r: PropertyMap)
        ensures
            r@ == Map::<Seq<char>, Value>::empty(),
    {
        PropertyMap { pairs: Vec::new() }
    }

    /// Binds `name` to `value`, replacing any earlier binding.
    pub fn insert(&mut self, name: String, value: Value)
        ensures
            final(self)@ == old(self)@.insert(name@, value),
    {
        let ghost before = self.pairs@;
        self.pairs.push((name, value));
        proof {
            assert(self.pairs@.drop_last() =~= before);
        }
    }

    /// Looks `name` up.
    pub fn get(&self, name: &str) -> (r: Option<&Value>)
        ensures
            r is Some <==> self@.contains_key(name@),
            r matches Some(v) ==> *v == self@[name@],
    {
        let mut i: usize = self.pairs.len();
        while i > 0
            invariant
                i <= self.pairs@.len(),
                forall|j: int| i <= j < self.pairs@.len() ==> #[trigger] self.pairs@[j].0@ != name@,
            decreases i,
        {
            i = i - 1;
            if str_eq(self.pairs[i].0.as_str(), name) {
                proof {
                    lemma_prop_map_found(self.pairs@, name@, i as int);
                }
                return Some(&self.pairs[i].1);
            }
        }
        proof {
            lemma_prop_map_absent(self.pairs@, name@);
        }
        None
    }
}

/// A node of the styled tree: the properties resolved for it, and the
/// styled readings of its element children.
pub struct StyledNode {
    pub styles: PropertyMap,
    pub children: Vec<StyledNode>,
}

/// The mathematical reading of a styled node.
pub ghost struct SStyled {
    pub styles: Map<Seq<char>, Value>,
    pub kids: Seq<SStyled>,
}

/// The mathematical reading of a styled node.
pub open spec fn styled_view(sn: StyledNode) -> SStyled
    decreases sn,
    via styled_view_dec
{
    SStyled { styles: sn.styles@, kids: styled_seq_view(sn.children@) }
}

/// The mathematical reading of a sequence of styled nodes.
pub open spec fn styled_seq_view(s: Seq<StyledNode>) -> Seq<SStyled>
    decreases s,
{
    if s.len() == 0 {
        Seq::empty()
    } else {
        styled_seq_view(s.drop_last()).push(styled_view(s.last()))
    }
}

#[via_fn]
proof fn styled_view_dec(sn: StyledNode) {
    assert(decreases_to!(sn => sn.children));
    assert(decreases_to!(sn.children => sn.children@));
}

/// The styled reading a node should get: its own properties where it is an
/// element, and the styled readings of its element children, in order.
pub open spec fn spec_styled(n: Node, ss: Stylesheet) -> SStyled
    decreases n,
    via spec_styled_dec
{
    SStyled {
        styles: match n.node_type {
            NodeType::Element(e) => spec_styles(e, ss),
            NodeType::Text(_) => Map::empty(),
            NodeType::Comment(_) => Map::empty(),
        },
        kids: spec_styled_seq(n.children@, ss),
    }
}

/// The styled readings of the element nodes among siblings, in order.
pub open spec fn spec_styled_seq(s: Seq<Node>, ss: Stylesheet) -> Seq<SStyled>
    decreases s,
{
    if s.len() == 0 {
        Seq::empty()
    } else {
        if s.last().node_type is Element {
            spec_styled_seq(s.drop_last(), ss).push(spec_styled(s.last(), ss))
        } else {
            spec_styled_seq(s.drop_last(), ss)
        }
    }
}

#[via_fn]
proof fn spec_styled_dec(n: Node, ss: Stylesheet) {
    assert(decreases_to!(n => n.children));
    assert(decreases_to!(n.children => n.children@));
}

/// What the `display` property says: one of the three known keywords, and
/// anything else, a length, or no binding at all reads as inline.
pub open spec fn spec_display(m: Map<Seq<char>, Value>) -> Display {
    if m.contains_key("display"@) {
        match m["display"@] {
            Value::Other(v) => {
                if v@ == "block"@ {
                    Display::Block
                } else if v@ == "none"@ {
                    Display::Hidden
                } else if v@ == "inline-block"@ {
                    Display::InlineBlock
                } else {
                    Display::Inline
                }
            },
            Value::Length(_, _) => Display::Inline,
        }
    } else {
        Display::Inline
    }
}

impl StyledNode {
    /// The resolved properties: the view of the node's own style map, the
    /// `styles` component of `styled_view`.
    pub open spec fn spec_styles_of(self) -> Map<Seq<char>, Value> {
        self.styles@
    }

    /// The properties an element gathers: each rule in order, and where one
    /// of its selectors matches, all its declarations.
    fn get_styles(element: &ElementData, stylesheet: &Stylesheet) -> (r: PropertyMap)
        ensures
            r@ == spec_styles(*element, *stylesheet),
    {
        let mut styles = PropertyMap::new();
        let ghost rules = stylesheet.rules@;
        let mut ri: usize = 0;
        proof {
            assert(rules.subrange(0, rules.len() as int) =~= rules);
        }
        loop
            invariant
                0 <= ri <= rules.len(),
                rules == stylesheet.rules@,
                sheet_styles(rules.subrange(ri as int, rules.len() as int), *element, styles@)
                    == sheet_styles(rules, *element, Map::empty()),
            ensures
                sheet_styles(rules.subrange(ri as int, rules.len() as int), *element, styles@)
                    == sheet_styles(rules, *element, Map::empty()),
                ri == rules.len(),
            decreases rules.len() - ri,
        {
            if ri >= stylesheet.rules.len() {
                break ;
            }
            let rule = &stylesheet.rules[ri];
            let ghost mbefore = styles@;
            let mut si: usize = 0;
            loop
                invariant
                    0 <= si <= rule.selectors@.len(),
                    forall|j: int|
                        0 <= j < si ==> !sel_matches(*element, #[trigger] rule.selectors@[j]),
                ensures
                    si <= rule.selectors@.len(),
                    forall|j: int|
                        0 <= j < si ==> !sel_matches(*element, #[trigger] rule.selectors@[j]),
                    si == rule.selectors@.len() || sel_matches(
                        *element,
                        rule.selectors@[si as int],
                    ),
                decreases rule.selectors@.len() - si,
            {
                if si >= rule.selectors.len() {
                    break ;
                }
                if selector_matches(element, &rule.selectors[si]) {
                    break ;
                }
                si = si + 1;
            }
            if si < rule.selectors.len() {
                proof {
                    assert(rule_matches(*element, *rule));
                }
                let mut di: usize = 0;
                let ghost ds = rule.declarations@;
                proof {
                    assert(ds.subrange(0, ds.len() as int) =~= ds);
                }
                loop
                    invariant
                        0 <= di <= ds.len(),
                        ds == rule.declarations@,
                        decls_fold(ds.subrange(di as int, ds.len() as int), styles@) == decls_fold(
                            ds,
                            mbefore,
                        ),
                    ensures
                        styles@ == decls_fold(ds, mbefore),
                    decreases ds.len() - di,
                {
                    if di >= rule.declarations.len() {
                        proof {
                            assert(ds.subrange(di as int, ds.len() as int).len() == 0);
                        }
                        break ;
                    }
                    let d = &rule.declarations[di];
                    styles.insert(d.property.clone(), d.value.duplicate());
                    di = di + 1;
                    proof {
                        assert(ds.subrange(di as int - 1, ds.len() as int).drop_first()
                            =~= ds.subrange(di as int, ds.len() as int));
                        assert(ds.subrange(di as int - 1, ds.len() as int).first() == ds[di - 1]);
                    }
                }
            } else {
                proof {
                    if rule_matches(*element, *rule) {
                        assert(false);
                    }
                }
            }
            ri = ri + 1;
            proof {
                assert(rules.subrange(ri as int - 1, rules.len() as int).drop_first()
                    =~= rules.subrange(ri as int, rules.len() as int));
                assert(rules.subrange(ri as int - 1, rules.len() as int).first() == rules[ri - 1]);
            }
        }
        proof {
            assert(rules.subrange(rules.len() as int, rules.len() as int).len() == 0);
        }
        styles
    }

    /// The styled reading of a node: its resolved properties and, built
    /// recursively, its styled element children.
    pub fn new(node: &Node, stylesheet: &Stylesheet) -> (r: StyledNode)
        ensures
            styled_view(r) == spec_styled(*node, *stylesheet),
        decreases *node,
    {
        let mut style_children: Vec<StyledNode> = Vec::new();
        let mut i: usize = 0;
        proof {
            assert(styled_seq_view(style_children@) =~= Seq::<SStyled>::empty());
            assert(spec_styled_seq(node.children@.subrange(0, 0), *stylesheet) == Seq::<
                SStyled,
            >::empty());
        }
        loop
            invariant
                0 <= i <= node.children@.len(),
                styled_seq_view(style_children@) == spec_styled_seq(
                    node.children@.subrange(0, i as int),
                    *stylesheet,
                ),
            ensures
                i == node.children@.len(),
                styled_seq_view(style_children@) == spec_styled_seq(
                    node.children@.subrange(0, i as int),
                    *stylesheet,
                ),
            decreases node.children@.len() - i,
        {
            if i >= node.children.len() {
                break ;
            }
            let child = &node.children[i];
            let ghost cbefore = style_children@;
            let is_elem = match &child.node_type {
                NodeType::Element(_) => true,
                NodeType::Text(_) => false,
                NodeType::Comment(_) => false,
            };
            if is_elem {
                proof {
                    assert(decreases_to!(node => node.children));
                    assert(decreases_to!(node.children => node.children@));
                    assert(decreases_to!(node.children@ => node.children@[i as int]));
                }
                let styled = StyledNode::new(child, stylesheet);
                style_children.push(styled);
                proof {
                    assert(style_children@.drop_last() =~= cbefore);
                }
            }
            i = i + 1;
            proof {
                assert(node.children@.subrange(0, i as int).drop_last() =~= node.children@.subrange(
                    0,
                    i as int - 1,
                ));
                assert(node.children@.subrange(0, i as int).last() == node.children@[i - 1]);
            }
        }
        proof {
            assert(node.children@.subrange(0, node.children@.len() as int) =~= node.children@);
        }
        let styles = match &node.node_type {
            NodeType::Element(e) => StyledNode::get_styles(e, stylesheet),
            NodeType::Text(_) => PropertyMap::new(),
            NodeType::Comment(_) => PropertyMap::new(),
        };
        StyledNode { styles, children: style_children }
    }

    /// The value bound to `name`, if any.
    pub fn value(&self, name: &str) -> (r: Option<&Value>)
        ensures
            r is Some <==> self.spec_styles_of().contains_key(name@),
            r matches Some(v) ==> *v == self.spec_styles_of()[name@],
    {
        self.styles.get(name)
    }

    /// How this node is displayed, read from its `display` property.
    pub fn get_display(&self) -> (d: Display)
        ensures
            d == spec_display(self.spec_styles_of()),
    {
        match self.value("display") {
            Some(v) => {
                match v {
                    Value::Other(key) => {
                        if str_eq(key.as_str(), "block") {
                            Display::Block
                        } else if str_eq(key.as_str(), "none") {
                            Display::Hidden
                        } else if str_eq(key.as_str(), "inline-block") {
                            Display::InlineBlock
                        } else {
                            Display::Inline
                        }
                    },
                    Value::Length(_, _) => Display::Inline,
                }
            },
            None => Display::Inline,
        }
    }
}

} // verus!
