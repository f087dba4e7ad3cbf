//! The node tree a parse produces: elements with attributes and children,
//! text runs, and comments.

use vstd::prelude::*;

use crate::scan::{chars_to_string, cond_check, is_space, run_len, str_chars, Cond};

verus! {

/// Relies on `str`'s `==`: two string slices are equal exactly when their
/// character sequences are equal.
#[verifier::external_body]
pub fn str_eq(a: &str, b: &str) -> (r: bool)
    ensures
        r == (a@ == b@),
{
    a == b
}

/// An attribute list, read as a mapping from attribute name to value.
/// A repeated name keeps only its last occurrence.
pub struct AttrMap {
    pairs: Vec<(String, String)>,
}

/// The mapping described by a sequence of name/value pairs, later pairs
/// overriding earlier ones.
pub closed spec fn map_of(pairs: Seq<(String, String)>) -> Map<Seq<char>, Seq<char>>
    decreases pairs.len(),
{
    if pairs.len() == 0 {
        Map::empty()
    } else {
        map_of(pairs.drop_last()).insert(pairs.last().0@, pairs.last().1@)
    }
}

impl View for AttrMap {
    type V = Map<Seq<char>, Seq<char>>;

    closed spec fn view(&self) -> Map<Seq<char>, Seq<char>> {
        map_of(self.pairs@)
    }
}

proof fn lemma_map_of_found(pairs: Seq<(String, String)>, key: Seq<char>, i: int)
    requires
        0 <= i < pairs.len(),
        pairs[i].0@ == key,
        forall|j: int| i < j < pairs.len() ==> #[trigger] pairs[j].0@ != key,
    ensures
        map_of(pairs).contains_key(key),
        map_of(pairs)[key] == pairs[i].1@,
    decreases pairs.len(),
{
    if i == pairs.len() - 1 {
    } else {
        assert(pairs.drop_last()[i] == pairs[i]);
        lemma_map_of_found(pairs.drop_last(), key, i);
    }
}

proof fn lemma_map_of_absent(pairs: Seq<(String, String)>, key: Seq<char>)
    requires
        forall|j: int| 0 <= j < pairs.len() ==> #[trigger] pairs[j].0@ != key,
    ensures
        !map_of(pairs).contains_key(key),
    decreases pairs.len(),
{
    if pairs.len() > 0 {
        lemma_map_of_absent(pairs.drop_last(), key);
    }
}

impl AttrMap {
    /// An empty attribute map.
    pub fn new() -> (r: AttrMap)
        ensures
            r@ == Map::<Seq<char>, Seq<char>>::empty(),
    {
        AttrMap { pairs: Vec::new() }
    }

    /// Binds `name` to `value`, replacing any earlier binding of `name`.
    pub fn insert(&mut self, name: String, value: String)
        ensures
            final(self)@ == old(self)@.insert(name@, value@),
    {
        let ghost before = self.pairs@;
        let ghost k = name@;
        let ghost v = value@;
        self.pairs.push((name, value));
        proof {
            assert(self.pairs@.drop_last() =~= before);
            assert(self.pairs@.last().0@ == k);
            assert(map_of(self.pairs@) == map_of(before).insert(k, v));
        }
    }

    /// Looks `name` up: the bound value, or `None` when `name` is not bound.
    pub fn get(&self, name: &str) -> (r: Option<String>)
        ensures
            r is Some <==> self@.contains_key(name@),
            r is Some ==> r->Some_0@ == self@[name@],
    {
        let mut i: usize = self.pairs.len();
        while i > 0
            invariant
                i <= self.pairs@.len(),
                forall|j: int| i <= j < self.pairs@.len() ==> #[trigger] self.pairs@[j].0@ != name@,
            decreases i,
        {
            i = i - 1;
            if str_eq(self.pairs[i].0.as_str(), name) {
                proof {
                    lemma_map_of_found(self.pairs@, name@, i as int);
                }
                return Some(self.pairs[i].1.clone());
            }
        }
        proof {
            lemma_map_of_absent(self.pairs@, name@);
        }
        None
    }
}

/// What an element carries besides its children: its tag name, case
/// preserved as scanned, and its attributes.
pub struct ElementData {
    pub tag_name: String,
    pub attributes: AttrMap,
}

/// The tokens of `s`: its maximal whitespace-free runs, in order.
pub open spec fn split_tokens_from(s: Seq<char>, i: int) -> Seq<Seq<char>>
    decreases s.len() - i,
        when 0 <= i <= s.len()
    via split_tokens_from_dec
{
    if i >= s.len() {
        Seq::empty()
    } else if is_space(s[i]) {
        split_tokens_from(s, i + 1)
    } else {
        seq![s.subrange(i, i + run_len(s, i, Cond::NonSpace))].add(
            split_tokens_from(s, i + run_len(s, i, Cond::NonSpace)),
        )
    }
}

#[via_fn]
proof fn split_tokens_from_dec(s: Seq<char>, i: int) {
    if 0 <= i && i < s.len() && !is_space(s[i]) {
        crate::scan::lemma_run_len(s, i, Cond::NonSpace);
        assert(run_len(s, i, Cond::NonSpace) >= 1);
    }
}

/// The tokens of `s`: its maximal whitespace-free runs, in order.
pub open spec fn split_tokens(s: Seq<char>) -> Seq<Seq<char>> {
    split_tokens_from(s, 0)
}

/// The character sequences of a sequence of strings.
pub open spec fn strs_view(v: Seq<String>) -> Seq<Seq<char>> {
    v.map_values(|x: String| x@)
}

impl ElementData {
    /// An element head with the given tag name and attributes.
    pub fn new(tag_name: String, attributes: AttrMap) -> (r: ElementData)
        ensures
            r.tag_name == tag_name,
            r.attributes == attributes,
    {
        ElementData { tag_name, attributes }
    }

    /// The value of the attribute called `name`, if present.
    pub fn attribute(&self, name: &str) -> (r: Option<String>)
        ensures
            r is Some <==> self.attributes@.contains_key(name@),
            r is Some ==> r->Some_0@ == self.attributes@[name@],
    {
        self.attributes.get(name)
    }

    /// The value of the `id` attribute, if present.
    pub fn id(&self) -> (r: Option<String>)
        ensures
            r is Some <==> self.attributes@.contains_key("id"@),
            r is Some ==> r->Some_0@ == self.attributes@["id"@],
    {
        self.attributes.get("id")
    }
}

/// Splits a sequence of characters into its whitespace-separated tokens.
fn tokens_of(chars: &Vec<char>) -> (r: Vec<String>)
    ensures
        strs_view(r@) == split_tokens(chars@),
{
    let ghost s = chars@;
    let mut out: Vec<String> = Vec::new();
    let mut i: usize = 0;
    proof {
        assert(strs_view(out@) =~= Seq::<Seq<char>>::empty());
        assert(Seq::<Seq<char>>::empty() + split_tokens_from(s, 0) =~= split_tokens_from(s, 0));
    }
    loop
        invariant
            s == chars@,
            0 <= i <= s.len(),
            strs_view(out@) + split_tokens_from(s, i as int) == split_tokens(s),
        ensures
            i == s.len(),
            strs_view(out@) + split_tokens_from(s, i as int) == split_tokens(s),
        decreases s.len() - i,
    {
        if i >= chars.len() {
            break ;
        }
        let c = chars[i];
        if cond_check(Cond::Space, c) {
            i = i + 1;
        } else {
            let ghost start = i as int;
            let mut tok: Vec<char> = Vec::new();
            loop
                invariant
                    s == chars@,
                    start <= i <= s.len(),
                    tok@.len() == i - start,
                    forall|j: int| start <= j < i ==> tok@[j - start] == s[j],
                    run_len(s, start, Cond::NonSpace) == (i - start) + run_len(
                        s,
                        i as int,
                        Cond::NonSpace,
                    ),
                ensures
                    s == chars@,
                    start <= i <= s.len(),
                    tok@.len() == i - start,
                    forall|j: int| start <= j < i ==> tok@[j - start] == s[j],
                    i as int == start + run_len(s, start, Cond::NonSpace),
                decreases s.len() - i,
            {
                if i >= chars.len() {
                    proof {
                        assert(run_len(s, i as int, Cond::NonSpace) == 0);
                    }
                    break ;
                }
                let c2 = chars[i];
                if cond_check(Cond::Space, c2) {
                    proof {
                        assert(run_len(s, i as int, Cond::NonSpace) == 0);
                    }
                    break ;
                }
                tok.push(c2);
                i = i + 1;
            }
            proof {
                assert(tok@ =~= s.subrange(start, i as int));
            }
            let ghost obefore = out@;
            out.push(chars_to_string(&tok));
            proof {
                lemma_strs_view(obefore);
                lemma_strs_view(out@);
                assert(strs_view(out@) =~= strs_view(obefore).push(tok@));
                assert(split_tokens_from(s, start) == seq![tok@] + split_tokens_from(s, i as int));
                assert(strs_view(obefore).push(tok@) + split_tokens_from(s, i as int) =~= strs_view(
                    obefore,
                ) + (seq![tok@] + split_tokens_from(s, i as int)));
            }
        }
    }
    proof {
        assert(split_tokens_from(s, i as int) =~= Seq::<Seq<char>>::empty());
        assert(strs_view(out@) + Seq::<Seq<char>>::empty() =~= strs_view(out@));
    }
    out
}

impl ElementData {
    /// The value of the `class` attribute, or nothing where it is absent.
    pub open spec fn class_value(self) -> Seq<char> {
        if self.attributes@.contains_key("class"@) {
            self.attributes@["class"@]
        } else {
            Seq::empty()
        }
    }

    /// The class tokens of the element: the `class` attribute value split
    /// on whitespace; no tokens where the attribute is absent.
    pub fn classes(&self) -> (r: Vec<String>)
        ensures
            strs_view(r@) == split_tokens(self.class_value()),
    {
        let cv = self.attributes.get("class");
        match cv {
            Some(v) => tokens_of(&str_chars(v.as_str())),
            None => {
                let r: Vec<String> = Vec::new();
                proof {
                    assert(strs_view(r@) =~= Seq::<Seq<char>>::empty());
                    assert(split_tokens_from(Seq::<char>::empty(), 0) == Seq::<Seq<char>>::empty());
                }
                r
            },
        }
    }
}

/// Whether one of the strings reads as the given token.
pub fn contains_token(v: &Vec<String>, t: &String) -> (r: bool)
    ensures
        r == strs_view(v@).contains(t@),
{
    let mut i: usize = 0;
    proof {
        lemma_strs_view(v@);
    }
    loop
        invariant
            0 <= i <= v@.len(),
            forall|j: int| 0 <= j < i ==> strs_view(v@)[j] != t@,
            strs_view(v@).len() == v@.len(),
            forall|j: int| 0 <= j < v@.len() ==> strs_view(v@)[j] == #[trigger] v@[j]@,
        ensures
            i <= v@.len(),
            forall|j: int| 0 <= j < i ==> strs_view(v@)[j] != t@,
            i == v@.len() || strs_view(v@)[i as int] == t@,
        decreases v@.len() - i,
    {
        if i >= v.len() {
            break ;
        }
        if str_eq(v[i].as_str(), t.as_str()) {
            break ;
        }
        i = i + 1;
    }
    i < v.len()
}

/// One node of the tree: an element head, a text run, or a comment.
pub enum NodeType {
    Element(ElementData),
    Text(String),
    Comment(String),
}

/// A node together with the ordered children it exclusively owns.
pub struct Node {
    pub node_type: NodeType,
    pub children: Vec<Node>,
}

impl Node {
    /// A node of the given kind with the given children.
    pub fn new(node_type: NodeType, children: Vec<Node>) -> (r: Node)
        ensures
            r.node_type == node_type,
            r.children == children,
    {
        Node { node_type, children }
    }
}

/// The mathematical reading of a node: names, attribute maps and contents
/// as sequences and maps.
pub ghost enum SNode {
    Elem { name: Seq<char>, attrs: Map<Seq<char>, Seq<char>>, kids: Seq<SNode> },
    Text { text: Seq<char> },
    Comment { text: Seq<char> },
}

/// The mathematical reading of a node.
pub open spec fn node_view(n: Node) -> SNode
    decreases n,
    via node_view_dec
{
    match n.node_type {
        NodeType::Element(e) => SNode::Elem {
            name: e.tag_name@,
            attrs: e.attributes@,
            kids: nodes_view(n.children@),
        },
        NodeType::Text(t) => SNode::Text { text: t@ },
        NodeType::Comment(t) => SNode::Comment { text: t@ },
    }
}

/// The mathematical reading of a sequence of sibling nodes.
pub open spec fn nodes_view(s: Seq<Node>) -> Seq<SNode>
    decreases s,
{
    if s.len() == 0 {
        Seq::empty()
    } else {
        nodes_view(s.drop_last()).push(node_view(s.last()))
    }
}

#[via_fn]
proof fn node_view_dec(n: Node) {
    assert(decreases_to!(n => n.children));
    assert(decreases_to!(n.children => n.children@));
}

/// Views of strings: length and elements.
pub proof fn lemma_strs_view(v: Seq<String>)
    ensures
        strs_view(v).len() == v.len(),
        forall|i: int| 0 <= i < v.len() ==> strs_view(v)[i] == #[trigger] v[i]@,
{
}

/// The view of siblings followed by more siblings is the two views, joined.
pub proof fn lemma_nodes_view_add(a: Seq<Node>, b: Seq<Node>)
    ensures
        nodes_view(a + b) == nodes_view(a) + nodes_view(b),
    decreases b.len(),
{
    if b.len() == 0 {
        assert(a + b =~= a);
        assert(nodes_view(a) + nodes_view(b) =~= nodes_view(a));
    } else {
        assert((a + b).drop_last() =~= a + b.drop_last());
        assert((a + b).last() == b.last());
        lemma_nodes_view_add(a, b.drop_last());
        assert(nodes_view(a) + nodes_view(b) =~= (nodes_view(a) + nodes_view(b.drop_last())).push(
            node_view(b.last()),
        ));
    }
}

/// The view of siblings with one more node appended.
pub proof fn lemma_nodes_view_push(s: Seq<Node>, n: Node)
    ensures
        nodes_view(s.push(n)) == nodes_view(s).push(node_view(n)),
{
    assert(s.push(n).drop_last() =~= s);
    assert(s.push(n).last() == n);
}

/// Inserting a node between two stretches of siblings inserts its view
/// between their views.
pub proof fn lemma_nodes_view_insert_mid(a: Seq<Node>, b: Seq<Node>, n: Node)
    ensures
        nodes_view((a + b).insert(a.len() as int, n)) == nodes_view(a) + seq![node_view(n)]
            + nodes_view(b),
{
    assert((a + b).insert(a.len() as int, n) =~= (a + seq![n]) + b);
    lemma_nodes_view_add(a + seq![n], b);
    lemma_nodes_view_add(a, seq![n]);
    assert(seq![n].drop_last() =~= Seq::<Node>::empty());
    assert(seq![n].last() == n);
    assert(nodes_view(Seq::<Node>::empty()) == Seq::<SNode>::empty());
    assert(nodes_view(seq![n]) =~= Seq::<SNode>::empty().push(node_view(n)));
    assert(nodes_view(seq![n]) =~= seq![node_view(n)]);
}

} // verus!
