//! The document tree: nodes, elements, text, and the attribute mapping.

use vstd::prelude::*;

use crate::cssom::{Selector, SelectorView};
use crate::strmap::{
    assoc_map, lemma_assoc_map_dom, lemma_assoc_map_ext, lemma_assoc_map_index,
    lemma_assoc_map_len, lemma_assoc_map_push, lemma_assoc_map_update, unique_keys,
};
use crate::text::str_eq;

verus! {

/// The pairs of an attribute list, read at the character level.
pub open spec fn string_pairs(s: Seq<(String, String)>) -> Seq<(Seq<char>, Seq<char>)> {
    s.map_values(|p: (String, String)| (p.0@, p.1@))
}

/// An element's attributes: a mapping from attribute names to values with
/// pairwise-distinct names.
#[derive(Debug)]
pub struct AttrMap {
    entries: Vec<(String, String)>,
}

impl View for AttrMap {
    type V = Map<Seq<char>, Seq<char>>;

    closed spec fn view(&self) -> Map<Seq<char>, Seq<char>> {
        assoc_map(string_pairs(self.entries@))
    }
}

impl AttrMap {
    #[verifier::type_invariant]
    spec fn wf(self) -> bool {
        unique_keys(string_pairs(self.entries@))
    }

    /// The empty attribute mapping.
    pub fn new() -> (m: AttrMap)
        ensures
            m@ == Map::<Seq<char>, Seq<char>>::empty(),
    {
        let m = AttrMap { entries: Vec::new() };
        proof {
            assert(string_pairs(m.entries@) =~= Seq::<(Seq<char>, Seq<char>)>::empty());
        }
        m
    }

    /// How many attributes are recorded.
    pub fn len(&self) -> (n: usize)
        ensures
            n == self@.dom().len(),
    {
        proof {
            use_type_invariant(&*self);
            lemma_assoc_map_len(string_pairs(self.entries@));
        }
        self.entries.len()
    }

    /// Record `value` under `key`, replacing any earlier value for it.
    pub fn insert(&mut self, key: String, value: String)
        ensures
            final(self)@ == old(self)@.insert(key@, value@),
    {
        proof {
            use_type_invariant(&*self);
        }
        let mut entries: Vec<(String, String)> = Vec::new();
        core::mem::swap(&mut entries, &mut self.entries);
        let ghost s0 = string_pairs(entries@);
        let n = entries.len();
        let mut i: usize = 0;
        while i < n
            invariant
                n == entries@.len(),
                i <= n,
                string_pairs(entries@) == s0,
                unique_keys(s0),
                old(self)@ == assoc_map(s0),
                forall|j: int| 0 <= j < i ==> s0[j].0 != key@,
            decreases n - i,
        {
            if str_eq(entries[i].0.as_str(), key.as_str()) {
                proof {
                    assert(s0[i as int] == (entries@[i as int].0@, entries@[i as int].1@));
                    assert(s0[i as int].0 == key@);
                    lemma_assoc_map_update(s0, i as int, value@);
                }
                entries.set(i, (key, value));
                proof {
                    assert(string_pairs(entries@) =~= s0.update(i as int, (s0[i as int].0, value@)));
                    assert(unique_keys(string_pairs(entries@)));
                }
                self.entries = entries;
                return ;
            }
            i = i + 1;
        }
        proof {
            lemma_assoc_map_push(s0, key@, value@);
        }
        entries.push((key, value));
        proof {
            assert(string_pairs(entries@) =~= s0.push((key@, value@)));
            assert(unique_keys(string_pairs(entries@)));
        }
        self.entries = entries;
    }

    /// An attribute-for-attribute copy of this mapping.
    pub fn duplicate(&self) -> (r: AttrMap)
        ensures
            r@ == self@,
    {
        proof {
            use_type_invariant(&*self);
        }
        let ghost s = string_pairs(self.entries@);
        let n = self.entries.len();
        let mut entries: Vec<(String, String)> = Vec::new();
        let mut i: usize = 0;
        while i < n
            invariant
                n == self.entries@.len(),
                i <= n,
                s == string_pairs(self.entries@),
                entries@.len() == i,
                string_pairs(entries@) == s.subrange(0, i as int),
            decreases n - i,
        {
            entries.push((self.entries[i].0.clone(), self.entries[i].1.clone()));
            proof {
                assert(string_pairs(entries@) =~= s.subrange(0, i + 1 as int));
            }
            i = i + 1;
        }
        proof {
            assert(s.subrange(0, n as int) =~= s);
        }
        let r = AttrMap { entries };
        r
    }

    /// Look an attribute up by name.
    pub fn get(&self, key: &str) -> (r: Option<&String>)
        ensures
            match r {
                Some(v) => self@.contains_key(key@) && v@ == self@[key@],
                None => !self@.contains_key(key@),
            },
    {
        proof {
            use_type_invariant(&*self);
        }
        let ghost s = string_pairs(self.entries@);
        let n = self.entries.len();
        let mut i: usize = 0;
        while i < n
            invariant
                n == self.entries@.len(),
                i <= n,
                s == string_pairs(self.entries@),
                unique_keys(s),
                forall|j: int| 0 <= j < i ==> s[j].0 != key@,
            decreases n - i,
        {
            if str_eq(self.entries[i].0.as_str(), key) {
                proof {
                    lemma_assoc_map_index(s, i as int);
                }
                return Some(&self.entries[i].1);
            }
            i = i + 1;
        }
        proof {
            lemma_assoc_map_dom(s);
        }
        None
    }
}

impl PartialEq for AttrMap {
    /// Attribute mappings are equal when they record the same names with
    /// the same values, whatever the storage order.
    fn eq(&self, other: &AttrMap) -> (r: bool) {
        proof {
            use_type_invariant(&*self);
            use_type_invariant(&*other);
        }
        let ghost s1 = string_pairs(self.entries@);
        let ghost s2 = string_pairs(other.entries@);
        if self.entries.len() != other.entries.len() {
            proof {
                lemma_assoc_map_len(s1);
                lemma_assoc_map_len(s2);
            }
            return false;
        }
        let n = self.entries.len();
        let mut i: usize = 0;
        while i < n
            invariant
                n == self.entries@.len(),
                i <= n,
                s1 == string_pairs(self.entries@),
                s2 == string_pairs(other.entries@),
                unique_keys(s1),
                unique_keys(s2),
                s1.len() == s2.len(),
                forall|j: int|
                    0 <= j < i ==> assoc_map(s2).contains_key(s1[j].0) && assoc_map(s2)[s1[j].0]
                        == s1[j].1,
            decreases n - i,
        {
            match other.get(self.entries[i].0.as_str()) {
                None => {
                    proof {
                        lemma_assoc_map_index(s1, i as int);
                    }
                    return false;
                },
                Some(v2) => {
                    if !str_eq(self.entries[i].1.as_str(), v2.as_str()) {
                        proof {
                            lemma_assoc_map_index(s1, i as int);
                        }
                        return false;
                    }
                },
            }
            i = i + 1;
        }
        proof {
            lemma_assoc_map_ext(s1, s2);
        }
        true
    }
}

impl vstd::std_specs::cmp::PartialEqSpecImpl for AttrMap {
    open spec fn obeys_eq_spec() -> bool {
        true
    }

    open spec fn eq_spec(&self, other: &AttrMap) -> bool {
        self@ == other@
    }
}

/// A document node: its kind plus its ordered children.
#[derive(Debug, PartialEq)]
pub struct Node {
    pub node_type: NodeType,
    pub children: Vec<Box<Node>>,
}

/// The kind of a document node.
#[derive(Debug, PartialEq)]
pub enum NodeType {
    Element(Element),
    Text(Text),
}

/// An element: a tag name and its attributes.
#[derive(Debug, PartialEq)]
pub struct Element {
    pub tag_name: String,
    pub attributes: AttrMap,
}

/// A text node's payload.
#[derive(Debug, PartialEq)]
pub struct Text {
    pub data: String,
}

/// Mathematical view of a node kind.
pub enum NodeTypeView {
    Element { tag_name: Seq<char>, attributes: Map<Seq<char>, Seq<char>> },
    Text { data: Seq<char> },
}

/// Mathematical view of a document node.
pub struct NodeView {
    pub node_type: NodeTypeView,
    pub children: Seq<NodeView>,
}

impl View for NodeType {
    type V = NodeTypeView;

    open spec fn view(&self) -> NodeTypeView {
        match self {
            NodeType::Element(e) => NodeTypeView::Element {
                tag_name: e.tag_name@,
                attributes: e.attributes@,
            },
            NodeType::Text(t) => NodeTypeView::Text { data: t.data@ },
        }
    }
}

/// The view of a whole document node, children included.
pub open spec fn node_view(n: Node) -> NodeView
    decreases n,
{
    NodeView { node_type: n.node_type@, children: nodes_view(n.children@) }
}

/// The views of a sequence of boxed nodes.
pub open spec fn nodes_view(s: Seq<Box<Node>>) -> Seq<NodeView>
    decreases s,
{
    if s.len() == 0 {
        Seq::empty()
    } else {
        nodes_view(s.drop_last()).push(node_view(*s.last()))
    }
}

/// The views grow index by index.
pub proof fn lemma_nodes_view_index(s: Seq<Box<Node>>, i: int)
    requires
        0 <= i < s.len(),
    ensures
        nodes_view(s).len() == s.len(),
        nodes_view(s)[i] == node_view(*s[i]),
    decreases s.len(),
{
    if s.len() > 0 {
        lemma_nodes_view_len(s.drop_last());
        if i < s.len() - 1 {
            lemma_nodes_view_index(s.drop_last(), i);
            assert(s.drop_last()[i] == s[i]);
        }
    }
}

/// A node sequence and its view have the same length.
pub proof fn lemma_nodes_view_len(s: Seq<Box<Node>>)
    ensures
        nodes_view(s).len() == s.len(),
    decreases s.len(),
{
    if s.len() > 0 {
        lemma_nodes_view_len(s.drop_last());
    }
}

/// The direct children of the node sequence that the selector matches,
/// in order.
pub open spec fn spec_select_direct(cs: Seq<NodeView>, sel: SelectorView) -> Seq<NodeView>
    decreases cs.len(),
{
    if cs.len() == 0 {
        Seq::empty()
    } else {
        spec_select_direct(cs.drop_last(), sel) + if crate::cssom::spec_matches(
            sel,
            cs.last().node_type,
        ) {
            seq![cs.last()]
        } else {
            Seq::empty()
        }
    }
}

/// All matching nodes found below each of the given nodes, in order.
pub open spec fn spec_select_rec(cs: Seq<NodeView>, sel: SelectorView) -> Seq<NodeView>
    decreases cs,
{
    if cs.len() == 0 {
        Seq::empty()
    } else {
        spec_select_rec(cs.drop_last(), sel) + spec_select(cs.last(), sel)
    }
}

/// The nodes below `n` (excluding `n` itself) that the selector matches:
/// first `n`'s own matching children, then the matches found below each
/// child in turn.
pub open spec fn spec_select(n: NodeView, sel: SelectorView) -> Seq<NodeView>
    decreases n,
{
    spec_select_direct(n.children, sel) + spec_select_rec(n.children, sel)
}

/// Collect the nodes below `node` that the selector matches.
pub fn select<'a>(node: &'a Node, selector: &'a Selector) -> (r: Vec<&'a Box<Node>>)
    ensures
        r@.map_values(|b: &Box<Node>| node_view(**b)) == spec_select(node_view(*node), selector@),
    decreases *node,
{
    let ghost nv = node_view(*node);
    let mut out: Vec<&'a Box<Node>> = Vec::new();
    let n = node.children.len();
    proof {
        lemma_nodes_view_len(node.children@);
    }
    let mut i: usize = 0;
    while i < n
        invariant
            n == node.children@.len(),
            i <= n,
            nv == node_view(*node),
            nv.children == nodes_view(node.children@),
            nv.children.len() == n,
            out@.map_values(|b: &Box<Node>| node_view(**b)) == spec_select_direct(
                nv.children.subrange(0, i as int),
                selector@,
            ),
        decreases n - i,
    {
        proof {
            lemma_nodes_view_index(node.children@, i as int);
            assert(nv.children.subrange(0, i + 1 as int).drop_last() =~= nv.children.subrange(
                0,
                i as int,
            ));
            assert(nv.children.subrange(0, i + 1 as int).last() == nv.children[i as int]);
        }
        let child = &node.children[i];
        if selector.matches(child) {
            out.push(child);
            proof {
                assert(out@.map_values(|b: &Box<Node>| node_view(**b)) =~= spec_select_direct(
                    nv.children.subrange(0, i + 1 as int),
                    selector@,
                ));
            }
        } else {
            proof {
                assert(out@.map_values(|b: &Box<Node>| node_view(**b)) =~= spec_select_direct(
                    nv.children.subrange(0, i + 1 as int),
                    selector@,
                ));
            }
        }
        i = i + 1;
    }
    proof {
        assert(nv.children.subrange(0, n as int) =~= nv.children);
    }
    let mut i: usize = 0;
    while i < n
        invariant
            n == node.children@.len(),
            i <= n,
            nv == node_view(*node),
            nv.children == nodes_view(node.children@),
            nv.children.len() == n,
            out@.map_values(|b: &Box<Node>| node_view(**b)) == spec_select_direct(
                nv.children,
                selector@,
            ) + spec_select_rec(nv.children.subrange(0, i as int), selector@),
        decreases n - i,
    {
        proof {
            lemma_nodes_view_index(node.children@, i as int);
            assert(nv.children.subrange(0, i + 1 as int).drop_last() =~= nv.children.subrange(
                0,
                i as int,
            ));
            assert(nv.children.subrange(0, i + 1 as int).last() == nv.children[i as int]);
        }
        let mut sub = select(&node.children[i], selector);
        let ghost sub_views = sub@.map_values(|b: &Box<Node>| node_view(**b));
        let ghost pre_views = out@.map_values(|b: &Box<Node>| node_view(**b));
        proof {
            assert(sub_views == spec_select(nv.children[i as int], selector@));
        }
        out.append(&mut sub);
        proof {
            assert(out@.map_values(|b: &Box<Node>| node_view(**b)) =~= pre_views + sub_views);
            assert(out@.map_values(|b: &Box<Node>| node_view(**b)) =~= spec_select_direct(
                nv.children,
                selector@,
            ) + spec_select_rec(nv.children.subrange(0, i + 1 as int), selector@));
        }
        i = i + 1;
    }
    proof {
        assert(nv.children.subrange(0, n as int) =~= nv.children);
    }
    out
}

impl NodeType {
    /// A copy of this node kind with the same view.
    pub fn duplicate(&self) -> (r: NodeType)
        ensures
            r@ == self@,
    {
        match self {
            NodeType::Element(e) => NodeType::Element(
                Element { tag_name: e.tag_name.clone(), attributes: e.attributes.duplicate() },
            ),
            NodeType::Text(t) => NodeType::Text(Text { data: t.data.clone() }),
        }
    }
}

impl Node {
    /// The payload of a text node; elements carry no text of their own.
    pub fn to_text(&self) -> (r: Option<String>)
        ensures
            match r {
                Some(s) => match self.node_type@ {
                    NodeTypeView::Text { data } => s@ == data,
                    NodeTypeView::Element { .. } => false,
                },
                None => self.node_type@ is Element,
            },
    {
        match &self.node_type {
            NodeType::Element { .. } => None,
            NodeType::Text(Text { data }) => Some(data.clone()),
        }
    }
}

impl Element {
    /// Build an element node that owns the given children.
    pub fn new(tag_name: String, attributes: AttrMap, children: Vec<Box<Node>>) -> (n: Box<Node>)
        ensures
            node_view(*n) == (NodeView {
                node_type: NodeTypeView::Element { tag_name: tag_name@, attributes: attributes@ },
                children: nodes_view(children@),
            }),
    {
        Box::new(Node { node_type: NodeType::Element(Element { tag_name, attributes }), children })
    }
}

impl Text {
    /// Build a childless text node.
    pub fn new(data: String) -> (n: Box<Node>)
        ensures
            node_view(*n) == (NodeView {
                node_type: NodeTypeView::Text { data: data@ },
                children: Seq::<NodeView>::empty(),
            }),
    {
        let n = Box::new(Node { node_type: NodeType::Text(Text { data }), children: Vec::new() });
        proof {
            assert(nodes_view(n.children@) =~= Seq::<NodeView>::empty());
        }
        n
    }
}

} // verus!
