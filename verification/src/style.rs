//! Style resolution: match rules against each document node, cascade the
//! matched declarations by specificity, fill in user-agent defaults, and
//! prune `display: none` subtrees.

use vstd::prelude::*;

use crate::cssom::{
    spec_rule_matches, spec_specificity, CSSValue, CssValueView, DeclarationView, RuleView,
    SelectorView, Stylesheet,
};
use crate::dom::{
    lemma_nodes_view_index, lemma_nodes_view_len, node_view, nodes_view, Node, NodeType,
    NodeTypeView, NodeView,
};
use crate::strmap::{
    assoc_map, lemma_assoc_map_dom, lemma_assoc_map_ext, lemma_assoc_map_index,
    lemma_assoc_map_len, lemma_assoc_map_map_values, lemma_assoc_map_push,
    lemma_assoc_map_update, unique_keys,
};
use crate::text::str_eq;

verus! {

/// Properties resolved so far for one node, each with the specificity
/// that recorded it.
pub type ScoredProps = Map<Seq<char>, (u32, CssValueView)>;

/// One declaration folded into the scored map: a property already
/// recorded is overwritten only when the candidate specificity is at
/// least as large, so that ties favour the later declaration.
pub open spec fn spec_apply_declaration(
    m: ScoredProps,
    sel: SelectorView,
    d: DeclarationView,
) -> ScoredProps {
    if m.contains_key(d.name) {
        if m[d.name].0 <= spec_specificity(sel) {
            m.insert(d.name, (spec_specificity(sel), d.value))
        } else {
            m
        }
    } else {
        m.insert(d.name, (spec_specificity(sel), d.value))
    }
}

/// How many selector/declaration pairs a rule yields: the lists are
/// paired positionally and the longer one's tail is ignored.
pub open spec fn pair_count(r: RuleView) -> int {
    if r.selectors.len() <= r.declarations.len() {
        r.selectors.len() as int
    } else {
        r.declarations.len() as int
    }
}

/// The first `k` selector/declaration pairs of a rule folded in order.
pub open spec fn spec_apply_pairs_upto(
    m: ScoredProps,
    sels: Seq<SelectorView>,
    decls: Seq<DeclarationView>,
    k: int,
) -> ScoredProps
    decreases k,
{
    if k <= 0 {
        m
    } else {
        spec_apply_declaration(
            spec_apply_pairs_upto(m, sels, decls, k - 1),
            sels[k - 1],
            decls[k - 1],
        )
    }
}

/// A whole rule folded in: only when it matches the node.
pub open spec fn spec_apply_rule(m: ScoredProps, r: RuleView, nt: NodeTypeView) -> ScoredProps {
    if spec_rule_matches(r, nt) {
        spec_apply_pairs_upto(m, r.selectors, r.declarations, pair_count(r))
    } else {
        m
    }
}

/// The first `k` rules of the stylesheet folded in document order.
pub open spec fn spec_cascade_upto(rules: Seq<RuleView>, nt: NodeTypeView, k: int) -> ScoredProps
    decreases k,
{
    if k <= 0 {
        Map::empty()
    } else {
        spec_apply_rule(spec_cascade_upto(rules, nt, k - 1), rules[k - 1], nt)
    }
}

/// Tags whose user-agent default display is `none`.
pub open spec fn spec_display_none_tag(tag: Seq<char>) -> bool {
    ||| tag == "area"@
    ||| tag == "base"@
    ||| tag == "basefont"@
    ||| tag == "datalist"@
    ||| tag == "head"@
    ||| tag == "link"@
    ||| tag == "meta"@
    ||| tag == "noembed"@
    ||| tag == "noframes"@
    ||| tag == "param"@
    ||| tag == "rp"@
    ||| tag == "script"@
    ||| tag == "style"@
    ||| tag == "template"@
    ||| tag == "title"@
}

/// Tags whose user-agent default font weight is `bold`.
pub open spec fn spec_bold_tag(tag: Seq<char>) -> bool {
    tag == "b"@ || tag == "strong"@
}

/// User-agent defaults: an element that has no author `display` or
/// `font-weight` receives the tag-dependent fallback; text nodes receive
/// none.
pub open spec fn spec_with_defaults(m: ScoredProps, nt: NodeTypeView) -> ScoredProps {
    match nt {
        NodeTypeView::Element { tag_name, .. } => {
            let m1 = if !m.contains_key("display"@) {
                m.insert(
                    "display"@,
                    (
                        0u32,
                        CssValueView::Keyword(
                            if spec_display_none_tag(tag_name) {
                                "none"@
                            } else {
                                "block"@
                            },
                        ),
                    ),
                )
            } else {
                m
            };
            if !m1.contains_key("font-weight"@) {
                m1.insert(
                    "font-weight"@,
                    (
                        0u32,
                        CssValueView::Keyword(
                            if spec_bold_tag(tag_name) {
                                "bold"@
                            } else {
                                "normal"@
                            },
                        ),
                    ),
                )
            } else {
                m1
            }
        },
        NodeTypeView::Text { .. } => m,
    }
}

/// The fully resolved scored properties of one node.
pub open spec fn spec_scored_props(nt: NodeTypeView, rules: Seq<RuleView>) -> ScoredProps {
    spec_with_defaults(spec_cascade_upto(rules, nt, rules.len() as int), nt)
}

/// The resolved property map of one node, specificities stripped.
pub open spec fn spec_props(nt: NodeTypeView, rules: Seq<RuleView>) -> Map<
    Seq<char>,
    CssValueView,
> {
    spec_scored_props(nt, rules).map_values(|p: (u32, CssValueView)| p.1)
}

/// A node is pruned exactly when its resolved `display` is `none`.
pub open spec fn spec_pruned(nt: NodeTypeView, rules: Seq<RuleView>) -> bool {
    let m = spec_scored_props(nt, rules);
    m.contains_key("display"@) && m["display"@].1 == CssValueView::Keyword("none"@)
}

/// Mathematical view of a styled node.
pub struct StyledNodeView {
    pub node_type: NodeTypeView,
    pub children: Seq<StyledNodeView>,
    pub properties: Map<Seq<char>, CssValueView>,
}

/// Style resolution of one node: `None` when the node is pruned, else
/// the node's kind, its resolved properties, and its non-pruned children
/// in order.
pub open spec fn spec_resolve(n: NodeView, rules: Seq<RuleView>) -> Option<StyledNodeView>
    decreases n,
{
    if spec_pruned(n.node_type, rules) {
        None
    } else {
        Some(
            StyledNodeView {
                node_type: n.node_type,
                properties: spec_props(n.node_type, rules),
                children: spec_resolve_children(n.children, rules),
            },
        )
    }
}

/// The resolutions of a node sequence with the pruned ones left out.
pub open spec fn spec_resolve_children(cs: Seq<NodeView>, rules: Seq<RuleView>) -> Seq<
    StyledNodeView,
>
    decreases cs,
{
    if cs.len() == 0 {
        Seq::empty()
    } else {
        spec_resolve_children(cs.drop_last(), rules) + match spec_resolve(cs.last(), rules) {
            Some(s) => seq![s],
            None => Seq::empty(),
        }
    }
}

/// The pairs of a resolved property list, read at the character level.
pub open spec fn value_pairs(s: Seq<(String, CSSValue)>) -> Seq<(Seq<char>, CssValueView)> {
    s.map_values(|p: (String, CSSValue)| (p.0@, p.1@))
}

/// A resolved property mapping: property names to keyword values, names
/// pairwise distinct.
#[derive(Debug)]
pub struct PropertyMap {
    entries: Vec<(String, CSSValue)>,
}

impl View for PropertyMap {
    type V = Map<Seq<char>, CssValueView>;

    closed spec fn view(&self) -> Map<Seq<char>, CssValueView> {
        assoc_map(value_pairs(self.entries@))
    }
}

/// A copy of a keyword value with the same view.
fn clone_css_value(v: &CSSValue) -> (r: CSSValue)
    ensures
        r@ == v@,
{
    match v {
        CSSValue::Keyword(s) => CSSValue::Keyword(s.clone()),
    }
}

/// Whether two keyword values are the same.
fn css_value_eq(a: &CSSValue, b: &CSSValue) -> (r: bool)
    ensures
        r == (a@ == b@),
{
    match (a, b) {
        (CSSValue::Keyword(x), CSSValue::Keyword(y)) => str_eq(x.as_str(), y.as_str()),
    }
}

impl PropertyMap {
    #[verifier::type_invariant]
    spec fn wf(self) -> bool {
        unique_keys(value_pairs(self.entries@))
    }

    /// The empty property mapping.
    pub fn new() -> (m: PropertyMap)
        ensures
            m@ == Map::<Seq<char>, CssValueView>::empty(),
    {
        let m = PropertyMap { entries: Vec::new() };
        proof {
            assert(value_pairs(m.entries@) =~= Seq::<(Seq<char>, CssValueView)>::empty());
        }
        m
    }

    /// How many properties are recorded.
    pub fn len(&self) -> (n: usize)
        ensures
            n == self@.dom().len(),
    {
        proof {
            use_type_invariant(&*self);
            lemma_assoc_map_len(value_pairs(self.entries@));
        }
        self.entries.len()
    }

    /// Record `value` under `name`, replacing any earlier value for it.
    pub fn insert(&mut self, name: String, value: CSSValue)
        ensures
            final(self)@ == old(self)@.insert(name@, value@),
    {
        proof {
            use_type_invariant(&*self);
        }
        let mut entries: Vec<(String, CSSValue)> = Vec::new();
        core::mem::swap(&mut entries, &mut self.entries);
        let ghost s0 = value_pairs(entries@);
        let n = entries.len();
        let mut i: usize = 0;
        while i < n
            invariant
                n == entries@.len(),
                i <= n,
                value_pairs(entries@) == s0,
                unique_keys(s0),
                old(self)@ == assoc_map(s0),
                forall|j: int| 0 <= j < i ==> s0[j].0 != name@,
            decreases n - i,
        {
            if str_eq(entries[i].0.as_str(), name.as_str()) {
                proof {
                    assert(s0[i as int] == (entries@[i as int].0@, entries@[i as int].1@));
                    lemma_assoc_map_update(s0, i as int, value@);
                }
                entries.set(i, (name, value));
                proof {
                    assert(value_pairs(entries@) =~= s0.update(i as int, (s0[i as int].0, value@)));
                    assert(unique_keys(value_pairs(entries@)));
                }
                self.entries = entries;
                return ;
            }
            i = i + 1;
        }
        proof {
            lemma_assoc_map_push(s0, name@, value@);
        }
        entries.push((name, value));
        proof {
            assert(value_pairs(entries@) =~= s0.push((name@, value@)));
            assert(unique_keys(value_pairs(entries@)));
        }
        self.entries = entries;
    }

    /// Look a property up by name.
    pub fn get(&self, name: &str) -> (r: Option<&CSSValue>)
        ensures
            match r {
                Some(v) => self@.contains_key(name@) && v@ == self@[name@],
                None => !self@.contains_key(name@),
            },
    {
        proof {
            use_type_invariant(&*self);
        }
        let ghost s = value_pairs(self.entries@);
        let n = self.entries.len();
        let mut i: usize = 0;
        while i < n
            invariant
                n == self.entries@.len(),
                i <= n,
                s == value_pairs(self.entries@),
                unique_keys(s),
                forall|j: int| 0 <= j < i ==> s[j].0 != name@,
            decreases n - i,
        {
            if str_eq(self.entries[i].0.as_str(), name) {
                proof {
                    lemma_assoc_map_index(s, i as int);
                }
                return Some(&self.entries[i].1);
            }
            i = i + 1;
        }
        proof {
            lemma_assoc_map_dom(s);
        }
        None
    }
}

impl PartialEq for PropertyMap {
    /// Property mappings are equal when they record the same names with
    /// the same values, whatever the storage order.
    fn eq(&self, other: &PropertyMap) -> (r: bool) {
        proof {
            use_type_invariant(&*self);
            use_type_invariant(&*other);
        }
        let ghost s1 = value_pairs(self.entries@);
        let ghost s2 = value_pairs(other.entries@);
        if self.entries.len() != other.entries.len() {
            proof {
                lemma_assoc_map_len(s1);
                lemma_assoc_map_len(s2);
            }
            return false;
        }
        let n = self.entries.len();
        let mut i: usize = 0;
        while i < n
            invariant
                n == self.entries@.len(),
                i <= n,
                s1 == value_pairs(self.entries@),
                s2 == value_pairs(other.entries@),
                unique_keys(s1),
                unique_keys(s2),
                s1.len() == s2.len(),
                forall|j: int|
                    0 <= j < i ==> assoc_map(s2).contains_key(s1[j].0) && assoc_map(s2)[s1[j].0]
                        == s1[j].1,
            decreases n - i,
        {
            match other.get(self.entries[i].0.as_str()) {
                None => {
                    proof {
                        lemma_assoc_map_index(s1, i as int);
                    }
                    return false;
                },
                Some(v2) => {
                    if !css_value_eq(&self.entries[i].1, v2) {
                        proof {
                            lemma_assoc_map_index(s1, i as int);
                        }
                        return false;
                    }
                },
            }
            i = i + 1;
        }
        proof {
            lemma_assoc_map_ext(s1, s2);
        }
        true
    }
}

impl vstd::std_specs::cmp::PartialEqSpecImpl for PropertyMap {
    open spec fn obeys_eq_spec() -> bool {
        true
    }

    open spec fn eq_spec(&self, other: &PropertyMap) -> bool {
        self@ == other@
    }
}

/// The pairs of a scored working list, read at the character level.
pub open spec fn scored_pairs(s: Seq<(String, (u32, CSSValue))>) -> Seq<
    (Seq<char>, (u32, CssValueView)),
> {
    s.map_values(|p: (String, (u32, CSSValue))| (p.0@, (p.1.0, p.1.1@)))
}

/// The working map of the cascade: property names to scored values.
struct ScoredMap {
    entries: Vec<(String, (u32, CSSValue))>,
}

impl View for ScoredMap {
    type V = ScoredProps;

    closed spec fn view(&self) -> ScoredProps {
        assoc_map(scored_pairs(self.entries@))
    }
}

impl ScoredMap {
    #[verifier::type_invariant]
    spec fn wf(self) -> bool {
        unique_keys(scored_pairs(self.entries@))
    }

    fn new() -> (m: ScoredMap)
        ensures
            m@ == Map::<Seq<char>, (u32, CssValueView)>::empty(),
    {
        let m = ScoredMap { entries: Vec::new() };
        proof {
            assert(scored_pairs(m.entries@) =~= Seq::<(Seq<char>, (u32, CssValueView))>::empty());
        }
        m
    }

    fn get(&self, name: &str) -> (r: Option<&(u32, CSSValue)>)
        ensures
            match r {
                Some(v) => self@.contains_key(name@) && (v.0, v.1@) == self@[name@],
                None => !self@.contains_key(name@),
            },
    {
        proof {
            use_type_invariant(&*self);
        }
        let ghost s = scored_pairs(self.entries@);
        let n = self.entries.len();
        let mut i: usize = 0;
        while i < n
            invariant
                n == self.entries@.len(),
                i <= n,
                s == scored_pairs(self.entries@),
                unique_keys(s),
                forall|j: int| 0 <= j < i ==> s[j].0 != name@,
            decreases n - i,
        {
            if str_eq(self.entries[i].0.as_str(), name) {
                proof {
                    lemma_assoc_map_index(s, i as int);
                }
                return Some(&self.entries[i].1);
            }
            i = i + 1;
        }
        proof {
            lemma_assoc_map_dom(s);
        }
        None
    }

    /// Record `value` under `name` with the given specificity, keeping
    /// an earlier value whose specificity is strictly larger.
    fn apply(&mut self, specificity: u32, name: &String, value: &CSSValue)
        ensures
            final(self)@ == (if old(self)@.contains_key(name@) {
                if old(self)@[name@].0 <= specificity {
                    old(self)@.insert(name@, (specificity, value@))
                } else {
                    old(self)@
                }
            } else {
                old(self)@.insert(name@, (specificity, value@))
            }),
    {
        proof {
            use_type_invariant(&*self);
        }
        let mut entries: Vec<(String, (u32, CSSValue))> = Vec::new();
        core::mem::swap(&mut entries, &mut self.entries);
        let ghost s0 = scored_pairs(entries@);
        let n = entries.len();
        let mut i: usize = 0;
        while i < n
            invariant
                n == entries@.len(),
                i <= n,
                scored_pairs(entries@) == s0,
                unique_keys(s0),
                old(self)@ == assoc_map(s0),
                forall|j: int| 0 <= j < i ==> s0[j].0 != name@,
            decreases n - i,
        {
            if str_eq(entries[i].0.as_str(), name.as_str()) {
                proof {
                    assert(s0[i as int] == (
                        entries@[i as int].0@,
                        (entries@[i as int].1.0, entries@[i as int].1.1@),
                    ));
                    assert(s0[i as int].0 == name@);
                    lemma_assoc_map_index(s0, i as int);
                }
                if entries[i].1.0 <= specificity {
                    proof {
                        lemma_assoc_map_update(s0, i as int, (specificity, value@));
                    }
                    entries.set(i, (name.clone(), (specificity, clone_css_value(value))));
                    proof {
                        assert(scored_pairs(entries@) =~= s0.update(
                            i as int,
                            (s0[i as int].0, (specificity, value@)),
                        ));
                        assert(unique_keys(scored_pairs(entries@)));
                    }
                    self.entries = entries;
                } else {
                    self.entries = entries;
                }
                return ;
            }
            i = i + 1;
        }
        proof {
            lemma_assoc_map_dom(s0);
            assert(!old(self)@.contains_key(name@));
            lemma_assoc_map_push(s0, name@, (specificity, value@));
        }
        entries.push((name.clone(), (specificity, clone_css_value(value))));
        proof {
            assert(scored_pairs(entries@) =~= s0.push((name@, (specificity, value@))));
            assert(unique_keys(scored_pairs(entries@)));
        }
        self.entries = entries;
    }

    /// Strip the specificities, keeping each property's winning value.
    fn into_properties(&self) -> (p: PropertyMap)
        ensures
            p@ == self@.map_values(|t: (u32, CssValueView)| t.1),
    {
        proof {
            use_type_invariant(&*self);
        }
        let ghost s = scored_pairs(self.entries@);
        let ghost f = |t: (u32, CssValueView)| t.1;
        let n = self.entries.len();
        let mut entries: Vec<(String, CSSValue)> = Vec::new();
        let mut i: usize = 0;
        while i < n
            invariant
                n == self.entries@.len(),
                i <= n,
                s == scored_pairs(self.entries@),
                entries@.len() == i,
                forall|j: int|
                    0 <= j < i ==> entries@[j].0@ == self.entries@[j].0@ && entries@[j].1@
                        == self.entries@[j].1.1@,
            decreases n - i,
        {
            entries.push((self.entries[i].0.clone(), clone_css_value(&self.entries[i].1.1)));
            i = i + 1;
        }
        proof {
            assert forall|j: int| 0 <= j < n implies value_pairs(entries@)[j] == s.map_values(
                |p: (Seq<char>, (u32, CssValueView))| (p.0, f(p.1)),
            )[j] by {
                assert(s[j] == (
                    self.entries@[j].0@,
                    (self.entries@[j].1.0, self.entries@[j].1.1@),
                ));
                assert(value_pairs(entries@)[j] == (entries@[j].0@, entries@[j].1@));
            }
            assert(value_pairs(entries@) =~= s.map_values(
                |p: (Seq<char>, (u32, CssValueView))| (p.0, f(p.1)),
            ));
            lemma_assoc_map_map_values(s, f);
            assert(unique_keys(value_pairs(entries@)));
        }
        PropertyMap { entries }
    }
}

/// Law: cascading is monotone in specificity — once a property is
/// recorded, folding further selector/declaration pairs in keeps it
/// recorded, and its recorded specificity never decreases.
pub proof fn lemma_cascade_monotone(
    m: ScoredProps,
    sels: Seq<SelectorView>,
    decls: Seq<DeclarationView>,
    p: Seq<char>,
    k1: int,
    k2: int,
)
    requires
        0 <= k1 <= k2,
        spec_apply_pairs_upto(m, sels, decls, k1).contains_key(p),
    ensures
        spec_apply_pairs_upto(m, sels, decls, k2).contains_key(p),
        spec_apply_pairs_upto(m, sels, decls, k1)[p].0 <= spec_apply_pairs_upto(
            m,
            sels,
            decls,
            k2,
        )[p].0,
    decreases k2 - k1,
{
    if k1 < k2 {
        lemma_cascade_monotone(m, sels, decls, p, k1, k2 - 1);
    }
}

/// Law: every paired declaration leaves its mark — after the fold, the
/// declared property is present with at least the declaring selector's
/// specificity.
pub proof fn lemma_cascade_contribution(
    m: ScoredProps,
    sels: Seq<SelectorView>,
    decls: Seq<DeclarationView>,
    j: int,
    k: int,
)
    requires
        0 <= j < k,
    ensures
        spec_apply_pairs_upto(m, sels, decls, k).contains_key(decls[j].name),
        spec_specificity(sels[j]) <= spec_apply_pairs_upto(m, sels, decls, k)[decls[j].name].0,
{
    lemma_cascade_monotone(m, sels, decls, decls[j].name, j + 1, k);
}

/// Law: the cascade invents nothing — a recorded property either stood
/// in the initial map, or is some paired declaration's value, recorded
/// with that pair's selector specificity.
pub proof fn lemma_cascade_provenance(
    m: ScoredProps,
    sels: Seq<SelectorView>,
    decls: Seq<DeclarationView>,
    p: Seq<char>,
    k: int,
)
    requires
        spec_apply_pairs_upto(m, sels, decls, k).contains_key(p),
    ensures
        (m.contains_key(p) && spec_apply_pairs_upto(m, sels, decls, k)[p] == m[p]) || exists|j: int|
            0 <= j < k && decls[j].name == p && spec_apply_pairs_upto(m, sels, decls, k)[p] == (
            spec_specificity(sels[j]),
            decls[j].value,
            ),
    decreases k,
{
    if k > 0 {
        let prev = spec_apply_pairs_upto(m, sels, decls, k - 1);
        if spec_apply_pairs_upto(m, sels, decls, k)[p] == (
            spec_specificity(sels[k - 1]),
            decls[k - 1].value,
        ) && decls[k - 1].name == p {
            assert(0 <= k - 1 < k && decls[k - 1].name == p && spec_apply_pairs_upto(
                m,
                sels,
                decls,
                k,
            )[p] == (spec_specificity(sels[k - 1]), decls[k - 1].value));
        } else {
            lemma_cascade_provenance(m, sels, decls, p, k - 1);
            if !(m.contains_key(p) && spec_apply_pairs_upto(m, sels, decls, k)[p] == m[p]) {
                let j = choose|j: int|
                    0 <= j < k - 1 && decls[j].name == p && prev[p] == (
                    spec_specificity(sels[j]),
                    decls[j].value,
                    );
                assert(0 <= j < k && decls[j].name == p && spec_apply_pairs_upto(
                    m,
                    sels,
                    decls,
                    k,
                )[p] == (spec_specificity(sels[j]), decls[j].value));
            }
        }
    }
}

/// Law: within one rule, a declaration of strictly higher specificity
/// beats every other declaration of the same property, whichever order
/// the pairs stand in. When pair `j` declares `p` and every other pair
/// declaring `p` has strictly lower specificity, the fold records pair
/// `j`'s value.
pub proof fn lemma_specificity_precedence(
    m: ScoredProps,
    sels: Seq<SelectorView>,
    decls: Seq<DeclarationView>,
    p: Seq<char>,
    j: int,
    k: int,
)
    requires
        0 <= j < k,
        decls[j].name == p,
        !m.contains_key(p),
        forall|i: int|
            0 <= i < k && i != j && decls[i].name == p ==> spec_specificity(sels[i])
                < spec_specificity(sels[j]),
    ensures
        spec_apply_pairs_upto(m, sels, decls, k).contains_key(p),
        spec_apply_pairs_upto(m, sels, decls, k)[p] == (spec_specificity(sels[j]), decls[j].value),
{
    lemma_cascade_contribution(m, sels, decls, j, k);
    lemma_cascade_provenance(m, sels, decls, p, k);
    let i = choose|i: int|
        0 <= i < k && decls[i].name == p && spec_apply_pairs_upto(m, sels, decls, k)[p] == (
        spec_specificity(sels[i]),
        decls[i].value,
        );
    if i != j {
        assert(spec_specificity(sels[i]) < spec_specificity(sels[j]));
        assert(false);
    }
}

/// Law: the cascade over whole rules is monotone too — a property once
/// recorded stays recorded, with non-decreasing specificity, as further
/// rules are folded in.
pub proof fn lemma_rule_cascade_monotone(
    rules: Seq<RuleView>,
    nt: NodeTypeView,
    p: Seq<char>,
    k1: int,
    k2: int,
)
    requires
        0 <= k1 <= k2,
        spec_cascade_upto(rules, nt, k1).contains_key(p),
    ensures
        spec_cascade_upto(rules, nt, k2).contains_key(p),
        spec_cascade_upto(rules, nt, k1)[p].0 <= spec_cascade_upto(rules, nt, k2)[p].0,
    decreases k2 - k1,
{
    if k1 < k2 {
        lemma_rule_cascade_monotone(rules, nt, p, k1, k2 - 1);
        let m = spec_cascade_upto(rules, nt, k2 - 1);
        let r = rules[k2 - 1];
        if spec_rule_matches(r, nt) {
            lemma_cascade_monotone(m, r.selectors, r.declarations, p, 0, pair_count(r));
        }
    }
}

/// Law: a matched rule's paired declaration always leaves its mark on
/// the cascade — the declared property ends up recorded with at least
/// the pairing selector's specificity.
pub proof fn lemma_rule_cascade_contribution(
    rules: Seq<RuleView>,
    nt: NodeTypeView,
    i: int,
    j: int,
    k: int,
)
    requires
        0 <= i < k,
        spec_rule_matches(rules[i], nt),
        0 <= j < pair_count(rules[i]),
    ensures
        spec_cascade_upto(rules, nt, k).contains_key(rules[i].declarations[j].name),
        spec_specificity(rules[i].selectors[j]) <= spec_cascade_upto(
            rules,
            nt,
            k,
        )[rules[i].declarations[j].name].0,
{
    let m = spec_cascade_upto(rules, nt, i);
    let r = rules[i];
    lemma_cascade_contribution(m, r.selectors, r.declarations, j, pair_count(r));
    assert(spec_cascade_upto(rules, nt, i + 1) == spec_apply_rule(m, r, nt));
    lemma_rule_cascade_monotone(rules, nt, r.declarations[j].name, i + 1, k);
}

/// Law: the cascade invents nothing — whatever it records for a
/// property is the value of some positionally paired declaration of
/// some matched rule, recorded with that pair's selector specificity.
pub proof fn lemma_rule_cascade_provenance(
    rules: Seq<RuleView>,
    nt: NodeTypeView,
    p: Seq<char>,
    k: int,
)
    requires
        spec_cascade_upto(rules, nt, k).contains_key(p),
    ensures
        exists|i: int, j: int|
            {
                &&& 0 <= i < k
                &&& spec_rule_matches(rules[i], nt)
                &&& 0 <= j < pair_count(rules[i])
                &&& (#[trigger] rules[i].declarations[j]).name == p
                &&& spec_cascade_upto(rules, nt, k)[p] == (
                    spec_specificity(rules[i].selectors[j]),
                    rules[i].declarations[j].value,
                )
            },
    decreases k,
{
    if k <= 0 {
        assert(false);
    } else {
        let m = spec_cascade_upto(rules, nt, k - 1);
        let r = rules[k - 1];
        let cur = spec_cascade_upto(rules, nt, k);
        let carries = m.contains_key(p) && cur[p] == m[p];
        if spec_rule_matches(r, nt) && !carries {
            lemma_cascade_provenance(m, r.selectors, r.declarations, p, pair_count(r));
            let j = choose|j: int|
                0 <= j < pair_count(r) && r.declarations[j].name == p && cur[p] == (
                spec_specificity(r.selectors[j]),
                r.declarations[j].value,
                );
            assert(0 <= k - 1 < k && spec_rule_matches(rules[k - 1], nt) && 0 <= j < pair_count(
                rules[k - 1],
            ) && rules[k - 1].declarations[j].name == p && cur[p] == (
                spec_specificity(rules[k - 1].selectors[j]),
                rules[k - 1].declarations[j].value,
            ));
        } else {
            assert(carries);
            lemma_rule_cascade_provenance(rules, nt, p, k - 1);
            let (i, j) = choose|i: int, j: int|
                {
                    &&& 0 <= i < k - 1
                    &&& spec_rule_matches(rules[i], nt)
                    &&& 0 <= j < pair_count(rules[i])
                    &&& (#[trigger] rules[i].declarations[j]).name == p
                    &&& m[p] == (
                        spec_specificity(rules[i].selectors[j]),
                        rules[i].declarations[j].value,
                    )
                };
            assert(0 <= i < k && spec_rule_matches(rules[i], nt) && 0 <= j < pair_count(rules[i])
                && rules[i].declarations[j].name == p && cur[p] == (
                spec_specificity(rules[i].selectors[j]),
                rules[i].declarations[j].value,
            ));
        }
    }
}

/// Law: specificity precedence. When one matched pair declares a
/// property and every other matched pair declaring the same property
/// carries strictly lower specificity, the cascade resolves the
/// property to that pair's value — whatever order the rules stand in.
pub proof fn lemma_rule_specificity_precedence(
    rules: Seq<RuleView>,
    nt: NodeTypeView,
    p: Seq<char>,
    i: int,
    j: int,
    k: int,
)
    requires
        0 <= i < k,
        spec_rule_matches(rules[i], nt),
        0 <= j < pair_count(rules[i]),
        rules[i].declarations[j].name == p,
        forall|i2: int, j2: int|
            0 <= i2 < k && spec_rule_matches(rules[i2], nt) && 0 <= j2 < pair_count(
                rules[i2],
            ) && (#[trigger] rules[i2].declarations[j2]).name == p && !(i2 == i && j2 == j)
                ==> spec_specificity(rules[i2].selectors[j2]) < spec_specificity(
                rules[i].selectors[j],
            ),
    ensures
        spec_cascade_upto(rules, nt, k).contains_key(p),
        spec_cascade_upto(rules, nt, k)[p] == (
            spec_specificity(rules[i].selectors[j]),
            rules[i].declarations[j].value,
        ),
{
    lemma_rule_cascade_contribution(rules, nt, i, j, k);
    lemma_rule_cascade_provenance(rules, nt, p, k);
    let cur = spec_cascade_upto(rules, nt, k);
    let (i2, j2) = choose|i2: int, j2: int|
        {
            &&& 0 <= i2 < k
            &&& spec_rule_matches(rules[i2], nt)
            &&& 0 <= j2 < pair_count(rules[i2])
            &&& (#[trigger] rules[i2].declarations[j2]).name == p
            &&& cur[p] == (
                spec_specificity(rules[i2].selectors[j2]),
                rules[i2].declarations[j2].value,
            )
        };
    if !(i2 == i && j2 == j) {
        assert(spec_specificity(rules[i2].selectors[j2]) < spec_specificity(
            rules[i].selectors[j],
        ));
        assert(false);
    }
}

/// Law: determinism — any two results that meet `to_styled_node`'s
/// contract for the same document node and stylesheet views describe
/// the same styled tree, resolved property maps included.
pub proof fn lemma_resolution_deterministic(
    n: NodeView,
    rules: Seq<RuleView>,
    r1: Option<StyledNode>,
    r2: Option<StyledNode>,
)
    requires
        match r1 {
            Some(s) => spec_resolve(n, rules) == Some(styled_view(s)),
            None => spec_resolve(n, rules) is None,
        },
        match r2 {
            Some(s) => spec_resolve(n, rules) == Some(styled_view(s)),
            None => spec_resolve(n, rules) is None,
        },
    ensures
        match (r1, r2) {
            (Some(a), Some(b)) => styled_view(a) == styled_view(b),
            (None, None) => true,
            _ => false,
        },
{
}

/// Law: a node whose resolved `display` is `none` is dropped together
/// with its entire subtree, whatever its children's own rules would
/// have resolved to.
pub proof fn lemma_display_none_prunes(n: NodeView, rules: Seq<RuleView>)
    requires
        spec_scored_props(n.node_type, rules).contains_key("display"@),
        spec_scored_props(n.node_type, rules)["display"@].1 == CssValueView::Keyword("none"@),
    ensures
        spec_resolve(n, rules) is None,
{
}

/// A document node annotated with its resolved properties; pruned
/// children are omitted, the others keep their order.
#[derive(Debug, PartialEq)]
pub struct StyledNode {
    pub node_type: NodeType,
    pub children: Vec<StyledNode>,
    pub properties: PropertyMap,
}

/// The view of a styled node, children included.
pub open spec fn styled_view(sn: StyledNode) -> StyledNodeView
    decreases sn,
{
    StyledNodeView {
        node_type: sn.node_type@,
        children: styled_views(sn.children@),
        properties: sn.properties@,
    }
}

/// The views of a sequence of styled nodes.
pub open spec fn styled_views(s: Seq<StyledNode>) -> Seq<StyledNodeView>
    decreases s,
{
    if s.len() == 0 {
        Seq::empty()
    } else {
        styled_views(s.drop_last()).push(styled_view(s.last()))
    }
}

/// A styled-node sequence and its view have the same length.
pub proof fn lemma_styled_views_len(s: Seq<StyledNode>)
    ensures
        styled_views(s).len() == s.len(),
    decreases s.len(),
{
    if s.len() > 0 {
        lemma_styled_views_len(s.drop_last());
    }
}

/// The views grow index by index.
pub proof fn lemma_styled_views_index(s: Seq<StyledNode>, i: int)
    requires
        0 <= i < s.len(),
    ensures
        styled_views(s).len() == s.len(),
        styled_views(s)[i] == styled_view(s[i]),
    decreases s.len(),
{
    if s.len() > 0 {
        lemma_styled_views_len(s.drop_last());
        if i < s.len() - 1 {
            lemma_styled_views_index(s.drop_last(), i);
            assert(s.drop_last()[i] == s[i]);
        }
    }
}

/// Whether the tag's user-agent default display is `none`.
fn is_display_none_tag(tag: &str) -> (r: bool)
    ensures
        r == spec_display_none_tag(tag@),
{
    str_eq(tag, "area") || str_eq(tag, "base") || str_eq(tag, "basefont") || str_eq(
        tag,
        "datalist",
    ) || str_eq(tag, "head") || str_eq(tag, "link") || str_eq(tag, "meta") || str_eq(
        tag,
        "noembed",
    ) || str_eq(tag, "noframes") || str_eq(tag, "param") || str_eq(tag, "rp") || str_eq(
        tag,
        "script",
    ) || str_eq(tag, "style") || str_eq(tag, "template") || str_eq(tag, "title")
}

/// Whether the tag's user-agent default font weight is `bold`.
fn is_bold_tag(tag: &str) -> (r: bool)
    ensures
        r == spec_bold_tag(tag@),
{
    str_eq(tag, "b") || str_eq(tag, "strong")
}

/// Resolve one document node against a stylesheet: cascade every
/// matching rule's positionally paired declarations by specificity, fill
/// in the user-agent defaults for unset properties, and drop the node —
/// with its whole subtree — when its resolved `display` is `none`.
pub fn to_styled_node(node: &Box<Node>, stylesheet: &Stylesheet) -> (r: Option<StyledNode>)
    ensures
        match r {
            Some(sn) => spec_resolve(node_view(**node), stylesheet@) == Some(styled_view(sn)),
            None => spec_resolve(node_view(**node), stylesheet@) is None,
        },
    decreases **node,
{
    let ghost nv = node_view(**node);
    let ghost rules = stylesheet@;
    let ghost nt = nv.node_type;
    proof {
        assert(nt == node.node_type@);
    }
    let mut scored = ScoredMap::new();
    let nrules = stylesheet.rules.len();
    let mut i: usize = 0;
    while i < nrules
        invariant
            nrules == stylesheet.rules@.len(),
            i <= nrules,
            rules == stylesheet@,
            rules.len() == nrules,
            nt == node.node_type@,
            scored@ == spec_cascade_upto(rules, nt, i as int),
        decreases nrules - i,
    {
        let rule = &stylesheet.rules[i];
        let ghost rv = rules[i as int];
        proof {
            assert(rv == stylesheet.rules@[i as int]@);
        }
        if rule.matches(node) {
            let ghost m0 = spec_cascade_upto(rules, nt, i as int);
            let nsel = rule.selectors.len();
            let ndecl = rule.declarations.len();
            let np = if nsel <= ndecl {
                nsel
            } else {
                ndecl
            };
            proof {
                assert(rv.selectors.len() == nsel);
                assert(rv.declarations.len() == ndecl);
                assert(np as int == pair_count(rv));
            }
            let mut j: usize = 0;
            while j < np
                invariant
                    np as int == pair_count(rv),
                    j <= np,
                    rv == rule@,
                    rv.selectors.len() == rule.selectors@.len(),
                    rv.declarations.len() == rule.declarations@.len(),
                    np <= rule.selectors@.len(),
                    np <= rule.declarations@.len(),
                    scored@ == spec_apply_pairs_upto(m0, rv.selectors, rv.declarations, j as int),
                decreases np - j,
            {
                let sel = &rule.selectors[j];
                let decl = &rule.declarations[j];
                proof {
                    assert(rv.selectors[j as int] == rule.selectors@[j as int]@);
                    assert(rv.declarations[j as int] == rule.declarations@[j as int]@);
                }
                let w = sel.specificity();
                scored.apply(w, &decl.name, &decl.value);
                j = j + 1;
            }
            proof {
                assert(spec_rule_matches(rv, nt));
                assert(scored@ == spec_apply_rule(m0, rv, nt));
            }
        } else {
            proof {
                assert(scored@ == spec_apply_rule(spec_cascade_upto(rules, nt, i as int), rv, nt));
            }
        }
        i = i + 1;
    }
    let ghost cascaded = spec_cascade_upto(rules, nt, rules.len() as int);
    proof {
        assert(scored@ == cascaded);
    }
    match &node.node_type {
        NodeType::Element(e) => {
            if scored.get("display").is_none() {
                let kw: &str = if is_display_none_tag(e.tag_name.as_str()) {
                    "none"
                } else {
                    "block"
                };
                scored.apply(0, &"display".to_owned(), &CSSValue::Keyword(kw.to_owned()));
            }
            if scored.get("font-weight").is_none() {
                let kw: &str = if is_bold_tag(e.tag_name.as_str()) {
                    "bold"
                } else {
                    "normal"
                };
                scored.apply(0, &"font-weight".to_owned(), &CSSValue::Keyword(kw.to_owned()));
            }
        },
        NodeType::Text(_) => {},
    }
    proof {
        assert(scored@ == spec_with_defaults(cascaded, nt));
        assert(scored@ == spec_scored_props(nt, rules));
    }
    let pruned = match scored.get("display") {
        Some(sv) => match &sv.1 {
            CSSValue::Keyword(k) => str_eq(k.as_str(), "none"),
        },
        None => false,
    };
    if pruned {
        proof {
            assert(spec_pruned(nt, rules));
        }
        return None;
    }
    proof {
        assert(!spec_pruned(nt, rules));
    }
    let cn = node.children.len();
    proof {
        lemma_nodes_view_len(node.children@);
    }
    let mut children: Vec<StyledNode> = Vec::new();
    let mut i: usize = 0;
    while i < cn
        invariant
            cn == node.children@.len(),
            rules == stylesheet@,
            i <= cn,
            nv == node_view(**node),
            nv.children == nodes_view(node.children@),
            nv.children.len() == cn,
            styled_views(children@) == spec_resolve_children(
                nv.children.subrange(0, i as int),
                rules,
            ),
        decreases cn - i,
    {
        proof {
            lemma_nodes_view_index(node.children@, i as int);
            assert(nv.children.subrange(0, i + 1 as int).drop_last() =~= nv.children.subrange(
                0,
                i as int,
            ));
            assert(nv.children.subrange(0, i + 1 as int).last() == nv.children[i as int]);
        }
        match to_styled_node(&node.children[i], stylesheet) {
            Some(sn) => {
                let ghost pre = children@;
                children.push(sn);
                proof {
                    assert(children@.drop_last() =~= pre);
                    assert(styled_views(children@) == styled_views(pre).push(
                        styled_view(children@.last()),
                    ));
                    assert(styled_views(children@) =~= spec_resolve_children(
                        nv.children.subrange(0, i + 1 as int),
                        rules,
                    ));
                }
            },
            None => {
                proof {
                    assert(styled_views(children@) =~= spec_resolve_children(
                        nv.children.subrange(0, i + 1 as int),
                        rules,
                    ));
                }
            },
        }
        i = i + 1;
    }
    proof {
        assert(nv.children.subrange(0, cn as int) =~= nv.children);
    }
    let properties = scored.into_properties();
    let node_type = node.node_type.duplicate();
    let result = StyledNode { node_type, children, properties };
    proof {
        assert(styled_view(result) == StyledNodeView {
            node_type: nt,
            properties: spec_props(nt, rules),
            children: spec_resolve_children(nv.children, rules),
        });
    }
    Some(result)
}

} // verus!

