//! Stylesheet object model: rules, selectors, declarations and keyword
//! values, together with their mathematical views.

use vstd::prelude::*;

use crate::dom::{Node, NodeType, NodeTypeView};
use crate::text::{contains_token, has_token, str_eq};

verus! {

/// A whole stylesheet: an ordered list of rules.
#[derive(Debug, PartialEq)]
pub struct Stylesheet {
    pub rules: Vec<Rule>,
}

impl Stylesheet {
    pub fn new(rules: Vec<Rule>) -> (s: Self)
        ensures
            s.rules == rules,
    {
        Self { rules }
    }
}

/// A single rule: a comma-separated selector list paired with a
/// declaration block.
#[derive(Debug, PartialEq)]
pub struct Rule {
    pub selectors: Vec<Selector>,
    pub declarations: Vec<Declaration>,
}

impl Rule {
    /// A rule applies to a node as soon as one selector of its list does.
    pub fn matches(&self, n: &Box<Node>) -> (b: bool)
        ensures
            b == spec_rule_matches(self@, n.node_type@),
    {
        let len = self.selectors.len();
        let mut i: usize = 0;
        while i < len
            invariant
                len == self.selectors@.len(),
                i <= len,
                forall|j: int| 0 <= j < i ==> !spec_matches(self@.selectors[j], n.node_type@),
        decreases len - i,
        {
            assert(self@.selectors[i as int] == self.selectors@[i as int]@);
            if self.selectors[i].matches(n) {
                return true;
            }
            i = i + 1;
        }
        false
    }
}

/// A selector is a single simple selector; combinators are not supported.
pub type Selector = SimpleSelector;

/// The supported simple selectors.
#[derive(Debug, PartialEq)]
pub enum SimpleSelector {
    UniversalSelector,
    TypeSelector {
        tag_name: String,
    },
    AttributeSelector {
        tag_name: String,
        op: AttributeSelectorOp,
        attribute: String,
        value: String,
    },
    ClassSelector {
        class_name: String,
    },
}

impl SimpleSelector {
    /// Whether this selector applies to the given node; text nodes are
    /// matched only by the universal selector.
    pub fn matches(&self, n: &Box<Node>) -> (b: bool)
        ensures
            b == spec_matches(self@, n.node_type@),
    {
        match self {
            SimpleSelector::UniversalSelector => true,
            SimpleSelector::TypeSelector { tag_name } => match &n.node_type {
                NodeType::Element(e) => str_eq(e.tag_name.as_str(), tag_name.as_str()),
                NodeType::Text(_) => false,
            },
            SimpleSelector::AttributeSelector { tag_name, op, attribute, value } => match &n
                .node_type {
                NodeType::Element(e) => {
                    if !str_eq(e.tag_name.as_str(), tag_name.as_str()) {
                        false
                    } else {
                        match e.attributes.get(attribute.as_str()) {
                            Some(actual) => match op {
                                AttributeSelectorOp::Eq => str_eq(
                                    actual.as_str(),
                                    value.as_str(),
                                ),
                                AttributeSelectorOp::Contain => contains_token(
                                    actual.as_str(),
                                    value.as_str(),
                                ),
                            },
                            None => false,
                        }
                    }
                },
                NodeType::Text(_) => false,
            },
            SimpleSelector::ClassSelector { class_name } => match &n.node_type {
                NodeType::Element(e) => match e.attributes.get("class") {
                    Some(actual) => str_eq(actual.as_str(), class_name.as_str()),
                    None => false,
                },
                NodeType::Text(_) => false,
            },
        }
    }

    /// The scalar precedence weight of this selector: a single number,
    /// not the multi-tier specificity tuple of standard CSS.
    pub fn specificity(&self) -> (w: u32)
        ensures
            w == spec_specificity(self@),
    {
        match self {
            SimpleSelector::UniversalSelector => 0,
            SimpleSelector::TypeSelector { .. } => 1,
            SimpleSelector::AttributeSelector { .. } | SimpleSelector::ClassSelector { .. } => 10,
        }
    }
}

/// The attribute selector operators that are understood.
#[derive(Debug, PartialEq)]
pub enum AttributeSelectorOp {
    Eq,
    Contain,
}

/// One `name: value` declaration.
#[derive(Debug, PartialEq)]
pub struct Declaration {
    pub name: String,
    pub value: CSSValue,
}

/// A CSS component value; only keywords occur in this core.
#[derive(Debug, PartialEq, Clone)]
pub enum CSSValue {
    Keyword(String),
}

/// Mathematical view of a `CSSValue`.
pub enum CssValueView {
    Keyword(Seq<char>),
}

impl View for CSSValue {
    type V = CssValueView;

    open spec fn view(&self) -> CssValueView {
        match self {
            CSSValue::Keyword(s) => CssValueView::Keyword(s@),
        }
    }
}

/// Mathematical view of a selector.
pub enum SelectorView {
    Universal,
    Type { tag_name: Seq<char> },
    Attribute { tag_name: Seq<char>, op: AttributeSelectorOp, attribute: Seq<char>, value: Seq<char> },
    Class { class_name: Seq<char> },
}

impl View for SimpleSelector {
    type V = SelectorView;

    open spec fn view(&self) -> SelectorView {
        match self {
            SimpleSelector::UniversalSelector => SelectorView::Universal,
            SimpleSelector::TypeSelector { tag_name } => SelectorView::Type { tag_name: tag_name@ },
            SimpleSelector::AttributeSelector { tag_name, op, attribute, value } => SelectorView::Attribute {
                tag_name: tag_name@,
                op: *op,
                attribute: attribute@,
                value: value@,
            },
            SimpleSelector::ClassSelector { class_name } => SelectorView::Class { class_name: class_name@ },
        }
    }
}

/// Mathematical view of a declaration.
pub struct DeclarationView {
    pub name: Seq<char>,
    pub value: CssValueView,
}

impl View for Declaration {
    type V = DeclarationView;

    open spec fn view(&self) -> DeclarationView {
        DeclarationView { name: self.name@, value: self.value@ }
    }
}

/// Mathematical view of a rule.
pub struct RuleView {
    pub selectors: Seq<SelectorView>,
    pub declarations: Seq<DeclarationView>,
}

impl View for Rule {
    type V = RuleView;

    open spec fn view(&self) -> RuleView {
        RuleView {
            selectors: self.selectors@.map_values(|s: Selector| s@),
            declarations: self.declarations@.map_values(|d: Declaration| d@),
        }
    }
}

impl View for Stylesheet {
    type V = Seq<RuleView>;

    open spec fn view(&self) -> Seq<RuleView> {
        self.rules@.map_values(|r: Rule| r@)
    }
}

/// The precedence weight of a selector: universal selectors weigh nothing,
/// type selectors one, attribute and class selectors ten.
pub open spec fn spec_specificity(s: SelectorView) -> u32 {
    match s {
        SelectorView::Universal => 0u32,
        SelectorView::Type { .. } => 1u32,
        SelectorView::Attribute { .. } => 10u32,
        SelectorView::Class { .. } => 10u32,
    }
}

/// What it means for a selector to match a node kind. The universal
/// selector matches everything; the others match only elements: by tag
/// name, by tag name plus one attribute test (exact value, or
/// whitespace-separated word containment), or by exact `class` value.
pub open spec fn spec_matches(sel: SelectorView, nt: NodeTypeView) -> bool {
    match sel {
        SelectorView::Universal => true,
        SelectorView::Type { tag_name } => match nt {
            NodeTypeView::Element { tag_name: t, .. } => t == tag_name,
            NodeTypeView::Text { .. } => false,
        },
        SelectorView::Attribute { tag_name, op, attribute, value } => match nt {
            NodeTypeView::Element { tag_name: t, attributes } => t == tag_name
                && attributes.contains_key(attribute) && match op {
                AttributeSelectorOp::Eq => attributes[attribute] == value,
                AttributeSelectorOp::Contain => has_token(attributes[attribute], value),
            },
            NodeTypeView::Text { .. } => false,
        },
        SelectorView::Class { class_name } => match nt {
            NodeTypeView::Element { attributes, .. } => attributes.contains_key("class"@)
                && attributes["class"@] == class_name,
            NodeTypeView::Text { .. } => false,
        },
    }
}

/// A rule matches when any selector of its comma list matches.
pub open spec fn spec_rule_matches(r: RuleView, nt: NodeTypeView) -> bool {
    exists|i: int| 0 <= i < r.selectors.len() && spec_matches(r.selectors[i], nt)
}

} // verus!
