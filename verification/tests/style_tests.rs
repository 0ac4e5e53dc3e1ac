use wev::cssom::{CSSValue, Declaration, Rule, SimpleSelector, Stylesheet, AttributeSelectorOp};
use wev::dom::{AttrMap, Element, Node, NodeType, Text};
use wev::style::{to_styled_node, PropertyMap, StyledNode};

fn keyword(s: &str) -> CSSValue {
    CSSValue::Keyword(s.to_string())
}

fn declaration(name: &str, value: &str) -> Declaration {
    Declaration { name: name.to_string(), value: keyword(value) }
}

fn props(pairs: &[(&str, &str)]) -> PropertyMap {
    let mut m = PropertyMap::new();
    for (k, v) in pairs {
        m.insert(k.to_string(), keyword(v));
    }
    m
}

fn attrs(pairs: &[(&str, &str)]) -> AttrMap {
    let mut m = AttrMap::new();
    for (k, v) in pairs {
        m.insert(k.to_string(), v.to_string());
    }
    m
}

#[test]
fn test_styled_node() {
    let dom = Element::new(
        "p".to_string(),
        attrs(&[("class", "foo")]),
        vec![Text::new("hello world".to_string())],
    );
    let stylesheet = Stylesheet::new(vec![Rule {
        selectors: vec![SimpleSelector::TypeSelector { tag_name: "p".into() }],
        declarations: vec![declaration("color", "red")],
    }]);
    let nodes = to_styled_node(&dom, &stylesheet);
    assert_eq!(
        nodes,
        Some(StyledNode {
            node_type: NodeType::Element(Element {
                tag_name: "p".into(),
                attributes: attrs(&[("class", "foo")]),
            }),
            children: vec![StyledNode {
                node_type: NodeType::Text(Text { data: "hello world".into() }),
                children: vec![],
                properties: props(&[]),
            }],
            properties: props(&[
                ("color", "red"),
                ("font-weight", "normal"),
                ("display", "block"),
            ]),
        })
    );
}

fn specificity_dom() -> Box<Node> {
    Element::new(
        "div".to_string(),
        attrs(&[]),
        vec![Element::new(
            "p".to_string(),
            attrs(&[("foo", "bar")]),
            vec![Text::new("hello world".to_string())],
        )],
    )
}

fn specificity_expected() -> Option<StyledNode> {
    Some(StyledNode {
        node_type: NodeType::Element(Element { tag_name: "div".into(), attributes: attrs(&[]) }),
        children: vec![StyledNode {
            node_type: NodeType::Element(Element {
                tag_name: "p".into(),
                attributes: attrs(&[("foo", "bar")]),
            }),
            children: vec![StyledNode {
                node_type: NodeType::Text(Text { data: "hello world".into() }),
                children: vec![],
                properties: props(&[]),
            }],
            properties: props(&[
                ("color", "yellow"),
                ("display", "block"),
                ("font-weight", "normal"),
            ]),
        }],
        properties: props(&[
            ("color", "red"),
            ("display", "block"),
            ("font-weight", "normal"),
        ]),
    })
}

fn rule_div_red() -> Rule {
    Rule {
        selectors: vec![SimpleSelector::TypeSelector { tag_name: "div".into() }],
        declarations: vec![declaration("color", "red")],
    }
}

fn rule_p_blue() -> Rule {
    Rule {
        selectors: vec![SimpleSelector::TypeSelector { tag_name: "p".into() }],
        declarations: vec![declaration("color", "blue")],
    }
}

fn rule_p_foo_bar_yellow() -> Rule {
    Rule {
        selectors: vec![SimpleSelector::AttributeSelector {
            tag_name: "p".into(),
            attribute: "foo".into(),
            op: AttributeSelectorOp::Eq,
            value: "bar".into(),
        }],
        declarations: vec![declaration("color", "yellow")],
    }
}

#[test]
fn test_specificity() {
    let dom = specificity_dom();
    let stylesheet = Stylesheet::new(vec![rule_div_red(), rule_p_blue(), rule_p_foo_bar_yellow()]);
    let nodes = to_styled_node(&dom, &stylesheet);
    assert_eq!(nodes, specificity_expected());
}

#[test]
fn test_specificity_independent_of_rule_order() {
    let dom = specificity_dom();
    let stylesheet = Stylesheet::new(vec![rule_p_foo_bar_yellow(), rule_p_blue(), rule_div_red()]);
    let nodes = to_styled_node(&dom, &stylesheet);
    assert_eq!(nodes, specificity_expected());
}

#[test]
fn test_resolution_is_deterministic() {
    let dom = specificity_dom();
    let stylesheet = Stylesheet::new(vec![rule_div_red(), rule_p_blue(), rule_p_foo_bar_yellow()]);
    let first = to_styled_node(&dom, &stylesheet);
    let second = to_styled_node(&dom, &stylesheet);
    assert_eq!(first, second);
}

#[test]
fn test_display_none_prunes_subtree() {
    let dom = Element::new(
        "div".to_string(),
        attrs(&[("class", "none")]),
        vec![Element::new(
            "p".to_string(),
            attrs(&[]),
            vec![Text::new("x".to_string())],
        )],
    );
    let stylesheet = Stylesheet::new(vec![
        Rule {
            selectors: vec![SimpleSelector::ClassSelector { class_name: "none".into() }],
            declarations: vec![declaration("display", "none")],
        },
        Rule {
            selectors: vec![SimpleSelector::TypeSelector { tag_name: "p".into() }],
            declarations: vec![declaration("display", "block")],
        },
    ]);
    assert_eq!(to_styled_node(&dom, &stylesheet), None);
}

#[test]
fn test_pruned_child_is_omitted_from_parent() {
    let dom = Element::new(
        "div".to_string(),
        attrs(&[]),
        vec![
            Element::new("script".to_string(), attrs(&[]), vec![]),
            Element::new("p".to_string(), attrs(&[]), vec![]),
        ],
    );
    let stylesheet = Stylesheet::new(vec![]);
    let styled = to_styled_node(&dom, &stylesheet).unwrap();
    assert_eq!(styled.children.len(), 1);
    assert_eq!(
        styled.children[0].node_type,
        NodeType::Element(Element { tag_name: "p".into(), attributes: attrs(&[]) })
    );
}

#[test]
fn test_bold_default_for_strong() {
    let dom = Element::new("strong".to_string(), attrs(&[]), vec![]);
    let styled = to_styled_node(&dom, &Stylesheet::new(vec![])).unwrap();
    assert_eq!(styled.properties.get("font-weight"), Some(&keyword("bold")));
    assert_eq!(styled.properties.get("display"), Some(&keyword("block")));
}

#[test]
fn test_author_value_beats_default() {
    let dom = Element::new("strong".to_string(), attrs(&[]), vec![]);
    let stylesheet = Stylesheet::new(vec![Rule {
        selectors: vec![SimpleSelector::TypeSelector { tag_name: "strong".into() }],
        declarations: vec![declaration("font-weight", "normal")],
    }]);
    let styled = to_styled_node(&dom, &stylesheet).unwrap();
    assert_eq!(styled.properties.get("font-weight"), Some(&keyword("normal")));
}

#[test]
fn test_positional_pairing_ignores_unpaired_entries() {
    // Two selectors but a single declaration: only the first selector is
    // paired, so `color` is recorded once with the first selector's
    // specificity, and nothing else is recorded.
    let dom = Element::new("p".to_string(), attrs(&[("class", "c")]), vec![]);
    let stylesheet = Stylesheet::new(vec![Rule {
        selectors: vec![
            SimpleSelector::TypeSelector { tag_name: "p".into() },
            SimpleSelector::ClassSelector { class_name: "c".into() },
        ],
        declarations: vec![declaration("color", "green")],
    }]);
    let styled = to_styled_node(&dom, &stylesheet).unwrap();
    assert_eq!(styled.properties.get("color"), Some(&keyword("green")));
    assert_eq!(styled.properties.len(), 3);
}

#[test]
fn test_equal_specificity_later_rule_wins() {
    let dom = Element::new("p".to_string(), attrs(&[]), vec![]);
    let stylesheet = Stylesheet::new(vec![
        Rule {
            selectors: vec![SimpleSelector::TypeSelector { tag_name: "p".into() }],
            declarations: vec![declaration("color", "blue")],
        },
        Rule {
            selectors: vec![SimpleSelector::TypeSelector { tag_name: "p".into() }],
            declarations: vec![declaration("color", "green")],
        },
    ]);
    let styled = to_styled_node(&dom, &stylesheet).unwrap();
    assert_eq!(styled.properties.get("color"), Some(&keyword("green")));
}

#[test]
fn test_property_map_replaces_on_equal_key() {
    let mut m = PropertyMap::new();
    m.insert("color".to_string(), keyword("red"));
    m.insert("color".to_string(), keyword("blue"));
    assert_eq!(m.len(), 1);
    assert_eq!(m.get("color"), Some(&keyword("blue")));
    assert_eq!(m.get("display"), None);
}

#[test]
fn test_property_map_equality_ignores_order() {
    assert_eq!(
        props(&[("a", "x"), ("b", "y")]),
        props(&[("b", "y"), ("a", "x")])
    );
    assert_ne!(props(&[("a", "x")]), props(&[("a", "y")]));
    assert_ne!(props(&[("a", "x")]), props(&[("a", "x"), ("b", "y")]));
}
