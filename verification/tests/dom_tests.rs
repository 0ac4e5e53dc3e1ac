use wev::cssom::SimpleSelector;
use wev::dom::{select, AttrMap, Element, Node, Text};

fn attrs(pairs: &[(&str, &str)]) -> AttrMap {
    let mut m = AttrMap::new();
    for (k, v) in pairs {
        m.insert(k.to_string(), v.to_string());
    }
    m
}

#[test]
fn test_to_text() {
    let t = Text::new("hello".to_string());
    assert_eq!(t.to_text(), Some("hello".to_string()));
    let e = Element::new("p".to_string(), AttrMap::new(), vec![]);
    assert_eq!(e.to_text(), None);
}

#[test]
fn test_select_finds_nested_matches_in_order() {
    let tree: Box<Node> = Element::new(
        "html".to_string(),
        AttrMap::new(),
        vec![
            Element::new(
                "head".to_string(),
                AttrMap::new(),
                vec![Element::new(
                    "style".to_string(),
                    AttrMap::new(),
                    vec![Text::new("p { color: red; }".to_string())],
                )],
            ),
            Element::new(
                "body".to_string(),
                AttrMap::new(),
                vec![
                    Element::new("p".to_string(), attrs(&[("id", "one")]), vec![]),
                    Element::new("p".to_string(), attrs(&[("id", "two")]), vec![]),
                ],
            ),
        ],
    );

    let selector = SimpleSelector::TypeSelector { tag_name: "style".into() };
    let found = select(&tree, &selector);
    assert_eq!(found.len(), 1);
    assert_eq!(
        found[0].children[0].to_text(),
        Some("p { color: red; }".to_string())
    );

    let selector = SimpleSelector::TypeSelector { tag_name: "p".into() };
    let found = select(&tree, &selector);
    assert_eq!(found.len(), 2);

    let selector = SimpleSelector::UniversalSelector;
    let found = select(&tree, &selector);
    // direct children first, then the matches below each child in turn
    assert_eq!(found.len(), 6);
}

#[test]
fn test_attr_map_replaces_on_equal_key() {
    let mut m = AttrMap::new();
    m.insert("class".to_string(), "a".to_string());
    m.insert("class".to_string(), "b".to_string());
    assert_eq!(m.len(), 1);
    assert_eq!(m.get("class"), Some(&"b".to_string()));
    assert_eq!(m.get("id"), None);
}

#[test]
fn test_attr_map_equality_ignores_order() {
    assert_eq!(
        attrs(&[("a", "1"), ("b", "2")]),
        attrs(&[("b", "2"), ("a", "1")])
    );
    assert_ne!(attrs(&[("a", "1")]), attrs(&[("a", "2")]));
    assert_ne!(attrs(&[("a", "1")]), attrs(&[("a", "1"), ("b", "2")]));
}
