use wev::cssom::{AttributeSelectorOp, SimpleSelector};
use wev::dom::{AttrMap, Element, Text};

fn sample_element() -> Box<wev::dom::Node> {
    let mut attributes = AttrMap::new();
    attributes.insert("id".to_string(), "test".to_string());
    attributes.insert("class".to_string(), "testclass".to_string());
    Element::new("p".to_string(), attributes, vec![])
}

#[test]
fn test_universal_selector_behaviour() {
    let e = &sample_element();
    assert_eq!(SimpleSelector::UniversalSelector.matches(e), true);
}

#[test]
fn test_type_selector_behaviour() {
    let e = &sample_element();

    assert_eq!(
        (SimpleSelector::TypeSelector {
            tag_name: "p".into(),
        })
        .matches(e),
        true
    );

    assert_eq!(
        (SimpleSelector::TypeSelector {
            tag_name: "invalid".into(),
        })
        .matches(e),
        false
    );
}

#[test]
fn test_attribute_selector_behaviour() {
    let mut attributes = AttrMap::new();
    attributes.insert("id".to_string(), "test test2".to_string());
    attributes.insert("class".to_string(), "testclass".to_string());
    let e = &Element::new("p".to_string(), attributes, vec![]);

    assert_eq!(
        (SimpleSelector::AttributeSelector {
            tag_name: "p".into(),
            attribute: "id".into(),
            value: "test test2".into(),
            op: AttributeSelectorOp::Eq,
        })
        .matches(e),
        true
    );

    assert_eq!(
        (SimpleSelector::AttributeSelector {
            tag_name: "p".into(),
            attribute: "id".into(),
            value: "test".into(),
            op: AttributeSelectorOp::Eq,
        })
        .matches(e),
        false
    );

    assert_eq!(
        (SimpleSelector::AttributeSelector {
            tag_name: "p".into(),
            attribute: "id".into(),
            value: "invalid".into(),
            op: AttributeSelectorOp::Eq,
        })
        .matches(e),
        false
    );

    assert_eq!(
        (SimpleSelector::AttributeSelector {
            tag_name: "p".into(),
            attribute: "invalid".into(),
            value: "test".into(),
            op: AttributeSelectorOp::Eq,
        })
        .matches(e),
        false
    );

    assert_eq!(
        (SimpleSelector::AttributeSelector {
            tag_name: "invalid".into(),
            attribute: "id".into(),
            value: "test".into(),
            op: AttributeSelectorOp::Eq,
        })
        .matches(e),
        false
    );

    assert_eq!(
        (SimpleSelector::AttributeSelector {
            tag_name: "p".into(),
            attribute: "id".into(),
            value: "test2".into(),
            op: AttributeSelectorOp::Contain,
        })
        .matches(e),
        true
    );
}

#[test]
fn test_class_selector_behaviour() {
    let e = &sample_element();

    assert_eq!(
        (SimpleSelector::ClassSelector {
            class_name: "testclass".into(),
        })
        .matches(e),
        true
    );

    assert_eq!(
        (SimpleSelector::ClassSelector {
            class_name: "invalid".into(),
        })
        .matches(e),
        false
    );
}

#[test]
fn test_selectors_never_match_text_nodes() {
    let t = &Text::new("testclass".to_string());
    assert_eq!(SimpleSelector::UniversalSelector.matches(t), true);
    assert_eq!(
        (SimpleSelector::TypeSelector { tag_name: "p".into() }).matches(t),
        false
    );
    assert_eq!(
        (SimpleSelector::ClassSelector { class_name: "testclass".into() }).matches(t),
        false
    );
}

#[test]
fn test_contain_matches_whole_words_only() {
    let mut attributes = AttrMap::new();
    attributes.insert("rel".to_string(), "no  foo bar".to_string());
    let e = &Element::new("a".to_string(), attributes, vec![]);

    let contains = |value: &str| {
        (SimpleSelector::AttributeSelector {
            tag_name: "a".into(),
            attribute: "rel".into(),
            value: value.into(),
            op: AttributeSelectorOp::Contain,
        })
        .matches(e)
    };
    assert!(contains("no"));
    assert!(contains("foo"));
    assert!(contains("bar"));
    assert!(!contains("fo"));
    assert!(!contains("oo"));
    assert!(!contains("foo bar"));
    assert!(!contains(""));
}

#[test]
fn test_specificity_values() {
    assert_eq!(SimpleSelector::UniversalSelector.specificity(), 0);
    assert_eq!(
        (SimpleSelector::TypeSelector { tag_name: "p".into() }).specificity(),
        1
    );
    assert_eq!(
        (SimpleSelector::AttributeSelector {
            tag_name: "p".into(),
            attribute: "id".into(),
            value: "x".into(),
            op: AttributeSelectorOp::Eq,
        })
        .specificity(),
        10
    );
    assert_eq!(
        (SimpleSelector::ClassSelector { class_name: "c".into() }).specificity(),
        10
    );
}
