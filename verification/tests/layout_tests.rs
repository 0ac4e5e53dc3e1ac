use wev::cssom::{CSSValue, Declaration, Rule, SimpleSelector, Stylesheet};
use wev::dom::{AttrMap, Element, Text as DomText};
use wev::layout::{
    children_to_object, inline_node, node_to_object, split_string_by_width, text_to_object,
    LayoutObject, LayoutObjectType, Rect, Text,
};
use wev::style::to_styled_node;

fn split(text: &str, width: usize, offset: usize) -> Vec<String> {
    split_string_by_width(text, width, offset)
}

fn owned(v: Vec<&str>) -> Vec<String> {
    v.into_iter().map(|s| s.to_string()).collect()
}

#[test]
fn test_split_string_by_width() {
    assert_eq!(split("hello world", 3, 0), owned(vec!["hel", "lo ", "wor", "ld"]));

    assert_eq!(
        split("こんにちは、今日はいい天気ですね。", 4, 0),
        owned(vec![
            "こん", "にち", "は、", "今日", "はい", "い天", "気で", "すね", "。"
        ])
    );

    assert_eq!(
        split("こんにちは、今日はいい天気ですね。", 4, 0),
        split("こんにちは、今日はいい天気ですね。", 5, 0),
    );

    assert_eq!(
        split("こんにちは、今日はいい天気ですね。", 6, 2),
        owned(vec!["こん", "にちは", "、今日", "はいい", "天気で", "すね。"])
    );
}

#[test]
fn test_split_empty_string_yields_one_empty_line() {
    assert_eq!(split("", 5, 0), owned(vec![""]));
}

#[test]
fn test_split_offset_forces_early_break() {
    assert_eq!(split("abcd", 3, 2), owned(vec!["a", "bcd"]));
    assert_eq!(split("ab", 2, 2), owned(vec!["", "ab"]));
}

#[test]
fn test_split_never_divides_a_cluster() {
    // a cluster wider than the line is given a line of its own rather
    // than being cut
    assert_eq!(split("あ", 1, 0), owned(vec!["", "あ"]));
    assert_eq!(split("xあy", 2, 0), owned(vec!["x", "あ", "y"]));
}

#[test]
fn test_text_to_object() {
    assert_eq!(
        text_to_object("hello world", Rect::new(0, 0, 20, 3), 0),
        LayoutObject {
            area: Rect::new(0, 0, 11, 1),
            ty: LayoutObjectType::Texts(vec![Text {
                area: Rect::new(0, 0, 11, 1),
                data: "hello world".into()
            }])
        }
    );

    assert_eq!(
        text_to_object("hello world", Rect::new(0, 0, 3, 10), 0),
        LayoutObject {
            area: Rect::new(0, 0, 11, 4),
            ty: LayoutObjectType::Texts(vec![
                Text { area: Rect::new(0, 0, 3, 1), data: "hel".into() },
                Text { area: Rect::new(0, 1, 3, 1), data: "lo ".into() },
                Text { area: Rect::new(0, 2, 3, 1), data: "wor".into() },
                Text { area: Rect::new(0, 3, 2, 1), data: "ld".into() }
            ])
        }
    );

    assert_eq!(
        text_to_object("hello world", Rect::new(3, 6, 5, 10), 0),
        LayoutObject {
            area: Rect::new(3, 6, 11, 3),
            ty: LayoutObjectType::Texts(vec![
                Text { area: Rect::new(3, 6, 5, 1), data: "hello".into() },
                Text { area: Rect::new(3, 7, 5, 1), data: " worl".into() },
                Text { area: Rect::new(3, 8, 1, 1), data: "d".into() },
            ])
        }
    );

    assert_eq!(
        text_to_object("hello world", Rect::new(3, 6, 5, 10), 4),
        LayoutObject {
            area: Rect::new(3, 6, 11, 3),
            ty: LayoutObjectType::Texts(vec![
                Text { area: Rect::new(3, 6, 1, 1), data: "h".into() },
                Text { area: Rect::new(3, 7, 5, 1), data: "ello ".into() },
                Text { area: Rect::new(3, 8, 5, 1), data: "world".into() },
            ])
        }
    );
}

#[test]
fn test_children_to_object() {
    let node = Element::new(
        "div".to_string(),
        AttrMap::new(),
        vec![
            Element::new(
                "div".to_string(),
                AttrMap::new(),
                vec![DomText::new("aaa".to_string())],
            ),
            Element::new(
                "div".to_string(),
                AttrMap::new(),
                vec![DomText::new("bbbbb".to_string())],
            ),
        ],
    );
    let stylesheet = Stylesheet::new(vec![]);

    let node = to_styled_node(&node, &stylesheet).unwrap();
    assert_eq!(
        children_to_object(&node, Rect::new(0, 0, 80, 40), 0),
        LayoutObject {
            area: Rect::new(0, 0, 5, 2),
            ty: LayoutObjectType::Block {
                children: vec![
                    LayoutObject {
                        area: Rect::new(0, 0, 3, 1),
                        ty: LayoutObjectType::Block {
                            children: vec![LayoutObject {
                                area: Rect::new(0, 0, 3, 1),
                                ty: LayoutObjectType::Texts(vec![Text {
                                    area: Rect::new(0, 0, 3, 1),
                                    data: "aaa".into()
                                }])
                            },]
                        }
                    },
                    LayoutObject {
                        area: Rect::new(0, 1, 5, 1),
                        ty: LayoutObjectType::Block {
                            children: vec![LayoutObject {
                                area: Rect::new(0, 1, 5, 1),
                                ty: LayoutObjectType::Texts(vec![Text {
                                    area: Rect::new(0, 1, 5, 1),
                                    data: "bbbbb".into()
                                }])
                            }]
                        }
                    }
                ]
            }
        }
    );

    let node = Element::new(
        "div".to_string(),
        AttrMap::new(),
        vec![
            DomText::new("とても".to_string()),
            Element::new(
                "strong".to_string(),
                AttrMap::new(),
                vec![DomText::new("強い".to_string())],
            ),
        ],
    );
    let stylesheet = Stylesheet::new(vec![Rule {
        selectors: vec![SimpleSelector::TypeSelector { tag_name: "strong".into() }],
        declarations: vec![Declaration {
            name: "display".to_string(),
            value: CSSValue::Keyword("inline".to_string()),
        }],
    }]);

    let node = to_styled_node(&node, &stylesheet).unwrap();
    assert_eq!(
        children_to_object(&node, Rect::new(0, 0, 80, 40), 0),
        LayoutObject {
            area: Rect::new(0, 0, 10, 1),
            ty: LayoutObjectType::Block {
                children: vec![
                    LayoutObject {
                        area: Rect::new(0, 0, 6, 1),
                        ty: LayoutObjectType::Texts(vec![Text {
                            area: Rect::new(0, 0, 6, 1),
                            data: "とても".into()
                        }])
                    },
                    LayoutObject {
                        area: Rect::new(6, 0, 4, 1),
                        ty: LayoutObjectType::Block {
                            children: vec![LayoutObject {
                                area: Rect::new(6, 0, 4, 1),
                                ty: LayoutObjectType::Texts(vec![Text {
                                    area: Rect::new(6, 0, 4, 1),
                                    data: "強い".into()
                                }])
                            }]
                        }
                    }
                ]
            }
        }
    );
}

#[test]
fn test_end_to_end_two_blocks() {
    let node = Element::new(
        "div".to_string(),
        AttrMap::new(),
        vec![
            Element::new(
                "div".to_string(),
                AttrMap::new(),
                vec![DomText::new("aaa".to_string())],
            ),
            Element::new(
                "div".to_string(),
                AttrMap::new(),
                vec![DomText::new("bbbbb".to_string())],
            ),
        ],
    );
    let styled = to_styled_node(&node, &Stylesheet::new(vec![])).unwrap();
    let object = node_to_object(&styled, Rect::new(0, 0, 80, 40), 0);
    assert_eq!(object.area, Rect::new(0, 0, 5, 2));
    match &object.ty {
        LayoutObjectType::Block { children } => {
            assert_eq!(children.len(), 2);
            // each block child starts a fresh row at the left edge
            assert_eq!(children[0].area, Rect::new(0, 0, 3, 1));
            assert_eq!(children[1].area, Rect::new(0, 1, 5, 1));
        }
        LayoutObjectType::Texts(_) => panic!("expected a block"),
    }
}

#[test]
fn test_inline_node_classification() {
    let text = to_styled_node(&DomText::new("x".to_string()), &Stylesheet::new(vec![])).unwrap();
    assert!(inline_node(&text));

    let block = to_styled_node(
        &Element::new("div".to_string(), AttrMap::new(), vec![]),
        &Stylesheet::new(vec![]),
    )
    .unwrap();
    assert!(!inline_node(&block));

    let stylesheet = Stylesheet::new(vec![Rule {
        selectors: vec![SimpleSelector::TypeSelector { tag_name: "span".into() }],
        declarations: vec![Declaration {
            name: "display".to_string(),
            value: CSSValue::Keyword("inline".to_string()),
        }],
    }]);
    let inline = to_styled_node(
        &Element::new("span".to_string(), AttrMap::new(), vec![]),
        &stylesheet,
    )
    .unwrap();
    assert!(inline_node(&inline));
}

#[test]
fn test_text_object_bounding_box() {
    // The leaf's bounding width is the SUM of its line widths, not the
    // widest line: 11 columns even when wrapped three columns wide. Its
    // height is the number of lines produced.
    let object = text_to_object("hello world", Rect::new(0, 0, 3, 10), 0);
    assert_eq!(object.area.width, 11);
    assert_eq!(object.area.height, 4);
}

#[test]
fn test_text_lines_respect_viewport_width() {
    let object = text_to_object("hello world", Rect::new(0, 0, 3, 10), 0);
    match &object.ty {
        LayoutObjectType::Texts(lines) => {
            for line in lines {
                assert!(line.area.width <= 3);
            }
        }
        LayoutObjectType::Block { .. } => panic!("expected text lines"),
    }
}
