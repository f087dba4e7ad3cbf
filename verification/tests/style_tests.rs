use markup_tree::dom::NodeType;
use markup_tree::html_parse::parse;
use markup_tree::style::{
    Declaration, Display, Rule, Selector, SimpleSelector, Stylesheet, StyledNode, Value,
};

fn simple(tag: Option<&str>, id: Option<&str>, classes: &[&str]) -> SimpleSelector {
    SimpleSelector {
        tag_name: tag.map(String::from),
        id: id.map(String::from),
        classes: classes.iter().map(|c| String::from(*c)).collect(),
    }
}

fn rule_for(sel: SimpleSelector, property: &str, value: Value) -> Rule {
    Rule {
        selectors: vec![Selector { simple: vec![sel] }],
        declarations: vec![Declaration { property: String::from(property), value }],
    }
}

#[test]
fn tag_selector_sets_display_block() {
    let nodes = parse("<div><p>x</p></div>");
    let sheet = Stylesheet {
        rules: vec![rule_for(
            simple(Some("div"), None, &[]),
            "display",
            Value::Other(String::from("block")),
        )],
    };
    let styled = StyledNode::new(&nodes[0], &sheet);
    assert!(matches!(styled.get_display(), Display::Block));
    match styled.value("display") {
        Some(Value::Other(v)) => assert_eq!(v, "block"),
        _ => panic!("expected the declared keyword"),
    }
    assert_eq!(styled.children.len(), 1);
    assert!(matches!(styled.children[0].get_display(), Display::Inline));
}

#[test]
fn id_selector_matches_only_that_id() {
    let nodes = parse("<div id=\"a\"><div id=\"b\">x</div></div>");
    let sheet = Stylesheet {
        rules: vec![rule_for(
            simple(None, Some("b"), &[]),
            "display",
            Value::Other(String::from("none")),
        )],
    };
    let outer = StyledNode::new(&nodes[0], &sheet);
    assert!(matches!(outer.get_display(), Display::Inline));
    assert_eq!(outer.children.len(), 1);
    assert!(matches!(outer.children[0].get_display(), Display::Hidden));
}

#[test]
fn class_selector_needs_every_class() {
    let nodes = parse("<div class=\"y z\">x</div>");
    let both = Stylesheet {
        rules: vec![rule_for(
            simple(None, None, &["y", "z"]),
            "display",
            Value::Other(String::from("inline-block")),
        )],
    };
    let missing = Stylesheet {
        rules: vec![rule_for(
            simple(None, None, &["y", "w"]),
            "display",
            Value::Other(String::from("inline-block")),
        )],
    };
    let s1 = StyledNode::new(&nodes[0], &both);
    let s2 = StyledNode::new(&nodes[0], &missing);
    assert!(matches!(s1.get_display(), Display::InlineBlock));
    assert!(matches!(s2.get_display(), Display::Inline));
}

#[test]
fn later_rule_overrides_earlier() {
    let nodes = parse("<p>x</p>");
    let sheet = Stylesheet {
        rules: vec![
            rule_for(simple(Some("p"), None, &[]), "display", Value::Other(String::from("block"))),
            rule_for(simple(None, None, &[]), "display", Value::Other(String::from("none"))),
        ],
    };
    let styled = StyledNode::new(&nodes[0], &sheet);
    assert!(matches!(styled.get_display(), Display::Hidden));
}

#[test]
fn unknown_keyword_and_lengths_read_as_inline() {
    let nodes = parse("<p>x</p>");
    let keyword = Stylesheet {
        rules: vec![rule_for(
            simple(Some("p"), None, &[]),
            "display",
            Value::Other(String::from("flex")),
        )],
    };
    let length = Stylesheet {
        rules: vec![rule_for(
            simple(Some("p"), None, &[]),
            "display",
            Value::Length(3, markup_tree::style::Unit::Px),
        )],
    };
    let s1 = StyledNode::new(&nodes[0], &keyword);
    let s2 = StyledNode::new(&nodes[0], &length);
    assert!(matches!(s1.get_display(), Display::Inline));
    assert!(matches!(s2.get_display(), Display::Inline));
    assert!(s1.value("margin").is_none());
}

#[test]
fn selector_matches_directly() {
    let nodes = parse("<div id=\"i\" class=\"a b\">x</div>");
    let element = match &nodes[0].node_type {
        NodeType::Element(e) => e,
        _ => panic!("expected an element"),
    };
    let yes = Selector { simple: vec![simple(Some("div"), Some("i"), &["a"])] };
    let wrong_tag = Selector { simple: vec![simple(Some("p"), None, &[])] };
    let second_simple_saves = Selector {
        simple: vec![simple(Some("p"), None, &[]), simple(None, None, &["b"])],
    };
    assert!(markup_tree::style::selector_matches(element, &yes));
    assert!(!markup_tree::style::selector_matches(element, &wrong_tag));
    assert!(markup_tree::style::selector_matches(element, &second_simple_saves));
}
