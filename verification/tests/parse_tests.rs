use markup_tree::dom::{Node, NodeType};
use markup_tree::html_parse::parse;

fn element(node: &Node) -> (&str, &Node) {
    match &node.node_type {
        NodeType::Element(e) => (e.tag_name.as_str(), node),
        _ => panic!("expected an element"),
    }
}

fn text(node: &Node) -> &str {
    match &node.node_type {
        NodeType::Text(t) => {
            assert!(node.children.is_empty());
            t.as_str()
        },
        _ => panic!("expected a text node"),
    }
}

fn comment(node: &Node) -> &str {
    match &node.node_type {
        NodeType::Comment(t) => {
            assert!(node.children.is_empty());
            t.as_str()
        },
        _ => panic!("expected a comment node"),
    }
}

#[test]
fn well_formed_round_trip() {
    let nodes = parse("<div class=\"a\"><p>Hi <b>there</b></p></div>");
    assert_eq!(nodes.len(), 1);
    let (tag, div) = element(&nodes[0]);
    assert_eq!(tag, "div");
    match &div.node_type {
        NodeType::Element(e) => {
            assert_eq!(e.attribute("class"), Some(String::from("a")));
        },
        _ => unreachable!(),
    }
    assert_eq!(div.children.len(), 1);
    let (ptag, p) = element(&div.children[0]);
    assert_eq!(ptag, "p");
    assert_eq!(p.children.len(), 2);
    assert_eq!(text(&p.children[0]), "Hi ");
    let (btag, b) = element(&p.children[1]);
    assert_eq!(btag, "b");
    assert_eq!(b.children.len(), 1);
    assert_eq!(text(&b.children[0]), "there");
}

#[test]
fn whitespace_normalization() {
    let nodes = parse("<p>  Hello   world  </p>");
    assert_eq!(nodes.len(), 1);
    let (tag, p) = element(&nodes[0]);
    assert_eq!(tag, "p");
    assert_eq!(p.children.len(), 1);
    assert_eq!(text(&p.children[0]), " Hello world ");
}

#[test]
fn misnested_recovery() {
    let nodes = parse("<p><b>x</p>y</b>");
    assert_eq!(nodes.len(), 1);
    let (tag, p) = element(&nodes[0]);
    assert_eq!(tag, "p");
    assert_eq!(p.children.len(), 3);
    let (btag, b) = element(&p.children[0]);
    assert_eq!(btag, "b");
    assert_eq!(b.children.len(), 0);
    assert_eq!(text(&p.children[1]), "x");
    assert_text(&p.children[2], "y");
}

fn assert_text(n: &Node, expected: &str) {
    match &n.node_type {
        NodeType::Text(t) => assert_eq!(t, expected),
        _ => panic!("expected text"),
    }
}

#[test]
fn degenerate_comment() {
    let nodes = parse("<!-->");
    assert_eq!(nodes.len(), 1);
    assert_eq!(comment(&nodes[0]), "");
}

#[test]
fn verbatim_comment_body() {
    let nodes = parse("<!-- hi -->");
    assert_eq!(nodes.len(), 1);
    assert_eq!(comment(&nodes[0]), " hi ");
}

#[test]
fn comment_with_inner_dashes() {
    let nodes = parse("<!-- a-b -->");
    assert_eq!(nodes.len(), 1);
    assert_eq!(comment(&nodes[0]), " a-b ");
}

#[test]
fn empty_dash_comment() {
    let nodes = parse("<!--->");
    assert_eq!(nodes.len(), 1);
    assert_eq!(comment(&nodes[0]), "");
}

#[test]
fn bogus_comment_consumes_close() {
    let nodes = parse("<!doctype html>x");
    assert_eq!(nodes.len(), 2);
    assert_eq!(comment(&nodes[0]), "");
    assert_eq!(text(&nodes[1]), "x");
}

#[test]
fn attribute_case_folding() {
    let nodes = parse("<div ID=\"x\" Class='y z'>");
    assert_eq!(nodes.len(), 1);
    match &nodes[0].node_type {
        NodeType::Element(e) => {
            assert_eq!(e.attribute("id"), Some(String::from("x")));
            assert_eq!(e.attribute("class"), Some(String::from("y z")));
            assert_eq!(e.attribute("ID"), None);
            assert_eq!(e.id(), Some(String::from("x")));
            let classes = e.classes();
            assert_eq!(classes.len(), 2);
            assert!(classes.contains(&String::from("y")));
            assert!(classes.contains(&String::from("z")));
        },
        _ => panic!("expected an element"),
    }
}

#[test]
fn attribute_unicode_case_folding() {
    let nodes = parse("<div \u{C4}=x>");
    assert_eq!(nodes.len(), 1);
    match &nodes[0].node_type {
        NodeType::Element(e) => {
            assert_eq!(e.attribute("\u{E4}"), Some(String::from("x")));
            assert_eq!(e.attribute("\u{C4}"), None);
        },
        _ => panic!("expected an element"),
    }
}

#[test]
fn attribute_values_keep_case() {
    let nodes = parse("<div a=B c='D'>");
    match &nodes[0].node_type {
        NodeType::Element(e) => {
            assert_eq!(e.attribute("a"), Some(String::from("B")));
            assert_eq!(e.attribute("c"), Some(String::from("D")));
        },
        _ => panic!("expected an element"),
    }
}

#[test]
fn repeated_attribute_last_wins() {
    let nodes = parse("<div a=\"1\" a=\"2\">");
    match &nodes[0].node_type {
        NodeType::Element(e) => {
            assert_eq!(e.attribute("a"), Some(String::from("2")));
        },
        _ => panic!("expected an element"),
    }
}

#[test]
fn self_closing_slash_terminates() {
    let nodes = parse("<br/>done");
    assert_eq!(nodes.len(), 1);
    let (tag, br) = element(&nodes[0]);
    assert_eq!(tag, "br");
    match &br.node_type {
        NodeType::Element(e) => assert_eq!(e.attribute(""), None),
        _ => unreachable!(),
    }
    assert_eq!(br.children.len(), 1);
    assert_eq!(text(&br.children[0]), "done");
}

#[test]
fn stray_quote_in_tag_terminates() {
    let nodes = parse("<div \"x>y");
    assert_eq!(nodes.len(), 1);
    let (tag, div) = element(&nodes[0]);
    assert_eq!(tag, "div");
    match &div.node_type {
        NodeType::Element(e) => assert_eq!(e.attribute("x"), Some(String::new())),
        _ => unreachable!(),
    }
    assert_eq!(div.children.len(), 1);
    assert_eq!(text(&div.children[0]), "y");
}

#[test]
fn unmatched_closing_tag_is_discarded() {
    let nodes = parse("a</b>c");
    assert_eq!(nodes.len(), 2);
    assert_text(&nodes[0], "a");
    assert_text(&nodes[1], "c");
}

#[test]
fn empty_and_blank_inputs() {
    assert!(parse("").is_empty());
    assert!(parse("   ").is_empty());
}

#[test]
fn unterminated_tag_consumes_input() {
    let nodes = parse("<div a=\"x");
    assert_eq!(nodes.len(), 1);
    let (tag, _) = element(&nodes[0]);
    assert_eq!(tag, "div");
}

#[test]
fn multiple_top_level_siblings() {
    let nodes = parse("<p>a</p><p>b</p>");
    assert_eq!(nodes.len(), 2);
    let (t0, p0) = element(&nodes[0]);
    let (t1, p1) = element(&nodes[1]);
    assert_eq!(t0, "p");
    assert_eq!(t1, "p");
    assert_text(&p0.children[0], "a");
    assert_text(&p1.children[0], "b");
}
