use mini_browser::html_parser::html_node::{HtmlNode, HtmlNodeInner, HtmlTree};
use mini_browser::html_parser::{split_attribute, HtmlParser};
use mini_browser::token::Token;
use mini_browser::strmap::StrMap;

fn tag(t: &HtmlTree, i: usize) -> String {
    match &t.nodes[i].inner {
        HtmlNodeInner::Element { tag, .. } => format!("<{}>", tag),
        HtmlNodeInner::Text { text } => format!("'{}'", text),
    }
}

fn children(t: &HtmlTree, i: usize) -> Vec<String> {
    t.nodes[i].children.iter().map(|&c| tag(t, c)).collect()
}

fn child(t: &HtmlTree, i: usize, k: usize) -> usize {
    t.nodes[i].children[k]
}

fn attr(t: &HtmlTree, i: usize, key: &str) -> Option<String> {
    t.nodes[i].get_attributes().and_then(|a| a.get(key).cloned())
}

#[test]
fn parse_implies_html_head_and_body() {
    let tree = HtmlParser::new("<title>x</title><p>hi</p>").parse();
    assert_eq!(tree.root, 0);
    assert_eq!(tag(&tree, 0), "<html>");
    assert_eq!(children(&tree, 0), vec!["<head>", "<body>"]);
    let head = child(&tree, 0, 0);
    let body = child(&tree, 0, 1);
    assert_eq!(children(&tree, head), vec!["<title>"]);
    assert_eq!(children(&tree, child(&tree, head, 0)), vec!["'x'"]);
    assert_eq!(children(&tree, body), vec!["<p>"]);
    assert_eq!(children(&tree, child(&tree, body, 0)), vec!["'hi'"]);
}

#[test]
fn parse_text_only() {
    let tree = HtmlParser::new("hello").parse();
    assert_eq!(tag(&tree, 0), "<html>");
    assert_eq!(children(&tree, 0), vec!["<body>"]);
    let body = child(&tree, 0, 0);
    assert_eq!(children(&tree, body), vec!["'hello'"]);
}

#[test]
fn parse_drops_blank_text() {
    let tree = HtmlParser::new("<p>  </p>\n<p>x</p>").parse();
    let body = child(&tree, 0, 0);
    assert_eq!(children(&tree, body), vec!["<p>", "<p>"]);
    assert!(children(&tree, child(&tree, body, 0)).is_empty());
}

#[test]
fn parse_void_element_takes_no_children() {
    let tree = HtmlParser::new("<p>a<br>b</p>").parse();
    let body = child(&tree, 0, 0);
    let p = child(&tree, body, 0);
    assert_eq!(children(&tree, p), vec!["'a'", "<br>", "'b'"]);
    assert!(tree.nodes[child(&tree, p, 1)].children.is_empty());
}

#[test]
fn parse_nesting_and_end_tags() {
    let tree = HtmlParser::new("<div><p>a</p><p>b</p></div><span>c</span>").parse();
    let body = child(&tree, 0, 0);
    assert_eq!(children(&tree, body), vec!["<div>", "<span>"]);
    let div = child(&tree, body, 0);
    assert_eq!(children(&tree, div), vec!["<p>", "<p>"]);
}

#[test]
fn parse_head_closes_before_body_content() {
    let tree = HtmlParser::new("<meta><p>x</p>").parse();
    assert_eq!(children(&tree, 0), vec!["<head>", "<body>"]);
    assert_eq!(children(&tree, child(&tree, 0, 0)), vec!["<meta>"]);
}

#[test]
fn parse_attributes() {
    let tree = HtmlParser::new("<a href=\"x.html\" CLASS=Big hidden>t</a>").parse();
    let body = child(&tree, 0, 0);
    let a = child(&tree, body, 0);
    assert_eq!(tag(&tree, a), "<a>");
    assert_eq!(attr(&tree, a, "href").as_deref(), Some("x.html"));
    assert_eq!(attr(&tree, a, "class").as_deref(), Some("Big"));
    assert_eq!(attr(&tree, a, "hidden").as_deref(), Some(""));
    assert_eq!(attr(&tree, a, "CLASS"), None);
    assert_eq!(tree.nodes[a].get_attributes().map(|m| m.len()), Some(3));
}

#[test]
fn parse_short_quoted_value_is_kept() {
    let tree = HtmlParser::new("<p title=\"\">t</p>").parse();
    let body = child(&tree, 0, 0);
    let p = child(&tree, body, 0);
    assert_eq!(attr(&tree, p, "title").as_deref(), Some("\"\""));
}

#[test]
fn parse_tree_links_agree() {
    let tree = HtmlParser::new("<div><p>a<b>b</b></p></div><p>c</p>").parse();
    for (i, n) in tree.nodes.iter().enumerate() {
        match n.parent {
            None => assert_eq!(i, 0),
            Some(p) => {
                assert!(p < i);
                assert!(tree.nodes[p].children.contains(&i));
            }
        }
        for &c in n.children.iter() {
            assert_eq!(tree.nodes[c].parent, Some(i));
        }
    }
}

#[test]
fn try_parse_rejects_what_parse_cannot_build() {
    assert!(HtmlParser::new("").try_parse().is_none());
    assert!(HtmlParser::new("  \n ").try_parse().is_none());
    assert!(HtmlParser::new("<>").try_parse().is_none());
    assert!(HtmlParser::new("<p>x</p><   >").try_parse().is_none());
    assert!(HtmlParser::new("<p title='x\u{e9}>a</p>").try_parse().is_none());
    assert!(HtmlParser::new("<p title='x\u{e9}'>a</p>").try_parse().is_some());
    assert!(HtmlParser::new("<p>x</p>").try_parse().is_some());
    assert!(HtmlParser::new("<p title='xy'>a</p>").try_parse().is_some());
}

#[test]
fn node_queries() {
    let mut attrs = StrMap::new();
    attrs.insert("id".to_string(), "main".to_string());
    let e = HtmlNode::new_element_node("div", attrs, None);
    assert!(e.is_element_node());
    assert!(!e.is_text_node());
    assert_eq!(e.get_tag(), Some("div"));
    assert_eq!(e.get_attributes().and_then(|a| a.get("id").cloned()).as_deref(), Some("main"));
    assert_eq!(e.to_string(), "<div>");
    let t = HtmlNode::new_text_node("hi", Some(0));
    assert!(t.is_text_node());
    assert!(!t.is_element_node());
    assert_eq!(t.get_tag(), None);
    assert!(t.get_attributes().is_none());
    assert_eq!(t.parent, Some(0));
    assert_eq!(t.to_string(), "hi");
}

#[test]
fn paint_tree_outline() {
    let tree = HtmlParser::new("<p>hi</p>").parse();
    let lines = tree.paint_tree(0, 0);
    assert_eq!(
        lines,
        vec!["<html>", "  <body>", "    <p>", "      hi", "    <p>", "  <body>", "<html>"]
    );
    let body = child(&tree, 0, 0);
    assert_eq!(tree.paint_tree(body, 1), vec![" <body>", "   <p>", "     hi", "   <p>", " <body>"]);
}

#[test]
fn parse_end_of_body_then_text_opens_a_second_body() {
    // After `</body>` only `<html>` is open, so the end of input implies a
    // new, empty `<body>`.
    let tree = HtmlParser::new("<body>x</body>").parse();
    assert_eq!(children(&tree, 0), vec!["<body>", "<body>"]);
    assert!(children(&tree, child(&tree, 0, 1)).is_empty());
}

#[test]
fn parse_keeps_every_text_in_order() {
    let source = "x<p>a</p> \n<title>t</title><b>b c</b>d";
    let tree = HtmlParser::new(source).parse();
    let texts: Vec<&str> = tree
        .nodes
        .iter()
        .filter_map(|n| match n.inner {
            HtmlNodeInner::Text { text } => Some(text),
            _ => None,
        })
        .collect();
    assert_eq!(texts, vec!["x", "a", "t", "b c", "d"]);
}

fn preorder_texts<'a>(t: &HtmlTree<'a>, i: usize, out: &mut Vec<&'a str>) {
    if let HtmlNodeInner::Text { text } = t.nodes[i].inner {
        out.push(text);
    }
    for &c in t.nodes[i].children.iter() {
        preorder_texts(t, c, out);
    }
}

fn walk(t: &HtmlTree, i: usize, order: &mut Vec<usize>) {
    order.push(i);
    for &c in t.nodes[i].children.iter() {
        walk(t, c, order);
    }
}

#[test]
fn parse_text_in_document_order() {
    for source in [
        "<div><p>a</p>b<span>c<i>d</i></span></div>e",
        "x<title>t</title><meta>y<br>z",
        "<ul><li>1<li>2</ul>  <p>3",
    ] {
        let tree = HtmlParser::new(source).parse();
        let mut texts = Vec::new();
        preorder_texts(&tree, tree.root, &mut texts);
        let expected: Vec<&str> = Token::lex(source)
            .into_iter()
            .filter_map(|t| match t {
                Token::Text(s) if !s.trim().is_empty() => Some(s),
                _ => None,
            })
            .collect();
        assert_eq!(texts, expected);
        // Node numbers follow document order as well.
        let mut order = Vec::new();
        walk(&tree, tree.root, &mut order);
        assert_eq!(order, (0..tree.nodes.len()).collect::<Vec<usize>>());
    }
}

#[test]
fn split_attribute_keeps_the_name_as_written() {
    assert_eq!(split_attribute("CLASS='x'"), ("CLASS", "x".to_string()));
    assert_eq!(split_attribute("hidden"), ("hidden", String::new()));
    assert_eq!(split_attribute("a=b=c"), ("a", "b=c".to_string()));
    assert_eq!(split_attribute("t=\"\""), ("t", "\"\"".to_string()));
}
