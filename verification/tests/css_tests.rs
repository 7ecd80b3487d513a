use mini_browser::css_parser::descendant_seletor::{DescendantSeletor, Selector};
use mini_browser::css_parser::tag_selector::TagSelector;
use mini_browser::css_parser::{style, CssParser};
use mini_browser::html_parser::html_node::{HtmlNodeInner, HtmlTree};
use mini_browser::html_parser::HtmlParser;
use mini_browser::strmap::StrMap;

fn value(m: &StrMap, k: &str) -> Option<String> {
    m.get(k).cloned()
}

fn find(tree: &HtmlTree, name: &str) -> usize {
    tree.nodes
        .iter()
        .position(|n| matches!(n.inner, HtmlNodeInner::Element { tag, .. } if tag == name))
        .unwrap()
}

fn find_text(tree: &HtmlTree, text: &str) -> usize {
    tree.nodes
        .iter()
        .position(|n| matches!(n.inner, HtmlNodeInner::Text { text: t } if t == text))
        .unwrap()
}

#[test]
fn css_parse_rules_and_declarations() {
    let rules = CssParser::new("p { color: red; } div p { font-size: 12px }").parse();
    assert_eq!(rules.len(), 2);
    assert_eq!(rules[0].0.priority(), 1);
    assert_eq!(rules[0].1.len(), 1);
    assert_eq!(value(&rules[0].1, "color").as_deref(), Some("red"));
    assert_eq!(rules[1].0.priority(), 2);
    // The value runs up to `;` or `}`: the space before `}` is kept.
    assert_eq!(value(&rules[1].1, "font-size").as_deref(), Some("12px "));
}

#[test]
fn css_parse_skips_a_rule_without_braces() {
    // A rule that never closes is dropped, as is a selector without a block.
    let rules = CssParser::new("h1 { color: blue; } p { color: red").parse();
    assert_eq!(rules.len(), 1);
    assert_eq!(value(&rules[0].1, "color").as_deref(), Some("blue"));
    let rules = CssParser::new("h1 { color: blue; } p").parse();
    assert_eq!(rules.len(), 1);
}

#[test]
fn css_parse_skips_a_bad_declaration() {
    let rules = CssParser::new("p { : x; color: red; margin }").parse();
    assert_eq!(rules.len(), 1);
    assert_eq!(rules[0].1.len(), 1);
    assert_eq!(value(&rules[0].1, "color").as_deref(), Some("red"));
}

#[test]
fn css_parse_keeps_last_of_repeated_property() {
    let rules = CssParser::new("p{color:red;color:green;}").parse();
    assert_eq!(value(&rules[0].1, "color").as_deref(), Some("green"));
}

#[test]
fn css_parse_empty_and_blank() {
    assert!(CssParser::new("").parse().is_empty());
    assert!(CssParser::new("").try_parse().is_some());
}

#[test]
fn css_try_parse_refuses_a_missing_selector() {
    assert!(CssParser::new("   ").try_parse().is_none());
    assert!(CssParser::new("p > div { color: red; }").try_parse().is_none());
    assert!(CssParser::new("{ color: red; }").try_parse().is_none());
    let ok = CssParser::new("p div { color: red; }").try_parse().unwrap();
    assert_eq!(ok.len(), 1);
}

#[test]
fn css_selector_words_are_lowercased() {
    let tree = HtmlParser::new("<p>x</p>").parse();
    let rules = CssParser::new("P { color: red; }").parse();
    let p = find(&tree, "p");
    assert!(rules[0].0.matches(&tree, p));
}

#[test]
fn tag_selector_matches_elements_by_tag() {
    let tree = HtmlParser::new("<p>x</p><div>y</div>").parse();
    let s = TagSelector::new("p".to_string());
    assert_eq!(s.priority(), 1);
    assert!(s.matches(&tree, find(&tree, "p")));
    assert!(!s.matches(&tree, find(&tree, "div")));
    assert!(!s.matches(&tree, find_text(&tree, "x")));
}

#[test]
fn descendant_selector_needs_a_matching_ancestor() {
    let tree = HtmlParser::new("<div><span><p>a</p></span></div><p>b</p>").parse();
    let d = DescendantSeletor::new(
        Box::new(Selector::new_tag("div".to_string())),
        Box::new(Selector::new_tag("p".to_string())),
    );
    assert_eq!(d.priority(), 2);
    let inner_p = tree.nodes[find_text(&tree, "a")].parent.unwrap();
    let outer_p = tree.nodes[find_text(&tree, "b")].parent.unwrap();
    assert!(d.matches(&tree, inner_p));
    assert!(!d.matches(&tree, outer_p));
    // The node itself is no ancestor of itself.
    let self_sel = Selector::new_descendant(Selector::new_tag("p".to_string()), Selector::new_tag("p".to_string()));
    assert!(!self_sel.matches(&tree, inner_p));
    assert_eq!(self_sel.priority(), 2);
}

#[test]
fn nested_descendant_priority_counts_tags() {
    let s = Selector::new_descendant(
        Selector::new_descendant(Selector::new_tag("a".to_string()), Selector::new_tag("b".to_string())),
        Selector::new_tag("c".to_string()),
    );
    assert_eq!(s.priority(), 3);
}

const PAGE: &str = "<html style=x><body style=x><p style=\"color:blue\">hi<b style=x>bold</b></p><div style=x>plain</div>";

#[test]
fn style_cascade_order() {
    let mut tree = HtmlParser::new(PAGE).parse();
    let rules = CssParser::new("p { color: red; font-weight: bold; } body p { font-style: italic; } div { font-size: 20px; }").parse();
    style(&mut tree, 0, &rules);
    let root = &tree.nodes[0].styles;
    assert_eq!(value(root, "font-size").as_deref(), Some("16px"));
    assert_eq!(value(root, "font-style").as_deref(), Some("normal"));
    assert_eq!(value(root, "font-weight").as_deref(), Some("normal"));
    assert_eq!(value(root, "color").as_deref(), Some("black"));
    let p = find(&tree, "p");
    // The style attribute wins over the rule.
    assert_eq!(value(&tree.nodes[p].styles, "color").as_deref(), Some("blue"));
    assert_eq!(value(&tree.nodes[p].styles, "font-weight").as_deref(), Some("bold"));
    assert_eq!(value(&tree.nodes[p].styles, "font-style").as_deref(), Some("italic"));
    // Text and children inherit.
    let hi = find_text(&tree, "hi");
    assert_eq!(value(&tree.nodes[hi].styles, "color").as_deref(), Some("blue"));
    assert_eq!(value(&tree.nodes[hi].styles, "font-style").as_deref(), Some("italic"));
    let b = find(&tree, "b");
    assert_eq!(value(&tree.nodes[b].styles, "font-weight").as_deref(), Some("bold"));
    let div = find(&tree, "div");
    assert_eq!(value(&tree.nodes[div].styles, "font-size").as_deref(), Some("20px"));
    assert_eq!(value(&tree.nodes[div].styles, "color").as_deref(), Some("black"));
    let plain = find_text(&tree, "plain");
    assert_eq!(value(&tree.nodes[plain].styles, "font-size").as_deref(), Some("20px"));
}

#[test]
fn style_gives_every_node_the_inherited_properties() {
    let mut tree = HtmlParser::new(PAGE).parse();
    let rules = CssParser::new("b { color: green; }").parse();
    style(&mut tree, 0, &rules);
    for n in tree.nodes.iter() {
        for k in ["font-size", "font-style", "font-weight", "color"] {
            assert!(n.styles.contains_key(k));
        }
    }
    let bold = find_text(&tree, "bold");
    assert_eq!(value(&tree.nodes[bold].styles, "color").as_deref(), Some("green"));
}

#[test]
fn style_of_a_subtree_leaves_the_rest() {
    let mut tree = HtmlParser::new(PAGE).parse();
    let rules = CssParser::new("div { color: red; }").parse();
    style(&mut tree, 0, &rules);
    let div = find(&tree, "div");
    let rules2 = CssParser::new("div { color: green; }").parse();
    style(&mut tree, div, &rules2);
    assert_eq!(value(&tree.nodes[div].styles, "color").as_deref(), Some("green"));
    let p = find(&tree, "p");
    assert_eq!(value(&tree.nodes[p].styles, "color").as_deref(), Some("blue"));
}

#[test]
fn style_twice_changes_nothing() {
    let mut tree = HtmlParser::new(PAGE).parse();
    let rules = CssParser::new("p { color: red; margin: 1px; } b { color: green; }").parse();
    style(&mut tree, 0, &rules);
    let first: Vec<Vec<(String, String)>> = tree.nodes.iter().map(|n| entries(&n.styles)).collect();
    style(&mut tree, 0, &rules);
    let second: Vec<Vec<(String, String)>> = tree.nodes.iter().map(|n| entries(&n.styles)).collect();
    assert_eq!(first, second);
}

fn entries(m: &StrMap) -> Vec<(String, String)> {
    let mut v: Vec<(String, String)> = (0..m.len()).map(|i| (m.key_at(i).clone(), m.value_at(i).clone())).collect();
    v.sort();
    v
}

#[test]
fn css_parse_uses_up_its_input() {
    let mut p = CssParser::new("p { color: red; } h1 { color: blue");
    assert_eq!(p.parse().len(), 1);
    assert!(p.parse().is_empty());
    let mut q = CssParser::new("div { x: y; }");
    assert_eq!(q.try_parse().map(|v| v.len()), Some(1));
    assert_eq!(q.try_parse().map(|v| v.len()), Some(0));
}
