use mini_browser::document::{Document, HtmlParser, NodeData};
use mini_browser::layout::{
    background_color, close_tag, open_tag, FontStyle, FontWeight, InlineItem, LayoutMode, TagEffect,
};
use mini_browser::paint::{ends_polling, parse_image_rendering, BrowserEvent, ImageRendering, Sampling};
use mini_browser::strmap::StrMap;

fn find(doc: &Document, name: &str) -> usize {
    doc.nodes
        .iter()
        .position(|n| matches!(n.data, NodeData::Element { tag, .. } if tag == name))
        .unwrap()
}

fn find_text(doc: &Document, text: &str) -> usize {
    doc.nodes
        .iter()
        .position(|n| matches!(n.data, NodeData::Text { text: t } if t == text))
        .unwrap()
}

fn items(v: &[InlineItem]) -> Vec<String> {
    v.iter()
        .map(|i| match i {
            InlineItem::Word(w) => w.to_string(),
            InlineItem::LineBreak => "<br>".to_string(),
        })
        .collect()
}

#[test]
fn document_render_markup() {
    let doc = HtmlParser::new("<p>hi<b>x</b></p>").parse();
    assert_eq!(doc.root, 0);
    assert_eq!(doc.render(0), "<html><body><p>hi<b>x</b></p></body></html>");
    let b = find(&doc, "b");
    assert_eq!(doc.render(b), "<b>x</b>");
    assert_eq!(doc.render(find_text(&doc, "hi")), "hi");
}

#[test]
fn document_render_void_and_head() {
    let doc = HtmlParser::new("<title>T</title><p>a<br>b</p>").parse();
    assert_eq!(
        doc.render(0),
        "<html><head><title>T</title></head><body><p>a<br></br>b</p></body></html>"
    );
}

#[test]
fn document_try_parse() {
    assert!(HtmlParser::new("").try_parse().is_none());
    assert!(HtmlParser::new("<>").try_parse().is_none());
    let doc = HtmlParser::new("x").try_parse().unwrap();
    assert_eq!(doc.render(0), "<html><body>x</body></html>");
}

#[test]
fn layout_mode_of_nodes() {
    let doc = HtmlParser::new("<div><p>hi</p><img></div><span>x</span>").parse();
    assert_eq!(doc.layout_mode(0), LayoutMode::Block);
    assert_eq!(doc.layout_mode(find(&doc, "body")), LayoutMode::Block);
    assert_eq!(doc.layout_mode(find(&doc, "div")), LayoutMode::Block);
    assert_eq!(doc.layout_mode(find(&doc, "p")), LayoutMode::Inline);
    assert_eq!(doc.layout_mode(find(&doc, "img")), LayoutMode::Inline);
    assert_eq!(doc.layout_mode(find(&doc, "span")), LayoutMode::Inline);
    assert_eq!(doc.layout_mode(find_text(&doc, "hi")), LayoutMode::Inline);
    let doc = HtmlParser::new("<div></div><input><br><iframe></iframe>").parse();
    assert_eq!(doc.layout_mode(find(&doc, "div")), LayoutMode::Block);
    assert_eq!(doc.layout_mode(find(&doc, "input")), LayoutMode::Inline);
    assert_eq!(doc.layout_mode(find(&doc, "br")), LayoutMode::Block);
    assert_eq!(doc.layout_mode(find(&doc, "iframe")), LayoutMode::Inline);
}

#[test]
fn should_paint_text_and_widgets() {
    let doc = HtmlParser::new("<p>hi</p><img><button>b</button><input>").parse();
    assert!(doc.should_paint(find_text(&doc, "hi")));
    assert!(doc.should_paint(find(&doc, "img")));
    assert!(doc.should_paint(find(&doc, "button")));
    assert!(doc.should_paint(find(&doc, "input")));
    assert!(!doc.should_paint(find(&doc, "p")));
    assert!(!doc.should_paint(0));
}

#[test]
fn inline_items_in_document_order() {
    let doc = HtmlParser::new("<p>a  b<br>c <i>d</i></p>").parse();
    let p = find(&doc, "p");
    assert_eq!(items(&doc.inline_items(p)), vec!["a", "b", "<br>", "c", "d"]);
    assert!(doc.inline_items(find(&doc, "br")).len() == 1);
}

#[test]
fn background_color_unless_transparent() {
    let mut m = StrMap::new();
    assert_eq!(background_color(&m), None);
    m.insert("background-color".to_string(), "transparent".to_string());
    assert_eq!(background_color(&m), None);
    m.insert("background-color".to_string(), "blue".to_string());
    assert_eq!(background_color(&m).as_deref(), Some("blue"));
}

#[test]
fn font_names() {
    assert_eq!(FontStyle::from_name("italic"), FontStyle::Italic);
    assert_eq!(FontStyle::from_name("normal"), FontStyle::Roman);
    assert_eq!(FontStyle::from_name("Italic"), FontStyle::Roman);
    assert_eq!(FontWeight::from_name("bold"), FontWeight::Bold);
    assert_eq!(FontWeight::from_name("normal"), FontWeight::Normal);
    assert_eq!(FontWeight::from_name("700"), FontWeight::Normal);
}

#[test]
fn tag_effects() {
    assert_eq!(open_tag("i"), TagEffect::SetStyle(FontStyle::Italic));
    assert_eq!(open_tag("b"), TagEffect::SetWeight(FontWeight::Bold));
    assert_eq!(open_tag("small"), TagEffect::Resize(-2));
    assert_eq!(open_tag("big"), TagEffect::Resize(4));
    assert_eq!(open_tag("br"), TagEffect::Flush);
    assert_eq!(open_tag("p"), TagEffect::Nothing);
    assert_eq!(close_tag("i"), TagEffect::SetStyle(FontStyle::Roman));
    assert_eq!(close_tag("b"), TagEffect::SetWeight(FontWeight::Normal));
    assert_eq!(close_tag("small"), TagEffect::Resize(2));
    assert_eq!(close_tag("big"), TagEffect::Resize(-4));
    assert_eq!(close_tag("p"), TagEffect::EndParagraph);
    assert_eq!(close_tag("br"), TagEffect::Nothing);
}

#[test]
fn image_sampling_and_events() {
    assert_eq!(parse_image_rendering(ImageRendering::HighQuality), Sampling::MitchellCubic);
    assert_eq!(parse_image_rendering(ImageRendering::CrispEdges), Sampling::Nearest);
    assert_eq!(parse_image_rendering(ImageRendering::Auto), Sampling::NearestMipmapLinear);
    assert!(ends_polling(BrowserEvent::Quit));
    assert!(ends_polling(BrowserEvent::Escape));
    assert!(!ends_polling(BrowserEvent::Other));
}

fn apply(font: (FontStyle, FontWeight, i32), e: TagEffect) -> (FontStyle, FontWeight, i32) {
    match e {
        TagEffect::SetStyle(s) => (s, font.1, font.2),
        TagEffect::SetWeight(w) => (font.0, w, font.2),
        TagEffect::Resize(d) => (font.0, font.1, font.2 + d),
        _ => font,
    }
}

#[test]
fn tag_and_end_tag_restore_the_font() {
    let start = (FontStyle::Roman, FontWeight::Normal, 12);
    for tag in ["i", "b", "small", "big", "br", "p", "span"] {
        let inside = apply(start, open_tag(tag));
        assert_eq!(apply(inside, close_tag(tag)), start);
    }
    assert_eq!(apply(start, open_tag("big")).2, 16);
    assert_eq!(apply(start, open_tag("small")).2, 10);
}
