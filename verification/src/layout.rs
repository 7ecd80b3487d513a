//! The decisions of block layout that do not depend on measuring text:
//! whether a node is laid out as a block or inline, which nodes paint
//! themselves, the background a block paints, how style words map to font
//! styles, and what a tag does to the font while text is laid out.
use vstd::prelude::*;
use crate::strmap::StrMap;
use crate::text::{str_eq, split_whitespace, words};
use crate::document::{Document, NodeData};
use crate::html_parser::html_node::{SpecNode, SpecData, tree_shape, tag_of};

verus! {

/// Elements that are laid out as blocks.
pub open spec fn block_element(t: Seq<char>) -> bool {
    ||| t == "html"@ ||| t == "body"@ ||| t == "article"@ ||| t == "section"@
    ||| t == "nav"@ ||| t == "aside"@ ||| t == "h1"@ ||| t == "h2"@
    ||| t == "h3"@ ||| t == "h4"@ ||| t == "h5"@ ||| t == "h6"@
    ||| t == "hgroup"@ ||| t == "header"@ ||| t == "footer"@ ||| t == "address"@
    ||| t == "p"@ ||| t == "hr"@ ||| t == "pre"@ ||| t == "blockquote"@
    ||| t == "ol"@ ||| t == "ul"@ ||| t == "menu"@ ||| t == "li"@
    ||| t == "dl"@ ||| t == "dt"@ ||| t == "dd"@ ||| t == "figure"@
    ||| t == "figcaption"@ ||| t == "main"@ ||| t == "div"@ ||| t == "table"@
    ||| t == "form"@ ||| t == "fieldset"@ ||| t == "legend"@ ||| t == "details"@
    ||| t == "summary"@
}

pub fn is_block_element(t: &str) -> (r: bool)
    ensures
        r == block_element(t@),
{
    str_eq(t, "html") || str_eq(t, "body") || str_eq(t, "article") || str_eq(t, "section")
        || str_eq(t, "nav") || str_eq(t, "aside") || str_eq(t, "h1") || str_eq(t, "h2")
        || str_eq(t, "h3") || str_eq(t, "h4") || str_eq(t, "h5") || str_eq(t, "h6")
        || str_eq(t, "hgroup") || str_eq(t, "header") || str_eq(t, "footer")
        || str_eq(t, "address") || str_eq(t, "p") || str_eq(t, "hr") || str_eq(t, "pre")
        || str_eq(t, "blockquote") || str_eq(t, "ol") || str_eq(t, "ul") || str_eq(t, "menu")
        || str_eq(t, "li") || str_eq(t, "dl") || str_eq(t, "dt") || str_eq(t, "dd")
        || str_eq(t, "figure") || str_eq(t, "figcaption") || str_eq(t, "main")
        || str_eq(t, "div") || str_eq(t, "table") || str_eq(t, "form")
        || str_eq(t, "fieldset") || str_eq(t, "legend") || str_eq(t, "details")
        || str_eq(t, "summary")
}

#[derive(Debug, PartialEq, Eq, Structural, Clone, Copy)]
pub enum LayoutMode {
    Inline,
    Block,
}

/// Replaced elements: laid out inline even without children.
pub open spec fn replaced_element(t: Seq<char>) -> bool {
    t == "input"@ || t == "img"@ || t == "iframe"@
}

/// Whether child `k` of node `n` is a block element.
pub open spec fn block_child(t: Seq<SpecNode>, n: int, k: int) -> bool {
    let c = t[n].children[k] as int;
    t[c].data is Element && block_element(tag_of(t[c].data))
}

/// Text is inline; an element with children is a block when one of them
/// is a block element and inline otherwise; an element without children
/// is inline when it is replaced and a block otherwise.
pub open spec fn layout_mode(t: Seq<SpecNode>, n: int) -> LayoutMode {
    if t[n].data is Text {
        LayoutMode::Inline
    } else if t[n].children.len() > 0 {
        if exists|k: int| 0 <= k < t[n].children.len() && #[trigger] block_child(t, n, k) {
            LayoutMode::Block
        } else {
            LayoutMode::Inline
        }
    } else if replaced_element(tag_of(t[n].data)) {
        LayoutMode::Inline
    } else {
        LayoutMode::Block
    }
}

/// An element with a child element whose tag is one of the block
/// elements (`html`, `body`, `article`, `section`, `nav`, `aside`, `h1` to
/// `h6`, `hgroup`, `header`, `footer`, `address`, `p`, `hr`, `pre`,
/// `blockquote`, `ol`, `ul`, `menu`, `li`, `dl`, `dt`, `dd`, `figure`,
/// `figcaption`, `main`, `div`, `table`, `form`, `fieldset`, `legend`,
/// `details`, `summary`) is laid out as a block.
pub proof fn lemma_block_child_makes_block(t: Seq<SpecNode>, n: int, k: int, tag: Seq<char>)
    requires
        0 <= n < t.len(),
        t[n].data is Element,
        0 <= k < t[n].children.len(),
        t[t[n].children[k] as int].data matches SpecData::Element(name, _) && name == tag,
        tag == "html"@ || tag == "body"@ || tag == "article"@ || tag == "section"@ || tag == "nav"@
            || tag == "aside"@ || tag == "h1"@ || tag == "h2"@ || tag == "h3"@ || tag == "h4"@ || tag
            == "h5"@ || tag == "h6"@ || tag == "hgroup"@ || tag == "header"@ || tag == "footer"@
            || tag == "address"@ || tag == "p"@ || tag == "hr"@ || tag == "pre"@ || tag
            == "blockquote"@ || tag == "ol"@ || tag == "ul"@ || tag == "menu"@ || tag == "li"@ || tag
            == "dl"@ || tag == "dt"@ || tag == "dd"@ || tag == "figure"@ || tag == "figcaption"@
            || tag == "main"@ || tag == "div"@ || tag == "table"@ || tag == "form"@ || tag
            == "fieldset"@ || tag == "legend"@ || tag == "details"@ || tag == "summary"@,
    ensures
        layout_mode(t, n) == LayoutMode::Block,
{
    assert(block_child(t, n, k));
}

/// Nodes that paint their own content: text, and the elements that are
/// drawn as widgets or images.
pub open spec fn paints_itself(d: SpecData) -> bool {
    match d {
        SpecData::Text(_) => true,
        SpecData::Element(tag, _) => tag == "input"@ || tag == "button"@ || tag == "img"@
            || tag == "iframe"@,
    }
}

impl<'html> Document<'html> {
    pub fn layout_mode(&self, node: usize) -> (r: LayoutMode)
        requires
            node < self@.len(),
            tree_shape(self@),
        ensures
            r == layout_mode(self@, node as int),
    {
        let ghost t = self@;
        assert(t[node as int] == self.nodes@[node as int]@);
        match &self.nodes[node].data {
            NodeData::Text { .. } => LayoutMode::Inline,
            NodeData::Element { tag, .. } => {
                let n = self.nodes[node].children.len();
                if n > 0 {
                    let mut k: usize = 0;
                    while k < n
                        invariant
                            t == self@,
                            node < t.len(),
                            tree_shape(t),
                            n == t[node as int].children.len(),
                            t[node as int].data is Element,
                            k <= n,
                            forall|j: int| 0 <= j < k ==> !#[trigger] block_child(t, node as int, j),
                        decreases n - k,
                    {
                        let c = self.nodes[node].children[k];
                        assert(t[node as int].children[k as int] == c);
                        assert(t[c as int] == self.nodes@[c as int]@);
                        match &self.nodes[c].data {
                            NodeData::Text { .. } => {},
                            NodeData::Element { tag: child_tag, .. } => {
                                if is_block_element(child_tag) {
                                    assert(block_child(t, node as int, k as int));
                                    return LayoutMode::Block;
                                }
                            },
                        }
                        k = k + 1;
                    }
                    LayoutMode::Inline
                } else if str_eq(tag, "input") || str_eq(tag, "img") || str_eq(tag, "iframe") {
                    LayoutMode::Inline
                } else {
                    LayoutMode::Block
                }
            },
        }
    }

    pub fn should_paint(&self, node: usize) -> (r: bool)
        requires
            node < self@.len(),
        ensures
            r == paints_itself(self@[node as int].data),
    {
        assert(self@[node as int] == self.nodes@[node as int]@);
        match &self.nodes[node].data {
            NodeData::Text { .. } => true,
            NodeData::Element { tag, .. } => str_eq(tag, "input") || str_eq(tag, "button")
                || str_eq(tag, "img") || str_eq(tag, "iframe"),
        }
    }
}

/// The background a block paints: its `background-color`, unless that is
/// missing or `transparent`.
pub fn background_color(styles: &StrMap) -> (r: Option<String>)
    ensures
        match r {
            Some(c) => styles@.contains_key("background-color"@) && c@ == styles@["background-color"@]
                && c@ != "transparent"@,
            None => !styles@.contains_key("background-color"@) || styles@["background-color"@]
                == "transparent"@,
        },
{
    match styles.get("background-color") {
        Some(c) => if str_eq(c.as_str(), "transparent") {
            None
        } else {
            Some(c.clone())
        },
        None => None,
    }
}

#[derive(Debug, PartialEq, Eq, Structural, Clone, Copy, Hash)]
pub enum FontStyle {
    Roman,
    Italic,
}

#[derive(Debug, PartialEq, Eq, Structural, Clone, Copy, Hash)]
pub enum FontWeight {
    Normal,
    Bold,
}

pub open spec fn font_style_of(v: Seq<char>) -> FontStyle {
    if v == "italic"@ {
        FontStyle::Italic
    } else {
        FontStyle::Roman
    }
}

pub open spec fn font_weight_of(v: Seq<char>) -> FontWeight {
    if v == "bold"@ {
        FontWeight::Bold
    } else {
        FontWeight::Normal
    }
}

impl FontStyle {
    /// The style named by a `font-style` value: `italic`, or roman for any
    /// other value.
    pub fn from_name(value: &str) -> (r: FontStyle)
        ensures
            r == font_style_of(value@),
    {
        if str_eq(value, "italic") {
            FontStyle::Italic
        } else {
            FontStyle::Roman
        }
    }
}

impl FontWeight {
    /// The weight named by a `font-weight` value: `bold`, or normal for
    /// any other value.
    pub fn from_name(value: &str) -> (r: FontWeight)
        ensures
            r == font_weight_of(value@),
    {
        if str_eq(value, "bold") {
            FontWeight::Bold
        } else {
            FontWeight::Normal
        }
    }
}

/// What a tag does to the text layout state.
#[derive(Debug, PartialEq, Eq, Structural, Clone, Copy)]
pub enum TagEffect {
    Nothing,
    SetStyle(FontStyle),
    SetWeight(FontWeight),
    /// Change the font size by this many points.
    Resize(i32),
    /// End the current line.
    Flush,
    /// End the current line and leave a gap below it.
    EndParagraph,
}

pub open spec fn open_effect(tag: Seq<char>) -> TagEffect {
    if tag == "i"@ {
        TagEffect::SetStyle(FontStyle::Italic)
    } else if tag == "b"@ {
        TagEffect::SetWeight(FontWeight::Bold)
    } else if tag == "small"@ {
        TagEffect::Resize(-2i32)
    } else if tag == "big"@ {
        TagEffect::Resize(4i32)
    } else if tag == "br"@ {
        TagEffect::Flush
    } else {
        TagEffect::Nothing
    }
}

pub open spec fn close_effect(tag: Seq<char>) -> TagEffect {
    if tag == "i"@ {
        TagEffect::SetStyle(FontStyle::Roman)
    } else if tag == "b"@ {
        TagEffect::SetWeight(FontWeight::Normal)
    } else if tag == "small"@ {
        TagEffect::Resize(2i32)
    } else if tag == "big"@ {
        TagEffect::Resize(-4i32)
    } else if tag == "p"@ {
        TagEffect::EndParagraph
    } else {
        TagEffect::Nothing
    }
}

/// The font of text layout after an effect: style, weight and size in
/// points. Line breaks leave the font as it is.
pub open spec fn apply_effect(font: (FontStyle, FontWeight, int), e: TagEffect) -> (FontStyle, FontWeight, int) {
    match e {
        TagEffect::SetStyle(s) => (s, font.1, font.2),
        TagEffect::SetWeight(w) => (font.0, w, font.2),
        TagEffect::Resize(d) => (font.0, font.1, font.2 + d),
        _ => font,
    }
}

/// A start tag and its end tag leave the font as it was: the sizes of
/// `small` and `big` cancel, and `</i>` and `</b>` bring back roman style
/// and normal weight, which is what the font had before `<i>` or `<b>`
/// when it had that style or weight.
pub proof fn lemma_tag_restores_font(tag: Seq<char>, font: (FontStyle, FontWeight, int))
    requires
        tag == "i"@ ==> font.0 == FontStyle::Roman,
        tag == "b"@ ==> font.1 == FontWeight::Normal,
    ensures
        apply_effect(apply_effect(font, open_effect(tag)), close_effect(tag)) == font,
{
    reveal_strlit("i");
    reveal_strlit("b");
    reveal_strlit("small");
    reveal_strlit("big");
    reveal_strlit("br");
    reveal_strlit("p");
    assert("i"@.len() == 1 && "b"@.len() == 1 && "p"@.len() == 1 && "br"@.len() == 2);
    assert("big"@.len() == 3 && "small"@.len() == 5);
    assert("i"@[0] == 'i' && "b"@[0] == 'b' && "p"@[0] == 'p');
}

/// The effect of a start tag on the text layout state.
pub fn open_tag(tag: &str) -> (r: TagEffect)
    ensures
        r == open_effect(tag@),
{
    if str_eq(tag, "i") {
        TagEffect::SetStyle(FontStyle::Italic)
    } else if str_eq(tag, "b") {
        TagEffect::SetWeight(FontWeight::Bold)
    } else if str_eq(tag, "small") {
        TagEffect::Resize(-2i32)
    } else if str_eq(tag, "big") {
        TagEffect::Resize(4i32)
    } else if str_eq(tag, "br") {
        TagEffect::Flush
    } else {
        TagEffect::Nothing
    }
}

/// The effect of an end tag on the text layout state.
pub fn close_tag(tag: &str) -> (r: TagEffect)
    ensures
        r == close_effect(tag@),
{
    if str_eq(tag, "i") {
        TagEffect::SetStyle(FontStyle::Roman)
    } else if str_eq(tag, "b") {
        TagEffect::SetWeight(FontWeight::Normal)
    } else if str_eq(tag, "small") {
        TagEffect::Resize(2i32)
    } else if str_eq(tag, "big") {
        TagEffect::Resize(-4i32)
    } else if str_eq(tag, "p") {
        TagEffect::EndParagraph
    } else {
        TagEffect::Nothing
    }
}

/// What inline layout places, in document order: words, and line breaks
/// at `<br>`.
pub enum InlineItem<'html> {
    Word(&'html str),
    LineBreak,
}

pub enum SpecItem {
    Word(Seq<char>),
    LineBreak,
}

impl<'html> View for InlineItem<'html> {
    type V = SpecItem;

    open spec fn view(&self) -> SpecItem {
        match self {
            InlineItem::Word(w) => SpecItem::Word(w@),
            InlineItem::LineBreak => SpecItem::LineBreak,
        }
    }
}

pub open spec fn item_views<'html>(v: Seq<InlineItem<'html>>) -> Seq<SpecItem> {
    v.map_values(|i: InlineItem<'html>| i@)
}

/// The inline items of node `n`: the words of a text node; for an element,
/// a line break if it is `<br>`, then the items of its children in order.
pub open spec fn inline_items(t: Seq<SpecNode>, n: int) -> Seq<SpecItem>
    decreases t.len() - n, t[n].children.len() + 1,
{
    if 0 <= n < t.len() {
        match t[n].data {
            SpecData::Text(s) => words(s).map_values(|w: Seq<char>| SpecItem::Word(w)),
            SpecData::Element(tag, _) => (if tag == "br"@ {
                seq![SpecItem::LineBreak]
            } else {
                seq![]
            }) + children_items(t, n, t[n].children.len() as int),
        }
    } else {
        seq![]
    }
}

/// The inline items of the first `k` children of node `n`.
pub open spec fn children_items(t: Seq<SpecNode>, n: int, k: int) -> Seq<SpecItem>
    decreases t.len() - n, k,
{
    if 0 <= n < t.len() && 0 < k <= t[n].children.len() {
        let c = t[n].children[k - 1] as int;
        children_items(t, n, k - 1) + if n < c < t.len() {
            inline_items(t, c)
        } else {
            seq![]
        }
    } else {
        seq![]
    }
}

impl<'html> Document<'html> {
    /// The words and line breaks that inline layout of node `node` places.
    pub fn inline_items(&self, node: usize) -> (r: Vec<InlineItem<'html>>)
        requires
            node < self@.len(),
            tree_shape(self@),
        ensures
            item_views(r@) == inline_items(self@, node as int),
        decreases self@.len() - node, 1int,
    {
        let ghost t = self@;
        assert(t[node as int] == self.nodes@[node as int]@);
        match &self.nodes[node].data {
            NodeData::Text { text } => {
                let ws = split_whitespace(text);
                let mut out: Vec<InlineItem<'html>> = Vec::new();
                let mut j: usize = 0;
                while j < ws.len()
                    invariant
                        j <= ws@.len(),
                        out@.len() == j,
                        forall|i: int| 0 <= i < j ==> (#[trigger] out@[i])@ == SpecItem::Word(ws@[i]@),
                    decreases ws.len() - j,
                {
                    out.push(InlineItem::Word(ws[j]));
                    j = j + 1;
                }
                assert(ws@.map_values(|w: &str| w@).map_values(|w: Seq<char>| SpecItem::Word(w))
                    =~= item_views(out@));
                assert(item_views(out@) =~= inline_items(t, node as int));
                out
            },
            NodeData::Element { tag, .. } => {
                let mut out: Vec<InlineItem<'html>> = Vec::new();
                if str_eq(tag, "br") {
                    out.push(InlineItem::LineBreak);
                }
                let ghost head = item_views(out@);
                assert(head == (if tag@ == "br"@ { seq![SpecItem::LineBreak] } else { seq![] }));
                let n = self.nodes[node].children.len();
                let mut k: usize = 0;
                assert(item_views(out@) =~= head + children_items(t, node as int, 0));
                while k < n
                    invariant
                        t == self@,
                        node < t.len(),
                        tree_shape(t),
                        n == t[node as int].children.len(),
                        k <= n,
                        item_views(out@) == head + children_items(t, node as int, k as int),
                    decreases n - k,
                {
                    let c = self.nodes[node].children[k];
                    assert(t[node as int].children[k as int] == c);
                    assert(c < t.len() && t[c as int].parent == Some(node));
                    let mut part = self.items_below(node, c);
                    let ghost before = out@;
                    let ghost added = part@;
                    out.append(&mut part);
                    proof {
                        assert(item_views(before + added) =~= item_views(before) + item_views(added));
                        assert(item_views(out@) =~= head + children_items(t, node as int, k + 1));
                    }
                    k = k + 1;
                }
                out
            },
        }
    }

    fn items_below(&self, node: usize, c: usize) -> (r: Vec<InlineItem<'html>>)
        requires
            node < c < self@.len(),
            tree_shape(self@),
        ensures
            item_views(r@) == inline_items(self@, c as int),
        decreases self@.len() - node, 0int,
    {
        self.inline_items(c)
    }
}

} // verus!
