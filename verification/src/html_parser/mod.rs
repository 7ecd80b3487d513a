//! HTML tree builder: tokens become an arena of nodes, with the implied
//! `<html>`, `<head>` and `<body>` elements added.
pub mod html_node;
pub mod tree_spec;
pub mod tree_laws;
pub mod text_laws;
pub mod order_laws;

use vstd::prelude::*;
use crate::strmap::StrMap;
use crate::text::{
    utf8_len, is_blank_str, split_whitespace, starts_with_char, str_eq, to_lowercase,
    utf8_len_capped, utf8_width_of, words,
};
use crate::token::{Token, SpecToken, spec_lex, token_views};
use html_node::{HtmlNode, HtmlTree, SpecNode, SpecData, node_views};
use tree_laws::{
    state_inv, tree_wf, lemma_insert_tag_inv, lemma_add_child_inv, lemma_close_top_inv,
    lemma_inv_finished, lemma_init_inv,
};
use order_laws::{
    order_inv, numbered_in_order, preorder_texts, lemma_push_open_order,
    lemma_add_child_order, lemma_close_top_order, lemma_preorder_texts,
};
use text_laws::{token_texts, lemma_parse_keeps_text};
use tree_spec::{
    ParseState, add_tag, add_text, attach, attr_key, attr_name, attr_ok, attr_value, attrs_of, build,
    close_all, close_top, find_char, finish, head_tag, implicit_step, implicit_tags, implied,
    insert_tag, is_end_tag, is_quoted, process, raw_value, self_closing_tag, tag_attrs, tag_name,
    tag_ok, tokens_ok, open_tag, spec_parse, source_ok,
};

verus! {

pub fn is_head_tag(t: &str) -> (r: bool)
    ensures
        r == head_tag(t@),
{
    str_eq(t, "base") || str_eq(t, "basefont") || str_eq(t, "bgsound") || str_eq(t, "noscript")
        || str_eq(t, "link") || str_eq(t, "meta") || str_eq(t, "title") || str_eq(t, "style")
        || str_eq(t, "script")
}

pub fn is_self_closing_tag(t: &str) -> (r: bool)
    ensures
        r == self_closing_tag(t@),
{
    str_eq(t, "area") || str_eq(t, "base") || str_eq(t, "br") || str_eq(t, "col") || str_eq(
        t,
        "embed",
    ) || str_eq(t, "hr") || str_eq(t, "img") || str_eq(t, "input") || str_eq(t, "link")
        || str_eq(t, "meta") || str_eq(t, "param") || str_eq(t, "source") || str_eq(t, "track")
        || str_eq(t, "wbr")
}

/// Position of the first `c` in `s`, or its length.
pub fn find_char_in(s: &str, c: char) -> (r: usize)
    ensures
        r == find_char(s@, c),
{
    let n = s.unicode_len();
    let mut i: usize = 0;
    while i < n
        invariant
            n == s@.len(),
            i <= n,
            forall|j: int| 0 <= j < i ==> s@[j] != c,
        decreases n - i,
    {
        if s.get_char(i) == c {
            proof {
                lemma_find_char_at(s@, c, i as int);
            }
            return i;
        }
        i = i + 1;
    }
    proof {
        lemma_find_char_none(s@, c);
    }
    n
}

proof fn lemma_find_char_at(s: Seq<char>, c: char, i: int)
    requires
        0 <= i < s.len(),
        s[i] == c,
        forall|j: int| 0 <= j < i ==> s[j] != c,
    ensures
        find_char(s, c) == i,
    decreases s.len(),
{
    if i < s.len() - 1 {
        lemma_find_char_at(s.drop_last(), c, i);
    } else {
        lemma_find_char_none(s.drop_last(), c);
    }
}

proof fn lemma_find_char_none(s: Seq<char>, c: char)
    requires
        forall|j: int| 0 <= j < s.len() ==> s[j] != c,
    ensures
        find_char(s, c) == s.len(),
    decreases s.len(),
{
    if s.len() > 0 {
        lemma_find_char_none(s.drop_last(), c);
    }
}

proof fn lemma_find_char_bound(s: Seq<char>, c: char)
    ensures
        0 <= find_char(s, c) <= s.len(),
    decreases s.len(),
{
    if s.len() > 0 {
        lemma_find_char_bound(s.drop_last(), c);
    }
}

/// Splits one attribute word into its name as written and its value.
pub fn split_attribute(p: &str) -> (r: (&str, String))
    requires
        attr_ok(p@),
    ensures
        r.0@ == attr_name(p@),
        r.1@ == attr_value(p@),
{
    let n = p.unicode_len();
    let idx = find_char_in(p, '=');
    proof {
        lemma_find_char_bound(p@, '=');
    }
    if idx < n {
        let name = p.substring_char(0, idx);
        let value = p.substring_char(idx + 1, n);
        let vlen = value.unicode_len();
        let bytes = utf8_len_capped(value, 2);
        if bytes > 2 && (starts_with_char(value, '\'') || starts_with_char(value, '"')) {
            assert(is_quoted(value@));
            assert(vlen >= 2) by {
                if vlen == 1 {
                    assert(value@.drop_last() =~= Seq::<char>::empty());
                    assert(utf8_len(value@.drop_last()) == 0);
                    assert(utf8_len(value@) == 1);
                }
            }
            let last = value.get_char(vlen - 1);
            assert(last == raw_value(p@).last());
            let inner = value.substring_char(1, vlen - 1);
            (name, inner.to_owned())
        } else {
            (name, value.to_owned())
        }
    } else {
        (p, String::new())
    }
}

/// Splits one attribute word into its lower-cased key and its value.
fn split_attr(p: &str) -> (r: (String, String))
    requires
        attr_ok(p@),
    ensures
        r.0@ == attr_key(p@),
        r.1@ == attr_value(p@),
{
    let (name, value) = split_attribute(p);
    (to_lowercase(name), value)
}

/// Whether an attribute word can be read (see `attr_ok`).
fn attr_text_ok(p: &str) -> (r: bool)
    ensures
        r == attr_ok(p@),
{
    let n = p.unicode_len();
    let idx = find_char_in(p, '=');
    proof {
        lemma_find_char_bound(p@, '=');
    }
    if idx < n {
        let value = p.substring_char(idx + 1, n);
        let bytes = utf8_len_capped(value, 2);
        if bytes > 2 && (starts_with_char(value, '\'') || starts_with_char(value, '"')) {
            let vlen = value.unicode_len();
            utf8_width_of(value.get_char(vlen - 1)) == 1
        } else {
            true
        }
    } else {
        true
    }
}

/// Whether a tag's text can be read (see `tag_ok`).
pub fn tag_text_ok(t: &str) -> (r: bool)
    ensures
        r == tag_ok(t@),
{
    let parts = split_whitespace(t);
    let ghost ws = words(t@);
    let n = parts.len();
    if n == 0 {
        return false;
    }
    let mut k: usize = 1;
    while k < n
        invariant
            n == parts@.len(),
            ws == parts@.map_values(|w: &str| w@),
            ws == words(t@),
            1 <= k <= n,
            forall|j: int| 1 <= j < k ==> attr_ok(#[trigger] ws[j]),
        decreases n - k,
    {
        assert(parts@[k as int]@ == ws[k as int]);
        if !attr_text_ok(parts[k]) {
            return false;
        }
        k = k + 1;
    }
    true
}

/// Whether the builder accepts these tokens (see `tokens_ok`).
pub fn tokens_accepted(tokens: &Vec<Token>) -> (r: bool)
    ensures
        r == tokens_ok(token_views(tokens@)),
{
    let ghost toks = token_views(tokens@);
    let n = tokens.len();
    let mut found = false;
    let mut i: usize = 0;
    while i < n
        invariant
            n == tokens@.len(),
            toks == token_views(tokens@),
            i <= n,
            forall|k: int| 0 <= k < i ==> (#[trigger] toks[k] matches SpecToken::Tag(t) ==> tag_ok(t)),
            found == exists|k: int| 0 <= k < i && tree_spec::opens_something(#[trigger] toks[k]),
        decreases n - i,
    {
        assert(toks[i as int] == tokens@[i as int]@);
        match tokens[i] {
            Token::Tag(t) => {
                if !tag_text_ok(t) {
                    return false;
                }
                found = true;
            },
            Token::Text(t) => {
                if !is_blank_str(t) {
                    found = true;
                }
            },
        }
        i = i + 1;
    }
    found
}

impl<'html> HtmlParser<'html> {
    /// The builder's state as mathematical values.
    pub closed spec fn state(&self) -> ParseState {
        ParseState { nodes: node_views(self.nodes@), open: self.unfinished@ }
    }

    /// Every open element is an existing node.
    pub closed spec fn indices_ok(&self) -> bool {
        forall|k: int| 0 <= k < self.unfinished@.len() ==> #[trigger] self.unfinished@[k] < self.nodes@.len()
    }
}

pub struct HtmlParser<'html> {
    source: &'html str,
    unfinished: Vec<usize>,
    nodes: Vec<HtmlNode<'html>>,
}

impl<'html> HtmlParser<'html> {
    pub fn new(source: &'html str) -> (r: HtmlParser<'html>)
        ensures
            r.source() == source@,
    {
        HtmlParser { source, unfinished: Vec::new(), nodes: Vec::new() }
    }

    /// The text that `parse` reads.
    pub closed spec fn source(&self) -> Seq<char> {
        self.source@
    }

    /// Appends `c` to the children of open element `p`.
    fn attach_child(&mut self, p: usize, c: usize)
        requires
            p < old(self).nodes@.len(),
        ensures
            final(self).state() == (ParseState {
                nodes: attach(old(self).state().nodes, p, c),
                open: old(self).state().open,
            }),
            final(self).source == old(self).source,
            final(self).nodes@.len() == old(self).nodes@.len(),
            final(self).unfinished@ == old(self).unfinished@,
    {
        let ghost old_nodes = self.nodes@;
        self.nodes[p].children.push(c);
        proof {
            assert(node_views(self.nodes@) =~= attach(node_views(old_nodes), p, c));
        }
    }

    /// A tag with known name and attributes.
    fn insert_tag(&mut self, tag: &'html str, attributes: StrMap)
        requires
            old(self).indices_ok(),
            state_inv(old(self).state()),
            order_inv(old(self).state()),
            old(self).unfinished@.len() > 0 || tag@ == "html"@,
        ensures
            final(self).state() == insert_tag(old(self).state(), tag@, attributes@),
            final(self).indices_ok(),
            state_inv(final(self).state()),
            order_inv(final(self).state()),
            final(self).source == old(self).source,
    {
        let ghost st = self.state();
        proof {
            lemma_html_not_void();
        }
        if starts_with_char(tag, '/') && self.unfinished.len() > 1 {
            let node = self.unfinished.pop().unwrap();
            let parent = self.unfinished[self.unfinished.len() - 1];
            proof {
                assert(self.unfinished@ == st.open.drop_last());
                lemma_close_top_inv(st);
                lemma_close_top_order(st);
            }
            self.attach_child(parent, node);
            return;
        }
        if is_self_closing_tag(tag) {
            let parent = self.unfinished[self.unfinished.len() - 1];
            let id = self.nodes.len();
            let node = HtmlNode::new_element_node(tag, attributes, Some(parent));
            self.nodes.push(node);
            let total = self.nodes.len();
            proof {
                assert(node_views(self.nodes@) =~= st.nodes.push(node@));
                assert(st.nodes.len() < total);
                lemma_insert_tag_inv(st, tag@, attributes@);
                lemma_add_child_order(st, SpecData::Element(tag@, attributes@));
            }
            self.attach_child(parent, id);
            return;
        }
        let parent = if self.unfinished.len() > 0 {
            Some(self.unfinished[self.unfinished.len() - 1])
        } else {
            None
        };
        let id = self.nodes.len();
        let node = HtmlNode::new_element_node(tag, attributes, parent);
        self.nodes.push(node);
        self.unfinished.push(id);
        let total = self.nodes.len();
        proof {
            assert(node_views(self.nodes@) =~= st.nodes.push(node@));
            assert(st.nodes.len() < total);
            lemma_insert_tag_inv(st, tag@, attributes@);
            lemma_push_open_order(st, SpecData::Element(tag@, attributes@));
        }
    }

    /// Whether open element `k` is the element `name`.
    fn open_is(&self, k: usize, name: &str) -> (r: bool)
        requires
            self.indices_ok(),
            k < self.unfinished@.len(),
            name@.len() > 0,
        ensures
            r == (open_tag(self.state(), k as int) == name@),
    {
        let i = self.unfinished[k];
        match self.nodes[i].get_tag() {
            Some(t) => str_eq(t, name),
            None => false,
        }
    }

    /// Adds the elements that `tag` implies.
    fn implicit_tags(&mut self, tag: &'html str)
        requires
            old(self).indices_ok(),
            state_inv(old(self).state()),
            order_inv(old(self).state()),
        ensures
            final(self).state() == implied(old(self).state(), tag@),
            final(self).indices_ok(),
            state_inv(final(self).state()),
            order_inv(final(self).state()),
            final(self).source == old(self).source,
    {
        let ghost target = implied(self.state(), tag@);
        let mut fuel: usize = 3;
        while fuel > 0
            invariant_except_break
                implicit_tags(self.state(), tag@, fuel as nat) == target,
            invariant
                self.source == old(self).source,
                self.indices_ok(),
                state_inv(self.state()),
                order_inv(self.state()),
            ensures
                self.indices_ok(),
                state_inv(self.state()),
                order_inv(self.state()),
                self.state() == target,
                self.source == old(self).source,
            decreases fuel,
        {
            proof {
                reveal_strlit("html");
                reveal_strlit("head");
                reveal_strlit("body");
                reveal_strlit("/html");
                reveal_strlit("/head");
                lemma_html_not_void();
            }
            let ghost st = self.state();
            let n = self.unfinished.len();
            if n == 0 && !str_eq(tag, "html") {
                self.insert_tag("html", StrMap::new());
            } else if n == 1 && self.open_is(0, "html") && !str_eq(tag, "head") && !str_eq(
                tag,
                "body",
            ) && !str_eq(tag, "/html") {
                if is_head_tag(tag) {
                    self.insert_tag("head", StrMap::new());
                } else {
                    self.insert_tag("body", StrMap::new());
                }
            } else if n == 2 && self.open_is(0, "html") && self.open_is(1, "head") && !is_head_tag(
                tag,
            ) && !str_eq(tag, "/head") {
                self.insert_tag("/head", StrMap::new());
            } else {
                assert(implicit_step(st, tag@) is None);
                break;
            }
            assert(implicit_step(st, tag@) == Some(self.state()));
            fuel = fuel - 1;
        }
    }

    /// Reads a tag's name and attributes.
    fn parse_attributes(&self, text: &'html str) -> (r: (&'html str, StrMap))
        requires
            tag_ok(text@),
        ensures
            r.0@ == tag_name(text@),
            r.1@ == tag_attrs(text@),
    {
        let parts = split_whitespace(text);
        let ghost ws = words(text@);
        assert(parts@.map_values(|w: &str| w@)[0] == ws[0]);
        let tag = parts[0];
        let mut attributes = StrMap::new();
        let n = parts.len();
        let mut i: usize = 1;
        proof {
            assert(ws.drop_first().subrange(0, 0) =~= Seq::<Seq<char>>::empty());
        }
        while i < n
            invariant
                n == parts@.len(),
                n == ws.len(),
                ws == parts@.map_values(|w: &str| w@),
                tag_ok(text@),
                ws == words(text@),
                1 <= i <= n,
                attributes@ == attrs_of(ws.drop_first().subrange(0, i - 1)),
            decreases n - i,
        {
            let p = parts[i];
            assert(p@ == ws[i as int]);
            assert(attr_ok(ws[i as int]));
            let (key, value) = split_attr(p);
            attributes.insert(key, value);
            proof {
                let d = ws.drop_first();
                assert(d.subrange(0, i as int).drop_last() =~= d.subrange(0, i - 1));
                assert(d.subrange(0, i as int).last() == ws[i as int]);
            }
            i = i + 1;
        }
        proof {
            assert(ws.drop_first().subrange(0, n - 1) =~= ws.drop_first());
        }
        (tag, attributes)
    }

    fn add_tag(&mut self, tag: &'html str)
        requires
            old(self).indices_ok(),
            state_inv(old(self).state()),
            order_inv(old(self).state()),
            tag_ok(tag@),
        ensures
            final(self).state() == add_tag(old(self).state(), tag@),
            final(self).indices_ok(),
            state_inv(final(self).state()),
            order_inv(final(self).state()),
            final(self).source == old(self).source,
    {
        let (name, attributes) = self.parse_attributes(tag);
        self.implicit_tags(name);
        proof {
            lemma_implied_opens(old(self).state(), name@);
            lemma_html_not_void();
        }
        self.insert_tag(name, attributes);
    }

    fn add_text(&mut self, text: &'html str)
        requires
            old(self).indices_ok(),
            state_inv(old(self).state()),
            order_inv(old(self).state()),
        ensures
            final(self).state() == add_text(old(self).state(), text@),
            final(self).indices_ok(),
            state_inv(final(self).state()),
            order_inv(final(self).state()),
            final(self).source == old(self).source,
    {
        if is_blank_str(text) {
            return;
        }
        self.implicit_tags("");
        proof {
            reveal_strlit("");
            reveal_strlit("html");
            assert(""@ =~= Seq::<char>::empty());
            lemma_implied_opens(old(self).state(), seq![]);
        }
        let ghost st = self.state();
        let parent = self.unfinished[self.unfinished.len() - 1];
        let id = self.nodes.len();
        let node = HtmlNode::new_text_node(text, Some(parent));
        self.nodes.push(node);
        let total = self.nodes.len();
        proof {
            assert(node_views(self.nodes@) =~= st.nodes.push(node@));
            assert(st.nodes.len() < total);
            lemma_add_child_inv(st, SpecData::Text(text@));
            lemma_add_child_order(st, SpecData::Text(text@));
        }
        self.attach_child(parent, id);
    }

    /// Closes everything still open and hands out the tree.
    fn finish(&mut self) -> (r: HtmlTree<'html>)
        requires
            old(self).indices_ok(),
            state_inv(old(self).state()),
            order_inv(old(self).state()),
            old(self).unfinished@.len() > 0,
        ensures
            r@ == finish(old(self).state()).nodes,
            tree_wf(r@),
            numbered_in_order(r@),
            r.root == 0,
            final(self).unfinished@.len() == 0,
            final(self).source == old(self).source,
    {
        self.implicit_tags("");
        proof {
            reveal_strlit("");
            assert(""@ =~= Seq::<char>::empty());
            lemma_implied_keeps_open(old(self).state(), seq![]);
        }
        while self.unfinished.len() > 1
            invariant
                self.indices_ok(),
                state_inv(self.state()),
                order_inv(self.state()),
                self.unfinished@.len() > 0,
                close_all(self.state()) == finish(old(self).state()),
                self.source == old(self).source,
            decreases self.unfinished@.len(),
        {
            let ghost st = self.state();
            proof {
                lemma_close_top_inv(st);
                lemma_close_top_order(st);
            }
            let node = self.unfinished.pop().unwrap();
            let parent = self.unfinished[self.unfinished.len() - 1];
            self.attach_child(parent, node);
            assert(self.state() == close_top(st));
        }
        proof {
            lemma_inv_finished(self.state());
        }
        let root = self.unfinished.pop().unwrap();
        let mut nodes: Vec<HtmlNode<'html>> = Vec::new();
        std::mem::swap(&mut nodes, &mut self.nodes);
        HtmlTree { nodes, root }
    }

    /// Builds the tree of the source. The source must be one that the
    /// builder accepts (see `source_ok`; `try_parse` checks it).
    pub fn parse(&mut self) -> (r: HtmlTree<'html>)
        requires
            source_ok(old(self).source()),
        ensures
            r@ == spec_parse(old(self).source()),
            tree_wf(r@),
            r.root == 0,
            numbered_in_order(r@),
            preorder_texts(r@, 0) == token_texts(spec_lex(old(self).source())),
    {
        self.unfinished = Vec::new();
        self.nodes = Vec::new();
        let tokens = Token::lex(self.source);
        let ghost toks = token_views(tokens@);
        let n = tokens.len();
        let mut i: usize = 0;
        proof {
            assert(toks.subrange(0, 0) =~= Seq::<SpecToken>::empty());
            assert(node_views(self.nodes@) =~= Seq::<SpecNode>::empty());
            assert(self.unfinished@ =~= Seq::<usize>::empty());
            lemma_init_inv();
        }
        while i < n
            invariant
                n == tokens@.len(),
                toks == token_views(tokens@),
                toks == spec_lex(self.source@),
                tokens_ok(toks),
                i <= n,
                self.indices_ok(),
                state_inv(self.state()),
                order_inv(self.state()),
                self.state() == build(toks.subrange(0, i as int)),
                self.source == old(self).source,
            decreases n - i,
        {
            proof {
                assert(toks.subrange(0, i + 1).drop_last() =~= toks.subrange(0, i as int));
                assert(toks.subrange(0, i + 1).last() == toks[i as int]);
                assert(toks[i as int] == tokens@[i as int]@);
            }
            match tokens[i] {
                Token::Text(t) => self.add_text(t),
                Token::Tag(t) => {
                    assert(toks[i as int] matches SpecToken::Tag(x) ==> tag_ok(x));
                    self.add_tag(t)
                },
            }
            i = i + 1;
        }
        proof {
            assert(toks.subrange(0, n as int) =~= toks);
            lemma_build_opens(toks);
        }
        let r = self.finish();
        proof {
            lemma_preorder_texts(r@);
            lemma_parse_keeps_text(old(self).source());
        }
        r
    }

    /// Builds the tree when the builder accepts the source, and gives
    /// `None` on exactly the sources that `parse` would not handle.
    pub fn try_parse(&mut self) -> (r: Option<HtmlTree<'html>>)
        ensures
            r is Some <==> source_ok(old(self).source()),
            r matches Some(t) ==> t@ == spec_parse(old(self).source()) && tree_wf(t@) && t.root == 0
                && numbered_in_order(t@) && preorder_texts(t@, 0) == token_texts(
                spec_lex(old(self).source()),
            ),
    {
        let tokens = Token::lex(self.source);
        if tokens_accepted(&tokens) {
            Some(self.parse())
        } else {
            None
        }
    }
}

/// After implied tags for any name but `html`, some element is open; an
/// element already open stays open.
pub proof fn lemma_implied_opens(st: ParseState, tag: Seq<char>)
    ensures
        tag != "html"@ ==> implied(st, tag).open.len() > 0,
        st.open.len() > 0 ==> implied(st, tag).open.len() > 0,
{
    reveal_strlit("html");
    lemma_implicit_keeps_open(st, tag, 3);
}

/// `html` is neither an end tag nor a void element.
pub proof fn lemma_html_not_void()
    ensures
        !self_closing_tag("html"@),
        !is_end_tag("html"@),
{
    reveal_strlit("html");
    reveal_strlit("area");
    reveal_strlit("base");
    reveal_strlit("br");
    reveal_strlit("col");
    reveal_strlit("embed");
    reveal_strlit("hr");
    reveal_strlit("img");
    reveal_strlit("input");
    reveal_strlit("link");
    reveal_strlit("meta");
    reveal_strlit("param");
    reveal_strlit("source");
    reveal_strlit("track");
    reveal_strlit("wbr");
    let h = "html"@;
    assert(h.len() == 4 && h[0] == 'h');
    assert("area"@[0] != 'h');
    assert("base"@[0] != 'h');
    assert("br"@.len() != 4);
    assert("col"@.len() != 4);
    assert("embed"@.len() != 4);
    assert("hr"@.len() != 4);
    assert("img"@.len() != 4);
    assert("input"@.len() != 4);
    assert("link"@[0] != 'h');
    assert("meta"@[0] != 'h');
    assert("param"@.len() != 4);
    assert("source"@.len() != 4);
    assert("track"@.len() != 4);
    assert("wbr"@.len() != 4);
}

/// A tag never empties a non-empty stack; `html` on an empty stack opens it.
pub proof fn lemma_insert_keeps_open(st: ParseState, tag: Seq<char>, attrs: Map<Seq<char>, Seq<char>>)
    ensures
        st.open.len() > 0 ==> insert_tag(st, tag, attrs).open.len() > 0,
        tag == "html"@ ==> insert_tag(st, tag, attrs).open.len() > 0,
{
    lemma_html_not_void();
}

/// A token that creates a node leaves an element open, and an open element
/// stays open.
pub proof fn lemma_process_opens(st: ParseState, tok: SpecToken)
    requires
        tok matches SpecToken::Tag(t) ==> tag_ok(t),
    ensures
        (st.open.len() > 0 || tree_spec::opens_something(tok)) ==> process(st, tok).open.len() > 0,
{
    reveal_strlit("html");
    assert(""@ =~= Seq::<char>::empty()) by {
        reveal_strlit("");
    }
    match tok {
        SpecToken::Text(t) => {
            lemma_implied_opens(st, seq![]);
        },
        SpecToken::Tag(t) => {
            lemma_implied_opens(st, tag_name(t));
            let s1 = implied(st, tag_name(t));
            lemma_insert_keeps_open(s1, tag_name(t), tag_attrs(t));
        },
    }
}

proof fn lemma_implicit_keeps_open(st: ParseState, tag: Seq<char>, fuel: nat)
    ensures
        st.open.len() > 0 ==> implicit_tags(st, tag, fuel).open.len() > 0,
        fuel > 0 && tag != "html"@ ==> implicit_tags(st, tag, fuel).open.len() > 0,
    decreases fuel,
{
    reveal_strlit("html");
    reveal_strlit("/head");
    reveal_strlit("head");
    reveal_strlit("body");
    if fuel > 0 {
        match implicit_step(st, tag) {
            Some(next) => {
                lemma_insert_keeps_open(st, "html"@, Map::empty());
                lemma_insert_keeps_open(st, "head"@, Map::empty());
                lemma_insert_keeps_open(st, "body"@, Map::empty());
                lemma_insert_keeps_open(st, "/head"@, Map::empty());
                lemma_implicit_keeps_open(next, tag, (fuel - 1) as nat);
            },
            None => {},
        }
    }
}

proof fn lemma_implied_keeps_open(st: ParseState, tag: Seq<char>)
    ensures
        st.open.len() > 0 ==> implied(st, tag).open.len() > 0,
{
    lemma_implicit_keeps_open(st, tag, 3);
}

/// Once a token has created a node, some element stays open.
proof fn lemma_build_opens(toks: Seq<SpecToken>)
    requires
        tokens_ok(toks),
    ensures
        build(toks).open.len() > 0,
{
    let k = choose|k: int| 0 <= k < toks.len() && tree_spec::opens_something(#[trigger] toks[k]);
    lemma_build_opens_from(toks, k);
}

proof fn lemma_build_opens_from(toks: Seq<SpecToken>, k: int)
    requires
        0 <= k < toks.len(),
        tree_spec::opens_something(toks[k]),
        forall|j: int| 0 <= j < toks.len() ==> (#[trigger] toks[j] matches SpecToken::Tag(t) ==> tag_ok(t)),
    ensures
        build(toks).open.len() > 0,
    decreases toks.len(),
{
    let p = toks.drop_last();
    let st = build(p);
    if k < toks.len() - 1 {
        assert(p[k] == toks[k]);
        assert forall|j: int| 0 <= j < p.len() implies (#[trigger] p[j] matches SpecToken::Tag(t) ==> tag_ok(t)) by {
            assert(p[j] == toks[j]);
        }
        lemma_build_opens_from(p, k);
    }
    assert(toks.last() == toks[toks.len() - 1]);
    lemma_process_opens(st, toks.last());
}

} // verus!
