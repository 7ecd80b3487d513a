//! The tree builder as a state machine over tokens.
use vstd::prelude::*;
use crate::text::{is_blank, utf8_len, utf8_width, words, lowercase};
use crate::token::{SpecToken, spec_lex};
use super::html_node::{SpecNode, SpecData, fresh_node, tag_of};

verus! {

/// Tags that belong in `<head>`.
pub open spec fn head_tag(t: Seq<char>) -> bool {
    ||| t == "base"@
    ||| t == "basefont"@
    ||| t == "bgsound"@
    ||| t == "noscript"@
    ||| t == "link"@
    ||| t == "meta"@
    ||| t == "title"@
    ||| t == "style"@
    ||| t == "script"@
}

/// Void elements: they never hold children.
pub open spec fn self_closing_tag(t: Seq<char>) -> bool {
    ||| t == "area"@
    ||| t == "base"@
    ||| t == "br"@
    ||| t == "col"@
    ||| t == "embed"@
    ||| t == "hr"@
    ||| t == "img"@
    ||| t == "input"@
    ||| t == "link"@
    ||| t == "meta"@
    ||| t == "param"@
    ||| t == "source"@
    ||| t == "track"@
    ||| t == "wbr"@
}

pub open spec fn is_end_tag(t: Seq<char>) -> bool {
    t.len() > 0 && t[0] == '/'
}

/// Builder state: all nodes created so far, and the stack of elements
/// still open (innermost last).
pub struct ParseState {
    pub nodes: Seq<SpecNode>,
    pub open: Seq<usize>,
}

pub open spec fn init_state() -> ParseState {
    ParseState { nodes: seq![], open: seq![] }
}

pub open spec fn innermost(open: Seq<usize>) -> Option<usize> {
    if open.len() > 0 {
        Some(open.last())
    } else {
        None
    }
}

/// Appends `c` to the children of node `p`.
pub open spec fn attach(nodes: Seq<SpecNode>, p: usize, c: usize) -> Seq<SpecNode> {
    nodes.update(p as int, SpecNode { children: nodes[p as int].children.push(c), ..nodes[p as int] })
}

/// Creates an element under the innermost open element and opens it.
pub open spec fn push_open(st: ParseState, data: SpecData) -> ParseState {
    ParseState {
        nodes: st.nodes.push(fresh_node(data, innermost(st.open))),
        open: st.open.push(st.nodes.len() as usize),
    }
}

/// Creates a node as the last child of the innermost open element.
pub open spec fn add_child(st: ParseState, data: SpecData) -> ParseState {
    let p = st.open.last();
    ParseState {
        nodes: attach(st.nodes.push(fresh_node(data, Some(p))), p, st.nodes.len() as usize),
        open: st.open,
    }
}

/// Closes the innermost open element, attaching it to the one below.
pub open spec fn close_top(st: ParseState) -> ParseState {
    let rest = st.open.drop_last();
    ParseState { nodes: attach(st.nodes, rest.last(), st.open.last()), open: rest }
}

/// A tag whose name and attributes are known: an end tag closes the
/// innermost element (unless only the root is open), a void element is
/// added as a child, any other element is opened.
pub open spec fn insert_tag(st: ParseState, tag: Seq<char>, attrs: Map<Seq<char>, Seq<char>>) -> ParseState {
    if is_end_tag(tag) && st.open.len() > 1 {
        close_top(st)
    } else if self_closing_tag(tag) {
        add_child(st, SpecData::Element(tag, attrs))
    } else {
        push_open(st, SpecData::Element(tag, attrs))
    }
}

pub open spec fn open_tag(st: ParseState, k: int) -> Seq<char> {
    tag_of(st.nodes[st.open[k] as int].data)
}

/// One round of implied tags before `tag`: `<html>` when nothing is open,
/// `<head>` or `<body>` when only `<html>` is, `</head>` when a non-head
/// tag follows an open `<head>`; `None` when nothing is implied.
pub open spec fn implicit_step(st: ParseState, tag: Seq<char>) -> Option<ParseState> {
    if st.open.len() == 0 && tag != "html"@ {
        Some(insert_tag(st, "html"@, Map::empty()))
    } else if st.open.len() == 1 && open_tag(st, 0) == "html"@ && tag != "head"@ && tag != "body"@
        && tag != "/html"@ {
        if head_tag(tag) {
            Some(insert_tag(st, "head"@, Map::empty()))
        } else {
            Some(insert_tag(st, "body"@, Map::empty()))
        }
    } else if st.open.len() == 2 && open_tag(st, 0) == "html"@ && open_tag(st, 1) == "head"@
        && !head_tag(tag) && tag != "/head"@ {
        Some(insert_tag(st, "/head"@, Map::empty()))
    } else {
        None
    }
}

/// Implied tags, at most `fuel` rounds (three always suffice, see
/// `lemma_implicit_settles`).
pub open spec fn implicit_tags(st: ParseState, tag: Seq<char>, fuel: nat) -> ParseState
    decreases fuel,
{
    if fuel == 0 {
        st
    } else {
        match implicit_step(st, tag) {
            Some(next) => implicit_tags(next, tag, (fuel - 1) as nat),
            None => st,
        }
    }
}

pub open spec fn implied(st: ParseState, tag: Seq<char>) -> ParseState {
    implicit_tags(st, tag, 3)
}

// ---------------------------------------------------------------------------
// Attributes
// ---------------------------------------------------------------------------

/// Position of the first `c` in `s`, or `s.len()` when there is none.
pub open spec fn find_char(s: Seq<char>, c: char) -> int
    decreases s.len(),
{
    if s.len() == 0 {
        0
    } else {
        let k = find_char(s.drop_last(), c);
        if k < s.len() - 1 {
            k
        } else if s.last() == c {
            s.len() - 1
        } else {
            s.len() as int
        }
    }
}

/// A value that starts with a quote and is longer than two bytes loses its
/// first and last characters.
pub open spec fn is_quoted(v: Seq<char>) -> bool {
    utf8_len(v) > 2 && (v[0] == '\'' || v[0] == '"')
}

pub open spec fn unquote(v: Seq<char>) -> Seq<char> {
    if is_quoted(v) {
        v.subrange(1, v.len() - 1)
    } else {
        v
    }
}

pub open spec fn has_eq(p: Seq<char>) -> bool {
    find_char(p, '=') < p.len()
}

/// The name of an attribute word as written: what comes before its first
/// `=`, or the whole word.
pub open spec fn attr_name(p: Seq<char>) -> Seq<char> {
    if has_eq(p) {
        p.subrange(0, find_char(p, '='))
    } else {
        p
    }
}

pub open spec fn attr_key(p: Seq<char>) -> Seq<char> {
    lowercase(attr_name(p))
}

pub open spec fn raw_value(p: Seq<char>) -> Seq<char> {
    p.subrange(find_char(p, '=') + 1, p.len() as int)
}

pub open spec fn attr_value(p: Seq<char>) -> Seq<char> {
    if has_eq(p) {
        unquote(raw_value(p))
    } else {
        seq![]
    }
}

/// Unquoting cuts at a byte offset, which must fall between characters:
/// the last character of a quoted value must be one byte long.
pub open spec fn attr_ok(p: Seq<char>) -> bool {
    has_eq(p) && is_quoted(raw_value(p)) ==> utf8_width(raw_value(p).last()) == 1
}

/// Attributes of a tag's words after the first; a later key wins.
pub open spec fn attrs_of(ws: Seq<Seq<char>>) -> Map<Seq<char>, Seq<char>>
    decreases ws.len(),
{
    if ws.len() == 0 {
        Map::empty()
    } else {
        attrs_of(ws.drop_last()).insert(attr_key(ws.last()), attr_value(ws.last()))
    }
}

/// The name of a tag: its first word.
pub open spec fn tag_name(raw: Seq<char>) -> Seq<char> {
    words(raw)[0]
}

pub open spec fn tag_attrs(raw: Seq<char>) -> Map<Seq<char>, Seq<char>> {
    attrs_of(words(raw).drop_first())
}

/// A tag can be read: it has a name, and every attribute can be unquoted.
pub open spec fn tag_ok(raw: Seq<char>) -> bool {
    &&& words(raw).len() > 0
    &&& forall|k: int| 1 <= k < words(raw).len() ==> attr_ok(#[trigger] words(raw)[k])
}

// ---------------------------------------------------------------------------
// Tokens
// ---------------------------------------------------------------------------

pub open spec fn add_tag(st: ParseState, raw: Seq<char>) -> ParseState {
    let tag = tag_name(raw);
    insert_tag(implied(st, tag), tag, tag_attrs(raw))
}

/// Blank text is dropped; other text becomes a child of the innermost open
/// element.
pub open spec fn add_text(st: ParseState, text: Seq<char>) -> ParseState {
    if is_blank(text) {
        st
    } else {
        add_child(implied(st, seq![]), SpecData::Text(text))
    }
}

pub open spec fn process(st: ParseState, tok: SpecToken) -> ParseState {
    match tok {
        SpecToken::Text(t) => add_text(st, t),
        SpecToken::Tag(t) => add_tag(st, t),
    }
}

pub open spec fn build(toks: Seq<SpecToken>) -> ParseState
    decreases toks.len(),
{
    if toks.len() == 0 {
        init_state()
    } else {
        process(build(toks.drop_last()), toks.last())
    }
}

pub open spec fn close_all(st: ParseState) -> ParseState
    decreases st.open.len(),
{
    if st.open.len() > 1 {
        close_all(close_top(st))
    } else {
        st
    }
}

/// At the end, implied tags for an empty name, then every open element is
/// closed; the element left at the bottom of the stack is the root.
pub open spec fn finish(st: ParseState) -> ParseState {
    close_all(if st.open.len() > 0 { implied(st, seq![]) } else { st })
}

/// The nodes of the tree built from `toks`.
pub open spec fn tree_of_tokens(toks: Seq<SpecToken>) -> Seq<SpecNode> {
    finish(build(toks)).nodes
}

/// The nodes of the tree built from HTML source.
pub open spec fn spec_parse(source: Seq<char>) -> Seq<SpecNode> {
    tree_of_tokens(spec_lex(source))
}

/// A token that opens something: any tag, or text that is not blank.
pub open spec fn opens_something(t: SpecToken) -> bool {
    match t {
        SpecToken::Tag(_) => true,
        SpecToken::Text(s) => !is_blank(s),
    }
}

/// Tokens the builder accepts: every tag can be read, and at least one
/// token creates a node (else there is no root).
pub open spec fn tokens_ok(toks: Seq<SpecToken>) -> bool {
    &&& forall|k: int| 0 <= k < toks.len() ==> (#[trigger] toks[k] matches SpecToken::Tag(t) ==> tag_ok(t))
    &&& exists|k: int| 0 <= k < toks.len() && opens_something(#[trigger] toks[k])
}

pub open spec fn source_ok(source: Seq<char>) -> bool {
    tokens_ok(spec_lex(source))
}

} // verus!
