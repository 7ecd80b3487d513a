//! The tree builder keeps every piece of text: the text nodes of the
//! built tree, in the order they were created, are exactly the non-blank
//! text tokens of the source.
use vstd::prelude::*;
use crate::text::is_blank;
use crate::token::{SpecToken, spec_lex};
use super::html_node::{SpecNode, SpecData};
use super::tree_spec::{
    ParseState, add_child, attach, build, close_all, close_top, implicit_step, implicit_tags,
    implied, insert_tag, process, spec_parse,
};

verus! {

/// The text of a node, as a sequence of zero or one pieces.
pub open spec fn text_piece(d: SpecData) -> Seq<Seq<char>> {
    match d {
        SpecData::Text(s) => seq![s],
        SpecData::Element(_, _) => seq![],
    }
}

/// The texts of the text nodes, in node order.
pub open spec fn node_texts(t: Seq<SpecNode>) -> Seq<Seq<char>>
    decreases t.len(),
{
    if t.len() == 0 {
        seq![]
    } else {
        node_texts(t.drop_last()) + text_piece(t.last().data)
    }
}

/// The non-blank text tokens, in order.
pub open spec fn token_texts(toks: Seq<SpecToken>) -> Seq<Seq<char>>
    decreases toks.len(),
{
    if toks.len() == 0 {
        seq![]
    } else {
        token_texts(toks.drop_last()) + match toks.last() {
            SpecToken::Text(s) => if is_blank(s) {
                seq![]
            } else {
                seq![s]
            },
            SpecToken::Tag(_) => seq![],
        }
    }
}

proof fn lemma_texts_same_data(a: Seq<SpecNode>, b: Seq<SpecNode>)
    requires
        a.len() == b.len(),
        forall|i: int| 0 <= i < a.len() ==> (#[trigger] a[i]).data == b[i].data,
    ensures
        node_texts(a) == node_texts(b),
    decreases a.len(),
{
    if a.len() > 0 {
        assert forall|i: int| 0 <= i < a.drop_last().len() implies (#[trigger] a.drop_last()[i]).data
            == b.drop_last()[i].data by {
            assert(a.drop_last()[i] == a[i]);
            assert(b.drop_last()[i] == b[i]);
        }
        lemma_texts_same_data(a.drop_last(), b.drop_last());
    }
}

proof fn lemma_texts_push(t: Seq<SpecNode>, x: SpecNode)
    ensures
        node_texts(t.push(x)) == node_texts(t) + text_piece(x.data),
{
    assert(t.push(x).drop_last() =~= t);
}

proof fn lemma_texts_attach(t: Seq<SpecNode>, p: usize, c: usize)
    requires
        p < t.len(),
    ensures
        node_texts(attach(t, p, c)) == node_texts(t),
{
    let a = attach(t, p, c);
    assert forall|i: int| 0 <= i < a.len() implies (#[trigger] a[i]).data == t[i].data by {}
    lemma_texts_same_data(a, t);
}

/// What a state needs for its text to be tracked: the open elements
/// exist.
spec fn open_in_range(st: ParseState) -> bool {
    forall|k: int| 0 <= k < st.open.len() ==> (#[trigger] st.open[k]) < st.nodes.len()
}

proof fn lemma_insert_tag_texts(st: ParseState, tag: Seq<char>, attrs: Map<Seq<char>, Seq<char>>)
    requires
        open_in_range(st),
        super::tree_spec::self_closing_tag(tag) && !(super::tree_spec::is_end_tag(tag) && st.open.len() > 1)
            ==> st.open.len() > 0,
    ensures
        node_texts(insert_tag(st, tag, attrs).nodes) == node_texts(st.nodes),
        open_in_range(insert_tag(st, tag, attrs)),
{
    let d = SpecData::Element(tag, attrs);
    let r = insert_tag(st, tag, attrs);
    if super::tree_spec::is_end_tag(tag) && st.open.len() > 1 {
        let rest = st.open.drop_last();
        assert(rest.last() == st.open[st.open.len() - 2]);
        lemma_texts_attach(st.nodes, rest.last(), st.open.last());
        assert forall|k: int| 0 <= k < r.open.len() implies (#[trigger] r.open[k]) < r.nodes.len() by {
            assert(r.open[k] == st.open[k]);
        }
    } else if super::tree_spec::self_closing_tag(tag) {
        let p = st.open.last();
        assert(p == st.open[st.open.len() - 1]);
        let pushed = st.nodes.push(super::html_node::fresh_node(d, Some(p)));
        lemma_texts_push(st.nodes, super::html_node::fresh_node(d, Some(p)));
        lemma_texts_attach(pushed, p, st.nodes.len() as usize);
        assert(text_piece(d) =~= Seq::<Seq<char>>::empty());
        assert(node_texts(st.nodes) + text_piece(d) =~= node_texts(st.nodes));
        assert forall|k: int| 0 <= k < r.open.len() implies (#[trigger] r.open[k]) < r.nodes.len() by {
            assert(r.open[k] == st.open[k]);
        }
    } else {
        lemma_texts_push(st.nodes, super::html_node::fresh_node(d, super::tree_spec::innermost(st.open)));
        assert(node_texts(st.nodes) + text_piece(d) =~= node_texts(st.nodes));
        assert forall|k: int| 0 <= k < r.open.len() implies (#[trigger] r.open[k]) < r.nodes.len() by {
            if k < st.open.len() {
                assert(r.open[k] == st.open[k]);
            }
        }
    }
}

proof fn lemma_implicit_texts(st: ParseState, tag: Seq<char>, fuel: nat)
    requires
        open_in_range(st),
    ensures
        node_texts(implicit_tags(st, tag, fuel).nodes) == node_texts(st.nodes),
        open_in_range(implicit_tags(st, tag, fuel)),
    decreases fuel,
{
    if fuel > 0 {
        match implicit_step(st, tag) {
            Some(next) => {
                reveal_strlit("html");
                reveal_strlit("/head");
                super::lemma_html_not_void();
                super::tree_laws::lemma_head_body_not_void();
                if st.open.len() == 0 && tag != "html"@ {
                    lemma_insert_tag_texts(st, "html"@, Map::empty());
                } else if st.open.len() == 1 && super::tree_spec::open_tag(st, 0) == "html"@
                    && tag != "head"@ && tag != "body"@ && tag != "/html"@ {
                    lemma_insert_tag_texts(st, "head"@, Map::empty());
                    lemma_insert_tag_texts(st, "body"@, Map::empty());
                } else {
                    lemma_insert_tag_texts(st, "/head"@, Map::empty());
                }
                lemma_implicit_texts(next, tag, (fuel - 1) as nat);
            },
            None => {},
        }
    }
}

proof fn lemma_process_texts(st: ParseState, tok: SpecToken)
    requires
        open_in_range(st),
    ensures
        open_in_range(process(st, tok)),
        node_texts(process(st, tok).nodes) == node_texts(st.nodes) + match tok {
            SpecToken::Text(s) => if is_blank(s) {
                seq![]
            } else {
                seq![s]
            },
            SpecToken::Tag(_) => seq![],
        },
{
    match tok {
        SpecToken::Text(s) => {
            if !is_blank(s) {
                let im = implied(st, seq![]);
                lemma_implicit_texts(st, seq![], 3);
                let d = SpecData::Text(s);
                let p = im.open.last();
                let fresh = super::html_node::fresh_node(d, Some(p));
                let pushed = im.nodes.push(fresh);
                lemma_texts_push(im.nodes, fresh);
                super::lemma_implied_opens(st, seq![]);
                reveal_strlit("html");
                assert("html"@.len() == 4);
                assert(Seq::<char>::empty() != "html"@);
                assert(p == im.open[im.open.len() - 1]);
                lemma_texts_attach(pushed, p, im.nodes.len() as usize);
                let r = add_child(im, d);
                assert forall|k: int| 0 <= k < r.open.len() implies (#[trigger] r.open[k]) < r.nodes.len() by {
                    assert(r.open[k] == im.open[k]);
                }
            } else {
                assert(node_texts(st.nodes) + Seq::<Seq<char>>::empty() =~= node_texts(st.nodes));
            }
        },
        SpecToken::Tag(raw) => {
            let tag = super::tree_spec::tag_name(raw);
            lemma_implicit_texts(st, tag, 3);
            super::lemma_implied_opens(st, tag);
            super::lemma_html_not_void();
            lemma_insert_tag_texts(implied(st, tag), tag, super::tree_spec::tag_attrs(raw));
            assert(node_texts(st.nodes) + Seq::<Seq<char>>::empty() =~= node_texts(st.nodes));
        },
    }
}

proof fn lemma_build_texts(toks: Seq<SpecToken>)
    ensures
        node_texts(build(toks).nodes) == token_texts(toks),
        open_in_range(build(toks)),
    decreases toks.len(),
{
    if toks.len() > 0 {
        lemma_build_texts(toks.drop_last());
        lemma_process_texts(build(toks.drop_last()), toks.last());
    }
}

proof fn lemma_close_all_texts(st: ParseState)
    requires
        open_in_range(st),
    ensures
        node_texts(close_all(st).nodes) == node_texts(st.nodes),
    decreases st.open.len(),
{
    if st.open.len() > 1 {
        reveal_strlit("/");
        assert(super::tree_spec::is_end_tag("/"@));
        lemma_insert_tag_texts(st, "/"@, Map::empty());
        assert(insert_tag(st, "/"@, Map::empty()) == close_top(st));
        lemma_close_all_texts(close_top(st));
    }
}

/// Building a tree loses no text and adds none: the text nodes, in the
/// order they were created, hold exactly the non-blank text tokens of the
/// source.
pub proof fn lemma_parse_keeps_text(source: Seq<char>)
    ensures
        node_texts(spec_parse(source)) == token_texts(spec_lex(source)),
{
    let toks = spec_lex(source);
    lemma_build_texts(toks);
    let st = build(toks);
    if st.open.len() > 0 {
        lemma_implicit_texts(st, seq![], 3);
        lemma_close_all_texts(implied(st, seq![]));
    } else {
        lemma_close_all_texts(st);
    }
}

} // verus!
