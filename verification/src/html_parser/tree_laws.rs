//! What every built tree satisfies, and the invariant of the builder that
//! gives it.
use vstd::prelude::*;
use crate::text::is_blank;
use super::html_node::{SpecNode, SpecData, fresh_node, is_element, tag_of, tree_shape};
use super::tree_spec::{
    ParseState, add_child, attach, close_top, insert_tag, push_open, self_closing_tag,
    is_end_tag, innermost, implicit_step, implicit_tags, implied, open_tag, head_tag,
};

verus! {

/// The node facts that hold at every step: positions fit in `usize`, node 0 alone has no parent,
/// parents come before their children and are elements, children lists
/// point back to their parent without repetition, only non-void elements
/// have children, text is never blank, and node 0 is `<html>`.
pub open spec fn nodes_ok(t: Seq<SpecNode>) -> bool {
    &&& t.len() <= usize::MAX
    &&& forall|i: int| 0 <= i < t.len() ==> ((#[trigger] t[i]).parent is None <==> i == 0)
    &&& forall|i: int|
        0 < i < t.len() ==> (#[trigger] t[i]).parent.unwrap() < i && is_element(
            t[t[i].parent.unwrap() as int].data,
        )
    &&& forall|i: int, k: int|
        0 <= i < t.len() && 0 <= k < t[i].children.len() ==> #[trigger] t[i].children[k] < t.len()
            && t[t[i].children[k] as int].parent == Some(i as usize)
    &&& forall|i: int, a: int, b: int|
        0 <= i < t.len() && 0 <= a < b < t[i].children.len() ==> #[trigger] t[i].children[a]
            != #[trigger] t[i].children[b]
    &&& forall|i: int|
        0 <= i < t.len() && (#[trigger] t[i]).children.len() > 0 ==> is_element(t[i].data)
            && !self_closing_tag(tag_of(t[i].data))
    &&& forall|i: int| 0 <= i < t.len() ==> ((#[trigger] t[i]).data matches SpecData::Text(s) ==> !is_blank(s))
    &&& t.len() > 0 ==> tag_of(t[0].data) == "html"@
}

/// In a built tree, an HTML void element (`area`, `base`, `br`, `col`,
/// `embed`, `hr`, `img`, `input`, `link`, `meta`, `param`, `source`,
/// `track`, `wbr`) has no children: what follows it is its sibling.
pub proof fn lemma_void_elements_have_no_children(t: Seq<SpecNode>, i: int, tag: Seq<char>)
    requires
        tree_wf(t),
        0 <= i < t.len(),
        t[i].data matches SpecData::Element(name, _) && name == tag,
        tag == "area"@ || tag == "base"@ || tag == "br"@ || tag == "col"@ || tag == "embed"@ || tag
            == "hr"@ || tag == "img"@ || tag == "input"@ || tag == "link"@ || tag == "meta"@ || tag
            == "param"@ || tag == "source"@ || tag == "track"@ || tag == "wbr"@,
    ensures
        t[i].children.len() == 0,
{
    assert(self_closing_tag(tag_of(t[i].data)));
}

/// Node `i` sits in the children list of its parent.
pub open spec fn attached(t: Seq<SpecNode>, i: int) -> bool {
    t[t[i].parent.unwrap() as int].children.contains(i as usize)
}

/// A finished tree: the node facts, a root at position 0, and every other
/// node listed among its parent's children.
pub open spec fn tree_wf(t: Seq<SpecNode>) -> bool {
    &&& nodes_ok(t)
    &&& t.len() > 0
    &&& forall|i: int| 0 < i < t.len() ==> #[trigger] attached(t, i)
}

/// The builder's invariant: the node facts, and a stack of open elements
/// that starts at node 0, rises strictly, goes from parent to child, holds
/// no void element, and holds exactly the nodes not yet attached.
pub open spec fn state_inv(st: ParseState) -> bool {
    let t = st.nodes;
    let o = st.open;
    &&& nodes_ok(t)
    &&& (t.len() > 0 <==> o.len() > 0)
    &&& o.len() > 0 ==> o[0] == 0
    &&& forall|k: int|
        0 <= k < o.len() ==> (#[trigger] o[k]) < t.len() && is_element(t[o[k] as int].data)
            && !self_closing_tag(tag_of(t[o[k] as int].data))
    &&& forall|a: int, b: int| 0 <= a < b < o.len() ==> #[trigger] o[a] < #[trigger] o[b]
    &&& forall|k: int| 1 <= k < o.len() ==> t[(#[trigger] o[k]) as int].parent == Some(o[k - 1])
    &&& forall|i: int| 0 < i < t.len() ==> (o.contains(i as usize) <==> !#[trigger] attached(t, i))
}

/// A finished tree has the shape that styling and matching rely on.
pub proof fn lemma_wf_shape(t: Seq<SpecNode>)
    requires
        tree_wf(t),
    ensures
        tree_shape(t),
{
    assert forall|i: int| 0 <= i < t.len() implies ((#[trigger] t[i]).parent matches Some(p) ==> t[p as int].children.contains(
        i as usize,
    )) by {
        if i > 0 {
            assert(attached(t, i));
        }
    }
}

pub proof fn lemma_init_inv()
    ensures
        state_inv(ParseState { nodes: seq![], open: seq![] }),
{
}

/// Opening a non-void element keeps the invariant; on an empty stack the
/// element must be `<html>`.
pub proof fn lemma_push_open_inv(st: ParseState, tag: Seq<char>, attrs: Map<Seq<char>, Seq<char>>)
    requires
        state_inv(st),
        !self_closing_tag(tag),
        st.open.len() == 0 ==> tag == "html"@,
        st.nodes.len() < usize::MAX,
    ensures
        state_inv(push_open(st, SpecData::Element(tag, attrs))),
{
    let data = SpecData::Element(tag, attrs);
    let s2 = push_open(st, data);
    let t = st.nodes;
    let t2 = s2.nodes;
    let o = st.open;
    let o2 = s2.open;
    let n = t.len() as int;
    assert(t2[n] == fresh_node(data, innermost(o)));
    assert forall|i: int| 0 <= i < n implies #[trigger] t2[i] == t[i] by {}
    assert forall|i: int, k: int|
        0 <= i < t2.len() && 0 <= k < t2[i].children.len() implies #[trigger] t2[i].children[k]
        < t2.len() && t2[t2[i].children[k] as int].parent == Some(i as usize) by {
        assert(i < n);
        assert(t2[i] == t[i]);
        assert(t[i].children[k] < n);
        assert(t2[t[i].children[k] as int] == t[t[i].children[k] as int]);
    }
    assert forall|i: int| 0 < i < t2.len() implies (o2.contains(i as usize) <==> !#[trigger] attached(t2, i)) by {
        if i < n {
            assert(t2[i] == t[i]);
            assert(t[i].parent.unwrap() < i);
            assert(t2[t[i].parent.unwrap() as int] == t[t[i].parent.unwrap() as int]);
            assert(attached(t2, i) == attached(t, i));
            if o.contains(i as usize) {
                let k = choose|k: int| 0 <= k < o.len() && o[k] == i as usize;
                assert(o2[k] == o[k]);
            }
            if o2.contains(i as usize) {
                let k = choose|k: int| 0 <= k < o2.len() && o2[k] == i as usize;
                if k < o.len() {
                    assert(o2[k] == o[k]);
                } else {
                    assert(o2[k] == n);
                }
            }
        } else {
            assert(o2[o.len() as int] == n as usize);
            let p = t2[i].parent.unwrap() as int;
            assert(p < n);
            assert(t2[p] == t[p]);
            if t[p].children.contains(i as usize) {
                let k = choose|k: int| 0 <= k < t[p].children.len() && t[p].children[k] == i as usize;
                assert(t[p].children[k] < n);
            }
        }
    }
    assert forall|a: int, b: int| 0 <= a < b < o2.len() implies #[trigger] o2[a] < #[trigger] o2[b] by {
        if b < o.len() {
            assert(o2[a] == o[a] && o2[b] == o[b]);
        } else {
            assert(o2[a] == o[a]);
        }
    }
    assert forall|k: int| 1 <= k < o2.len() implies t2[(#[trigger] o2[k]) as int].parent == Some(o2[k - 1]) by {
        if k < o.len() {
            assert(o2[k] == o[k] && o2[k - 1] == o[k - 1]);
            assert(t2[o[k] as int] == t[o[k] as int]);
        } else {
            assert(o2[k - 1] == o.last());
        }
    }
    assert forall|k: int| 0 <= k < o2.len() implies (#[trigger] o2[k]) < t2.len() && is_element(
        t2[o2[k] as int].data,
    ) && !self_closing_tag(tag_of(t2[o2[k] as int].data)) by {
        if k < o.len() {
            assert(o2[k] == o[k]);
            assert(t2[o[k] as int] == t[o[k] as int]);
        }
    }
    if o.len() == 0 {
        assert(t.len() == 0);
    } else {
        assert(o2[0] == o[0]);
        assert(t2[0] == t[0]);
    }
}

/// Adding a node as the last child of the innermost open element keeps the
/// invariant.
pub proof fn lemma_add_child_inv(st: ParseState, data: SpecData)
    requires
        state_inv(st),
        st.open.len() > 0,
        st.nodes.len() < usize::MAX,
        data matches SpecData::Text(s) ==> !is_blank(s),
    ensures
        state_inv(add_child(st, data)),
{
    let s2 = add_child(st, data);
    let t = st.nodes;
    let t2 = s2.nodes;
    let o = st.open;
    let n = t.len() as int;
    let p = o.last() as int;
    let t1 = t.push(fresh_node(data, Some(p as usize)));
    assert(o[o.len() - 1] == p);
    assert(p < n);
    assert(t2 == attach(t1, p as usize, n as usize));
    assert(t2[n] == fresh_node(data, Some(p as usize)));
    assert(t2[p].children == t[p].children.push(n as usize));
    assert forall|i: int| 0 <= i < n && i != p implies #[trigger] t2[i] == t[i] by {}
    assert forall|i: int, k: int|
        0 <= i < t2.len() && 0 <= k < t2[i].children.len() implies #[trigger] t2[i].children[k]
        < t2.len() && t2[t2[i].children[k] as int].parent == Some(i as usize) by {
        if i == p && k == t[p].children.len() {
        } else {
            assert(i < n);
            assert(t2[i].children[k] == t[i].children[k]);
            let c = t[i].children[k] as int;
            assert(c < n);
            if c == p {
                assert(t2[c].parent == t[c].parent);
            } else {
                assert(t2[c] == t[c]);
            }
        }
    }
    assert forall|i: int, a: int, b: int|
        0 <= i < t2.len() && 0 <= a < b < t2[i].children.len() implies #[trigger] t2[i].children[a]
        != #[trigger] t2[i].children[b] by {
        if i == p {
            if b == t[p].children.len() {
                assert(t[p].children[a] < n);
            } else {
                assert(t2[p].children[a] == t[p].children[a]);
                assert(t2[p].children[b] == t[p].children[b]);
            }
        } else {
            assert(i < n);
            assert(t2[i] == t[i]);
        }
    }
    assert forall|i: int| 0 < i < t2.len() implies (o.contains(i as usize) <==> !#[trigger] attached(t2, i)) by {
        if i < n {
            assert(t2[i].parent == t[i].parent);
            let q = t[i].parent.unwrap() as int;
            assert(q < n);
            if q == p {
                if t2[p].children.contains(i as usize) {
                    let k = choose|k: int| 0 <= k < t2[p].children.len() && t2[p].children[k] == i as usize;
                    if k < t[p].children.len() {
                        assert(t[p].children[k] == i as usize);
                    }
                }
                if t[p].children.contains(i as usize) {
                    let k = choose|k: int| 0 <= k < t[p].children.len() && t[p].children[k] == i as usize;
                    assert(t2[p].children[k] == i as usize);
                }
                assert(attached(t2, i) == attached(t, i));
            } else {
                assert(t2[q] == t[q]);
                assert(attached(t2, i) == attached(t, i));
            }
        } else {
            assert(t2[p].children[t[p].children.len() as int] == n as usize);
            assert(attached(t2, i));
            if o.contains(i as usize) {
                let k = choose|k: int| 0 <= k < o.len() && o[k] == i as usize;
                assert(o[k] < n);
            }
        }
    }
    assert forall|i: int|
        0 <= i < t2.len() && (#[trigger] t2[i]).children.len() > 0 implies is_element(t2[i].data)
        && !self_closing_tag(tag_of(t2[i].data)) by {
        if i != p && i < n {
            assert(t2[i] == t[i]);
        }
    }
    assert forall|k: int| 0 <= k < o.len() implies (#[trigger] o[k]) < t2.len() && is_element(
        t2[o[k] as int].data,
    ) && !self_closing_tag(tag_of(t2[o[k] as int].data)) by {
        assert(t2[o[k] as int].data == t[o[k] as int].data);
    }
    assert forall|k: int| 1 <= k < o.len() implies t2[(#[trigger] o[k]) as int].parent == Some(o[k - 1]) by {
        assert(t2[o[k] as int].parent == t[o[k] as int].parent);
    }
    assert(t2[0].data == t[0].data);
}

/// Closing the innermost element keeps the invariant.
pub proof fn lemma_close_top_inv(st: ParseState)
    requires
        state_inv(st),
        st.open.len() > 1,
    ensures
        state_inv(close_top(st)),
{
    let s2 = close_top(st);
    let t = st.nodes;
    let t2 = s2.nodes;
    let o = st.open;
    let o2 = s2.open;
    let x = o.last() as int;
    let p = o2.last() as int;
    let n = t.len() as int;
    assert(o[o.len() - 1] == x);
    assert(o2[o2.len() - 1] == o[o.len() - 2]);
    assert(t[x].parent == Some(p as usize));
    assert(p < x);
    assert(t2[p].children == t[p].children.push(x as usize));
    assert(!attached(t, x)) by {
        assert(o.contains(x as usize));
    }
    assert forall|i: int| 0 <= i < n && i != p implies #[trigger] t2[i] == t[i] by {}
    assert forall|i: int, k: int|
        0 <= i < t2.len() && 0 <= k < t2[i].children.len() implies #[trigger] t2[i].children[k]
        < t2.len() && t2[t2[i].children[k] as int].parent == Some(i as usize) by {
        if i == p && k == t[p].children.len() {
        } else {
            assert(t2[i].children[k] == t[i].children[k]);
            let c = t[i].children[k] as int;
            assert(t2[c].parent == t[c].parent);
        }
    }
    assert forall|i: int, a: int, b: int|
        0 <= i < t2.len() && 0 <= a < b < t2[i].children.len() implies #[trigger] t2[i].children[a]
        != #[trigger] t2[i].children[b] by {
        if i == p {
            if b == t[p].children.len() {
                assert(t2[p].children[a] == t[p].children[a]);
                assert(t[p].children[a] != x as usize);
            } else {
                assert(t2[p].children[a] == t[p].children[a]);
                assert(t2[p].children[b] == t[p].children[b]);
            }
        } else {
            assert(t2[i] == t[i]);
        }
    }
    assert forall|i: int| 0 < i < t2.len() implies (o2.contains(i as usize) <==> !#[trigger] attached(t2, i)) by {
        let q = t[i].parent.unwrap() as int;
        assert(t2[i].parent == t[i].parent);
        if i == x {
            assert(t2[p].children[t[p].children.len() as int] == x as usize);
            if o2.contains(i as usize) {
                let k = choose|k: int| 0 <= k < o2.len() && o2[k] == i as usize;
                assert(o[k] == o2[k]);
                assert(o[k] < o[o.len() - 1]);
            }
        } else {
            if q == p {
                if t2[p].children.contains(i as usize) {
                    let k = choose|k: int| 0 <= k < t2[p].children.len() && t2[p].children[k] == i as usize;
                    if k < t[p].children.len() {
                        assert(t[p].children[k] == i as usize);
                    }
                }
                if t[p].children.contains(i as usize) {
                    let k = choose|k: int| 0 <= k < t[p].children.len() && t[p].children[k] == i as usize;
                    assert(t2[p].children[k] == i as usize);
                }
            } else {
                assert(t2[q] == t[q]);
            }
            assert(attached(t2, i) == attached(t, i));
            if o.contains(i as usize) {
                let k = choose|k: int| 0 <= k < o.len() && o[k] == i as usize;
                assert(k != o.len() - 1);
                assert(o2[k] == o[k]);
            }
            if o2.contains(i as usize) {
                let k = choose|k: int| 0 <= k < o2.len() && o2[k] == i as usize;
                assert(o[k] == o2[k]);
            }
        }
    }
    assert forall|i: int|
        0 <= i < t2.len() && (#[trigger] t2[i]).children.len() > 0 implies is_element(t2[i].data)
        && !self_closing_tag(tag_of(t2[i].data)) by {
        if i != p {
            assert(t2[i] == t[i]);
        }
    }
    assert forall|k: int| 0 <= k < o2.len() implies (#[trigger] o2[k]) < t2.len() && is_element(
        t2[o2[k] as int].data,
    ) && !self_closing_tag(tag_of(t2[o2[k] as int].data)) by {
        assert(o2[k] == o[k]);
        assert(t2[o[k] as int].data == t[o[k] as int].data);
    }
    assert forall|a: int, b: int| 0 <= a < b < o2.len() implies #[trigger] o2[a] < #[trigger] o2[b] by {
        assert(o2[a] == o[a] && o2[b] == o[b]);
    }
    assert forall|k: int| 1 <= k < o2.len() implies t2[(#[trigger] o2[k]) as int].parent == Some(o2[k - 1]) by {
        assert(o2[k] == o[k] && o2[k - 1] == o[k - 1]);
        assert(t2[o[k] as int].parent == t[o[k] as int].parent);
    }
    assert(o2[0] == o[0]);
    assert(t2[0].data == t[0].data);
}

/// Any tag keeps the invariant, given a non-empty stack or the tag `html`.
pub proof fn lemma_insert_tag_inv(st: ParseState, tag: Seq<char>, attrs: Map<Seq<char>, Seq<char>>)
    requires
        state_inv(st),
        st.open.len() > 0 || tag == "html"@,
        st.nodes.len() < usize::MAX,
    ensures
        state_inv(insert_tag(st, tag, attrs)),
{
    super::lemma_html_not_void();
    if is_end_tag(tag) && st.open.len() > 1 {
        lemma_close_top_inv(st);
    } else if self_closing_tag(tag) {
        lemma_add_child_inv(st, SpecData::Element(tag, attrs));
    } else {
        lemma_push_open_inv(st, tag, attrs);
    }
}

/// With only the root open, every node is in a finished tree.
pub proof fn lemma_inv_finished(st: ParseState)
    requires
        state_inv(st),
        st.open.len() == 1,
    ensures
        tree_wf(st.nodes),
{
    assert forall|i: int| 0 < i < st.nodes.len() implies #[trigger] attached(st.nodes, i) by {
        if st.open.contains(i as usize) {
            let k = choose|k: int| 0 <= k < st.open.len() && st.open[k] == i as usize;
            assert(k == 0);
        }
    }
}

} // verus!

verus! {

/// Implied tags settle within two rounds, so the three rounds that
/// `implied` allows leave nothing further implied: the builder's loop over
/// implied tags stops exactly where `implied` does.
pub proof fn lemma_implicit_settles(st: ParseState, tag: Seq<char>)
    requires
        state_inv(st),
        st.nodes.len() + 3 <= usize::MAX,
    ensures
        implicit_step(implied(st, tag), tag) is None,
{
    reveal_strlit("html");
    reveal_strlit("head");
    reveal_strlit("body");
    reveal_strlit("/head");
    reveal_strlit("/html");
    super::lemma_html_not_void();
    lemma_head_body_distinct();
    lemma_head_body_not_void();
    let h = "head"@;
    let b = "body"@;
    assert(!is_end_tag(h) && !is_end_tag(b));
    // Opening `<head>` or `<body>` under the root leaves nothing implied.
    assert forall|s: ParseState, name: Seq<char>|
        #![trigger push_open(s, SpecData::Element(name, Map::empty()))]
        s.open.len() == 1 && s.nodes.len() < usize::MAX && (name == h || name == b) && (name == h ==> head_tag(tag)) implies
        implicit_step(push_open(s, SpecData::Element(name, Map::empty())), tag) is None by {
        let s2 = push_open(s, SpecData::Element(name, Map::empty()));
        assert(s2.open[1] == s.nodes.len() as usize);
        assert(s2.nodes[s.nodes.len() as int].data == SpecData::Element(name, Map::empty()));
        assert(s2.open.len() == 2);
        if name == h {
            assert(open_tag(s2, 1) == h);
        } else {
            assert(open_tag(s2, 1) == b);
        }
    }
    let o = st.open;
    if o.len() == 0 {
        if tag != "html"@ {
            let s1 = insert_tag(st, "html"@, Map::empty());
            assert(s1 == push_open(st, SpecData::Element("html"@, Map::empty())));
            assert(s1.open.len() == 1);
            assert(s1.open[0] == 0);
            assert(s1.nodes[0].data == SpecData::Element("html"@, Map::empty()));
            assert(open_tag(s1, 0) == "html"@);
            assert(implicit_step(st, tag) == Some(s1));
            assert(implicit_tags(st, tag, 3) == implicit_tags(s1, tag, 2));
            match implicit_step(s1, tag) {
                Some(s2) => {
                    if head_tag(tag) {
                        assert(s2 == push_open(s1, SpecData::Element(h, Map::empty())));
                    } else {
                        assert(s2 == push_open(s1, SpecData::Element(b, Map::empty())));
                    }
                    assert(implicit_step(s2, tag) is None);
                    assert(implicit_tags(s1, tag, 2) == implicit_tags(s2, tag, 1));
                    assert(implicit_tags(s2, tag, 1) == s2);
                },
                None => {
                    assert(implicit_tags(s1, tag, 2) == s1);
                },
            }
        } else {
            assert(implicit_step(st, tag) is None);
            assert(implicit_tags(st, tag, 3) == st);
        }
    } else if o.len() == 1 {
        assert(open_tag(st, 0) == "html"@);
        match implicit_step(st, tag) {
            Some(s1) => {
                if head_tag(tag) {
                    assert(s1 == push_open(st, SpecData::Element(h, Map::empty())));
                } else {
                    assert(s1 == push_open(st, SpecData::Element(b, Map::empty())));
                }
                assert(implicit_step(s1, tag) is None);
                assert(implicit_tags(st, tag, 3) == implicit_tags(s1, tag, 2));
                assert(implicit_tags(s1, tag, 2) == s1);
            },
            None => {
                assert(implicit_tags(st, tag, 3) == st);
            },
        }
    } else if o.len() == 2 {
        match implicit_step(st, tag) {
            Some(s1) => {
                assert(s1 == close_top(st));
                assert(s1.open.len() == 1);
                assert(s1.open[0] == 0);
                assert(s1.nodes[0].data == st.nodes[0].data);
                assert(open_tag(s1, 0) == "html"@);
                assert(implicit_tags(st, tag, 3) == implicit_tags(s1, tag, 2));
                match implicit_step(s1, tag) {
                    Some(s2) => {
                        assert(!head_tag(tag));
                        assert(s2 == push_open(s1, SpecData::Element(b, Map::empty())));
                        assert(implicit_step(s2, tag) is None);
                        assert(implicit_tags(s1, tag, 2) == implicit_tags(s2, tag, 1));
                        assert(implicit_tags(s2, tag, 1) == s2);
                    },
                    None => {
                        assert(implicit_tags(s1, tag, 2) == s1);
                    },
                }
            },
            None => {
                assert(implicit_tags(st, tag, 3) == st);
            },
        }
    } else {
        assert(implicit_step(st, tag) is None);
        assert(implicit_tags(st, tag, 3) == st);
    }
}

pub proof fn lemma_head_body_not_void()
    ensures
        !self_closing_tag("head"@),
        !self_closing_tag("body"@),
{
    reveal_strlit("head");
    reveal_strlit("body");
    reveal_strlit("area");
    reveal_strlit("base");
    reveal_strlit("br");
    reveal_strlit("col");
    reveal_strlit("embed");
    reveal_strlit("hr");
    reveal_strlit("img");
    reveal_strlit("input");
    reveal_strlit("link");
    reveal_strlit("meta");
    reveal_strlit("param");
    reveal_strlit("source");
    reveal_strlit("track");
    reveal_strlit("wbr");
    assert("area"@[0] != 'h' && "area"@[0] != 'b');
    assert("base"@[0] != 'h' && "base"@[1] != 'o');
    assert("link"@[0] != 'h' && "link"@[0] != 'b');
    assert("meta"@[0] != 'h' && "meta"@[0] != 'b');
    assert("head"@[0] == 'h' && "body"@[0] == 'b' && "body"@[1] == 'o');
    assert("br"@.len() != 4 && "col"@.len() != 4 && "embed"@.len() != 4 && "hr"@.len() != 4);
    assert("img"@.len() != 4 && "input"@.len() != 4 && "param"@.len() != 4);
    assert("source"@.len() != 4 && "track"@.len() != 4 && "wbr"@.len() != 4);
}

proof fn lemma_head_body_distinct()
    ensures
        "head"@ != "body"@,
        "head"@ != "html"@,
        "body"@ != "html"@,
{
    reveal_strlit("head");
    reveal_strlit("body");
    reveal_strlit("html");
    assert("head"@[1] != "body"@[1]);
    assert("head"@[0] != "body"@[0]);
    assert("body"@[0] != "html"@[0]);
}

} // verus!
