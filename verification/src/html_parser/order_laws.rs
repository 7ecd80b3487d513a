//! The tree builder numbers nodes in document order: each node's number is
//! its place in a pre-order walk of the finished tree. Hence the text nodes,
//! read in document order, are the non-blank text tokens of the source
//! (stated in the `ensures` of the parsers).
use vstd::prelude::*;
use crate::css_parser::cascade_spec::{
    in_subtree, lemma_subtree_trans, lemma_subtree_ge, lemma_subtree_chain, lemma_subtree_cover,
};
use super::html_node::{SpecNode, SpecData, fresh_node};
use super::tree_laws::{tree_wf, attached, lemma_wf_shape};
use super::text_laws::{text_piece, node_texts};
use super::tree_spec::{ParseState, add_child, attach, close_top, push_open, innermost};

verus! {

/// Node numbers follow document order: every node's parent is an
/// ancestor of (or is) the node numbered just before it, and every
/// children list is increasing.
pub open spec fn numbered_in_order(t: Seq<SpecNode>) -> bool {
    &&& forall|j: int| 0 < j < t.len() ==> #[trigger] follows_kin(t, j)
    &&& forall|i: int, a: int, b: int|
        0 <= i < t.len() && 0 <= a < b < t[i].children.len() ==> #[trigger] t[i].children[a]
            < #[trigger] t[i].children[b]
}

/// Node `j` has a parent, and that parent is an ancestor of (or is) node
/// `j - 1`.
pub open spec fn follows_kin(t: Seq<SpecNode>, j: int) -> bool {
    t[j].parent is Some && in_subtree(t, t[j].parent.unwrap() as int, j - 1)
}

/// The builder's invariant for numbering: the open elements form a rising
/// chain from parent to child, and the innermost one is an ancestor of the
/// last node made; nothing attached to an open element comes after the next
/// open element.
pub open spec fn order_inv(st: ParseState) -> bool {
    let t = st.nodes;
    let o = st.open;
    &&& (t.len() > 0 <==> o.len() > 0)
    &&& forall|k: int| 0 <= k < o.len() ==> (#[trigger] o[k]) < t.len()
    &&& forall|a: int, b: int| 0 <= a < b < o.len() ==> #[trigger] o[a] < #[trigger] o[b]
    &&& forall|k: int| 1 <= k < o.len() ==> t[(#[trigger] o[k]) as int].parent == Some(o[k - 1])
    &&& forall|i: int| 0 <= i < t.len() ==> ((#[trigger] t[i]).parent matches Some(p) ==> p < i)
    &&& t.len() > 0 ==> in_subtree(t, o.last() as int, t.len() - 1)
    &&& forall|i: int, k: int|
        0 <= i < t.len() && 0 <= k < t[i].children.len() ==> #[trigger] t[i].children[k] < t.len()
    &&& forall|k: int, x: int|
        1 <= k < o.len() && 0 <= x < t[o[k - 1] as int].children.len() ==> #[trigger] t[o[k
            - 1] as int].children[x] < o[k]
    &&& numbered_in_order(t)
}

/// Ancestry through parents depends only on the parents of the nodes below.
proof fn lemma_subtree_parents(t1: Seq<SpecNode>, t2: Seq<SpecNode>, top: int, m: int)
    requires
        t1.len() <= t2.len(),
        forall|i: int| 0 <= i < t1.len() ==> (#[trigger] t2[i]).parent == t1[i].parent,
        0 <= m < t1.len(),
    ensures
        in_subtree(t2, top, m) == in_subtree(t1, top, m),
    decreases m,
{
    if m != top {
        assert(t2[m].parent == t1[m].parent);
        if let Some(p) = t1[m].parent {
            if p < m {
                lemma_subtree_parents(t1, t2, top, p as int);
            }
        }
    }
}

proof fn lemma_order_keeps(t1: Seq<SpecNode>, t2: Seq<SpecNode>)
    requires
        t1.len() <= t2.len(),
        forall|i: int| 0 <= i < t1.len() ==> (#[trigger] t2[i]).parent == t1[i].parent,
        forall|j: int| 0 < j < t1.len() ==> #[trigger] follows_kin(t1, j),
    ensures
        forall|j: int| 0 < j < t1.len() ==> #[trigger] follows_kin(t2, j),
{
    assert forall|j: int| 0 < j < t1.len() implies #[trigger] follows_kin(t2, j) by {
        assert(follows_kin(t1, j));
        assert(t2[j].parent == t1[j].parent);
        lemma_subtree_parents(t1, t2, t1[j].parent.unwrap() as int, j - 1);
    }
}

#[verifier::rlimit(40)]
pub proof fn lemma_push_open_order(st: ParseState, d: SpecData)
    requires
        order_inv(st),
        st.nodes.len() < usize::MAX,
    ensures
        order_inv(push_open(st, d)),
{
    let t = st.nodes;
    let o = st.open;
    let n = t.len() as int;
    let r = push_open(st, d);
    let t2 = r.nodes;
    let o2 = r.open;
    assert(t2[n] == fresh_node(d, innermost(o)));
    assert forall|i: int| 0 <= i < n implies #[trigger] t2[i] == t[i] by {}
    lemma_order_keeps(t, t2);
    if n > 0 {
        assert(o.last() == o[o.len() - 1]);
        lemma_subtree_parents(t, t2, o.last() as int, n - 1);
    }
    assert forall|k: int| 1 <= k < o2.len() implies t2[(#[trigger] o2[k]) as int].parent == Some(
        o2[k - 1],
    ) by {
        if k < o.len() {
            assert(o2[k] == o[k] && o2[k - 1] == o[k - 1]);
        } else {
            assert(o2[k] == n);
            assert(o2[k - 1] == o[o.len() - 1]);
        }
    }
    assert forall|a: int, b: int| 0 <= a < b < o2.len() implies #[trigger] o2[a] < #[trigger] o2[b] by {
        if b < o.len() {
            assert(o2[a] == o[a] && o2[b] == o[b]);
        } else {
            assert(o2[a] == o[a]);
        }
    }
    assert forall|k: int| 0 <= k < o2.len() implies (#[trigger] o2[k]) < t2.len() by {
        if k < o.len() {
            assert(o2[k] == o[k]);
        }
    }
    assert forall|k: int, x: int|
        1 <= k < o2.len() && 0 <= x < t2[o2[k - 1] as int].children.len() implies #[trigger] t2[o2[k
        - 1] as int].children[x] < o2[k] by {
        if k < o.len() {
            assert(o2[k] == o[k] && o2[k - 1] == o[k - 1]);
        } else {
            assert(o2[k - 1] == o[o.len() - 1]);
            assert(t2[o[o.len() - 1] as int] == t[o[o.len() - 1] as int]);
        }
    }
    assert(in_subtree(t2, n, n));
    assert(o2.last() == n);
}

proof fn lemma_attach_facts(t: Seq<SpecNode>, p: usize, c: usize)
    requires
        p < t.len(),
    ensures
        attach(t, p, c).len() == t.len(),
        forall|i: int| 0 <= i < t.len() ==> (#[trigger] attach(t, p, c)[i]).parent == t[i].parent,
        forall|i: int| 0 <= i < t.len() && i != p ==> (#[trigger] attach(t, p, c)[i]).children == t[i].children,
        attach(t, p, c)[p as int].children == t[p as int].children.push(c),
{
}

pub proof fn lemma_add_child_order(st: ParseState, d: SpecData)
    requires
        order_inv(st),
        st.open.len() > 0,
        st.nodes.len() < usize::MAX,
    ensures
        order_inv(add_child(st, d)),
{
    let t = st.nodes;
    let o = st.open;
    let n = t.len() as int;
    let p = o.last();
    assert(p == o[o.len() - 1]);
    let t1 = t.push(fresh_node(d, Some(p)));
    let r = add_child(st, d);
    let t2 = r.nodes;
    lemma_attach_facts(t1, p, n as usize);
    assert forall|i: int| 0 <= i < n implies #[trigger] t1[i] == t[i] by {}
    assert forall|i: int| 0 <= i < t1.len() implies (#[trigger] t2[i]).parent == t1[i].parent by {}
    lemma_order_keeps(t, t2);
    lemma_subtree_parents(t, t2, p as int, n - 1);
    assert(t2[n].parent == Some(p));
    assert(in_subtree(t2, p as int, p as int));
    assert(in_subtree(t2, p as int, n));
    assert forall|i: int| 0 <= i < t2.len() implies ((#[trigger] t2[i]).parent matches Some(q) ==> q < i) by {
        assert(t2[i].parent == t1[i].parent);
    }
    assert forall|k: int| 1 <= k < o.len() implies t2[(#[trigger] o[k]) as int].parent == Some(o[k - 1]) by {
        assert(t2[o[k] as int].parent == t1[o[k] as int].parent);
    }
    assert forall|i: int, k: int|
        0 <= i < t2.len() && 0 <= k < t2[i].children.len() implies #[trigger] t2[i].children[k] < t2.len() by {
        if i != p && i < n {
            assert(t2[i].children == t[i].children);
        } else if i == p {
            if k < t[i].children.len() {
                assert(t2[i].children[k] == t[i].children[k]);
            }
        }
    }
    assert forall|i: int, a: int, b: int|
        0 <= i < t2.len() && 0 <= a < b < t2[i].children.len() implies #[trigger] t2[i].children[a]
        < #[trigger] t2[i].children[b] by {
        if i != p && i < n {
            assert(t2[i].children == t[i].children);
        } else if i == p {
            assert(t2[i].children[a] == t[i].children[a]);
            assert(t[i].children[a] < t.len());
            if b < t[i].children.len() {
                assert(t2[i].children[b] == t[i].children[b]);
            }
        }
    }
    assert forall|k: int, x: int|
        1 <= k < o.len() && 0 <= x < t2[o[k - 1] as int].children.len() implies #[trigger] t2[o[k
        - 1] as int].children[x] < o[k] by {
        assert(o[k - 1] < o[o.len() - 1]);
        assert(t2[o[k - 1] as int].children == t[o[k - 1] as int].children);
    }
}

pub proof fn lemma_close_top_order(st: ParseState)
    requires
        order_inv(st),
        st.open.len() > 1,
    ensures
        order_inv(close_top(st)),
{
    let t = st.nodes;
    let o = st.open;
    let n = t.len() as int;
    let rest = o.drop_last();
    let q = rest.last();
    let c = o.last();
    assert(q == o[o.len() - 2] && c == o[o.len() - 1]);
    let r = close_top(st);
    let t2 = r.nodes;
    let o2 = r.open;
    lemma_attach_facts(t, q, c);
    lemma_order_keeps(t, t2);
    assert(t[c as int].parent == Some(q));
    assert(in_subtree(t, q as int, q as int));
    assert(in_subtree(t, q as int, c as int));
    lemma_subtree_trans(t, q as int, c as int, n - 1);
    lemma_subtree_parents(t, t2, q as int, n - 1);
    assert(o2.last() == q);
    assert forall|i: int| 0 <= i < t2.len() implies ((#[trigger] t2[i]).parent matches Some(x) ==> x < i) by {
        assert(t2[i].parent == t[i].parent);
    }
    assert forall|k: int| 1 <= k < o2.len() implies t2[(#[trigger] o2[k]) as int].parent == Some(o2[k - 1]) by {
        assert(o2[k] == o[k] && o2[k - 1] == o[k - 1]);
        assert(t2[o[k] as int].parent == t[o[k] as int].parent);
    }
    assert forall|a: int, b: int| 0 <= a < b < o2.len() implies #[trigger] o2[a] < #[trigger] o2[b] by {
        assert(o2[a] == o[a] && o2[b] == o[b]);
    }
    assert forall|k: int| 0 <= k < o2.len() implies (#[trigger] o2[k]) < t2.len() by {
        assert(o2[k] == o[k]);
    }
    assert forall|i: int, k: int|
        0 <= i < t2.len() && 0 <= k < t2[i].children.len() implies #[trigger] t2[i].children[k] < t2.len() by {
        if i != q {
            assert(t2[i].children == t[i].children);
        } else if k < t[i].children.len() {
            assert(t2[i].children[k] == t[i].children[k]);
        }
    }
    assert forall|i: int, a: int, b: int|
        0 <= i < t2.len() && 0 <= a < b < t2[i].children.len() implies #[trigger] t2[i].children[a]
        < #[trigger] t2[i].children[b] by {
        if i != q {
            assert(t2[i].children == t[i].children);
        } else {
            assert(t2[i].children[a] == t[i].children[a]);
            if b < t[i].children.len() {
                assert(t2[i].children[b] == t[i].children[b]);
            } else {
                assert(t[q as int].children[a] < o[o.len() - 1]);
            }
        }
    }
    assert forall|k: int, x: int|
        1 <= k < o2.len() && 0 <= x < t2[o2[k - 1] as int].children.len() implies #[trigger] t2[o2[k
        - 1] as int].children[x] < o2[k] by {
        assert(o2[k] == o[k] && o2[k - 1] == o[k - 1]);
        assert(o[k - 1] < o[o.len() - 2]);
        assert(t2[o[k - 1] as int].children == t[o[k - 1] as int].children);
    }
}

/// The texts of the text nodes below node `i` (itself included), in
/// document order: the node, then each child's subtree in turn.
pub open spec fn preorder_texts(t: Seq<SpecNode>, i: int) -> Seq<Seq<char>>
    decreases t.len() - i, t[i].children.len() + 1,
{
    if 0 <= i < t.len() {
        text_piece(t[i].data) + children_texts(t, i, t[i].children.len() as int)
    } else {
        seq![]
    }
}

/// The document-order texts of the subtrees of the first `k` children of
/// node `i`.
pub open spec fn children_texts(t: Seq<SpecNode>, i: int, k: int) -> Seq<Seq<char>>
    decreases t.len() - i, k,
{
    if 0 <= i < t.len() && 0 < k <= t[i].children.len() {
        let c = t[i].children[k - 1] as int;
        children_texts(t, i, k - 1) + if i < c < t.len() {
            preorder_texts(t, c)
        } else {
            seq![]
        }
    } else {
        seq![]
    }
}

/// The texts of nodes `a` up to (not including) `b`, in number order.
spec fn range_texts(t: Seq<SpecNode>, a: int, b: int) -> Seq<Seq<char>>
    decreases b - a,
{
    if a < b {
        range_texts(t, a, b - 1) + text_piece(t[b - 1].data)
    } else {
        seq![]
    }
}

/// One past the last node of the subtree of `i`, following last children.
spec fn span_end(t: Seq<SpecNode>, i: int) -> int
    decreases t.len() - i,
{
    if 0 <= i < t.len() && t[i].children.len() > 0 && i < t[i].children.last() < t.len() {
        span_end(t, t[i].children.last() as int)
    } else {
        i + 1
    }
}

/// Where the subtrees of the first `k` children of `i` end.
spec fn child_end(t: Seq<SpecNode>, i: int, k: int) -> int {
    if k == 0 {
        i + 1
    } else {
        span_end(t, t[i].children[k - 1] as int)
    }
}

proof fn lemma_range_concat(t: Seq<SpecNode>, a: int, m: int, b: int)
    requires
        a <= m <= b,
    ensures
        range_texts(t, a, m) + range_texts(t, m, b) == range_texts(t, a, b),
    decreases b - m,
{
    if m == b {
        assert(range_texts(t, a, m) + range_texts(t, m, b) =~= range_texts(t, a, b));
    } else {
        lemma_range_concat(t, a, m, b - 1);
        assert(range_texts(t, a, m) + range_texts(t, m, b) =~= range_texts(t, a, m) + range_texts(
            t,
            m,
            b - 1,
        ) + text_piece(t[b - 1].data));
    }
}

proof fn lemma_range_prefix(t1: Seq<SpecNode>, t2: Seq<SpecNode>, a: int, b: int)
    requires
        forall|i: int| 0 <= i < b ==> (#[trigger] t1[i]).data == t2[i].data,
        0 <= a,
    ensures
        range_texts(t1, a, b) == range_texts(t2, a, b),
    decreases b - a,
{
    if a < b {
        lemma_range_prefix(t1, t2, a, b - 1);
        assert(t1[b - 1].data == t2[b - 1].data);
    }
}

proof fn lemma_node_texts_range(t: Seq<SpecNode>)
    ensures
        node_texts(t) == range_texts(t, 0, t.len() as int),
    decreases t.len(),
{
    if t.len() > 0 {
        let d = t.drop_last();
        lemma_node_texts_range(d);
        assert forall|i: int| 0 <= i < d.len() implies (#[trigger] d[i]).data == t[i].data by {}
        lemma_range_prefix(d, t, 0, d.len() as int);
    }
}

/// Subtrees are ranges of numbers: from a descendant back to the top,
/// every number in between is a descendant too.
proof fn lemma_down(t: Seq<SpecNode>, i: int, x: int, m: int)
    requires
        numbered_in_order(t),
        0 <= i <= m <= x < t.len(),
        in_subtree(t, i, x),
    ensures
        in_subtree(t, i, m),
    decreases x - m,
{
    if m < x {
        let p = t[x].parent.unwrap() as int;
        assert(follows_kin(t, x));
        lemma_subtree_trans(t, i, p, x - 1);
        lemma_down(t, i, x - 1, m);
    }
}

/// A well-formed tree, kept folded so that proofs over it stay small.
#[verifier::opaque]
spec fn wf_tree(t: Seq<SpecNode>) -> bool {
    tree_wf(t)
}

proof fn lemma_cover(t: Seq<SpecNode>, i: int, m: int)
    requires
        wf_tree(t),
        0 <= i < t.len(),
        in_subtree(t, i, m),
        m != i,
    ensures
        exists|j: int| 0 <= j < t[i].children.len() && in_subtree(t, #[trigger] t[i].children[j] as int, m),
{
    reveal(wf_tree);
    lemma_wf_shape(t);
    lemma_subtree_cover(t, i, m);
}

proof fn lemma_child_facts(t: Seq<SpecNode>, i: int, k: int)
    requires
        wf_tree(t),
        0 <= i < t.len(),
        0 <= k < t[i].children.len(),
    ensures
        i < t[i].children[k] < t.len(),
        t[t[i].children[k] as int].parent == Some(i as usize),
        in_subtree(t, i, t[i].children[k] as int),
{
    reveal(wf_tree);
    let c = t[i].children[k] as int;
    assert(t[i].children[k] < t.len() && t[c].parent == Some(i as usize));
    assert(c != 0);
    assert(t[c].parent.unwrap() < c);
    assert(in_subtree(t, i, i));
}

/// A node of `i`'s children list is found at some position.
proof fn lemma_child_index(t: Seq<SpecNode>, i: int, x: int)
    requires
        wf_tree(t),
        0 < x < t.len(),
        t[x].parent == Some(i as usize),
        0 <= i < t.len(),
    ensures
        exists|j: int| 0 <= j < t[i].children.len() && t[i].children[j] == x,
{
    reveal(wf_tree);
    assert(attached(t, x));
    assert((i as usize) as int == i);
    assert(t[i].children.contains(x as usize));
}

proof fn lemma_span(t: Seq<SpecNode>, i: int)
    requires
        wf_tree(t),
        numbered_in_order(t),
        0 <= i < t.len(),
    ensures
        i < span_end(t, i) <= t.len(),
        forall|m: int| in_subtree(t, i, m) <==> i <= m < span_end(t, i),
        preorder_texts(t, i) == range_texts(t, i, span_end(t, i)),
    decreases t.len() - i, t[i].children.len() + 1,
{
    let n = t[i].children.len() as int;
    lemma_children_span(t, i, n);
    if n > 0 {
        lemma_child_facts(t, i, n - 1);
        assert(t[i].children.last() == t[i].children[n - 1]);
    }
    let e = span_end(t, i);
    assert(e == child_end(t, i, n));
    assert forall|m: int| in_subtree(t, i, m) <==> i <= m < e by {
        if in_subtree(t, i, m) {
            lemma_subtree_ge(t, i, m);
            if m != i {
                lemma_cover(t, i, m);
                let j = choose|j: int| 0 <= j < t[i].children.len() && in_subtree(
                    t,
                    #[trigger] t[i].children[j] as int,
                    m,
                );
                assert(in_subtree(t, t[i].children[j] as int, m));
            }
        }
        if i <= m < e && m != i {
            assert(in_subtree(t, i, m));
        }
    }
    lemma_range_concat(t, i, i + 1, e);
    assert(range_texts(t, i, i) =~= Seq::<Seq<char>>::empty());
    assert(range_texts(t, i, i + 1) =~= text_piece(t[i].data));
}

proof fn lemma_children_span(t: Seq<SpecNode>, i: int, k: int)
    requires
        wf_tree(t),
        numbered_in_order(t),
        0 <= i < t.len(),
        0 <= k <= t[i].children.len(),
    ensures
        i + 1 <= child_end(t, i, k) <= t.len(),
        children_texts(t, i, k) == range_texts(t, i + 1, child_end(t, i, k)),
        forall|m: int| i + 1 <= m < child_end(t, i, k) ==> in_subtree(t, i, m),
        forall|j: int, m: int|
            0 <= j < k && #[trigger] in_subtree(t, t[i].children[j] as int, m) ==> m < child_end(
                t,
                i,
                k,
            ),
        k < t[i].children.len() ==> t[i].children[k] == child_end(t, i, k),
    decreases t.len() - i, k,
{
    let kids = t[i].children;
    if k == 0 {
        if kids.len() > 0 {
            let c0 = kids[0] as int;
            lemma_child_facts(t, i, 0);
            lemma_down(t, i, c0, i + 1);
            let q = t[i + 1].parent.unwrap() as int;
            assert(in_subtree(t, i, q));
            lemma_subtree_ge(t, i, q);
            lemma_child_index(t, i, i + 1);
            let j = choose|j: int| 0 <= j < kids.len() && kids[j] == i + 1;
            if j > 0 {
                assert(kids[0] < kids[j]);
            }
        }
    } else {
        lemma_children_span(t, i, k - 1);
        let c = kids[k - 1] as int;
        lemma_child_facts(t, i, k - 1);
        lemma_span(t, c);
        let e = span_end(t, c);
        assert(child_end(t, i, k) == e);
        lemma_range_concat(t, i + 1, c, e);
        assert forall|m: int| i + 1 <= m < e implies in_subtree(t, i, m) by {
            if m >= c {
                assert(in_subtree(t, c, m));
                lemma_subtree_trans(t, i, c, m);
            }
        }
        if k < kids.len() {
            lemma_next_child(t, i, k);
        }
    }
}

/// The child after child `k - 1` starts where the subtree of child `k - 1`
/// ends.
proof fn lemma_next_child(t: Seq<SpecNode>, i: int, k: int)
    requires
        wf_tree(t),
        numbered_in_order(t),
        0 <= i < t.len(),
        1 <= k < t[i].children.len(),
        t[i].children[k - 1] < span_end(t, t[i].children[k - 1] as int) <= t.len(),
        forall|m: int|
            #[trigger] in_subtree(t, t[i].children[k - 1] as int, m) <==> t[i].children[k - 1] <= m < span_end(
                t,
                t[i].children[k - 1] as int,
            ),
    ensures
        t[i].children[k] == span_end(t, t[i].children[k - 1] as int),
{
    let kids = t[i].children;
    let c = kids[k - 1] as int;
    let e = span_end(t, c);
    lemma_child_facts(t, i, k - 1);
    let ck = kids[k] as int;
    lemma_child_facts(t, i, k);
    assert(kids[k - 1] < kids[k]);
    if in_subtree(t, c, ck) {
        assert(in_subtree(t, c, i));
        lemma_subtree_ge(t, c, i);
    }
    if e < ck {
        lemma_down(t, i, ck, e);
        let pe = t[e].parent.unwrap() as int;
        assert(in_subtree(t, i, pe));
        assert(follows_kin(t, e));
        assert(in_subtree(t, c, e - 1));
        lemma_subtree_chain(t, pe, c, e - 1);
        if in_subtree(t, c, pe) {
            assert(in_subtree(t, c, e));
        } else {
            assert(in_subtree(t, pe, i));
            lemma_subtree_ge(t, pe, i);
            lemma_subtree_ge(t, i, pe);
            lemma_child_index(t, i, e);
            let j = choose|j: int| 0 <= j < kids.len() && kids[j] == e;
            if j < k - 1 {
                assert(kids[j] < kids[k - 1]);
            }
            if j > k {
                assert(kids[k] < kids[j]);
            }
        }
    }
}

proof fn lemma_root_above(t: Seq<SpecNode>, m: int)
    requires
        wf_tree(t),
        0 <= m < t.len(),
    ensures
        in_subtree(t, 0, m),
    decreases m,
{
    if m > 0 {
        reveal(wf_tree);
        let p = t[m].parent.unwrap() as int;
        assert(t[m].parent is Some && p < m);
        lemma_root_above(t, p);
    }
}

/// In a well-formed tree numbered in document order, the texts read in
/// document order are the texts in number order.
pub proof fn lemma_preorder_texts(t: Seq<SpecNode>)
    requires
        tree_wf(t),
        numbered_in_order(t),
    ensures
        preorder_texts(t, 0) == node_texts(t),
{
    reveal(wf_tree);
    assert(t.len() > 0);
    lemma_span(t, 0);
    lemma_root_above(t, t.len() - 1);
    lemma_node_texts_range(t);
}

} // verus!
