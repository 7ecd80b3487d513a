//! What styling computes, and the facts about subtrees it rests on.
use vstd::prelude::*;
use crate::html_parser::html_node::{SpecNode, SpecData, tree_shape};
use super::css_spec::{SpecSelector, SpecRule, spec_declarations};
use super::selector_spec::{sel_matches, ancestor_matches};

verus! {

/// The inherited value of property `k`: the parent's value, or `default`
/// at a node without parent.
pub open spec fn inherited_value(parent: Option<Map<Seq<char>, Seq<char>>>, k: Seq<char>, default: Seq<char>) -> Seq<char> {
    match parent {
        Some(pm) => pm[k],
        None => default,
    }
}

/// The four inherited properties, written over a node's styles.
pub open spec fn inherit(base: Map<Seq<char>, Seq<char>>, parent: Option<Map<Seq<char>, Seq<char>>>) -> Map<Seq<char>, Seq<char>> {
    base.insert("font-size"@, inherited_value(parent, "font-size"@, "16px"@)).insert(
        "font-style"@,
        inherited_value(parent, "font-style"@, "normal"@),
    ).insert("font-weight"@, inherited_value(parent, "font-weight"@, "normal"@)).insert(
        "color"@,
        inherited_value(parent, "color"@, "black"@),
    )
}

/// The styles hold every inherited property.
pub open spec fn has_inherited(m: Map<Seq<char>, Seq<char>>) -> bool {
    &&& m.contains_key("font-size"@)
    &&& m.contains_key("font-style"@)
    &&& m.contains_key("font-weight"@)
    &&& m.contains_key("color"@)
}

/// Declarations of the rules that match node `n`, in rule order, each
/// overriding what came before.
pub open spec fn apply_rules(m: Map<Seq<char>, Seq<char>>, rules: Seq<SpecRule>, t: Seq<SpecNode>, n: int) -> Map<Seq<char>, Seq<char>>
    decreases rules.len(),
{
    if rules.len() == 0 {
        m
    } else {
        let m1 = apply_rules(m, rules.drop_last(), t, n);
        if sel_matches(rules.last().0, t, n) {
            m1.union_prefer_right(rules.last().1)
        } else {
            m1
        }
    }
}

/// The declarations of an element's `style` attribute; none for text.
pub open spec fn inline_declarations(d: SpecData) -> Map<Seq<char>, Seq<char>> {
    match d {
        SpecData::Element(_, attrs) => spec_declarations(attrs["style"@]),
        SpecData::Text(_) => Map::empty(),
    }
}

/// The styles of node `n` given its parent's styles: inherited properties,
/// then matching rules in order, then the inline `style` attribute.
pub open spec fn cascade(t: Seq<SpecNode>, rules: Seq<SpecRule>, n: int, parent: Option<Map<Seq<char>, Seq<char>>>) -> Map<Seq<char>, Seq<char>> {
    apply_rules(inherit(t[n].styles, parent), rules, t, n).union_prefer_right(
        inline_declarations(t[n].data),
    )
}

/// Node `m` lies in the subtree of `top` (following parents).
pub open spec fn in_subtree(t: Seq<SpecNode>, top: int, m: int) -> bool
    decreases m,
{
    if m == top {
        true
    } else if 0 <= m < t.len() {
        match t[m].parent {
            Some(p) => p < m && in_subtree(t, top, p as int),
            None => false,
        }
    } else {
        false
    }
}

/// The styles that styling the subtree of `top` gives node `m` of it: the
/// top takes its parent's present styles, every other node those computed
/// for its parent.
pub open spec fn styled(t: Seq<SpecNode>, rules: Seq<SpecRule>, top: int, m: int) -> Map<Seq<char>, Seq<char>>
    decreases m,
{
    if m == top {
        cascade(
            t,
            rules,
            m,
            match t[m].parent {
                Some(p) => Some(t[p as int].styles),
                None => None,
            },
        )
    } else if 0 <= m < t.len() {
        match t[m].parent {
            Some(p) => if p < m {
                cascade(t, rules, m, Some(styled(t, rules, top, p as int)))
            } else {
                t[m].styles
            },
            None => t[m].styles,
        }
    } else {
        Map::empty()
    }
}

/// A font size that styling cannot handle: a percentage.
pub open spec fn is_percentage(v: Seq<char>) -> bool {
    v.len() > 0 && v.last() == '%'
}

/// Two trees that differ at most in styles.
pub open spec fn same_shape(t1: Seq<SpecNode>, t2: Seq<SpecNode>) -> bool {
    &&& t1.len() == t2.len()
    &&& forall|i: int|
        0 <= i < t1.len() ==> (#[trigger] t1[i]).parent == t2[i].parent && t1[i].children
            == t2[i].children && t1[i].data == t2[i].data
}

pub proof fn lemma_matches_same(s: SpecSelector, t1: Seq<SpecNode>, t2: Seq<SpecNode>, n: int)
    requires
        same_shape(t1, t2),
        0 <= n < t1.len(),
    ensures
        sel_matches(s, t1, n) == sel_matches(s, t2, n),
    decreases s, 0int,
{
    assert(t1[n].data == t2[n].data);
    match s {
        SpecSelector::Tag(_) => {},
        SpecSelector::Descendant(a, d) => {
            lemma_matches_same(*d, t1, t2, n);
            lemma_ancestor_same(*a, t1, t2, n);
        },
    }
}

pub proof fn lemma_ancestor_same(a: SpecSelector, t1: Seq<SpecNode>, t2: Seq<SpecNode>, n: int)
    requires
        same_shape(t1, t2),
        0 <= n < t1.len(),
    ensures
        ancestor_matches(a, t1, n) == ancestor_matches(a, t2, n),
    decreases a, n + 1,
{
    assert(t1[n].parent == t2[n].parent);
    match t1[n].parent {
        Some(p) => {
            if p < n {
                lemma_matches_same(a, t1, t2, p as int);
                lemma_ancestor_same(a, t1, t2, p as int);
            }
        },
        None => {},
    }
}

pub proof fn lemma_apply_rules_same(m: Map<Seq<char>, Seq<char>>, rules: Seq<SpecRule>, t1: Seq<SpecNode>, t2: Seq<SpecNode>, n: int)
    requires
        same_shape(t1, t2),
        0 <= n < t1.len(),
    ensures
        apply_rules(m, rules, t1, n) == apply_rules(m, rules, t2, n),
    decreases rules.len(),
{
    if rules.len() > 0 {
        lemma_apply_rules_same(m, rules.drop_last(), t1, t2, n);
        lemma_matches_same(rules.last().0, t1, t2, n);
    }
}

/// Styling a node depends on the tree's shape and on that node's own
/// styles only.
pub proof fn lemma_cascade_same(t1: Seq<SpecNode>, t2: Seq<SpecNode>, rules: Seq<SpecRule>, n: int, parent: Option<Map<Seq<char>, Seq<char>>>)
    requires
        same_shape(t1, t2),
        0 <= n < t1.len(),
        t1[n].styles == t2[n].styles,
    ensures
        cascade(t1, rules, n, parent) == cascade(t2, rules, n, parent),
{
    assert(t1[n].data == t2[n].data);
    lemma_apply_rules_same(inherit(t1[n].styles, parent), rules, t1, t2, n);
}

pub proof fn lemma_subtree_ge(t: Seq<SpecNode>, top: int, m: int)
    requires
        in_subtree(t, top, m),
    ensures
        top <= m,
    decreases m,
{
    if m != top {
        let p = t[m].parent.unwrap() as int;
        lemma_subtree_ge(t, top, p);
    }
}

pub proof fn lemma_subtree_same(t1: Seq<SpecNode>, t2: Seq<SpecNode>, top: int, m: int)
    requires
        same_shape(t1, t2),
    ensures
        in_subtree(t1, top, m) == in_subtree(t2, top, m),
    decreases m,
{
    if m != top && 0 <= m < t1.len() {
        assert(t1[m].parent == t2[m].parent);
        if let Some(p) = t1[m].parent {
            if p < m {
                lemma_subtree_same(t1, t2, top, p as int);
            }
        }
    }
}

/// A node in the subtree of a child of `top` is in the subtree of `top`.
pub proof fn lemma_subtree_trans(t: Seq<SpecNode>, top: int, c: int, m: int)
    requires
        in_subtree(t, top, c),
        in_subtree(t, c, m),
    ensures
        in_subtree(t, top, m),
    decreases m,
{
    if m != c {
        let p = t[m].parent.unwrap() as int;
        lemma_subtree_trans(t, top, c, p);
    }
}

/// Two nodes above the same node lie on one line of ancestry.
pub proof fn lemma_subtree_chain(t: Seq<SpecNode>, a: int, b: int, m: int)
    requires
        in_subtree(t, a, m),
        in_subtree(t, b, m),
    ensures
        in_subtree(t, a, b) || in_subtree(t, b, a),
    decreases m,
{
    if m != a && m != b {
        let p = t[m].parent.unwrap() as int;
        lemma_subtree_chain(t, a, b, p);
    }
}

/// Subtrees of two different children of one node share no node.
pub proof fn lemma_siblings_disjoint(t: Seq<SpecNode>, node: int, a: int, b: int, m: int)
    requires
        0 <= a < t.len(),
        0 <= b < t.len(),
        a != b,
        t[a].parent == Some(node as usize),
        t[b].parent == Some(node as usize),
        node < a,
        node < b,
        0 <= node,
        t.len() <= usize::MAX,
    ensures
        !(in_subtree(t, a, m) && in_subtree(t, b, m)),
{
    if in_subtree(t, a, m) && in_subtree(t, b, m) {
        lemma_subtree_chain(t, a, b, m);
        if in_subtree(t, a, b) {
            assert((node as usize) as int == node);
            assert(in_subtree(t, a, node));
            lemma_subtree_ge(t, a, node);
        } else {
            assert((node as usize) as int == node);
            assert(in_subtree(t, b, node));
            lemma_subtree_ge(t, b, node);
        }
    }
}

/// Every node below `top` is in the subtree of one of its children.
pub proof fn lemma_subtree_cover(t: Seq<SpecNode>, top: int, m: int)
    requires
        tree_shape(t),
        0 <= top < t.len(),
        in_subtree(t, top, m),
        m != top,
    ensures
        exists|j: int| 0 <= j < t[top].children.len() && in_subtree(t, #[trigger] t[top].children[j] as int, m),
    decreases m,
{
    let p = t[m].parent.unwrap() as int;
    if p == top {
        assert(t[p].children.contains(m as usize));
        let j = choose|j: int| 0 <= j < t[p].children.len() && t[p].children[j] == m as usize;
        assert(t[top].children[j] as int == m);
        assert(in_subtree(t, t[top].children[j] as int, m));
    } else {
        lemma_subtree_cover(t, top, p);
        let j = choose|j: int| 0 <= j < t[top].children.len() && in_subtree(t, #[trigger] t[top].children[j] as int, p);
        let c = t[top].children[j] as int;
        assert(in_subtree(t, p, p));
        assert(in_subtree(t, p, m));
        lemma_subtree_trans(t, c, p, m);
    }
}

} // verus!

verus! {

pub proof fn lemma_apply_rules_keeps(m: Map<Seq<char>, Seq<char>>, rules: Seq<SpecRule>, t: Seq<SpecNode>, n: int, k: Seq<char>)
    requires
        m.contains_key(k),
    ensures
        apply_rules(m, rules, t, n).contains_key(k),
    decreases rules.len(),
{
    if rules.len() > 0 {
        lemma_apply_rules_keeps(m, rules.drop_last(), t, n, k);
    }
}

/// Styling gives a node every inherited property.
pub proof fn lemma_cascade_has_inherited(t: Seq<SpecNode>, rules: Seq<SpecRule>, n: int, parent: Option<Map<Seq<char>, Seq<char>>>)
    ensures
        has_inherited(cascade(t, rules, n, parent)),
{
    let base = inherit(t[n].styles, parent);
    lemma_apply_rules_keeps(base, rules, t, n, "font-size"@);
    lemma_apply_rules_keeps(base, rules, t, n, "font-style"@);
    lemma_apply_rules_keeps(base, rules, t, n, "font-weight"@);
    lemma_apply_rules_keeps(base, rules, t, n, "color"@);
}

pub proof fn lemma_shape_same(t1: Seq<SpecNode>, t2: Seq<SpecNode>)
    requires
        same_shape(t1, t2),
        tree_shape(t1),
    ensures
        tree_shape(t2),
{
    assert forall|i: int| 0 <= i < t2.len() implies ((#[trigger] t2[i]).parent matches Some(p) ==> p < i) by {
        assert(t1[i].parent == t2[i].parent);
    }
    assert forall|i: int, k: int|
        0 <= i < t2.len() && 0 <= k < t2[i].children.len() implies #[trigger] t2[i].children[k] < t2.len()
            && t2[t2[i].children[k] as int].parent == Some(i as usize) by {
        assert(t1[i].children == t2[i].children);
        let c = t1[i].children[k] as int;
        assert(t1[c].parent == t2[c].parent);
    }
    assert forall|i: int, a: int, b: int|
        0 <= i < t2.len() && 0 <= a < b < t2[i].children.len() implies #[trigger] t2[i].children[a]
            != #[trigger] t2[i].children[b] by {
        assert(t1[i].children == t2[i].children);
    }
    assert forall|i: int|
        0 <= i < t2.len() implies ((#[trigger] t2[i]).parent matches Some(p) ==> t2[p as int].children.contains(
            i as usize,
        )) by {
        assert(t1[i].parent == t2[i].parent);
        if let Some(p) = t1[i].parent {
            assert(t1[p as int].children == t2[p as int].children);
        }
    }
}

/// Styling the subtree of child `c` of `node`, once `node` is styled and
/// while that subtree is untouched, gives what styling the subtree of
/// `node` gives.
pub proof fn lemma_styled_child(t0: Seq<SpecNode>, t: Seq<SpecNode>, rules: Seq<SpecRule>, node: int, c: int, m: int)
    requires
        tree_shape(t0),
        same_shape(t0, t),
        0 <= node < c < t0.len(),
        t0[c].parent == Some(node as usize),
        t[node].styles == styled(t0, rules, node, node),
        forall|x: int| #[trigger] in_subtree(t0, c, x) ==> t[x].styles == t0[x].styles,
        in_subtree(t0, c, m),
    ensures
        styled(t, rules, c, m) == styled(t0, rules, node, m),
    decreases m,
{
    lemma_subtree_ge(t0, c, m);
    assert(in_subtree(t0, c, m));
    assert(t[m].styles == t0[m].styles);
    assert(t0[m].parent == t[m].parent);
    if m == c {
        assert(t[c].parent == Some(node as usize));
        assert((node as usize) as int == node);
        lemma_cascade_same(t, t0, rules, c, Some(t[node].styles));
    } else {
        let p = t0[m].parent.unwrap() as int;
        assert(in_subtree(t0, c, p));
        lemma_styled_child(t0, t, rules, node, c, p);
        lemma_cascade_same(t, t0, rules, m, Some(styled(t, rules, c, p)));
    }
}

} // verus!

verus! {

/// Node `m` lies below one of the first `k` children of `node`.
pub open spec fn covered(t0: Seq<SpecNode>, node: int, k: int, m: int) -> bool {
    exists|j: int| 0 <= j < k && #[trigger] in_subtree(t0, t0[node].children[j] as int, m)
}

/// Styles after the subtrees of the first `k` children of `node` were
/// styled: those nodes hold their computed styles, every other node (but
/// `node`) its old ones.
pub open spec fn styled_upto(t0: Seq<SpecNode>, rules: Seq<SpecRule>, node: int, k: int, t: Seq<SpecNode>) -> bool {
    forall|m: int|
        0 <= m < t0.len() && m != node ==> (#[trigger] t[m]).styles == if covered(t0, node, k, m) {
            styled(t0, rules, node, m)
        } else {
            t0[m].styles
        }
}

/// What the recursive call for child `k` of `node` needs.
pub proof fn lemma_child_pre(t0: Seq<SpecNode>, t1: Seq<SpecNode>, rules: Seq<SpecRule>, node: int, k: int)
    requires
        tree_shape(t0),
        same_shape(t0, t1),
        0 <= node < t0.len(),
        0 <= k < t0[node].children.len(),
        styled_upto(t0, rules, node, k, t1),
        t1[node].styles == styled(t0, rules, node, node),
        forall|m: int|
            #[trigger] in_subtree(t0, node, m) ==> (t0[m].data matches SpecData::Element(_, a)
                ==> a.contains_key("style"@)),
        forall|m: int|
            #[trigger] in_subtree(t0, node, m) ==> !is_percentage(styled(t0, rules, node, m)["font-size"@]),
    ensures
        ({
            let c = t0[node].children[k] as int;
            &&& node < c < t0.len()
            &&& t0[c].parent == Some(node as usize)
            &&& t1[c].parent == Some(node as usize)
            &&& tree_shape(t1)
            &&& has_inherited(t1[node].styles)
            &&& forall|x: int| #[trigger] in_subtree(t0, c, x) ==> t1[x].styles == t0[x].styles
            &&& forall|m: int|
                #[trigger] in_subtree(t1, c, m) ==> (t1[m].data matches SpecData::Element(_, a)
                    ==> a.contains_key("style"@))
            &&& forall|m: int|
                #[trigger] in_subtree(t1, c, m) ==> !is_percentage(styled(t1, rules, c, m)["font-size"@])
        }),
{
    let c = t0[node].children[k] as int;
    assert(t0[node].children[k] < t0.len());
    assert(t0[c].parent == Some(node as usize));
    assert(t0[c].parent == t1[c].parent);
    assert(node < c);
    lemma_shape_same(t0, t1);
    assert(in_subtree(t0, node, node));
    assert(in_subtree(t0, node, c));
    lemma_cascade_has_inherited(
        t0,
        rules,
        node,
        match t0[node].parent {
            Some(p) => Some(t0[p as int].styles),
            None => None,
        },
    );
    assert forall|x: int| #[trigger] in_subtree(t0, c, x) implies t1[x].styles == t0[x].styles by {
        lemma_subtree_ge(t0, c, x);
        if covered(t0, node, k, x) {
            let j = choose|j: int| 0 <= j < k && #[trigger] in_subtree(t0, t0[node].children[j] as int, x);
            let cj = t0[node].children[j] as int;
            assert(t0[node].children[j] < t0.len());
            assert(t0[cj].parent == Some(node as usize));
            assert(cj != c);
            assert(node < cj);
            lemma_siblings_disjoint(t0, node, cj, c, x);
        }
    }
    assert forall|m: int| #[trigger] in_subtree(t1, c, m) implies (t1[m].data matches SpecData::Element(
        _,
        a,
    ) ==> a.contains_key("style"@)) by {
        lemma_subtree_same(t0, t1, c, m);
        lemma_subtree_trans(t0, node, c, m);
        lemma_subtree_ge(t0, c, m);
        assert(t0[m].data == t1[m].data);
    }
    assert forall|m: int| #[trigger] in_subtree(t1, c, m) implies !is_percentage(
        styled(t1, rules, c, m)["font-size"@],
    ) by {
        lemma_subtree_same(t0, t1, c, m);
        lemma_subtree_trans(t0, node, c, m);
        lemma_styled_child(t0, t1, rules, node, c, m);
    }
}

/// After the recursive call for child `k`, the first `k + 1` children are
/// done.
pub proof fn lemma_child_post(t0: Seq<SpecNode>, t1: Seq<SpecNode>, t2: Seq<SpecNode>, rules: Seq<SpecRule>, node: int, k: int)
    requires
        tree_shape(t0),
        same_shape(t0, t1),
        same_shape(t1, t2),
        0 <= node < t0.len(),
        0 <= k < t0[node].children.len(),
        styled_upto(t0, rules, node, k, t1),
        t1[node].styles == styled(t0, rules, node, node),
        forall|x: int| #[trigger] in_subtree(t0, t0[node].children[k] as int, x) ==> t1[x].styles == t0[x].styles,
        forall|m: int|
            0 <= m < t1.len() ==> (#[trigger] t2[m]).styles == if in_subtree(
                t1,
                t0[node].children[k] as int,
                m,
            ) {
                styled(t1, rules, t0[node].children[k] as int, m)
            } else {
                t1[m].styles
            },
    ensures
        same_shape(t0, t2),
        styled_upto(t0, rules, node, k + 1, t2),
        t2[node].styles == styled(t0, rules, node, node),
{
    let c = t0[node].children[k] as int;
    assert(t0[node].children[k] < t0.len());
    assert(t0[c].parent == Some(node as usize));
    assert(node < c);
    assert(!in_subtree(t1, c, node)) by {
        lemma_subtree_same(t0, t1, c, node);
        if in_subtree(t0, c, node) {
            lemma_subtree_ge(t0, c, node);
        }
    }
    assert forall|i: int| 0 <= i < t0.len() implies (#[trigger] t0[i]).parent == t2[i].parent
        && t0[i].children == t2[i].children && t0[i].data == t2[i].data by {
        assert(t1[i].parent == t2[i].parent);
        assert(t0[i].parent == t1[i].parent);
    }
    assert forall|m: int| 0 <= m < t0.len() && m != node implies (#[trigger] t2[m]).styles == if covered(
        t0,
        node,
        k + 1,
        m,
    ) {
        styled(t0, rules, node, m)
    } else {
        t0[m].styles
    } by {
        lemma_subtree_same(t0, t1, c, m);
        if in_subtree(t0, c, m) {
            lemma_styled_child(t0, t1, rules, node, c, m);
            assert(covered(t0, node, k + 1, m));
        } else {
            assert(t2[m].styles == t1[m].styles);
            if covered(t0, node, k + 1, m) {
                let j = choose|j: int| 0 <= j < k + 1 && #[trigger] in_subtree(t0, t0[node].children[j] as int, m);
                assert(j != k);
                assert(covered(t0, node, k, m));
            } else {
                assert(!covered(t0, node, k, m));
            }
        }
    }
}

/// Once every child is done, exactly the subtree of `node` holds its
/// computed styles.
pub proof fn lemma_children_done(t0: Seq<SpecNode>, t: Seq<SpecNode>, rules: Seq<SpecRule>, node: int)
    requires
        tree_shape(t0),
        same_shape(t0, t),
        0 <= node < t0.len(),
        styled_upto(t0, rules, node, t0[node].children.len() as int, t),
        t[node].styles == styled(t0, rules, node, node),
    ensures
        forall|m: int|
            0 <= m < t0.len() ==> (#[trigger] t[m]).styles == if in_subtree(t0, node, m) {
                styled(t0, rules, node, m)
            } else {
                t0[m].styles
            },
{
    let n = t0[node].children.len() as int;
    assert forall|m: int| 0 <= m < t0.len() implies (#[trigger] t[m]).styles == if in_subtree(t0, node, m) {
        styled(t0, rules, node, m)
    } else {
        t0[m].styles
    } by {
        if m != node {
            if in_subtree(t0, node, m) {
                lemma_subtree_cover(t0, node, m);
                let j = choose|j: int| 0 <= j < n && in_subtree(t0, #[trigger] t0[node].children[j] as int, m);
                assert(covered(t0, node, n, m));
            } else if covered(t0, node, n, m) {
                let j = choose|j: int| 0 <= j < n && #[trigger] in_subtree(t0, t0[node].children[j] as int, m);
                let cj = t0[node].children[j] as int;
                assert(t0[node].children[j] < t0.len());
                assert(t0[cj].parent == Some(node as usize));
                assert(in_subtree(t0, node, node));
                assert(in_subtree(t0, node, cj));
                lemma_subtree_trans(t0, node, cj, m);
            }
        } else {
            assert(in_subtree(t0, node, node));
        }
    }
}

} // verus!
