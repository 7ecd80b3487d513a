//! What styling and selector matching promise, stated over their
//! definitions.
use vstd::prelude::*;
use crate::html_parser::html_node::SpecNode;
use super::css_spec::{SpecSelector, SpecRule};
use super::selector_spec::{sel_matches, ancestor_matches, parents_before};
use super::cascade_spec::{
    apply_rules, cascade, inherit, inherited_value, inline_declarations, in_subtree, styled,
    has_inherited, lemma_cascade_has_inherited, same_shape, lemma_apply_rules_same,
    lemma_subtree_ge, lemma_subtree_same,
};
use crate::html_parser::html_node::tree_shape;

verus! {

/// No rule that matches node `n` declares property `k`.
pub open spec fn undeclared(rules: Seq<SpecRule>, t: Seq<SpecNode>, n: int, k: Seq<char>) -> bool {
    forall|r: int|
        0 <= r < rules.len() && sel_matches(#[trigger] rules[r].0, t, n) ==> !rules[r].1.contains_key(k)
}

/// The last rule that matches node `n` and declares `k`, if any.
pub open spec fn last_declaring(rules: Seq<SpecRule>, t: Seq<SpecNode>, n: int, k: Seq<char>) -> Option<int>
    decreases rules.len(),
{
    if rules.len() == 0 {
        None
    } else if sel_matches(rules.last().0, t, n) && rules.last().1.contains_key(k) {
        Some(rules.len() - 1)
    } else {
        last_declaring(rules.drop_last(), t, n, k)
    }
}

proof fn lemma_apply_rules_value(m: Map<Seq<char>, Seq<char>>, rules: Seq<SpecRule>, t: Seq<SpecNode>, n: int, k: Seq<char>)
    ensures
        match last_declaring(rules, t, n, k) {
            Some(r) => 0 <= r < rules.len() && apply_rules(m, rules, t, n).contains_key(k)
                && apply_rules(m, rules, t, n)[k] == rules[r].1[k],
            None => apply_rules(m, rules, t, n).contains_key(k) == m.contains_key(k) && (m.contains_key(
                k,
            ) ==> apply_rules(m, rules, t, n)[k] == m[k]),
        },
    decreases rules.len(),
{
    if rules.len() > 0 {
        lemma_apply_rules_value(m, rules.drop_last(), t, n, k);
        match last_declaring(rules.drop_last(), t, n, k) {
            Some(r) => {
                assert(rules.drop_last()[r] == rules[r]);
            },
            None => {},
        }
    }
}

proof fn lemma_undeclared_none(rules: Seq<SpecRule>, t: Seq<SpecNode>, n: int, k: Seq<char>)
    requires
        undeclared(rules, t, n, k),
    ensures
        last_declaring(rules, t, n, k) is None,
    decreases rules.len(),
{
    if rules.len() > 0 {
        assert(rules.last() == rules[rules.len() - 1]);
        assert forall|r: int|
            0 <= r < rules.drop_last().len() && sel_matches(#[trigger] rules.drop_last()[r].0, t, n)
            implies !rules.drop_last()[r].1.contains_key(k) by {
            assert(rules.drop_last()[r] == rules[r]);
        }
        lemma_undeclared_none(rules.drop_last(), t, n, k);
    }
}

/// The cascade's order: a declaration in the `style` attribute wins; else
/// the last matching rule that declares the property; else the inherited
/// value for the inherited properties, and what the node already had for
/// any other.
pub proof fn lemma_cascade_order(t: Seq<SpecNode>, rules: Seq<SpecRule>, n: int, parent: Option<Map<Seq<char>, Seq<char>>>, k: Seq<char>)
    requires
        0 <= n < t.len(),
    ensures
        ({
            let styles = cascade(t, rules, n, parent);
            let inline = inline_declarations(t[n].data);
            let base = inherit(t[n].styles, parent);
            if inline.contains_key(k) {
                styles.contains_key(k) && styles[k] == inline[k]
            } else {
                match last_declaring(rules, t, n, k) {
                    Some(r) => styles.contains_key(k) && styles[k] == rules[r].1[k],
                    None => styles.contains_key(k) == base.contains_key(k) && (base.contains_key(k)
                        ==> styles[k] == base[k]),
                }
            }
        }),
{
    lemma_apply_rules_value(inherit(t[n].styles, parent), rules, t, n, k);
}

/// The properties a node inherits from its parent.
pub open spec fn is_inherited(k: Seq<char>) -> bool {
    k == "font-size"@ || k == "font-style"@ || k == "font-weight"@ || k == "color"@
}

/// The value of an inherited property at a node without parent.
pub open spec fn initial_value(k: Seq<char>) -> Seq<char> {
    if k == "font-size"@ {
        "16px"@
    } else if k == "font-style"@ || k == "font-weight"@ {
        "normal"@
    } else {
        "black"@
    }
}

/// Inheritance: when neither a matching rule nor the `style` attribute
/// declares an inherited property, a node takes its parent's value (the
/// initial value at the root).
pub proof fn lemma_inherits_when_undeclared(t: Seq<SpecNode>, rules: Seq<SpecRule>, n: int, parent: Option<Map<Seq<char>, Seq<char>>>, k: Seq<char>)
    requires
        0 <= n < t.len(),
        is_inherited(k),
        undeclared(rules, t, n, k),
        !inline_declarations(t[n].data).contains_key(k),
    ensures
        cascade(t, rules, n, parent)[k] == inherited_value(parent, k, initial_value(k)),
{
    reveal_strlit("font-size");
    reveal_strlit("font-style");
    reveal_strlit("font-weight");
    reveal_strlit("color");
    lemma_undeclared_none(rules, t, n, k);
    lemma_cascade_order(t, rules, n, parent, k);
    let base = inherit(t[n].styles, parent);
    assert("font-size"@.len() == 9 && "font-style"@.len() == 10 && "font-weight"@.len() == 11
        && "color"@.len() == 5);
    if k == "font-size"@ {
        assert(base[k] == inherited_value(parent, k, "16px"@));
    } else if k == "font-style"@ {
        assert(base[k] == inherited_value(parent, k, "normal"@));
    } else if k == "font-weight"@ {
        assert(base[k] == inherited_value(parent, k, "normal"@));
    } else {
        assert(base[k] == inherited_value(parent, k, "black"@));
    }
}

/// After styling a subtree, each of its nodes holds every inherited
/// property.
pub proof fn lemma_styled_has_inherited(t: Seq<SpecNode>, rules: Seq<SpecRule>, top: int, m: int)
    requires
        0 <= m < t.len(),
        in_subtree(t, top, m),
    ensures
        has_inherited(styled(t, rules, top, m)),
{
    if m == top {
        lemma_cascade_has_inherited(
            t,
            rules,
            m,
            match t[m].parent {
                Some(p) => Some(t[p as int].styles),
                None => None,
            },
        );
    } else {
        let p = t[m].parent->0 as int;
        lemma_cascade_has_inherited(t, rules, m, Some(styled(t, rules, top, p)));
    }
}

/// A descendant selector matches a node exactly when its descendant part
/// matches the node and its ancestor part matches some proper ancestor of
/// it.
pub proof fn lemma_descendant_meaning(a: SpecSelector, d: SpecSelector, t: Seq<SpecNode>, n: int)
    requires
        parents_before(t),
        0 <= n < t.len(),
    ensures
        sel_matches(SpecSelector::Descendant(Box::new(a), Box::new(d)), t, n) <==> (sel_matches(d, t, n)
            && exists|m: int| 0 <= m < n && in_subtree(t, m, n) && #[trigger] sel_matches(a, t, m)),
{
    lemma_ancestor_exists(a, t, n);
}

/// Walking up the parents finds a match exactly when some proper ancestor
/// matches.
pub proof fn lemma_ancestor_exists(a: SpecSelector, t: Seq<SpecNode>, n: int)
    requires
        parents_before(t),
        0 <= n < t.len(),
    ensures
        ancestor_matches(a, t, n) <==> exists|m: int|
            0 <= m < n && in_subtree(t, m, n) && #[trigger] sel_matches(a, t, m),
    decreases n,
{
    assert(parents_before(t) ==> (t[n].parent matches Some(p) ==> p < n));
    match t[n].parent {
        Some(p) => {
            let p = p as int;
            lemma_ancestor_exists(a, t, p);
            if ancestor_matches(a, t, n) {
                if sel_matches(a, t, p) {
                    assert(in_subtree(t, p, p));
                    assert(in_subtree(t, p, n));
                } else {
                    let m = choose|m: int| 0 <= m < p && in_subtree(t, m, p) && #[trigger] sel_matches(a, t, m);
                    assert(in_subtree(t, m, n));
                }
            }
            if exists|m: int| 0 <= m < n && in_subtree(t, m, n) && #[trigger] sel_matches(a, t, m) {
                let m = choose|m: int| 0 <= m < n && in_subtree(t, m, n) && #[trigger] sel_matches(a, t, m);
                assert(in_subtree(t, m, p));
                if m != p {
                    assert(0 <= m < p) by {
                        lemma_subtree_below(t, m, p);
                    }
                }
            }
        },
        None => {
            if exists|m: int| 0 <= m < n && in_subtree(t, m, n) && #[trigger] sel_matches(a, t, m) {
                let m = choose|m: int| 0 <= m < n && in_subtree(t, m, n) && #[trigger] sel_matches(a, t, m);
                assert(!in_subtree(t, m, n));
            }
        },
    }
}

proof fn lemma_subtree_below(t: Seq<SpecNode>, top: int, m: int)
    requires
        in_subtree(t, top, m),
    ensures
        top <= m,
    decreases m,
{
    if m != top {
        let p = t[m].parent->0 as int;
        lemma_subtree_below(t, top, p);
    }
}

proof fn lemma_union_assoc(a: Map<Seq<char>, Seq<char>>, b: Map<Seq<char>, Seq<char>>, c: Map<Seq<char>, Seq<char>>)
    ensures
        a.union_prefer_right(b).union_prefer_right(c) == a.union_prefer_right(b.union_prefer_right(c)),
{
    assert(a.union_prefer_right(b).union_prefer_right(c) =~= a.union_prefer_right(b.union_prefer_right(c)));
}

proof fn lemma_union_twice(a: Map<Seq<char>, Seq<char>>, d: Map<Seq<char>, Seq<char>>)
    ensures
        a.union_prefer_right(d).union_prefer_right(d) == a.union_prefer_right(d),
{
    assert(a.union_prefer_right(d).union_prefer_right(d) =~= a.union_prefer_right(d));
}

/// Applying rules overwrites the map with what the matching rules declare.
proof fn lemma_apply_rules_overwrites(m: Map<Seq<char>, Seq<char>>, rules: Seq<SpecRule>, t: Seq<SpecNode>, n: int)
    ensures
        apply_rules(m, rules, t, n) == m.union_prefer_right(apply_rules(Map::empty(), rules, t, n)),
    decreases rules.len(),
{
    if rules.len() == 0 {
        assert(m.union_prefer_right(Map::empty()) =~= m);
    } else {
        lemma_apply_rules_overwrites(m, rules.drop_last(), t, n);
        if sel_matches(rules.last().0, t, n) {
            lemma_union_assoc(m, apply_rules(Map::empty(), rules.drop_last(), t, n), rules.last().1);
        }
    }
}

/// What the cascade writes over a node's present styles.
spec fn cascade_delta(t: Seq<SpecNode>, rules: Seq<SpecRule>, n: int, parent: Option<Map<Seq<char>, Seq<char>>>) -> Map<Seq<char>, Seq<char>> {
    inherit(Map::empty(), parent).union_prefer_right(apply_rules(Map::empty(), rules, t, n)).union_prefer_right(
        inline_declarations(t[n].data),
    )
}

proof fn lemma_cascade_overwrites(t: Seq<SpecNode>, rules: Seq<SpecRule>, n: int, parent: Option<Map<Seq<char>, Seq<char>>>)
    ensures
        cascade(t, rules, n, parent) == t[n].styles.union_prefer_right(cascade_delta(t, rules, n, parent)),
{
    let s = t[n].styles;
    let i = inherit(Map::empty(), parent);
    let a = apply_rules(Map::empty(), rules, t, n);
    let l = inline_declarations(t[n].data);
    assert(inherit(s, parent) =~= s.union_prefer_right(i));
    lemma_apply_rules_overwrites(inherit(s, parent), rules, t, n);
    lemma_union_assoc(s, i, a);
    lemma_union_assoc(s, i.union_prefer_right(a), l);
}

/// Styling a styled subtree again with the same rules changes nothing:
/// when `t1` holds the styles that styling the subtree of `top` in `t`
/// computes, styling that subtree of `t1` computes exactly its present
/// styles.
pub proof fn lemma_style_idempotent(t: Seq<SpecNode>, t1: Seq<SpecNode>, rules: Seq<SpecRule>, top: int, m: int)
    requires
        tree_shape(t),
        0 <= top < t.len(),
        same_shape(t, t1),
        forall|x: int|
            0 <= x < t.len() ==> (#[trigger] t1[x]).styles == if in_subtree(t, top, x) {
                styled(t, rules, top, x)
            } else {
                t[x].styles
            },
        0 <= m < t.len(),
        in_subtree(t1, top, m),
    ensures
        styled(t1, rules, top, m) == t1[m].styles,
    decreases m,
{
    lemma_subtree_same(t, t1, top, m);
    assert(t1[m].parent == t[m].parent && t1[m].data == t[m].data);
    let parent = if m == top {
        match t[m].parent {
            Some(p) => Some(t[p as int].styles),
            None => None,
        }
    } else {
        Some(styled(t, rules, top, t[m].parent->0 as int))
    };
    if m == top {
        if let Some(p) = t[m].parent {
            assert(p < m);
            if in_subtree(t, top, p as int) {
                lemma_subtree_ge(t, top, p as int);
            }
            assert(t1[p as int].styles == t[p as int].styles);
        }
    } else {
        let p = t[m].parent->0 as int;
        lemma_subtree_same(t, t1, top, p);
        lemma_style_idempotent(t, t1, rules, top, p);
    }
    assert(styled(t1, rules, top, m) == cascade(t1, rules, m, parent));
    assert(t1[m].styles == cascade(t, rules, m, parent));
    lemma_cascade_overwrites(t, rules, m, parent);
    lemma_cascade_overwrites(t1, rules, m, parent);
    lemma_apply_rules_same(Map::empty(), rules, t, t1, m);
    assert(cascade_delta(t1, rules, m, parent) == cascade_delta(t, rules, m, parent));
    lemma_union_twice(t[m].styles, cascade_delta(t, rules, m, parent));
}

} // verus!
