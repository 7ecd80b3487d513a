//! Computing the styles of a subtree.
use vstd::prelude::*;
use crate::html_parser::html_node::{HtmlTree, SpecData, tree_shape};
use crate::strmap::StrMap;
use super::{CssParser, rule_views, rules_wf};

use super::descendant_seletor::Selector;
use super::cascade_spec::{
    inherit, has_inherited, apply_rules, cascade, in_subtree, styled, is_percentage, same_shape,
    covered, styled_upto, lemma_child_pre, lemma_child_post, lemma_children_done,
};

verus! {

/// Writes the inherited properties into `styles`: the parent's values, or
/// the defaults when there is no parent.
fn inherit_into(styles: &mut StrMap, parent: Option<&StrMap>)
    requires
        parent matches Some(p) ==> has_inherited(p@),
    ensures
        final(styles)@ == inherit(
            old(styles)@,
            match parent {
                Some(p) => Some(p@),
                None => None,
            },
        ),
{
    match parent {
        Some(p) => {
            styles.insert("font-size".to_owned(), p.get("font-size").unwrap().clone());
            styles.insert("font-style".to_owned(), p.get("font-style").unwrap().clone());
            styles.insert("font-weight".to_owned(), p.get("font-weight").unwrap().clone());
            styles.insert("color".to_owned(), p.get("color").unwrap().clone());
        },
        None => {
            styles.insert("font-size".to_owned(), "16px".to_owned());
            styles.insert("font-style".to_owned(), "normal".to_owned());
            styles.insert("font-weight".to_owned(), "normal".to_owned());
            styles.insert("color".to_owned(), "black".to_owned());
        },
    }
}

/// The styles of one node, computed from the tree as it is.
fn node_styles(tree: &HtmlTree, node: usize, rules: &Vec<(Selector, StrMap)>) -> (r: StrMap)
    requires
        node < tree@.len(),
        tree_shape(tree@),
        rules_wf(rules@),
        tree@[node as int].parent matches Some(p) ==> has_inherited(tree@[p as int].styles),
        tree@[node as int].data matches SpecData::Element(_, a) ==> a.contains_key("style"@),
    ensures
        r@ == cascade(
            tree@,
            rule_views(rules@),
            node as int,
            match tree@[node as int].parent {
                Some(p) => Some(tree@[p as int].styles),
                None => None,
            },
        ),
{
    let ghost t = tree@;
    let ghost rv = rule_views(rules@);
    let ghost parent_styles = match t[node as int].parent {
        Some(p) => Some(t[p as int].styles),
        None => None,
    };
    let mut styles = tree.nodes[node].styles.clone_map();
    match tree.nodes[node].parent {
        Some(p) => {
            assert(p < node);
            inherit_into(&mut styles, Some(&tree.nodes[p].styles));
        },
        None => {
            inherit_into(&mut styles, None);
        },
    }
    let ghost base = styles@;
    let n = rules.len();
    let mut i: usize = 0;
    proof {
        assert(rv.subrange(0, 0) =~= Seq::empty());
    }
    while i < n
        invariant
            n == rules@.len(),
            i <= n,
            t == tree@,
            rv == rule_views(rules@),
            rules_wf(rules@),
            node < t.len(),
            tree_shape(t),
            styles@ == apply_rules(base, rv.subrange(0, i as int), t, node as int),
        decreases n - i,
    {
        proof {
            assert(rv.subrange(0, i + 1).drop_last() =~= rv.subrange(0, i as int));
            assert(rv.subrange(0, i + 1).last() == (rules@[i as int].0@, rules@[i as int].1@));
            assert(rules@[i as int].0.wf());
        }
        if rules[i].0.matches(tree, node) {
            styles.extend(&rules[i].1);
        }
        i = i + 1;
    }
    proof {
        assert(rv.subrange(0, n as int) =~= rv);
    }
    match tree.nodes[node].get_attributes() {
        Some(attributes) => {
            let inline = attributes.get("style").unwrap();
            let mut parser = CssParser::new(inline.as_str());
            let declarations = parser.body().unwrap();
            styles.extend(&declarations);
        },
        None => {
            assert(styles@.union_prefer_right(Map::empty()) =~= styles@);
        },
    }
    styles
}

/// Computes the styles of `node` and of every node below it, parents
/// before children: inherited properties from the parent (defaults at a
/// root), then the declarations of each matching rule in order, then the
/// node's inline `style` attribute. Every element below must carry a
/// `style` attribute, and no computed font size may be a percentage.
pub fn style(tree: &mut HtmlTree, node: usize, rules: &Vec<(Selector, StrMap)>)
    requires
        node < old(tree)@.len(),
        tree_shape(old(tree)@),
        rules_wf(rules@),
        old(tree)@[node as int].parent matches Some(p) ==> has_inherited(old(tree)@[p as int].styles),
        forall|m: int|
            #[trigger] in_subtree(old(tree)@, node as int, m) ==> (old(tree)@[m].data matches SpecData::Element(
                _,
                a,
            ) ==> a.contains_key("style"@)),
        forall|m: int|
            #[trigger] in_subtree(old(tree)@, node as int, m) ==> !is_percentage(
                styled(old(tree)@, rule_views(rules@), node as int, m)["font-size"@],
            ),
    ensures
        same_shape(old(tree)@, final(tree)@),
        forall|m: int|
            0 <= m < old(tree)@.len() ==> (#[trigger] final(tree)@[m]).styles == if in_subtree(
                old(tree)@,
                node as int,
                m,
            ) {
                styled(old(tree)@, rule_views(rules@), node as int, m)
            } else {
                old(tree)@[m].styles
            },
    decreases old(tree)@.len() - node,
{
    let ghost t0 = tree@;
    let ghost rv = rule_views(rules@);
    assert(in_subtree(t0, node as int, node as int));
    let styles = node_styles(tree, node, rules);
    tree.nodes[node].styles = styles;
    proof {
        assert(tree@[node as int].styles == styled(t0, rv, node as int, node as int));
        assert forall|i: int| 0 <= i < t0.len() implies (#[trigger] t0[i]).parent == tree@[i].parent
            && t0[i].children == tree@[i].children && t0[i].data == tree@[i].data by {
            if i != node {
                assert(tree@[i] == t0[i]);
            }
        }
        assert(same_shape(t0, tree@));
    }
    let n = tree.nodes[node].children.len();
    let mut k: usize = 0;
    proof {
        assert forall|m: int| 0 <= m < t0.len() && m != node implies (#[trigger] tree@[m]).styles == if covered(
            t0,
            node as int,
            0,
            m,
        ) {
            styled(t0, rv, node as int, m)
        } else {
            t0[m].styles
        } by {
            assert(tree@[m] == t0[m]);
        }
    }
    while k < n
        invariant
            k <= n,
            tree@.len() == t0.len(),
            old(tree)@.len() == t0.len(),
            node < t0.len(),
            n == t0[node as int].children.len(),
            tree_shape(t0),
            same_shape(t0, tree@),
            rules_wf(rules@),
            rv == rule_views(rules@),
            forall|m: int|
                #[trigger] in_subtree(t0, node as int, m) ==> (t0[m].data matches SpecData::Element(
                    _,
                    a,
                ) ==> a.contains_key("style"@)),
            forall|m: int|
                #[trigger] in_subtree(t0, node as int, m) ==> !is_percentage(
                    styled(t0, rv, node as int, m)["font-size"@],
                ),
            tree@[node as int].styles == styled(t0, rv, node as int, node as int),
            styled_upto(t0, rv, node as int, k as int, tree@),
        decreases n - k,
    {
        let ghost t1 = tree@;
        proof {
            assert(t0[node as int].children == t1[node as int].children);
            lemma_child_pre(t0, t1, rv, node as int, k as int);
        }
        let c = tree.nodes[node].children[k];
        style(tree, c, rules);
        proof {
            lemma_child_post(t0, t1, tree@, rv, node as int, k as int);
        }
        k = k + 1;
    }
    proof {
        lemma_children_done(t0, tree@, rv, node as int);
    }
}

} // verus!
