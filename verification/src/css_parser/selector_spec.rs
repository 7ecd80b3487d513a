//! What it means for a selector to match a node of a tree.
use vstd::prelude::*;
use crate::html_parser::html_node::{SpecNode, SpecData, tag_of};
use super::css_spec::SpecSelector;

verus! {

/// A node matches a tag selector when it is an element with that tag.
pub open spec fn tag_matches(tag: Seq<char>, t: Seq<SpecNode>, n: int) -> bool {
    t[n].data is Element && tag_of(t[n].data) == tag
}

/// Whether selector `s` matches node `n` of `t`. A descendant selector
/// matches a node that its descendant part matches and that has a proper
/// ancestor (following parents) matched by its ancestor part.
pub open spec fn sel_matches(s: SpecSelector, t: Seq<SpecNode>, n: int) -> bool
    decreases s, 0int,
{
    match s {
        SpecSelector::Tag(tag) => tag_matches(tag, t, n),
        SpecSelector::Descendant(a, d) => sel_matches(*d, t, n) && ancestor_matches(*a, t, n),
    }
}

/// Whether some proper ancestor of `n` matches `a`. Parents are followed
/// while they come before their child.
pub open spec fn ancestor_matches(a: SpecSelector, t: Seq<SpecNode>, n: int) -> bool
    decreases a, n + 1,
{
    if 0 <= n < t.len() {
        match t[n].parent {
            Some(p) => if p < n {
                sel_matches(a, t, p as int) || ancestor_matches(a, t, p as int)
            } else {
                false
            },
            None => false,
        }
    } else {
        false
    }
}

/// Every parent comes before its child.
pub open spec fn parents_before(t: Seq<SpecNode>) -> bool {
    forall|i: int| 0 <= i < t.len() ==> ((#[trigger] t[i]).parent matches Some(p) ==> p < i)
}

/// A tag selector matches a node exactly when the node is an element whose
/// tag is the selector's tag in full.
pub proof fn lemma_tag_matches_exactly(tag: Seq<char>, t: Seq<SpecNode>, n: int)
    ensures
        sel_matches(SpecSelector::Tag(tag), t, n) <==> (t[n].data matches SpecData::Element(name, _)
            && name == tag),
{
}

/// Two different tag selectors never match the same node.
pub proof fn lemma_tag_selectors_exclusive(a: Seq<char>, b: Seq<char>, t: Seq<SpecNode>, n: int)
    requires
        sel_matches(SpecSelector::Tag(a), t, n),
        sel_matches(SpecSelector::Tag(b), t, n),
    ensures
        a == b,
{
    lemma_tag_matches_exactly(a, t, n);
    lemma_tag_matches_exactly(b, t, n);
}

} // verus!
