//! Selectors, and selection by ancestry.
use vstd::prelude::*;
use crate::html_parser::html_node::HtmlTree;
use super::css_spec::{SpecSelector, spec_priority};
use super::selector_spec::{sel_matches, ancestor_matches, parents_before};
use super::tag_selector::TagSelector;

verus! {

/// A selector: a tag, or a descendant combination of two selectors.
pub enum Selector {
    Tag(TagSelector),
    Descendant(DescendantSeletor),
}

/// Matches a node matched by `descendant` that has an ancestor matched by
/// `ancestor`.
pub struct DescendantSeletor {
    ancestor: Box<Selector>,
    descendant: Box<Selector>,
    priority: usize,
}

/// The mathematical form of a selector.
pub closed spec fn selector_view(s: Selector) -> SpecSelector
    decreases s,
{
    match s {
        Selector::Tag(t) => SpecSelector::Tag(t.tag()),
        Selector::Descendant(d) => SpecSelector::Descendant(
            Box::new(selector_view(*d.ancestor)),
            Box::new(selector_view(*d.descendant)),
        ),
    }
}

impl View for Selector {
    type V = SpecSelector;

    open spec fn view(&self) -> SpecSelector {
        selector_view(*self)
    }
}

impl Selector {
    /// Each stored priority is the number of tag selectors beneath it.
    pub closed spec fn wf(&self) -> bool
        decreases self,
    {
        match self {
            Selector::Tag(t) => t.wf(),
            Selector::Descendant(d) => d.ancestor.wf() && d.descendant.wf() && d.priority
                == spec_priority(self@),
        }
    }

    /// A tag selector.
    pub fn new_tag(tag: String) -> (r: Selector)
        ensures
            r@ == SpecSelector::Tag(tag@),
            r.wf(),
    {
        Selector::Tag(TagSelector::new(tag))
    }

    /// `ancestor descendant`.
    pub fn new_descendant(ancestor: Selector, descendant: Selector) -> (r: Selector)
        requires
            ancestor.wf(),
            descendant.wf(),
            spec_priority(ancestor@) + spec_priority(descendant@) <= usize::MAX,
        ensures
            r@ == SpecSelector::Descendant(Box::new(ancestor@), Box::new(descendant@)),
            r.wf(),
    {
        Selector::Descendant(DescendantSeletor::new(Box::new(ancestor), Box::new(descendant)))
    }

    pub fn priority(&self) -> (r: usize)
        requires
            self.wf(),
        ensures
            r == spec_priority(self@),
    {
        match self {
            Selector::Tag(t) => t.priority(),
            Selector::Descendant(d) => d.priority(),
        }
    }

    pub fn matches(&self, tree: &HtmlTree, node: usize) -> (r: bool)
        requires
            node < tree@.len(),
            parents_before(tree@),
        ensures
            r == sel_matches(self@, tree@, node as int),
        decreases self,
    {
        match self {
            Selector::Tag(t) => t.matches(tree, node),
            Selector::Descendant(d) => d.matches(tree, node),
        }
    }
}

impl DescendantSeletor {
    pub fn new(ancestor: Box<Selector>, descendant: Box<Selector>) -> (r: DescendantSeletor)
        requires
            ancestor.wf(),
            descendant.wf(),
            spec_priority(ancestor@) + spec_priority(descendant@) <= usize::MAX,
        ensures
            Selector::Descendant(r)@ == SpecSelector::Descendant(
                Box::new(ancestor@),
                Box::new(descendant@),
            ),
            Selector::Descendant(r).wf(),
    {
        let priority = ancestor.priority() + descendant.priority();
        let r = DescendantSeletor { ancestor, descendant, priority };
        proof {
            let s = Selector::Descendant(r);
            assert(s@ == SpecSelector::Descendant(Box::new(r.ancestor@), Box::new(r.descendant@)));
        }
        r
    }

    pub fn priority(&self) -> (r: usize)
        requires
            Selector::Descendant(*self).wf(),
        ensures
            r == spec_priority(Selector::Descendant(*self)@),
    {
        self.priority
    }

    pub fn matches(&self, tree: &HtmlTree, node: usize) -> (r: bool)
        requires
            node < tree@.len(),
            parents_before(tree@),
        ensures
            r == sel_matches(Selector::Descendant(*self)@, tree@, node as int),
        decreases *self,
    {
        proof {
            let s = Selector::Descendant(*self);
            assert(s@ == SpecSelector::Descendant(Box::new(self.ancestor@), Box::new(self.descendant@)));
        }
        if !self.descendant.matches(tree, node) {
            return false;
        }
        let mut cur = node;
        while tree.nodes[cur].parent.is_some()
            invariant
                cur < tree@.len(),
                parents_before(tree@),
                sel_matches(self.descendant@, tree@, node as int),
                Selector::Descendant(*self)@ == SpecSelector::Descendant(
                    Box::new(self.ancestor@),
                    Box::new(self.descendant@),
                ),
                ancestor_matches(self.ancestor@, tree@, node as int) == ancestor_matches(
                    self.ancestor@,
                    tree@,
                    cur as int,
                ),
            decreases cur,
        {
            let parent = tree.nodes[cur].parent.unwrap();
            assert(tree@[cur as int].parent == Some(parent));
            assert(parent < cur);
            if self.ancestor.matches(tree, parent) {
                assert(ancestor_matches(self.ancestor@, tree@, cur as int));
                return true;
            }
            assert(ancestor_matches(self.ancestor@, tree@, cur as int) == ancestor_matches(
                self.ancestor@,
                tree@,
                parent as int,
            ));
            cur = parent;
        }
        assert(tree@[cur as int].parent is None);
        false
    }
}

} // verus!
