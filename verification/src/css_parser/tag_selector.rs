//! Selector by tag name.
use vstd::prelude::*;
use crate::html_parser::html_node::HtmlTree;
use crate::text::str_eq;

verus! {

pub struct TagSelector {
    tag: String,
    priority: usize,
}

impl TagSelector {
    pub fn new(tag: String) -> (r: TagSelector)
        ensures
            r.tag() == tag@,
            r.wf(),
    {
        TagSelector { tag, priority: 1 }
    }

    /// The tag this selector matches.
    pub closed spec fn tag(&self) -> Seq<char> {
        self.tag@
    }

    pub closed spec fn wf(&self) -> bool {
        self.priority == 1
    }

    /// Whether `node` is an element with this tag.
    pub fn matches(&self, tree: &HtmlTree, node: usize) -> (r: bool)
        requires
            node < tree@.len(),
        ensures
            r == super::selector_spec::tag_matches(self.tag(), tree@, node as int),
    {
        match tree.nodes[node].get_tag() {
            Some(t) => str_eq(self.tag.as_str(), t),
            None => false,
        }
    }

    pub fn priority(&self) -> (r: usize)
        requires
            self.wf(),
        ensures
            r == 1,
    {
        self.priority
    }
}

} // verus!
