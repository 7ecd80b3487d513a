//! The document tree: the same tree builder, with nodes that carry their
//! computed style and print as markup.
use vstd::prelude::*;
use crate::strmap::StrMap;
use crate::html_parser::HtmlParser as TreeBuilder;
use crate::html_parser::html_node::{HtmlNodeInner, HtmlTree, SpecNode, SpecData, tree_shape};
use crate::html_parser::tree_spec::{spec_parse, source_ok};
use crate::html_parser::tree_laws::tree_wf;
use crate::html_parser::order_laws::{numbered_in_order, preorder_texts};
use crate::html_parser::text_laws::token_texts;
use crate::token::spec_lex;

verus! {

pub enum NodeData<'html> {
    Text { text: &'html str },
    Element { tag: &'html str, attributes: StrMap },
}

pub struct Node<'html> {
    pub parent: Option<usize>,
    pub style: StrMap,
    pub children: Vec<usize>,
    pub data: NodeData<'html>,
}

/// A document: its nodes, and the position of the root.
pub struct Document<'html> {
    pub nodes: Vec<Node<'html>>,
    pub root: usize,
}

impl<'html> View for NodeData<'html> {
    type V = SpecData;

    open spec fn view(&self) -> SpecData {
        match self {
            NodeData::Text { text } => SpecData::Text(text@),
            NodeData::Element { tag, attributes } => SpecData::Element(tag@, attributes@),
        }
    }
}

impl<'html> View for Node<'html> {
    type V = SpecNode;

    open spec fn view(&self) -> SpecNode {
        SpecNode { parent: self.parent, children: self.children@, styles: self.style@, data: self.data@ }
    }
}

pub open spec fn doc_views<'html>(nodes: Seq<Node<'html>>) -> Seq<SpecNode> {
    nodes.map_values(|n: Node<'html>| n@)
}

impl<'html> View for Document<'html> {
    type V = Seq<SpecNode>;

    open spec fn view(&self) -> Seq<SpecNode> {
        doc_views(self.nodes@)
    }
}

impl<'html> Node<'html> {
    pub fn new(data: NodeData<'html>, parent: Option<usize>) -> (r: Node<'html>)
        ensures
            r@ == (SpecNode { parent, children: seq![], styles: Map::empty(), data: data@ }),
    {
        Node { parent, style: StrMap::new(), children: Vec::new(), data }
    }
}

impl<'html> Document<'html> {
    /// The document of a built tree, node for node (styles included).
    pub fn from_tree(tree: HtmlTree<'html>) -> (r: Document<'html>)
        ensures
            r@ == tree@,
            r.root == tree.root,
    {
        let HtmlTree { nodes: mut rest, root } = tree;
        let ghost all = crate::html_parser::html_node::node_views(rest@);
        let mut nodes: Vec<Node<'html>> = Vec::new();
        while rest.len() > 0
            invariant
                doc_views(nodes@) + crate::html_parser::html_node::node_views(rest@) == all,
            decreases rest@.len(),
        {
            let ghost before = rest@;
            let n = rest.remove(0);
            let data = match n.inner {
                HtmlNodeInner::Text { text } => NodeData::Text { text },
                HtmlNodeInner::Element { tag, attributes } => NodeData::Element { tag, attributes },
            };
            let node = Node { parent: n.parent, style: n.styles, children: n.children, data };
            let ghost prev = nodes@;
            nodes.push(node);
            proof {
                assert(before[0]@ == node@);
                assert(crate::html_parser::html_node::node_views(before) =~= seq![node@]
                    + crate::html_parser::html_node::node_views(rest@));
                assert(doc_views(nodes@) =~= doc_views(prev).push(node@));
            }
        }
        proof {
            assert(crate::html_parser::html_node::node_views(rest@) =~= Seq::<SpecNode>::empty());
            assert(doc_views(nodes@) =~= all);
        }
        Document { nodes, root }
    }
}

pub struct HtmlParser<'html> {
    body: &'html str,
}

impl<'html> HtmlParser<'html> {
    pub fn new(body: &'html str) -> (r: HtmlParser<'html>)
        ensures
            r.body() == body@,
    {
        HtmlParser { body }
    }

    /// The text that `parse` reads.
    pub closed spec fn body(&self) -> Seq<char> {
        self.body@
    }

    /// Builds the document of the text; it must be one the tree builder
    /// accepts (see `source_ok`; `try_parse` checks it).
    pub fn parse(&mut self) -> (r: Document<'html>)
        requires
            source_ok(old(self).body()),
        ensures
            r@ == spec_parse(old(self).body()),
            tree_wf(r@),
            r.root == 0,
            numbered_in_order(r@),
            preorder_texts(r@, 0) == token_texts(spec_lex(old(self).body())),
    {
        let mut builder = TreeBuilder::new(self.body);
        Document::from_tree(builder.parse())
    }

    /// Builds the document when the tree builder accepts the text.
    pub fn try_parse(&mut self) -> (r: Option<Document<'html>>)
        ensures
            r is Some <==> source_ok(old(self).body()),
            r matches Some(d) ==> d@ == spec_parse(old(self).body()) && tree_wf(d@) && d.root == 0
                && numbered_in_order(d@) && preorder_texts(d@, 0) == token_texts(
                spec_lex(old(self).body()),
            ),
    {
        let mut builder = TreeBuilder::new(self.body);
        match builder.try_parse() {
            Some(tree) => Some(Document::from_tree(tree)),
            None => None,
        }
    }
}

// ---------------------------------------------------------------------------
// Printing as markup
// ---------------------------------------------------------------------------

/// The markup of node `i`: text as it is; an element as its start tag, the
/// markup of its children in order, and its end tag.
pub open spec fn markup(t: Seq<SpecNode>, i: int) -> Seq<char>
    decreases t.len() - i, t[i].children.len() + 1,
{
    if 0 <= i < t.len() {
        match t[i].data {
            SpecData::Text(s) => s,
            SpecData::Element(tag, _) => seq!['<'] + tag + seq!['>'] + children_markup(
                t,
                i,
                t[i].children.len() as int,
            ) + seq!['<', '/'] + tag + seq!['>'],
        }
    } else {
        seq![]
    }
}

/// The markup of the first `k` children of node `i`.
pub open spec fn children_markup(t: Seq<SpecNode>, i: int, k: int) -> Seq<char>
    decreases t.len() - i, k,
{
    if 0 <= i < t.len() && 0 < k <= t[i].children.len() {
        let c = t[i].children[k - 1] as int;
        children_markup(t, i, k - 1) + if i < c < t.len() { markup(t, c) } else { seq![] }
    } else {
        seq![]
    }
}

impl<'html> Document<'html> {
    /// The markup of node `i` and everything below it.
    pub fn render(&self, i: usize) -> (r: String)
        requires
            i < self@.len(),
            tree_shape(self@),
        ensures
            r@ == markup(self@, i as int),
        decreases self@.len() - i, 1int,
    {
        let ghost t = self@;
        assert(t[i as int] == self.nodes@[i as int]@);
        match &self.nodes[i].data {
            NodeData::Text { text } => str::to_owned(*text),
            NodeData::Element { tag, .. } => {
                let mut out = String::new();
                out.append("<");
                out.append(tag);
                out.append(">");
                let n = self.nodes[i].children.len();
                let mut k: usize = 0;
                proof {
                    reveal_strlit("<");
                    reveal_strlit(">");
                    assert(out@ =~= seq!['<'] + tag@ + seq!['>'] + children_markup(t, i as int, 0));
                }
                while k < n
                    invariant
                        t == self@,
                        i < t.len(),
                        tree_shape(t),
                        n == t[i as int].children.len(),
                        k <= n,
                        t[i as int].data == SpecData::Element(tag@, t[i as int].data->Element_1),
                        out@ == seq!['<'] + tag@ + seq!['>'] + children_markup(t, i as int, k as int),
                    decreases n - k,
                {
                    let c = self.nodes[i].children[k];
                    assert(t[i as int].children[k as int] == c);
                    assert(c < t.len() && t[c as int].parent == Some(i));
                    assert(i < c);
                    let part = self.render_below(i, c);
                    out.append(part.as_str());
                    proof {
                        assert(out@ =~= seq!['<'] + tag@ + seq!['>'] + children_markup(t, i as int, k + 1));
                    }
                    k = k + 1;
                }
                out.append("</");
                out.append(tag);
                out.append(">");
                proof {
                    reveal_strlit("</");
                    reveal_strlit(">");
                    assert(out@ =~= markup(t, i as int));
                }
                out
            },
        }
    }

    /// The markup of child `c` of node `i`.
    fn render_below(&self, i: usize, c: usize) -> (r: String)
        requires
            i < c < self@.len(),
            tree_shape(self@),
        ensures
            r@ == markup(self@, c as int),
        decreases self@.len() - i, 0int,
    {
        self.render(c)
    }
}

} // verus!
