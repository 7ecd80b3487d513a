//! Nodes of the HTML tree. A tree is an arena: nodes refer to their parent
//! and children by position.
use vstd::prelude::*;
use crate::strmap::StrMap;

verus! {

pub enum HtmlNodeInner<'html> {
    Text { text: &'html str },
    Element { tag: &'html str, attributes: StrMap },
}

/// What a node holds, as mathematical values.
pub enum SpecData {
    Text(Seq<char>),
    Element(Seq<char>, Map<Seq<char>, Seq<char>>),
}

/// A node as mathematical values: its parent's position, its children's
/// positions, its computed styles and what it holds.
pub struct SpecNode {
    pub parent: Option<usize>,
    pub children: Seq<usize>,
    pub styles: Map<Seq<char>, Seq<char>>,
    pub data: SpecData,
}

pub struct HtmlNode<'html> {
    pub parent: Option<usize>,
    pub styles: StrMap,
    pub children: Vec<usize>,
    pub inner: HtmlNodeInner<'html>,
}

/// A parsed document: all nodes, and the position of the root.
pub struct HtmlTree<'html> {
    pub nodes: Vec<HtmlNode<'html>>,
    pub root: usize,
}

impl<'html> View for HtmlNodeInner<'html> {
    type V = SpecData;

    open spec fn view(&self) -> SpecData {
        match self {
            HtmlNodeInner::Text { text } => SpecData::Text(text@),
            HtmlNodeInner::Element { tag, attributes } => SpecData::Element(tag@, attributes@),
        }
    }
}

impl<'html> View for HtmlNode<'html> {
    type V = SpecNode;

    open spec fn view(&self) -> SpecNode {
        SpecNode {
            parent: self.parent,
            children: self.children@,
            styles: self.styles@,
            data: self.inner@,
        }
    }
}

pub open spec fn node_views<'html>(nodes: Seq<HtmlNode<'html>>) -> Seq<SpecNode> {
    nodes.map_values(|n: HtmlNode<'html>| n@)
}

impl<'html> View for HtmlTree<'html> {
    type V = Seq<SpecNode>;

    open spec fn view(&self) -> Seq<SpecNode> {
        node_views(self.nodes@)
    }
}

pub open spec fn is_element(d: SpecData) -> bool {
    d is Element
}

/// The tag of an element; empty for a text node.
pub open spec fn tag_of(d: SpecData) -> Seq<char> {
    match d {
        SpecData::Element(t, _) => t,
        SpecData::Text(_) => seq![],
    }
}

/// A fresh node with no children and no styles.
pub open spec fn fresh_node(data: SpecData, parent: Option<usize>) -> SpecNode {
    SpecNode { parent, children: seq![], styles: Map::empty(), data }
}

/// The shape of a tree: parents come before their children, children
/// lists name existing nodes that point back to them, without repetition,
/// and every node with a parent is in that parent's children list.
pub open spec fn tree_shape(t: Seq<SpecNode>) -> bool {
    &&& t.len() <= usize::MAX
    &&& forall|i: int| 0 <= i < t.len() ==> ((#[trigger] t[i]).parent matches Some(p) ==> p < i)
    &&& forall|i: int, k: int|
        0 <= i < t.len() && 0 <= k < t[i].children.len() ==> #[trigger] t[i].children[k] < t.len()
            && t[t[i].children[k] as int].parent == Some(i as usize)
    &&& forall|i: int, a: int, b: int|
        0 <= i < t.len() && 0 <= a < b < t[i].children.len() ==> #[trigger] t[i].children[a]
            != #[trigger] t[i].children[b]
    &&& forall|i: int|
        0 <= i < t.len() ==> ((#[trigger] t[i]).parent matches Some(p) ==> t[p as int].children.contains(
            i as usize,
        ))
}

impl<'html> HtmlNode<'html> {
    fn new(data: HtmlNodeInner<'html>, parent: Option<usize>) -> (r: HtmlNode<'html>)
        ensures
            r@ == fresh_node(data@, parent),
    {
        HtmlNode { parent, styles: StrMap::new(), children: Vec::new(), inner: data }
    }

    pub fn new_text_node(text: &'html str, parent: Option<usize>) -> (r: HtmlNode<'html>)
        ensures
            r@ == fresh_node(SpecData::Text(text@), parent),
    {
        Self::new(HtmlNodeInner::Text { text }, parent)
    }

    pub fn new_element_node(tag: &'html str, attributes: StrMap, parent: Option<usize>) -> (r:
        HtmlNode<'html>)
        ensures
            r@ == fresh_node(SpecData::Element(tag@, attributes@), parent),
    {
        Self::new(HtmlNodeInner::Element { tag, attributes }, parent)
    }

    pub fn is_text_node(&self) -> (r: bool)
        ensures
            r == (self@.data is Text),
    {
        match self.inner {
            HtmlNodeInner::Text { .. } => true,
            _ => false,
        }
    }

    pub fn is_element_node(&self) -> (r: bool)
        ensures
            r == (self@.data is Element),
    {
        match self.inner {
            HtmlNodeInner::Element { .. } => true,
            _ => false,
        }
    }

    pub fn get_tag(&self) -> (r: Option<&'html str>)
        ensures
            match r {
                Some(t) => self@.data is Element && t@ == tag_of(self@.data),
                None => self@.data is Text,
            },
    {
        match self.inner {
            HtmlNodeInner::Element { tag, .. } => Some(tag),
            _ => None,
        }
    }

    pub fn get_attributes(&self) -> (r: Option<&StrMap>)
        ensures
            match r {
                Some(a) => self@.data matches SpecData::Element(_, m) && a@ == m,
                None => self@.data is Text,
            },
    {
        match &self.inner {
            HtmlNodeInner::Element { attributes, .. } => Some(attributes),
            _ => None,
        }
    }
}

/// How a node prints on its own: a text node as its text, an element as its
/// start tag.
pub open spec fn label(d: SpecData) -> Seq<char> {
    match d {
        SpecData::Text(s) => s,
        SpecData::Element(t, _) => seq!['<'] + t + seq!['>'],
    }
}

pub open spec fn spaces(n: nat) -> Seq<char> {
    Seq::new(n, |_k: int| ' ')
}

/// The outline of node `i` printed at `indent`: its label, the outline of
/// each child two columns further in, and for an element its label again.
pub open spec fn outline(t: Seq<SpecNode>, i: int, indent: nat) -> Seq<Seq<char>>
    decreases t.len() - i, t[i].children.len() + 1,
{
    if 0 <= i < t.len() {
        let line = spaces(indent) + label(t[i].data);
        seq![line] + children_outline(t, i, t[i].children.len() as int, indent + 2) + if is_element(
            t[i].data,
        ) {
            seq![line]
        } else {
            seq![]
        }
    } else {
        seq![]
    }
}

/// The outlines of the first `k` children of node `i`, at `indent`.
pub open spec fn children_outline(t: Seq<SpecNode>, i: int, k: int, indent: nat) -> Seq<Seq<char>>
    decreases t.len() - i, k,
{
    if 0 <= i < t.len() && 0 < k <= t[i].children.len() {
        let c = t[i].children[k - 1] as int;
        children_outline(t, i, k - 1, indent) + if i < c < t.len() {
            outline(t, c, indent)
        } else {
            seq![]
        }
    } else {
        seq![]
    }
}

fn spaces_string(n: usize) -> (r: String)
    ensures
        r@ == spaces(n as nat),
{
    let mut out = String::new();
    let mut k: usize = 0;
    proof {
        reveal_strlit(" ");
    }
    while k < n
        invariant
            k <= n,
            out@ == spaces(k as nat),
            " "@ == seq![' '],
        decreases n - k,
    {
        out.append(" ");
        k = k + 1;
        assert(out@ =~= spaces(k as nat));
    }
    out
}

impl<'html> HtmlNode<'html> {
    /// The node printed on its own (see `label`).
    pub fn to_string(&self) -> (r: String)
        ensures
            r@ == label(self@.data),
    {
        match &self.inner {
            HtmlNodeInner::Text { text } => str::to_owned(*text),
            HtmlNodeInner::Element { tag, .. } => {
                let mut out = String::new();
                out.append("<");
                out.append(tag);
                out.append(">");
                proof {
                    reveal_strlit("<");
                    reveal_strlit(">");
                    assert(out@ =~= label(self@.data));
                }
                out
            },
        }
    }
}

impl<'html> HtmlTree<'html> {
    /// The lines that print the outline of node `node` at `indent` columns.
    pub fn paint_tree(&self, node: usize, indent: usize) -> (r: Vec<String>)
        requires
            node < self@.len(),
            tree_shape(self@),
            indent + 2 * (self@.len() - node) <= usize::MAX,
        ensures
            r@.map_values(|l: String| l@) == outline(self@, node as int, indent as nat),
        decreases self@.len() - node, 1int,
    {
        let ghost t = self@;
        assert(t[node as int] == self.nodes@[node as int]@);
        let mut line = spaces_string(indent);
        let own = self.nodes[node].to_string();
        line.append(own.as_str());
        let mut out: Vec<String> = Vec::new();
        let ghost first = line@;
        out.push(line);
        let n = self.nodes[node].children.len();
        let mut k: usize = 0;
        assert(out@.map_values(|l: String| l@) =~= seq![first] + children_outline(t, node as int, 0, (indent + 2) as nat));
        while k < n
            invariant
                t == self@,
                node < t.len(),
                tree_shape(t),
                indent + 2 * (t.len() - node) <= usize::MAX,
                n == t[node as int].children.len(),
                k <= n,
                first == spaces(indent as nat) + label(t[node as int].data),
                out@.map_values(|l: String| l@) == seq![first] + children_outline(t, node as int, k as int, (indent + 2) as nat),
            decreases n - k,
        {
            let c = self.nodes[node].children[k];
            assert(t[node as int].children[k as int] == c);
            assert(c < t.len() && t[c as int].parent == Some(node));
            let mut lines = self.paint_below(node, c, indent + 2);
            let ghost before = out@;
            let ghost added = lines@;
            out.append(&mut lines);
            proof {
                assert((before + added).map_values(|l: String| l@) =~= before.map_values(|l: String| l@)
                    + added.map_values(|l: String| l@));
                assert(out@.map_values(|l: String| l@) =~= seq![first] + children_outline(t, node as int, k + 1, (indent + 2) as nat));
            }
            k = k + 1;
        }
        if self.nodes[node].is_element_node() {
            let mut again = spaces_string(indent);
            again.append(own.as_str());
            out.push(again);
        }
        proof {
            assert(out@.map_values(|l: String| l@) =~= outline(t, node as int, indent as nat));
        }
        out
    }

    fn paint_below(&self, node: usize, c: usize, indent: usize) -> (r: Vec<String>)
        requires
            node < c < self@.len(),
            tree_shape(self@),
            indent + 2 * (self@.len() - c) <= usize::MAX,
        ensures
            r@.map_values(|l: String| l@) == outline(self@, c as int, indent as nat),
        decreases self@.len() - node, 0int,
    {
        self.paint_tree(c, indent)
    }
}

} // verus!
