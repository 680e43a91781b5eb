//! The document as layout sees it: an arena of nodes addressed by index, each
//! with its real tree linkage and its layout side-table entry.

use vstd::prelude::*;

verus! {

/// The two kinds of generated content.
#[derive(Clone, Copy, Debug, PartialEq, Eq, Structural)]
pub enum PseudoElement {
    Before,
    After,
}

/// The computed `display` of generated content, as far as traversal reads it.
#[derive(Clone, Copy, Debug, PartialEq, Eq, Structural)]
pub enum Display {
    Inline,
    Block,
    Other,
}

/// The element kinds that layout tells apart.
#[derive(Clone, Copy, Debug, PartialEq, Eq, Structural)]
pub enum ElementTypeId {
    HTMLAnchorElementTypeId,
    HTMLAreaElementTypeId,
    HTMLLinkElementTypeId,
    HTMLImageElementTypeId,
    HTMLIFrameElementTypeId,
    HTMLElementTypeId,
}

/// The kind tag of a node.
#[derive(Clone, Copy, Debug, PartialEq, Eq, Structural)]
pub enum NodeTypeId {
    DocumentNodeTypeId,
    DocumentFragmentNodeTypeId,
    DoctypeNodeTypeId,
    CommentNodeTypeId,
    ElementNodeTypeId(ElementTypeId),
    TextNodeTypeId,
}

#[derive(Clone, Copy, Debug, PartialEq, Eq, Structural)]
pub struct PipelineId(pub usize);

#[derive(Clone, Copy, Debug, PartialEq, Eq, Structural)]
pub struct SubpageId(pub usize);

/// The identifiers of the page that an iframe shows.
#[derive(Clone, Copy, Debug, PartialEq, Eq, Structural)]
pub struct IFrameSize {
    pub pipeline_id: PipelineId,
    pub subpage_id: SubpageId,
}

/// One attribute of an element; `namespace` is the namespace URL, absent for
/// the null namespace.
pub struct Attr {
    pub namespace: Option<String>,
    pub name: String,
    pub value: String,
}

/// What layout may read of an element.
pub struct Element {
    pub type_id: ElementTypeId,
    pub tag_name: String,
    pub namespace: String,
    pub attrs: Vec<Attr>,
    pub style_attribute: Option<String>,
    /// The source URL, for an image element.
    pub image: Option<String>,
    /// The embedded page, for an iframe element once it has one.
    pub size: Option<IFrameSize>,
}

/// The payload of a node, by kind.
pub enum NodeData {
    Document,
    DocumentFragment,
    Doctype,
    Comment(String),
    Element(Element),
    Text(String),
}

/// The side-table entry that style attachment leaves on a node: whether it
/// generates content before or after it (with that content's display), and
/// the nodes synthesized for that content once they exist.
#[derive(Clone, Copy, Debug, PartialEq, Eq, Structural)]
pub struct LayoutData {
    pub before_style: Option<Display>,
    pub after_style: Option<Display>,
    pub before_node: Option<usize>,
    pub after_node: Option<usize>,
}

/// A node of the arena. `pseudo` marks a node synthesized for generated
/// content; such a node is never reached through the real linkage of its
/// host, only through the side-table.
pub struct Node {
    pub data: NodeData,
    pub parent_node: Option<usize>,
    pub first_child: Option<usize>,
    pub last_child: Option<usize>,
    pub prev_sibling: Option<usize>,
    pub next_sibling: Option<usize>,
    pub pseudo: Option<PseudoElement>,
    pub layout_data: Option<LayoutData>,
}

/// A synthesized node together with the display of its content.
#[derive(Clone, Copy, Debug, PartialEq, Eq, Structural)]
pub struct LayoutPseudoNode {
    node: usize,
    display: Display,
}

impl View for LayoutPseudoNode {
    type V = (usize, Display);

    closed spec fn view(&self) -> (usize, Display) {
        (self.node, self.display)
    }
}

impl LayoutPseudoNode {
    pub fn from_layout_pseudo(node: usize, display: Display) -> (r: LayoutPseudoNode)
        ensures
            r@ == (node, display),
    {
        LayoutPseudoNode { node, display }
    }

    pub fn get_display(&self) -> (r: Display)
        ensures
            r == self@.1,
    {
        self.display
    }

    pub fn get_node(&self) -> (r: usize)
        ensures
            r == self@.0,
    {
        self.node
    }
}

/// One of the five linkage fields of a node.
#[derive(Clone, Copy, Debug, PartialEq, Eq, Structural)]
pub enum Link {
    Parent,
    FirstChild,
    LastChild,
    PrevSibling,
    NextSibling,
}

/// The document: nodes addressed by their index.
pub struct LayoutDom {
    nodes: Vec<Node>,
}

pub open spec fn opt_in(o: Option<usize>, len: int) -> bool {
    match o {
        Some(i) => i < len,
        None => true,
    }
}

/// Every reference held by `n` points into an arena of `len` nodes.
pub open spec fn node_refs_in(n: Node, len: int) -> bool {
    &&& opt_in(n.parent_node, len)
    &&& opt_in(n.first_child, len)
    &&& opt_in(n.last_child, len)
    &&& opt_in(n.prev_sibling, len)
    &&& opt_in(n.next_sibling, len)
    &&& match n.layout_data {
        Some(ld) => opt_in(ld.before_node, len) && opt_in(ld.after_node, len),
        None => true,
    }
}

pub open spec fn fresh_node(data: NodeData, pseudo: Option<PseudoElement>) -> Node {
    Node {
        data,
        parent_node: None,
        first_child: None,
        last_child: None,
        prev_sibling: None,
        next_sibling: None,
        pseudo,
        layout_data: None,
    }
}

pub open spec fn with_link(n: Node, which: Link, target: usize) -> Node {
    match which {
        Link::Parent => Node { parent_node: Some(target), ..n },
        Link::FirstChild => Node { first_child: Some(target), ..n },
        Link::LastChild => Node { last_child: Some(target), ..n },
        Link::PrevSibling => Node { prev_sibling: Some(target), ..n },
        Link::NextSibling => Node { next_sibling: Some(target), ..n },
    }
}

/// The arena after `child` is appended as the last real child of `parent`.
pub open spec fn appended(d: Seq<Node>, parent: usize, child: usize) -> Seq<Node> {
    match d[parent as int].last_child {
        Some(last) => {
            let d1 = d.update(last as int, Node { next_sibling: Some(child), ..d[last as int] });
            let d2 = d1.update(
                child as int,
                Node { parent_node: Some(parent), prev_sibling: Some(last), ..d1[child as int] },
            );
            d2.update(parent as int, Node { last_child: Some(child), ..d2[parent as int] })
        },
        None => {
            let d1 = d.update(child as int, Node { parent_node: Some(parent), ..d[child as int] });
            d1.update(
                parent as int,
                Node { first_child: Some(child), last_child: Some(child), ..d1[parent as int] },
            )
        },
    }
}

/// Every reference held anywhere in the arena points into it.
pub open spec fn arena_ok(d: Seq<Node>) -> bool {
    forall|i: int| 0 <= i < d.len() ==> #[trigger] node_refs_in(d[i], d.len() as int)
}

impl View for LayoutDom {
    type V = Seq<Node>;

    closed spec fn view(&self) -> Seq<Node> {
        self.nodes@
    }
}

impl LayoutDom {
    /// All linkage and side-table references stay inside the arena.
    pub open spec fn wf(&self) -> bool {
        arena_ok(self@)
    }

    pub open spec fn valid(&self, n: usize) -> bool {
        n < self@.len()
    }

    pub fn new() -> (r: LayoutDom)
        ensures
            r@ == Seq::<Node>::empty(),
            r.wf(),
    {
        LayoutDom { nodes: Vec::new() }
    }

    pub fn len(&self) -> (r: usize)
        ensures
            r == self@.len(),
    {
        self.nodes.len()
    }

    /// Adds an unlinked node, marked as synthesized content where `pseudo` is
    /// given, and returns its index.
    pub fn add_node(&mut self, data: NodeData, pseudo: Option<PseudoElement>) -> (id: usize)
        requires
            old(self).wf(),
            old(self)@.len() < usize::MAX,
        ensures
            final(self).wf(),
            id == old(self)@.len(),
            final(self)@ == old(self)@.push(fresh_node(data, pseudo)),
    {
        let id = self.nodes.len();
        let n = Node {
            data,
            parent_node: None,
            first_child: None,
            last_child: None,
            prev_sibling: None,
            next_sibling: None,
            pseudo,
            layout_data: None,
        };
        self.nodes.push(n);
        proof {
            assert forall|i: int| 0 <= i < self@.len() implies #[trigger] node_refs_in(self@[i], self@.len() as int) by {
                if i < old(self)@.len() {
                    assert(node_refs_in(old(self)@[i], old(self)@.len() as int));
                }
            }
        }
        id
    }

    /// Read access to one node.
    pub fn node(&self, n: usize) -> (r: &Node)
        requires
            self.valid(n),
        ensures
            *r == self@[n as int],
    {
        &self.nodes[n]
    }

    /// Points one linkage field of node `n` at `target`.
    pub fn set_link(&mut self, n: usize, which: Link, target: usize)
        requires
            old(self).wf(),
            old(self).valid(n),
            old(self).valid(target),
        ensures
            final(self).wf(),
            final(self)@ == old(self)@.update(n as int, with_link(old(self)@[n as int], which, target)),
    {
        match which {
            Link::Parent => self.nodes[n].parent_node = Some(target),
            Link::FirstChild => self.nodes[n].first_child = Some(target),
            Link::LastChild => self.nodes[n].last_child = Some(target),
            Link::PrevSibling => self.nodes[n].prev_sibling = Some(target),
            Link::NextSibling => self.nodes[n].next_sibling = Some(target),
        }
        proof {
            assert(node_refs_in(old(self)@[n as int], self@.len() as int));
            assert forall|i: int| 0 <= i < self@.len() implies #[trigger] node_refs_in(self@[i], self@.len() as int) by {
                assert(node_refs_in(old(self)@[i], self@.len() as int));
            }
        }
    }
    /// Appends `child`, which has no parent and no siblings yet, as the last
    /// real child of `parent`.
    pub fn append_child(&mut self, parent: usize, child: usize)
        requires
            old(self).wf(),
            old(self).valid(parent),
            old(self).valid(child),
            parent != child,
            old(self)@[child as int].parent_node is None,
        ensures
            final(self).wf(),
            final(self)@ == appended(old(self)@, parent, child),
    {
        proof {
            assert(node_refs_in(self@[parent as int], self@.len() as int));
        }
        match self.nodes[parent].last_child {
            Some(last) => {
                self.nodes[last].next_sibling = Some(child);
                self.nodes[child].parent_node = Some(parent);
                self.nodes[child].prev_sibling = Some(last);
                self.nodes[parent].last_child = Some(child);
            },
            None => {
                self.nodes[child].parent_node = Some(parent);
                self.nodes[parent].first_child = Some(child);
                self.nodes[parent].last_child = Some(child);
            },
        }
        proof {
            let d = old(self)@;
            assert(node_refs_in(d[parent as int], d.len() as int));
            assert(self@ =~= appended(d, parent, child));
            assert forall|i: int| 0 <= i < self@.len() implies #[trigger] node_refs_in(self@[i], self@.len() as int) by {
                assert(node_refs_in(d[i], d.len() as int));
            }
        }
    }

    /// Records the side-table entry of node `n`.
    pub fn set_layout_data(&mut self, n: usize, data: LayoutData)
        requires
            old(self).wf(),
            old(self).valid(n),
            opt_in(data.before_node, old(self)@.len() as int),
            opt_in(data.after_node, old(self)@.len() as int),
        ensures
            final(self).wf(),
            final(self)@ == old(self)@.update(n as int, Node { layout_data: Some(data), ..old(self)@[n as int] }),
    {
        self.nodes[n].layout_data = Some(data);
        proof {
            let d = old(self)@;
            assert(self@ =~= d.update(n as int, Node { layout_data: Some(data), ..d[n as int] }));
            assert forall|i: int| 0 <= i < self@.len() implies #[trigger] node_refs_in(self@[i], self@.len() as int) by {
                assert(node_refs_in(d[i], d.len() as int));
            }
        }
    }
}

} // verus!
