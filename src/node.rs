//! Scoped node handles and the pseudo-aware navigation over them.

use vstd::prelude::*;
use vstd::std_specs::iter::IteratorSpec;
use crate::dom::{
    Display, Element, ElementTypeId, LayoutDom, Link, Node, NodeData, NodeTypeId, PipelineId,
    PseudoElement, SubpageId, with_link,
};
use crate::element::LayoutElement;
use crate::pseudo::{
    entry_or_empty, first_child_of, in_generated_content, lemma_steps_in_arena,
    needed_pseudo_elements, next_sibling_of, offered, prev_sibling_of, pseudo_node,
};

verus! {

pub open spec fn type_id_of(d: Seq<Node>, n: usize) -> NodeTypeId {
    match d[n as int].data {
        NodeData::Document => NodeTypeId::DocumentNodeTypeId,
        NodeData::DocumentFragment => NodeTypeId::DocumentFragmentNodeTypeId,
        NodeData::Doctype => NodeTypeId::DoctypeNodeTypeId,
        NodeData::Comment(_) => NodeTypeId::CommentNodeTypeId,
        NodeData::Element(e) => NodeTypeId::ElementNodeTypeId(e.type_id),
        NodeData::Text(_) => NodeTypeId::TextNodeTypeId,
    }
}

pub open spec fn element_of(d: Seq<Node>, n: usize) -> Element
    recommends
        d[n as int].data is Element,
{
    d[n as int].data->Element_0
}

pub open spec fn is_element_of_type(d: Seq<Node>, n: usize, t: ElementTypeId) -> bool {
    d[n as int].data is Element && element_of(d, n).type_id == t
}

pub open spec fn text_of(d: Seq<Node>, n: usize) -> Seq<char>
    recommends
        d[n as int].data is Text,
{
    (d[n as int].data->Text_0)@
}

/// Whether `c` has the Unicode White_Space property.
pub uninterp spec fn white_space(c: char) -> bool;

pub open spec fn all_white_space(s: Seq<char>) -> bool {
    forall|i: int| 0 <= i < s.len() ==> white_space(#[trigger] s[i])
}

/// Relies on `char::is_whitespace`: whether the character has the Unicode
/// White_Space property, which depends on the character alone.
#[verifier::external_body]
fn is_white_space(c: char) -> (r: bool)
    ensures
        r == white_space(c),
{
    c.is_whitespace()
}

/// A handle on a node of the document, usable only within the scope that
/// created it.
#[derive(Clone, Copy)]
pub struct LayoutNode<'a> {
    node: usize,
    /// Being chained to a value keeps handles from escaping their scope.
    chain: &'a (),
}

impl<'a> View for LayoutNode<'a> {
    type V = usize;

    closed spec fn view(&self) -> usize {
        self.node
    }
}

/// The node indices of an optional handle.
pub open spec fn opt_ids<'a>(o: Option<LayoutNode<'a>>) -> Option<usize> {
    match o {
        Some(n) => Some(n@),
        None => None,
    }
}

impl<'ln> LayoutNode<'ln> {
    /// Runs `f` on a fresh handle for `node`, which lives only as long as the call.
    pub fn with_layout_node<R, F>(node: usize, f: F) -> (r: R) where F: for <'b> FnOnce(LayoutNode<'b>) -> R
        requires
            forall|h: LayoutNode| h@ == node ==> #[trigger] f.requires((h,)),
        ensures
            exists|h: LayoutNode| h@ == node && #[trigger] f.ensures((h,), r),
    {
        let heavy_iron_ball = ();
        let h = LayoutNode { node, chain: &heavy_iron_ball };
        assert(f.requires((h,)));
        let r = f(h);
        assert(f.ensures((h,), r));
        r
    }

    /// A handle on `node` with the same scope as this one.
    pub fn new_with_this_lifetime(&self, node: usize) -> (r: LayoutNode<'ln>)
        ensures
            r@ == node,
    {
        LayoutNode { node, chain: self.chain }
    }

    /// The index of the node in the document, which outlives the handle's
    /// scope; for the document's own code, not for layout.
    pub fn get_abstract(&self) -> (r: usize)
        ensures
            r == self@,
    {
        self.node
    }

    /// The node itself, with everything the document holds on it.
    pub fn get<'d>(&self, dom: &'d LayoutDom) -> (r: &'d Node)
        requires
            dom.valid(self@),
        ensures
            *r == dom@[self@ as int],
    {
        dom.node(self.node)
    }

    fn set_link(&mut self, dom: &mut LayoutDom, which: Link, target: &LayoutNode)
        requires
            old(dom).wf(),
            old(dom).valid(old(self)@),
            old(dom).valid(target@),
        ensures
            final(self)@ == old(self)@,
            final(dom).wf(),
            final(dom)@ == old(dom)@.update(old(self)@ as int, with_link(old(dom)@[old(self)@ as int], which, target@)),
    {
        dom.set_link(self.node, which, target.node);
    }

    /// Links a synthesized node under `new_parent_node`; for attaching
    /// generated content only, never for changing the real tree.
    pub fn set_parent_node(&mut self, dom: &mut LayoutDom, new_parent_node: &LayoutNode)
        requires
            old(dom).wf(),
            old(dom).valid(old(self)@),
            old(dom).valid(new_parent_node@),
        ensures
            final(self)@ == old(self)@,
            final(dom).wf(),
            final(dom)@ == old(dom)@.update(old(self)@ as int, Node { parent_node: Some(new_parent_node@), ..old(dom)@[old(self)@ as int] }),
    {
        self.set_link(dom, Link::Parent, new_parent_node);
    }

    /// Attaches generated content as this node's first child.
    pub fn set_first_child(&mut self, dom: &mut LayoutDom, new_first_child: &LayoutNode)
        requires
            old(dom).wf(),
            old(dom).valid(old(self)@),
            old(dom).valid(new_first_child@),
        ensures
            final(self)@ == old(self)@,
            final(dom).wf(),
            final(dom)@ == old(dom)@.update(old(self)@ as int, Node { first_child: Some(new_first_child@), ..old(dom)@[old(self)@ as int] }),
    {
        self.set_link(dom, Link::FirstChild, new_first_child);
    }

    /// Attaches generated content as this node's last child.
    pub fn set_last_child(&mut self, dom: &mut LayoutDom, new_last_child: &LayoutNode)
        requires
            old(dom).wf(),
            old(dom).valid(old(self)@),
            old(dom).valid(new_last_child@),
        ensures
            final(self)@ == old(self)@,
            final(dom).wf(),
            final(dom)@ == old(dom)@.update(old(self)@ as int, Node { last_child: Some(new_last_child@), ..old(dom)@[old(self)@ as int] }),
    {
        self.set_link(dom, Link::LastChild, new_last_child);
    }

    /// Links generated content as this node's previous sibling.
    pub fn set_prev_sibling(&mut self, dom: &mut LayoutDom, new_prev_sibling: &LayoutNode)
        requires
            old(dom).wf(),
            old(dom).valid(old(self)@),
            old(dom).valid(new_prev_sibling@),
        ensures
            final(self)@ == old(self)@,
            final(dom).wf(),
            final(dom)@ == old(dom)@.update(old(self)@ as int, Node { prev_sibling: Some(new_prev_sibling@), ..old(dom)@[old(self)@ as int] }),
    {
        self.set_link(dom, Link::PrevSibling, new_prev_sibling);
    }

    /// Links generated content as this node's next sibling.
    pub fn set_next_sibling(&mut self, dom: &mut LayoutDom, new_next_sibling: &LayoutNode)
        requires
            old(dom).wf(),
            old(dom).valid(old(self)@),
            old(dom).valid(new_next_sibling@),
        ensures
            final(self)@ == old(self)@,
            final(dom).wf(),
            final(dom)@ == old(dom)@.update(old(self)@ as int, Node { next_sibling: Some(new_next_sibling@), ..old(dom)@[old(self)@ as int] }),
    {
        self.set_link(dom, Link::NextSibling, new_next_sibling);
    }

    fn handle_for(&self, node: Option<usize>) -> (r: Option<LayoutNode<'ln>>)
        ensures
            opt_ids(r) == node,
    {
        match node {
            Some(n) => Some(self.new_with_this_lifetime(n)),
            None => None,
        }
    }

    /// The generated node of `kind` that stands in for this node, if any.
    fn get_pseudo_node(&self, dom: &LayoutDom, pseudo_element: PseudoElement) -> (r: Option<LayoutNode<'ln>>)
        requires
            dom.wf(),
            dom.valid(self@),
        ensures
            opt_ids(r) == pseudo_node(dom@, self@, pseudo_element),
    {
        proof {
            lemma_steps_in_arena(dom@, self@);
        }
        let (host, display) = if self.is_text(dom) {
            (dom.node(self.node).parent_node, Display::Inline)
        } else if self.is_element(dom) {
            (dom.node(self.node).first_child, Display::Block)
        } else {
            (None, Display::Inline)
        };
        match host {
            None => None,
            Some(h) => {
                let entry = dom.node(h).layout_data;
                let found = match entry {
                    Some(ld) => {
                        let style = match pseudo_element {
                            PseudoElement::Before => ld.before_style,
                            PseudoElement::After => ld.after_style,
                        };
                        if style == Some(display) {
                            match pseudo_element {
                                PseudoElement::Before => ld.before_node,
                                PseudoElement::After => ld.after_node,
                            }
                        } else {
                            None
                        }
                    },
                    None => None,
                };
                assert(found == offered(entry, pseudo_element, display));
                self.handle_for(found)
            },
        }
    }

    /// The first child, with inline content generated before a leading text
    /// child surfaced in its place.
    pub fn first_child(&self, dom: &LayoutDom) -> (r: Option<LayoutNode<'ln>>)
        requires
            dom.wf(),
            dom.valid(self@),
        ensures
            opt_ids(r) == first_child_of(dom@, self@),
    {
        proof {
            lemma_steps_in_arena(dom@, self@);
        }
        let first_child = self.handle_for(dom.node(self.node).first_child);
        match first_child {
            Some(c) => {
                if c.is_text(dom) {
                    let before_node = c.get_pseudo_node(dom, PseudoElement::Before);
                    if before_node.is_some() {
                        return before_node;
                    }
                }
                first_child
            },
            None => None,
        }
    }

    /// The next sibling by the real linkage alone.
    pub fn next_pseudo_sibling(&self, dom: &LayoutDom) -> (r: Option<LayoutNode<'ln>>)
        requires
            dom.valid(self@),
        ensures
            opt_ids(r) == dom@[self@ as int].next_sibling,
    {
        self.handle_for(dom.node(self.node).next_sibling)
    }

    pub fn parent_node(&self, dom: &LayoutDom) -> (r: Option<LayoutNode<'ln>>)
        requires
            dom.valid(self@),
        ensures
            opt_ids(r) == dom@[self@ as int].parent_node,
    {
        self.handle_for(dom.node(self.node).parent_node)
    }

    fn in_generated_content(&self, dom: &LayoutDom) -> (r: bool)
        requires
            dom.wf(),
            dom.valid(self@),
        ensures
            r == in_generated_content(dom@, self@),
    {
        proof {
            lemma_steps_in_arena(dom@, self@);
        }
        if dom.node(self.node).pseudo.is_some() {
            return true;
        }
        if !self.is_text(dom) {
            return false;
        }
        match dom.node(self.node).parent_node {
            Some(p) => dom.node(p).pseudo.is_some(),
            None => false,
        }
    }

    /// The previous sibling as traversal sees it.
    pub fn prev_sibling(&self, dom: &LayoutDom) -> (r: Option<LayoutNode<'ln>>)
        requires
            dom.wf(),
            dom.valid(self@),
        ensures
            opt_ids(r) == prev_sibling_of(dom@, self@),
    {
        proof {
            lemma_steps_in_arena(dom@, self@);
        }
        let plain = self.handle_for(dom.node(self.node).prev_sibling);
        if self.in_generated_content(dom) {
            return plain;
        }
        let before_node = self.get_pseudo_node(dom, PseudoElement::Before);
        if before_node.is_some() {
            return before_node;
        }
        match plain {
            Some(s) => {
                match s.get_pseudo_node(dom, PseudoElement::After) {
                    Some(p) => Some(p),
                    None => Some(s),
                }
            },
            None => None,
        }
    }

    /// The next sibling as traversal sees it.
    pub fn next_sibling(&self, dom: &LayoutDom) -> (r: Option<LayoutNode<'ln>>)
        requires
            dom.wf(),
            dom.valid(self@),
        ensures
            opt_ids(r) == next_sibling_of(dom@, self@),
    {
        proof {
            lemma_steps_in_arena(dom@, self@);
        }
        let plain = self.next_pseudo_sibling(dom);
        if self.in_generated_content(dom) {
            return plain;
        }
        let after_node = self.get_pseudo_node(dom, PseudoElement::After);
        if after_node.is_some() {
            return after_node;
        }
        match plain {
            Some(s) => {
                match s.get_pseudo_node(dom, PseudoElement::Before) {
                    Some(p) => Some(p),
                    None => Some(s),
                }
            },
            None => None,
        }
    }

    pub fn type_id(&self, dom: &LayoutDom) -> (r: NodeTypeId)
        requires
            dom.valid(self@),
        ensures
            r == type_id_of(dom@, self@),
    {
        match &dom.node(self.node).data {
            NodeData::Document => NodeTypeId::DocumentNodeTypeId,
            NodeData::DocumentFragment => NodeTypeId::DocumentFragmentNodeTypeId,
            NodeData::Doctype => NodeTypeId::DoctypeNodeTypeId,
            NodeData::Comment(_) => NodeTypeId::CommentNodeTypeId,
            NodeData::Element(e) => NodeTypeId::ElementNodeTypeId(e.type_id),
            NodeData::Text(_) => NodeTypeId::TextNodeTypeId,
        }
    }

    pub fn is_text(&self, dom: &LayoutDom) -> (r: bool)
        requires
            dom.valid(self@),
        ensures
            r == (dom@[self@ as int].data is Text),
    {
        match &dom.node(self.node).data {
            NodeData::Text(_) => true,
            _ => false,
        }
    }

    pub fn is_element(&self, dom: &LayoutDom) -> (r: bool)
        requires
            dom.valid(self@),
        ensures
            r == (dom@[self@ as int].data is Element),
    {
        match &dom.node(self.node).data {
            NodeData::Element(_) => true,
            _ => false,
        }
    }

    pub fn is_document(&self, dom: &LayoutDom) -> (r: bool)
        requires
            dom.valid(self@),
        ensures
            r == (dom@[self@ as int].data is Document),
    {
        match &dom.node(self.node).data {
            NodeData::Document => true,
            _ => false,
        }
    }

    /// The text of a text node.
    pub fn text(&self, dom: &LayoutDom) -> (r: String)
        requires
            dom.valid(self@),
            dom@[self@ as int].data is Text,
        ensures
            r@ == text_of(dom@, self@),
    {
        match &dom.node(self.node).data {
            NodeData::Text(s) => s.clone(),
            _ => vstd::pervasive::unreached(),
        }
    }

    /// True for a text node made of White_Space characters only.
    pub fn is_ignorable_whitespace(&self, dom: &LayoutDom) -> (r: bool)
        requires
            dom.valid(self@),
        ensures
            r == (dom@[self@ as int].data is Text && all_white_space(text_of(dom@, self@))),
    {
        match &dom.node(self.node).data {
            NodeData::Text(s) => {
                let mut chars = s.as_str().chars();
                let ghost all = s@;
                let ghost mut seen: int = 0;
                proof {
                    assert(chars.remaining() == all);
                }
                loop
                    invariant
                        0 <= seen <= all.len(),
                        dom.valid(self@),
                        dom@[self@ as int].data is Text,
                        all == text_of(dom@, self@),
                        chars.remaining() == all.subrange(seen, all.len() as int),
                        chars.obeys_prophetic_iter_laws(),
                        forall|i: int| 0 <= i < seen ==> white_space(#[trigger] all[i]),
                    decreases all.len() - seen,
                {
                    match chars.next() {
                        None => {
                            proof {
                                assert(all.subrange(seen, all.len() as int).len() == 0);
                                assert(seen == all.len());
                            }
                            return true;
                        },
                        Some(c) => {
                            proof {
                                assert(all.subrange(seen, all.len() as int)[0] == all[seen]);
                                assert(all.subrange(seen, all.len() as int).drop_first() =~= all.subrange(seen + 1, all.len() as int));
                            }
                            if !is_white_space(c) {
                                return false;
                            }
                            proof {
                                seen = seen + 1;
                            }
                        },
                    }
                }
            },
            _ => false,
        }
    }

    /// The source URL of an image element.
    pub fn image_url(&self, dom: &LayoutDom) -> (r: Option<String>)
        requires
            dom.valid(self@),
            is_element_of_type(dom@, self@, ElementTypeId::HTMLImageElementTypeId),
        ensures
            r == element_of(dom@, self@).image,
    {
        match &dom.node(self.node).data {
            NodeData::Element(e) => match &e.image {
                Some(url) => Some(url.clone()),
                None => None,
            },
            _ => vstd::pervasive::unreached(),
        }
    }

    /// The pipeline and subpage of an iframe element that shows a page.
    pub fn iframe_pipeline_and_subpage_ids(&self, dom: &LayoutDom) -> (r: (PipelineId, SubpageId))
        requires
            dom.valid(self@),
            is_element_of_type(dom@, self@, ElementTypeId::HTMLIFrameElementTypeId),
            element_of(dom@, self@).size is Some,
        ensures
            r == ({
                let size = element_of(dom@, self@).size->Some_0;
                (size.pipeline_id, size.subpage_id)
            }),
    {
        match &dom.node(self.node).data {
            NodeData::Element(e) => match e.size {
                Some(size) => (size.pipeline_id, size.subpage_id),
                None => vstd::pervasive::unreached(),
            },
            _ => vstd::pervasive::unreached(),
        }
    }

    /// Runs `f` on the element view of an element node.
    pub fn with_element<R, F>(&self, dom: &LayoutDom, f: F) -> (r: R) where F: for <'e> FnOnce(&LayoutElement<'e>) -> R
        requires
            dom.valid(self@),
            dom@[self@ as int].data is Element,
            forall|v: &LayoutElement| v@ == element_of(dom@, self@) ==> #[trigger] f.requires((v,)),
        ensures
            exists|v: &LayoutElement| v@ == element_of(dom@, self@) && #[trigger] f.ensures((v,), r),
    {
        match &dom.node(self.node).data {
            NodeData::Element(e) => {
                let v = LayoutElement::new(e);
                assert(f.requires((&v,)));
                let r = f(&v);
                assert(f.ensures((&v,), r));
                r
            },
            _ => vstd::pervasive::unreached(),
        }
    }

    /// The generated content that this node still lacks a synthesized node
    /// for, given what its parent generates.
    pub fn necessary_pseudo_elements(&self, dom: &LayoutDom) -> (r: Vec<PseudoElement>)
        requires
            dom.wf(),
            dom.valid(self@),
        ensures
            r@ == needed_pseudo_elements(dom@, self@),
    {
        proof {
            lemma_steps_in_arena(dom@, self@);
        }
        let mut pseudo_elements: Vec<PseudoElement> = Vec::new();
        let p = match dom.node(self.node).parent_node {
            None => {
                assert(pseudo_elements@ =~= needed_pseudo_elements(dom@, self@));
                return pseudo_elements;
            },
            Some(p) => p,
        };
        let (mine_before, mine_after) = match dom.node(self.node).layout_data {
            Some(ld) => (ld.before_node, ld.after_node),
            None => (None, None),
        };
        let (theirs_before, theirs_after) = match dom.node(p).layout_data {
            Some(ld) => (ld.before_style, ld.after_style),
            None => (None, None),
        };
        assert(mine_before == entry_or_empty(dom@, self@).before_node);
        assert(theirs_after == entry_or_empty(dom@, p).after_style);
        if theirs_before.is_some() && mine_before.is_none() {
            pseudo_elements.push(PseudoElement::Before);
        }
        if theirs_after.is_some() && mine_after.is_none() {
            pseudo_elements.push(PseudoElement::After);
        }
        assert(pseudo_elements@ =~= needed_pseudo_elements(dom@, self@));
        pseudo_elements
    }
}

} // verus!
