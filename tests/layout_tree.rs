use layout_wrapper::dom::{
    Attr, Display, Element, ElementTypeId, IFrameSize, LayoutData, LayoutDom, LayoutPseudoNode,
    NodeData, NodeTypeId, PipelineId, PseudoElement, SubpageId,
};
use layout_wrapper::node::LayoutNode;
use layout_wrapper::traversal::{NodeFilter, NodeLog};

fn element_with(type_id: ElementTypeId, tag: &str, attrs: Vec<Attr>) -> NodeData {
    NodeData::Element(Element {
        type_id,
        tag_name: tag.to_string(),
        namespace: "http://www.w3.org/1999/xhtml".to_string(),
        attrs,
        style_attribute: None,
        image: None,
        size: None,
    })
}

fn div(tag: &str) -> NodeData {
    element_with(ElementTypeId::HTMLElementTypeId, tag, Vec::new())
}

fn text(s: &str) -> NodeData {
    NodeData::Text(s.to_string())
}

fn attr(ns: Option<&str>, name: &str, value: &str) -> Attr {
    Attr { namespace: ns.map(|s| s.to_string()), name: name.to_string(), value: value.to_string() }
}

fn entry(
    before_style: Option<Display>,
    after_style: Option<Display>,
    before_node: Option<usize>,
    after_node: Option<usize>,
) -> LayoutData {
    LayoutData { before_style, after_style, before_node, after_node }
}

/// Root -> [A, B], A -> [Text("x")].
struct Simple {
    dom: LayoutDom,
    root: usize,
    a: usize,
    x: usize,
    b: usize,
}

fn simple_tree() -> Simple {
    let mut dom = LayoutDom::new();
    let root = dom.add_node(div("root"), None);
    let a = dom.add_node(div("a"), None);
    let x = dom.add_node(text("x"), None);
    let b = dom.add_node(div("b"), None);
    dom.append_child(root, a);
    dom.append_child(a, x);
    dom.append_child(root, b);
    Simple { dom, root, a, x, b }
}

fn children_ids(dom: &LayoutDom, n: usize) -> Vec<usize> {
    LayoutNode::with_layout_node(n, |h: LayoutNode<'_>| {
        let mut out = Vec::new();
        let mut it = h.children(dom);
        while let Some(c) = it.next(dom) {
            out.push(c.get_abstract());
        }
        out
    })
}

fn preorder_ids(dom: &LayoutDom, n: usize) -> Vec<usize> {
    LayoutNode::with_layout_node(n, |h: LayoutNode<'_>| {
        let mut out = Vec::new();
        let mut it = h.traverse_preorder(dom);
        while let Some(c) = it.next() {
            out.push(c.get_abstract());
        }
        out
    })
}

fn run_mut(dom: &LayoutDom, root: usize, pruned: Vec<usize>, refused: Vec<usize>) -> (bool, Vec<usize>) {
    let mut log = NodeLog::new(NodeFilter::new(pruned, refused));
    let r = LayoutNode::with_layout_node(root, |h: LayoutNode<'_>| h.traverse_postorder_mut(dom, &mut log));
    (r, log.order().clone())
}

fn run_read_only(dom: &LayoutDom, root: usize, pruned: Vec<usize>, refused: Vec<usize>) -> bool {
    let filter = NodeFilter::new(pruned, refused);
    LayoutNode::with_layout_node(root, |h: LayoutNode<'_>| h.traverse_postorder(dom, &filter))
}

#[test]
fn preorder_and_postorder_of_plain_tree() {
    let t = simple_tree();
    assert_eq!(preorder_ids(&t.dom, t.root), vec![t.root, t.a, t.x, t.b]);
    assert_eq!(run_mut(&t.dom, t.root, Vec::new(), Vec::new()), (true, vec![t.x, t.a, t.b, t.root]));
}

#[test]
fn children_follow_next_sibling_from_first_child() {
    let t = simple_tree();
    assert_eq!(children_ids(&t.dom, t.root), vec![t.a, t.b]);
    assert_eq!(children_ids(&t.dom, t.a), vec![t.x]);
    assert_eq!(children_ids(&t.dom, t.x), Vec::<usize>::new());
    LayoutNode::with_layout_node(t.root, |h: LayoutNode<'_>| {
        let first = h.first_child(&t.dom).unwrap();
        assert_eq!(first.get_abstract(), t.a);
        let second = first.next_sibling(&t.dom).unwrap();
        assert_eq!(second.get_abstract(), t.b);
        assert!(second.next_sibling(&t.dom).is_none());
        assert_eq!(second.prev_sibling(&t.dom).unwrap().get_abstract(), t.a);
        assert!(first.prev_sibling(&t.dom).is_none());
        assert_eq!(first.parent_node(&t.dom).unwrap().get_abstract(), t.root);
    });
}

/// Root -> [A = Text, B], Root generates `before` content P (inline), linked ahead of A.
fn inline_before_tree(display: Display) -> (LayoutDom, usize, usize, usize, usize) {
    let mut dom = LayoutDom::new();
    let root = dom.add_node(div("root"), None);
    let a = dom.add_node(text("a"), None);
    let b = dom.add_node(div("b"), None);
    let p = dom.add_node(div("before"), Some(PseudoElement::Before));
    dom.append_child(root, a);
    dom.append_child(root, b);
    dom.set_layout_data(root, entry(Some(display), None, Some(p), None));
    LayoutNode::with_layout_node(p, |h: LayoutNode<'_>| {
        let mut ph = h;
        let host = h.new_with_this_lifetime(root);
        let next = h.new_with_this_lifetime(a);
        ph.set_parent_node(&mut dom, &host);
        ph.set_next_sibling(&mut dom, &next);
    });
    (dom, root, a, b, p)
}

#[test]
fn inline_before_content_replaces_leading_text_child() {
    let (dom, root, a, b, p) = inline_before_tree(Display::Inline);
    LayoutNode::with_layout_node(root, |h: LayoutNode<'_>| {
        assert_eq!(h.first_child(&dom).unwrap().get_abstract(), p);
    });
    assert_eq!(children_ids(&dom, root), vec![p, a, b]);
    assert_eq!(preorder_ids(&dom, root), vec![root, p, a, b]);
}

#[test]
fn block_before_content_on_parent_leaves_text_child_first() {
    let (dom, root, a, b, _p) = inline_before_tree(Display::Block);
    assert_eq!(children_ids(&dom, root), vec![a, b]);
}

#[test]
fn block_before_content_surfaces_ahead_of_element_sibling() {
    // Root -> [A, B], B -> [C]; C's entry offers block `before` content P.
    let mut dom = LayoutDom::new();
    let root = dom.add_node(div("root"), None);
    let a = dom.add_node(div("a"), None);
    let b = dom.add_node(div("b"), None);
    let c = dom.add_node(div("c"), None);
    let p = dom.add_node(div("before"), Some(PseudoElement::Before));
    dom.append_child(root, a);
    dom.append_child(root, b);
    dom.append_child(b, c);
    dom.set_layout_data(c, entry(Some(Display::Block), None, Some(p), None));
    LayoutNode::with_layout_node(p, |h: LayoutNode<'_>| {
        let mut ph = h;
        ph.set_next_sibling(&mut dom, &h.new_with_this_lifetime(b));
    });
    // The real first child A is an element: it stays first.
    assert_eq!(children_ids(&dom, root), vec![a, p, b]);
}

#[test]
fn after_content_follows_text_child() {
    // Root -> [A = Text, B]; Root generates inline `after` content Q, linked before B.
    let mut dom = LayoutDom::new();
    let root = dom.add_node(div("root"), None);
    let a = dom.add_node(text("a"), None);
    let b = dom.add_node(div("b"), None);
    let q = dom.add_node(div("after"), Some(PseudoElement::After));
    dom.append_child(root, a);
    dom.append_child(root, b);
    dom.set_layout_data(root, entry(None, Some(Display::Inline), None, Some(q)));
    LayoutNode::with_layout_node(q, |h: LayoutNode<'_>| {
        let mut qh = h;
        qh.set_next_sibling(&mut dom, &h.new_with_this_lifetime(b));
        qh.set_prev_sibling(&mut dom, &h.new_with_this_lifetime(a));
    });
    assert_eq!(children_ids(&dom, root), vec![a, q, b]);
    LayoutNode::with_layout_node(q, |h: LayoutNode<'_>| {
        assert_eq!(h.prev_sibling(&dom).unwrap().get_abstract(), a);
    });
}

#[test]
fn text_accessor_returns_stored_string() {
    let t = simple_tree();
    LayoutNode::with_layout_node(t.x, |h: LayoutNode<'_>| {
        assert_eq!(h.text(&t.dom), "x".to_string());
        assert!(h.is_text(&t.dom));
        assert!(!h.is_element(&t.dom));
        assert_eq!(h.type_id(&t.dom), NodeTypeId::TextNodeTypeId);
    });
}

#[test]
fn pruned_subtree_is_never_processed() {
    let t = simple_tree();
    assert_eq!(run_mut(&t.dom, t.root, vec![t.a], Vec::new()), (true, vec![t.b, t.root]));
    assert_eq!(run_mut(&t.dom, t.root, vec![t.root], Vec::new()), (true, Vec::new()));
    // A refusal inside a pruned subtree is never reached.
    assert!(run_read_only(&t.dom, t.root, vec![t.a], vec![t.x]));
}

#[test]
fn refusal_stops_the_walk() {
    let t = simple_tree();
    assert_eq!(run_mut(&t.dom, t.root, Vec::new(), vec![t.a]), (false, vec![t.x, t.a]));
    assert_eq!(run_mut(&t.dom, t.root, Vec::new(), vec![t.x]), (false, vec![t.x]));
    assert_eq!(run_mut(&t.dom, t.root, Vec::new(), vec![t.root]), (false, vec![t.x, t.a, t.b, t.root]));
}

#[test]
fn read_only_traversal_reports_refusal() {
    let t = simple_tree();
    assert!(run_read_only(&t.dom, t.root, Vec::new(), Vec::new()));
    assert!(!run_read_only(&t.dom, t.root, Vec::new(), vec![t.b]));
    assert!(run_read_only(&t.dom, t.b, Vec::new(), vec![t.a]));
}

#[test]
fn element_view_reads_names_and_attributes() {
    let mut dom = LayoutDom::new();
    let svg_ns = "http://www.w3.org/2000/svg";
    let e = dom.add_node(
        element_with(
            ElementTypeId::HTMLElementTypeId,
            "div",
            vec![attr(None, "id", "main"), attr(Some(svg_ns), "id", "other"), attr(None, "id", "later")],
        ),
        None,
    );
    LayoutNode::with_layout_node(e, |h: LayoutNode<'_>| {
        h.with_element(&dom, |v| {
            assert_eq!(v.get_local_name(), "div");
            assert_eq!(v.get_namespace_url(), "http://www.w3.org/1999/xhtml");
            assert_eq!(v.get_attr(None, "id"), Some("main"));
            assert_eq!(v.get_attr(Some(svg_ns.to_string()), "id"), Some("other"));
            assert_eq!(v.get_attr(None, "class"), None);
            assert_eq!(v.get_link(), None);
            assert_eq!(*v.style_attribute(), None);
        });
    });
}

#[test]
fn link_target_only_for_hyperlink_elements() {
    let mut dom = LayoutDom::new();
    let href = || vec![attr(None, "href", "http://example.org/")];
    let anchor = dom.add_node(element_with(ElementTypeId::HTMLAnchorElementTypeId, "a", href()), None);
    let area = dom.add_node(element_with(ElementTypeId::HTMLAreaElementTypeId, "area", href()), None);
    let link = dom.add_node(element_with(ElementTypeId::HTMLLinkElementTypeId, "link", href()), None);
    let plain = dom.add_node(element_with(ElementTypeId::HTMLElementTypeId, "div", href()), None);
    let bare = dom.add_node(element_with(ElementTypeId::HTMLAnchorElementTypeId, "a", Vec::new()), None);
    let link_of = |n: usize| {
        LayoutNode::with_layout_node(n, |h: LayoutNode<'_>| h.with_element(&dom, |v| v.get_link()))
    };
    assert_eq!(link_of(anchor), Some("http://example.org/".to_string()));
    assert_eq!(link_of(area), Some("http://example.org/".to_string()));
    assert_eq!(link_of(link), Some("http://example.org/".to_string()));
    assert_eq!(link_of(plain), None);
    assert_eq!(link_of(bare), None);
}

#[test]
fn necessary_pseudo_elements_from_parent_styles() {
    let mut dom = LayoutDom::new();
    let root = dom.add_node(div("root"), None);
    let a = dom.add_node(div("a"), None);
    let b = dom.add_node(div("b"), None);
    dom.append_child(root, a);
    dom.append_child(root, b);
    let needed = |dom: &LayoutDom, n: usize| {
        LayoutNode::with_layout_node(n, |h: LayoutNode<'_>| h.necessary_pseudo_elements(dom))
    };
    assert_eq!(needed(&dom, root), Vec::<PseudoElement>::new());
    assert_eq!(needed(&dom, a), Vec::<PseudoElement>::new());
    dom.set_layout_data(root, entry(Some(Display::Inline), Some(Display::Block), None, None));
    assert_eq!(needed(&dom, a), vec![PseudoElement::Before, PseudoElement::After]);
    dom.set_layout_data(a, entry(None, None, Some(b), None));
    assert_eq!(needed(&dom, a), vec![PseudoElement::After]);
    dom.set_layout_data(a, entry(None, None, Some(b), Some(b)));
    assert_eq!(needed(&dom, a), Vec::<PseudoElement>::new());
}

#[test]
fn ignorable_whitespace_is_text_of_white_space_only() {
    let mut dom = LayoutDom::new();
    let blank = dom.add_node(text(" \n\t "), None);
    let empty = dom.add_node(text(""), None);
    let words = dom.add_node(text(" a "), None);
    let e = dom.add_node(div("p"), None);
    let check = |n: usize| LayoutNode::with_layout_node(n, |h: LayoutNode<'_>| h.is_ignorable_whitespace(&dom));
    assert!(check(blank));
    assert!(check(empty));
    assert!(!check(words));
    assert!(!check(e));
}

#[test]
fn image_and_iframe_accessors() {
    let mut dom = LayoutDom::new();
    let img = dom.add_node(
        NodeData::Element(Element {
            type_id: ElementTypeId::HTMLImageElementTypeId,
            tag_name: "img".to_string(),
            namespace: String::new(),
            attrs: Vec::new(),
            style_attribute: Some("width: 10px".to_string()),
            image: Some("http://example.org/a.png".to_string()),
            size: None,
        }),
        None,
    );
    let frame = dom.add_node(
        NodeData::Element(Element {
            type_id: ElementTypeId::HTMLIFrameElementTypeId,
            tag_name: "iframe".to_string(),
            namespace: String::new(),
            attrs: Vec::new(),
            style_attribute: None,
            image: None,
            size: Some(IFrameSize { pipeline_id: PipelineId(3), subpage_id: SubpageId(7) }),
        }),
        None,
    );
    let doc = dom.add_node(NodeData::Document, None);
    LayoutNode::with_layout_node(img, |h: LayoutNode<'_>| {
        assert_eq!(h.image_url(&dom), Some("http://example.org/a.png".to_string()));
        assert_eq!(h.type_id(&dom), NodeTypeId::ElementNodeTypeId(ElementTypeId::HTMLImageElementTypeId));
        h.with_element(&dom, |v| assert_eq!(*v.style_attribute(), Some("width: 10px".to_string())));
        let f = h.new_with_this_lifetime(frame);
        assert_eq!(f.iframe_pipeline_and_subpage_ids(&dom), (PipelineId(3), SubpageId(7)));
        let d = h.new_with_this_lifetime(doc);
        assert!(d.is_document(&dom));
        assert!(!h.is_document(&dom));
    });
}

#[test]
fn linkage_setters_change_only_their_field() {
    let t = simple_tree();
    let mut dom = t.dom;
    LayoutNode::with_layout_node(t.b, |h: LayoutNode<'_>| {
        let mut bh = h;
        let x = h.new_with_this_lifetime(t.x);
        bh.set_first_child(&mut dom, &x);
        bh.set_last_child(&mut dom, &x);
        assert_eq!(bh.get_abstract(), t.b);
        let node = bh.get(&dom);
        assert_eq!(node.first_child, Some(t.x));
        assert_eq!(node.last_child, Some(t.x));
        assert_eq!(node.parent_node, Some(t.root));
        assert_eq!(node.next_sibling, None);
        assert!(h.next_pseudo_sibling(&dom).is_none());
    });
}

#[test]
fn scoped_handle_returns_closure_result() {
    let t = simple_tree();
    let kind = LayoutNode::with_layout_node(t.root, |h: LayoutNode<'_>| h.type_id(&t.dom));
    assert_eq!(kind, NodeTypeId::ElementNodeTypeId(ElementTypeId::HTMLElementTypeId));
}

#[test]
fn pseudo_node_keeps_its_display() {
    let p = LayoutPseudoNode::from_layout_pseudo(4, Display::Block);
    assert_eq!(p.get_display(), Display::Block);
    assert_eq!(p.get_node(), 4);
}

#[test]
fn finite_subtree_check_detects_cycles() {
    let t = simple_tree();
    let mut dom = t.dom;
    let finite = |dom: &LayoutDom, n: usize| LayoutNode::with_layout_node(n, |h: LayoutNode<'_>| h.has_finite_subtree(dom));
    assert!(finite(&dom, t.root));
    assert!(finite(&dom, t.x));
    LayoutNode::with_layout_node(t.b, |h: LayoutNode<'_>| {
        let mut bh = h;
        bh.set_next_sibling(&mut dom, &h.new_with_this_lifetime(t.a));
    });
    assert!(!finite(&dom, t.root));
    assert!(finite(&dom, t.a));
}
