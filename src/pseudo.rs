//! The model of pseudo-aware navigation: which node each step surfaces once
//! generated before/after content is spliced into the real tree.

use vstd::prelude::*;
use crate::dom::{arena_ok, node_refs_in, opt_in, Display, LayoutData, Node, PseudoElement};

verus! {

pub open spec fn is_text_node(d: Seq<Node>, n: usize) -> bool {
    d[n as int].data is Text
}

pub open spec fn is_element_node(d: Seq<Node>, n: usize) -> bool {
    d[n as int].data is Element
}

pub open spec fn style_for(ld: LayoutData, kind: PseudoElement) -> Option<Display> {
    match kind {
        PseudoElement::Before => ld.before_style,
        PseudoElement::After => ld.after_style,
    }
}

pub open spec fn synthesized_for(ld: LayoutData, kind: PseudoElement) -> Option<usize> {
    match kind {
        PseudoElement::Before => ld.before_node,
        PseudoElement::After => ld.after_node,
    }
}

/// The synthesized node that a side-table entry offers for `kind`, provided
/// its content has display `display`.
pub open spec fn offered(entry: Option<LayoutData>, kind: PseudoElement, display: Display) -> Option<usize> {
    match entry {
        Some(ld) => if style_for(ld, kind) == Some(display) {
            synthesized_for(ld, kind)
        } else {
            None
        },
        None => None,
    }
}

/// The generated node that stands in for `n`, if any: for a text node, the
/// inline content its parent generates; for an element, the block content
/// recorded on its first real child; for anything else, none.
pub open spec fn pseudo_node(d: Seq<Node>, n: usize, kind: PseudoElement) -> Option<usize> {
    if is_text_node(d, n) {
        match d[n as int].parent_node {
            Some(p) => offered(d[p as int].layout_data, kind, Display::Inline),
            None => None,
        }
    } else if is_element_node(d, n) {
        match d[n as int].first_child {
            Some(c) => offered(d[c as int].layout_data, kind, Display::Block),
            None => None,
        }
    } else {
        None
    }
}

/// `n`, or the generated node that stands in for it.
pub open spec fn surfaced(d: Seq<Node>, n: usize, kind: PseudoElement) -> usize {
    match pseudo_node(d, n, kind) {
        Some(p) => p,
        None => n,
    }
}

/// The first child that traversal sees.
pub open spec fn first_child_of(d: Seq<Node>, n: usize) -> Option<usize> {
    match d[n as int].first_child {
        Some(c) => if is_text_node(d, c) {
            Some(surfaced(d, c, PseudoElement::Before))
        } else {
            Some(c)
        },
        None => None,
    }
}

/// A synthesized node, or a text node inside one: its siblings are read
/// from the plain linkage.
pub open spec fn in_generated_content(d: Seq<Node>, n: usize) -> bool {
    ||| d[n as int].pseudo is Some
    ||| is_text_node(d, n) && match d[n as int].parent_node {
        Some(p) => d[p as int].pseudo is Some,
        None => false,
    }
}

/// The next sibling that traversal sees.
pub open spec fn next_sibling_of(d: Seq<Node>, n: usize) -> Option<usize> {
    if in_generated_content(d, n) {
        d[n as int].next_sibling
    } else if pseudo_node(d, n, PseudoElement::After) is Some {
        pseudo_node(d, n, PseudoElement::After)
    } else {
        match d[n as int].next_sibling {
            Some(s) => Some(surfaced(d, s, PseudoElement::Before)),
            None => None,
        }
    }
}

/// The previous sibling that traversal sees.
pub open spec fn prev_sibling_of(d: Seq<Node>, n: usize) -> Option<usize> {
    if in_generated_content(d, n) {
        d[n as int].prev_sibling
    } else if pseudo_node(d, n, PseudoElement::Before) is Some {
        pseudo_node(d, n, PseudoElement::Before)
    } else {
        match d[n as int].prev_sibling {
            Some(s) => Some(surfaced(d, s, PseudoElement::After)),
            None => None,
        }
    }
}

/// The side-table entry of `n`, with a missing entry read as an empty one.
pub open spec fn entry_or_empty(d: Seq<Node>, n: usize) -> LayoutData {
    match d[n as int].layout_data {
        Some(ld) => ld,
        None => LayoutData { before_style: None, after_style: None, before_node: None, after_node: None },
    }
}

/// The generated content that `n` still lacks: each kind its parent has a
/// style for but `n` has no synthesized node for, before first.
pub open spec fn needed_pseudo_elements(d: Seq<Node>, n: usize) -> Seq<PseudoElement> {
    match d[n as int].parent_node {
        None => Seq::empty(),
        Some(p) => {
            let mine = entry_or_empty(d, n);
            let theirs = entry_or_empty(d, p);
            let b = if theirs.before_style is Some && mine.before_node is None {
                seq![PseudoElement::Before]
            } else {
                Seq::empty()
            };
            let a = if theirs.after_style is Some && mine.after_node is None {
                seq![PseudoElement::After]
            } else {
                Seq::empty()
            };
            b + a
        },
    }
}

/// Every navigation step from a node of a well-formed arena stays inside it.
pub proof fn lemma_steps_in_arena(d: Seq<Node>, n: usize)
    requires
        arena_ok(d),
        n < d.len(),
    ensures
        opt_in(pseudo_node(d, n, PseudoElement::Before), d.len() as int),
        opt_in(pseudo_node(d, n, PseudoElement::After), d.len() as int),
        opt_in(first_child_of(d, n), d.len() as int),
        opt_in(next_sibling_of(d, n), d.len() as int),
        opt_in(prev_sibling_of(d, n), d.len() as int),
        node_refs_in(d[n as int], d.len() as int),
{
    let len = d.len() as int;
    assert(node_refs_in(d[n as int], len));
    assert forall|m: usize, kind: PseudoElement| m < d.len() implies opt_in(#[trigger] pseudo_node(d, m, kind), len) by {
        assert(node_refs_in(d[m as int], len));
        if let Some(p) = d[m as int].parent_node {
            assert(node_refs_in(d[p as int], len));
        }
        if let Some(c) = d[m as int].first_child {
            assert(node_refs_in(d[c as int], len));
        }
    }
    if let Some(c) = d[n as int].first_child {
        assert(opt_in(pseudo_node(d, c, PseudoElement::Before), len));
    }
    if let Some(s) = d[n as int].next_sibling {
        assert(opt_in(pseudo_node(d, s, PseudoElement::Before), len));
    }
    if let Some(s) = d[n as int].prev_sibling {
        assert(opt_in(pseudo_node(d, s, PseudoElement::After), len));
    }
}

/// Inline content generated before a node's children takes the place of a
/// leading text child: when the real first child `n` of `p` is text and `p`
/// generates inline "before" content with a synthesized node `b`, the first
/// child that traversal sees is `b`, not `n`.
pub proof fn lemma_inline_before_replaces_text(d: Seq<Node>, p: usize, n: usize, ld: LayoutData, b: usize)
    requires
        p < d.len(),
        n < d.len(),
        d[p as int].first_child == Some(n),
        d[n as int].parent_node == Some(p),
        d[n as int].data is Text,
        d[p as int].layout_data == Some(ld),
        ld.before_style == Some(Display::Inline),
        ld.before_node == Some(b),
    ensures
        first_child_of(d, p) == Some(b),
        b != n ==> first_child_of(d, p) != Some(n),
{
}

} // verus!
