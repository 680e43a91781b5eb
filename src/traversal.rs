//! Traversals over the pseudo-aware tree: the children iterator, the
//! preorder iterator, and the postorder protocol with pruning and early stop.

use vstd::prelude::*;
use crate::dom::{opt_in, LayoutDom, Node};
use crate::node::{opt_ids, LayoutNode};
use crate::pseudo::{first_child_of, lemma_steps_in_arena, next_sibling_of};

verus! {

/// The sibling chain from `cur`, at most `fuel` long.
pub open spec fn chain_from(d: Seq<Node>, cur: Option<usize>, fuel: nat) -> Seq<usize>
    decreases fuel,
{
    match cur {
        None => Seq::empty(),
        Some(c) => if fuel == 0 {
            Seq::empty()
        } else {
            seq![c] + chain_from(d, next_sibling_of(d, c), (fuel - 1) as nat)
        },
    }
}

/// The sibling chain from `cur` ends within `fuel` steps.
pub open spec fn chain_ends(d: Seq<Node>, cur: Option<usize>, fuel: nat) -> bool
    decreases fuel,
{
    match cur {
        None => true,
        Some(c) => fuel > 0 && chain_ends(d, next_sibling_of(d, c), (fuel - 1) as nat),
    }
}

/// The children of `n` as traversal sees them.
pub open spec fn children_of(d: Seq<Node>, n: usize) -> Seq<usize> {
    chain_from(d, first_child_of(d, n), d.len() as nat)
}

/// The children of `n` form a finite chain, no longer than the arena.
pub open spec fn children_end(d: Seq<Node>, n: usize) -> bool {
    chain_ends(d, first_child_of(d, n), d.len() as nat)
}

/// Below `n` every chain of children ends and no path descends more than
/// `fuel` levels.
pub open spec fn bounded_below(d: Seq<Node>, n: usize, fuel: nat) -> bool
    decreases fuel,
{
    if fuel == 0 {
        false
    } else {
        &&& children_end(d, n)
        &&& forall|i: int|
            0 <= i < children_of(d, n).len() ==> bounded_below(
                d,
                #[trigger] children_of(d, n)[i],
                (fuel - 1) as nat,
            )
    }
}

/// The subtree of `n` is finite: the condition for traversing it.
pub open spec fn finite_below(d: Seq<Node>, n: usize) -> bool {
    bounded_below(d, n, d.len() as nat)
}

/// The nodes of the subtree of `n` that are not cut off by `pruned`, in
/// postorder (`post`) or preorder; a pruned node hides its whole subtree.
pub open spec fn walk(d: Seq<Node>, n: usize, fuel: nat, pruned: spec_fn(usize) -> bool, post: bool) -> Seq<usize>
    decreases fuel, 0nat,
{
    if fuel == 0 || pruned(n) {
        Seq::empty()
    } else {
        let below = walk_all(d, children_of(d, n), (fuel - 1) as nat, pruned, post);
        if post {
            below.push(n)
        } else {
            seq![n] + below
        }
    }
}

/// The walks of the nodes `ks`, one after the other.
pub open spec fn walk_all(d: Seq<Node>, ks: Seq<usize>, fuel: nat, pruned: spec_fn(usize) -> bool, post: bool) -> Seq<usize>
    decreases fuel, ks.len(),
{
    if ks.len() == 0 {
        Seq::empty()
    } else {
        walk_all(d, ks.drop_last(), fuel, pruned, post) + walk(d, ks.last(), fuel, pruned, post)
    }
}

pub open spec fn no_pruning() -> spec_fn(usize) -> bool {
    |x: usize| false
}

/// The whole subtree of `n` in preorder.
pub open spec fn preorder_of(d: Seq<Node>, n: usize) -> Seq<usize> {
    walk(d, n, d.len() as nat, no_pruning(), false)
}

/// The subtree of `n` in postorder, without what `pruned` cuts off.
pub open spec fn postorder_of(d: Seq<Node>, n: usize, pruned: spec_fn(usize) -> bool) -> Seq<usize> {
    walk(d, n, d.len() as nat, pruned, true)
}

pub open spec fn is_prefix(a: Seq<usize>, b: Seq<usize>) -> bool {
    a.len() <= b.len() && forall|i: int| 0 <= i < a.len() ==> a[i] == b[i]
}

/// `out` records the calls of `process` of a walk in `order` that ended with
/// result `r`: the nodes in order, every call but the last accepted, the
/// whole order visited exactly when `r` holds, and otherwise the last call
/// refused.
pub open spec fn ran_in_order(order: Seq<usize>, out: Seq<(usize, bool)>, r: bool) -> bool {
    &&& out.len() <= order.len()
    &&& forall|i: int| 0 <= i < out.len() ==> #[trigger] out[i].0 == order[i]
    &&& forall|i: int| 0 <= i < out.len() - 1 ==> #[trigger] out[i].1
    &&& if r {
        out.len() == order.len() && forall|i: int| 0 <= i < out.len() ==> #[trigger] out[i].1
    } else {
        out.len() > 0 && !out.last().1
    }
}

/// The sibling chain from `cur` is what repeated `next_sibling_of` yields,
/// starting at `cur`, and it stops where `next_sibling_of` gives nothing.
pub proof fn lemma_chain_steps(d: Seq<Node>, cur: Option<usize>, fuel: nat)
    requires
        chain_ends(d, cur, fuel),
    ensures
        ({
            let s = chain_from(d, cur, fuel);
            &&& s.len() <= fuel
            &&& (s.len() == 0 <==> cur is None)
            &&& s.len() > 0 ==> Some(s[0]) == cur
            &&& forall|i: int| 0 <= i < s.len() - 1 ==> next_sibling_of(d, #[trigger] s[i]) == Some(s[i + 1])
            &&& s.len() > 0 ==> next_sibling_of(d, s.last()) is None
        }),
    decreases fuel,
{
    match cur {
        None => {},
        Some(c) => {
            let next = next_sibling_of(d, c);
            lemma_chain_steps(d, next, (fuel - 1) as nat);
            let s = chain_from(d, cur, fuel);
            let t = chain_from(d, next, (fuel - 1) as nat);
            assert(s == seq![c] + t);
            assert forall|i: int| 0 <= i < s.len() - 1 implies next_sibling_of(d, #[trigger] s[i]) == Some(s[i + 1]) by {
                if i > 0 {
                    assert(s[i] == t[i - 1]);
                    assert(s[i + 1] == t[i]);
                }
            }
        },
    }
}

/// The children of a node are exactly the chain that starts at its first
/// child and follows `next_sibling`, and that chain is finite: no longer
/// than the arena.
pub proof fn lemma_children_sequence(d: Seq<Node>, n: usize)
    requires
        children_end(d, n),
    ensures
        children_of(d, n).len() <= d.len(),
        children_of(d, n).len() == 0 <==> first_child_of(d, n) is None,
        children_of(d, n).len() > 0 ==> Some(children_of(d, n)[0]) == first_child_of(d, n),
        forall|i: int|
            0 <= i < children_of(d, n).len() - 1 ==> next_sibling_of(d, #[trigger] children_of(d, n)[i])
                == Some(children_of(d, n)[i + 1]),
        children_of(d, n).len() > 0 ==> next_sibling_of(d, children_of(d, n).last()) is None,
{
    lemma_chain_steps(d, first_child_of(d, n), d.len() as nat);
}

/// One more node's walk extends the walks of the nodes before it.
pub proof fn lemma_walk_all_step(
    d: Seq<Node>,
    ks: Seq<usize>,
    j: int,
    fuel: nat,
    pruned: spec_fn(usize) -> bool,
    post: bool,
)
    requires
        0 <= j < ks.len(),
    ensures
        walk_all(d, ks.take(j + 1), fuel, pruned, post) == walk_all(d, ks.take(j), fuel, pruned, post)
            + walk(d, ks[j], fuel, pruned, post),
{
    assert(ks.take(j + 1).drop_last() =~= ks.take(j));
    assert(ks.take(j + 1).last() == ks[j]);
}

/// The walks of the first `j` nodes begin the walks of all of them.
pub proof fn lemma_walk_all_prefix(
    d: Seq<Node>,
    ks: Seq<usize>,
    j: int,
    fuel: nat,
    pruned: spec_fn(usize) -> bool,
    post: bool,
)
    requires
        0 <= j <= ks.len(),
    ensures
        is_prefix(walk_all(d, ks.take(j), fuel, pruned, post), walk_all(d, ks, fuel, pruned, post)),
    decreases ks.len() - j,
{
    if j == ks.len() {
        assert(ks.take(j) =~= ks);
    } else {
        lemma_walk_all_step(d, ks, j, fuel, pruned, post);
        lemma_walk_all_prefix(d, ks, j + 1, fuel, pruned, post);
    }
}

/// A node's walk, placed where it stands among the walks of its siblings.
pub proof fn lemma_walk_all_slot(
    d: Seq<Node>,
    ks: Seq<usize>,
    j: int,
    fuel: nat,
    pruned: spec_fn(usize) -> bool,
    post: bool,
)
    requires
        0 <= j < ks.len(),
    ensures
        ({
            let before = walk_all(d, ks.take(j), fuel, pruned, post);
            let mine = walk(d, ks[j], fuel, pruned, post);
            let all = walk_all(d, ks, fuel, pruned, post);
            &&& before.len() + mine.len() <= all.len()
            &&& forall|k: int| 0 <= k < before.len() ==> #[trigger] all[k] == before[k]
            &&& forall|k: int| 0 <= k < mine.len() ==> all[before.len() + k] == #[trigger] mine[k]
        }),
{
    lemma_walk_all_step(d, ks, j, fuel, pruned, post);
    lemma_walk_all_prefix(d, ks, j + 1, fuel, pruned, post);
    let before = walk_all(d, ks.take(j), fuel, pruned, post);
    let mine = walk(d, ks[j], fuel, pruned, post);
    let upto = walk_all(d, ks.take(j + 1), fuel, pruned, post);
    let all = walk_all(d, ks, fuel, pruned, post);
    assert forall|k: int| 0 <= k < mine.len() implies all[before.len() + k] == #[trigger] mine[k] by {
        assert(upto[before.len() + k] == mine[k]);
    }
    assert forall|k: int| 0 <= k < before.len() implies #[trigger] all[k] == before[k] by {
        assert(upto[k] == before[k]);
    }
}

/// Each child of a node bounded below at `fuel` is bounded below one level less.
pub proof fn lemma_bounded_child(d: Seq<Node>, n: usize, fuel: nat, i: int)
    requires
        bounded_below(d, n, fuel),
        0 <= i < children_of(d, n).len(),
    ensures
        fuel > 0,
        bounded_below(d, children_of(d, n)[i], (fuel - 1) as nat),
{
    let ks = children_of(d, n);
    assert(ks[i] == children_of(d, n)[i]);
}

/// A children iterator: the child it yields next, if any.
pub struct LayoutNodeChildrenIterator<'a> {
    current_node: Option<LayoutNode<'a>>,
}

impl<'a> View for LayoutNodeChildrenIterator<'a> {
    type V = Option<usize>;

    closed spec fn view(&self) -> Option<usize> {
        opt_ids(self.current_node)
    }
}

impl<'a> LayoutNodeChildrenIterator<'a> {
    /// Yields the current child and moves on to its next sibling.
    pub fn next(&mut self, dom: &LayoutDom) -> (r: Option<LayoutNode<'a>>)
        requires
            dom.wf(),
            opt_in(old(self)@, dom@.len() as int),
        ensures
            opt_ids(r) == old(self)@,
            final(self)@ == match old(self)@ {
                Some(n) => next_sibling_of(dom@, n),
                None => None,
            },
            opt_in(final(self)@, dom@.len() as int),
    {
        let node = self.current_node;
        match node {
            Some(n) => {
                proof {
                    lemma_steps_in_arena(dom@, n@);
                }
                self.current_node = n.next_sibling(dom);
            },
            None => {},
        }
        node
    }
}

/// The nodes of a subtree, gathered in advance and handed out in order.
pub struct LayoutTreeIterator<'a> {
    nodes: Vec<LayoutNode<'a>>,
    index: usize,
}

pub open spec fn handle_ids<'a>(hs: Seq<LayoutNode<'a>>) -> Seq<usize> {
    hs.map_values(|h: LayoutNode<'a>| h@)
}

impl<'a> View for LayoutTreeIterator<'a> {
    type V = (Seq<usize>, int);

    closed spec fn view(&self) -> (Seq<usize>, int) {
        (handle_ids(self.nodes@), self.index as int)
    }
}

impl<'a> LayoutTreeIterator<'a> {
    pub closed spec fn wf(&self) -> bool {
        self.index <= self.nodes@.len()
    }

    fn new(nodes: Vec<LayoutNode<'a>>) -> (r: LayoutTreeIterator<'a>)
        ensures
            r@ == (handle_ids(nodes@), 0int),
            r.wf(),
    {
        LayoutTreeIterator { nodes, index: 0 }
    }

    /// The next gathered node, if any is left.
    pub fn next(&mut self) -> (r: Option<LayoutNode<'a>>)
        requires
            old(self).wf(),
        ensures
            final(self).wf(),
            final(self)@.0 == old(self)@.0,
            if old(self)@.1 < old(self)@.0.len() {
                &&& r is Some
                &&& r->Some_0@ == old(self)@.0[old(self)@.1]
                &&& final(self)@.1 == old(self)@.1 + 1
            } else {
                r is None && final(self)@.1 == old(self)@.1
            },
    {
        if self.index >= self.nodes.len() {
            None
        } else {
            let v = self.nodes[self.index];
            self.index = self.index + 1;
            Some(v)
        }
    }
}

/// Appends the walk of `cur` (no pruning) to `refs`.
fn gather_layout_nodes<'a>(
    cur: &LayoutNode<'a>,
    dom: &LayoutDom,
    refs: &mut Vec<LayoutNode<'a>>,
    postorder: bool,
    Ghost(fuel): Ghost<nat>,
)
    requires
        dom.wf(),
        dom.valid(cur@),
        bounded_below(dom@, cur@, fuel),
    ensures
        handle_ids(final(refs)@) == handle_ids(old(refs)@) + walk(dom@, cur@, fuel, no_pruning(), postorder),
    decreases fuel,
{
    let ghost d = dom@;
    let ghost ks = children_of(d, cur@);
    let ghost start = handle_ids(refs@);
    proof {
        lemma_children_sequence(d, cur@);
    }
    if !postorder {
        refs.push(*cur);
        proof {
            assert(handle_ids(refs@) =~= start.push(cur@));
        }
    }
    let ghost base = handle_ids(refs@);
    let mut it = cur.children(dom);
    let ghost mut i: int = 0;
    proof {
        assert(walk_all(d, ks.take(0), (fuel - 1) as nat, no_pruning(), postorder) =~= Seq::<usize>::empty());
        assert(handle_ids(refs@) =~= base + Seq::<usize>::empty());
        lemma_steps_in_arena(d, cur@);
    }
    loop
        invariant
            dom.wf(),
            d == dom@,
            fuel > 0,
            bounded_below(d, cur@, fuel),
            ks == children_of(d, cur@),
            children_end(d, cur@),
            0 <= i <= ks.len(),
            it@ == (if i < ks.len() { Some(ks[i]) } else { None::<usize> }),
            opt_in(it@, d.len() as int),
            handle_ids(refs@) == base + walk_all(d, ks.take(i), (fuel - 1) as nat, no_pruning(), postorder),
            forall|k: int| 0 <= k < ks.len() - 1 ==> next_sibling_of(d, #[trigger] ks[k]) == Some(ks[k + 1]),
            ks.len() > 0 ==> next_sibling_of(d, ks.last()) is None,
        ensures
            i == ks.len(),
            handle_ids(refs@) == base + walk_all(d, ks.take(i), (fuel - 1) as nat, no_pruning(), postorder),
        decreases ks.len() - i,
    {
        let kid = it.next(dom);
        match kid {
            None => break,
            Some(kid) => {
                proof {
                    lemma_bounded_child(d, cur@, fuel, i);
                    lemma_walk_all_step(d, ks, i, (fuel - 1) as nat, no_pruning(), postorder);
                }
                gather_layout_nodes(&kid, dom, refs, postorder, Ghost((fuel - 1) as nat));
                proof {
                    i = i + 1;
                }
            },
        }
    }
    proof {
        assert(ks.take(i) =~= ks);
    }
    if postorder {
        let ghost before_push = handle_ids(refs@);
        refs.push(*cur);
        proof {
            assert(handle_ids(refs@) =~= before_push.push(cur@));
        }
    }
    proof {
        assert(handle_ids(refs@) =~= start + walk(d, cur@, fuel, no_pruning(), postorder));
    }
}

impl<'ln> LayoutNode<'ln> {
    /// An iterator over this node's children, generated content included.
    pub fn children(&self, dom: &LayoutDom) -> (r: LayoutNodeChildrenIterator<'ln>)
        requires
            dom.wf(),
            dom.valid(self@),
        ensures
            r@ == first_child_of(dom@, self@),
            opt_in(r@, dom@.len() as int),
    {
        proof {
            lemma_steps_in_arena(dom@, self@);
        }
        LayoutNodeChildrenIterator { current_node: self.first_child(dom) }
    }

    /// This node and all below it, in preorder.
    pub fn traverse_preorder(&self, dom: &LayoutDom) -> (r: LayoutTreeIterator<'ln>)
        requires
            dom.wf(),
            dom.valid(self@),
            finite_below(dom@, self@),
        ensures
            r.wf(),
            r@ == (preorder_of(dom@, self@), 0int),
    {
        let mut nodes: Vec<LayoutNode<'ln>> = Vec::new();
        gather_layout_nodes(self, dom, &mut nodes, false, Ghost(dom@.len() as nat));
        proof {
            assert(handle_ids(Seq::<LayoutNode<'ln>>::empty()) =~= Seq::<usize>::empty());
            assert(handle_ids(nodes@) =~= preorder_of(dom@, self@));
        }
        LayoutTreeIterator::new(nodes)
    }
}

/// A bottom-up traversal that reads and decides. `process` answers with
/// `accepts` (true to go on, false to stop) and `should_prune` with `prunes`.
pub trait PostorderNodeTraversal {
    spec fn prunes(&self, node: usize) -> bool;

    spec fn accepts(&self, node: usize) -> bool;

    /// The operation to perform. Return true to continue or false to stop.
    fn process(&self, dom: &LayoutDom, node: LayoutNode) -> (r: bool)
        requires
            dom.wf(),
            dom.valid(node@),
        ensures
            r == self.accepts(node@),
    ;

    /// True if this node and everything below it is to be skipped; asked
    /// before the node's children are visited.
    fn should_prune(&self, dom: &LayoutDom, node: LayoutNode) -> (r: bool)
        requires
            dom.wf(),
            dom.valid(node@),
        ensures
            r == self.prunes(node@),
    ;
}

/// A bottom-up traversal that changes its own state. Each call of `process`
/// is recorded in `outcomes`, with its answer; processing never changes what
/// is pruned.
pub trait PostorderNodeMutTraversal {
    spec fn prunes(&self, node: usize) -> bool;

    spec fn outcomes(&self) -> Seq<(usize, bool)>;

    /// The operation to perform. Return true to continue or false to stop.
    fn process(&mut self, dom: &LayoutDom, node: LayoutNode) -> (r: bool)
        requires
            dom.wf(),
            dom.valid(node@),
        ensures
            final(self).outcomes() == old(self).outcomes().push((node@, r)),
            forall|x: usize| #[trigger] final(self).prunes(x) == old(self).prunes(x),
    ;

    /// True if this node and everything below it is to be skipped; asked
    /// before the node's children are visited.
    fn should_prune(&self, dom: &LayoutDom, node: LayoutNode) -> (r: bool)
        requires
            dom.wf(),
            dom.valid(node@),
        ensures
            r == self.prunes(node@),
    ;
}

pub open spec fn pruned_by<T: PostorderNodeTraversal>(t: T) -> spec_fn(usize) -> bool {
    |x: usize| t.prunes(x)
}

pub open spec fn pruned_by_mut<T: PostorderNodeMutTraversal>(t: T) -> spec_fn(usize) -> bool {
    |x: usize| t.prunes(x)
}

/// Every node of `order` is accepted by `t`.
pub open spec fn all_accepted<T: PostorderNodeTraversal>(t: T, order: Seq<usize>) -> bool {
    forall|i: int| 0 <= i < order.len() ==> t.accepts(#[trigger] order[i])
}

/// The calls that each accepted the node of `order` at the same place.
pub open spec fn accepted_in_order(order: Seq<usize>) -> Seq<(usize, bool)> {
    order.map_values(|x: usize| (x, true))
}

fn postorder_walk<T: PostorderNodeTraversal>(
    node: LayoutNode,
    dom: &LayoutDom,
    traversal: &T,
    Ghost(fuel): Ghost<nat>,
) -> (r: bool)
    requires
        dom.wf(),
        dom.valid(node@),
        bounded_below(dom@, node@, fuel),
    ensures
        r == all_accepted(*traversal, walk(dom@, node@, fuel, pruned_by(*traversal), true)),
    decreases fuel,
{
    let ghost d = dom@;
    let ghost pruned = pruned_by(*traversal);
    if traversal.should_prune(dom, node) {
        return true;
    }
    let ghost ks = children_of(d, node@);
    proof {
        lemma_children_sequence(d, node@);
        lemma_steps_in_arena(d, node@);
    }
    let mut opt_kid = node.first_child(dom);
    let ghost mut i: int = 0;
    loop
        invariant
            dom.wf(),
            d == dom@,
            pruned == pruned_by(*traversal),
            bounded_below(d, node@, fuel),
            ks == children_of(d, node@),
            0 <= i <= ks.len(),
            opt_ids(opt_kid) == (if i < ks.len() { Some(ks[i]) } else { None::<usize> }),
            forall|k: int| 0 <= k < ks.len() - 1 ==> next_sibling_of(d, #[trigger] ks[k]) == Some(ks[k + 1]),
            ks.len() > 0 ==> next_sibling_of(d, ks.last()) is None,
            opt_in(opt_ids(opt_kid), d.len() as int),
            !traversal.prunes(node@),
            all_accepted(*traversal, walk_all(d, ks.take(i), (fuel - 1) as nat, pruned, true)),
        ensures
            i == ks.len(),
            all_accepted(*traversal, walk_all(d, ks.take(i), (fuel - 1) as nat, pruned, true)),
        decreases ks.len() - i,
    {
        match opt_kid {
            None => break,
            Some(kid) => {
                proof {
                    lemma_bounded_child(d, node@, fuel, i);
                    lemma_walk_all_step(d, ks, i, (fuel - 1) as nat, pruned, true);
                    lemma_steps_in_arena(d, kid@);
                }
                let ok = postorder_walk(kid, dom, traversal, Ghost((fuel - 1) as nat));
                if !ok {
                    proof {
                        lemma_walk_all_slot(d, ks, i, (fuel - 1) as nat, pruned, true);
                        let mine = walk(d, ks[i], (fuel - 1) as nat, pruned, true);
                        let before = walk_all(d, ks.take(i), (fuel - 1) as nat, pruned, true);
                        let all = walk_all(d, ks, (fuel - 1) as nat, pruned, true);
                        let k = choose|k: int| 0 <= k < mine.len() && !traversal.accepts(#[trigger] mine[k]);
                        assert(all[before.len() + k] == mine[k]);
                        let whole = walk(d, node@, fuel, pruned, true);
                        assert(!pruned(node@));
                        assert(whole == all.push(node@));
                        assert(whole[before.len() + k] == mine[k]);
                    }
                    return false;
                }
                opt_kid = kid.next_sibling(dom);
                proof {
                    i = i + 1;
                    let w = walk_all(d, ks.take(i), (fuel - 1) as nat, pruned, true);
                    let before = walk_all(d, ks.take(i - 1), (fuel - 1) as nat, pruned, true);
                    let mine = walk(d, ks[i - 1], (fuel - 1) as nat, pruned, true);
                    assert forall|k: int| 0 <= k < w.len() implies traversal.accepts(#[trigger] w[k]) by {
                        if k < before.len() {
                            assert(w[k] == before[k]);
                        } else {
                            assert(w[k] == mine[k - before.len()]);
                        }
                    }
                }
            },
        }
    }
    let ok = traversal.process(dom, node);
    proof {
        assert(!pruned(node@));
        assert(ks.take(i) =~= ks);
        let whole = walk(d, node@, fuel, pruned, true);
        let all = walk_all(d, ks, (fuel - 1) as nat, pruned, true);
        assert(whole == all.push(node@));
        if !ok {
            assert(!traversal.accepts(whole[whole.len() - 1]));
        } else {
            assert forall|k: int| 0 <= k < whole.len() implies traversal.accepts(#[trigger] whole[k]) by {
                if k < all.len() {
                    assert(whole[k] == all[k]);
                }
            }
        }
    }
    ok
}

impl<'ln> LayoutNode<'ln> {
    /// Traverses the tree below this node in postorder; the result is false
    /// exactly when some node of the walk is refused.
    pub fn traverse_postorder<T: PostorderNodeTraversal>(self, dom: &LayoutDom, traversal: &T) -> (r: bool)
        requires
            dom.wf(),
            dom.valid(self@),
            finite_below(dom@, self@),
        ensures
            r == all_accepted(*traversal, postorder_of(dom@, self@, pruned_by(*traversal))),
    {
        postorder_walk(self, dom, traversal, Ghost(dom@.len() as nat))
    }
}

/// The calls that one walk added to a record that held `before`.
pub open spec fn added_since(before: Seq<(usize, bool)>, after: Seq<(usize, bool)>) -> Seq<(usize, bool)> {
    after.subrange(before.len() as int, after.len() as int)
}

/// `after` keeps `before` as it was and only adds to it.
pub open spec fn extends(before: Seq<(usize, bool)>, after: Seq<(usize, bool)>) -> bool {
    before.len() <= after.len() && after.subrange(0, before.len() as int) == before
}

fn postorder_walk_mut<T: PostorderNodeMutTraversal>(
    node: LayoutNode,
    dom: &LayoutDom,
    traversal: &mut T,
    Ghost(fuel): Ghost<nat>,
    Ghost(pruned): Ghost<spec_fn(usize) -> bool>,
) -> (r: bool)
    requires
        dom.wf(),
        dom.valid(node@),
        bounded_below(dom@, node@, fuel),
        forall|x: usize| #[trigger] old(traversal).prunes(x) == pruned(x),
    ensures
        forall|x: usize| #[trigger] final(traversal).prunes(x) == pruned(x),
        extends(old(traversal).outcomes(), final(traversal).outcomes()),
        ran_in_order(
            walk(dom@, node@, fuel, pruned, true),
            added_since(old(traversal).outcomes(), final(traversal).outcomes()),
            r,
        ),
    decreases fuel,
{
    let ghost d = dom@;
    let ghost base = traversal.outcomes();
    if traversal.should_prune(dom, node) {
        proof {
            assert(added_since(base, traversal.outcomes()) =~= Seq::<(usize, bool)>::empty());
            assert(traversal.outcomes().subrange(0, base.len() as int) =~= base);
        }
        return true;
    }
    let ghost ks = children_of(d, node@);
    proof {
        lemma_children_sequence(d, node@);
        lemma_steps_in_arena(d, node@);
        assert(ks.take(0) =~= Seq::<usize>::empty());
        assert(accepted_in_order(walk_all(d, ks.take(0), (fuel - 1) as nat, pruned, true)) =~= Seq::<(usize, bool)>::empty());
        assert(traversal.outcomes() =~= base + Seq::<(usize, bool)>::empty());
    }
    let mut opt_kid = node.first_child(dom);
    let ghost mut i: int = 0;
    loop
        invariant
            dom.wf(),
            d == dom@,
            bounded_below(d, node@, fuel),
            ks == children_of(d, node@),
            0 <= i <= ks.len(),
            opt_ids(opt_kid) == (if i < ks.len() { Some(ks[i]) } else { None::<usize> }),
            forall|k: int| 0 <= k < ks.len() - 1 ==> next_sibling_of(d, #[trigger] ks[k]) == Some(ks[k + 1]),
            ks.len() > 0 ==> next_sibling_of(d, ks.last()) is None,
            opt_in(opt_ids(opt_kid), d.len() as int),
            !pruned(node@),
            base == old(traversal).outcomes(),
            forall|x: usize| #[trigger] traversal.prunes(x) == pruned(x),
            traversal.outcomes() == base + accepted_in_order(walk_all(d, ks.take(i), (fuel - 1) as nat, pruned, true)),
        ensures
            i == ks.len(),
            forall|x: usize| #[trigger] traversal.prunes(x) == pruned(x),
            traversal.outcomes() == base + accepted_in_order(walk_all(d, ks.take(i), (fuel - 1) as nat, pruned, true)),
        decreases ks.len() - i,
    {
        match opt_kid {
            None => break,
            Some(kid) => {
                let ghost prev = traversal.outcomes();
                proof {
                    lemma_bounded_child(d, node@, fuel, i);
                    lemma_walk_all_step(d, ks, i, (fuel - 1) as nat, pruned, true);
                    lemma_walk_all_slot(d, ks, i, (fuel - 1) as nat, pruned, true);
                    lemma_steps_in_arena(d, kid@);
                }
                let ok = postorder_walk_mut(kid, dom, traversal, Ghost((fuel - 1) as nat), Ghost(pruned));
                let ghost before = walk_all(d, ks.take(i), (fuel - 1) as nat, pruned, true);
                let ghost mine = walk(d, ks[i], (fuel - 1) as nat, pruned, true);
                let ghost all = walk_all(d, ks, (fuel - 1) as nat, pruned, true);
                let ghost added = added_since(prev, traversal.outcomes());
                proof {
                    assert(traversal.outcomes() =~= prev + added);
                }
                if !ok {
                    proof {
                        let whole = walk(d, node@, fuel, pruned, true);
                        assert(whole == all.push(node@));
                        let acc = accepted_in_order(before);
                        let total = added_since(base, traversal.outcomes());
                        assert(total =~= acc + added);
                        assert forall|j: int| 0 <= j < total.len() implies #[trigger] total[j].0 == whole[j] by {
                            if j < acc.len() {
                                assert(all[j] == before[j]);
                            } else {
                                assert(total[j] == added[j - acc.len()]);
                                assert(all[before.len() + (j - acc.len())] == mine[j - acc.len()]);
                            }
                        }
                        assert forall|j: int| 0 <= j < total.len() - 1 implies #[trigger] total[j].1 by {
                            if j >= acc.len() {
                                assert(total[j] == added[j - acc.len()]);
                            }
                        }
                        assert(traversal.outcomes().subrange(0, base.len() as int) =~= base);
                    }
                    return false;
                }
                opt_kid = kid.next_sibling(dom);
                proof {
                    assert forall|j: int| 0 <= j < added.len() implies added[j] == #[trigger] accepted_in_order(mine)[j] by {
                        assert(added[j].0 == mine[j]);
                        assert(added[j].1);
                    }
                    assert(added =~= accepted_in_order(mine));
                    i = i + 1;
                    assert(accepted_in_order(before + mine) =~= accepted_in_order(before) + accepted_in_order(mine));
                    assert(traversal.outcomes() =~= base + accepted_in_order(walk_all(d, ks.take(i), (fuel - 1) as nat, pruned, true)));
                }
            },
        }
    }
    let ghost prev = traversal.outcomes();
    let ok = traversal.process(dom, node);
    proof {
        assert(ks.take(i) =~= ks);
        let whole = walk(d, node@, fuel, pruned, true);
        let all = walk_all(d, ks, (fuel - 1) as nat, pruned, true);
        assert(whole == all.push(node@));
        let total = added_since(base, traversal.outcomes());
        assert(total =~= accepted_in_order(all).push((node@, ok)));
        assert forall|j: int| 0 <= j < total.len() implies #[trigger] total[j].0 == whole[j] by {
            if j < all.len() {
                assert(total[j] == accepted_in_order(all)[j]);
            }
        }
        assert forall|j: int| 0 <= j < total.len() - 1 implies #[trigger] total[j].1 by {
            assert(total[j] == accepted_in_order(all)[j]);
        }
        if ok {
            assert forall|j: int| 0 <= j < total.len() implies #[trigger] total[j].1 by {
                if j < all.len() {
                    assert(total[j] == accepted_in_order(all)[j]);
                }
            }
        }
        assert(traversal.outcomes().subrange(0, base.len() as int) =~= base);
    }
    ok
}

impl<'ln> LayoutNode<'ln> {
    /// Traverses the tree below this node in postorder with a traversal that
    /// changes its state: the calls of `process` follow the postorder walk
    /// and stop right after the first refusal, and the result is true
    /// exactly when the whole walk was accepted.
    pub fn traverse_postorder_mut<T: PostorderNodeMutTraversal>(self, dom: &LayoutDom, traversal: &mut T) -> (r: bool)
        requires
            dom.wf(),
            dom.valid(self@),
            finite_below(dom@, self@),
        ensures
            forall|x: usize| #[trigger] final(traversal).prunes(x) == old(traversal).prunes(x),
            extends(old(traversal).outcomes(), final(traversal).outcomes()),
            ran_in_order(
                postorder_of(dom@, self@, pruned_by_mut(*old(traversal))),
                added_since(old(traversal).outcomes(), final(traversal).outcomes()),
                r,
            ),
    {
        let ghost pruned = pruned_by_mut(*traversal);
        postorder_walk_mut(self, dom, traversal, Ghost(dom@.len() as nat), Ghost(pruned))
    }
}

/// Every node in the walks of `ks` is in the walk of one of them.
pub proof fn lemma_walk_all_member(
    d: Seq<Node>,
    ks: Seq<usize>,
    fuel: nat,
    pruned: spec_fn(usize) -> bool,
    post: bool,
    k: int,
)
    requires
        0 <= k < walk_all(d, ks, fuel, pruned, post).len(),
    ensures
        exists|i: int|
            0 <= i < ks.len() && #[trigger] walk(d, ks[i], fuel, pruned, post).contains(
                walk_all(d, ks, fuel, pruned, post)[k],
            ),
    decreases ks.len(),
{
    let front = walk_all(d, ks.drop_last(), fuel, pruned, post);
    let back = walk(d, ks.last(), fuel, pruned, post);
    let x = walk_all(d, ks, fuel, pruned, post)[k];
    if k < front.len() {
        lemma_walk_all_member(d, ks.drop_last(), fuel, pruned, post, k);
        let i = choose|i: int|
            0 <= i < ks.drop_last().len() && #[trigger] walk(d, ks.drop_last()[i], fuel, pruned, post).contains(front[k]);
        assert(ks.drop_last()[i] == ks[i]);
        assert(walk(d, ks[i], fuel, pruned, post).contains(x));
    } else {
        assert(back[k - front.len()] == x);
        assert(walk(d, ks[ks.len() - 1], fuel, pruned, post).contains(x));
    }
}

/// Pruning hides a node and everything below it: the walk of a pruned node
/// is empty, every node that a walk reaches comes from an unpruned node, and
/// is either that node or lies in the walk of one of its children.
pub proof fn lemma_pruned_never_processed(
    d: Seq<Node>,
    n: usize,
    fuel: nat,
    pruned: spec_fn(usize) -> bool,
    post: bool,
    k: int,
)
    ensures
        pruned(n) ==> walk(d, n, fuel, pruned, post) == Seq::<usize>::empty(),
        0 <= k < walk(d, n, fuel, pruned, post).len() ==> {
            let x = walk(d, n, fuel, pruned, post)[k];
            &&& !pruned(n)
            &&& x == n || exists|i: int|
                0 <= i < children_of(d, n).len() && #[trigger] walk(
                    d,
                    children_of(d, n)[i],
                    (fuel - 1) as nat,
                    pruned,
                    post,
                ).contains(x)
        },
{
    if 0 <= k < walk(d, n, fuel, pruned, post).len() {
        let ks = children_of(d, n);
        let below = walk_all(d, ks, (fuel - 1) as nat, pruned, post);
        let w = walk(d, n, fuel, pruned, post);
        if post {
            assert(w == below.push(n));
            if k < below.len() {
                assert(w[k] == below[k]);
                lemma_walk_all_member(d, ks, (fuel - 1) as nat, pruned, post, k);
            }
        } else {
            assert(w == seq![n] + below);
            if k > 0 {
                assert(w[k] == below[k - 1]);
                lemma_walk_all_member(d, ks, (fuel - 1) as nat, pruned, post, k - 1);
            }
        }
    }
}

/// In postorder a node comes last in its own walk, and the walk of each of
/// its children stands, whole and in one piece, before it.
pub proof fn lemma_children_processed_first(
    d: Seq<Node>,
    n: usize,
    fuel: nat,
    pruned: spec_fn(usize) -> bool,
    i: int,
)
    requires
        fuel > 0,
        !pruned(n),
        0 <= i < children_of(d, n).len(),
    ensures
        ({
            let whole = walk(d, n, fuel, pruned, true);
            let mine = walk(d, children_of(d, n)[i], (fuel - 1) as nat, pruned, true);
            &&& whole.len() > 0
            &&& whole.last() == n
            &&& exists|off: int|
                0 <= off && off + mine.len() < whole.len() && #[trigger] whole.subrange(off, off + mine.len())
                    == mine
        }),
{
    let ks = children_of(d, n);
    let f = (fuel - 1) as nat;
    lemma_walk_all_slot(d, ks, i, f, pruned, true);
    let whole = walk(d, n, fuel, pruned, true);
    let all = walk_all(d, ks, f, pruned, true);
    let before = walk_all(d, ks.take(i), f, pruned, true);
    let mine = walk(d, ks[i], f, pruned, true);
    assert(whole == all.push(n));
    assert forall|k: int| 0 <= k < mine.len() implies whole[before.len() + k] == #[trigger] mine[k] by {
        assert(all[before.len() + k] == mine[k]);
    }
    assert(whole.subrange(before.len() as int, (before.len() + mine.len()) as int) =~= mine);
}

fn holds(v: &Vec<usize>, x: usize) -> (r: bool)
    ensures
        r == v@.contains(x),
{
    let mut i: usize = 0;
    while i < v.len()
        invariant
            0 <= i <= v@.len(),
            forall|k: int| 0 <= k < i ==> v@[k] != x,
        decreases v@.len() - i,
    {
        if v[i] == x {
            assert(v@[i as int] == x);
            return true;
        }
        i = i + 1;
    }
    false
}

/// A traversal that skips the subtrees of the nodes in `pruned` and refuses
/// the nodes in `refused`.
pub struct NodeFilter {
    pruned: Vec<usize>,
    refused: Vec<usize>,
}

impl NodeFilter {
    pub fn new(pruned: Vec<usize>, refused: Vec<usize>) -> (r: NodeFilter)
        ensures
            r.pruned_nodes() == pruned@,
            r.refused_nodes() == refused@,
    {
        NodeFilter { pruned, refused }
    }

    pub closed spec fn pruned_nodes(&self) -> Seq<usize> {
        self.pruned@
    }

    pub closed spec fn refused_nodes(&self) -> Seq<usize> {
        self.refused@
    }
}

impl PostorderNodeTraversal for NodeFilter {
    open spec fn prunes(&self, node: usize) -> bool {
        self.pruned_nodes().contains(node)
    }

    open spec fn accepts(&self, node: usize) -> bool {
        !self.refused_nodes().contains(node)
    }

    fn process(&self, dom: &LayoutDom, node: LayoutNode) -> (r: bool) {
        !holds(&self.refused, node.get_abstract())
    }

    fn should_prune(&self, dom: &LayoutDom, node: LayoutNode) -> (r: bool) {
        holds(&self.pruned, node.get_abstract())
    }
}

/// A traversal that filters as `NodeFilter` does and records, in order,
/// every node it is asked to process.
pub struct NodeLog {
    filter: NodeFilter,
    order: Vec<usize>,
}

impl NodeLog {
    pub fn new(filter: NodeFilter) -> (r: NodeLog)
        ensures
            r.filter() == filter,
            r.processed() == Seq::<usize>::empty(),
    {
        NodeLog { filter, order: Vec::new() }
    }

    pub closed spec fn filter(&self) -> NodeFilter {
        self.filter
    }

    pub closed spec fn processed(&self) -> Seq<usize> {
        self.order@
    }

    /// The nodes processed so far, in order.
    pub fn order(&self) -> (r: &Vec<usize>)
        ensures
            r@ == self.processed(),
    {
        &self.order
    }
}

impl PostorderNodeMutTraversal for NodeLog {
    open spec fn prunes(&self, node: usize) -> bool {
        self.filter().prunes(node)
    }

    open spec fn outcomes(&self) -> Seq<(usize, bool)> {
        self.processed().map_values(|x: usize| (x, self.filter().accepts(x)))
    }

    fn process(&mut self, dom: &LayoutDom, node: LayoutNode) -> (r: bool) {
        let id = node.get_abstract();
        self.order.push(id);
        let r = self.filter.process(dom, node);
        proof {
            assert(self.outcomes() =~= old(self).outcomes().push((node@, r)));
        }
        r
    }

    fn should_prune(&self, dom: &LayoutDom, node: LayoutNode) -> (r: bool) {
        self.filter.should_prune(dom, node)
    }
}

/// The sibling chain from `cur` is its first `k` links followed by the chain
/// from where they lead.
pub proof fn lemma_chain_split(d: Seq<Node>, cur: Option<usize>, fuel: nat, k: nat)
    requires
        k <= fuel,
        k <= chain_from(d, cur, fuel).len(),
    ensures
        ({
            let s = chain_from(d, cur, fuel);
            &&& chain_from(d, cur, fuel).subrange(k as int, s.len() as int) == chain_from(d, advance(d, cur, k), (fuel - k) as nat)
            &&& chain_ends(d, cur, fuel) == chain_ends(d, advance(d, cur, k), (fuel - k) as nat)
        }),
    decreases k,
{
    if k > 0 {
        let c = cur->Some_0;
        let next = next_sibling_of(d, c);
        lemma_chain_split(d, next, (fuel - 1) as nat, (k - 1) as nat);
        let s = chain_from(d, cur, fuel);
        let t = chain_from(d, next, (fuel - 1) as nat);
        assert(s.subrange(k as int, s.len() as int) =~= t.subrange(k - 1, t.len() as int));
    } else {
        let s = chain_from(d, cur, fuel);
        assert(s.subrange(0, s.len() as int) =~= s);
    }
}

/// Where `k` steps of `next_sibling_of` lead from `cur`.
pub open spec fn advance(d: Seq<Node>, cur: Option<usize>, k: nat) -> Option<usize>
    decreases k,
{
    if k == 0 {
        cur
    } else {
        match cur {
            Some(c) => advance(d, next_sibling_of(d, c), (k - 1) as nat),
            None => None,
        }
    }
}

fn check_bounded(node: LayoutNode, dom: &LayoutDom, fuel: usize) -> (r: bool)
    requires
        dom.wf(),
        dom.valid(node@),
    ensures
        r == bounded_below(dom@, node@, fuel as nat),
    decreases fuel,
{
    if fuel == 0 {
        return false;
    }
    let ghost d = dom@;
    let ghost first = first_child_of(d, node@);
    let ghost len = d.len() as nat;
    let ghost ks = children_of(d, node@);
    proof {
        lemma_steps_in_arena(d, node@);
    }
    let mut cur = node.first_child(dom);
    let mut steps: usize = 0;
    let limit = dom.len();
    loop
        invariant
            dom.wf(),
            d == dom@,
            len == d.len(),
            limit == len,
            fuel > 0,
            first == first_child_of(d, node@),
            ks == children_of(d, node@),
            steps <= len,
            steps <= chain_from(d, first, len).len(),
            opt_ids(cur) == advance(d, first, steps as nat),
            opt_in(opt_ids(cur), len as int),
            chain_from(d, first, len).subrange(steps as int, chain_from(d, first, len).len() as int)
                == chain_from(d, opt_ids(cur), (len - steps) as nat),
            chain_ends(d, first, len) == chain_ends(d, opt_ids(cur), (len - steps) as nat),
            forall|k: int| 0 <= k < steps ==> bounded_below(d, #[trigger] chain_from(d, first, len)[k], (fuel - 1) as nat),
        decreases len - steps,
    {
        match cur {
            None => {
                proof {
                    assert(chain_from(d, first, len).len() == steps);
                    assert(forall|k: int| 0 <= k < ks.len() ==> bounded_below(d, #[trigger] ks[k], (fuel - 1) as nat));
                }
                return true;
            },
            Some(c) => {
                if steps == limit {
                    return false;
                }
                let ghost s = chain_from(d, first, len);
                proof {
                    let rest = chain_from(d, opt_ids(cur), (len - steps) as nat);
                    assert(rest[0] == c@);
                    assert(s.subrange(steps as int, s.len() as int).len() == rest.len());
                    assert(steps < s.len());
                    assert(s.subrange(steps as int, s.len() as int)[0] == s[steps as int]);
                }
                if !check_bounded(c, dom, fuel - 1) {
                    proof {
                        if children_end(d, node@) {
                            assert(ks[steps as int] == c@);
                        }
                    }
                    return false;
                }
                proof {
                    lemma_steps_in_arena(d, c@);
                    lemma_chain_split(d, first, len, (steps + 1) as nat);
                    assert(advance(d, first, (steps + 1) as nat) == next_sibling_of(d, c@)) by {
                        lemma_advance_step(d, first, steps as nat);
                    }
                }
                cur = c.next_sibling(dom);
                steps = steps + 1;
            },
        }
    }
}

/// One more step of `advance` is one more `next_sibling_of`.
pub proof fn lemma_advance_step(d: Seq<Node>, cur: Option<usize>, k: nat)
    requires
        advance(d, cur, k) is Some,
    ensures
        advance(d, cur, k + 1) == next_sibling_of(d, advance(d, cur, k)->Some_0),
    decreases k,
{
    reveal_with_fuel(advance, 2);
    if k > 0 {
        lemma_advance_step(d, next_sibling_of(d, cur->Some_0), (k - 1) as nat);
    }
}

impl<'ln> LayoutNode<'ln> {
    /// Whether the subtree below this node is finite, which traversals need.
    pub fn has_finite_subtree(&self, dom: &LayoutDom) -> (r: bool)
        requires
            dom.wf(),
            dom.valid(self@),
        ensures
            r == finite_below(dom@, self@),
    {
        check_bounded(*self, dom, dom.len())
    }
}

} // verus!
