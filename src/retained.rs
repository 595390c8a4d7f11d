//! A tree that keeps one node of state per UI element and is built and resynchronised
//! by visiting it.
use crate::arena::NodeId;
use crate::store::{
    appended, lemma_links_live, lemma_single_root, next_up, successor, NodeStore, NodeView,
};
use crate::tree::DepthFirst;
use vstd::prelude::*;

verus! {

/// A tree which manages a retained state of `T` for each element.
pub struct RetainedTree<T> {
    inner: NodeStore<T>,
    root: NodeId,
}

/// Describes what the visitor should do after visiting a node.
#[derive(Clone, Copy, PartialEq, Eq, Structural, Debug)]
pub enum VisitAction {
    /// Continue on to the next node, this node's children first.
    Continue,
    /// Prune this node: skip its subtree for the rest of the pass. The subtree stays
    /// stored.
    Prune,
}

/// Where a pass goes after visiting `n`: into its children when it continues, past its
/// whole subtree when it prunes; nowhere when `n` does not resolve.
pub open spec fn next_visit<T>(
    nodes: Map<NodeId, NodeView<T>>,
    n: NodeId,
    action: VisitAction,
) -> Option<NodeId> {
    match action {
        VisitAction::Continue => if nodes.contains_key(n) {
            successor(nodes, n)
        } else {
            None
        },
        VisitAction::Prune => next_up(nodes, Some(n), nodes.dom().len()),
    }
}

/// A cursor on one node of a [`RetainedTree`], handed to a visitor, through which it
/// appends children.
pub struct Node<'a, T> {
    /// The borrowed nodes.
    pub inner: &'a mut NodeStore<T>,
    /// The node it is on.
    pub index: NodeId,
}

impl<'a, T> Node<'a, T> {
    /// The node this cursor is on.
    pub open spec fn spec_id(&self) -> NodeId {
        self.index
    }

    /// The nodes as this cursor sees them now.
    pub open spec fn spec_nodes(&self) -> &NodeStore<T> {
        &*self.inner
    }

    /// The nodes as this cursor sees them now.
    #[verifier::when_used_as_spec(spec_nodes)]
    pub fn nodes(&self) -> (r: &NodeStore<T>)
        ensures
            *r == self.spec_nodes(),
    {
        &*self.inner
    }

    /// The node this cursor is on.
    #[verifier::when_used_as_spec(spec_id)]
    pub fn id(&self) -> (r: NodeId)
        ensures
            r == self.spec_id(),
    {
        self.index
    }

    /// The payload of the node this cursor is on; `None` if the id does not resolve.
    pub fn data(&self) -> (r: Option<&T>)
        ensures
            match r {
                Some(d) => self.nodes()@.contains_key(self.id()) && *d == self.nodes()@[self.id()].data,
                None => !self.nodes()@.contains_key(self.id()),
            },
    {
        self.inner.get(self.index)
    }

    /// Appends `data` as the new last child of this cursor's node, and returns a cursor
    /// on the child. This cursor sees what the child cursor leaves behind.
    #[must_use]
    pub fn push_child<'b>(&'b mut self, data: T) -> (r: Node<'b, T>) where 'a: 'b
        requires
            old(self).nodes()@.contains_key(old(self).id()),
            old(self).nodes()@.dom().len() < u32::MAX,
        ensures
            final(self).id() == old(self).id(),
            !old(self).nodes()@.contains_key(r.id()),
            r.nodes()@ == appended(old(self).nodes()@, old(self).id(), r.id(), data),
            r.nodes().root() == old(self).nodes().root(),
            r.nodes().wf(),
            grows(*old(self).nodes(), *r.nodes()),
            *final(self).nodes() == *final(r.inner),
            *final(final(self).inner) == *final(old(self).inner),
    {
        proof {
            use_type_invariant(&*self.inner);
            lemma_links_live(&*self.inner, self.index);
        }
        let index = self.inner.insert_child(self.index, data);
        Node { inner: self.inner, index }
    }
}

/// What a visit may do to the nodes: append to them. The root stays, and every node
/// keeps its payload, its parent and its previous sibling.
pub open spec fn grows<T>(before: NodeStore<T>, after: NodeStore<T>) -> bool {
    &&& after.root() == before.root()
    &&& forall|id: NodeId|
        #[trigger] before@.contains_key(id) ==> {
            &&& after@.contains_key(id)
            &&& after@[id].data == before@[id].data
            &&& after@[id].parent == before@[id].parent
            &&& after@[id].prev_sibling == before@[id].prev_sibling
        }
}

/// Appending more keeps what an earlier append kept.
pub proof fn lemma_grows_trans<T>(a: NodeStore<T>, b: NodeStore<T>, c: NodeStore<T>)
    requires
        grows(a, b),
        grows(b, c),
    ensures
        grows(a, c),
{
}

/// One call of a visitor during a pass: the node it was on, what it returned, and the
/// nodes before and after it.
pub struct VisitStep<T> {
    pub id: NodeId,
    pub action: VisitAction,
    pub before: NodeStore<T>,
    pub after: NodeStore<T>,
}

/// Each step after the first is on the node that [`next_visit`] gives for the nodes
/// the step before it left, and starts from those nodes.
pub open spec fn steps_linked<T>(steps: Seq<VisitStep<T>>) -> bool {
    forall|i: int|
        0 <= i < steps.len() - 1 ==> {
            &&& Some((#[trigger] steps[i + 1]).id) == next_visit(
                steps[i].after@,
                steps[i].id,
                steps[i].action,
            )
            &&& steps[i + 1].before == steps[i].after
        }
}

/// A whole pass: it starts on `root` with the nodes `start`, its steps are linked, and
/// it ends with the nodes `end` where [`next_visit`] gives no next node (or after
/// `u32::MAX` steps).
pub open spec fn chained_pass<T>(
    steps: Seq<VisitStep<T>>,
    root: NodeId,
    start: NodeStore<T>,
    end: NodeStore<T>,
) -> bool {
    &&& 0 < steps.len() <= u32::MAX
    &&& steps[0].id == root
    &&& steps[0].before == start
    &&& steps_linked(steps)
    &&& steps.last().after == end
    &&& (next_visit(steps.last().after@, steps.last().id, steps.last().action) is None
        || steps.len() == u32::MAX)
}

impl<T> RetainedTree<T> {
    pub closed spec fn spec_nodes(&self) -> &NodeStore<T> {
        &self.inner
    }

    /// The root, set once when the tree is made.
    pub closed spec fn spec_root(&self) -> NodeId {
        self.root
    }

    /// The nodes of the tree.
    #[verifier::when_used_as_spec(spec_nodes)]
    pub fn nodes(&self) -> (r: &NodeStore<T>)
        ensures
            *r == self.spec_nodes(),
    {
        &self.inner
    }

    /// The root, set once when the tree is made.
    #[verifier::when_used_as_spec(spec_root)]
    pub fn root(&self) -> (r: NodeId)
        ensures
            r == self.spec_root(),
    {
        self.root
    }

    /// The root field names the root of the nodes.
    pub closed spec fn wf(&self) -> bool {
        self.inner.root() == Some(self.root)
    }

    /// Makes the root from `init(context)`, then runs one full [`visit`](Self::visit)
    /// pass, through which the visitor appends the children: the pass starts on the
    /// one-node tree whose root holds what `init` returned, and the tree is what it
    /// leaves.
    pub fn new<Context, Init, Visit>(context: &Context, init: Init, visit: Visit) -> (t: Self) where
        Init: FnOnce(&Context) -> T,
        Visit: Fn(&Context, Node<'_, T>) -> VisitAction,

        requires
            init.requires((context,)),
            forall|n: Node<'_, T>| visit.requires((context, n)),
            forall|n: Node<'_, T>, a: VisitAction|
                visit.ensures((context, n), a) ==> grows(*n.inner, *final(n.inner)),
        ensures
            t.wf(),
            t.nodes().wf(),
            t.nodes().root() == Some(t.root()),
            t.nodes()@.contains_key(t.root()),
            init.ensures((context,), t.nodes()@[t.root()].data),
            t.nodes()@[t.root()].parent is None,
            t.nodes()@[t.root()].prev_sibling is None,
            t.nodes()@[t.root()].next_sibling is None,
            exists|d: T, steps: Seq<VisitStep<T>>|
                {
                    &&& init.ensures((context,), d)
                    &&& steps.len() > 0
                    &&& steps[0].before@ == Map::<NodeId, NodeView<T>>::empty().insert(
                        t.root(),
                        NodeView {
                            data: d,
                            parent: None,
                            prev_sibling: None,
                            next_sibling: None,
                            first_child: None,
                            last_child: None,
                        },
                    )
                    &&& chained_pass(steps, t.root(), steps[0].before, *t.nodes())
                    &&& forall|i: int|
                        0 <= i < steps.len() ==> exists|n: Node<'_, T>|
                            {
                                &&& n.id() == (#[trigger] steps[i]).id
                                &&& *n.inner == steps[i].before
                                &&& *final(n.inner) == steps[i].after
                                &&& visit.ensures((context, n), steps[i].action)
                            }
                },
    {
        let mut inner = NodeStore::new();
        let data = init(context);
        let root = inner.insert_root(data);
        let ghost first = inner;
        let mut tree = RetainedTree { inner, root };
        tree.visit(context, visit);
        proof {
            let steps = choose|steps: Seq<VisitStep<T>>|
                {
                    &&& chained_pass(steps, root, first, tree.inner)
                    &&& forall|i: int|
                        0 <= i < steps.len() ==> exists|n: Node<'_, T>|
                            {
                                &&& n.id() == (#[trigger] steps[i]).id
                                &&& *n.inner == steps[i].before
                                &&& *final(n.inner) == steps[i].after
                                &&& visit.ensures((context, n), steps[i].action)
                            }
                };
            assert(init.ensures((context,), data));
            assert(steps[0].before == first);
        }
        proof {
            use_type_invariant(&tree.inner);
            lemma_single_root(&tree.inner);
            lemma_links_live(&tree.inner, root);
            assert(first@.contains_key(root));
        }
        tree
    }

    /// Returns an iterator which visits the tree in depth first order from the root.
    pub fn depth_first(&self) -> (r: DepthFirst<'_, T>)
        ensures
            r.nodes() == self.nodes(),
            r.next_id() == Some(self.root()),
    {
        DepthFirst::new(&self.inner, Some(self.root))
    }

    /// The last node of the tree in pre-order, found by following `last_child` from the
    /// root.
    pub fn get_last(&self) -> (r: Option<NodeId>)
        ensures
            match r {
                Some(n) => {
                    &&& self.nodes()@.contains_key(n)
                    &&& self.nodes()@[n].last_child is None
                    &&& successor(self.nodes()@, n) is None
                },
                None => self.nodes().root() is None,
            },
            self.wf() ==> r is Some,
    {
        self.inner.last()
    }

    /// Where a pass goes after `visit` returned `action` for `n`: the pre-order successor
    /// of `n` (its children come first, among them any just appended) when it continues,
    /// the node after the whole subtree of `n` when it prunes.
    pub fn next_to_visit(&self, n: NodeId, action: VisitAction) -> (r: Option<NodeId>)
        ensures
            r == next_visit(self.nodes()@, n, action),
    {
        match action {
            VisitAction::Continue => self.inner.successor(n),
            VisitAction::Prune => self.inner.skip_subtree(n),
        }
    }

    /// Walks the tree in pre-order from the root, calling `visit` with a cursor on each
    /// node reached. A node's children are looked up after its visit returns, so the
    /// children it appended are visited next; a node for which `visit` returns
    /// [`VisitAction::Prune`] has its subtree skipped for the rest of the pass.
    ///
    /// The visitor is asked to only append through its cursor. The calls form a
    /// [`chained_pass`] from the root over the nodes as they were, each of them a call of
    /// `visit` on a cursor over the nodes before it, which the cursor leaves as the nodes
    /// after it.
    pub fn visit<Context, Visit>(&mut self, context: &Context, visit: Visit) where
        Visit: Fn(&Context, Node<'_, T>) -> VisitAction,

        requires
            forall|n: Node<'_, T>| visit.requires((context, n)),
            forall|n: Node<'_, T>, a: VisitAction|
                visit.ensures((context, n), a) ==> grows(*n.inner, *final(n.inner)),
        ensures
            final(self).nodes().wf(),
            final(self).root() == old(self).root(),
            old(self).wf() ==> final(self).wf(),
            grows(*old(self).nodes(), *final(self).nodes()),
            exists|steps: Seq<VisitStep<T>>|
                {
                    &&& chained_pass(steps, old(self).root(), *old(self).nodes(), *final(self).nodes())
                    &&& forall|i: int|
                        0 <= i < steps.len() ==> exists|n: Node<'_, T>|
                            {
                                &&& n.id() == (#[trigger] steps[i]).id
                                &&& *n.inner == steps[i].before
                                &&& *final(n.inner) == steps[i].after
                                &&& visit.ensures((context, n), steps[i].action)
                            }
                },
    {
        let ghost start = self.inner;
        let mut next = Some(self.root);
        let mut count: u32 = 0;
        let ghost mut steps: Seq<VisitStep<T>> = Seq::empty();
        loop
            invariant_except_break
                count < u32::MAX,
            invariant
                self.root == old(self).root,
                start == *old(self).nodes(),
                forall|n: Node<'_, T>| visit.requires((context, n)),
                forall|n: Node<'_, T>, a: VisitAction|
                    visit.ensures((context, n), a) ==> grows(*n.inner, *final(n.inner)),
                grows(start, self.inner),
                steps.len() == count,
                count == 0 ==> next == Some(self.root) && self.inner == start,
                count > 0 ==> {
                    &&& steps[0].id == self.root
                    &&& steps[0].before == start
                    &&& steps.last().after == self.inner
                    &&& next == next_visit(steps.last().after@, steps.last().id, steps.last().action)
                },
                steps_linked(steps),
                forall|i: int|
                    0 <= i < steps.len() ==> exists|n: Node<'_, T>|
                        {
                            &&& n.id() == (#[trigger] steps[i]).id
                            &&& *n.inner == steps[i].before
                            &&& *final(n.inner) == steps[i].after
                            &&& visit.ensures((context, n), steps[i].action)
                        },
            ensures
                grows(start, self.inner),
                chained_pass(steps, self.root, start, self.inner),
                forall|i: int|
                    0 <= i < steps.len() ==> exists|n: Node<'_, T>|
                        {
                            &&& n.id() == (#[trigger] steps[i]).id
                            &&& *n.inner == steps[i].before
                            &&& *final(n.inner) == steps[i].after
                            &&& visit.ensures((context, n), steps[i].action)
                        },
            decreases u32::MAX - count,
        {
            let current = match next {
                Some(c) => c,
                None => break,
            };
            let ghost before = self.inner;
            let cursor = Node { inner: &mut self.inner, index: current };
            let ghost passed = cursor;
            let action = visit(context, cursor);
            proof {
                let step = VisitStep { id: current, action, before, after: self.inner };
                let old_steps = steps;
                steps = steps.push(step);
                assert(steps[steps.len() - 1] == step);
                assert forall|i: int| 0 <= i < steps.len() implies exists|n: Node<'_, T>|
                    {
                        &&& n.id() == (#[trigger] steps[i]).id
                        &&& *n.inner == steps[i].before
                        &&& *final(n.inner) == steps[i].after
                        &&& visit.ensures((context, n), steps[i].action)
                    } by {
                    if i < old_steps.len() {
                        assert(steps[i] == old_steps[i]);
                    } else {
                        assert(passed.id() == steps[i].id);
                    }
                }
                assert forall|i: int| 0 <= i < steps.len() - 1 implies {
                    &&& Some((#[trigger] steps[i + 1]).id) == next_visit(
                        steps[i].after@,
                        steps[i].id,
                        steps[i].action,
                    )
                    &&& steps[i + 1].before == steps[i].after
                } by {
                    assert(steps[i] == old_steps[i]);
                    if i + 1 < old_steps.len() {
                        assert(steps[i + 1] == old_steps[i + 1]);
                    }
                }
                lemma_grows_trans(start, before, self.inner);
            }
            next = self.next_to_visit(current, action);
            count = count + 1;
            if count == u32::MAX {
                break;
            }
        }
        proof {
            use_type_invariant(&self.inner);
        }
    }
}

} // verus!
