//! A tree made with its root, with children appended through slots.
use crate::arena::NodeId;
use crate::store::{appended, lemma_ids_tagged, successor, NodeStore, NodeView};
use vstd::prelude::*;

verus! {

/// A tree of `T` payloads; it has its root from the start.
pub struct Tree<T> {
    store: NodeStore<T>,
}

/// A cursor on one node of a [`Tree`], through which children are appended to it.
pub struct Slot<'a, T> {
    /// The borrowed nodes.
    pub inner: &'a mut NodeStore<T>,
    /// The node it is on.
    pub index: NodeId,
}

impl<'a, T> Slot<'a, T> {
    /// The node this slot appends to.
    pub open spec fn id(&self) -> NodeId {
        self.index
    }

    /// The nodes as this slot sees them now.
    pub open spec fn nodes(&self) -> NodeStore<T> {
        *self.inner
    }

    /// Appends `data` as the new last child of this slot's node, and returns a slot on
    /// the child.
    #[must_use]
    pub fn insert_child<'b>(&'b mut self, data: T) -> (r: Slot<'b, T>) where 'a: 'b
        requires
            old(self).nodes()@.contains_key(old(self).id()),
            old(self).nodes()@.dom().len() < u32::MAX,
        ensures
            final(self).id() == old(self).id(),
            !old(self).nodes()@.contains_key(r.id()),
            r.nodes()@ == appended(old(self).nodes()@, old(self).id(), r.id(), data),
            r.nodes().root() == old(self).nodes().root(),
            r.nodes().wf(),
            final(self).nodes() == *final(r.inner),
            *final(final(self).inner) == *final(old(self).inner),
    {
        let index = self.inner.insert_child(self.index, data);
        Slot { inner: self.inner, index }
    }
}


impl<T> Tree<T> {
    pub closed spec fn spec_nodes(&self) -> &NodeStore<T> {
        &self.store
    }

    /// A tree of one node, the root, which holds `root_data` and has no links.
    pub fn new(root_data: T) -> (t: Self)
        ensures
            t.nodes().wf(),
            t.nodes().root() is Some,
            t.nodes()@ == Map::<NodeId, NodeView<T>>::empty().insert(
                t.nodes().root()->0,
                NodeView {
                    data: root_data,
                    parent: None,
                    prev_sibling: None,
                    next_sibling: None,
                    first_child: None,
                    last_child: None,
                },
            ),
    {
        let mut store = NodeStore::new();
        store.insert_root(root_data);
        Tree { store }
    }

    /// The nodes of the tree.
    #[verifier::when_used_as_spec(spec_nodes)]
    pub fn nodes(&self) -> (r: &NodeStore<T>)
        ensures
            *r == self.spec_nodes(),
    {
        &self.store
    }

    /// A slot on the root, through which the tree is built. The tree holds what the slot
    /// leaves behind.
    pub fn root_slot(&mut self) -> (r: Slot<'_, T>)
        requires
            old(self).nodes().root() is Some,
        ensures
            r.id() == old(self).nodes().root()->0,
            r.nodes() == *old(self).nodes(),
            final(self).nodes() == *final(r.inner),
    {
        let index = self.store.root_id().unwrap();
        Slot { inner: &mut self.store, index }
    }

    /// Returns an iterator which visits the tree in depth first order: a node, then the
    /// whole subtree of each of its children in turn.
    pub fn depth_first(&self) -> (r: DepthFirst<'_, T>)
        ensures
            r.nodes() == self.nodes(),
            r.next_id() == self.nodes().root(),
    {
        DepthFirst::new(&self.store, self.store.root_id())
    }

    /// The last node of the tree in pre-order, found by following `last_child` from the
    /// root.
    pub fn get_last(&self) -> (r: Option<NodeId>)
        ensures
            match r {
                Some(n) => {
                    &&& self.nodes()@.contains_key(n)
                    &&& self.nodes()@[n].last_child is None
                    &&& successor(self.nodes()@, n) is None
                },
                None => self.nodes().root() is None,
            },
    {
        self.store.last()
    }
}

/// A depth first (pre-order) walk over the payloads of a [`Tree`].
pub struct DepthFirst<'a, T> {
    nodes: &'a NodeStore<T>,
    next: Option<NodeId>,
}

impl<'a, T> DepthFirst<'a, T> {
    /// The nodes walked over.
    pub closed spec fn nodes(&self) -> NodeStore<T> {
        *self.nodes
    }

    /// A walk over `nodes` that starts at `start`.
    pub fn new(nodes: &'a NodeStore<T>, start: Option<NodeId>) -> (r: Self)
        ensures
            r.nodes() == *nodes,
            r.next_id() == start,
    {
        DepthFirst { nodes, next: start }
    }

    /// The node that the next step yields.
    pub closed spec fn next_id(&self) -> Option<NodeId> {
        self.next
    }

    /// Yields the payload of the pending node and moves on to its pre-order successor.
    pub fn next(&mut self) -> (r: Option<&'a T>)
        ensures
            final(self).nodes() == old(self).nodes(),
            match old(self).next_id() {
                Some(n) if old(self).nodes()@.contains_key(n) => {
                    &&& r == Some(&old(self).nodes()@[n].data)
                    &&& final(self).next_id() == successor(old(self).nodes()@, n)
                },
                _ => r is None && final(self).next_id() is None,
            },
            old(self).next_id() matches Some(n) && n.tag != old(self).nodes().tag() ==> r is None,
    {
        proof {
            lemma_ids_tagged(&*self.nodes);
        }
        let current = match self.next.take() {
            Some(c) => c,
            None => return None,
        };
        let node = match self.nodes.get(current) {
            Some(d) => d,
            None => return None,
        };
        self.next = self.nodes.successor(current);
        Some(node)
    }
}

} // verus!
