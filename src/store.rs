//! The node store: link records in a generational arena, payloads beside them.
use crate::arena::{store_tag, NodeId};
use crate::nodes::RawNodes;
use vstd::prelude::*;

verus! {

/// What a store says of one node: its payload and its five links.
pub struct NodeView<T> {
    pub data: T,
    pub parent: Option<NodeId>,
    pub prev_sibling: Option<NodeId>,
    pub next_sibling: Option<NodeId>,
    pub first_child: Option<NodeId>,
    pub last_child: Option<NodeId>,
}

/// The nodes after `data` is appended as the new last child `c` of `p`: `c` has `p` as
/// parent, the old last child as previous sibling, and no next sibling or children; `p`
/// gains `c` as last child (and as first child if it had none); the old last child gains
/// `c` as next sibling. No other node changes.
pub open spec fn appended<T>(
    nodes: Map<NodeId, NodeView<T>>,
    p: NodeId,
    c: NodeId,
    data: T,
) -> Map<NodeId, NodeView<T>> {
    let pv = nodes[p];
    let with_child = nodes.insert(
        c,
        NodeView {
            data,
            parent: Some(p),
            prev_sibling: pv.last_child,
            next_sibling: None,
            first_child: None,
            last_child: None,
        },
    ).insert(
        p,
        NodeView {
            first_child: if pv.first_child is None { Some(c) } else { pv.first_child },
            last_child: Some(c),
            ..pv
        },
    );
    match pv.last_child {
        Some(l) => with_child.insert(l, NodeView { next_sibling: Some(c), ..nodes[l] }),
        None => with_child,
    }
}

/// The first of `n` and its ancestors (at most `fuel` of them looked at) that has a next
/// sibling, and that sibling; `None` when the walk passes the root.
pub open spec fn next_up<T>(nodes: Map<NodeId, NodeView<T>>, n: Option<NodeId>, fuel: nat) -> Option<
    NodeId,
>
    decreases fuel,
{
    match n {
        None => None,
        Some(q) => if fuel == 0 || !nodes.contains_key(q) {
            None
        } else if nodes[q].next_sibling is Some {
            nodes[q].next_sibling
        } else {
            next_up(nodes, nodes[q].parent, (fuel - 1) as nat)
        },
    }
}

/// The node after `n` in pre-order: its first child; else its next sibling; else the next
/// sibling of its nearest ancestor that has one; else none.
pub open spec fn successor<T>(nodes: Map<NodeId, NodeView<T>>, n: NodeId) -> Option<NodeId> {
    if nodes[n].first_child is Some {
        nodes[n].first_child
    } else {
        next_up(nodes, Some(n), nodes.dom().len())
    }
}

/// The sibling chain that starts at `start`, following `next_sibling` for at most `fuel`
/// nodes.
pub open spec fn sibling_chain<T>(
    nodes: Map<NodeId, NodeView<T>>,
    start: Option<NodeId>,
    fuel: nat,
) -> Seq<NodeId>
    decreases fuel,
{
    match start {
        None => Seq::empty(),
        Some(s) => if fuel == 0 || !nodes.contains_key(s) {
            Seq::empty()
        } else {
            seq![s] + sibling_chain(nodes, nodes[s].next_sibling, (fuel - 1) as nat)
        },
    }
}

/// The children of `p` as its `first_child` / `next_sibling` chain gives them.
pub open spec fn children<T>(nodes: Map<NodeId, NodeView<T>>, p: NodeId) -> Seq<NodeId> {
    sibling_chain(nodes, nodes[p].first_child, nodes.dom().len())
}

/// The first `k` nodes of the walk that starts at `start` and steps to each node's
/// pre-order successor; shorter when the walk ends first.
pub open spec fn walk<T>(nodes: Map<NodeId, NodeView<T>>, start: Option<NodeId>, k: nat) -> Seq<
    NodeId,
>
    decreases k,
{
    match start {
        None => Seq::empty(),
        Some(n) => if k == 0 || !nodes.contains_key(n) {
            Seq::empty()
        } else {
            seq![n] + walk(nodes, successor(nodes, n), (k - 1) as nat)
        },
    }
}

/// Whether `a` is reached from `d` by following `parent` one or more times (at most
/// `fuel` + 1 of them).
pub open spec fn descends<T>(nodes: Map<NodeId, NodeView<T>>, d: NodeId, a: NodeId, fuel: nat) -> bool
    decreases fuel,
{
    nodes.contains_key(d) && match nodes[d].parent {
        None => false,
        Some(q) => q == a || (fuel > 0 && descends(nodes, q, a, (fuel - 1) as nat)),
    }
}

/// The nodes of one tree: the sole owner of their payloads and links. Every other
/// reference to a node is a [`NodeId`], which a lookup checks against the arena.
pub struct NodeStore<T> {
    raw: RawNodes<T>,
}

impl<T> View for NodeStore<T> {
    type V = Map<NodeId, NodeView<T>>;

    /// Each live node under its id.
    closed spec fn view(&self) -> Map<NodeId, NodeView<T>> {
        self.raw.view()
    }
}

impl<T> NodeStore<T> {
    /// The store's links are consistent: one root, sibling chains that match the
    /// children's parents, every link naming a live node.
    #[verifier::type_invariant]
    pub closed spec fn wf(&self) -> bool {
        self.raw.wf()
    }

    /// The tag that every id of this store carries; drawn afresh for each store.
    pub closed spec fn tag(&self) -> u64 {
        self.raw.spec_tag()
    }

    /// The root, once there is one.
    pub closed spec fn root(&self) -> Option<NodeId> {
        self.raw.spec_root()
    }

    /// An empty store.
    pub fn new() -> (s: Self)
        ensures
            s.wf(),
            s@ == Map::<NodeId, NodeView<T>>::empty(),
            s.root() is None,
    {
        NodeStore { raw: RawNodes::empty(store_tag()) }
    }

    /// Takes the raw store out, leaving an empty one behind.
    fn take(&mut self) -> (r: RawNodes<T>)
        ensures
            r == old(self).raw,
            r.wf(),
    {
        proof {
            use_type_invariant(&*self);
        }
        let mut taken = NodeStore { raw: RawNodes::empty(0) };
        core::mem::swap(self, &mut taken);
        proof {
            use_type_invariant(&taken);
        }
        let NodeStore { raw } = taken;
        raw
    }

    /// Allocates the root: one node with no links.
    pub fn insert_root(&mut self, data: T) -> (r: NodeId)
        requires
            old(self).root() is None,
        ensures
            final(self).wf(),
            final(self).root() == Some(r),
            final(self).tag() == old(self).tag(),
            r.tag == old(self).tag(),
            final(self)@ == Map::<NodeId, NodeView<T>>::empty().insert(
                r,
                NodeView {
                    data,
                    parent: None,
                    prev_sibling: None,
                    next_sibling: None,
                    first_child: None,
                    last_child: None,
                },
            ),
    {
        let mut raw = self.take();
        let r = raw.insert_root(data);
        *self = NodeStore { raw };
        r
    }

    /// Appends `data` as the new last child of `parent` and returns the child's id.
    pub fn insert_child(&mut self, parent: NodeId, data: T) -> (c: NodeId)
        requires
            old(self)@.contains_key(parent),
            old(self)@.dom().len() < u32::MAX,
        ensures
            final(self).wf(),
            final(self).root() == old(self).root(),
            final(self).tag() == old(self).tag(),
            c.tag == old(self).tag(),
            !old(self)@.contains_key(c),
            final(self)@ == appended(old(self)@, parent, c, data),
            children(final(self)@, parent) == children(old(self)@, parent).push(c),
            forall|q: NodeId|
                q != parent && old(self)@.contains_key(q) ==> children(final(self)@, q)
                    == children(old(self)@, q),
    {
        let mut raw = self.take();
        let c = raw.insert_child(parent, data);
        *self = NodeStore { raw };
        c
    }

    /// The number of nodes.
    pub fn len(&self) -> (n: usize)
        ensures
            n == self@.dom().len(),
    {
        proof {
            use_type_invariant(self);
        }
        self.raw.len()
    }

    /// The root, if one was inserted.
    pub fn root_id(&self) -> (r: Option<NodeId>)
        ensures
            r == self.root(),
    {
        self.raw.root_id()
    }

    /// The payload of a live node; `None` for an id that this store does not hold,
    /// among them every id made by another store.
    pub fn get(&self, id: NodeId) -> (r: Option<&T>)
        ensures
            match r {
                Some(d) => self@.contains_key(id) && *d == self@[id].data,
                None => !self@.contains_key(id),
            },
            id.tag != self.tag() ==> r is None,
    {
        proof {
            use_type_invariant(self);
            self.raw.lemma_tagged();
        }
        self.raw.get(id)
    }

    /// Whether `id` names a live node of this store.
    pub fn contains(&self, id: NodeId) -> (r: bool)
        ensures
            r == self@.contains_key(id),
    {
        proof {
            use_type_invariant(self);
        }
        self.raw.links(id).is_some()
    }

    /// The parent of `id`; `None` for the root or an unknown id.
    pub fn parent(&self, id: NodeId) -> (r: Option<NodeId>)
        ensures
            r == (if self@.contains_key(id) { self@[id].parent } else { None }),
    {
        proof {
            use_type_invariant(self);
        }
        match self.raw.links(id) {
            Some(l) => l.parent,
            None => None,
        }
    }

    /// The previous sibling of `id`; `None` for a first child or an unknown id.
    pub fn prev_sibling(&self, id: NodeId) -> (r: Option<NodeId>)
        ensures
            r == (if self@.contains_key(id) { self@[id].prev_sibling } else { None }),
    {
        proof {
            use_type_invariant(self);
        }
        match self.raw.links(id) {
            Some(l) => l.prev_sibling,
            None => None,
        }
    }

    /// The next sibling of `id`; `None` for a last child or an unknown id.
    pub fn next_sibling(&self, id: NodeId) -> (r: Option<NodeId>)
        ensures
            r == (if self@.contains_key(id) { self@[id].next_sibling } else { None }),
    {
        proof {
            use_type_invariant(self);
        }
        match self.raw.links(id) {
            Some(l) => l.next_sibling,
            None => None,
        }
    }

    /// The first child of `id`; `None` for a leaf or an unknown id.
    pub fn first_child(&self, id: NodeId) -> (r: Option<NodeId>)
        ensures
            r == (if self@.contains_key(id) { self@[id].first_child } else { None }),
    {
        proof {
            use_type_invariant(self);
        }
        match self.raw.links(id) {
            Some(l) => l.first_child,
            None => None,
        }
    }

    /// The last child of `id`; `None` for a leaf or an unknown id.
    pub fn last_child(&self, id: NodeId) -> (r: Option<NodeId>)
        ensures
            r == (if self@.contains_key(id) { self@[id].last_child } else { None }),
    {
        proof {
            use_type_invariant(self);
        }
        match self.raw.links(id) {
            Some(l) => l.last_child,
            None => None,
        }
    }

    /// The children of `id`, read along its `first_child` / `next_sibling` chain; empty
    /// for an unknown id.
    pub fn children(&self, id: NodeId) -> (r: Vec<NodeId>)
        ensures
            r@ == (if self@.contains_key(id) { children(self@, id) } else { Seq::empty() }),
    {
        proof {
            use_type_invariant(self);
        }
        if self.raw.links(id).is_none() {
            return Vec::new();
        }
        self.raw.child_ids(id)
    }

    /// The node after `id` in pre-order; `None` for the last node or an id that does
    /// not resolve.
    pub fn successor(&self, id: NodeId) -> (r: Option<NodeId>)
        ensures
            r == (if self@.contains_key(id) { successor(self@, id) } else { None }),
    {
        proof {
            use_type_invariant(self);
        }
        if !self.contains(id) {
            return None;
        }
        self.raw.next_node(id)
    }

    /// The node after the whole subtree of `id` in pre-order: the next sibling of `id` or
    /// of its nearest ancestor that has one; `None` for an id that does not resolve.
    pub fn skip_subtree(&self, id: NodeId) -> (r: Option<NodeId>)
        ensures
            r == next_up(self@, Some(id), self@.dom().len()),
    {
        proof {
            use_type_invariant(self);
        }
        if !self.contains(id) {
            return None;
        }
        self.raw.next_up_node(id)
    }

    /// The node reached from the root by following `last_child` to its end: the last
    /// node in pre-order.
    pub fn last(&self) -> (r: Option<NodeId>)
        ensures
            match r {
                Some(n) => {
                    &&& self.root() is Some
                    &&& self@.contains_key(n)
                    &&& self@[n].last_child is None
                    &&& successor(self@, n) is None
                },
                None => self.root() is None,
            },
    {
        proof {
            use_type_invariant(self);
        }
        self.raw.last_node()
    }
}

/// Exactly one node has no parent: the root. A store with a root holds it, and a store
/// without one is empty.
pub proof fn lemma_single_root<T>(s: &NodeStore<T>)
    requires
        s.wf(),
    ensures
        forall|id: NodeId|
            #![trigger s@[id]]
            s@.contains_key(id) ==> (s@[id].parent is None <==> s.root() == Some(id)),
        match s.root() {
            Some(r) => s@.contains_key(r),
            None => s@.dom().len() == 0,
        },
{
    s.raw.lemma_single_root();
}

/// The chain from a node's `first_child` along `next_sibling` lists each of its
/// children once and ends at its `last_child`; each child in it names the node as
/// parent and its neighbours in the chain as siblings.
pub proof fn lemma_children_chain<T>(s: &NodeStore<T>, p: NodeId)
    requires
        s.wf(),
        s@.contains_key(p),
    ensures
        ({
            let ks = children(s@, p);
            &&& ks.no_duplicates()
            &&& s@[p].first_child == (if ks.len() == 0 {
                None
            } else {
                Some(ks[0])
            })
            &&& s@[p].last_child == (if ks.len() == 0 {
                None
            } else {
                Some(ks.last())
            })
            &&& forall|i: int|
                0 <= i < ks.len() ==> {
                    &&& s@.contains_key(#[trigger] ks[i])
                    &&& s@[ks[i]].parent == Some(p)
                    &&& s@[ks[i]].prev_sibling == (if i == 0 {
                        None
                    } else {
                        Some(ks[i - 1])
                    })
                    &&& s@[ks[i]].next_sibling == (if i + 1 < ks.len() {
                        Some(ks[i + 1])
                    } else {
                        None
                    })
                }
        }),
{
    s.raw.lemma_children_links(p);
}

/// The links of a node name live nodes; a node is not its own parent, first child or
/// last child; it has a first child exactly when it has a last child; and the node
/// without a parent, the root, has no siblings.
pub proof fn lemma_links_live<T>(s: &NodeStore<T>, id: NodeId)
    requires
        s.wf(),
        s@.contains_key(id),
    ensures
        ({
            let l = s@[id];
            &&& l.parent is None ==> l.prev_sibling is None && l.next_sibling is None
            &&& l.parent != Some(id)
            &&& l.last_child != Some(id)
            &&& l.first_child != Some(id)
            &&& (l.first_child is None <==> l.last_child is None)
            &&& match l.parent {
                Some(q) => s@.contains_key(q),
                None => true,
            }
            &&& match l.prev_sibling {
                Some(q) => s@.contains_key(q),
                None => true,
            }
            &&& match l.next_sibling {
                Some(q) => s@.contains_key(q),
                None => true,
            }
            &&& match l.first_child {
                Some(q) => s@.contains_key(q),
                None => true,
            }
            &&& match l.last_child {
                Some(q) => s@.contains_key(q),
                None => true,
            }
        }),
{
    s.raw.lemma_links(id);
}

/// Every id of a store carries the store's tag, so an id made by another store (whose
/// tag differs) names none of its nodes.
pub proof fn lemma_ids_tagged<T>(s: &NodeStore<T>)
    ensures
        forall|id: NodeId| #[trigger] s@.contains_key(id) ==> id.tag == s.tag(),
{
    s.raw.lemma_tagged();
}

/// A node's next sibling has that node as its previous sibling, and conversely.
pub proof fn lemma_sibling_symmetry<T>(s: &NodeStore<T>, a: NodeId, b: NodeId)
    requires
        s.wf(),
        s@.contains_key(a),
        s@.contains_key(b),
    ensures
        s@[a].next_sibling == Some(b) <==> s@[b].prev_sibling == Some(a),
{
    s.raw.lemma_siblings(a, b);
}


/// A walk from the root over pre-order successors meets every node exactly once and
/// then ends: after as many steps as there are nodes it has listed each node once, and
/// the last node listed has no successor.
pub proof fn lemma_preorder_walk<T>(s: &NodeStore<T>)
    requires
        s.wf(),
    ensures
        ({
            let w = walk(s@, s.root(), s@.dom().len());
            &&& w.len() == s@.dom().len()
            &&& w.no_duplicates()
            &&& forall|id: NodeId| s@.contains_key(id) <==> w.contains(id)
            &&& w.len() > 0 ==> successor(s@, w.last()) is None
        }),
{
    s.raw.lemma_preorder();
}

/// After a pass skips the subtree of `x` (it resumes at the next sibling of `x` or of
/// its nearest ancestor that has one), no node that the walk then reaches descends from
/// `x`.
pub proof fn lemma_skip_leaves_subtree<T>(s: &NodeStore<T>, x: NodeId, k: nat)
    requires
        s.wf(),
        s@.contains_key(x),
    ensures
        forall|d: NodeId|
            #[trigger] walk(s@, next_up(s@, Some(x), s@.dom().len()), k).contains(d) ==> !descends(
                s@,
                d,
                x,
                s@.dom().len(),
            ),
{
    s.raw.lemma_skip_leaves_subtree(x, k);
}


/// Appending a child keeps every node that was there, with its payload: nothing is
/// freed, so a node skipped by a pass stays retrievable by its id.
pub proof fn lemma_append_keeps_nodes<T>(
    nodes: Map<NodeId, NodeView<T>>,
    p: NodeId,
    c: NodeId,
    data: T,
)
    requires
        nodes.contains_key(p),
        !nodes.contains_key(c),
        match nodes[p].last_child {
            Some(l) => nodes.contains_key(l),
            None => true,
        },
    ensures
        forall|id: NodeId|
            #[trigger] nodes.contains_key(id) ==> appended(nodes, p, c, data).contains_key(id)
                && appended(nodes, p, c, data)[id].data == nodes[id].data,
        appended(nodes, p, c, data).contains_key(c),
        appended(nodes, p, c, data)[c].data == data,
{
}

} // verus!
