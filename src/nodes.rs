//! The invariant of the node store and its proofs: the links, the children of each node
//! in order, the depth of each node, and where each subtree stands in pre-order.
use crate::arena::{arena_entries, arena_get, arena_insert, arena_new, arena_set, Links, NodeId};
use crate::store::{appended, children, descends, next_up, sibling_chain, successor, walk, NodeView};
use thunderdome::Arena;
use vstd::prelude::*;

verus! {

/// The store as it is held: the arena of link records, the payloads in order of
/// insertion, and the ghost bookkeeping that its invariant speaks of.
pub(crate) struct RawNodes<T> {
    /// The tag carried by every id of this store.
    tag: u64,
    arena: Arena<Links>,
    payloads: Vec<T>,
    root: Option<NodeId>,
    /// The children of each node, in order of insertion.
    kids: Ghost<Map<NodeId, Seq<NodeId>>>,
    /// The number of ancestors of each node.
    depth: Ghost<Map<NodeId, nat>>,
    /// The nodes in pre-order.
    order: Ghost<Seq<NodeId>>,
    /// The index of each node in `order`.
    pos: Ghost<Map<NodeId, int>>,
    /// The index in `order` just past the subtree of each node.
    end: Ghost<Map<NodeId, int>>,
}

impl<T> RawNodes<T> {
    spec fn entries(&self) -> Map<u64, Links> {
        arena_entries(self.arena)
    }

    spec fn has(&self, id: NodeId) -> bool {
        id.tag == self.tag && self.entries().contains_key(id.bits)
    }

    pub(crate) closed spec fn spec_tag(&self) -> u64 {
        self.tag
    }

    /// The tag of this store.
    pub(crate) fn tag(&self) -> (r: u64)
        ensures
            r == self.spec_tag(),
    {
        self.tag
    }

    spec fn link(&self, id: NodeId) -> Links {
        self.entries()[id.bits]
    }

    pub(crate) closed spec fn spec_root(&self) -> Option<NodeId> {
        self.root
    }

    /// The root, if one was inserted.
    pub(crate) fn root_id(&self) -> (r: Option<NodeId>)
        ensures
            r == self.spec_root(),
    {
        self.root
    }

    /// The number of nodes.
    pub(crate) fn len(&self) -> (n: usize)
        requires
            self.wf(),
        ensures
            n == self.view().dom().len(),
    {
        proof {
            self.lemma_view_len();
        }
        self.payloads.len()
    }

    pub(crate) closed spec fn view(&self) -> Map<NodeId, NodeView<T>> {
        Map::new(
            |id: NodeId| self.has(id),
            |id: NodeId|
                NodeView {
                    data: self.payloads@[self.link(id).payload as int],
                    parent: self.link(id).parent,
                    prev_sibling: self.link(id).prev_sibling,
                    next_sibling: self.link(id).next_sibling,
                    first_child: self.link(id).first_child,
                    last_child: self.link(id).last_child,
                },
        )
    }

    spec fn opt_has(&self, l: Option<NodeId>) -> bool {
        match l {
            Some(id) => self.has(id),
            None => true,
        }
    }

    spec fn kids_ok(&self, p: NodeId) -> bool {
        let ks = self.kids@[p];
        &&& ks.no_duplicates()
        &&& self.link(p).first_child == (if ks.len() == 0 {
            None
        } else {
            Some(ks[0])
        })
        &&& self.link(p).last_child == (if ks.len() == 0 {
            None
        } else {
            Some(ks.last())
        })
        &&& forall|i: int|
            0 <= i < ks.len() ==> {
                &&& self.has(#[trigger] ks[i])
                &&& self.link(ks[i]).parent == Some(p)
                &&& self.link(ks[i]).prev_sibling == (if i == 0 {
                    None
                } else {
                    Some(ks[i - 1])
                })
                &&& self.link(ks[i]).next_sibling == (if i + 1 < ks.len() {
                    Some(ks[i + 1])
                } else {
                    None
                })
            }
    }

    spec fn node_ok(&self, id: NodeId) -> bool {
        &&& self.link(id).payload < self.payloads@.len()
        &&& self.opt_has(self.link(id).parent)
        &&& self.opt_has(self.link(id).prev_sibling)
        &&& self.opt_has(self.link(id).next_sibling)
        &&& self.opt_has(self.link(id).first_child)
        &&& self.opt_has(self.link(id).last_child)
        &&& self.kids@.contains_key(id)
        &&& self.kids_ok(id)
        &&& self.depth@.contains_key(id)
        &&& self.depth@[id] < self.payloads@.len()
        &&& (self.link(id).parent is None <==> self.root == Some(id))
        &&& match self.link(id).parent {
            Some(q) => self.kids@[q].contains(id) && self.depth@[id] == self.depth@[q] + 1,
            None => self.link(id).prev_sibling is None && self.link(id).next_sibling is None,
        }
    }

    /// Where a node and its subtree stand in pre-order.
    #[verifier::opaque]
    spec fn order_node_ok(&self, id: NodeId) -> bool {
        let l = self.link(id);
        &&& self.pos@.contains_key(id)
        &&& self.end@.contains_key(id)
        &&& 0 <= self.pos@[id] < self.end@[id] <= self.payloads@.len()
        &&& self.order@[self.pos@[id]] == id
        &&& match l.first_child {
            Some(f) => self.pos@[f] == self.pos@[id] + 1,
            None => self.end@[id] == self.pos@[id] + 1,
        }
        &&& match l.next_sibling {
            Some(s) => self.pos@[s] == self.end@[id],
            None => match l.parent {
                Some(q) => self.end@[id] == self.end@[q],
                None => self.end@[id] == self.payloads@.len(),
            },
        }
        &&& match l.parent {
            Some(q) => self.pos@[q] < self.pos@[id] && self.end@[id] <= self.end@[q],
            None => self.pos@[id] == 0,
        }
    }

    /// Subtrees nest: one that starts inside another ends inside it.
    spec fn nested(&self, a: NodeId, b: NodeId) -> bool {
        self.has(a) && self.has(b) && self.pos@[a] < self.pos@[b] < self.end@[a] ==> self.end@[b]
            <= self.end@[a]
    }

    /// Between a parent and its child in pre-order stand only whole subtrees.
    spec fn nearest(&self, m: NodeId, x: NodeId) -> bool {
        self.has(m) && self.has(x) && self.link(m).parent is Some && self.pos@[self.link(
            m,
        ).parent->0] < self.pos@[x] < self.pos@[m] ==> self.end@[x] <= self.pos@[m]
    }

    spec fn order_ok(&self) -> bool {
        &&& self.order@.len() == self.payloads@.len()
        &&& forall|i: int|
            0 <= i < self.order@.len() ==> self.has(#[trigger] self.order@[i]) && self.pos@[self.order@[i]]
                == i
        &&& forall|id: NodeId| #[trigger] self.has(id) ==> self.order_node_ok(id)
        &&& forall|a: NodeId, b: NodeId| #[trigger] self.nested(a, b)
        &&& forall|m: NodeId, x: NodeId| #[trigger] self.nearest(m, x)
    }

    #[verifier::opaque]
    pub(crate) closed spec fn wf(&self) -> bool {
        &&& self.entries().dom().finite()
        &&& self.entries().dom().len() == self.payloads@.len()
        &&& forall|id: NodeId| #[trigger] self.has(id) ==> self.node_ok(id)
        &&& self.order_ok()
        &&& match self.root {
            Some(r) => self.has(r),
            None => self.payloads@.len() == 0,
        }
    }

    proof fn lemma_node(&self, id: NodeId)
        requires
            self.wf(),
            self.has(id),
        ensures
            self.node_ok(id),
            self.entries().dom().finite(),
            self.entries().dom().len() == self.payloads@.len(),
    {
        reveal(RawNodes::wf);
    }

    proof fn lemma_view_len(&self)
        requires
            self.wf(),
        ensures
            self.view().dom().finite(),
            self.view().dom().len() == self.payloads@.len(),
    {
        reveal(RawNodes::wf);
        let f = |b: u64| NodeId { tag: self.tag, bits: b };
        assert(self.entries().dom().map(f) =~= self.view().dom()) by {
            assert forall|id: NodeId| self.view().dom().contains(id) implies self.entries().dom().map(f).contains(id) by {
                assert(f(id.bits) == id);
            }
        }
        vstd::set_lib::lemma_map_size(self.entries().dom(), self.view().dom(), f);
    }

    proof fn lemma_next_up_fuel(&self, q: NodeId, f: nat)
        requires
            self.wf(),
            self.has(q),
            f > self.depth@[q],
        ensures
            next_up(self.view(), Some(q), f) == next_up(self.view(), Some(q), self.depth@[q] + 1),
        decreases self.depth@[q],
    {
        self.lemma_node(q);
        assert(self.view().contains_key(q));
        assert(self.view()[q].next_sibling == self.link(q).next_sibling);
        assert(self.view()[q].parent == self.link(q).parent);
        if self.link(q).next_sibling is None {
            if let Some(p) = self.link(q).parent {
                self.lemma_node(p);
                self.lemma_next_up_fuel(p, (f - 1) as nat);
                assert(next_up(self.view(), Some(q), f) == next_up(self.view(), Some(p), (f - 1) as nat));
                assert(next_up(self.view(), Some(q), self.depth@[q] + 1) == next_up(self.view(), Some(p), self.depth@[p] + 1));
            } else {
                assert(next_up(self.view(), None, (f - 1) as nat) is None);
                assert(next_up(self.view(), None, self.depth@[q]) is None);
            }
        }
    }

    pub(crate) fn get(&self, id: NodeId) -> (r: Option<&T>)
        requires
            self.wf(),
        ensures
            match r {
                Some(d) => self.view().contains_key(id) && *d == self.view()[id].data,
                None => !self.view().contains_key(id),
            },
    {
        if id.tag != self.tag {
            return None;
        }
        match arena_get(&self.arena, id) {
            Some(l) => {
                proof {
                    self.lemma_node(id);
                }
                Some(&self.payloads[l.payload])
            },
            None => None,
        }
    }

    pub(crate) fn links(&self, id: NodeId) -> (r: Option<Links>)
        requires
            self.wf(),
        ensures
            match r {
                Some(l) => {
                    &&& self.view().contains_key(id)
                    &&& l.parent == self.view()[id].parent
                    &&& l.prev_sibling == self.view()[id].prev_sibling
                    &&& l.next_sibling == self.view()[id].next_sibling
                    &&& l.first_child == self.view()[id].first_child
                    &&& l.last_child == self.view()[id].last_child
                },
                None => !self.view().contains_key(id),
            },
    {
        if id.tag != self.tag {
            return None;
        }
        arena_get(&self.arena, id)
    }

    /// Climbs from `n` to the first of it and its ancestors that has a next sibling.
    pub(crate) fn next_up_node(&self, n: NodeId) -> (r: Option<NodeId>)
        requires
            self.wf(),
            self.view().contains_key(n),
        ensures
            r == next_up(self.view(), Some(n), self.view().dom().len()),
    {
        proof {
            self.lemma_node(n);
            self.lemma_view_len();
            self.lemma_next_up_fuel(n, self.view().dom().len());
        }
        let ghost target = next_up(self.view(), Some(n), self.view().dom().len());
        let mut p = Some(n);
        loop
            invariant
                self.wf(),
                target == next_up(self.view(), Some(n), self.view().dom().len()),
                match p {
                    Some(q) => self.has(q) && next_up(self.view(), Some(q), self.depth@[q] + 1)
                        == target,
                    None => target is None,
                },
            decreases
                match p {
                    Some(q) => self.depth@[q] + 1,
                    None => 0,
                },
        {
            match p {
                None => {
                    return None;
                },
                Some(q) => {
                    proof {
                        self.lemma_node(q);
                    }
                    let ql = arena_get(&self.arena, q).unwrap();
                    if ql.next_sibling.is_some() {
                        return ql.next_sibling;
                    }
                    proof {
                        assert(self.view()[q].next_sibling is None);
                        assert(next_up(self.view(), Some(q), self.depth@[q] + 1) == next_up(
                            self.view(),
                            ql.parent,
                            self.depth@[q],
                        ));
                        if let Some(g) = ql.parent {
                            self.lemma_node(g);
                        } else {
                            assert(next_up(self.view(), None, self.depth@[q]) is None);
                        }
                    }
                    p = ql.parent;
                },
            }
        }
    }

    pub(crate) fn next_node(&self, n: NodeId) -> (r: Option<NodeId>)
        requires
            self.wf(),
            self.view().contains_key(n),
        ensures
            r == successor(self.view(), n),
    {
        let l = arena_get(&self.arena, n).unwrap();
        if l.first_child.is_some() {
            return l.first_child;
        }
        self.next_up_node(n)
    }

    proof fn lemma_chain(&self, p: NodeId, i: int, fuel: nat)
        requires
            self.wf(),
            self.has(p),
            0 <= i < self.kids@[p].len(),
            fuel >= self.kids@[p].len() - i,
        ensures
            sibling_chain(self.view(), Some(self.kids@[p][i]), fuel) == self.kids@[p].subrange(
                i,
                self.kids@[p].len() as int,
            ),
        decreases self.kids@[p].len() - i,
    {
        let ks = self.kids@[p];
        self.lemma_node(p);
        assert(self.has(ks[i]));
        if i + 1 < ks.len() {
            self.lemma_chain(p, i + 1, (fuel - 1) as nat);
            assert(ks.subrange(i, ks.len() as int) =~= seq![ks[i]] + ks.subrange(i + 1, ks.len() as int));
        } else {
            assert(sibling_chain(self.view(), None, (fuel - 1) as nat) =~= Seq::<NodeId>::empty());
            assert(ks.subrange(i, ks.len() as int) =~= seq![ks[i]]);
        }
    }

    proof fn lemma_children(&self, p: NodeId)
        requires
            self.wf(),
            self.has(p),
        ensures
            children(self.view(), p) == self.kids@[p],
            self.kids@[p].len() <= self.view().dom().len(),
    {
        let ks = self.kids@[p];
        self.lemma_node(p);
        self.lemma_view_len();
        ks.unique_seq_to_set();
        assert(ks.to_set().subset_of(self.view().dom())) by {
            assert forall|x: NodeId| ks.to_set().contains(x) implies self.view().dom().contains(x) by {
                let i = choose|i: int| 0 <= i < ks.len() && ks[i] == x;
                assert(self.has(ks[i]));
            }
        }
        vstd::set_lib::lemma_len_subset(ks.to_set(), self.view().dom());
        if ks.len() > 0 {
            self.lemma_chain(p, 0, self.view().dom().len());
            assert(ks.subrange(0, ks.len() as int) =~= ks);
        } else {
            assert(children(self.view(), p) =~= Seq::<NodeId>::empty());
        }
    }

    pub(crate) fn child_ids(&self, p: NodeId) -> (r: Vec<NodeId>)
        requires
            self.wf(),
            self.view().contains_key(p),
        ensures
            r@ == children(self.view(), p),
    {
        proof {
            self.lemma_children(p);
            self.lemma_node(p);
        }
        let ghost ks = self.kids@[p];
        let mut out: Vec<NodeId> = Vec::new();
        let mut cur = arena_get(&self.arena, p).unwrap().first_child;
        loop
            invariant
                self.wf(),
                self.has(p),
                ks == self.kids@[p],
                children(self.view(), p) == ks,
                self.kids_ok(p),
                out.len() <= ks.len(),
                out@ == ks.take(out.len() as int),
                cur == (if out.len() < ks.len() {
                    Some(ks[out.len() as int])
                } else {
                    None
                }),
            decreases ks.len() - out.len(),
        {
            match cur {
                None => {
                    assert(out@ =~= ks);
                    return out;
                },
                Some(c) => {
                    assert(self.has(ks[out.len() as int]));
                    out.push(c);
                    cur = arena_get(&self.arena, c).unwrap().next_sibling;
                    assert(out@ =~= ks.take(out.len() as int));
                },
            }
        }
    }

    /// The last node of the walk that starts at the root and follows `last_child`.
    pub(crate) fn last_node(&self) -> (r: Option<NodeId>)
        requires
            self.wf(),
        ensures
            match r {
                Some(n) => {
                    &&& self.spec_root() is Some
                    &&& self.view().contains_key(n)
                    &&& self.view()[n].last_child is None
                    &&& successor(self.view(), n) is None
                },
                None => self.spec_root() is None,
            },
    {
        match self.root {
            None => None,
            Some(root) => {
                proof {
                    reveal(RawNodes::wf);
                    assert(self.node_ok(root));
                    assert(self.view()[root].next_sibling is None);
                    assert(next_up(self.view(), None, self.depth@[root]) is None);
                }
                let mut cur = root;
                loop
                    invariant
                        self.wf(),
                        self.has(cur),
                        self.spec_root() is Some,
                        next_up(self.view(), Some(cur), self.depth@[cur] + 1) is None,
                    decreases self.payloads@.len() - self.depth@[cur],
                {
                    proof {
                        self.lemma_node(cur);
                    }
                    let l = arena_get(&self.arena, cur).unwrap();
                    match l.last_child {
                        None => {
                            proof {
                                self.lemma_view_len();
                                self.lemma_next_up_fuel(cur, self.view().dom().len());
                                assert(self.kids@[cur].len() == 0);
                            }
                            return Some(cur);
                        },
                        Some(c) => {
                            proof {
                                let ks = self.kids@[cur];
                                assert(ks[ks.len() - 1] == c);
                                assert(self.has(c));
                                self.lemma_node(c);
                                assert(self.view()[c].next_sibling is None);
                                assert(next_up(self.view(), Some(c), self.depth@[c] + 1) == next_up(self.view(), Some(cur), self.depth@[c]));
                            }
                            cur = c;
                        },
                    }
                }
            },
        }
    }


    pub(crate) proof fn lemma_links(&self, id: NodeId)
        requires
            self.wf(),
            self.view().contains_key(id),
        ensures
            ({
                let v = self.view();
                let l = v[id];
                &&& l.parent is None ==> l.prev_sibling is None && l.next_sibling is None
                &&& l.parent != Some(id)
                &&& l.last_child != Some(id)
                &&& l.first_child != Some(id)
                &&& (l.first_child is None <==> l.last_child is None)
                &&& match l.parent {
                    Some(q) => v.contains_key(q),
                    None => true,
                }
                &&& match l.prev_sibling {
                    Some(q) => v.contains_key(q),
                    None => true,
                }
                &&& match l.next_sibling {
                    Some(q) => v.contains_key(q),
                    None => true,
                }
                &&& match l.first_child {
                    Some(q) => v.contains_key(q),
                    None => true,
                }
                &&& match l.last_child {
                    Some(q) => v.contains_key(q),
                    None => true,
                }
            }),
    {
        self.lemma_node(id);
        let ks = self.kids@[id];
        if let Some(q) = self.link(id).parent {
            self.lemma_node(q);
            assert(q != id) by {
                if q == id {
                    assert(self.depth@[id] == self.depth@[id] + 1);
                }
            }
        }
        if ks.len() > 0 {
            assert(self.has(ks[0]));
            assert(self.has(ks[ks.len() - 1]));
            self.lemma_node(ks[0]);
            self.lemma_node(ks[ks.len() - 1]);
        }
    }

    pub(crate) proof fn lemma_tagged(&self)
        ensures
            forall|id: NodeId| #[trigger] self.view().contains_key(id) ==> id.tag == self.spec_tag(),
    {
    }

    pub(crate) proof fn lemma_single_root(&self)
        requires
            self.wf(),
        ensures
            forall|id: NodeId|
                #![trigger self.view()[id]]
                self.view().contains_key(id) ==> (self.view()[id].parent is None <==> self.spec_root()
                    == Some(id)),
            match self.spec_root() {
                Some(r) => self.view().contains_key(r),
                None => self.view().dom().len() == 0,
            },
    {
        reveal(RawNodes::wf);
        self.lemma_view_len();
        assert forall|id: NodeId| self.view().contains_key(id) implies (self.view()[id].parent is None
            <==> self.root == Some(id)) by {
            assert(self.node_ok(id));
        }
    }

    pub(crate) proof fn lemma_siblings(&self, a: NodeId, b: NodeId)
        requires
            self.wf(),
            self.view().contains_key(a),
            self.view().contains_key(b),
        ensures
            self.view()[a].next_sibling == Some(b) <==> self.view()[b].prev_sibling == Some(a),
    {
        self.lemma_node(a);
        self.lemma_node(b);
        if self.link(a).next_sibling == Some(b) {
            let q = self.link(a).parent->0;
            self.lemma_node(q);
            let ks = self.kids@[q];
            let i = choose|i: int| 0 <= i < ks.len() && ks[i] == a;
            assert(self.has(ks[i]));
            assert(ks[i + 1] == b);
            assert(self.has(ks[i + 1]));
        }
        if self.link(b).prev_sibling == Some(a) {
            let q = self.link(b).parent->0;
            self.lemma_node(q);
            let ks = self.kids@[q];
            let j = choose|j: int| 0 <= j < ks.len() && ks[j] == b;
            assert(self.has(ks[j]));
            assert(j > 0);
            assert(self.has(ks[j - 1]));
        }
    }

    /// The walk up from `q` lands just past the subtree of `q` in pre-order.
    proof fn lemma_next_up_order(&self, q: NodeId)
        requires
            self.wf(),
            self.has(q),
        ensures
            next_up(self.view(), Some(q), self.depth@[q] + 1) == (if self.end@[q]
                < self.payloads@.len() {
                Some(self.order@[self.end@[q]])
            } else {
                None
            }),
        decreases self.depth@[q],
    {
        self.lemma_node(q);
        self.lemma_order_node(q);
        reveal(RawNodes::order_node_ok);
        assert(self.view()[q].next_sibling == self.link(q).next_sibling);
        match self.link(q).next_sibling {
            Some(s) => {
                self.lemma_order_node(s);
            },
            None => {
                match self.link(q).parent {
                    Some(p) => {
                        self.lemma_node(p);
                        self.lemma_next_up_order(p);
                        self.lemma_order_node(p);
                    },
                    None => {
                        assert(next_up(self.view(), None, self.depth@[q]) is None);
                    },
                }
            },
        }
    }

    proof fn lemma_successor_order(&self, n: NodeId)
        requires
            self.wf(),
            self.has(n),
        ensures
            successor(self.view(), n) == (if self.pos@[n] + 1 < self.payloads@.len() {
                Some(self.order@[self.pos@[n] + 1])
            } else {
                None
            }),
            next_up(self.view(), Some(n), self.view().dom().len()) == (if self.end@[n]
                < self.payloads@.len() {
                Some(self.order@[self.end@[n]])
            } else {
                None
            }),
    {
        self.lemma_node(n);
        self.lemma_order_node(n);
        self.lemma_view_len();
        self.lemma_next_up_fuel(n, self.view().dom().len());
        self.lemma_next_up_order(n);
        reveal(RawNodes::order_node_ok);
        if let Some(f) = self.link(n).first_child {
            self.lemma_order_node(f);
            assert(self.order@.len() == self.payloads@.len()) by {
                reveal(RawNodes::wf);
            }
        }
    }

    proof fn lemma_order_index(&self, i: int)
        requires
            self.wf(),
            0 <= i < self.payloads@.len(),
        ensures
            self.order@.len() == self.payloads@.len(),
            self.has(self.order@[i]),
            self.pos@[self.order@[i]] == i,
    {
        reveal(RawNodes::wf);
    }

    proof fn lemma_walk_order(&self, i: int, k: nat)
        requires
            self.wf(),
            0 <= i <= self.payloads@.len(),
        ensures
            walk(
                self.view(),
                if i < self.payloads@.len() {
                    Some(self.order@[i])
                } else {
                    None
                },
                k,
            ) == self.order@.subrange(
                i,
                if i + k < self.payloads@.len() {
                    i + k
                } else {
                    self.payloads@.len() as int
                },
            ),
        decreases k,
    {
        let size = self.payloads@.len() as int;
        if i < size {
            self.lemma_order_index(i);
            let n = self.order@[i];
            if k > 0 {
                self.lemma_successor_order(n);
                self.lemma_walk_order(i + 1, (k - 1) as nat);
                let hi = if i + k < size {
                    i + k
                } else {
                    size
                };
                assert(self.order@.subrange(i, hi) =~= seq![n] + self.order@.subrange(i + 1, hi));
            } else {
                assert(self.order@.subrange(i, i) =~= Seq::<NodeId>::empty());
            }
        } else {
            assert(self.order@.len() == size) by {
                reveal(RawNodes::wf);
            }
            assert(self.order@.subrange(i, size) =~= Seq::<NodeId>::empty());
        }
    }

    proof fn lemma_descends_inside(&self, d: NodeId, a: NodeId, fuel: nat)
        requires
            self.wf(),
            descends(self.view(), d, a, fuel),
        ensures
            self.has(a),
            self.pos@[a] < self.pos@[d] < self.end@[a],
        decreases fuel,
    {
        self.lemma_node(d);
        self.lemma_order_node(d);
        reveal(RawNodes::order_node_ok);
        let q = self.link(d).parent->0;
        self.lemma_order_node(q);
        if q != a {
            self.lemma_descends_inside(q, a, (fuel - 1) as nat);
            self.lemma_nest(a, q);
        }
    }

    pub(crate) proof fn lemma_preorder(&self)
        requires
            self.wf(),
        ensures
            ({
                let w = walk(self.view(), self.spec_root(), self.view().dom().len());
                &&& w.len() == self.view().dom().len()
                &&& w.no_duplicates()
                &&& forall|id: NodeId| self.view().contains_key(id) <==> w.contains(id)
                &&& w.len() > 0 ==> successor(self.view(), w.last()) is None
            }),
    {
        let size = self.payloads@.len() as int;
        self.lemma_view_len();
        self.lemma_single_root();
        assert(self.order@.len() == size) by {
            reveal(RawNodes::wf);
        }
        if let Some(r) = self.root {
            self.lemma_order_node(r);
            self.lemma_node(r);
            reveal(RawNodes::order_node_ok);
            assert(self.order@[0] == r);
        }
        self.lemma_walk_order(0, self.view().dom().len());
        let w = walk(self.view(), self.root, self.view().dom().len());
        assert(w =~= self.order@);
        assert forall|a: int, b: int| 0 <= a < w.len() && 0 <= b < w.len() && a != b implies w[a] != w[b] by {
            self.lemma_order_index(a);
            self.lemma_order_index(b);
        }
        assert forall|id: NodeId| self.view().contains_key(id) <==> w.contains(id) by {
            if self.view().contains_key(id) {
                self.lemma_order_node(id);
                reveal(RawNodes::order_node_ok);
                assert(w[self.pos@[id]] == id);
            }
            if w.contains(id) {
                let i = choose|i: int| 0 <= i < w.len() && w[i] == id;
                self.lemma_order_index(i);
            }
        }
        if w.len() > 0 {
            self.lemma_order_index(size - 1);
            self.lemma_successor_order(w.last());
        }
    }

    pub(crate) proof fn lemma_skip_leaves_subtree(&self, x: NodeId, k: nat)
        requires
            self.wf(),
            self.view().contains_key(x),
        ensures
            forall|d: NodeId|
                #[trigger] walk(self.view(), next_up(self.view(), Some(x), self.view().dom().len()), k).contains(d)
                    ==> !descends(self.view(), d, x, self.view().dom().len()),
    {
        let size = self.payloads@.len() as int;
        self.lemma_successor_order(x);
        self.lemma_order_node(x);
        reveal(RawNodes::order_node_ok);
        let ex = self.end@[x];
        self.lemma_walk_order(ex, k);
        assert(self.order@.len() == size) by {
            reveal(RawNodes::wf);
        }
        let w = walk(self.view(), next_up(self.view(), Some(x), self.view().dom().len()), k);
        assert forall|d: NodeId| #[trigger] w.contains(d) implies !descends(self.view(), d, x, self.view().dom().len()) by {
            let j = choose|j: int| 0 <= j < w.len() && w[j] == d;
            self.lemma_order_index(ex + j);
            if descends(self.view(), d, x, self.view().dom().len()) {
                self.lemma_descends_inside(d, x, self.view().dom().len());
            }
        }
    }

    pub(crate) proof fn lemma_children_links(&self, p: NodeId)
        requires
            self.wf(),
            self.view().contains_key(p),
        ensures
            ({
                let ks = children(self.view(), p);
                &&& ks.no_duplicates()
                &&& self.view()[p].first_child == (if ks.len() == 0 {
                    None
                } else {
                    Some(ks[0])
                })
                &&& self.view()[p].last_child == (if ks.len() == 0 {
                    None
                } else {
                    Some(ks.last())
                })
                &&& forall|i: int|
                    0 <= i < ks.len() ==> {
                        &&& self.view().contains_key(#[trigger] ks[i])
                        &&& self.view()[ks[i]].parent == Some(p)
                        &&& self.view()[ks[i]].prev_sibling == (if i == 0 {
                            None
                        } else {
                            Some(ks[i - 1])
                        })
                        &&& self.view()[ks[i]].next_sibling == (if i + 1 < ks.len() {
                            Some(ks[i + 1])
                        } else {
                            None
                        })
                    }
            }),
    {
        self.lemma_children(p);
        self.lemma_node(p);
    }

    pub(crate) fn empty(tag: u64) -> (r: Self)
        ensures
            r.spec_tag() == tag,
            r.wf(),
            r.view() == Map::<NodeId, NodeView<T>>::empty(),
            r.spec_root() is None,
    {
        reveal(RawNodes::wf);
        let r = RawNodes {
            tag,
            arena: arena_new(),
            payloads: Vec::new(),
            root: None,
            kids: Ghost(Map::empty()),
            depth: Ghost(Map::empty()),
            order: Ghost(Seq::empty()),
            pos: Ghost(Map::empty()),
            end: Ghost(Map::empty()),
        };
        assert(r.view() =~= Map::<NodeId, NodeView<T>>::empty());
        r
    }

    pub(crate) fn insert_root(&mut self, data: T) -> (r: NodeId)
        requires
            old(self).wf(),
            old(self).spec_root() is None,
        ensures
            final(self).wf(),
            final(self).spec_root() == Some(r),
            final(self).spec_tag() == old(self).spec_tag(),
            r.tag == old(self).spec_tag(),
            final(self).view() == Map::<NodeId, NodeView<T>>::empty().insert(
                r,
                NodeView {
                    data,
                    parent: None,
                    prev_sibling: None,
                    next_sibling: None,
                    first_child: None,
                    last_child: None,
                },
            ),
    {
        proof {
            reveal(RawNodes::wf);
            if self.entries().dom().len() != 0 {
                let k = self.entries().dom().choose();
                assert(self.has(NodeId { tag: self.tag, bits: k }));
            }
        }
        let links = Links {
            parent: None,
            prev_sibling: None,
            next_sibling: None,
            first_child: None,
            last_child: None,
            payload: 0,
        };
        self.payloads.push(data);
        let bits = arena_insert(&mut self.arena, links);
        let r = NodeId { tag: self.tag, bits };
        self.root = Some(r);
        self.kids = Ghost(self.kids@.insert(r, Seq::empty()));
        self.depth = Ghost(self.depth@.insert(r, 0));
        self.order = Ghost(Seq::empty().push(r));
        self.pos = Ghost(Map::empty().insert(r, 0));
        self.end = Ghost(Map::empty().insert(r, 1));
        proof {
            assert(self.entries().dom() =~= set![r.bits]);
            assert forall|id: NodeId| #[trigger] self.has(id) implies id == r by {}
            reveal(RawNodes::order_node_ok);
            assert(self.order_node_ok(r));
            assert forall|a: NodeId, b: NodeId| #[trigger] self.nested(a, b) by {}
            assert forall|m: NodeId, x: NodeId| #[trigger] self.nearest(m, x) by {}
            assert(self.view() =~= Map::<NodeId, NodeView<T>>::empty().insert(
                r,
                NodeView {
                    data,
                    parent: None,
                    prev_sibling: None,
                    next_sibling: None,
                    first_child: None,
                    last_child: None,
                },
            ));
        }
        r
    }

    pub(crate) fn insert_child(&mut self, parent: NodeId, data: T) -> (c: NodeId)
        requires
            old(self).wf(),
            old(self).view().contains_key(parent),
            old(self).view().dom().len() < u32::MAX,
        ensures
            final(self).wf(),
            final(self).spec_root() == old(self).spec_root(),
            final(self).spec_tag() == old(self).spec_tag(),
            c.tag == old(self).spec_tag(),
            !old(self).view().contains_key(c),
            final(self).view() == appended(old(self).view(), parent, c, data),
            children(final(self).view(), parent) == children(old(self).view(), parent).push(c),
            forall|q: NodeId|
                q != parent && old(self).view().contains_key(q) ==> children(final(self).view(), q) == children(
                    old(self).view(),
                    q,
                ),
    {
        let ghost old_self = *self;
        proof {
            self.lemma_view_len();
            self.lemma_node(parent);
            if let Some(l) = self.link(parent).last_child {
                self.lemma_node(l);
            }
        }
        let pl = arena_get(&self.arena, parent).unwrap();
        let prev = pl.last_child;
        let payload = self.payloads.len();
        self.payloads.push(data);
        let bits = arena_insert(
            &mut self.arena,
            Links {
                parent: Some(parent),
                prev_sibling: prev,
                next_sibling: None,
                first_child: None,
                last_child: None,
                payload,
            },
        );
        let c = NodeId { tag: self.tag, bits };
        let first = if pl.first_child.is_none() {
            Some(c)
        } else {
            pl.first_child
        };
        arena_set(
            &mut self.arena,
            parent,
            Links {
                parent: pl.parent,
                prev_sibling: pl.prev_sibling,
                next_sibling: pl.next_sibling,
                first_child: first,
                last_child: Some(c),
                payload: pl.payload,
            },
        );
        if let Some(l) = prev {
            let ll = arena_get(&self.arena, l).unwrap();
            arena_set(
                &mut self.arena,
                l,
                Links {
                    parent: ll.parent,
                    prev_sibling: ll.prev_sibling,
                    next_sibling: Some(c),
                    first_child: ll.first_child,
                    last_child: ll.last_child,
                    payload: ll.payload,
                },
            );
        }
        self.kids = Ghost(self.kids@.insert(parent, self.kids@[parent].push(c)).insert(c, Seq::empty()));
        self.depth = Ghost(self.depth@.insert(c, self.depth@[parent] + 1));
        self.order = Ghost(old_self.order@.insert(old_self.end@[parent], c));
        self.pos = Ghost(shifted_pos(old_self, parent, c));
        self.end = Ghost(shifted_end(old_self, parent, c));
        proof {
            assert(self.entries().dom() =~= old_self.entries().dom().insert(c.bits));
            assert(order_step(old_self, *self, parent, c));
            lemma_append_keeps_wf(old_self, *self, parent, c, data);
            old_self.lemma_children(parent);
            self.lemma_children(parent);
            assert forall|q: NodeId|
                q != parent && old_self.has(q) implies children(self.view(), q) == children(
                    old_self.view(),
                    q,
                ) by {
                old_self.lemma_children(q);
                self.lemma_children(q);
            }
        }
        c
    }
}


/// The facts that `insert_child` establishes on its way, from which the invariant and
/// its exact effect follow.
spec fn append_step<T>(o: RawNodes<T>, n: RawNodes<T>, parent: NodeId, c: NodeId, data: T) -> bool {
    let pl = o.link(parent);
    &&& n.payloads@ == o.payloads@.push(data)
    &&& n.root == o.root
    &&& n.tag == o.tag
    &&& c.tag == o.tag
    &&& n.kids@ == o.kids@.insert(parent, o.kids@[parent].push(c)).insert(c, Seq::empty())
    &&& n.depth@ == o.depth@.insert(c, o.depth@[parent] + 1)
    &&& !o.has(c)
    &&& n.entries().dom() == o.entries().dom().insert(c.bits)
    &&& n.link(c) == Links {
        parent: Some(parent),
        prev_sibling: pl.last_child,
        next_sibling: None,
        first_child: None,
        last_child: None,
        payload: o.payloads@.len() as usize,
    }
    &&& n.link(c).payload == o.payloads@.len()
    &&& n.link(parent) == Links {
        first_child: if pl.first_child is None { Some(c) } else { pl.first_child },
        last_child: Some(c),
        ..pl
    }
    &&& match pl.last_child {
        Some(l) => n.link(l) == Links { next_sibling: Some(c), ..o.link(l) },
        None => true,
    }
    &&& forall|id: NodeId|
        #![trigger n.link(id)]
        o.has(id) && id != parent && pl.last_child != Some(id) ==> n.link(id) == o.link(id)
}

proof fn lemma_append_keeps_wf<T>(o: RawNodes<T>, n: RawNodes<T>, parent: NodeId, c: NodeId, data: T)
    requires
        o.wf(),
        o.has(parent),
        append_step(o, n, parent, c, data),
        order_step(o, n, parent, c),
    ensures
        n.wf(),
        n.view() == appended(o.view(), parent, c, data),
{
    reveal(RawNodes::wf);
    lemma_append_order(o, n, parent, c, data);
    assert(o.node_ok(parent));
    assert(!o.kids@[parent].contains(c)) by {
        if o.kids@[parent].contains(c) {
            let i = choose|i: int| 0 <= i < o.kids@[parent].len() && o.kids@[parent][i] == c;
            assert(o.has(o.kids@[parent][i]));
        }
    }
    assert forall|id: NodeId| #[trigger] n.has(id) implies n.node_ok(id) by {
        assert(n.entries().dom().contains(id.bits));
        if id == c {
            if let Some(r) = o.root {
                assert(o.has(r));
            }
            lemma_append_new_ok(o, n, parent, c, data);
        } else if id == parent {
            lemma_append_parent_ok(o, n, parent, c, data);
        } else {
            assert(o.has(id));
            assert(o.node_ok(id));
            lemma_append_other_ok(o, n, parent, c, data, id);
        }
    }
    assert(n.entries().dom().len() == n.payloads@.len());
    if let Some(l) = o.link(parent).last_child {
        let m = o.kids@[parent].len() - 1;
        assert(o.kids@[parent][m] == l);
        assert(o.has(l));
        assert(o.node_ok(l));
        assert(l != parent) by {
            if l == parent {
                assert(o.depth@[l] == o.depth@[parent] + 1);
            }
        }
    }
    assert forall|id: NodeId| #[trigger] n.view().contains_key(id) implies n.view()[id] == appended(o.view(), parent, c, data)[id] by {
        if id != c {
            assert(o.has(id));
            assert(o.node_ok(id));
            assert(n.link(id).payload == o.link(id).payload);
            assert(n.payloads@[o.link(id).payload as int] == o.payloads@[o.link(id).payload as int]);
            assert(o.view().contains_key(id));
            let a = appended(o.view(), parent, c, data);
            if id == parent {
                assert(n.view()[id].first_child == a[id].first_child);
                assert(n.view()[id].last_child == a[id].last_child);
                assert(n.view()[id].parent == a[id].parent);
                assert(n.view()[id].data == a[id].data);
            } else if o.link(parent).last_child == Some(id) {
                assert(n.view()[id].next_sibling == a[id].next_sibling);
                assert(n.view()[id].data == a[id].data);
            } else {
                assert(n.link(id) == o.link(id));
                assert(n.view()[id].data == a[id].data);
            }
        } else {
            let a = appended(o.view(), parent, c, data);
            assert(n.payloads@[o.payloads@.len() as int] == data);
            assert(n.view()[id].data == a[id].data);
            assert(n.view()[id].parent == a[id].parent);
            assert(n.view()[id].prev_sibling == a[id].prev_sibling);
            assert(n.view()[id].next_sibling == a[id].next_sibling);
            assert(n.view()[id].first_child == a[id].first_child);
            assert(n.view()[id].last_child == a[id].last_child);
        }
    }
    assert(n.view().dom() =~= appended(o.view(), parent, c, data).dom());
    assert(n.view() =~= appended(o.view(), parent, c, data));
}

proof fn lemma_append_new_ok<T>(o: RawNodes<T>, n: RawNodes<T>, parent: NodeId, c: NodeId, data: T)
    requires
        o.has(parent),
        o.node_ok(parent),
        append_step(o, n, parent, c, data),
        !o.kids@[parent].contains(c),
        n.root != Some(c),
    ensures
        n.node_ok(c),
{
    assert(n.has(parent));
    assert(n.kids@[parent] == o.kids@[parent].push(c));
    assert(n.kids@[parent].contains(c)) by {
        assert(n.kids@[parent][o.kids@[parent].len() as int] == c);
    }
    match o.link(parent).last_child {
        Some(l) => {
            assert(o.has(l));
            assert(n.has(l));
        },
        None => {},
    }
}

proof fn lemma_append_parent_ok<T>(o: RawNodes<T>, n: RawNodes<T>, parent: NodeId, c: NodeId, data: T)
    requires
        o.has(parent),
        o.node_ok(parent),
        append_step(o, n, parent, c, data),
        !o.kids@[parent].contains(c),
    ensures
        n.node_ok(parent),
{
    let ks = n.kids@[parent];
    let oks = o.kids@[parent];
    assert(ks == oks.push(c));
    assert forall|i: int| 0 <= i < ks.len() implies {
        &&& n.has(#[trigger] ks[i])
        &&& n.link(ks[i]).parent == Some(parent)
        &&& n.link(ks[i]).prev_sibling == (if i == 0 {
            None
        } else {
            Some(ks[i - 1])
        })
        &&& n.link(ks[i]).next_sibling == (if i + 1 < ks.len() {
            Some(ks[i + 1])
        } else {
            None
        })
    } by {
        if i < oks.len() {
            assert(ks[i] == oks[i]);
            assert(o.has(oks[i]));
            if i + 1 < oks.len() {
                assert(ks[i + 1] == oks[i + 1]);
            }
            if i > 0 {
                assert(ks[i - 1] == oks[i - 1]);
            }
            if oks[i] == parent {
                assert(o.depth@[parent] == o.depth@[parent] + 1);
            }
        } else {
            if i > 0 {
                assert(ks[i - 1] == oks[i - 1]);
            }
        }
    }
    assert(ks.no_duplicates());
    match o.link(parent).parent {
        Some(q) => {
            assert(o.has(q));
            assert(q != parent) by {
                if q == parent {
                    assert(o.depth@[parent] == o.depth@[parent] + 1);
                }
            }
            assert(n.kids@[q] == o.kids@[q]);
        },
        None => {},
    }
    if ks.len() > 0 {
        assert(n.has(ks[0]));
    }
}

proof fn lemma_append_other_ok<T>(
    o: RawNodes<T>,
    n: RawNodes<T>,
    parent: NodeId,
    c: NodeId,
    data: T,
    id: NodeId,
)
    requires
        o.has(parent),
        o.node_ok(parent),
        append_step(o, n, parent, c, data),
        !o.kids@[parent].contains(c),
        o.has(id),
        o.node_ok(id),
        id != parent,
        id != c,
    ensures
        n.node_ok(id),
{
    let ks = n.kids@[id];
    assert(ks == o.kids@[id]);
    let pl = o.link(parent);
    assert forall|i: int| 0 <= i < ks.len() implies {
        &&& n.has(#[trigger] ks[i])
        &&& n.link(ks[i]).parent == Some(id)
        &&& n.link(ks[i]).prev_sibling == (if i == 0 {
            None
        } else {
            Some(ks[i - 1])
        })
        &&& n.link(ks[i]).next_sibling == (if i + 1 < ks.len() {
            Some(ks[i + 1])
        } else {
            None
        })
    } by {
        assert(o.has(ks[i]));
        assert(ks[i] != c);
        if pl.last_child == Some(ks[i]) {
            let m = o.kids@[parent].len() - 1;
            assert(o.kids@[parent][m] == ks[i]);
            assert(o.link(ks[i]).parent == Some(parent));
        }
    }
    if ks.len() > 0 {
        assert(o.has(ks[0]));
    }
    match o.link(id).parent {
        Some(q) => {
            if q == parent {
                assert(o.kids@[parent].contains(id));
                let j = choose|j: int| 0 <= j < o.kids@[parent].len() && o.kids@[parent][j] == id;
                assert(n.kids@[parent][j] == id);
            } else {
                assert(o.has(q));
                assert(q != c);
            }
        },
        None => {},
    }
    match pl.last_child {
        Some(l) => {
            assert(o.has(l));
        },
        None => {},
    }
}



/// The pre-order index of each node once `c` goes in just past the subtree of `parent`.
spec fn shifted_pos<T>(o: RawNodes<T>, parent: NodeId, c: NodeId) -> Map<NodeId, int> {
    let e = o.end@[parent];
    Map::new(
        |m: NodeId| o.has(m) || m == c,
        |m: NodeId|
            if m == c {
                e
            } else if o.pos@[m] >= e {
                o.pos@[m] + 1
            } else {
                o.pos@[m]
            },
    )
}

/// Where each subtree ends once `c` goes in just past the subtree of `parent`: the
/// subtrees that contain that place grow by one.
spec fn shifted_end<T>(o: RawNodes<T>, parent: NodeId, c: NodeId) -> Map<NodeId, int> {
    let e = o.end@[parent];
    Map::new(
        |m: NodeId| o.has(m) || m == c,
        |m: NodeId|
            if m == c {
                e + 1
            } else if o.end@[m] > e || (o.end@[m] == e && o.pos@[m] <= o.pos@[parent]) {
                o.end@[m] + 1
            } else {
                o.end@[m]
            },
    )
}

spec fn order_step<T>(o: RawNodes<T>, n: RawNodes<T>, parent: NodeId, c: NodeId) -> bool {
    &&& n.order@ == o.order@.insert(o.end@[parent], c)
    &&& n.pos@ == shifted_pos(o, parent, c)
    &&& n.end@ == shifted_end(o, parent, c)
}

/// The facts about one old node that the pre-order bookkeeping of its new state rests on.
spec fn order_facts<T>(o: RawNodes<T>, parent: NodeId, id: NodeId) -> bool {
    let l = o.link(id);
    &&& o.has(id)
    &&& o.order_node_ok(id)
    &&& o.nested(parent, id)
    &&& o.nearest(id, parent)
    &&& match l.first_child {
        Some(f) => o.has(f) && o.order_node_ok(f) && o.link(f).parent == Some(id),
        None => true,
    }
    &&& match l.next_sibling {
        Some(s) => o.has(s) && o.order_node_ok(s) && o.link(s).parent == l.parent,
        None => true,
    }
    &&& match l.parent {
        Some(q) => {
            &&& o.has(q)
            &&& o.order_node_ok(q)
            &&& o.nested(parent, q)
            &&& q != id
            &&& (l.next_sibling is None ==> o.link(q).last_child == Some(id))
        },
        None => l.next_sibling is None,
    }
}

impl<T> RawNodes<T> {
    proof fn lemma_order_node(&self, id: NodeId)
        requires
            self.wf(),
            self.has(id),
        ensures
            self.order_node_ok(id),
    {
        reveal(RawNodes::wf);
    }

    proof fn lemma_nest(&self, a: NodeId, b: NodeId)
        requires
            self.wf(),
        ensures
            self.nested(a, b),
            self.nearest(a, b),
    {
        reveal(RawNodes::wf);
    }

    proof fn lemma_order_facts(&self, parent: NodeId, id: NodeId)
        requires
            self.wf(),
            self.has(id),
        ensures
            order_facts(*self, parent, id),
    {
        self.lemma_node(id);
        self.lemma_order_node(id);
        self.lemma_nest(parent, id);
        self.lemma_nest(id, parent);
        let l = self.link(id);
        if let Some(f) = l.first_child {
            self.lemma_node(f);
            self.lemma_order_node(f);
            let ks = self.kids@[id];
            assert(self.has(ks[0]));
        }
        if let Some(q) = l.parent {
            self.lemma_node(q);
            self.lemma_order_node(q);
            self.lemma_nest(parent, q);
            assert(q != id) by {
                if q == id {
                    assert(self.depth@[id] == self.depth@[id] + 1);
                }
            }
            let ks = self.kids@[q];
            let i = choose|i: int| 0 <= i < ks.len() && ks[i] == id;
            assert(self.has(ks[i]));
            if let Some(s) = l.next_sibling {
                assert(self.has(ks[i + 1]));
                self.lemma_node(s);
                self.lemma_order_node(s);
            }
        } else {
            assert(l.next_sibling is None);
        }
    }
}

proof fn lemma_append_order<T>(o: RawNodes<T>, n: RawNodes<T>, parent: NodeId, c: NodeId, data: T)
    requires
        o.wf(),
        o.has(parent),
        append_step(o, n, parent, c, data),
        order_step(o, n, parent, c),
    ensures
        n.order_ok(),
{
    let e = o.end@[parent];
    o.lemma_order_facts(parent, parent);
    assert(o.order@.len() == o.payloads@.len()) by {
        reveal(RawNodes::wf);
    }
    assert(0 <= e <= o.order@.len()) by {
        reveal(RawNodes::order_node_ok);
    }
    assert(n.order@.len() == n.payloads@.len());
    lemma_append_order_index(o, n, parent, c, data);
    assert forall|id: NodeId| #[trigger] n.has(id) implies n.order_node_ok(id) by {
        assert(n.entries().dom().contains(id.bits));
        if id != c {
            o.lemma_order_facts(parent, id);
        }
        if let Some(l) = o.link(parent).last_child {
            o.lemma_node(parent);
            let ks = o.kids@[parent];
            assert(ks[ks.len() - 1] == l);
            assert(o.has(l));
            o.lemma_order_facts(parent, l);
        }
        lemma_append_order_node(o, n, parent, c, data, id);
    }
    assert forall|a: NodeId, b: NodeId| #[trigger] n.nested(a, b) by {
        if n.has(a) && n.has(b) {
            assert(n.entries().dom().contains(a.bits));
            assert(n.entries().dom().contains(b.bits));
            if a != c {
                o.lemma_order_node(a);
            }
            if b != c {
                o.lemma_order_node(b);
            }
            o.lemma_nest(a, b);
            lemma_append_nested(o, n, parent, c, data, a, b);
        }
    }
    assert forall|m: NodeId, x: NodeId| #[trigger] n.nearest(m, x) by {
        if n.has(m) && n.has(x) {
            assert(n.entries().dom().contains(m.bits));
            assert(n.entries().dom().contains(x.bits));
            if m != c {
                o.lemma_order_node(m);
                if let Some(q) = o.link(m).parent {
                    o.lemma_node(m);
                    o.lemma_order_node(q);
                }
            }
            if x != c {
                o.lemma_order_node(x);
            }
            o.lemma_nest(m, x);
            o.lemma_nest(parent, x);
            lemma_append_nearest(o, n, parent, c, data, m, x);
        }
    }
}

proof fn lemma_append_order_index<T>(o: RawNodes<T>, n: RawNodes<T>, parent: NodeId, c: NodeId, data: T)
    requires
        o.wf(),
        o.has(parent),
        0 <= o.end@[parent] <= o.order@.len(),
        append_step(o, n, parent, c, data),
        order_step(o, n, parent, c),
    ensures
        forall|i: int|
            0 <= i < n.order@.len() ==> n.has(#[trigger] n.order@[i]) && n.pos@[n.order@[i]] == i,
{
    let e = o.end@[parent];
    assert forall|i: int| 0 <= i < n.order@.len() implies n.has(#[trigger] n.order@[i]) && n.pos@[n.order@[i]] == i by {
        reveal(RawNodes::wf);
        if i < e {
            assert(n.order@[i] == o.order@[i]);
            assert(o.has(o.order@[i]));
        } else if i > e {
            assert(n.order@[i] == o.order@[i - 1]);
            assert(o.has(o.order@[i - 1]));
        }
    }
}

proof fn lemma_append_nested<T>(
    o: RawNodes<T>,
    n: RawNodes<T>,
    parent: NodeId,
    c: NodeId,
    data: T,
    a: NodeId,
    b: NodeId,
)
    requires
        o.has(parent),
        o.order_node_ok(parent),
        append_step(o, n, parent, c, data),
        order_step(o, n, parent, c),
        n.has(a),
        n.has(b),
        a != c ==> o.has(a) && o.order_node_ok(a),
        b != c ==> o.has(b) && o.order_node_ok(b),
        o.nested(a, b),
    ensures
        n.nested(a, b),
{
    reveal(RawNodes::order_node_ok);
}

proof fn lemma_append_nearest<T>(
    o: RawNodes<T>,
    n: RawNodes<T>,
    parent: NodeId,
    c: NodeId,
    data: T,
    m: NodeId,
    x: NodeId,
)
    requires
        o.has(parent),
        o.order_node_ok(parent),
        append_step(o, n, parent, c, data),
        order_step(o, n, parent, c),
        n.has(m),
        n.has(x),
        m != c ==> o.has(m) && o.order_node_ok(m) && match o.link(m).parent {
            Some(q) => o.has(q) && o.order_node_ok(q),
            None => true,
        },
        x != c ==> o.has(x) && o.order_node_ok(x),
        o.nearest(m, x),
        o.nested(parent, x),
    ensures
        n.nearest(m, x),
{
    reveal(RawNodes::order_node_ok);
    if m != c {
        assert(n.link(m).parent == o.link(m).parent);
    }
}

proof fn lemma_append_order_node<T>(
    o: RawNodes<T>,
    n: RawNodes<T>,
    parent: NodeId,
    c: NodeId,
    data: T,
    id: NodeId,
)
    requires
        o.has(parent),
        order_facts(o, parent, parent),
        append_step(o, n, parent, c, data),
        order_step(o, n, parent, c),
        n.has(id),
        o.order@.len() == o.payloads@.len(),
        id != c ==> order_facts(o, parent, id),
        match o.link(parent).last_child {
            Some(l) => order_facts(o, parent, l) && o.link(l).next_sibling is None && o.link(l).parent
                == Some(parent),
            None => true,
        },
    ensures
        n.order_node_ok(id),
{
    reveal(RawNodes::order_node_ok);
    let e = o.end@[parent];
    let pp = o.pos@[parent];
    assert(0 <= pp < e <= o.payloads@.len());
    assert(n.pos@[parent] == pp);
    assert(n.end@[parent] == e + 1);
    if id == c {
        assert(n.pos@[c] == e);
        assert(n.end@[c] == e + 1);
        assert(n.order@[e] == c);
        return;
    }
    assert(o.has(id));
    let ol = o.link(id);
    let nl = n.link(id);
    let pi = o.pos@[id];
    let ei = o.end@[id];
    assert(0 <= pi < ei <= o.payloads@.len());
    assert(n.pos@[id] == if pi >= e { pi + 1 } else { pi });
    assert(n.end@[id] == if ei > e || (ei == e && pi <= pp) { ei + 1 } else { ei });
    assert(n.order@[n.pos@[id]] == id);
    if id != parent && o.link(parent).last_child != Some(id) {
        assert(nl == ol);
    }
    assert(nl.parent == ol.parent);
    // the first child
    match nl.first_child {
        Some(f) => {
            if id == parent && ol.first_child is None {
                assert(f == c);
                assert(ei == pi + 1);
            } else {
                assert(ol.first_child == Some(f));
                assert(o.has(f));
                assert(o.pos@[f] == pi + 1);
                assert(n.pos@[f] == if pi + 1 >= e { pi + 2 } else { pi + 1 });
                if pi + 1 == e {
                    assert(o.nested(parent, id));
                    assert(o.pos@[f] < o.end@[f] <= ei);
                }
            }
        },
        None => {
            assert(ol.first_child is None);
            assert(ei == pi + 1);
        },
    }
    // the next sibling, or where the subtree ends
    match nl.next_sibling {
        Some(s) => {
            if o.link(parent).last_child == Some(id) && ol.next_sibling is None {
                assert(s == c);
                assert(ei == e);
                assert(pi > pp);
                assert(n.pos@[c] == e);
                assert(n.end@[id] == e);
                assert(n.pos@[s] == n.end@[id]);
            } else {
                assert(ol.next_sibling == Some(s));
                assert(o.has(s));
                assert(o.pos@[s] == ei);
                assert(n.pos@[s] == if ei >= e { ei + 1 } else { ei });
                if ei == e && pi > pp {
                    let q = ol.parent->0;
                    assert(o.link(s).parent == Some(q));
                    assert(o.pos@[q] < o.pos@[s] && o.end@[s] <= o.end@[q]);
                    assert(o.nested(parent, q));
                    assert(o.nearest(id, parent));
                    assert(o.nested(parent, id));
                    if o.pos@[q] == pp {
                        assert(q == parent);
                    }
                    assert(false);
                }
                assert(n.pos@[s] == n.end@[id]);
            }
        },
        None => {
            assert(ol.next_sibling is None);
            match ol.parent {
                Some(q) => {
                    assert(o.has(q));
                    assert(ei == o.end@[q]);
                    assert(o.pos@[q] < pi);
                    let eq = o.end@[q];
                    assert(n.end@[q] == if eq > e || (eq == e && o.pos@[q] <= pp) { eq + 1 } else { eq });
                    if ei == e && o.pos@[q] <= pp && pi > pp {
                        if o.pos@[q] == pp {
                            assert(q == parent);
                        }
                        if q == parent {
                            assert(o.link(parent).last_child == Some(id));
                            assert(nl.next_sibling == Some(c));
                        } else {
                            assert(o.nearest(id, parent));
                        }
                        assert(false);
                    }
                    assert(n.end@[id] == n.end@[q]);
                },
                None => {
                    assert(ei == o.payloads@.len());
                },
            }
        },
    }
    assert(nl.next_sibling is Some ==> n.pos@[nl.next_sibling->0] == n.end@[id]);
    match ol.parent {
        Some(q) => {
            assert(o.has(q));
            assert(o.pos@[q] < pi && ei <= o.end@[q]);
            let eq = o.end@[q];
            assert(n.pos@[q] == if o.pos@[q] >= e { o.pos@[q] + 1 } else { o.pos@[q] });
            assert(n.end@[q] == if eq > e || (eq == e && o.pos@[q] <= pp) { eq + 1 } else { eq });
        },
        None => {},
    }
    assert(n.pos@.contains_key(id) && n.end@.contains_key(id));
    assert(0 <= n.pos@[id] < n.end@[id] <= n.payloads@.len());
    assert(match nl.first_child {
        Some(f) => n.pos@[f] == n.pos@[id] + 1,
        None => n.end@[id] == n.pos@[id] + 1,
    });
    assert(match nl.next_sibling {
        Some(s) => n.pos@[s] == n.end@[id],
        None => match nl.parent {
            Some(q) => n.end@[id] == n.end@[q],
            None => n.end@[id] == n.payloads@.len(),
        },
    });
    assert(match nl.parent {
        Some(q) => n.pos@[q] < n.pos@[id] && n.end@[id] <= n.end@[q],
        None => n.pos@[id] == 0,
    });
}

} // verus!
