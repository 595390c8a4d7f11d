//! The traits through which UI elements build and rebuild their retained state.
use vstd::prelude::*;

verus! {

/// A description of UI that builds a retained state.
pub trait View<T>: Sized {
    type State: Sized;

    fn build(&self) -> Self::State;
}

/// An object-safe view node which type erases a [`View`]. It may be extended to let
/// nodes give more, such as layout or accessibility information.
pub trait ViewNode<T> {
    fn rebuild(&mut self);
}

/// A view node of a native toolkit.
pub trait NativeNode<T>: ViewNode<T> {

}

/// The identity of a slot's retained state: a nonzero id, typed by the state it names.
pub struct SlotIdentity<T> {
    id: u64,
    _marker: core::marker::PhantomData<T>,
}

impl<T> SlotIdentity<T> {
    /// The id.
    pub closed spec fn spec_id(&self) -> u64 {
        self.id
    }

    #[verifier::type_invariant]
    spec fn nonzero(&self) -> bool {
        self.id != 0
    }

    /// The identity with id `id`; `None` for zero, which names no slot.
    pub fn new(id: u64) -> (r: Option<Self>)
        ensures
            r is Some <==> id != 0,
            r matches Some(s) ==> s.spec_id() == id,
    {
        if id == 0 {
            None
        } else {
            Some(SlotIdentity { id, _marker: core::marker::PhantomData })
        }
    }

    /// The id, never zero.
    #[verifier::when_used_as_spec(spec_id)]
    pub fn id(&self) -> (r: u64)
        ensures
            r == self.spec_id(),
            r != 0,
    {
        proof {
            use_type_invariant(self);
        }
        self.id
    }
}

/// A view with the state it last built, type erased behind [`ViewNode`].
pub struct Node<T, V: View<T>> {
    view: V,
    state: V::State,
}

impl<T, V: View<T>> Node<T, V> {
    /// The view held.
    pub closed spec fn spec_view(&self) -> V {
        self.view
    }

    /// The state last built.
    pub closed spec fn spec_state(&self) -> V::State {
        self.state
    }

    /// A node that holds `view` and the state it builds.
    pub fn new(view: V) -> (r: Self)
        ensures
            r.spec_view() == view,
            call_ensures(V::build, (&view,), r.spec_state()),
    {
        let state = view.build();
        Node { view, state }
    }

    /// The state last built.
    pub fn state(&self) -> (r: &V::State)
        ensures
            *r == self.spec_state(),
    {
        &self.state
    }
}

impl<T, V: View<T>> ViewNode<T> for Node<T, V> {
    fn rebuild(&mut self) {
        self.state = self.view.build();
    }
}

/// The main object of a UI: the view nodes, updated incrementally as events are
/// processed, and the data they present.
pub struct Context<Data, Node> {
    storage: Vec<Node>,
    data: Data,
}

impl<Data, Node> Context<Data, Node> where Node: ViewNode<Data> {
    /// The data of the context.
    pub closed spec fn spec_data(&self) -> Data {
        self.data
    }

    /// The view nodes.
    pub closed spec fn nodes(&self) -> Seq<Node> {
        vstd::view::View::view(&self.storage)
    }

    /// A context over `data`, with no view nodes yet.
    pub fn new(data: Data) -> (r: Self)
        ensures
            r.spec_data() == data,
            r.nodes().len() == 0,
    {
        Context { storage: Vec::new(), data }
    }

    /// Consumes the context, returning the data associated with it.
    pub fn into_inner(self) -> (r: Data)
        ensures
            r == self.spec_data(),
    {
        self.data
    }
}

} // verus!
