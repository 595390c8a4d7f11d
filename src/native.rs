//! The context of a native toolkit.
use crate::view::{self, NativeNode, ViewNode};
use vstd::prelude::*;

verus! {

/// The context of a native toolkit, whose view nodes are type erased.
#[verifier::reject_recursive_types(Data)]
pub struct Context<Data> {
    inner: view::Context<Data, Box<dyn NativeNode<Data>>>,
}

impl<Data> ViewNode<Data> for Box<dyn NativeNode<Data>> {
    fn rebuild(&mut self) {
        (**self).rebuild()
    }
}

impl<Data> NativeNode<Data> for Box<dyn NativeNode<Data>> {

}

impl<Data> Context<Data> {
    /// The data of the context.
    pub closed spec fn spec_data(&self) -> Data {
        self.inner.spec_data()
    }

    /// A context over `data`, with no view nodes yet.
    pub fn new(data: Data) -> (r: Self)
        ensures
            r.spec_data() == data,
    {
        Context { inner: view::Context::new(data) }
    }

    /// Consumes the context, returning the data associated with it.
    pub fn into_inner(self) -> (r: Data)
        ensures
            r == self.spec_data(),
    {
        self.inner.into_inner()
    }
}

} // verus!
