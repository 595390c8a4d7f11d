//! Built-in widgets: the types that describe the data of some widgets.
use vstd::prelude::*;

verus! {

/// The data of a widget.
pub trait View {

}

/// A user interface that presents its state as a [`View`] borrowed from it.
pub trait Ui {
    type View<'view>: View + 'view where Self: 'view;

    fn view(&mut self) -> Self::View<'_>;
}

} // verus!
