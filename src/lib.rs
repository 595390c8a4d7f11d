//! An arena-backed retained tree: one persistent node per UI element, children appended
//! through scoped cursors, and a deterministic pre-order walk.
mod arena;
pub mod native;
mod nodes;
pub mod render;
pub mod retained;
pub mod store;
pub mod tree;
pub mod view;
pub mod widgets;

pub use arena::NodeId;
pub use render::{Error, Image, Renderer};
pub use retained::{Node, RetainedTree, VisitAction};
pub use store::{NodeStore, NodeView};
pub use tree::{DepthFirst, Slot, Tree};
pub use view::{Context, NativeNode, SlotIdentity, View, ViewNode};
