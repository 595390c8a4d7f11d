use retained::view::Node;
use retained::{Context, View, ViewNode};

struct Doubled(u32);

impl View<()> for Doubled {
    type State = u32;

    fn build(&self) -> u32 {
        self.0 * 2
    }
}

#[test]
fn node_builds_and_rebuilds_its_state() {
    let mut node: Node<(), Doubled> = Node::new(Doubled(21));
    assert_eq!(*node.state(), 42);
    node.rebuild();
    assert_eq!(*node.state(), 42);
}

#[test]
fn context_returns_its_data() {
    let ctx: Context<String, Node<String, Label>> = Context::new(String::from("data"));
    assert_eq!(ctx.into_inner(), "data");
    let native = retained::native::Context::new(7u8);
    assert_eq!(native.into_inner(), 7);
}

struct Label;

impl View<String> for Label {
    type State = ();

    fn build(&self) {}
}

#[test]
fn slot_identity_is_nonzero() {
    assert!(retained::SlotIdentity::<u8>::new(0).is_none());
    assert_eq!(retained::SlotIdentity::<u8>::new(9).map(|s| s.id()), Some(9));
}
