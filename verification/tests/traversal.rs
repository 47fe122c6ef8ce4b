use voxoil::tree::branch::Address;
use voxoil::tree::traversal::{ChildSlot, TraversalStack, TraversalStep};

#[test]
fn traversal_stack_debug_output() {
    let mut stack = TraversalStack::default();
    stack.push(TraversalStep {
        to: Address(0x4000000000000000), // A solid fork at index 0
        slot: ChildSlot::new(3).unwrap(),
    });
    stack.push(TraversalStep {
        to: Address(0xC000000000000001), // A solid end at index 1
        slot: ChildSlot::new(5).unwrap(),
    });

    let debug_output = stack.debug_string();

    let expected_output = "\
TraversalStack (2 steps):
├─ TraversalStep { to: Address { raw: 0x4000000000000000, is_end: false, is_solid: true, index: 0x0000000000000000 }, slot: ChildSlot(3) }
└─ TraversalStep { to: Address { raw: 0xC000000000000001, is_end: true, is_solid: true, index: 0x0000000000000001 }, slot: ChildSlot(5) }
";
    assert_eq!(debug_output, expected_output);
}

#[test]
fn traversal_child_slot_bounds() {
    assert!(ChildSlot::new(64).is_none());
    assert_eq!(ChildSlot::new(63).unwrap().get(), 63);
    assert_eq!(*ChildSlot::new(7).unwrap(), 7);
    assert_eq!(format!("{:?}", ChildSlot::new(3).unwrap()), "ChildSlot(3)");
}

#[test]
fn traversal_stack_clone_and_steps() {
    let mut stack = TraversalStack::new();
    assert_eq!(stack.debug_string(), "TraversalStack (0 steps):\n");
    stack.push(TraversalStep { to: Address(9), slot: ChildSlot::new(1).unwrap() });
    let copy = stack.clone();
    assert_eq!(copy.len(), 1);
    assert!(copy.step(0).to == Address(9));
    assert_eq!(
        copy.step(0).debug_string(),
        "TraversalStep { to: Address { raw: 0x0000000000000009, is_end: false, is_solid: false, index: 0x0000000000000009 }, slot: ChildSlot(1) }"
    );
}
