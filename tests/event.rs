use capstan::event::Event;
use capstan::graph::CompiledGraph;

#[test]
fn test_event_no_heap_allocation() {
    assert!(
        std::mem::size_of::<Event<Box<CompiledGraph<u32, f32>>>>() <= 16,
        "Event must be small"
    );
}

#[test]
fn test_event_equality() {
    let event1: Event<()> = Event::NoOp;
    let event2 = event1.clone();
    assert_eq!(event1, event2);
}
