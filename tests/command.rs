use capstan::command::Command;
use capstan::graph::CompiledGraph;

#[test]
fn test_command_no_heap_allocation() {
    assert!(
        std::mem::size_of::<Command<f32, Box<CompiledGraph<u32, f32>>>>() <= 16,
        "Command must be small"
    );
}

#[test]
fn test_command_equality() {
    let command1: Command<f32, ()> = Command::NoOp;
    let command2 = command1.clone();
    assert_eq!(command1, command2);
}
