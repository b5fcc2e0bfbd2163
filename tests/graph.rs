use capstan::audio_buffer::AudioBuffer;
use capstan::graph::{AudioGraph, CompiledGraph, NodeId};
use capstan::processor::Processor;

/// Stand-in for the audio nodes, with arithmetic simple enough to predict:
/// a "sine" writes its frequency on every sample.
#[derive(Clone, Debug, PartialEq)]
enum TestNode {
    Sine(f32, u32),
    Gain(f32),
    Mixer(Vec<f32>),
}

impl Processor<f32> for TestNode {
    fn process(&mut self, buffers: &[AudioBuffer<f32>], inputs: &[usize], output: &mut [f32]) {
        for (i, sample) in output.iter_mut().enumerate() {
            *sample = match self {
                TestNode::Sine(freq, _) => *freq,
                TestNode::Gain(g) => {
                    inputs
                        .first()
                        .and_then(|&j| buffers[j].as_slice().get(i))
                        .copied()
                        .unwrap_or(0.0)
                        * *g
                }
                TestNode::Mixer(gains) => inputs
                    .iter()
                    .enumerate()
                    .map(|(k, &j)| {
                        buffers[j].as_slice().get(i).copied().unwrap_or(0.0)
                            * gains.get(k).copied().unwrap_or(0.0)
                    })
                    .sum(),
            };
        }
    }
}

fn chain(gain: f32) -> AudioGraph<TestNode> {
    let mut g = AudioGraph::new();
    g.add_node(TestNode::Sine(440.0, 48_000));
    g.add_node(TestNode::Gain(gain));
    g.add_edge(NodeId::new(0), NodeId::new(1));
    g
}

#[test]
fn test_node_id_roundtrip() {
    for n in 0..10 {
        assert_eq!(NodeId::new(n).as_usize(), n);
    }
}

#[test]
fn test_node_id_equality() {
    assert_eq!(NodeId::new(0), NodeId::new(0));
    assert_ne!(NodeId::new(0), NodeId::new(1));
}

#[test]
fn test_audio_graph_new_is_empty() {
    assert_eq!(AudioGraph::<TestNode>::new().node_count(), 0);
}

#[test]
fn test_audio_graph_add_node_returns_id_and_increases_count() {
    let mut g = AudioGraph::new();
    let sine = g.add_node(TestNode::Sine(440.0, 48_000));
    let gain = g.add_node(TestNode::Gain(0.5));
    assert_eq!(g.node_count(), 2);
    assert_eq!(sine, NodeId::new(0));
    assert_eq!(gain, NodeId::new(1));
}

#[test]
fn test_audio_graph_add_edge_and_successors() {
    let mut g = AudioGraph::new();
    g.add_node(TestNode::Sine(440.0, 48_000));
    g.add_node(TestNode::Gain(0.5));
    g.add_edge(NodeId::new(0), NodeId::new(1));
    assert_eq!(g.successors(NodeId::new(0)), &[NodeId::new(1)]);
    assert_eq!(g.successors(NodeId::new(1)), &[] as &[NodeId]);
}

#[test]
fn test_topological_sort_linear_chain() {
    let g = chain(0.5);
    let order = g.topological_sort().unwrap();
    assert_eq!(order, vec![NodeId::new(0), NodeId::new(1)]);
}

#[test]
fn test_topological_sort_cycle_returns_err() {
    let mut g = chain(0.5);
    g.add_edge(NodeId::new(1), NodeId::new(0));
    assert!(g.topological_sort().is_err());
}

#[test]
fn topological_sort_of_empty_graph_is_empty() {
    let g: AudioGraph<TestNode> = AudioGraph::new();
    assert_eq!(g.topological_sort(), Ok(vec![]));
}

#[test]
fn topological_sort_orders_reversed_edges() {
    // 2 -> 1 -> 0: the only valid order is the reverse of the ids.
    let mut g = AudioGraph::new();
    for _ in 0..3 {
        g.add_node(TestNode::Gain(1.0));
    }
    g.add_edge(NodeId::new(2), NodeId::new(1));
    g.add_edge(NodeId::new(1), NodeId::new(0));
    assert_eq!(
        g.topological_sort(),
        Ok(vec![NodeId::new(2), NodeId::new(1), NodeId::new(0)])
    );
}

#[test]
fn topological_sort_breaks_ties_by_ascending_id() {
    // Sources 0, 1 and 3 feed 2; 3 also feeds 4.
    let mut g = AudioGraph::new();
    for _ in 0..5 {
        g.add_node(TestNode::Gain(1.0));
    }
    g.add_edge(NodeId::new(0), NodeId::new(2));
    g.add_edge(NodeId::new(1), NodeId::new(2));
    g.add_edge(NodeId::new(3), NodeId::new(2));
    g.add_edge(NodeId::new(3), NodeId::new(4));
    assert_eq!(
        g.topological_sort(),
        Ok(vec![
            NodeId::new(0),
            NodeId::new(1),
            NodeId::new(3),
            NodeId::new(2),
            NodeId::new(4)
        ])
    );
}

#[test]
fn topological_sort_self_loop_is_a_cycle() {
    let mut g = AudioGraph::new();
    g.add_node(TestNode::Gain(1.0));
    g.add_edge(NodeId::new(0), NodeId::new(0));
    assert!(g.topological_sort().is_err());
    assert!(g.compile::<f32>(64).is_err());
}

#[test]
fn topological_sort_with_duplicate_edges() {
    let mut g = chain(0.5);
    g.add_edge(NodeId::new(0), NodeId::new(1));
    assert_eq!(g.topological_sort(), Ok(vec![NodeId::new(0), NodeId::new(1)]));
}

#[test]
fn compile_chain_wires_generator_into_gain() {
    let g = chain(0.25);
    let plan: CompiledGraph<TestNode, f32> = g.compile(64).unwrap();
    assert_eq!(plan.node_count(), 2);
    assert_eq!(plan.frame_count(), 64);
    assert_eq!(plan.inputs_of(0), &[] as &[usize]);
    assert_eq!(plan.inputs_of(1), &[0]);
    assert_eq!(plan.node(0), &TestNode::Sine(440.0, 48_000));
    assert_eq!(plan.node(1), &TestNode::Gain(0.25));
}

#[test]
fn compile_mixer_reads_both_generators() {
    let mut g = AudioGraph::new();
    let s0 = g.add_node(TestNode::Sine(440.0, 48_000));
    let s1 = g.add_node(TestNode::Sine(660.0, 48_000));
    let mix = g.add_node(TestNode::Mixer(vec![0.5, 0.5]));
    g.add_edge(s0, mix);
    g.add_edge(s1, mix);
    let plan: CompiledGraph<TestNode, f32> = g.compile(64).unwrap();
    assert_eq!(plan.inputs_of(2), &[0, 1]);
}

#[test]
fn compile_puts_nodes_in_dependency_order() {
    // Mixer added first, fed by two generators added later.
    let mut g = AudioGraph::new();
    let mix = g.add_node(TestNode::Mixer(vec![1.0, 1.0]));
    let s0 = g.add_node(TestNode::Sine(440.0, 48_000));
    let s1 = g.add_node(TestNode::Sine(660.0, 48_000));
    g.add_edge(s0, mix);
    g.add_edge(s1, mix);
    let plan: CompiledGraph<TestNode, f32> = g.compile(32).unwrap();
    assert_eq!(plan.inputs_of(0), &[] as &[usize]);
    assert_eq!(plan.inputs_of(1), &[] as &[usize]);
    assert_eq!(plan.inputs_of(2), &[0, 1]);
    assert_eq!(plan.node(0), &TestNode::Sine(440.0, 48_000));
    assert_eq!(plan.node(1), &TestNode::Sine(660.0, 48_000));
    assert_eq!(plan.node(2), &TestNode::Mixer(vec![1.0, 1.0]));
}

#[test]
fn compile_fails_on_cycle() {
    let mut g = chain(0.5);
    g.add_edge(NodeId::new(1), NodeId::new(0));
    assert!(g.compile::<f32>(64).is_err());
}

#[test]
fn process_runs_chain_into_output() {
    let mut plan: CompiledGraph<TestNode, f32> = chain(0.25).compile(64).unwrap();
    let mut output = vec![0.0f32; 64];
    plan.process(&mut output);
    assert!(output.iter().all(|&s| s == 110.0));
}

#[test]
fn process_feeds_mixer_in_input_order() {
    let mut g = AudioGraph::new();
    let s0 = g.add_node(TestNode::Sine(1.0, 48_000));
    let s1 = g.add_node(TestNode::Sine(10.0, 48_000));
    let mix = g.add_node(TestNode::Mixer(vec![0.5, 2.0]));
    g.add_edge(s0, mix);
    g.add_edge(s1, mix);
    let mut plan: CompiledGraph<TestNode, f32> = g.compile(8).unwrap();
    let mut output = vec![0.0f32; 8];
    plan.process(&mut output);
    assert!(output.iter().all(|&s| s == 20.5));
}

#[test]
fn process_copies_the_shorter_length_and_silences_the_rest() {
    let mut plan: CompiledGraph<TestNode, f32> = chain(1.0).compile(4).unwrap();
    let mut output = vec![-1.0f32; 6];
    plan.process(&mut output);
    assert_eq!(output, vec![440.0, 440.0, 440.0, 440.0, 0.0, 0.0]);
    let mut short = vec![0.0f32; 2];
    plan.process(&mut short);
    assert_eq!(short, vec![440.0, 440.0]);
}

#[test]
fn process_of_empty_plan_leaves_output_untouched() {
    let g: AudioGraph<TestNode> = AudioGraph::new();
    let mut plan: CompiledGraph<TestNode, f32> = g.compile(16).unwrap();
    let mut output = vec![3.0f32; 16];
    plan.process(&mut output);
    assert_eq!(output, vec![3.0f32; 16]);
}

#[test]
fn topological_sort_without_edges_is_ascending() {
    let mut g = AudioGraph::new();
    for _ in 0..4 {
        g.add_node(TestNode::Gain(1.0));
    }
    assert_eq!(
        g.topological_sort(),
        Ok(vec![NodeId::new(0), NodeId::new(1), NodeId::new(2), NodeId::new(3)])
    );
}

#[test]
fn compile_starts_with_silent_scratch_and_runs_every_node() {
    let mut g = AudioGraph::new();
    let s0 = g.add_node(TestNode::Sine(3.0, 48_000));
    let gain = g.add_node(TestNode::Gain(2.0));
    let mix = g.add_node(TestNode::Mixer(vec![1.0, 10.0]));
    g.add_edge(s0, gain);
    g.add_edge(s0, mix);
    g.add_edge(gain, mix);
    let mut plan: CompiledGraph<TestNode, f32> = g.compile(4).unwrap();
    assert_eq!(plan.inputs_of(2), &[0, 1]);
    let mut output = vec![9.0f32; 4];
    plan.process(&mut output);
    // mixer = 1.0 * 3.0 + 10.0 * (2.0 * 3.0)
    assert_eq!(output, vec![63.0; 4]);
}
