//! The audio thread's state machine: which plan runs, at what fallback gain,
//! and whether output is silenced. At the top of every callback the engine
//! drains the command queue and applies each command in order; a plan that a
//! swap displaces goes back to the control thread as an event.

use vstd::prelude::*;
use crate::audio_buffer::AudioBuffer;
use crate::command::Command;
use crate::event::Event;
use crate::graph::{process_spec, CompiledGraph};
use crate::processor::{contents, fill, gather, Processor};
use crate::ring_buffer::RingBuffer;

verus! {

/// What the engine's decisions depend on.
pub struct EngineState<G, P> {
    /// Gain of the fallback chain.
    pub gain: G,
    /// Whether output is silenced.
    pub should_quit: bool,
    /// The installed plan; `None` runs the fallback chain.
    pub current_graph: Option<P>,
}

/// The state after `cmd`, and the plan that it displaced, if any.
pub open spec fn apply_spec<G, P>(s: EngineState<G, P>, cmd: Command<G, P>) -> (EngineState<G, P>, Option<P>) {
    match cmd {
        Command::NoOp => (s, None),
        Command::SetGain(g) => (
            EngineState { gain: g, should_quit: s.should_quit, current_graph: s.current_graph },
            None,
        ),
        Command::Quit => (
            EngineState { gain: s.gain, should_quit: true, current_graph: s.current_graph },
            None,
        ),
        Command::Resume => (
            EngineState { gain: s.gain, should_quit: false, current_graph: s.current_graph },
            None,
        ),
        Command::SwapGraph(p) => (
            EngineState { gain: s.gain, should_quit: s.should_quit, current_graph: Some(p) },
            s.current_graph,
        ),
    }
}

/// The event queue after handing back `displaced`: the plan is appended as a
/// `GraphSwapped` event when there is room, and dropped otherwise.
pub open spec fn hand_back<P>(events: Seq<Event<P>>, cap: nat, displaced: Option<P>) -> Seq<Event<P>> {
    match displaced {
        Some(p) => if events.len() < cap {
            events.push(Event::GraphSwapped(p))
        } else {
            events
        },
        None => events,
    }
}

/// The state and the event queue after applying `cmds` in order.
pub open spec fn drain_spec<G, P>(
    s: EngineState<G, P>,
    cmds: Seq<Command<G, P>>,
    events: Seq<Event<P>>,
    cap: nat,
) -> (EngineState<G, P>, Seq<Event<P>>)
    decreases cmds.len(),
{
    if cmds.len() == 0 {
        (s, events)
    } else {
        let (s1, displaced) = apply_spec(s, cmds[0]);
        drain_spec(s1, cmds.drop_first(), hand_back(events, cap, displaced), cap)
    }
}

proof fn lemma_drain_one<G, P>(s: EngineState<G, P>, cmd: Command<G, P>, events: Seq<Event<P>>, cap: nat)
    ensures
        drain_spec(s, seq![cmd], events, cap) == (
            apply_spec(s, cmd).0,
            hand_back(events, cap, apply_spec(s, cmd).1),
        ),
{
    let rest = seq![cmd].drop_first();
    assert(rest =~= Seq::<Command<G, P>>::empty());
    assert(drain_spec(apply_spec(s, cmd).0, rest, hand_back(events, cap, apply_spec(s, cmd).1), cap)
        == (apply_spec(s, cmd).0, hand_back(events, cap, apply_spec(s, cmd).1)));
}

/// Swapping in a plan when none is installed displaces nothing and installs it.
/// Swapping in a second plan installs that one and hands back the first as one
/// `GraphSwapped` event, when the event queue has room.
pub proof fn lemma_swap_twice<G, P>(
    s: EngineState<G, P>,
    first: P,
    second: P,
    events: Seq<Event<P>>,
    cap: nat,
)
    requires
        s.current_graph is None,
        events.len() < cap,
    ensures
        ({
            let (s1, ev1) = drain_spec(s, seq![Command::SwapGraph(first)], events, cap);
            let (s2, ev2) = drain_spec(s1, seq![Command::SwapGraph(second)], ev1, cap);
            &&& s1.current_graph == Some(first)
            &&& ev1 == events
            &&& s2.current_graph == Some(second)
            &&& ev2 == events.push(Event::GraphSwapped(first))
            &&& s2.gain == s.gain
            &&& s2.should_quit == s.should_quit
        }),
{
    lemma_drain_one(s, Command::SwapGraph(first), events, cap);
    let (s1, ev1) = drain_spec(s, seq![Command::SwapGraph(first)], events, cap);
    lemma_drain_one(s1, Command::SwapGraph(second), ev1, cap);
}

/// `Quit` silences the engine and a later `Resume` undoes it; neither touches
/// the gain, the installed plan or the event queue.
pub proof fn lemma_quit_resume<G, P>(s: EngineState<G, P>, events: Seq<Event<P>>, cap: nat)
    ensures
        ({
            let (s1, ev1) = drain_spec(s, seq![Command::Quit], events, cap);
            let (s2, ev2) = drain_spec(s1, seq![Command::Resume], ev1, cap);
            &&& s1.should_quit
            &&& !s2.should_quit
            &&& s1.gain == s.gain && s2.gain == s.gain
            &&& s1.current_graph == s.current_graph && s2.current_graph == s.current_graph
            &&& ev1 == events && ev2 == events
        }),
{
    lemma_drain_one(s, Command::Quit, events, cap);
    let (s1, ev1) = drain_spec(s, seq![Command::Quit], events, cap);
    lemma_drain_one(s1, Command::Resume, ev1, cap);
}

/// Number of samples the fallback chain can render per block; samples beyond it are silent.
pub const FALLBACK_SCRATCH_FRAMES: usize = 4096;

/// A command that may reach the engine: a plan it installs is well formed.
pub open spec fn command_ok<G, N, S>(c: Command<G, Box<CompiledGraph<N, S>>>) -> bool {
    match c {
        Command::SwapGraph(p) => p.wf(),
        _ => true,
    }
}

/// What rendering one block does, from engine state `s0`, fallback generator
/// `gen0` and fallback scratch `scratch0`, to an output block holding `out0`,
/// ending in `s1`, `gen1`, `scratch1` with output `out1`. With a plan installed,
/// the plan runs (see [`process_spec`]). Otherwise, with `n` the shorter of the
/// output and the scratch, the generator fills the first `n` scratch samples from
/// no input, the gain stage writes the first `n` output samples from the scratch,
/// and the rest of the output is `silence`.
pub open spec fn renders<F: Processor<S>, G: Processor<S>, N: Processor<S>, S>(
    s0: EngineState<G, Box<CompiledGraph<N, S>>>,
    gen0: F,
    scratch0: Seq<S>,
    s1: EngineState<G, Box<CompiledGraph<N, S>>>,
    gen1: F,
    scratch1: Seq<S>,
    silence: S,
    out0: Seq<S>,
    out1: Seq<S>,
) -> bool {
    &&& s1.should_quit == s0.should_quit
    &&& out1.len() == out0.len()
    &&& match s0.current_graph {
        Some(p0) => {
            &&& s1.current_graph is Some
            &&& process_spec(*p0, *s1.current_graph->Some_0, out0, out1)
            &&& s1.gain == s0.gain
            &&& gen1 == gen0
            &&& scratch1 == scratch0
        },
        None => {
            let n = if out0.len() < scratch0.len() {
                out0.len()
            } else {
                scratch0.len()
            };
            &&& s1.current_graph is None
            &&& scratch1.len() == scratch0.len()
            &&& gen0.produces(Seq::empty(), scratch0.take(n as int), gen1, scratch1.take(n as int))
            &&& scratch1.skip(n as int) == scratch0.skip(n as int)
            &&& s0.gain.produces(seq![scratch1], out0.take(n as int), s1.gain, out1.take(n as int))
            &&& forall|k: int| n <= k < out1.len() ==> #[trigger] out1[k] == silence
        },
    }
}

/// Engine state, owned by the audio thread: the installed plan, or else a
/// fallback chain of generator `F` feeding gain stage `G`. Plans hold nodes of
/// type `N`; `S` is the sample type.
pub struct Engine<F, G, N, S> {
    sine_generator: F,
    gain_processor: G,
    should_quit: bool,
    current_graph: Option<Box<CompiledGraph<N, S>>>,
    /// Scratch for the fallback chain (one buffer), so that the gain stage has a
    /// separate input.
    fallback_scratch: Vec<AudioBuffer<S>>,
    /// The silent sample.
    silence: S,
}

impl<F, G, N, S> View for Engine<F, G, N, S> {
    type V = EngineState<G, Box<CompiledGraph<N, S>>>;

    closed spec fn view(&self) -> EngineState<G, Box<CompiledGraph<N, S>>> {
        EngineState {
            gain: self.gain_processor,
            should_quit: self.should_quit,
            current_graph: self.current_graph,
        }
    }
}

impl<F, G, N, S> Engine<F, G, N, S> {
    /// The sample written where the engine outputs silence.
    pub closed spec fn silence(&self) -> S {
        self.silence
    }

    /// The fallback chain's generator.
    pub closed spec fn generator(&self) -> F {
        self.sine_generator
    }

    /// The fallback chain's scratch samples.
    pub closed spec fn fallback(&self) -> Seq<S> {
        self.fallback_scratch@[0]@
    }

    /// The installed plan is well formed and the fallback scratch has its fixed size.
    pub closed spec fn wf(&self) -> bool {
        &&& self.current_graph is Some ==> self.current_graph->Some_0.wf()
        &&& self.fallback_scratch@.len() == 1
        &&& self.fallback_scratch@[0]@.len() == FALLBACK_SCRATCH_FRAMES
    }

    /// Applies one command. A swap installs the new plan and returns the one it
    /// displaced, which the caller must hand back to the control thread.
    pub fn apply(&mut self, cmd: Command<G, Box<CompiledGraph<N, S>>>) -> (displaced: Option<
        Box<CompiledGraph<N, S>>,
    >)
        requires
            old(self).wf(),
            command_ok(cmd),
        ensures
            final(self).wf(),
            final(self).silence() == old(self).silence(),
            final(self).generator() == old(self).generator(),
            final(self).fallback() == old(self).fallback(),
            (final(self)@, displaced) == apply_spec(old(self)@, cmd),
    {
        match cmd {
            Command::SetGain(gain) => {
                self.gain_processor = gain;
                None
            },
            Command::Quit => {
                self.should_quit = true;
                None
            },
            Command::Resume => {
                self.should_quit = false;
                None
            },
            Command::NoOp => None,
            Command::SwapGraph(new) => {
                let prev = self.current_graph.take();
                self.current_graph = Some(new);
                prev
            },
        }
    }

    /// Applies one command; a displaced plan is sent back as a `GraphSwapped`
    /// event, or dropped when the event queue is full.
    pub fn apply_command(
        &mut self,
        cmd: Command<G, Box<CompiledGraph<N, S>>>,
        evt_tx: &mut RingBuffer<Event<Box<CompiledGraph<N, S>>>>,
    )
        requires
            old(self).wf(),
            command_ok(cmd),
            old(evt_tx).wf(),
        ensures
            final(self).wf(),
            final(self).silence() == old(self).silence(),
            final(self).generator() == old(self).generator(),
            final(self).fallback() == old(self).fallback(),
            final(evt_tx).wf(),
            final(evt_tx).capacity() == old(evt_tx).capacity(),
            final(self)@ == apply_spec(old(self)@, cmd).0,
            final(evt_tx)@ == hand_back(
                old(evt_tx)@,
                old(evt_tx).capacity(),
                apply_spec(old(self)@, cmd).1,
            ),
    {
        if let Some(prev) = self.apply(cmd) {
            let _ = evt_tx.try_send(Event::GraphSwapped(prev));
        }
    }

    /// Applies every pending command, oldest first, leaving the command queue empty.
    pub fn drain_commands(
        &mut self,
        cmd_rx: &mut RingBuffer<Command<G, Box<CompiledGraph<N, S>>>>,
        evt_tx: &mut RingBuffer<Event<Box<CompiledGraph<N, S>>>>,
    )
        requires
            old(self).wf(),
            old(cmd_rx).wf(),
            old(evt_tx).wf(),
            forall|k: int| 0 <= k < old(cmd_rx)@.len() ==> command_ok(#[trigger] old(cmd_rx)@[k]),
        ensures
            final(self).wf(),
            final(self).silence() == old(self).silence(),
            final(self).generator() == old(self).generator(),
            final(self).fallback() == old(self).fallback(),
            final(cmd_rx).wf(),
            final(evt_tx).wf(),
            final(cmd_rx).capacity() == old(cmd_rx).capacity(),
            final(evt_tx).capacity() == old(evt_tx).capacity(),
            final(cmd_rx)@ == Seq::<Command<G, Box<CompiledGraph<N, S>>>>::empty(),
            (final(self)@, final(evt_tx)@) == drain_spec(
                old(self)@,
                old(cmd_rx)@,
                old(evt_tx)@,
                old(evt_tx).capacity(),
            ),
    {
        let ghost cap = evt_tx.capacity();
        let ghost goal = drain_spec(self@, cmd_rx@, evt_tx@, cap);
        loop
            invariant
                self.wf(),
                self.silence() == old(self).silence(),
                self.generator() == old(self).generator(),
                self.fallback() == old(self).fallback(),
                cmd_rx.wf(),
                evt_tx.wf(),
                cmd_rx.capacity() == old(cmd_rx).capacity(),
                evt_tx.capacity() == cap,
                forall|k: int| 0 <= k < cmd_rx@.len() ==> command_ok(#[trigger] cmd_rx@[k]),
                drain_spec(self@, cmd_rx@, evt_tx@, cap) == goal,
            ensures
                cmd_rx@ == Seq::<Command<G, Box<CompiledGraph<N, S>>>>::empty(),
            decreases cmd_rx@.len(),
        {
            let ghost before = cmd_rx@;
            match cmd_rx.try_recv() {
                Some(cmd) => {
                    assert(command_ok(before[0]));
                    assert forall|k: int| 0 <= k < cmd_rx@.len() implies command_ok(
                        #[trigger] cmd_rx@[k],
                    ) by {
                        assert(cmd_rx@[k] == before[k + 1]);
                    }
                    self.apply_command(cmd, evt_tx);
                },
                None => break,
            }
        }
    }

    /// Whether output is silenced.
    pub fn should_quit(&self) -> (r: bool)
        ensures
            r == self@.should_quit,
    {
        self.should_quit
    }

    /// The fallback chain's gain stage.
    pub fn gain(&self) -> (r: &G)
        ensures
            *r == self@.gain,
    {
        &self.gain_processor
    }

    /// The installed plan, if any.
    pub fn current_graph(&self) -> (r: Option<&CompiledGraph<N, S>>)
        ensures
            r is Some == self@.current_graph is Some,
            r is Some ==> *r->Some_0 == *self@.current_graph->Some_0,
    {
        match &self.current_graph {
            Some(plan) => Some(&**plan),
            None => None,
        }
    }
}

impl<F, G, N, S: Copy + Default> Engine<F, G, N, S> {
    /// Creates an engine that runs the fallback chain `sine_generator` → `gain_processor`.
    /// The scratch buffer is allocated here, once, silent.
    pub fn new(sine_generator: F, gain_processor: G) -> (r: Self)
        ensures
            r.wf(),
            call_ensures(S::default, (), r.silence()),
            r.generator() == sine_generator,
            r.fallback() == Seq::new(FALLBACK_SCRATCH_FRAMES as nat, |k: int| r.silence()),
            r@ == (EngineState::<G, Box<CompiledGraph<N, S>>> {
                gain: gain_processor,
                should_quit: false,
                current_graph: None,
            }),
    {
        let silence = S::default();
        let mut fallback_scratch: Vec<AudioBuffer<S>> = Vec::with_capacity(1);
        fallback_scratch.push(AudioBuffer::filled(FALLBACK_SCRATCH_FRAMES, silence));
        Engine {
            sine_generator,
            gain_processor,
            should_quit: false,
            current_graph: None,
            fallback_scratch,
            silence,
        }
    }
}

impl<F: Processor<S>, G: Processor<S>, N: Processor<S>, S: Copy + Default> Engine<F, G, N, S> {
    /// Renders one block: the installed plan if there is one; otherwise the
    /// generator into the scratch buffer and the gain stage from it into
    /// `output`, silence filling what lies beyond the scratch buffer.
    pub fn render_block(&mut self, output: &mut [S])
        requires
            old(self).wf(),
        ensures
            final(self).wf(),
            final(self).silence() == old(self).silence(),
            renders(
                old(self)@,
                old(self).generator(),
                old(self).fallback(),
                final(self)@,
                final(self).generator(),
                final(self).fallback(),
                old(self).silence(),
                old(output)@,
                final(output)@,
            ),
    {
        match self.current_graph.as_mut() {
            Some(plan) => {
                plan.process(output);
            },
            None => {
                let ghost scratch0 = self.fallback();
                let ghost out0 = output@;
                let frames = self.fallback_scratch[0].len();
                let n = if output.len() < frames {
                    output.len()
                } else {
                    frames
                };
                // The generator writes the first `n` scratch samples from no input.
                let mut buf: AudioBuffer<S> = AudioBuffer::new(0);
                self.fallback_scratch.set_and_swap(0, &mut buf);
                let no_buffers: [AudioBuffer<S>; 0] = [];
                let no_inputs: [usize; 0] = [];
                assert(gather(contents(no_buffers@), no_inputs@) =~= Seq::<Seq<S>>::empty());
                let (scratch_n, scratch_rest) = buf.as_mut_slice().split_at_mut(n);
                assert(scratch_n@ == scratch0.subrange(0, n as int));
                self.sine_generator.process(no_buffers.as_slice(), no_inputs.as_slice(), scratch_n);
                let ghost written = scratch_n@;
                self.fallback_scratch.set(0, buf);
                let ghost scratch1 = self.fallback();
                assert(scratch1 == written + scratch0.skip(n as int));
                assert(scratch0.take(n as int) =~= scratch0.subrange(0, n as int));
                // The gain stage writes the first `n` output samples from the scratch.
                let one: [usize; 1] = [0];
                assert(gather(contents(self.fallback_scratch@), one@) =~= seq![scratch1]);
                let (out_n, out_rest) = output.split_at_mut(n);
                self.gain_processor.process(self.fallback_scratch.as_slice(), one.as_slice(), out_n);
                let ghost gained = out_n@;
                fill(out_rest, self.silence);
                proof {
                    assert(out0.take(n as int) =~= out0.subrange(0, n as int));
                    assert(scratch1.skip(n as int) =~= scratch0.skip(n as int));
                    assert(scratch1.take(n as int) =~= written);
                    assert(output@ == gained + out_rest@);
                    assert(output@.take(n as int) =~= gained);
                }
            },
        }
    }

    /// Silence when quitting, otherwise one rendered block.
    pub fn render_or_silence(&mut self, output: &mut [S])
        requires
            old(self).wf(),
        ensures
            final(self).wf(),
            final(self).silence() == old(self).silence(),
            final(output)@.len() == old(output)@.len(),
            if old(self)@.should_quit {
                &&& final(self)@ == old(self)@
                &&& final(self).generator() == old(self).generator()
                &&& final(self).fallback() == old(self).fallback()
                &&& forall|k: int|
                    0 <= k < final(output)@.len() ==> #[trigger] final(output)@[k] == old(
                        self,
                    ).silence()
            } else {
                renders(
                    old(self)@,
                    old(self).generator(),
                    old(self).fallback(),
                    final(self)@,
                    final(self).generator(),
                    final(self).fallback(),
                    old(self).silence(),
                    old(output)@,
                    final(output)@,
                )
            },
    {
        if self.should_quit {
            fill(output, self.silence);
        } else {
            self.render_block(output);
        }
    }

    /// The real-time callback: drains every pending command, then outputs
    /// silence if quitting, or renders one block from the drained state.
    pub fn process_audio(
        &mut self,
        cmd_rx: &mut RingBuffer<Command<G, Box<CompiledGraph<N, S>>>>,
        evt_tx: &mut RingBuffer<Event<Box<CompiledGraph<N, S>>>>,
        output: &mut [S],
    )
        requires
            old(self).wf(),
            old(cmd_rx).wf(),
            old(evt_tx).wf(),
            forall|k: int| 0 <= k < old(cmd_rx)@.len() ==> command_ok(#[trigger] old(cmd_rx)@[k]),
        ensures
            final(self).wf(),
            final(self).silence() == old(self).silence(),
            final(cmd_rx).wf(),
            final(evt_tx).wf(),
            final(cmd_rx)@ == Seq::<Command<G, Box<CompiledGraph<N, S>>>>::empty(),
            final(output)@.len() == old(output)@.len(),
            ({
                let (s, events) = drain_spec(
                    old(self)@,
                    old(cmd_rx)@,
                    old(evt_tx)@,
                    old(evt_tx).capacity(),
                );
                &&& final(evt_tx)@ == events
                &&& if s.should_quit {
                    &&& final(self)@ == s
                    &&& final(self).generator() == old(self).generator()
                    &&& final(self).fallback() == old(self).fallback()
                    &&& forall|k: int|
                        0 <= k < final(output)@.len() ==> #[trigger] final(output)@[k] == old(
                            self,
                        ).silence()
                } else {
                    renders(
                        s,
                        old(self).generator(),
                        old(self).fallback(),
                        final(self)@,
                        final(self).generator(),
                        final(self).fallback(),
                        old(self).silence(),
                        old(output)@,
                        final(output)@,
                    )
                }
            }),
    {
        self.drain_commands(cmd_rx, evt_tx);
        self.render_or_silence(output);
    }
}

} // verus!
