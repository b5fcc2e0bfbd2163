//! Capstan: the verified core of a real-time audio engine.
//!
//! A control thread builds a graph of processing nodes, compiles it into a
//! pre-allocated execution plan and hands the plan to the audio thread in a
//! command; the audio thread drains its commands at the top of every callback,
//! installs plans, hands displaced plans back in events, and renders a block.
//!
//! The library is generic in the sample type and in the node types: it decides
//! which node runs when, which buffers feed which node, what the engine's state
//! becomes after each command and what each block's output is made of, while
//! the arithmetic on samples belongs to the nodes, through [`processor::Processor`].

pub mod audio_buffer;
pub mod ring_buffer;
pub mod graph;
pub mod command;
pub mod event;
pub mod engine;
pub mod processor;
