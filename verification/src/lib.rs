//! A bridge between a frame-driven control loop and a real-time audio graph.
//!
//! The control side edits a pending topology and submits parameter changes;
//! a commit publishes an immutable snapshot for the render side, which turns
//! the queued changes into sample-accurate events for each buffer.

pub mod handle;
pub mod topology;
pub mod order;
pub mod store;
pub mod time;
pub mod queue;
pub mod schedule;
pub mod render;
pub mod commit;
pub mod bridge;

pub use bridge::{AudioGraphCommands, AudioGraphPlugin, Bridge, KnystBackend};
pub use handle::{AudioGraphProcessing, AudioHandleRef, NodeHandle, NodeRef};
