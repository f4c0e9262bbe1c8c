#![verifier::loop_isolation(false)]
//! Core runtime of a multi-agent LLM orchestration engine.
//!
//! The crate provides the verified logic of five services: a mission
//! scheduler that resolves task dependency graphs into execution waves, an
//! inference router that maps model aliases onto backends, a vector memory
//! with temporal validity and FIFO eviction, an episodic memory with
//! importance decay, and an inter-agent message bus with prompt-injection
//! screening. A shared workspace keeps mission-scoped notes.
//!
//! Network and disk I/O live outside this crate; the functions here take
//! the values such calls produce (embeddings, timestamps, response lines)
//! as arguments and state exactly what is computed from them.

pub mod episodic;
pub mod host;
pub mod jsonl;
pub mod messages;
pub mod router;
pub mod scan;
pub mod scheduler;
pub mod stream;
pub mod tags;
pub mod vector;
pub mod workspace;
