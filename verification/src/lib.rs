//! A work queue whose scheduling decisions are verified, together with a few
//! small utilities.
//!
//! The queue in [`queue`] is the bookkeeping that a thread pool keeps behind
//! its mutex: the pending tasks, the state of every worker, the running
//! counter, the shutdown flag and the completion signals of scoped
//! submissions. It neither blocks nor runs a task: it decides, and the pool
//! around it acts. Every operation is a transition of the state machine in
//! [`model`]; [`history`] proves what holds of every run of that machine:
//! tasks start in the order of their submission, each exactly once, shutdown
//! drains the backlog, and a pool without workers runs nothing.
//!
//! The utilities are a transcoder that keeps every byte of text that is not
//! well-formed UTF-8 ([`surrogate_string`]), a tally of allocated bytes
//! ([`counting_alloc`]), the rules for numbering the variants of an
//! enumeration ([`conv_repr`]) and the seeded permutation table of a noise
//! generator ([`permutation`]).
pub mod conv_repr;
pub mod counting_alloc;
pub mod history;
pub mod model;
pub mod permutation;
pub mod queue;
pub mod surrogate_string;
