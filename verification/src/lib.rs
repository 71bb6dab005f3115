//! Snapshot-isolation core of a log-structured-merge key-value store:
//! a monotonic sequence-number counter, versioned sorted runs, a
//! threshold-anchored snapshot view, a bidirectional merge iterator over
//! many runs, and a canonical path resolver for reopening partitions.

pub mod keys;
pub mod record;
pub mod merge;
pub mod partition;
pub mod paths;
pub mod seqno;
pub mod visibility;
