//! A file-integrity scanner's core: walk a directory tree, digest every
//! regular file, and classify each against a persisted snapshot as new,
//! unchanged, content-changed, time-changed, or both, keeping per-file
//! change counters across runs.
//!
//! The pieces here are the ones whose behaviour is worth stating and
//! proving: the self-feeding work queue's state and its finish condition
//! (`work_queue`), the scan over a finite tree that emits every reachable
//! regular file exactly once and skips symlinks (`scan`), the streaming
//! digest accumulator over the sha1 crate (`digest`), the classify-and-merge
//! rule with its counters (`sha_state`), and the path-ordered store with its
//! snapshot codec and proved round trip (`store`). Threads, channels and
//! file handles stay with the binary around this library.

pub mod byteorder;
pub mod decimal;
pub mod digest;
pub mod hex;
pub mod scan;
pub mod sha_state;
pub mod split;
pub mod stats;
pub mod store;
pub mod work_queue;
