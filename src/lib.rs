//! Structural pattern detection over a directed transaction graph: fan-in and
//! fan-out aggregation inside a time window, bounded simple-cycle enumeration,
//! and bounded shell-chain enumeration.
//!
//! Node ids are `0 .. node_count`; edges come as index-aligned arrays. Times
//! are whole milliseconds, an unknown time given as `None`; amounts are
//! integers, only ever compared with the small-amount threshold. Cycles and
//! chains come back as flat lists of node sequences, each followed by
//! `SENTINEL`; fan-in and fan-out as flat lists of pairs.
pub mod chains;
pub mod cycles;
pub mod graph;
pub mod rotation;
pub mod window;

pub use chains::detect_shell_chains;
pub use cycles::detect_cycles;
pub use graph::{analyze_stub, SENTINEL};
pub use window::{detect_fan_in, detect_fan_out};
