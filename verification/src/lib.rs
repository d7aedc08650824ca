//! Verified core of a distributed sorting benchmark: the sorting algorithms
//! that workers run and whose comparisons they count, the line protocol spoken
//! between server, workers and dashboard, the dashboard's ranking and the
//! server's bookkeeping of connected workers.

pub mod types;
pub mod sorting;
pub mod text;
pub mod protocol;
pub mod ranking;
pub mod server;
pub mod worker;

pub use protocol::{tcp_to_typemessage, typemessage_to_tcp};
pub use sorting::{BubbleSorter, InsertionSorter, MergeSorter, Sorter};
pub use types::{AlgoType, StatsMessage, TypeMessage};
