//! Core data path of a columnar time-series ingester and its HTTP write
//! router: partition buffer lifecycle, batch merging, sort-key planning,
//! compaction, line-protocol decoding, and the router front-door rules.

pub mod batch;
pub mod bytes;
pub mod compact;
pub mod delete;
pub mod duration;
pub mod http;
pub mod lineproto;
pub mod selector;
pub mod sequence;
pub mod show;
pub mod sortkey;
pub mod state_machine;
pub mod summary;

pub use sequence::SequenceNumber;
pub use sequence::SequenceNumberRange;
