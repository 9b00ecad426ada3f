//! Reading trackpoints of a training log and reducing them to windowed
//! summaries of power, heart rate, distance, climbing and QDH.
pub mod config;
pub mod decimal;
pub mod document;
pub mod extract;
pub mod qdh;
pub mod tags;
pub mod trackpoint;
pub mod window;

pub use document::{Node, TcxElement};
pub use extract::dedup;
pub use qdh::Qdh;
pub use tags::{Tag, TrkPtField};
pub use trackpoint::{TcxError, Trackpoint};
pub use window::{aggregate, GroupBy, Grouping, Values, Window};
