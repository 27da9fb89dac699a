pub mod error;
pub mod value;
pub mod codec;
pub mod event;
pub mod http;
pub mod logstash;
pub mod dispatch;
pub mod wal;

use vstd::prelude::*;

verus! {

/// Number of log entries the write-ahead-log operator replays per call
/// unless configured otherwise.
pub const DEFAULT_READ_COUNT: u64 = 5;

} // verus!
