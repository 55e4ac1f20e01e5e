//! A packet-oriented networking core built on length-delimited framing over a
//! byte stream: a frame codec, a per-connection I/O state machine, and a
//! single-threaded reactor that multiplexes many connections and delivers
//! connect / receive / disconnect events in program order.

pub mod addr;
pub mod codec;
pub mod error;
pub mod event;
pub mod host;
pub mod peer;

pub use addr::Address;
pub use codec::ReadState;
pub use error::IoErrorKind;
pub use event::{Event, EventKind};
pub use host::{Host, HostBuilder};
pub use peer::Peer;
