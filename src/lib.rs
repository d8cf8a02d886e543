//! A Sans-I/O multicast DNS engine: a codec for the DNS-SD subset of mDNS
//! messages, and a server state machine that advertises local services,
//! queries for remote ones and answers incoming queries.
//!
//! The library owns no socket and no clock. The host hands it datagrams and
//! millisecond readings through [`Input`], and it answers with [`Output`]:
//! bytes to send, the next deadline, or a discovered service.
use vstd::prelude::*;

pub mod flags;
pub mod label;
pub mod net;
pub mod query;
pub mod records;
pub mod roundtrip;
pub mod reqres;
pub mod server;
pub mod service_info;
pub mod time;
pub mod wire;
pub mod writer;

pub use flags::{Flags, Opcode};
pub use label::{Label, LabelPart};
pub use net::{IpAddr, SocketAddr};
pub use query::{Answer, QClass, QType, Query};
pub use records::{Record, A, AAAA, PTR, SRV, TXT};
pub use reqres::{Message, Request, Response};
pub use server::{Cast, Input, Output, Server};
pub use service_info::ServiceInfo;
pub use time::Time;
pub use wire::ParseError;
pub use writer::Writer;

verus! {

/// Standard port for mDNS.
pub const MDNS_PORT: u16 = 5353;

/// The IPv4 multicast group of mDNS, 224.0.0.251.
pub const GROUP_ADDR_V4: u32 = 0xE000_00FB;

} // verus!
