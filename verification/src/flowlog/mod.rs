//! The flow log: what dropped packets were, as structured events.
pub mod event;
pub mod receiver;
pub mod time;

pub use event::{parse_packet, parse_prefix, FlowEvent};
pub use receiver::IpIndex;
