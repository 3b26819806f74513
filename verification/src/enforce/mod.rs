//! The desired ruleset and how it is put into force.
pub mod kernel;
pub mod logging;
pub mod netlink;
pub mod nft;
pub mod nft_semantics;
pub mod ruleset;

pub use crate::addr::Cidr;
pub use logging::LoggingEnforcer;
pub use nft::NftEnforcer;
pub use ruleset::{Match, Rule, Ruleset, Verdict};
