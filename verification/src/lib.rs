//! Network policies for the containers of a Docker host.
//!
//! Policies on container labels and in files say which containers may talk to each other and to the
//! rest of the world. They are compiled, over a snapshot of the containers, into a ruleset of two
//! chains, which is put into force with nftables.

pub mod addr;
pub mod api;
pub mod bytes;
pub mod cli;
pub mod collections;
pub mod config;
pub mod daemon;
pub mod docker;
pub mod enforce;
pub mod flowlog;
pub mod laws;
pub mod obs;
pub mod reconcile;
pub mod text;
