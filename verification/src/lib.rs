//! Multipath scheduling of packets over the connections to a peer.
pub mod clock;
pub mod multipath_scheduler;
pub mod num;
pub mod peer;
pub mod stats;
pub mod tcp;
