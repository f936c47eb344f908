//! Per-node bookkeeping of a rumor-mongering gossip protocol: which rumors to
//! push each round, which to offer on pull, and when to stop circulating them.

pub mod digest;
pub mod rounds;
pub mod gossip;
pub mod laws;

pub use gossip::Gossip;

