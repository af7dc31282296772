pub mod appending;
pub mod discovery;
pub mod laws;
pub mod raft;
pub mod raft_model;
pub mod running;
pub mod snapshots;
