pub mod acks;
pub mod answers;
pub mod laws;
pub mod polling;
pub mod tcp_service;
