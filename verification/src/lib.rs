pub mod cluster;
pub mod engine;
pub mod ids;
pub mod metrics;
pub mod protocol;
pub mod server;
pub mod text;
pub mod wire;
