pub mod arrivals;
pub mod compaction;
pub mod counting;
pub mod delivery;
pub mod disk_log;
pub mod draining;
pub mod durability;
pub mod exclusive;
pub mod flushing;
pub mod histories;
pub mod laws;
pub mod leases;
pub mod leasing;
pub mod model;
pub mod opening;
pub mod queue;
pub mod recovery;
pub mod redelivery;
pub mod registry;
pub mod scanning;
pub mod sequences;
pub mod shard;
pub mod single_queue;
pub mod timer_wheel;
pub mod timing;
pub mod wal;
