//! Low-latency audio streaming over UDP: the verified core.

pub mod arith;
pub mod audio_io;
pub mod buffer_budget;
pub mod bytes;
pub mod capture_ring;
pub mod cli;
pub mod clock_drift;
pub mod control;
pub mod discovery;
pub mod format_pipeline;
pub mod generated;
pub mod jitter;
pub mod jsonl_log;
pub mod loopback;
pub mod mtu_budget;
pub mod protocol;
pub mod receiver;
pub mod reports;
pub mod sender;
pub mod spike_packet_ring;
pub mod text;
