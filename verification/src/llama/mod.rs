//! What the monitor learns of a llama.cpp server.
pub mod live_slots;
pub mod metrics;
pub mod poller;
pub mod running_model;
pub mod throughput;
