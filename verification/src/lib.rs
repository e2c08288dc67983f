//! Telemetry logic of a llama.cpp server monitor.
pub mod bignat;
pub mod binary;
pub mod clock;
pub mod decimal;
pub mod energy;
pub mod gpu;
pub mod json;
pub mod llama;
pub mod logs;
pub mod state;
pub mod table;
pub mod text;
pub mod usage;
