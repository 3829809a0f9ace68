//! Protocol, statistics and reporting logic of a TCP throughput and latency
//! measurement tool.
pub mod binary64;
pub mod data;
pub mod decimal;
pub mod echo;
pub mod latency;
pub mod stats;
pub mod stream_worker;
pub mod summary;
pub mod ui;
