//! Network latency monitoring: the measurement, storage, alerting and
//! status-page rules, free of sockets and files.
pub mod agent;
pub mod alert;
pub mod config;
pub mod daemon;
pub mod decimal;
pub mod double;
pub mod emit;
pub mod names;
pub mod natural;
pub mod probe;
pub mod scheduler;
pub mod seed;
pub mod status;
pub mod store;
pub mod text;
pub mod time;
pub mod util;
pub mod web;
