//! Scheduling and state-synchronisation core of a desktop download manager.
pub mod text;
pub mod units;
pub mod status;
pub mod rows;
pub mod store;
pub mod scheduler;
pub mod session;
pub mod plugins;
pub mod engine;
pub mod paths;
pub mod settings;
