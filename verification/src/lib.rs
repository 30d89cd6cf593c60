//! Sensor mapping, OHM tree handling and schema comparison for an
//! OpenHardwareMonitor-compatible sensor server.
pub mod text;
pub mod names;
pub mod score;
pub mod mapping;
pub mod select;
pub mod json;
pub mod sensors;
pub mod resolve;
pub mod cli;
pub mod config;
pub mod schema;
pub mod tree;
pub mod sampling;
pub mod health;
pub mod compare;
pub mod view;
pub mod cpuinfo;
