//! Core runtime of a strategy-execution service: a dependency-tracking
//! component container, a periodic worker framework, and the market-data /
//! strategy / position-manager pipeline, with machine-checked contracts.

pub mod account;
pub mod cache;
pub mod config;
pub mod container;
pub mod identity;
pub mod instruments;
pub mod interpolate;
pub mod market_data;
pub mod pack;
pub mod params;
pub mod periodic;
pub mod pm_runner;
pub mod position_manager;
pub mod ranges;
pub mod read_window;
pub mod runner;
pub mod service;
pub mod strategy;
pub mod sync;
pub mod time;
