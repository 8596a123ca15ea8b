//! Sampling disk usage analysis for btrfs.

pub mod actions;
pub mod app;
pub mod bignat;
pub mod btrfs;
pub mod export;
pub mod fsat;
pub mod fsopen;
pub mod rational;
pub mod rng;
pub mod sampler;
pub mod session;
pub mod sorting;
pub mod stats;
pub mod text;
pub mod tree;
pub mod ui;
