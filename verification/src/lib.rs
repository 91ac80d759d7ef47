//! A system monitor: what `/proc`, `/sys` and a few commands say, made into snapshots.
//!
//! The library reads text and bytes and keeps the state between snapshots; files, commands and
//! clocks are left to its caller.

pub mod cache;
pub mod cli;
pub mod collector;
pub mod command;
pub mod cpu;
pub mod disk;
pub mod gpu;
pub mod memory;
pub mod net;
pub mod number;
pub mod outside;
pub mod sensors;
pub mod share;
pub mod text;
pub mod window;
