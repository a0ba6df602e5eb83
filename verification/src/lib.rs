//! An in-memory pool of unconfirmed transactions: a dependency graph with
//! exact subtree accounting, a collision index, a tip-per-gas ordered
//! selection index, and the admission and extraction rules that keep the
//! three consistent.

pub mod collision_manager;
pub mod config;
pub mod error;
pub mod pool;
pub mod ports;
pub mod ratio;
pub mod selection_algorithms;
pub mod service;
pub mod storage;
pub mod sums;
pub mod theorems;
pub mod types;
