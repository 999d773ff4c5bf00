//! Core engine of a personal developer-log tool.
//!
//! A devlog repository is a directory of dated plain-text files, each holding
//! one day's tasks, one task per line.  This crate holds the verified core:
//! the task-line grammar, the fence-aware file loader, the dated file-naming
//! scheme, the rollover carry-forward algorithm, and the status aggregation.
//! Disk and process work (reading files, launching editors and hooks) stays
//! outside; the core consumes and produces plain values.

pub mod error;
pub mod file;
pub mod hook;
pub mod repository;
pub mod rollover;
pub mod status;
pub mod task;
