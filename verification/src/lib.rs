//! Reconciles test-cost record files: a baseline file and any number of
//! updated copies are merged into one file, keeping for every test the
//! record whose run count is highest.

pub mod record;
pub mod parse;
pub mod imap;
pub mod merge;
pub mod serialize;
pub mod reconcile;
pub mod laws;
