//! Flaky-test evidence: parsing test reports, classifying outcomes across
//! runs and across an accumulated history, and explaining a red run.

pub mod text;
pub mod decimal;
pub mod xml;
pub mod junit;
pub mod keyed;
pub mod analyzers;
pub mod history;
pub mod verify;
pub mod format;
pub mod gate;
pub mod report;
pub mod cli;
pub mod runner;
pub mod quarantine;
pub mod preset;
pub mod phpunit_log;
pub mod session;
pub mod readback;
