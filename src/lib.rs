//! Host diagnostics: the section model that every data source produces, the orchestration
//! of collectors into a report, the rule-based health digest over finished sections, and the
//! network correlation engine that joins socket tables with the processes owning them.
//! Smaller modules parse the single-source text formats of the other collectors.

// Shared text helpers.
pub mod text;

// Section model, orchestration and digest.
pub mod sdk;
pub mod health;
pub mod report;

// Network correlation engine.
pub mod network;

// Single-source collectors.
pub mod containers;
pub mod cron;
pub mod docker;
pub mod journal;
pub mod os;
pub mod proc;
pub mod security;
pub mod services;
pub mod storage;
pub mod users;
