//! Management of a hosts file that mixes hand-written lines with
//! URL-keyed blocks generated from remote subscriptions.
pub mod backup;
pub mod config;
pub mod document;
pub mod error;
pub mod globals;
pub mod laws;
pub mod markers;
pub mod operations;
pub mod report;
pub mod table;
pub mod text;
pub mod transaction;
pub mod validation;
