//! Verified core of the Outlook mail pool service: import-text parsing,
//! API-key checks, verification-code extraction and the account lease rules.

pub mod text;
pub mod importer;
pub mod auth;
pub mod mail;
pub mod store;
pub mod compat;
pub mod app;
pub mod config;
