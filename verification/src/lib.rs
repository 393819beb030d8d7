//! Core domain, availability, and configuration logic for the locald
//! development platform, with every rule stated as a contract and proved.

pub mod text;
pub mod identity;
pub mod domain;
pub mod digest;
pub mod availability;
pub mod paths;
pub mod keyed;
pub mod agent;
pub mod config;
pub mod hosts;
pub mod buildpack;
pub mod catalog;
pub mod attachments;
