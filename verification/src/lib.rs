//! A minimal package manager core: the build-variant matrix, the
//! file-ownership ledger, and the decisions of installing and removing a
//! package.

pub mod archive;
pub mod builder;
pub mod config;
pub mod install;
pub mod laws;
pub mod layout;
pub mod ledger;
pub mod manifest;
pub mod metadata;
pub mod odometer;
pub mod remove;
pub mod report;
pub mod repository;
pub mod session;
pub mod text;
pub mod variant;
