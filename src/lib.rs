//! Resolution, locking and mirroring of Debian binary packages.
pub mod command;
pub mod config;
pub mod dependency;
pub mod download;
pub mod error;
pub mod keys;
pub mod lockfile;
pub mod packages_index;
pub mod provider;
pub mod repository;
pub mod text;
pub mod version;
