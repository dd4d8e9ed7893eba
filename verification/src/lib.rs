//! A verified package manager core for filesystem artifacts.
//!
//! The library resolves a package description (a manifest), materializes
//! its declared file mappings onto a host filesystem, and can reverse that
//! operation cleanly.  Its hard invariant: a package moves between exactly
//! two states — downloaded and installed — through operations that are safe
//! to retry, never silently overwrite user data, and leave the filesystem
//! consistent even on partial failure.
//!
//! Every lifecycle decision is verified against the explicit filesystem
//! model in `fsmodel`; the thin shell that performs real I/O, transport,
//! configuration storage and hook execution lives outside this crate and
//! only carries values in and out.

pub mod codec;
pub mod config;
pub mod errors;
pub mod file_mapping;
pub mod fsmodel;
pub mod installer;
pub mod integrity;
pub mod lifecycle;
pub mod manifest;
pub mod package;
pub mod packer;
pub mod repositories;
pub mod service;
pub mod template;
pub mod text;
