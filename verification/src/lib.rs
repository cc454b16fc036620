//! Distribution identification library in the style of the classic
//! `lsb_release` tool: it reports a host's distributor id, description,
//! release, codename and the set of installed LSB compliance modules.
//!
//! The library holds all parsing and decision logic as verified functions
//! over plain values; reading files, querying the package database and
//! printing are left to the thin binary around it.

pub mod apt;
pub mod compat;
pub mod debian;
pub mod flags;
pub mod foreign;
pub mod info;
pub mod modules;
pub mod numdec;
pub mod osrelease;
pub mod provider;
pub mod render;
pub mod strutil;
pub mod table;

