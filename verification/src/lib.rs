//! Deployment and serving rules for per-user static sites.
//!
//! A user uploads an archive; it is decoded into a staging tree, checked
//! against the quota and published in place of the user's live site, from
//! which files are then served. This library holds the rules of that
//! pipeline and proves them; touching the filesystem and the network is
//! left to the caller.
//!
//! - `path`, `path_laws`: sanitizing of archive paths, and what holds of
//!   every sanitized path.
//! - `tree`, `inspect`: the staging tree, its flattening and its listing.
//! - `archive`, `decoders`, `deploy`: staging of decoded archives, the two
//!   decoders, and the pipeline up to publication.
//! - `publish`: the protocol that swaps a staged site for the live one.
//! - `serve`, `mime`: resolution of requests to files, and content types.
//! - `error`, `report`: the errors and how they are reported.
//! - `auth`, `admin`, `accounts`, `password`, `config`: sessions, invite
//!   codes, stored accounts, password hashes and settings.

pub mod accounts;
pub mod admin;
pub mod archive;
pub mod auth;
pub mod config;
pub mod decoders;
pub mod deploy;
pub mod error;
pub mod inspect;
pub mod mime;
pub mod password;
pub mod path;
pub mod path_laws;
pub mod publish;
pub mod report;
pub mod serve;
pub mod text;
pub mod tree;
