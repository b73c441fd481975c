//! Finds duplicate files by content.
//!
//! The work is done in two stages. Files are first bucketed by size, which
//! costs nothing but what traversal already knows; only files that share
//! their size with another file are then hashed, and the files of one size
//! and one SHA-256 digest form a group of duplicates.
//!
//! This crate holds the decisions, not the I/O. A caller lists directories
//! and reads files; it hands listings to a [`traverse::Traversal`], feeds
//! file contents to a [`digest::ContentHasher`] for the records named by
//! [`buckets::hashing_plan`], and gets the groups from [`resolver::resolve`].
//! For files already in memory [`resolver::find_duplicates`] does all of it.
//!
//! Every function is verified against its contract. What the contracts add
//! up to is proved in [`laws`].

pub mod buckets;
pub mod confirm;
pub mod digest;
pub mod error;
pub mod grouping;
pub mod laws;
pub mod record;
pub mod resolver;
pub mod traverse;
