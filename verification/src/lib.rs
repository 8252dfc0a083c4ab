//! Alias candidates from shell history.
//!
//! The text of a history file is read into commands ([`history`]); each
//! command enters a ranked store together with its prefixes ([`ingest`],
//! [`store`]); every record carries a score that rewards recent, frequent and
//! long commands ([`score`]); texts that were rejected stay out for good
//! ([`tombstones`]). What is kept on disk, and where, is settled in
//! [`persistence`] and [`discovery`]; reading and writing the files is left to
//! the caller.

use vstd::prelude::*;

pub mod cli;
pub mod discovery;
pub mod history;
pub mod index;
pub mod ingest;
pub mod persistence;
pub mod pool;
pub mod rank;
pub mod record;
pub mod score;
pub mod store;
pub mod text;
pub mod tombstones;
pub mod wide;
