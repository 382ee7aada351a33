//! Streaming replication of a SQLite database to object storage, as a verified
//! library: the LTX file format, the WAL reader, and the decisions of the sync
//! engine. Everything that touches a disk, a socket or a clock is left to the
//! caller, who hands in plain values and performs the actions it is given.
#![allow(unused_imports)]

use vstd::prelude::*;

pub mod text;
pub mod time;
pub mod wire;
pub mod cli;
pub mod db;
pub mod lock;
pub mod ltx;
pub mod paths;
pub mod storage;
pub mod sync;
pub mod wal;
