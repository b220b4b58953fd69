//! The store: the data-directory handle and the save policy.
//!
//! Reading and writing the file system belongs to the surrounding
//! program; this module owns everything that can be decided without
//! it: the database file's path, decoding what was read, and the
//! retry policy for the atomic replace.

use crate::codec;
use crate::codec::DecodeError;
use crate::db::Database;
use crate::dir::{dirs_view, DirV};
use vstd::prelude::*;
use vstd::string::StringExecFns;

verus! {

/// The path of the database file under a data directory.
pub fn db_path(data_dir: &str) -> (r: String)
    ensures
        r@ == data_dir@ + "/db.zo"@,
{
    let mut p = String::from_str(data_dir);
    p.append("/db.zo");
    p
}

/// A handle on a data directory: remembers the directory and the
/// byte buffer last read from disk.
pub struct DatabaseFile {
    pub buffer: Vec<u8>,
    pub data_dir: String,
}

impl DatabaseFile {
    /// A fresh handle with an empty buffer.
    pub fn new(data_dir: String) -> (r: DatabaseFile)
        ensures
            r.buffer@.len() == 0,
            r.data_dir == data_dir,
    {
        DatabaseFile { buffer: Vec::new(), data_dir }
    }

    /// Opens the registry held in a buffer read from the database
    /// file, keeping the buffer; fails exactly as the codec says.
    pub fn open_bytes(&mut self, bytes: Vec<u8>) -> (r: Result<Database, DecodeError>)
        ensures
            final(self).data_dir == old(self).data_dir,
            final(self).buffer@ == bytes@,
            r matches Ok(db) ==> codec::spec_decode(bytes@) == Ok::<Seq<DirV>, DecodeError>(
                dirs_view(db.dirs@),
            ) && !db.modified,
            r matches Err(e) ==> codec::spec_decode(bytes@) == Err::<Seq<DirV>, DecodeError>(e),
    {
        let r = Database::from_bytes(bytes.as_slice());
        self.buffer = bytes;
        r
    }

    /// The empty registry that a missing database file means.
    pub fn open_empty(&self) -> (r: Database)
        ensures
            dirs_view(r.dirs@) =~= Seq::<DirV>::empty(),
            !r.modified,
    {
        Database::new()
    }
}

/// How many attempts a transiently failing replace of the database
/// file gets on systems where renames hit sharing violations.
pub const MAX_PERSIST_TRIES: u32 = 10;

/// Whether a failed replace should be tried again: only after a
/// permission-denied failure, and only while attempts are left.
pub fn retry_persist(tries_done: u32, permission_denied: bool) -> (r: bool)
    ensures
        r == (permission_denied && tries_done + 1 < MAX_PERSIST_TRIES),
{
    permission_denied && tries_done < MAX_PERSIST_TRIES - 1
}

/// The backoff before the next attempt, from a random draw:
/// uniformly 50 to 149 milliseconds.
pub fn backoff_millis(draw: u64) -> (r: u64)
    ensures
        50 <= r < 150,
        r == 50 + draw % 100,
{
    50 + draw % 100
}

} // verus!
