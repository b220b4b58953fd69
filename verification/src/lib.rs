//! A persistent ranked-path store: the embedded engine behind a
//! "jump to frequently used directory" command.
//!
//! The library keeps an in-memory registry of directory records, each a
//! path with an accumulated rank and a last-accessed time. It provides
//! the on-disk codec with a version tag, registry maintenance
//! (add / remove / dedup / age) and a score-ordered stream of matches.
//! All file system work is left to the surrounding program: the engine
//! itself only turns registries into byte buffers and back.
//!
//! Ranks are held in fixed point: one visit is [`dir::RANK_UNIT`]
//! thousandths, so every rank computation here is exact integer
//! arithmetic.

pub mod codec;
pub mod db;
pub mod dir;
pub mod store;
pub mod stream;

pub use db::Database;
pub use dir::{Dir, Epoch, Rank, RANK_UNIT};
pub use store::DatabaseFile;
pub use stream::Stream;
