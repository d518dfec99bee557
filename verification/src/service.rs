//! Rules of the block services: the decisions each operation takes, apart
//! from the storage it reads and writes.

pub mod list;
pub mod oplog;
pub mod traits;
pub mod block;
pub mod heading;
pub mod asset;
pub mod store;
pub mod paragraph;
pub mod batch;
pub mod outline;
pub mod lifecycle;
pub mod history;
pub mod document;
