//! Collections that keep their elements in a shared pool of key-value
//! partitions: a map over arbitrary byte keys, a map over fixed-width
//! numeric keys and an indexed sequence, each confined to a key range of its
//! own inside the partition that its path selects.
//!
//! The collections hold bytes. A caller that keeps typed keys and values
//! encodes them before a call and decodes what comes back.

pub mod bytes;
pub mod codec;
pub mod config;
pub mod engine;
pub mod error;
pub mod mapi;
pub mod mapx;
pub mod mapxnk;
pub mod mem;
pub mod meta;
pub mod namespace;
pub mod numkey;
pub mod pool;
pub mod scan;
pub mod veci;
pub mod vecx;

pub use crate::config::{gen_data_dir, set_data_dir, DataDir, BNC_META_NAME};
pub use crate::engine::Engine;
pub use crate::error::Error;
pub use crate::mapi::Mapi;
pub use crate::mapx::Mapx;
pub use crate::mapxnk::Mapxnk;
pub use crate::mem::MemEngine;
pub use crate::numkey::NumKey;
pub use crate::pool::{clear, flush_data, ShardPool, DB_NUM};
pub use crate::veci::Veci;
pub use crate::vecx::Vecx;
