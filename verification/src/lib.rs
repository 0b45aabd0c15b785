//! The table layer of a key/value store for Minecraft Bedrock worlds: native
//! LevelDB tables and `BWLDB` tables, read, scanned, searched and written.
//!
//! Everything here works on bytes in memory. A table that stays in its file is
//! read block by block: [`native_table::NativeScan`] and
//! [`native_lookup::NativeGather`] say which block is needed next, and take it.

pub mod blob;
pub mod block;
pub mod cache;
pub mod checksum;
pub mod codec;
pub mod coding;
pub mod collect;
pub mod custom;
pub mod custom_lookup;
pub mod custom_scan;
pub mod custom_write;
pub mod error;
pub mod gather;
pub mod internal_key;
pub mod keys;
pub mod native;
pub mod native_file_laws;
pub mod native_laws;
pub mod native_lookup;
pub mod native_lookup_laws;
pub mod native_read;
pub mod native_scan;
pub mod native_table;
pub mod native_write;
pub mod native_write_laws;
pub mod options;
pub mod scan;
pub mod table;
pub mod table_laws;
