//! Content-addressed storage: the rules of a store that keeps each blob under
//! the hash of its content and maps keys to those hashes.
//!
//! No function here touches a file. Where an operation takes file operations,
//! the caller does them and hands in the outcome.

pub mod blob_bytes;
pub mod byte_order;
pub mod cas_manager;
pub mod digest;
pub mod file_laws;
pub mod format_laws;
pub mod hash_list;
pub mod index;
pub mod key_map;
pub mod layout_laws;
pub mod operation_laws;
pub mod order_laws;
pub mod serialization;
pub mod store;
pub mod store_laws;
pub mod transaction;
pub mod types;

pub use crate::store::{calculate_blob_hash, CasInner, LibError, LibIoOperation};
pub use crate::transaction::Transaction;
pub use crate::types::{BlobHash, SyncMode, WalOp, WalOpRaw, HASH_SIZE};
