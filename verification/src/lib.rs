//! A typed access layer over an ordered, transactional key-value store.
//!
//! Callers describe tables with [`TableHandle`](crate::handles::TableHandle) /
//! [`MultimapTableHandle`](crate::handles::MultimapTableHandle) and work with
//! their own key and value types; the layer encodes them to byte sequences,
//! runs every mutation inside one engine transaction, and keeps an in-memory
//! index of whole-store savepoints that can be restored in order.

pub mod error;
pub mod codec;
pub mod engine;
pub mod handles;
pub mod db;
pub mod save;
pub mod sort;
pub mod util;
pub mod batch_writes;
pub mod multimap_reads;
pub mod multimap_writes;
pub mod records;
pub mod reads;
pub mod writes;

pub use codec::{DbKey, DbValue};
pub use db::CakeDb;
pub use engine::data_local_path;
pub use error::DbError;
pub use handles::{MultimapTableHandle, TableHandle};
pub use reads::KeyBound;
pub use records::{ComplexRecord, MetaPair, TestStruct};
pub use save::CakeSavepoint;
