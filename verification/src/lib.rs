//! An asset pipeline core: stable asset identities and their encodings,
//! a content-addressed artifact hash, a durable file-tracker state
//! machine, and a read-only packfile index with dependency enumeration.
pub mod byte_map;
pub mod error;
pub mod hashing;
pub mod ids;
pub mod importer;
pub mod metadata;
pub mod pack_codec;
pub mod packfile;
pub mod serialized_asset;
pub mod tracker;
pub mod utils;
