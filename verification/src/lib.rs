//! Bookkeeping for the immutable object storage protocol.
//!
//! A canister that takes part in the protocol records, for every blob it has
//! issued an upload certificate for, a `BlobInfo` under the blob's
//! `sha256:<hex>` hash; it marks blobs for deletion, lets the storage gateway
//! list and confirm deletions, and answers liveness queries by raw 32-byte
//! hashes.  This crate holds that state and every decision taken on it; the
//! canister glue (system API, inter-canister calls, Candid) lives outside.
//!
//! Modules:
//! - [`keys`]: blob hash keys, their byte order and their byte encoding;
//! - [`hash_text`]: turning raw hashes into `sha256:<hex>` strings and
//!   checking the shape of such strings;
//! - [`keyed_map`]: a map from hash keys to values, kept sorted by key;
//! - [`principals`]: the set of authorized gateway principals;
//! - [`blob`]: the records kept per blob;
//! - [`listing`]: the newest-first ordering of blob listings;
//! - [`storage`]: the protocol state and its operations;
//! - [`laws`]: properties that relate several operations.

pub mod keys;
pub mod hash_text;
pub mod keyed_map;
pub mod principals;
pub mod blob;
pub mod listing;
pub mod storage;
pub mod laws;

pub use blob::BlobInfo;
pub use blob::CreateCertificateResult;
pub use keys::HashKey;
pub use storage::StorageError;
pub use storage::StorageState;
pub use hash_text::bytes_to_sha256_string;
