//! An independent mirror of an append-only log: entries are stored byte-exact under a Merkle
//! tree, admitted only on evidence of anchoring, and served back with proofs.

pub mod checkpoint;
pub mod config;
pub mod duration;
pub mod error;
pub mod frontier;
pub mod geometry;
pub mod ingest;
pub mod json;
pub mod manifest;
pub mod metadata;
pub mod octets;
pub mod primitives;
pub mod proofs;
pub mod range;
pub mod restore;
pub mod retrieval;
pub mod series;
pub mod service;
pub mod statement;
pub mod store;
pub mod text;
pub mod timestamp;
pub mod tree;

pub use config::{Config, ConfigSpec};
pub use error::{MirrorError, MirrorResult};
pub use store::Store;
