//! An embedded key-value engine built on a copy-on-write B-tree.
pub mod key;
pub mod node;
pub mod tree;
pub mod error;
pub mod db;
pub mod seed;
pub mod codec;
