//! B+Tree nodes, their page codecs and root metadata.
pub mod codec;
pub mod error;
pub mod meta;
pub mod node;
pub mod tree;
pub mod version_tree;
pub mod version_codec;
pub mod version_node;
