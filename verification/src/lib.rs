//! A lossless byte-stream compressor built on Huffman coding.
//!
//! The codec counts symbol frequencies, builds a binary prefix-code tree,
//! packs variable-length codes into bytes, and serializes the tree shape so
//! that the receiving side can rebuild it and decode.  A small container
//! layout combines the original length, the serialized tree, an opaque
//! passthrough header, and the packed payload into one buffer.

pub mod bits;
pub mod bmp;
pub mod huffman_node;
pub mod huffman_tree;
pub mod model;
