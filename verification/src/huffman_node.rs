//! The nodes of a Huffman coding tree.

use crate::model::{count_sym, Shape};
use vstd::prelude::*;

verus! {

/// One node of a Huffman coding tree: a leaf carries a symbol in `value` and
/// no children; an internal node carries no symbol and exactly two children.
/// The `frequency` field only steers tree construction; it is not serialized
/// and plays no role in encoding or decoding.
pub struct HuffmanNode {
    pub frequency: u64,
    pub value: Option<u8>,
    pub left: Option<Box<HuffmanNode>>,
    pub right: Option<Box<HuffmanNode>>,
}

impl HuffmanNode {
    /// Well-formedness: a node is either a leaf or has exactly two
    /// well-formed children.
    pub open spec fn wf(self) -> bool
        decreases self,
    {
        match self.value {
            Some(_) => self.left is None && self.right is None,
            None => match (self.left, self.right) {
                (Some(l), Some(r)) => l.wf() && r.wf(),
                _ => false,
            },
        }
    }

    /// The frequency bookkeeping of a tree built from `data`: a leaf
    /// carries its symbol's occurrence count, an internal node the sum of
    /// its two children's frequencies.
    pub open spec fn freq_wf(self, data: Seq<u8>) -> bool
        decreases self,
    {
        match self.value {
            Some(s) => self.frequency == count_sym(data, s),
            None => match (self.left, self.right) {
                (Some(l), Some(r)) => self.frequency == l.frequency + r.frequency && l.freq_wf(
                    data,
                ) && r.freq_wf(data),
                _ => false,
            },
        }
    }

    /// The abstract shape of the subtree rooted here.
    pub open spec fn shape(self) -> Shape
        decreases self,
    {
        match self.value {
            Some(s) => Shape::Leaf(s),
            None => match (self.left, self.right) {
                (Some(l), Some(r)) => Shape::Node(Box::new(l.shape()), Box::new(r.shape())),
                _ => Shape::Leaf(0),
            },
        }
    }

    /// A fresh node with no children.
    pub fn new(value: Option<u8>, frequency: u64) -> (node: Self)
        ensures
            node.value == value,
            node.frequency == frequency,
            node.left is None,
            node.right is None,
            value is Some ==> node.wf() && node.shape() == Shape::Leaf(value.unwrap()),
    {
        HuffmanNode { frequency, value, left: None, right: None }
    }
}

} // verus!
