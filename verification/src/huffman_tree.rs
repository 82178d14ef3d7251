//! The Huffman coding tree: construction from symbol frequencies, code
//! generation, bit-level encoding and decoding, and the serialization of the
//! tree shape.

use crate::bits::{bit_at, byte_from_bits, pad_bits, unpack};
use crate::huffman_node::HuffmanNode;
use crate::model::{
    code_of, count_sym, data_bits, decode_bits, decode_cont, distinct_leaves, leaf_syms,
    lemma_code_exists, lemma_count_le_len, lemma_count_pos, lemma_count_unique,
    lemma_data_bits_push, lemma_decode_cont_root, lemma_decode_cont_step, lemma_decode_data_bits,
    lemma_decode_leaf, lemma_distinct_num_leaves, lemma_frequency_conservation,
    lemma_parse_advances, num_leaves, parse_node, ser_shape, sum_counts, walk, Shape,
};
use vstd::pervasive::VecAdditionalExecFns;
use vstd::prelude::*;

verus! {

/// A Huffman coding tree; the root is absent exactly when the tree was built
/// from an empty input.
pub struct HuffmanTree {
    pub root: Option<Box<HuffmanNode>>,
}

/// The bits that a payload encodes to under a tree, empty for the empty tree.
pub open spec fn tree_bits(t: Option<Shape>, data: Seq<u8>) -> Seq<bool> {
    match t {
        Some(sh) => crate::model::data_bits(sh, data),
        None => Seq::<bool>::empty(),
    }
}

/// What a tree decodes a bit stream to, empty for the empty tree.
pub open spec fn tree_decode(t: Option<Shape>, bits: Seq<bool>, count: nat) -> Seq<u8> {
    match t {
        Some(sh) => decode_bits(sh, bits, count),
        None => Seq::<u8>::empty(),
    }
}

/// The serialized form of a tree, empty for the empty tree.
pub open spec fn tree_ser(t: Option<Shape>) -> Seq<u8> {
    match t {
        Some(sh) => ser_shape(sh),
        None => Seq::<u8>::empty(),
    }
}

/// The code of a symbol under a tree, absent for the empty tree.
pub open spec fn tree_code(t: Option<Shape>, s: u8) -> Option<Seq<bool>> {
    match t {
        Some(sh) => code_of(sh, s),
        None => None,
    }
}

/// Round-trip of the codec at the tree level: the padded bit stream that
/// `encode` promises for a payload is decoded back to that payload by
/// `decode`, provided the tree's leaves cover the payload's bytes — as they
/// do for the tree `build` makes from the payload itself.
pub proof fn lemma_tree_roundtrip(sh: Shape, data: Seq<u8>)
    requires
        forall|i: int| 0 <= i < data.len() ==> leaf_syms(sh).contains(#[trigger] data[i]),
    ensures
        tree_decode(Some(sh), pad_bits(tree_bits(Some(sh), data)), data.len() as nat) == data,
{
    assert forall|i: int| 0 <= i < data.len() implies code_of(sh, #[trigger] data[i]) is Some by {
        lemma_code_exists(sh, data[i]);
    }
    let bits0 = data_bits(sh, data);
    lemma_decode_data_bits(sh, data, Seq::new(((8 - bits0.len() % 8) % 8) as nat, |x: int| false));
}

/// A code-table entry viewed abstractly.
pub open spec fn code_entry(e: Option<Vec<bool>>) -> Option<Seq<bool>> {
    match e {
        Some(v) => Some(v@),
        None => None,
    }
}

/// What one code-table entry becomes after the walk of a subtree `t` that is
/// reached over the path `pre`: an entry already filled in is kept; an absent
/// one is filled in when the subtree knows the symbol.
pub open spec fn updated_entry(
    before: Option<Seq<bool>>,
    t: Shape,
    pre: Seq<bool>,
    s: u8,
) -> Option<Seq<bool>> {
    match before {
        Some(c) => Some(c),
        None => match code_of(t, s) {
            Some(c) => Some(pre + c),
            None => None,
        },
    }
}

/// The leaf nodes for the symbols below `n` with a nonzero frequency, in
/// ascending symbol order.
pub open spec fn leaves_upto(freq: Seq<u64>, n: int) -> Seq<HuffmanNode>
    decreases n,
{
    if n <= 0 {
        Seq::<HuffmanNode>::empty()
    } else {
        leaves_upto(freq, n - 1) + if freq[n - 1] > 0 {
            seq![
                HuffmanNode {
                    frequency: freq[n - 1],
                    value: Some((n - 1) as u8),
                    left: None,
                    right: None,
                },
            ]
        } else {
            Seq::<HuffmanNode>::empty()
        }
    }
}

/// The total frequency of a queue of nodes.
pub open spec fn sum_freq(q: Seq<HuffmanNode>) -> nat
    decreases q.len(),
{
    if q.len() == 0 {
        0
    } else {
        sum_freq(q.drop_last()) + q.last().frequency as nat
    }
}

/// The total leaf count of a queue of nodes.
pub open spec fn sum_leaves(q: Seq<HuffmanNode>) -> nat
    decreases q.len(),
{
    if q.len() == 0 {
        0
    } else {
        sum_leaves(q.drop_last()) + num_leaves(q.last().shape())
    }
}

/// The union of the leaf symbols of a queue of nodes.
pub open spec fn all_syms(q: Seq<HuffmanNode>) -> Set<u8>
    decreases q.len(),
{
    if q.len() == 0 {
        Set::<u8>::empty()
    } else {
        all_syms(q.drop_last()).union(leaf_syms(q.last().shape()))
    }
}

/// Every node of a queue is well-formed.
pub open spec fn all_wf(q: Seq<HuffmanNode>) -> bool {
    forall|k: int| 0 <= k < q.len() ==> (#[trigger] q[k]).wf()
}

/// Every node of a queue carries consistent frequency bookkeeping for `data`.
pub open spec fn all_freq_wf(q: Seq<HuffmanNode>, data: Seq<u8>) -> bool {
    forall|k: int| 0 <= k < q.len() ==> (#[trigger] q[k]).freq_wf(data)
}

/// Every node of a queue has pairwise-distinct leaves.
pub open spec fn all_distinct(q: Seq<HuffmanNode>) -> bool {
    forall|k: int| 0 <= k < q.len() ==> distinct_leaves((#[trigger] q[k]).shape())
}

/// Different nodes of a queue carry disjoint leaf symbols.
pub open spec fn pairwise_disjoint(q: Seq<HuffmanNode>) -> bool {
    forall|k1: int, k2: int|
        0 <= k1 < k2 < q.len() ==> leaf_syms((#[trigger] q[k1]).shape()).disjoint(
            leaf_syms((#[trigger] q[k2]).shape()),
        )
}

/// The index of the first least-frequency node among the first `n` of `q`.
pub open spec fn first_min(q: Seq<HuffmanNode>, n: int) -> int
    decreases n,
{
    if n <= 1 {
        0
    } else {
        let p = first_min(q, n - 1);
        if q[n - 1].frequency < q[p].frequency {
            n - 1
        } else {
            p
        }
    }
}

proof fn lemma_first_min_range(q: Seq<HuffmanNode>, n: int)
    requires
        n >= 1,
    ensures
        0 <= first_min(q, n) < n,
    decreases n,
{
    if n > 1 {
        lemma_first_min_range(q, n - 1);
    }
}

/// One merge step: take out the first least-frequent node, then the next;
/// the node taken out second becomes the left child of the joining parent,
/// so the zero branch goes to the more frequent symbol group.
pub open spec fn merge_once(q: Seq<HuffmanNode>) -> Seq<HuffmanNode>
    recommends
        q.len() >= 2,
{
    let i1 = first_min(q, q.len() as int);
    let q1 = q.remove(i1);
    let i2 = first_min(q1, q1.len() as int);
    let q2 = q1.remove(i2);
    q2.push(
        HuffmanNode {
            frequency: (q[i1].frequency + q1[i2].frequency) as u64,
            value: None,
            left: Some(Box::new(q1[i2])),
            right: Some(Box::new(q[i1])),
        },
    )
}

proof fn lemma_merge_once_len(q: Seq<HuffmanNode>)
    requires
        q.len() >= 2,
    ensures
        merge_once(q).len() == q.len() - 1,
{
    lemma_first_min_range(q, q.len() as int);
    let q1 = q.remove(first_min(q, q.len() as int));
    lemma_first_min_range(q1, q1.len() as int);
}

/// Repeated merging until at most one node remains.
pub open spec fn merge_all(q: Seq<HuffmanNode>) -> Seq<HuffmanNode>
    decreases q.len(),
    via merge_all_decreases
{
    if q.len() <= 1 {
        q
    } else {
        merge_all(merge_once(q))
    }
}

#[via_fn]
proof fn merge_all_decreases(q: Seq<HuffmanNode>) {
    if q.len() > 1 {
        lemma_merge_once_len(q);
    }
}

/// The per-symbol frequency table of a payload.
pub open spec fn freq_table(data: Seq<u8>) -> Seq<u64> {
    Seq::new(256, |b: int| count_sym(data, b as u8) as u64)
}

/// The root that `build` produces for a payload: one leaf per occurring
/// symbol, in ascending symbol order, merged until one node remains.
pub open spec fn built_root(data: Seq<u8>) -> Option<Box<HuffmanNode>> {
    let q = merge_all(leaves_upto(freq_table(data), 256));
    if q.len() == 0 {
        None
    } else {
        Some(Box::new(q[0]))
    }
}

/// Taking one node out of a queue splits its totals off.
proof fn lemma_queue_remove(q: Seq<HuffmanNode>, i: int)
    requires
        0 <= i < q.len(),
    ensures
        sum_freq(q) == sum_freq(q.remove(i)) + q[i].frequency,
        sum_leaves(q) == sum_leaves(q.remove(i)) + num_leaves(q[i].shape()),
        all_syms(q) =~= all_syms(q.remove(i)).union(leaf_syms(q[i].shape())),
    decreases q.len(),
{
    if i == q.len() - 1 {
        assert(q.remove(i) =~= q.drop_last());
    } else {
        assert(q.remove(i).drop_last() =~= q.drop_last().remove(i));
        assert(q.remove(i).last() == q.last());
        assert(q.drop_last()[i] == q[i]);
        lemma_queue_remove(q.drop_last(), i);
        assert(all_syms(q) =~= all_syms(q.remove(i)).union(leaf_syms(q[i].shape())));
    }
}

/// Appending one node to a queue adds its totals.
proof fn lemma_queue_push(q: Seq<HuffmanNode>, x: HuffmanNode)
    ensures
        sum_freq(q.push(x)) == sum_freq(q) + x.frequency,
        sum_leaves(q.push(x)) == sum_leaves(q) + num_leaves(x.shape()),
        all_syms(q.push(x)) =~= all_syms(q).union(leaf_syms(x.shape())),
{
    assert(q.push(x).drop_last() =~= q);
}

/// The initial leaf queue of a frequency table: every node is a well-formed
/// leaf, the totals equal the table's, and the symbols are those that occur.
proof fn lemma_leaves_upto_props(freq: Seq<u64>, data: Seq<u8>, n: int)
    requires
        freq.len() == 256,
        0 <= n <= 256,
        forall|b: int| 0 <= b < 256 ==> freq[b] == count_sym(data, b as u8),
    ensures
        all_wf(leaves_upto(freq, n)),
        sum_freq(leaves_upto(freq, n)) == sum_counts(data, n),
        sum_leaves(leaves_upto(freq, n)) <= n,
        all_syms(leaves_upto(freq, n)) =~= Set::new(
            |b: u8| (b as int) < n && count_sym(data, b) > 0,
        ),
        data.len() == 0 ==> leaves_upto(freq, n) =~= Seq::<HuffmanNode>::empty(),
        all_freq_wf(leaves_upto(freq, n), data),
        forall|k: int|
            0 <= k < leaves_upto(freq, n).len() ==> (#[trigger] leaves_upto(freq, n)[k]).value
                is Some && (leaves_upto(freq, n)[k].value.unwrap() as int) < n,
        forall|k1: int, k2: int|
            0 <= k1 < k2 < leaves_upto(freq, n).len() ==> ((#[trigger] leaves_upto(
                freq,
                n,
            )[k1]).value.unwrap() as int) < ((#[trigger] leaves_upto(freq, n)[k2]).value.unwrap()
                as int),
    decreases n,
{
    if n == 0 {
        assert(all_syms(leaves_upto(freq, n)) =~= Set::new(
            |b: u8| (b as int) < n && count_sym(data, b) > 0,
        ));
    } else {
        lemma_leaves_upto_props(freq, data, n - 1);
        let prev = leaves_upto(freq, n - 1);
        let cur = leaves_upto(freq, n);
        if freq[n - 1] > 0 {
            let leaf = HuffmanNode {
                frequency: freq[n - 1],
                value: Some((n - 1) as u8),
                left: None,
                right: None,
            };
            assert(cur =~= prev.push(leaf));
            lemma_queue_push(prev, leaf);
            assert(leaf.wf());
            assert(leaf.freq_wf(data));
            assert(leaf.shape() == Shape::Leaf((n - 1) as u8));
            assert(leaf_syms(leaf.shape()) =~= set![(n - 1) as u8]);
            assert(all_syms(cur) =~= Set::new(|b: u8| (b as int) < n && count_sym(data, b) > 0));
            assert forall|k: int|
                0 <= k < cur.len() implies (#[trigger] cur[k]).wf() && cur[k].freq_wf(data)
                && cur[k].value is Some && (cur[k].value.unwrap() as int) < n by {
                if k < prev.len() {
                    assert(cur[k] == prev[k]);
                } else {
                    assert(cur[k] == leaf);
                }
            }
            if data.len() == 0 {
                lemma_count_le_len(data, (n - 1) as u8);
            }
        } else {
            assert(cur =~= prev);
            assert(all_syms(cur) =~= Set::new(|b: u8| (b as int) < n && count_sym(data, b) > 0));
        }
    }
}

/// When one symbol occurs at all, the leaf queue is not empty.
proof fn lemma_leaves_upto_nonempty(freq: Seq<u64>, n: int, b: u8)
    requires
        (b as int) < n <= freq.len(),
        freq[b as int] > 0,
    ensures
        leaves_upto(freq, n).len() >= 1,
    decreases n,
{
    if (b as int) < n - 1 {
        lemma_leaves_upto_nonempty(freq, n - 1, b);
    }
}

/// When exactly one symbol occurs, the leaf queue is that one leaf.
proof fn lemma_leaves_upto_single(freq: Seq<u64>, s: u8, n: int)
    requires
        freq.len() == 256,
        0 <= n <= 256,
        freq[s as int] > 0,
        forall|b: int| 0 <= b < 256 && b != s ==> freq[b] == 0,
    ensures
        leaves_upto(freq, n) =~= if (s as int) < n {
            seq![HuffmanNode { frequency: freq[s as int], value: Some(s), left: None, right: None }]
        } else {
            Seq::<HuffmanNode>::empty()
        },
    decreases n,
{
    if n > 0 {
        lemma_leaves_upto_single(freq, s, n - 1);
    }
}

impl HuffmanTree {
    /// Well-formedness: the root node, if any, is well-formed.
    pub open spec fn wf(self) -> bool {
        match self.root {
            Some(n) => n.wf(),
            None => true,
        }
    }

    /// The abstract shape of the tree.
    pub open spec fn shape(self) -> Option<Shape> {
        match self.root {
            Some(n) => Some(n.shape()),
            None => None,
        }
    }

    /// An empty tree.
    pub fn new() -> (tree: Self)
        ensures
            tree.root is None,
            tree.wf(),
            tree.shape() is None,
    {
        HuffmanTree { root: None }
    }

    /// Counts how often each of the 256 symbols occurs in `data`.
    pub fn calculate_frequencies(&self, data: &[u8]) -> (freqs: Vec<u64>)
        ensures
            freqs@.len() == 256,
            forall|b: int| 0 <= b < 256 ==> freqs@[b] == count_sym(data@, b as u8),
    {
        let mut freqs: Vec<u64> = Vec::new();
        let mut k: usize = 0;
        while k < 256
            invariant
                freqs@.len() == k,
                k <= 256,
                forall|b: int| 0 <= b < k ==> freqs@[b] == 0,
            decreases 256 - k,
        {
            freqs.push(0);
            k += 1;
        }
        proof {
            assert(data@.take(0) =~= Seq::<u8>::empty());
        }
        let mut i: usize = 0;
        while i < data.len()
            invariant
                i <= data@.len(),
                freqs@.len() == 256,
                forall|b: int| 0 <= b < 256 ==> freqs@[b] == count_sym(data@.take(i as int), b as u8),
            decreases data@.len() - i,
        {
            let b = data[i] as usize;
            let cur = freqs[b];
            proof {
                lemma_count_le_len(data@.take(i as int), data@[i as int]);
            }
            freqs.set(b, cur + 1);
            proof {
                assert forall|bb: int| 0 <= bb < 256 implies freqs@[bb] == count_sym(
                    data@.take(i as int + 1),
                    bb as u8,
                ) by {
                    assert(data@.take(i as int + 1).drop_last() =~= data@.take(i as int));
                    assert(data@.take(i as int + 1).last() == data@[i as int]);
                }
            }
            i += 1;
        }
        proof {
            assert(data@.take(data@.len() as int) =~= data@);
        }
        freqs
    }

    /// Turns a frequency table into the queue of candidate leaf nodes, in
    /// ascending symbol order.
    pub fn create_priority_queue(&self, frequencies: Vec<u64>) -> (nodes: Vec<HuffmanNode>)
        requires
            frequencies@.len() == 256,
        ensures
            nodes@ == leaves_upto(frequencies@, 256),
    {
        let mut nodes: Vec<HuffmanNode> = Vec::new();
        proof {
            assert(nodes@ =~= leaves_upto(frequencies@, 0));
        }
        let mut b: usize = 0;
        while b < 256
            invariant
                frequencies@.len() == 256,
                b <= 256,
                nodes@ == leaves_upto(frequencies@, b as int),
            decreases 256 - b,
        {
            let f = frequencies[b];
            if f > 0 {
                nodes.push(HuffmanNode { frequency: f, value: Some(b as u8), left: None, right: None });
            }
            proof {
                assert(nodes@ =~= leaves_upto(frequencies@, b as int + 1));
            }
            b += 1;
        }
        nodes
    }

    /// The index of a node with the least frequency.
    fn min_index(nodes: &Vec<HuffmanNode>) -> (idx: usize)
        requires
            nodes.len() >= 1,
        ensures
            idx < nodes@.len(),
            forall|k: int|
                0 <= k < nodes@.len() ==> nodes@[idx as int].frequency <= (
                #[trigger] nodes@[k]).frequency,
            idx as int == first_min(nodes@, nodes@.len() as int),
    {
        let mut idx: usize = 0;
        let mut k: usize = 1;
        while k < nodes.len()
            invariant
                idx < k <= nodes@.len(),
                forall|j: int|
                    0 <= j < k ==> nodes@[idx as int].frequency <= (#[trigger] nodes@[j]).frequency,
                idx as int == first_min(nodes@, k as int),
            decreases nodes@.len() - k,
        {
            if nodes[k].frequency < nodes[idx].frequency {
                idx = k;
            }
            k += 1;
        }
        idx
    }

    /// Builds the coding tree for `data`: count frequencies, queue one leaf
    /// per occurring symbol, then repeatedly merge the two least-frequent
    /// nodes until one root remains.  The result is exactly `built_root`:
    /// the root is absent iff the input was empty; the leaves carry exactly
    /// the distinct symbols of the input, once each; every leaf's frequency
    /// is its symbol's occurrence count, every internal node's the sum of
    /// its children's, the root's the input length; and a single-symbol
    /// input yields a bare leaf as root.
    pub fn build(&mut self, data: &[u8])
        ensures
            final(self).wf(),
            final(self).root == built_root(data@),
            final(self).root is Some <==> data@.len() > 0,
            match final(self).shape() {
                Some(sh) => leaf_syms(sh) == data@.to_set() && distinct_leaves(sh) && num_leaves(
                    sh,
                ) == data@.to_set().len() && num_leaves(sh) <= 256,
                None => data@.len() == 0,
            },
            final(self).root matches Some(n) ==> n.freq_wf(data@) && n.frequency == data@.len(),
            data@.len() > 0 && (forall|i: int| 0 <= i < data@.len() ==> #[trigger] data@[i]
                == data@[0]) ==> final(self).shape() == Some(Shape::Leaf(data@[0])),
    {
        // Puts the machine bound on the slice's length in scope for the
        // frequency-sum invariant below.
        let _dlen = data.len();
        let freqs = self.calculate_frequencies(data);
        let mut nodes = self.create_priority_queue(freqs);
        let ghost q_init = nodes@;
        let ghost syms = Set::new(|b: u8| count_sym(data@, b) > 0);
        let ghost all_one = data@.len() > 0 && forall|i: int|
            0 <= i < data@.len() ==> #[trigger] data@[i] == data@[0];
        proof {
            lemma_leaves_upto_props(freqs@, data@, 256);
            lemma_frequency_conservation(data@);
            assert(freqs@ =~= freq_table(data@)) by {
                assert forall|b: int| 0 <= b < 256 implies freqs@[b] == #[trigger] freq_table(
                    data@,
                )[b] by {
                    lemma_count_le_len(data@, b as u8);
                }
            }
            assert(all_syms(nodes@) =~= syms);
            assert(all_distinct(q_init)) by {
                assert forall|k: int| 0 <= k < q_init.len() implies distinct_leaves(
                    (#[trigger] q_init[k]).shape(),
                ) by {
                    assert(q_init[k].shape() == Shape::Leaf(q_init[k].value.unwrap()));
                }
            }
            assert(pairwise_disjoint(q_init)) by {
                assert forall|k1: int, k2: int| 0 <= k1 < k2 < q_init.len() implies leaf_syms(
                    (#[trigger] q_init[k1]).shape(),
                ).disjoint(leaf_syms((#[trigger] q_init[k2]).shape())) by {
                    let s1 = q_init[k1].value.unwrap();
                    let s2 = q_init[k2].value.unwrap();
                    assert(q_init[k1].shape() == Shape::Leaf(s1));
                    assert(q_init[k2].shape() == Shape::Leaf(s2));
                    assert(s1 != s2);
                }
            }
            if data@.len() > 0 {
                assert(data@.contains(data@[0]));
                lemma_count_pos(data@, data@[0]);
                lemma_leaves_upto_nonempty(freqs@, 256, data@[0]);
            }
            if all_one {
                assert forall|b: int| 0 <= b < 256 && b != data@[0] implies freqs@[b] == 0 by {
                    lemma_count_unique(data@, data@[0], b as u8);
                }
                lemma_leaves_upto_single(freqs@, data@[0], 256);
            }
        }
        while nodes.len() > 1
            invariant
                all_wf(nodes@),
                all_freq_wf(nodes@, data@),
                all_distinct(nodes@),
                pairwise_disjoint(nodes@),
                all_syms(nodes@) =~= syms,
                sum_freq(nodes@) == data@.len(),
                sum_leaves(nodes@) <= 256,
                merge_all(nodes@) == merge_all(q_init),
                data@.len() > 0 ==> nodes@.len() >= 1,
                data@.len() == 0 ==> nodes@.len() == 0,
                data@.len() <= usize::MAX,
                all_one ==> nodes@.len() == 1 && nodes@[0].value == Some(data@[0]),
            decreases nodes@.len(),
        {
            let ghost q0 = nodes@;
            let i1 = Self::min_index(&nodes);
            let first = nodes.remove(i1);
            proof {
                lemma_queue_remove(q0, i1 as int);
                assert(forall|k: int|
                    0 <= k < nodes@.len() ==> #[trigger] nodes@[k] == if k < i1 {
                        q0[k]
                    } else {
                        q0[k + 1]
                    });
                assert(all_wf(nodes@) && all_freq_wf(nodes@, data@) && all_distinct(nodes@));
                assert(pairwise_disjoint(nodes@)) by {
                    assert forall|k1: int, k2: int| 0 <= k1 < k2 < nodes@.len() implies leaf_syms(
                        (#[trigger] nodes@[k1]).shape(),
                    ).disjoint(leaf_syms((#[trigger] nodes@[k2]).shape())) by {
                        let m1: int = if k1 < i1 {
                            k1
                        } else {
                            k1 + 1
                        };
                        let m2: int = if k2 < i1 {
                            k2
                        } else {
                            k2 + 1
                        };
                        assert(nodes@[k1] == q0[m1] && nodes@[k2] == q0[m2] && m1 < m2);
                    }
                }
                assert forall|k: int| 0 <= k < nodes@.len() implies leaf_syms(
                    (#[trigger] nodes@[k]).shape(),
                ).disjoint(leaf_syms(first.shape())) && leaf_syms(first.shape()).disjoint(
                    leaf_syms(nodes@[k].shape()),
                ) by {
                    let m: int = if k < i1 {
                        k
                    } else {
                        k + 1
                    };
                    assert(nodes@[k] == q0[m] && m != i1);
                }
            }
            let ghost q1 = nodes@;
            let i2 = Self::min_index(&nodes);
            let second = nodes.remove(i2);
            proof {
                lemma_queue_remove(q1, i2 as int);
                assert(forall|k: int|
                    0 <= k < nodes@.len() ==> #[trigger] nodes@[k] == if k < i2 {
                        q1[k]
                    } else {
                        q1[k + 1]
                    });
                assert(all_wf(nodes@) && all_freq_wf(nodes@, data@) && all_distinct(nodes@));
                assert(pairwise_disjoint(nodes@)) by {
                    assert forall|k1: int, k2: int| 0 <= k1 < k2 < nodes@.len() implies leaf_syms(
                        (#[trigger] nodes@[k1]).shape(),
                    ).disjoint(leaf_syms((#[trigger] nodes@[k2]).shape())) by {
                        let m1: int = if k1 < i2 {
                            k1
                        } else {
                            k1 + 1
                        };
                        let m2: int = if k2 < i2 {
                            k2
                        } else {
                            k2 + 1
                        };
                        assert(nodes@[k1] == q1[m1] && nodes@[k2] == q1[m2] && m1 < m2);
                    }
                }
                assert forall|k: int| 0 <= k < nodes@.len() implies leaf_syms(
                    (#[trigger] nodes@[k]).shape(),
                ).disjoint(leaf_syms(first.shape())) && leaf_syms(nodes@[k].shape()).disjoint(
                    leaf_syms(second.shape()),
                ) by {
                    let m: int = if k < i2 {
                        k
                    } else {
                        k + 1
                    };
                    assert(nodes@[k] == q1[m] && m != i2);
                }
                assert(first.frequency + second.frequency <= data@.len());
            }
            // The node extracted second (never the less frequent of the two)
            // becomes the left child, so the zero branch goes to the more
            // frequent symbol group.
            let parent = HuffmanNode {
                frequency: first.frequency + second.frequency,
                value: None,
                left: Some(Box::new(second)),
                right: Some(Box::new(first)),
            };
            proof {
                assert(parent.wf());
                assert(parent.freq_wf(data@));
                assert(parent.shape() == Shape::Node(
                    Box::new(second.shape()),
                    Box::new(first.shape()),
                ));
                assert(distinct_leaves(parent.shape()));
                lemma_queue_push(nodes@, parent);
                assert(all_syms(nodes@.push(parent)) =~= syms);
                let q3 = nodes@.push(parent);
                assert(forall|k: int| 0 <= k < nodes@.len() ==> #[trigger] q3[k] == nodes@[k]);
                assert(q3[q3.len() - 1] == parent);
                assert(all_wf(q3) && all_freq_wf(q3, data@) && all_distinct(q3));
                assert(pairwise_disjoint(q3)) by {
                    assert forall|k1: int, k2: int| 0 <= k1 < k2 < q3.len() implies leaf_syms(
                        (#[trigger] q3[k1]).shape(),
                    ).disjoint(leaf_syms((#[trigger] q3[k2]).shape())) by {
                        if k2 < q3.len() - 1 {
                            assert(q3[k1] == nodes@[k1] && q3[k2] == nodes@[k2]);
                        } else {
                            assert(q3[k1] == nodes@[k1] && q3[k2] == parent);
                            assert(leaf_syms(parent.shape()) =~= leaf_syms(second.shape()).union(
                                leaf_syms(first.shape()),
                            ));
                        }
                    }
                }
                // the loop body performs exactly one spec-level merge step
                assert(q3 =~= merge_once(q0)) by {
                    assert(i1 as int == first_min(q0, q0.len() as int));
                    assert(q1 == q0.remove(i1 as int));
                    assert(i2 as int == first_min(q1, q1.len() as int));
                    assert(first == q0[i1 as int] && second == q1[i2 as int]);
                    assert((q0[i1 as int].frequency + q1[i2 as int].frequency) as u64
                        == first.frequency + second.frequency);
                }
                assert(merge_all(q0) == merge_all(merge_once(q0)));
                assert(merge_all(q3) == merge_all(q_init));
            }
            nodes.push(parent);
        }
        proof {
            assert(q_init == leaves_upto(freq_table(data@), 256));
            assert(merge_all(nodes@) == nodes@);
        }
        if nodes.len() == 0 {
            proof {
                assert(merge_all(leaves_upto(freq_table(data@), 256)).len() == 0);
            }
            self.root = None;
        } else {
            let ghost q = nodes@;
            let n = nodes.pop().unwrap();
            proof {
                assert(n == q[0]);
                assert(q.drop_last() =~= Seq::<HuffmanNode>::empty());
                assert(all_syms(q.drop_last()) =~= Set::<u8>::empty());
                assert(sum_leaves(q.drop_last()) == 0);
                assert(sum_freq(q.drop_last()) == 0);
                assert(all_syms(q) =~= leaf_syms(n.shape()));
                assert(sum_leaves(q) == num_leaves(n.shape()));
                assert(sum_freq(q) == n.frequency);
                assert(n.wf());
                assert(n.freq_wf(data@));
                assert(distinct_leaves(n.shape()));
                lemma_distinct_num_leaves(n.shape());
                assert(leaf_syms(n.shape()) =~= data@.to_set()) by {
                    assert forall|b: u8| syms.contains(b) <==> data@.to_set().contains(b) by {
                        lemma_count_pos(data@, b);
                    }
                }
                assert(built_root(data@) == Some(Box::new(n)));
                if all_one {
                    assert(n.shape() == Shape::Leaf(data@[0]));
                }
            }
            self.root = Some(Box::new(n));
        }
    }

    /// Copies a bit path.
    fn copy_bits(v: &Vec<bool>) -> (c: Vec<bool>)
        ensures
            c@ == v@,
    {
        let mut c: Vec<bool> = Vec::new();
        let mut i: usize = 0;
        while i < v.len()
            invariant
                i <= v@.len(),
                c@ == v@.take(i as int),
            decreases v@.len() - i,
        {
            c.push(v[i]);
            proof {
                assert(c@ =~= v@.take(i as int + 1));
            }
            i += 1;
        }
        proof {
            assert(v@.take(v@.len() as int) =~= v@);
        }
        c
    }

    /// Walks the subtree under `node`, which is reached over the path in
    /// `current_code`, and records the full root-to-leaf path of every leaf
    /// symbol whose table entry is still empty.
    pub fn generate_codes_recursive(
        &self,
        node: &HuffmanNode,
        current_code: &mut Vec<bool>,
        codes: &mut Vec<Option<Vec<bool>>>,
    )
        requires
            node.wf(),
            old(codes)@.len() == 256,
        ensures
            final(codes)@.len() == 256,
            final(current_code)@ == old(current_code)@,
            forall|s: int|
                0 <= s < 256 ==> code_entry(#[trigger] final(codes)@[s]) == updated_entry(
                    code_entry(old(codes)@[s]),
                    node.shape(),
                    old(current_code)@,
                    s as u8,
                ),
        decreases node,
    {
        match node.value {
            Some(v) => {
                let vi = v as usize;
                if codes[vi].is_none() {
                    let c = Self::copy_bits(current_code);
                    codes.set(vi, Some(c));
                }
                proof {
                    assert(node.shape() == Shape::Leaf(v));
                    assert forall|s: int|
                        0 <= s < 256 implies code_entry(#[trigger] codes@[s]) == updated_entry(
                        code_entry(old(codes)@[s]),
                        node.shape(),
                        old(current_code)@,
                        s as u8,
                    ) by {
                        if s == v as int && code_entry(old(codes)@[s]) is None {
                            assert(code_of(node.shape(), v) == Some(Seq::<bool>::empty()));
                            assert(old(current_code)@ + Seq::<bool>::empty() =~= old(
                                current_code,
                            )@);
                        }
                    }
                }
            },
            None => {
                let ghost pre = current_code@;
                let ghost c0 = codes@;
                let l = node.left.as_ref().unwrap();
                let r = node.right.as_ref().unwrap();
                proof {
                    assert(node.shape() == Shape::Node(Box::new(l.shape()), Box::new(r.shape())));
                }
                current_code.push(false);
                self.generate_codes_recursive(l, current_code, codes);
                current_code.pop();
                proof {
                    assert(current_code@ =~= pre);
                }
                let ghost c1 = codes@;
                current_code.push(true);
                self.generate_codes_recursive(r, current_code, codes);
                current_code.pop();
                proof {
                    assert(current_code@ =~= pre);
                    assert forall|s: int|
                        0 <= s < 256 implies code_entry(#[trigger] codes@[s]) == updated_entry(
                        code_entry(c0[s]),
                        node.shape(),
                        pre,
                        s as u8,
                    ) by {
                        let su = s as u8;
                        if code_entry(c0[s]) is None {
                            match code_of(l.shape(), su) {
                                Some(cl) => {
                                    assert(code_entry(c1[s]) == Some(pre.push(false) + cl));
                                    assert(pre.push(false) + cl =~= pre + (seq![false] + cl));
                                    assert(code_of(node.shape(), su) == Some(seq![false] + cl));
                                },
                                None => {
                                    match code_of(r.shape(), su) {
                                        Some(cr) => {
                                            assert(code_entry(codes@[s]) == Some(
                                                pre.push(true) + cr,
                                            ));
                                            assert(pre.push(true) + cr =~= pre + (seq![true]
                                                + cr));
                                        },
                                        None => {},
                                    }
                                },
                            }
                        }
                    }
                }
            },
        }
    }

    /// Derives the code table of the tree: for each symbol at a leaf, the
    /// root-to-leaf bit path; `None` for every other symbol.
    pub fn generate_codes(&self) -> (codes: Vec<Option<Vec<bool>>>)
        requires
            self.wf(),
        ensures
            codes@.len() == 256,
            forall|s: int|
                0 <= s < 256 ==> code_entry(#[trigger] codes@[s]) == tree_code(
                    self.shape(),
                    s as u8,
                ),
    {
        let mut codes: Vec<Option<Vec<bool>>> = Vec::new();
        let mut k: usize = 0;
        while k < 256
            invariant
                codes@.len() == k,
                k <= 256,
                forall|s: int| 0 <= s < k ==> (#[trigger] codes@[s]) is None,
            decreases 256 - k,
        {
            codes.push(None);
            k += 1;
        }
        match &self.root {
            None => {},
            Some(root) => {
                let mut path: Vec<bool> = Vec::new();
                self.generate_codes_recursive(root, &mut path, &mut codes);
                proof {
                    assert forall|s: int|
                        0 <= s < 256 implies code_entry(#[trigger] codes@[s]) == tree_code(
                        self.shape(),
                        s as u8,
                    ) by {
                        match code_of(root.shape(), s as u8) {
                            Some(c) => {
                                assert(Seq::<bool>::empty() + c =~= c);
                            },
                            None => {},
                        }
                    }
                }
            },
        }
        codes
    }

    /// Encodes a payload: the concatenated codes of its bytes, packed into
    /// bytes most significant bit first, with zero bits padding the last
    /// byte.  A byte the tree does not know contributes nothing.
    pub fn encode(&self, data: &[u8]) -> (encoded: Vec<u8>)
        requires
            self.wf(),
        ensures
            unpack(encoded@) == pad_bits(tree_bits(self.shape(), data@)),
            encoded@.len() == (tree_bits(self.shape(), data@).len() + 7) / 8,
    {
        let codes = self.generate_codes();
        let mut bits: Vec<bool> = Vec::new();
        proof {
            assert(data@.take(0) =~= Seq::<u8>::empty());
        }
        let mut i: usize = 0;
        while i < data.len()
            invariant
                self.wf(),
                codes@.len() == 256,
                forall|s: int|
                    0 <= s < 256 ==> code_entry(#[trigger] codes@[s]) == tree_code(
                        self.shape(),
                        s as u8,
                    ),
                i <= data@.len(),
                bits@ == tree_bits(self.shape(), data@.take(i as int)),
            decreases data@.len() - i,
        {
            let b = data[i] as usize;
            let ghost prefix = bits@;
            match &codes[b] {
                Some(code) => {
                    let mut j: usize = 0;
                    while j < code.len()
                        invariant
                            j <= code@.len(),
                            bits@ == prefix + code@.take(j as int),
                        decreases code@.len() - j,
                    {
                        bits.push(code[j]);
                        proof {
                            assert(bits@ =~= prefix + code@.take(j as int + 1));
                        }
                        j += 1;
                    }
                    proof {
                        assert(code@.take(code@.len() as int) =~= code@);
                    }
                },
                None => {
                    proof {
                        assert(bits@ =~= prefix + Seq::<bool>::empty());
                    }
                },
            }
            proof {
                assert(data@.take(i as int + 1) =~= data@.take(i as int).push(data@[i as int]));
                match self.shape() {
                    Some(sh) => {
                        lemma_data_bits_push(sh, data@.take(i as int), data@[i as int]);
                    },
                    None => {},
                }
                assert(bits@ =~= tree_bits(self.shape(), data@.take(i as int + 1)));
            }
            i += 1;
        }
        proof {
            assert(data@.take(data@.len() as int) =~= data@);
        }
        let ghost raw = bits@;
        let rem = bits.len() % 8;
        if rem != 0 {
            let need = 8 - rem;
            let mut p: usize = 0;
            proof {
                assert(bits@ =~= raw + Seq::new(0, |x: int| false));
            }
            while p < need
                invariant
                    p <= need,
                    bits@ == raw + Seq::new(p as nat, |x: int| false),
                decreases need - p,
            {
                bits.push(false);
                proof {
                    assert(bits@ =~= raw + Seq::new(p as nat + 1, |x: int| false));
                }
                p += 1;
            }
        } else {
            proof {
                assert(bits@ =~= raw + Seq::new(0, |x: int| false));
            }
        }
        proof {
            assert(bits@ =~= pad_bits(raw));
            assert(bits@.len() % 8 == 0);
        }
        let ghost padded = bits@;
        let mut encoded: Vec<u8> = Vec::new();
        let mut pos: usize = 0;
        while pos < bits.len()
            invariant
                bits@ == padded,
                pos == 8 * encoded@.len(),
                pos <= bits@.len(),
                bits@.len() % 8 == 0,
                forall|k: int| 0 <= k < pos ==> bit_at(encoded@[k / 8], k % 8) == bits@[k],
            decreases bits@.len() - pos,
        {
            proof {
                assert((bits@.len() - pos) % 8 == 0);
                assert(pos + 8 <= bits@.len());
            }
            let byte = byte_from_bits(&bits, pos);
            let ghost oldlen = encoded@.len() as int;
            encoded.push(byte);
            proof {
                assert forall|k: int|
                    0 <= k < pos + 8 implies bit_at(encoded@[k / 8], k % 8) == bits@[k] by {
                    if k < pos {
                        assert(k / 8 < oldlen);
                        assert(encoded@[k / 8] == encoded@.subrange(0, oldlen)[k / 8]);
                    } else {
                        assert(k / 8 == oldlen && k % 8 == k - pos);
                        assert(bit_at(byte, k - pos) == bits@[pos + (k - pos)]);
                    }
                }
            }
            pos += 8;
        }
        proof {
            assert(pos == bits@.len());
            assert(unpack(encoded@) =~= padded);
            assert(encoded@.len() == (raw.len() + 7) / 8);
        }
        encoded
    }

    /// Decodes a packed bit stream back into `original_size` bytes: walk the
    /// tree bit by bit, emit a symbol at each leaf, restart at the root, and
    /// stop once `original_size` symbols are out.  When the bits run out
    /// first, the result is shorter than `original_size`.  A tree that is a
    /// bare leaf emits its symbol `original_size` times.
    pub fn decode(&self, encoded: &[u8], original_size: usize) -> (decoded: Vec<u8>)
        requires
            self.wf(),
        ensures
            decoded@ == tree_decode(self.shape(), unpack(encoded@), original_size as nat),
    {
        let mut decoded: Vec<u8> = Vec::new();
        if self.root.is_none() {
            return decoded;
        }
        let root = self.root.as_ref().unwrap();
        let ghost bits = unpack(encoded@);
        let ghost rsh = root.shape();
        match root.value {
            Some(s) => {
                proof {
                    lemma_decode_leaf(s, bits, original_size as nat);
                }
                while decoded.len() < original_size
                    invariant
                        decoded@.len() <= original_size,
                        decoded@ == Seq::new(decoded@.len(), |x: int| s),
                    decreases original_size - decoded@.len(),
                {
                    decoded.push(s);
                    proof {
                        assert(decoded@ =~= Seq::new(decoded@.len(), |x: int| s));
                    }
                }
                proof {
                    assert(decoded@ =~= Seq::new(original_size as nat, |x: int| s));
                }
                decoded
            },
            None => {
                let mut current: &HuffmanNode = &**root;
                let mut i: usize = 0;
                proof {
                    assert(bits.skip(0) =~= bits);
                    lemma_decode_cont_root(rsh, bits, original_size as nat);
                    assert(Seq::<u8>::empty() + decode_bits(rsh, bits, original_size as nat)
                        =~= decode_bits(rsh, bits, original_size as nat));
                }
                while i < encoded.len()
                    invariant
                        self.shape() == Some(rsh),
                        root.wf(),
                        root.value is None,
                        root.shape() == rsh,
                        current.wf(),
                        current.value is None,
                        bits == unpack(encoded@),
                        i <= encoded@.len(),
                        decoded@.len() <= original_size,
                        decode_bits(rsh, bits, original_size as nat) == decoded@ + decode_cont(
                            current.shape(),
                            bits.skip(8 * i as int),
                            rsh,
                            (original_size - decoded@.len()) as nat,
                        ),
                    decreases encoded@.len() - i,
                {
                    let byte = encoded[i];
                    let mut j: usize = 0;
                    while j < 8
                        invariant
                            self.shape() == Some(rsh),
                            root.wf(),
                            root.value is None,
                            root.shape() == rsh,
                            current.wf(),
                            current.value is None,
                            bits == unpack(encoded@),
                            i < encoded@.len(),
                            j <= 8,
                            byte == encoded@[i as int],
                            decoded@.len() <= original_size,
                            decode_bits(rsh, bits, original_size as nat) == decoded@
                                + decode_cont(
                                current.shape(),
                                bits.skip(8 * i as int + j as int),
                                rsh,
                                (original_size - decoded@.len()) as nat,
                            ),
                        decreases 8 - j,
                    {
                        if decoded.len() == original_size {
                            proof {
                                assert(decode_cont(
                                    current.shape(),
                                    bits.skip(8 * i as int + j as int),
                                    rsh,
                                    0nat,
                                ) == Seq::<u8>::empty());
                                assert(decoded@ + Seq::<u8>::empty() =~= decoded@);
                            }
                            return decoded;
                        }
                        let ghost k = 8 * i as int + j as int;
                        let shift: u8 = (7 - j) as u8;
                        let bit = ((byte >> shift) & 1) == 1;
                        proof {
                            assert(k < bits.len());
                            assert(k / 8 == i as int && k % 8 == j as int);
                            assert(bit == bits[k]);
                            assert(bits.skip(k).len() > 0);
                            assert(bits.skip(k)[0] == bit);
                        }
                        let child_box = if bit {
                            current.right.as_ref().unwrap()
                        } else {
                            current.left.as_ref().unwrap()
                        };
                        let child: &HuffmanNode = &**child_box;
                        proof {
                            let lsh = current.left.unwrap().shape();
                            let rsh2 = current.right.unwrap().shape();
                            assert(current.shape() == Shape::Node(Box::new(lsh), Box::new(rsh2)));
                            lemma_decode_cont_step(
                                lsh,
                                rsh2,
                                bits.skip(k),
                                rsh,
                                (original_size - decoded@.len()) as nat,
                            );
                            assert(child.shape() == if bit {
                                rsh2
                            } else {
                                lsh
                            });
                            assert(bits.skip(k).skip(1) =~= bits.skip(k + 1));
                        }
                        match child.value {
                            Some(v) => {
                                proof {
                                    assert(child.shape() == Shape::Leaf(v));
                                }
                                let ghost before = decoded@;
                                decoded.push(v);
                                proof {
                                    lemma_decode_cont_root(
                                        rsh,
                                        bits.skip(k + 1),
                                        (original_size - decoded@.len()) as nat,
                                    );
                                    assert(before + (seq![v] + decode_bits(
                                        rsh,
                                        bits.skip(k + 1),
                                        (original_size - decoded@.len()) as nat,
                                    )) =~= decoded@ + decode_bits(
                                        rsh,
                                        bits.skip(k + 1),
                                        (original_size - decoded@.len()) as nat,
                                    ));
                                }
                                current = &**root;
                            },
                            None => {
                                proof {
                                    assert(child.wf());
                                    assert(child.shape() == Shape::Node(
                                        Box::new(child.left.unwrap().shape()),
                                        Box::new(child.right.unwrap().shape()),
                                    ));
                                }
                                current = child;
                            },
                        }
                        j += 1;
                    }
                    proof {
                        assert(bits.skip(8 * (i as int + 1)) == bits.skip(8 * i as int + 8));
                    }
                    i += 1;
                }
                proof {
                    assert(bits.skip(8 * i as int) =~= Seq::<bool>::empty());
                    if decoded@.len() < original_size {
                        assert(current.wf());
                        assert(current.shape() == Shape::Node(
                            Box::new(current.left.unwrap().shape()),
                            Box::new(current.right.unwrap().shape()),
                        ));
                        assert(walk(current.shape(), Seq::<bool>::empty()) is None);
                    }
                    assert(decoded@ + Seq::<u8>::empty() =~= decoded@);
                }
                decoded
            },
        }
    }

    /// Serializes the tree shape in pre-order; the empty tree serializes to
    /// an empty buffer.
    pub fn serialize(&self) -> (blob: Vec<u8>)
        requires
            self.wf(),
        ensures
            blob@ == tree_ser(self.shape()),
    {
        let mut result: Vec<u8> = Vec::new();
        match &self.root {
            None => {},
            Some(root) => {
                self.serialize_node(root, &mut result);
                proof {
                    assert(Seq::<u8>::empty() + ser_shape(root.shape()) =~= ser_shape(
                        root.shape(),
                    ));
                }
            },
        }
        result
    }

    /// Appends the pre-order serialization of one subtree: 0 and the symbol
    /// for a leaf, 1 followed by both subtrees for an internal node.
    pub fn serialize_node(&self, node: &HuffmanNode, result: &mut Vec<u8>)
        requires
            node.wf(),
        ensures
            final(result)@ == old(result)@ + ser_shape(node.shape()),
        decreases node,
    {
        match node.value {
            Some(v) => {
                result.push(0);
                result.push(v);
                proof {
                    assert(result@ =~= old(result)@ + ser_shape(node.shape()));
                }
            },
            None => {
                result.push(1);
                let l = node.left.as_ref().unwrap();
                let r = node.right.as_ref().unwrap();
                self.serialize_node(l, result);
                self.serialize_node(r, result);
                proof {
                    assert(node.shape() == Shape::Node(Box::new(l.shape()), Box::new(r.shape())));
                    assert(result@ =~= old(result)@ + ser_shape(node.shape()));
                }
            },
        }
    }

    /// Rebuilds a tree from a serialized blob; `None` when no valid node
    /// starts at the first byte.  Bytes after the root's serialization are
    /// ignored.
    pub fn deserialize(data: &[u8]) -> (tree: Option<HuffmanTree>)
        ensures
            match parse_node(data@, 0) {
                Some((sh, j)) => tree matches Some(t) && t.wf() && t.shape() == Some(sh),
                None => tree is None,
            },
    {
        let mut index: usize = 0;
        match Self::deserialize_node(data, &mut index) {
            Some(root) => Some(HuffmanTree { root: Some(Box::new(root)) }),
            None => None,
        }
    }

    /// Parses one serialized node at `*index`, advancing `*index` past it;
    /// `None` when a discriminator, a symbol, or a child is missing.  A
    /// rebuilt node carries frequency 0.
    pub fn deserialize_node(data: &[u8], index: &mut usize) -> (node: Option<HuffmanNode>)
        requires
            *old(index) <= data@.len(),
        ensures
            match parse_node(data@, *old(index) as int) {
                Some((sh, j)) => node matches Some(n) && n.wf() && n.shape() == sh && *final(index)
                    == j,
                None => node is None,
            },
        decreases data@.len() - *old(index),
    {
        if *index >= data.len() {
            return None;
        }
        let node_type = data[*index];
        *index += 1;
        if node_type == 0 {
            if *index >= data.len() {
                return None;
            }
            let value = data[*index];
            *index += 1;
            Some(HuffmanNode::new(Some(value), 0))
        } else {
            proof {
                lemma_parse_advances(data@, *old(index) as int + 1);
            }
            let left = match Self::deserialize_node(data, index) {
                Some(n) => n,
                None => {
                    return None;
                },
            };
            proof {
                lemma_parse_advances(data@, *index as int);
            }
            let right = match Self::deserialize_node(data, index) {
                Some(n) => n,
                None => {
                    return None;
                },
            };
            let node = HuffmanNode {
                frequency: 0,
                value: None,
                left: Some(Box::new(left)),
                right: Some(Box::new(right)),
            };
            proof {
                assert(node.wf());
                assert(node.shape() == Shape::Node(Box::new(left.shape()), Box::new(right.shape())));
            }
            Some(node)
        }
    }
}

} // verus!
