//! The mathematical model of the codec: tree shapes, bit codes, decoding,
//! and the pre-order serialization grammar, together with the lemmas that
//! make the codec round-trip.

use vstd::prelude::*;

verus! {

/// The shape of a Huffman coding tree: a leaf carries the encoded symbol, an
/// internal node carries exactly two subtrees.  Frequencies play no role in
/// encoding or decoding, so the model leaves them out.
pub enum Shape {
    Leaf(u8),
    Node(Box<Shape>, Box<Shape>),
}

/// The set of symbols that appear at the leaves of a tree.
pub open spec fn leaf_syms(t: Shape) -> Set<u8>
    decreases t,
{
    match t {
        Shape::Leaf(s) => set![s],
        Shape::Node(l, r) => leaf_syms(*l).union(leaf_syms(*r)),
    }
}

/// How many leaves a tree has.
pub open spec fn num_leaves(t: Shape) -> nat
    decreases t,
{
    match t {
        Shape::Leaf(_) => 1,
        Shape::Node(l, r) => num_leaves(*l) + num_leaves(*r),
    }
}

/// No symbol appears at two different leaves: the subtrees of every
/// internal node carry disjoint symbol sets.
pub open spec fn distinct_leaves(t: Shape) -> bool
    decreases t,
{
    match t {
        Shape::Leaf(_) => true,
        Shape::Node(l, r) => leaf_syms(*l).disjoint(leaf_syms(*r)) && distinct_leaves(*l)
            && distinct_leaves(*r),
    }
}

/// The leaf symbol set of a tree is finite.
pub proof fn lemma_leaf_syms_finite(t: Shape)
    ensures
        leaf_syms(t).finite(),
    decreases t,
{
    broadcast use vstd::set::group_set_axioms;

    match t {
        Shape::Leaf(_) => {},
        Shape::Node(l, r) => {
            lemma_leaf_syms_finite(*l);
            lemma_leaf_syms_finite(*r);
        },
    }
}

/// In a tree with pairwise-distinct leaves, the number of leaves equals the
/// number of distinct leaf symbols.
pub proof fn lemma_distinct_num_leaves(t: Shape)
    requires
        distinct_leaves(t),
    ensures
        num_leaves(t) == leaf_syms(t).len(),
    decreases t,
{
    broadcast use vstd::set::group_set_axioms;

    match t {
        Shape::Leaf(_) => {},
        Shape::Node(l, r) => {
            lemma_distinct_num_leaves(*l);
            lemma_distinct_num_leaves(*r);
            lemma_leaf_syms_finite(*l);
            lemma_leaf_syms_finite(*r);
            vstd::set_lib::lemma_set_disjoint_lens(leaf_syms(*l), leaf_syms(*r));
            assert(leaf_syms(*l) + leaf_syms(*r) == leaf_syms(t));
        },
    }
}

/// The height of a tree: the longest root-to-leaf path.
pub open spec fn height(t: Shape) -> nat
    decreases t,
{
    match t {
        Shape::Leaf(_) => 0,
        Shape::Node(l, r) => 1 + if height(*l) >= height(*r) {
            height(*l)
        } else {
            height(*r)
        },
    }
}

/// The bit code of a symbol: the root-to-leaf path, `false` for a left
/// branch and `true` for a right branch.  If the same symbol appeared at
/// several leaves, the leftmost occurrence would win.
pub open spec fn code_of(t: Shape, s: u8) -> Option<Seq<bool>>
    decreases t,
{
    match t {
        Shape::Leaf(v) => if v == s {
            Some(Seq::<bool>::empty())
        } else {
            None
        },
        Shape::Node(l, r) => match code_of(*l, s) {
            Some(c) => Some(seq![false] + c),
            None => match code_of(*r, s) {
                Some(c) => Some(seq![true] + c),
                None => None,
            },
        },
    }
}

/// The bits that one symbol contributes to an encoded stream: its code, or
/// nothing when the tree does not know the symbol.
pub open spec fn code_bits(t: Shape, s: u8) -> Seq<bool> {
    match code_of(t, s) {
        Some(c) => c,
        None => Seq::<bool>::empty(),
    }
}

/// The bits of a whole payload: the concatenation of each byte's code.
pub open spec fn data_bits(t: Shape, data: Seq<u8>) -> Seq<bool>
    decreases data.len(),
{
    if data.len() == 0 {
        Seq::<bool>::empty()
    } else {
        code_bits(t, data[0]) + data_bits(t, data.skip(1))
    }
}

/// Walking from `t` along `bits` until a leaf is reached: the leaf's symbol
/// and the number of bits consumed, or `None` when the bits run out first.
pub open spec fn walk(t: Shape, bits: Seq<bool>) -> Option<(u8, nat)>
    decreases t,
{
    match t {
        Shape::Leaf(s) => Some((s, 0)),
        Shape::Node(l, r) => if bits.len() == 0 {
            None
        } else {
            let child = if bits[0] {
                *r
            } else {
                *l
            };
            match walk(child, bits.skip(1)) {
                Some(p) => Some((p.0, (p.1 + 1) as nat)),
                None => None,
            }
        },
    }
}

/// Decoding a bit stream: walk from the root over and over, emitting one
/// symbol per completed walk, until `count` symbols have been emitted or the
/// bits run out.
pub open spec fn decode_bits(t: Shape, bits: Seq<bool>, count: nat) -> Seq<u8>
    decreases count,
{
    if count == 0 {
        Seq::<u8>::empty()
    } else {
        match walk(t, bits) {
            None => Seq::<u8>::empty(),
            Some(p) => seq![p.0] + decode_bits(t, bits.skip(p.1 as int), (count - 1) as nat),
        }
    }
}

/// Decoding that has already walked partway down the tree: `cur` is the node
/// the walk stands at; once a leaf is reached the walk restarts at `root`.
pub open spec fn decode_cont(cur: Shape, bits: Seq<bool>, root: Shape, count: nat) -> Seq<u8> {
    if count == 0 {
        Seq::<u8>::empty()
    } else {
        match walk(cur, bits) {
            None => Seq::<u8>::empty(),
            Some(p) => seq![p.0] + decode_bits(root, bits.skip(p.1 as int), (count - 1) as nat),
        }
    }
}

/// Pre-order serialization of a tree shape: a leaf is the discriminator 0
/// followed by the symbol; an internal node is the discriminator 1 followed
/// by the left then the right subtree.
pub open spec fn ser_shape(t: Shape) -> Seq<u8>
    decreases t,
{
    match t {
        Shape::Leaf(s) => seq![0u8, s],
        Shape::Node(l, r) => seq![1u8] + ser_shape(*l) + ser_shape(*r),
    }
}

/// Parsing one serialized node at offset `i`: the shape read and the offset
/// just after it, or `None` when a discriminator, a symbol, or a required
/// subtree is missing.
pub open spec fn parse_node(data: Seq<u8>, i: int) -> Option<(Shape, int)>
    decreases data.len() - i,
{
    if i < 0 || i >= data.len() {
        None
    } else if data[i] == 0 {
        if i + 1 < data.len() {
            Some((Shape::Leaf(data[i + 1]), i + 2))
        } else {
            None
        }
    } else {
        match parse_node(data, i + 1) {
            None => None,
            Some((l, j)) => if j <= i + 1 || j > data.len() {
                None
            } else {
                match parse_node(data, j) {
                    None => None,
                    Some((r, k)) => Some((Shape::Node(Box::new(l), Box::new(r)), k)),
                }
            },
        }
    }
}

/// A successful parse always makes progress and stays inside the buffer.
pub proof fn lemma_parse_advances(data: Seq<u8>, i: int)
    ensures
        parse_node(data, i) matches Some(p) ==> i + 2 <= p.1 <= data.len(),
    decreases data.len() - i,
{
    if 0 <= i < data.len() && data[i] != 0 {
        lemma_parse_advances(data, i + 1);
        match parse_node(data, i + 1) {
            Some((l, j)) => {
                if i + 1 < j <= data.len() {
                    lemma_parse_advances(data, j);
                }
            },
            None => {},
        }
    }
}

/// A symbol has a code exactly when some leaf carries it.
pub proof fn lemma_code_exists(t: Shape, s: u8)
    ensures
        code_of(t, s) is Some <==> leaf_syms(t).contains(s),
    decreases t,
{
    match t {
        Shape::Leaf(_) => {},
        Shape::Node(l, r) => {
            lemma_code_exists(*l, s);
            lemma_code_exists(*r, s);
        },
    }
}

/// Following a symbol's code from the root reaches that symbol's leaf,
/// consuming exactly the code, whatever bits follow.
pub proof fn lemma_walk_code(t: Shape, s: u8, c: Seq<bool>, rest: Seq<bool>)
    requires
        code_of(t, s) == Some(c),
    ensures
        walk(t, c + rest) == Some((s, c.len() as nat)),
    decreases t,
{
    match t {
        Shape::Leaf(_) => {
            assert(c + rest =~= rest);
        },
        Shape::Node(l, r) => {
            match code_of(*l, s) {
                Some(cl) => {
                    assert(c == seq![false] + cl);
                    assert((c + rest)[0] == false);
                    assert((c + rest).skip(1) =~= cl + rest);
                    lemma_walk_code(*l, s, cl, rest);
                },
                None => {
                    let cr = code_of(*r, s).unwrap();
                    assert(c == seq![true] + cr);
                    assert((c + rest)[0] == true);
                    assert((c + rest).skip(1) =~= cr + rest);
                    lemma_walk_code(*r, s, cr, rest);
                },
            }
        },
    }
}

/// Round-trip of encoding: decoding the concatenated codes of a payload,
/// with any trailing bits after them, yields the payload back, provided the
/// tree knows every byte of the payload.
pub proof fn lemma_decode_data_bits(t: Shape, data: Seq<u8>, rest: Seq<bool>)
    requires
        forall|i: int| 0 <= i < data.len() ==> code_of(t, #[trigger] data[i]) is Some,
    ensures
        decode_bits(t, data_bits(t, data) + rest, data.len() as nat) == data,
    decreases data.len(),
{
    if data.len() == 0 {
        assert(decode_bits(t, data_bits(t, data) + rest, 0) =~= data);
    } else {
        let c = code_of(t, data[0]).unwrap();
        let tail = data.skip(1);
        let bits = data_bits(t, data) + rest;
        assert(data_bits(t, data) == c + data_bits(t, tail));
        assert(bits =~= c + (data_bits(t, tail) + rest));
        lemma_walk_code(t, data[0], c, data_bits(t, tail) + rest);
        assert(walk(t, bits) == Some((data[0], c.len() as nat)));
        assert(bits.skip(c.len() as int) =~= data_bits(t, tail) + rest);
        assert(forall|i: int| 0 <= i < tail.len() ==> code_of(t, #[trigger] tail[i]) is Some) by {
            assert(forall|i: int| 0 <= i < tail.len() ==> tail[i] == data[i + 1]);
        }
        lemma_decode_data_bits(t, tail, rest);
        assert(seq![data[0]] + tail =~= data);
    }
}

/// A leaf-only tree decodes every bit stream to repetitions of its symbol.
pub proof fn lemma_decode_leaf(s: u8, bits: Seq<bool>, count: nat)
    ensures
        decode_bits(Shape::Leaf(s), bits, count) == Seq::new(count, |i: int| s),
    decreases count,
{
    if count == 0 {
        assert(decode_bits(Shape::Leaf(s), bits, count) =~= Seq::new(count, |i: int| s));
    } else {
        assert(bits.skip(0) =~= bits);
        lemma_decode_leaf(s, bits, (count - 1) as nat);
        assert(seq![s] + Seq::new((count - 1) as nat, |i: int| s) =~= Seq::new(count, |i: int| s));
    }
}

/// A code never outruns the tree: it is at most the height long, which is
/// itself less than the number of leaves; and on a tree of two or more
/// leaves no code is empty.
pub proof fn lemma_code_len_bound(t: Shape, s: u8)
    ensures
        height(t) < num_leaves(t),
        code_of(t, s) matches Some(c) ==> c.len() <= height(t),
        (t matches Shape::Node(_, _) && code_of(t, s) is Some) ==> code_of(t, s).unwrap().len()
            >= 1,
    decreases t,
{
    match t {
        Shape::Leaf(_) => {},
        Shape::Node(l, r) => {
            lemma_code_len_bound(*l, s);
            lemma_code_len_bound(*r, s);
        },
    }
}

/// The leaf weights of a full binary tree, each scaled to two to the power
/// `h` less the leaf's depth.  Every leaf's depth is the length of its bit
/// code, so this is the code's Kraft sum scaled by two to the `h`.
pub open spec fn kraft_sum(t: Shape, h: nat) -> nat
    decreases t,
{
    match t {
        Shape::Leaf(_) => vstd::arithmetic::power2::pow2(h),
        Shape::Node(l, r) => kraft_sum(*l, (h - 1) as nat) + kraft_sum(*r, (h - 1) as nat),
    }
}

/// Kraft equality: because every internal node carries exactly two
/// children, the scaled leaf weights sum to exactly two to the `h`, for any
/// `h` at least the tree's height — the prefix code is complete.
pub proof fn lemma_kraft_equality(t: Shape, h: nat)
    requires
        h >= height(t),
    ensures
        kraft_sum(t, h) == vstd::arithmetic::power2::pow2(h),
    decreases t,
{
    match t {
        Shape::Leaf(_) => {},
        Shape::Node(l, r) => {
            lemma_kraft_equality(*l, (h - 1) as nat);
            lemma_kraft_equality(*r, (h - 1) as nat);
            vstd::arithmetic::power2::lemma_pow2_unfold(h);
        },
    }
}

/// Codes of distinct symbols are never prefixes of one another.
pub proof fn lemma_prefix_free(t: Shape, s1: u8, s2: u8)
    requires
        s1 != s2,
        code_of(t, s1) is Some,
        code_of(t, s2) is Some,
    ensures
        !code_of(t, s1).unwrap().is_prefix_of(code_of(t, s2).unwrap()),
    decreases t,
{
    match t {
        Shape::Leaf(_) => {},
        Shape::Node(l, r) => {
            let c1 = code_of(t, s1).unwrap();
            let c2 = code_of(t, s2).unwrap();
            match (code_of(*l, s1), code_of(*l, s2)) {
                (Some(d1), Some(d2)) => {
                    lemma_prefix_free(*l, s1, s2);
                    assert(c1 == seq![false] + d1);
                    assert(c2 == seq![false] + d2);
                    if c1.is_prefix_of(c2) {
                        assert(d1.len() <= d2.len());
                        assert(forall|i: int| 0 <= i < d1.len() ==> d1[i] == c1[i + 1] && d2[i] == c2[i + 1]);
                        assert(d1 =~= d2.subrange(0, d1.len() as int));
                    }
                },
                (Some(d1), None) => {
                    let d2 = code_of(*r, s2).unwrap();
                    assert(c1[0] == false && c2[0] == true);
                },
                (None, Some(d2)) => {
                    let d1 = code_of(*r, s1).unwrap();
                    assert(c1[0] == true && c2[0] == false);
                },
                (None, None) => {
                    lemma_prefix_free(*r, s1, s2);
                    let d1 = code_of(*r, s1).unwrap();
                    let d2 = code_of(*r, s2).unwrap();
                    assert(c1 == seq![true] + d1);
                    assert(c2 == seq![true] + d2);
                    if c1.is_prefix_of(c2) {
                        assert(d1.len() <= d2.len());
                        assert(forall|i: int| 0 <= i < d1.len() ==> d1[i] == c1[i + 1] && d2[i] == c2[i + 1]);
                        assert(d1 =~= d2.subrange(0, d1.len() as int));
                    }
                },
            }
        },
    }
}

/// Parsing a buffer that holds a tree's serialization at offset `i` yields
/// that tree back and stops right after it.
pub proof fn lemma_parse_ser(t: Shape, data: Seq<u8>, i: int)
    requires
        0 <= i,
        i + ser_shape(t).len() <= data.len(),
        data.subrange(i, i + ser_shape(t).len()) == ser_shape(t),
    ensures
        parse_node(data, i) == Some((t, i + ser_shape(t).len())),
    decreases t,
{
    let n = ser_shape(t).len() as int;
    assert(forall|k: int| 0 <= k < n ==> data[i + k] == #[trigger] ser_shape(t)[k]) by {
        assert(forall|k: int| 0 <= k < n ==> #[trigger] data.subrange(i, i + n)[k] == data[i + k]);
    }
    match t {
        Shape::Leaf(s) => {
            assert(data[i] == 0 && data[i + 1] == s);
        },
        Shape::Node(l, r) => {
            let sl = ser_shape(*l);
            let sr = ser_shape(*r);
            assert(ser_shape(t) == seq![1u8] + sl + sr);
            assert(data[i] == ser_shape(t)[0] && ser_shape(t)[0] == 1);
            assert(data.subrange(i + 1, i + 1 + sl.len()) =~= sl) by {
                assert(forall|k: int| 0 <= k < sl.len()
                    ==> data.subrange(i + 1, i + 1 + sl.len() as int)[k] == data[i + 1 + k]
                        && ser_shape(t)[1 + k] == sl[k]);
            }
            lemma_parse_ser(*l, data, i + 1);
            let j = i + 1 + sl.len() as int;
            assert(data.subrange(j, j + sr.len()) =~= sr) by {
                assert(forall|k: int| 0 <= k < sr.len()
                    ==> data.subrange(j, j + sr.len() as int)[k] == data[j + k]
                        && ser_shape(t)[1 + sl.len() + k] == sr[k]);
            }
            lemma_parse_ser(*r, data, j);
        },
    }
}

/// Serialization keeps everything that decoding needs: a payload encoded
/// with a tree's codes decodes identically against the tree that is parsed
/// back out of that tree's serialization, trailing pad bits and all.
pub proof fn lemma_reconstruct_decode(t: Shape, data: Seq<u8>, rest: Seq<bool>)
    requires
        forall|i: int| 0 <= i < data.len() ==> code_of(t, #[trigger] data[i]) is Some,
    ensures
        parse_node(ser_shape(t), 0) == Some((t, ser_shape(t).len() as int)),
        decode_bits(
            parse_node(ser_shape(t), 0).unwrap().0,
            data_bits(t, data) + rest,
            data.len() as nat,
        ) == data,
{
    assert(ser_shape(t).subrange(0, ser_shape(t).len() as int) =~= ser_shape(t));
    lemma_parse_ser(t, ser_shape(t), 0);
    lemma_decode_data_bits(t, data, rest);
}

/// The serialized form of a tree takes three bytes per leaf, less one.
pub proof fn lemma_ser_len(t: Shape)
    ensures
        ser_shape(t).len() == 3 * num_leaves(t) - 1,
        num_leaves(t) >= 1,
    decreases t,
{
    match t {
        Shape::Leaf(_) => {},
        Shape::Node(l, r) => {
            lemma_ser_len(*l);
            lemma_ser_len(*r);
        },
    }
}

/// A walk never consumes more bits than there are.
pub proof fn lemma_walk_len(t: Shape, bits: Seq<bool>)
    ensures
        walk(t, bits) matches Some(p) ==> p.1 <= bits.len(),
    decreases t,
{
    match t {
        Shape::Leaf(_) => {},
        Shape::Node(l, r) => {
            if bits.len() > 0 {
                let child = if bits[0] {
                    *r
                } else {
                    *l
                };
                lemma_walk_len(child, bits.skip(1));
            }
        },
    }
}

/// Decoding partway down the tree coincides with decoding from the root
/// when the walk stands at the root.
pub proof fn lemma_decode_cont_root(t: Shape, bits: Seq<bool>, count: nat)
    ensures
        decode_cont(t, bits, t, count) == decode_bits(t, bits, count),
{
}

/// One step of a decoding walk: consuming the first bit either finishes a
/// code at a leaf child or moves the walk to an internal child.
pub proof fn lemma_decode_cont_step(l: Shape, r: Shape, bits: Seq<bool>, root: Shape, count: nat)
    requires
        bits.len() > 0,
        count > 0,
    ensures
        decode_cont(Shape::Node(Box::new(l), Box::new(r)), bits, root, count) == {
            let child = if bits[0] {
                r
            } else {
                l
            };
            match child {
                Shape::Leaf(s) => seq![s] + decode_bits(root, bits.skip(1), (count - 1) as nat),
                Shape::Node(_, _) => decode_cont(child, bits.skip(1), root, count),
            }
        },
{
    let cur = Shape::Node(Box::new(l), Box::new(r));
    let child = if bits[0] {
        r
    } else {
        l
    };
    match child {
        Shape::Leaf(s) => {
            assert(walk(child, bits.skip(1)) == Some((s, 0nat)));
            assert(walk(cur, bits) == Some((s, 1nat)));
        },
        Shape::Node(_, _) => {
            match walk(child, bits.skip(1)) {
                None => {
                    assert(walk(cur, bits) is None);
                },
                Some(p) => {
                    assert(walk(cur, bits) == Some((p.0, (p.1 + 1) as nat)));
                    lemma_walk_len(child, bits.skip(1));
                    assert(bits.skip(1).skip(p.1 as int) =~= bits.skip(p.1 as int + 1));
                },
            }
        },
    }
}

/// Appending one byte to a payload appends that byte's code to its bits.
pub proof fn lemma_data_bits_push(t: Shape, data: Seq<u8>, x: u8)
    ensures
        data_bits(t, data.push(x)) == data_bits(t, data) + code_bits(t, x),
    decreases data.len(),
{
    if data.len() == 0 {
        assert(data.push(x).skip(1) =~= Seq::<u8>::empty());
        assert(data.push(x)[0] == x);
        assert(data_bits(t, data.push(x)) == code_bits(t, x) + data_bits(
            t,
            data.push(x).skip(1),
        ));
        assert(data_bits(t, data.push(x).skip(1)) == Seq::<bool>::empty());
        assert(data_bits(t, data) == Seq::<bool>::empty());
        assert(code_bits(t, x) + Seq::<bool>::empty() =~= Seq::<bool>::empty() + code_bits(t, x));
    } else {
        assert(data.push(x).skip(1) =~= data.skip(1).push(x));
        lemma_data_bits_push(t, data.skip(1), x);
        let c0 = code_bits(t, data[0]);
        assert(data_bits(t, data.push(x)) == c0 + (data_bits(t, data.skip(1)) + code_bits(t, x)));
        assert(c0 + (data_bits(t, data.skip(1)) + code_bits(t, x)) =~= (c0 + data_bits(
            t,
            data.skip(1),
        )) + code_bits(t, x));
    }
}

/// How often a symbol occurs in a byte sequence.
pub open spec fn count_sym(data: Seq<u8>, s: u8) -> nat
    decreases data.len(),
{
    if data.len() == 0 {
        0
    } else {
        count_sym(data.drop_last(), s) + if data.last() == s {
            1nat
        } else {
            0nat
        }
    }
}

/// The sum of the occurrence counts of the symbols below `n`.
pub open spec fn sum_counts(data: Seq<u8>, n: int) -> nat
    decreases n,
{
    if n <= 0 {
        0
    } else {
        sum_counts(data, n - 1) + count_sym(data, (n - 1) as u8)
    }
}

/// No symbol occurs more often than the sequence is long.
pub proof fn lemma_count_le_len(data: Seq<u8>, s: u8)
    ensures
        count_sym(data, s) <= data.len(),
    decreases data.len(),
{
    if data.len() > 0 {
        lemma_count_le_len(data.drop_last(), s);
    }
}

/// A symbol occurs at all exactly when the sequence contains it.
pub proof fn lemma_count_pos(data: Seq<u8>, s: u8)
    ensures
        count_sym(data, s) > 0 <==> data.contains(s),
    decreases data.len(),
{
    if data.len() > 0 {
        lemma_count_pos(data.drop_last(), s);
        if data.last() == s {
            assert(data[data.len() - 1] == s);
        } else if data.drop_last().contains(s) {
            let i = choose|i: int| 0 <= i < data.drop_last().len() && data.drop_last()[i] == s;
            assert(data[i] == s);
        } else if data.contains(s) {
            let i = choose|i: int| 0 <= i < data.len() && data[i] == s;
            assert(data.drop_last()[i] == s);
        }
    }
}

/// In a sequence whose bytes all equal `s`, any other symbol never occurs.
pub proof fn lemma_count_unique(data: Seq<u8>, s: u8, b: u8)
    requires
        forall|i: int| 0 <= i < data.len() ==> data[i] == s,
        b != s,
    ensures
        count_sym(data, b) == 0,
    decreases data.len(),
{
    if data.len() > 0 {
        assert(forall|i: int| 0 <= i < data.drop_last().len() ==> data.drop_last()[i] == s);
        lemma_count_unique(data.drop_last(), s, b);
    }
}

proof fn lemma_sum_counts_drop(data: Seq<u8>, n: int)
    requires
        data.len() > 0,
        n <= 256,
    ensures
        sum_counts(data, n) == sum_counts(data.drop_last(), n) + if (data.last() as int) < n {
            1nat
        } else {
            0nat
        },
    decreases n,
{
    if n > 0 {
        lemma_sum_counts_drop(data, n - 1);
    }
}

proof fn lemma_sum_counts_empty(data: Seq<u8>, n: int)
    requires
        data.len() == 0,
    ensures
        sum_counts(data, n) == 0,
    decreases n,
{
    if n > 0 {
        lemma_sum_counts_empty(data, n - 1);
    }
}

/// Frequency conservation: the per-symbol occurrence counts sum to the
/// length of the input.
pub proof fn lemma_frequency_conservation(data: Seq<u8>)
    ensures
        sum_counts(data, 256) == data.len(),
    decreases data.len(),
{
    if data.len() == 0 {
        lemma_sum_counts_empty(data, 256);
    } else {
        lemma_frequency_conservation(data.drop_last());
        lemma_sum_counts_drop(data, 256);
    }
}

} // verus!
