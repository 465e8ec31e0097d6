//! Adaptive Huffman entropy coder: frequency-driven tree construction over
//! all 256 byte values, pre-order tree (de)serialization, and bit-level
//! encoding and decoding of byte buffers.
//!
//! The compressed payload is self-contained:
//! `[4 bytes: data-bit count, big endian][256 bytes: leaf byte values in
//! pre-order][tree-shape bits, zero-padded to a byte][encoded data bits,
//! zero-padded to a byte]`.

use vstd::prelude::*;
use crate::bitstream::{bit_at, BitStreamReader, BitStreamWriter};
use crate::bytes::{be32, push_be32};

verus! {

/// Huffman tree node: a leaf carries a byte value, a branch owns exactly two
/// children. The tree always has 256 leaves, one per byte value, so every
/// byte receives a code path whether or not it occurs in the input.
pub enum HuffmanNode {
    Leaf(u8),
    Branch(Box<HuffmanNode>, Box<HuffmanNode>),
}

/// Number of leaves of a tree.
pub open spec fn leaf_count(t: HuffmanNode) -> nat
    decreases t,
{
    match t {
        HuffmanNode::Leaf(_) => 1,
        HuffmanNode::Branch(l, r) => leaf_count(*l) + leaf_count(*r),
    }
}

/// Whether some leaf of `t` carries the byte `b`.
pub open spec fn has_leaf(t: HuffmanNode, b: u8) -> bool
    decreases t,
{
    match t {
        HuffmanNode::Leaf(x) => x == b,
        HuffmanNode::Branch(l, r) => has_leaf(*l, b) || has_leaf(*r, b),
    }
}

/// The code of byte `b`: the left/right edge sequence (0 = left, 1 = right)
/// from the root to the first leaf carrying `b` in left-to-right order.
pub open spec fn code_of(t: HuffmanNode, b: u8) -> Seq<u8>
    decreases t,
{
    match t {
        HuffmanNode::Leaf(_) => seq![],
        HuffmanNode::Branch(l, r) => if has_leaf(*l, b) {
            seq![0u8] + code_of(*l, b)
        } else {
            seq![1u8] + code_of(*r, b)
        },
    }
}

/// Pre-order shape bits of a tree: 1 marks a leaf, 0 marks a branch followed
/// by the bits of both children.
pub open spec fn shape_bits(t: HuffmanNode) -> Seq<u8>
    decreases t,
{
    match t {
        HuffmanNode::Leaf(_) => seq![1u8],
        HuffmanNode::Branch(l, r) => seq![0u8] + shape_bits(*l) + shape_bits(*r),
    }
}

/// Leaf byte values of a tree in pre-order.
pub open spec fn leaf_bytes(t: HuffmanNode) -> Seq<u8>
    decreases t,
{
    match t {
        HuffmanNode::Leaf(b) => seq![b],
        HuffmanNode::Branch(l, r) => leaf_bytes(*l) + leaf_bytes(*r),
    }
}

/// Walking the tree from the root by one bit per step, starting at bit `i`
/// of `bits`: the byte of the leaf reached and the next unread bit position.
pub open spec fn walk(t: HuffmanNode, bits: Seq<u8>, i: int) -> Option<(u8, int)>
    decreases t,
{
    match t {
        HuffmanNode::Leaf(b) => Some((b, i)),
        HuffmanNode::Branch(l, r) => if 0 <= i < bits.len() {
            if bits[i] == 0 {
                walk(*l, bits, i + 1)
            } else {
                walk(*r, bits, i + 1)
            }
        } else {
            None
        },
    }
}

/// Parsing a tree from shape bits starting at bit `i`, taking leaf values
/// from `words` starting at index `w`: the tree, the next unread bit and the
/// next unread word. The `i < i1` guard in the branch arm only serves
/// termination; a successful left parse always advances.
pub open spec fn parse_tree(bits: Seq<u8>, i: int, words: Seq<u8>, w: int) -> Option<
    (HuffmanNode, int, int),
>
    decreases bits.len() - i,
{
    if !(0 <= i < bits.len()) {
        None
    } else if bits[i] != 0 {
        if 0 <= w < words.len() {
            Some((HuffmanNode::Leaf(words[w]), i + 1, w + 1))
        } else {
            None
        }
    } else {
        match parse_tree(bits, i + 1, words, w) {
            None => None,
            Some((l, i1, w1)) => if i < i1 <= bits.len() {
                match parse_tree(bits, i1, words, w1) {
                    None => None,
                    Some((r, i2, w2)) => Some(
                        (HuffmanNode::Branch(Box::new(l), Box::new(r)), i2, w2),
                    ),
                }
            } else {
                None
            },
        }
    }
}

pub proof fn lemma_leaf_count_pos(t: HuffmanNode)
    ensures
        leaf_count(t) >= 1,
    decreases t,
{
    match t {
        HuffmanNode::Leaf(_) => {},
        HuffmanNode::Branch(l, r) => {
            lemma_leaf_count_pos(*l);
            lemma_leaf_count_pos(*r);
        },
    }
}

/// A code is at most one bit per further leaf, and empty only at a lone leaf.
pub proof fn lemma_code_len(t: HuffmanNode, b: u8)
    requires
        has_leaf(t, b),
    ensures
        code_of(t, b).len() <= leaf_count(t) - 1,
    decreases t,
{
    match t {
        HuffmanNode::Leaf(_) => {},
        HuffmanNode::Branch(l, r) => {
            lemma_leaf_count_pos(*l);
            lemma_leaf_count_pos(*r);
            if has_leaf(*l, b) {
                lemma_code_len(*l, b);
            } else {
                lemma_code_len(*r, b);
            }
        },
    }
}

/// Shape bits and leaf values have fixed sizes in the number of leaves.
pub proof fn lemma_dump_lens(t: HuffmanNode)
    ensures
        shape_bits(t).len() == 2 * leaf_count(t) - 1,
        leaf_bytes(t).len() == leaf_count(t),
    decreases t,
{
    match t {
        HuffmanNode::Leaf(_) => {},
        HuffmanNode::Branch(l, r) => {
            lemma_dump_lens(*l);
            lemma_dump_lens(*r);
        },
    }
}

/// A successful parse advances past at least one bit and never reads out of
/// range.
pub proof fn lemma_parse_advances(bits: Seq<u8>, i: int, words: Seq<u8>, w: int)
    requires
        parse_tree(bits, i, words, w).is_some(),
    ensures
        i < parse_tree(bits, i, words, w).unwrap().1 <= bits.len(),
        w <= parse_tree(bits, i, words, w).unwrap().2 <= words.len(),
    decreases bits.len() - i,
{
    if 0 <= i < bits.len() && bits[i] == 0 {
        let left = parse_tree(bits, i + 1, words, w);
        lemma_parse_advances(bits, i + 1, words, w);
        let (l, i1, w1) = left.unwrap();
        lemma_parse_advances(bits, i1, words, w1);
    }
}

/// Walking a buffer that starts (at position `i`) with the code of `b`
/// reaches the leaf of `b` and consumes exactly that code.
pub proof fn lemma_walk_code(t: HuffmanNode, b: u8, bits: Seq<u8>, i: int)
    requires
        has_leaf(t, b),
        0 <= i,
        i + code_of(t, b).len() <= bits.len(),
        forall|k: int| 0 <= k < code_of(t, b).len() ==> bits[i + k] == code_of(t, b)[k],
    ensures
        walk(t, bits, i) == Some((b, i + code_of(t, b).len())),
    decreases t,
{
    match t {
        HuffmanNode::Leaf(_) => {},
        HuffmanNode::Branch(l, r) => {
            let c = code_of(t, b);
            if has_leaf(*l, b) {
                let cl = code_of(*l, b);
                assert(bits[i + 0] == c[0]);
                assert(c[0] == 0u8);
                assert forall|k: int| 0 <= k < cl.len() implies #[trigger] bits[(i + 1) + k]
                    == cl[k] by {
                    assert(bits[i + (k + 1)] == c[k + 1]);
                    assert(c[k + 1] == cl[k]);
                }
                lemma_walk_code(*l, b, bits, i + 1);
            } else {
                let cr = code_of(*r, b);
                assert(bits[i + 0] == c[0]);
                assert(c[0] == 1u8);
                assert forall|k: int| 0 <= k < cr.len() implies #[trigger] bits[(i + 1) + k]
                    == cr[k] by {
                    assert(bits[i + (k + 1)] == c[k + 1]);
                    assert(c[k + 1] == cr[k]);
                }
                lemma_walk_code(*r, b, bits, i + 1);
            }
        },
    }
}

/// Tree serialization round-trip: a buffer that holds the shape bits of `t`
/// at position `i` and its leaf bytes at word index `w` parses back to `t`
/// exactly.
pub proof fn lemma_parse_dump(t: HuffmanNode, bits: Seq<u8>, i: int, words: Seq<u8>, w: int)
    requires
        0 <= i,
        0 <= w,
        i + shape_bits(t).len() <= bits.len(),
        w + leaf_bytes(t).len() <= words.len(),
        forall|k: int| 0 <= k < shape_bits(t).len() ==> bits[i + k] == shape_bits(t)[k],
        forall|k: int| 0 <= k < leaf_bytes(t).len() ==> words[w + k] == leaf_bytes(t)[k],
    ensures
        parse_tree(bits, i, words, w) == Some(
            (t, i + shape_bits(t).len(), w + leaf_bytes(t).len()),
        ),
    decreases t,
{
    match t {
        HuffmanNode::Leaf(b) => {
            assert(bits[i + 0] == shape_bits(t)[0]);
            assert(shape_bits(t)[0] == 1u8);
            assert(words[w + 0] == leaf_bytes(t)[0]);
            assert(leaf_bytes(t)[0] == b);
        },
        HuffmanNode::Branch(l, r) => {
            let st = shape_bits(t);
            let lt = leaf_bytes(t);
            let sl = shape_bits(*l);
            let sr = shape_bits(*r);
            let wl = leaf_bytes(*l);
            let wr = leaf_bytes(*r);
            assert(bits[i + 0] == st[0]);
            assert(st[0] == 0u8);
            assert forall|k: int| 0 <= k < sl.len() implies #[trigger] bits[(i + 1) + k]
                == sl[k] by {
                assert(bits[i + (1 + k)] == st[1 + k]);
                assert(st[1 + k] == sl[k]);
            }
            assert forall|k: int| 0 <= k < wl.len() implies #[trigger] words[w + k] == wl[k] by {
                assert(words[w + k] == lt[k]);
                assert(lt[k] == wl[k]);
            }
            lemma_parse_dump(*l, bits, i + 1, words, w);
            let i1 = i + 1 + sl.len();
            let w1 = w + wl.len();
            assert forall|k: int| 0 <= k < sr.len() implies #[trigger] bits[i1 + k] == sr[k] by {
                assert(bits[i + (1 + sl.len() + k)] == st[1 + sl.len() + k]);
                assert(st[1 + sl.len() + k] == sr[k]);
            }
            assert forall|k: int| 0 <= k < wr.len() implies #[trigger] words[w1 + k] == wr[k] by {
                assert(words[w + (wl.len() + k)] == lt[wl.len() + k]);
                assert(lt[wl.len() + k] == wr[k]);
            }
            lemma_parse_dump(*r, bits, i1, words, w1);
        },
    }
}


/// Whether the root is an internal node; true of every tree with two or more
/// leaves.
pub open spec fn is_branch(t: HuffmanNode) -> bool {
    match t {
        HuffmanNode::Leaf(_) => false,
        HuffmanNode::Branch(_, _) => true,
    }
}

/// The bit sequence of a byte buffer, MSB-first within each byte.
pub open spec fn bits_of(bytes: Seq<u8>) -> Seq<u8> {
    Seq::new((8 * bytes.len()) as nat, |k: int| bit_at(bytes, k))
}

/// Concatenated codes of the first `k` bytes of `s` under the tree `t`.
pub open spec fn codes_concat(t: HuffmanNode, s: Seq<u8>, k: int) -> Seq<u8>
    decreases k,
{
    if k <= 0 {
        seq![]
    } else {
        codes_concat(t, s, k - 1) + code_of(t, s[k - 1])
    }
}

/// Decoded data bits: starting at bit `i`, repeatedly walk the tree from the
/// root and emit the byte of the leaf reached, until at least `size` bits
/// have been consumed. The `i < j` guard only serves termination; a walk
/// of a branch always advances.
pub open spec fn decode_data(t: HuffmanNode, bits: Seq<u8>, i: int, size: int) -> Option<Seq<u8>>
    decreases (if i < size { size - i } else { 0 }),
{
    if i >= size {
        Some(seq![])
    } else {
        match walk(t, bits, i) {
            None => None,
            Some((b, j)) => if i < j {
                match decode_data(t, bits, j, size) {
                    None => None,
                    Some(rest) => Some(seq![b] + rest),
                }
            } else {
                None
            },
        }
    }
}

/// What a compressed payload decodes to, if it is well formed: the data-bit
/// count, the 256 leaf values, the tree shape bits and the encoded data bits
/// must all be present and consistent. A payload whose tree is a lone leaf is
/// malformed: no data bit could ever be consumed.
pub open spec fn decode_spec(payload: Seq<u8>) -> Option<Seq<u8>> {
    if payload.len() < 260 {
        None
    } else {
        let size = be32(payload);
        let words = payload.subrange(4, 260);
        let region = payload.skip(260);
        match parse_tree(bits_of(region), 0, words, 0) {
            None => None,
            Some((t, p, _w)) => {
                if is_branch(t) {
                    let db = 260 + (p + 7) / 8;
                    if db <= payload.len() {
                        decode_data(t, bits_of(payload.skip(db)), 0, size)
                    } else {
                        None
                    }
                } else {
                    None
                }
            },
        }
    }
}

/// The concatenation of the first `k` codes is a prefix of the concatenation
/// of all of them.
pub proof fn lemma_codes_concat_prefix(t: HuffmanNode, s: Seq<u8>, k: int)
    requires
        0 <= k <= s.len(),
    ensures
        codes_concat(t, s, k).len() <= codes_concat(t, s, s.len() as int).len(),
        forall|m: int|
            0 <= m < codes_concat(t, s, k).len() ==> #[trigger] codes_concat(t, s, k)[m]
                == codes_concat(t, s, s.len() as int)[m],
    decreases s.len() - k,
{
    if k < s.len() {
        lemma_codes_concat_prefix(t, s, k + 1);
        assert(codes_concat(t, s, k + 1) == codes_concat(t, s, k) + code_of(t, s[k]));
        assert forall|m: int| 0 <= m < codes_concat(t, s, k).len() implies #[trigger] codes_concat(
            t,
            s,
            k,
        )[m] == codes_concat(t, s, s.len() as int)[m] by {
            assert(codes_concat(t, s, k)[m] == codes_concat(t, s, k + 1)[m]);
        }
    }
}

/// The root is internal and every byte value has a leaf: what tree building
/// over the full 256-entry frequency table guarantees.
pub open spec fn covers_all_bytes(t: HuffmanNode) -> bool {
    is_branch(t) && (forall|b: u8| has_leaf(t, b))
}

/// The pattern `pat` occurs in `bits` at offset `off`.
pub open spec fn bits_match(bits: Seq<u8>, pat: Seq<u8>, off: int) -> bool {
    forall|m: int| 0 <= m < pat.len() ==> bits[off + m] == #[trigger] pat[m]
}

/// Decoding the concatenated codes of `s` under a tree that carries every
/// byte yields `s` back: the suffix of `s` from index `j` is decoded from
/// the bit position where its codes start.
pub proof fn lemma_decode_concat(t: HuffmanNode, s: Seq<u8>, bits: Seq<u8>, j: int, size: int)
    requires
        covers_all_bytes(t),
        0 <= j <= s.len(),
        size == codes_concat(t, s, s.len() as int).len(),
        size <= bits.len(),
        bits_match(bits, codes_concat(t, s, s.len() as int), 0),
    ensures
        (decode_data(t, bits, codes_concat(t, s, j).len() as int, size) == Some(s.skip(j))),
    decreases s.len() - j,
{
    let full = codes_concat(t, s, s.len() as int);
    let pos = codes_concat(t, s, j).len() as int;
    lemma_codes_concat_prefix(t, s, j);
    if j == s.len() {
        assert(s.skip(j) =~= Seq::<u8>::empty());
    } else {
        let b = s[j];
        let c = code_of(t, b);
        assert(codes_concat(t, s, j + 1) == codes_concat(t, s, j) + c);
        lemma_codes_concat_prefix(t, s, j + 1);
        let pos1 = codes_concat(t, s, j + 1).len() as int;
        assert(pos1 == pos + c.len());
        assert(pos1 <= full.len());
        assert forall|m: int| 0 <= m < c.len() implies #[trigger] bits[pos + m] == c[m] by {
            assert(codes_concat(t, s, j + 1)[pos + m] == c[m]);
            assert(codes_concat(t, s, j + 1)[pos + m] == full[pos + m]);
            assert(bits[pos + m] == full[pos + m]);
        }
        lemma_walk_code(t, b, bits, pos);
        assert(c.len() >= 1);
        lemma_decode_concat(t, s, bits, j + 1, size);
        assert(walk(t, bits, pos) == Some((b, pos1)));
        assert(decode_data(t, bits, pos1, full.len() as int) == Some(s.skip(j + 1)));
        assert(pos < full.len());
        assert(decode_data(t, bits, pos, full.len() as int) == Some(seq![b] + s.skip(j + 1)));
        assert(seq![b] + s.skip(j + 1) =~= s.skip(j));
    }
}


/// A tree together with its frequency weight, as used by the working list of
/// the build step.
struct WeightedNode {
    weight: u128,
    node: HuffmanNode,
}

/// Sum of the weights of a working list.
spec fn sum_weights(s: Seq<WeightedNode>) -> int
    decreases s.len(),
{
    if s.len() == 0 {
        0
    } else {
        sum_weights(s.drop_last()) + s.last().weight
    }
}

/// Sum of the leaf counts of a working list.
spec fn sum_leaves(s: Seq<WeightedNode>) -> int
    decreases s.len(),
{
    if s.len() == 0 {
        0
    } else {
        sum_leaves(s.drop_last()) + leaf_count(s.last().node)
    }
}

/// Some tree of the working list has a leaf for `b`.
spec fn list_has_leaf(s: Seq<WeightedNode>, b: u8) -> bool {
    exists|k: int| 0 <= k < s.len() && has_leaf(s[k].node, b)
}

proof fn lemma_sums_bounds(s: Seq<WeightedNode>, idx: int)
    requires
        0 <= idx < s.len(),
    ensures
        sum_weights(s) >= s[idx].weight,
        sum_weights(s) >= 0,
        sum_leaves(s) >= leaf_count(s[idx].node),
        sum_leaves(s) >= 0,
    decreases s.len(),
{
    lemma_leaf_count_pos(s.last().node);
    assert(sum_weights(s) == sum_weights(s.drop_last()) + s.last().weight);
    assert(sum_leaves(s) == sum_leaves(s.drop_last()) + leaf_count(s.last().node));
    if idx == s.len() - 1 {
        assert(s.last() == s[idx]);
        if s.len() > 1 {
            lemma_sums_bounds(s.drop_last(), 0);
        } else {
            assert(s.drop_last().len() == 0);
            assert(sum_weights(s.drop_last()) == 0);
            assert(sum_leaves(s.drop_last()) == 0);
        }
    } else {
        assert(s.drop_last()[idx] == s[idx]);
        lemma_sums_bounds(s.drop_last(), idx);
    }
}

proof fn lemma_sums_remove(s: Seq<WeightedNode>, idx: int)
    requires
        0 <= idx < s.len(),
    ensures
        sum_weights(s.remove(idx)) == sum_weights(s) - s[idx].weight,
        sum_leaves(s.remove(idx)) == sum_leaves(s) - leaf_count(s[idx].node),
    decreases s.len(),
{
    if idx == s.len() - 1 {
        assert(s.remove(idx) =~= s.drop_last());
    } else {
        assert(s.remove(idx).drop_last() =~= s.drop_last().remove(idx));
        assert(s.remove(idx).last() == s.last());
        lemma_sums_remove(s.drop_last(), idx);
        assert(sum_weights(s.remove(idx)) == sum_weights(s.remove(idx).drop_last()) + s.remove(
            idx,
        ).last().weight);
    }
}

proof fn lemma_sums_push(s: Seq<WeightedNode>, x: WeightedNode)
    ensures
        sum_weights(s.push(x)) == sum_weights(s) + x.weight,
        sum_leaves(s.push(x)) == sum_leaves(s) + leaf_count(x.node),
{
    assert(s.push(x).drop_last() =~= s);
    assert(s.push(x).last() == x);
}

/// Number of occurrences of the byte `b` in `s`.
pub open spec fn count_occ(s: Seq<u8>, b: u8) -> int
    decreases s.len(),
{
    if s.len() == 0 {
        0
    } else {
        count_occ(s.drop_last(), b) + if s.last() == b {
            1int
        } else {
            0int
        }
    }
}

proof fn lemma_count_occ_bound(s: Seq<u8>, b: u8)
    ensures
        0 <= count_occ(s, b) <= s.len(),
    decreases s.len(),
{
    if s.len() > 0 {
        lemma_count_occ_bound(s.drop_last(), b);
    }
}

impl HuffmanNode {
    /// Frequency table of a byte buffer: entry `b` counts the occurrences of
    /// the byte value `b`.
    pub fn stat_freq(bytes: &[u8]) -> (freq: Vec<usize>)
        ensures
            freq@.len() == 256,
            forall|b: int| 0 <= b < 256 ==> #[trigger] freq@[b] == count_occ(bytes@, b as u8),
    {
        let mut freq: Vec<usize> = Vec::new();
        for k in 0..256usize
            invariant
                freq@.len() == k,
                forall|b: int| 0 <= b < k ==> #[trigger] freq@[b] == 0,
        {
            freq.push(0);
        }
        proof {
            assert forall|b: int| 0 <= b < 256 implies #[trigger] freq@[b] == count_occ(
                bytes@.subrange(0, 0),
                b as u8,
            ) by {
                assert(bytes@.subrange(0, 0) =~= Seq::<u8>::empty());
            }
        }
        let n = bytes.len();
        for i in 0..n
            invariant
                n == bytes@.len(),
                freq@.len() == 256,
                forall|b: int|
                    0 <= b < 256 ==> #[trigger] freq@[b] == count_occ(
                        bytes@.subrange(0, i as int),
                        b as u8,
                    ),
        {
            let byte = bytes[i] as usize;
            let ghost pre = bytes@.subrange(0, i as int);
            proof {
                lemma_count_occ_bound(pre, bytes@[i as int]);
            }
            let c = freq[byte];
            freq.set(byte, c + 1);
            proof {
                assert forall|b: int| 0 <= b < 256 implies #[trigger] freq@[b] == count_occ(
                    bytes@.subrange(0, i + 1),
                    b as u8,
                ) by {
                    let cur = bytes@.subrange(0, i + 1);
                    assert(cur.drop_last() =~= pre);
                    assert(cur.last() == bytes@[i as int]);
                }
            }
        }
        proof {
            assert(bytes@.subrange(0, bytes@.len() as int) =~= bytes@);
        }
        freq
    }
}


/// A working-list entry of the build loop, at the specification level: a
/// frequency weight and the tree it carries.
pub open spec fn initial_list(freq: Seq<int>) -> Seq<(int, HuffmanNode)> {
    Seq::new(freq.len(), |b: int| (freq[b], HuffmanNode::Leaf(b as u8)))
}

/// Index of the first element of least weight in a working list.
pub open spec fn min_index(s: Seq<(int, HuffmanNode)>) -> int
    decreases s.len(),
{
    if s.len() <= 1 {
        0
    } else {
        let m = min_index(s.drop_last());
        if s.last().0 < s[m].0 {
            s.len() - 1
        } else {
            m
        }
    }
}

/// One merge step of the build loop: the two first-encountered lightest
/// entries leave the list and a branch carrying their weight sum enters it.
pub open spec fn merge_step(s: Seq<(int, HuffmanNode)>) -> Seq<(int, HuffmanNode)> {
    let i1 = min_index(s);
    let m1 = s[i1];
    let s1 = s.remove(i1);
    let i2 = min_index(s1);
    let m2 = s1[i2];
    let s2 = s1.remove(i2);
    s2.push((m1.0 + m2.0, HuffmanNode::Branch(Box::new(m1.1), Box::new(m2.1))))
}

/// The build loop: merge until one tree remains. The length guard only
/// serves termination; a merge step always shortens the list by one.
pub open spec fn build_loop(s: Seq<(int, HuffmanNode)>) -> HuffmanNode
    decreases s.len(),
{
    if s.len() == 0 {
        HuffmanNode::Leaf(0)
    } else if s.len() == 1 {
        s[0].1
    } else {
        let s2 = merge_step(s);
        if s2.len() < s.len() {
            build_loop(s2)
        } else {
            s[0].1
        }
    }
}

/// The coding tree that the build step produces from a frequency table:
/// every entry starts as a leaf, and the two lightest trees (the
/// first-encountered on equal weights) are merged until one remains. The
/// tree shape is a function of the frequency table alone.
pub open spec fn huffman_tree(freq: Seq<int>) -> HuffmanNode {
    build_loop(initial_list(freq))
}

/// The integer values of a frequency table.
pub open spec fn ints_of_usize(s: Seq<usize>) -> Seq<int> {
    Seq::new(s.len(), |k: int| s[k] as int)
}

/// The occurrence counts of all 256 byte values in a buffer.
pub open spec fn counts_of(bytes: Seq<u8>) -> Seq<int> {
    Seq::new(256, |b: int| count_occ(bytes, b as u8))
}

/// A working list of the executable build loop, seen as specification pairs.
spec fn pairs_of(s: Seq<WeightedNode>) -> Seq<(int, HuffmanNode)> {
    Seq::new(s.len(), |k: int| (s[k].weight as int, s[k].node))
}

/// `min_index` is characterized by what `find_min` guarantees: the index of
/// a least weight that no earlier position undercuts or equals.
proof fn lemma_min_index_char(s: Seq<(int, HuffmanNode)>, idx: int)
    requires
        0 <= idx < s.len(),
        forall|k: int| 0 <= k < s.len() ==> (#[trigger] s[k]).0 >= s[idx].0,
        forall|k: int| 0 <= k < idx ==> (#[trigger] s[k]).0 > s[idx].0,
    ensures
        min_index(s) == idx,
    decreases s.len(),
{
    if s.len() > 1 {
        let d = s.drop_last();
        if idx == s.len() - 1 {
            let m = min_index(d);
            lemma_min_index_in_range(d);
            assert(d[min_index(d)] == s[min_index(d)]);
            assert(s.last() == s[idx]);
            assert(s[m].0 > s[idx].0);
        } else {
            assert(forall|k: int| 0 <= k < d.len() ==> (#[trigger] d[k]) == s[k]);
            lemma_min_index_char(d, idx);
            assert(s.last().0 >= s[idx].0);
        }
    }
}

proof fn lemma_min_index_in_range(s: Seq<(int, HuffmanNode)>)
    requires
        s.len() >= 1,
    ensures
        0 <= min_index(s) < s.len(),
        forall|k: int| 0 <= k < s.len() ==> (#[trigger] s[k]).0 >= s[min_index(s)].0,
    decreases s.len(),
{
    if s.len() > 1 {
        let d = s.drop_last();
        lemma_min_index_in_range(d);
        let m = min_index(d);
        assert(d[m] == s[m]);
        assert forall|k: int| 0 <= k < s.len() implies (#[trigger] s[k]).0 >= s[min_index(s)].0 by {
            if k < s.len() - 1 {
                assert(d[k] == s[k]);
                assert(d[k].0 >= d[m].0);
            } else {
                assert(s[k] == s.last());
            }
        }
    }
}

/// `post` is `pre` with its first least-weight element `m`, at index `idx`,
/// taken out.
spec fn removed_min(pre: Seq<WeightedNode>, post: Seq<WeightedNode>, m: WeightedNode, idx: int) -> bool {
    &&& 0 <= idx < pre.len()
    &&& m == pre[idx]
    &&& post == pre.remove(idx)
    &&& (forall|k: int| 0 <= k < pre.len() ==> (#[trigger] pre[k]).weight >= m.weight)
    &&& (forall|k: int| 0 <= k < idx ==> (#[trigger] pre[k]).weight > m.weight)
}

/// Removes and returns the first element of least weight.
fn find_min(list: &mut Vec<WeightedNode>) -> (m: WeightedNode)
    requires
        old(list)@.len() >= 1,
    ensures
        final(list)@.len() == old(list)@.len() - 1,
        (exists|idx: int| removed_min(old(list)@, final(list)@, m, idx)),
{
    let mut min_pos: usize = 0;
    let n = list.len();
    for i in 1..n
        invariant
            n == list@.len(),
            n >= 1,
            min_pos < i,
            forall|k: int| 0 <= k < i ==> (#[trigger] list@[k]).weight >= list@[min_pos as int].weight,
            forall|k: int| 0 <= k < min_pos ==> (#[trigger] list@[k]).weight > list@[min_pos as int].weight,
    {
        if list[i].weight < list[min_pos].weight {
            min_pos = i;
        }
    }
    let ghost pre = list@;
    let m = list.remove(min_pos);
    proof {
        assert(removed_min(pre, list@, m, min_pos as int));
    }
    m
}

impl HuffmanNode {
    /// Builds the coding tree from a 256-entry frequency table: all 256 byte
    /// values start as leaves, and the two lightest trees (first-encountered
    /// on ties) are merged under a fresh branch until one tree remains. The
    /// result therefore has exactly 256 leaves, one per byte value.
    pub fn build(freq_list: &[usize]) -> (root: Self)
        requires
            freq_list@.len() == 256,
        ensures
            covers_all_bytes(root),
            leaf_count(root) == 256,
            root == huffman_tree(ints_of_usize(freq_list@)),
    {
        let ghost goal = huffman_tree(ints_of_usize(freq_list@));
        let mut work: Vec<WeightedNode> = Vec::new();
        for byte in 0..256usize
            invariant
                freq_list@.len() == 256,
                work@.len() == byte,
                forall|k: int|
                    0 <= k < byte ==> (#[trigger] work@[k]).node == HuffmanNode::Leaf(k as u8),
                forall|k: int|
                    0 <= k < byte ==> (#[trigger] work@[k]).weight == freq_list@[k] as u128,
                sum_leaves(work@) == byte,
                0 <= sum_weights(work@) <= byte * (usize::MAX as int),
        {
            let ghost prev = work@;
            let item = WeightedNode {
                weight: freq_list[byte] as u128,
                node: HuffmanNode::Leaf(byte as u8),
            };
            proof {
                lemma_sums_push(prev, item);
                assert((byte + 1) * (usize::MAX as int) == byte * (usize::MAX as int) + (
                usize::MAX as int)) by (nonlinear_arith);
            }
            work.push(item);
        }
        proof {
            assert forall|b: u8| list_has_leaf(work@, b) by {
                assert(work@[b as int].node == HuffmanNode::Leaf(b));
            }
            assert(pairs_of(work@) =~= initial_list(ints_of_usize(freq_list@)));
            assert(build_loop(pairs_of(work@)) == goal);
        }
        while work.len() > 1
            invariant
                1 <= work@.len(),
                sum_leaves(work@) == 256,
                forall|b: u8| list_has_leaf(work@, b),
                sum_weights(work@) <= 256 * (usize::MAX as int),
                sum_weights(work@) >= 0,
                build_loop(pairs_of(work@)) == goal,
                goal == huffman_tree(ints_of_usize(freq_list@)),
            decreases work@.len(),
        {
            let ghost l0 = work@;
            let min1 = find_min(&mut work);
            let ghost l1 = work@;
            let min2 = find_min(&mut work);
            let ghost l2 = work@;
            proof {
                let idx1 = choose|idx: int| removed_min(l0, l1, min1, idx);
                lemma_sums_bounds(l0, idx1);
                lemma_sums_remove(l0, idx1);
                let idx2 = choose|idx: int| removed_min(l1, l2, min2, idx);
                lemma_sums_bounds(l1, idx2);
                lemma_sums_remove(l1, idx2);
                lemma_leaf_count_pos(min1.node);
                lemma_leaf_count_pos(min2.node);
                assert(min2.weight <= sum_weights(l1));
                assert(min1.weight + min2.weight <= sum_weights(l0));
            }
            let weight = min1.weight + min2.weight;
            let merged = WeightedNode {
                weight,
                node: HuffmanNode::Branch(Box::new(min1.node), Box::new(min2.node)),
            };
            proof {
                lemma_sums_push(l2, merged);
                let idx1 = choose|idx: int| removed_min(l0, l1, min1, idx);
                let idx2 = choose|idx: int| removed_min(l1, l2, min2, idx);
                assert(merged.node == HuffmanNode::Branch(
                    Box::new(min1.node),
                    Box::new(min2.node),
                ));
                assert forall|b: u8| list_has_leaf(l2.push(merged), b) by {
                    assert(has_leaf(merged.node, b) == (has_leaf(min1.node, b) || has_leaf(
                        min2.node,
                        b,
                    )));
                    assert(list_has_leaf(l0, b));
                    let k0 = choose|k: int| 0 <= k < l0.len() && has_leaf(l0[k].node, b);
                    if k0 == idx1 {
                        assert(has_leaf(merged.node, b));
                        assert(l2.push(merged)[l2.len() as int] == merged);
                    } else {
                        let k1: int = if k0 < idx1 {
                            k0
                        } else {
                            k0 - 1
                        };
                        assert(l1 == l0.remove(idx1));
                        assert(0 <= k1 < l1.len());
                        assert(l1[k1] == l0[k0]);
                        if k1 == idx2 {
                            assert(has_leaf(merged.node, b));
                            assert(l2.push(merged)[l2.len() as int] == merged);
                        } else {
                            let k2: int = if k1 < idx2 {
                                k1
                            } else {
                                k1 - 1
                            };
                            assert(l2 == l1.remove(idx2));
                            assert(0 <= k2 < l2.len());
                            assert(l2[k2] == l1[k1]);
                            assert(l2.push(merged)[k2] == l2[k2]);
                            assert(has_leaf(l2.push(merged)[k2].node, b));
                        }
                    }
                }
            }
            work.push(merged);
            proof {
                let idx1 = choose|idx: int| removed_min(l0, l1, min1, idx);
                let idx2 = choose|idx: int| removed_min(l1, l2, min2, idx);
                let p0 = pairs_of(l0);
                let p1 = pairs_of(l1);
                lemma_min_index_char(p0, idx1);
                assert(p0.remove(idx1) =~= p1);
                lemma_min_index_char(p1, idx2);
                assert(p1.remove(idx2) =~= pairs_of(l2));
                assert(p0[idx1] == (min1.weight as int, min1.node));
                assert(p1[idx2] == (min2.weight as int, min2.node));
                assert(pairs_of(work@) =~= pairs_of(l2).push(
                    (merged.weight as int, merged.node),
                ));
                assert(pairs_of(work@) == merge_step(p0));
                assert(p0.len() >= 2 && merge_step(p0).len() == p0.len() - 1);
                assert(build_loop(p0) == build_loop(merge_step(p0)));
            }
        }
        let ghost last_list = work@;
        let first = work.remove(0);
        proof {
            assert(last_list.len() == 1);
            assert(last_list.drop_last() =~= Seq::<WeightedNode>::empty());
            assert(sum_leaves(last_list.drop_last()) == 0);
            assert(last_list.last() == last_list[0]);
            assert(sum_leaves(last_list) == leaf_count(last_list[0].node));
            assert(leaf_count(first.node) == 256);
            assert forall|b: u8| has_leaf(first.node, b) by {
                assert(list_has_leaf(last_list, b));
                let k = choose|k: int| 0 <= k < last_list.len() && has_leaf(last_list[k].node, b);
                assert(k == 0);
            }
            assert(pairs_of(last_list).len() == 1);
            assert(build_loop(pairs_of(last_list)) == pairs_of(last_list)[0].1);
            assert(first.node == goal);
            match first.node {
                HuffmanNode::Leaf(_) => {
                    assert(leaf_count(first.node) == 1);
                    assert(false);
                },
                HuffmanNode::Branch(_, _) => {},
            }
        }
        first.node
    }
}


impl HuffmanNode {
    /// Whether this node is a leaf.
    pub fn is_leaf(&self) -> (r: bool)
        ensures
            r == !is_branch(*self),
    {
        match self {
            HuffmanNode::Leaf(_) => true,
            HuffmanNode::Branch(_, _) => false,
        }
    }

    /// Depth-first search for the leaf of `byte`; on success the bits of its
    /// code are appended to `bits` leaf-upward, that is in reverse.
    fn code_search(&self, byte: u8, bits: &mut Vec<u8>) -> (found: bool)
        ensures
            found == has_leaf(*self, byte),
            found ==> final(bits)@ == old(bits)@ + code_of(*self, byte).reverse(),
            !found ==> final(bits)@ == old(bits)@,
        decreases *self,
    {
        match self {
            HuffmanNode::Leaf(x) => {
                proof {
                    if *x == byte {
                        assert(bits@ + code_of(*self, byte).reverse() =~= bits@);
                    }
                }
                *x == byte
            },
            HuffmanNode::Branch(l, r) => {
                let ghost pre = bits@;
                if l.code_search(byte, bits) {
                    bits.push(0);
                    proof {
                        let c = code_of(*self, byte);
                        let cl = code_of(**l, byte);
                        assert(c == seq![0u8] + cl);
                        assert(c.reverse() =~= cl.reverse() + seq![0u8]);
                        assert(bits@ =~= pre + c.reverse());
                    }
                    return true;
                }
                if r.code_search(byte, bits) {
                    bits.push(1);
                    proof {
                        let c = code_of(*self, byte);
                        let cr = code_of(**r, byte);
                        assert(c == seq![1u8] + cr);
                        assert(c.reverse() =~= cr.reverse() + seq![1u8]);
                        assert(bits@ =~= pre + c.reverse());
                    }
                    return true;
                }
                false
            },
        }
    }

    /// The code of `byte`: the root-to-leaf path, left edges denoting bit 0
    /// and right edges bit 1; empty when no leaf carries `byte`.
    pub fn get_huffman_code(&self, byte: u8) -> (code: Vec<u8>)
        ensures
            has_leaf(*self, byte) ==> code@ == code_of(*self, byte),
            !has_leaf(*self, byte) ==> code@ == Seq::<u8>::empty(),
    {
        let mut bits: Vec<u8> = Vec::new();
        let found = self.code_search(byte, &mut bits);
        let n = bits.len();
        let mut code: Vec<u8> = Vec::new();
        for k in 0..n
            invariant
                n == bits@.len(),
                code@.len() == k,
                forall|p: int| 0 <= p < k ==> #[trigger] code@[p] == bits@[n - 1 - p],
        {
            code.push(bits[n - 1 - k]);
        }
        proof {
            if found {
                assert(code@ =~= code_of(*self, byte).reverse().reverse());
                assert(code_of(*self, byte).reverse().reverse() =~= code_of(*self, byte));
            } else {
                assert(code@ =~= Seq::<u8>::empty());
            }
        }
        code
    }

    /// The full code table: entry `b` is the code of the byte value `b`.
    pub fn get_dict(&self) -> (dict: Vec<Vec<u8>>)
        requires
            covers_all_bytes(*self),
        ensures
            dict@.len() == 256,
            forall|b: int| 0 <= b < 256 ==> (#[trigger] dict@[b])@ == code_of(*self, b as u8),
    {
        let mut dict: Vec<Vec<u8>> = Vec::new();
        for b in 0..256usize
            invariant
                covers_all_bytes(*self),
                dict@.len() == b,
                forall|p: int| 0 <= p < b ==> (#[trigger] dict@[p])@ == code_of(*self, p as u8),
        {
            let code = self.get_huffman_code(b as u8);
            dict.push(code);
        }
        dict
    }

    /// Serializes the tree: appends the pre-order shape bits to `bits` and
    /// the leaf values in pre-order to `words`.
    pub fn dump_to_bits(&self, bits: &mut BitStreamWriter, words: &mut Vec<u8>)
        requires
            old(bits).wf(),
            old(bits)@.len() + 2 * leaf_count(*self) <= usize::MAX,
            old(words)@.len() + leaf_count(*self) <= usize::MAX,
        ensures
            final(bits).wf(),
            final(bits)@ == old(bits)@ + shape_bits(*self),
            final(words)@ == old(words)@ + leaf_bytes(*self),
        decreases *self,
    {
        match self {
            HuffmanNode::Leaf(b) => {
                bits.write(1);
                words.push(*b);
                proof {
                    assert(bits@ =~= old(bits)@ + shape_bits(*self));
                    assert(words@ =~= old(words)@ + leaf_bytes(*self));
                }
            },
            HuffmanNode::Branch(l, r) => {
                proof {
                    lemma_leaf_count_pos(**l);
                    lemma_leaf_count_pos(**r);
                    lemma_dump_lens(**l);
                    lemma_dump_lens(**r);
                }
                bits.write(0);
                l.dump_to_bits(bits, words);
                r.dump_to_bits(bits, words);
                proof {
                    assert(bits@ =~= old(bits)@ + shape_bits(*self));
                    assert(words@ =~= old(words)@ + leaf_bytes(*self));
                }
            },
        }
    }

    /// Rebuilds a tree from its pre-order shape bits, consuming leaf values
    /// from `words` in order starting at `*w`.
    pub fn load_from_bits(bits: &mut BitStreamReader, words: &[u8], w: &mut usize) -> (t: Self)
        requires
            old(bits).wf(),
            parse_tree(bits_of(old(bits).data@), old(bits).pos(), words@, *old(w) as int).is_some(),
        ensures
            final(bits).wf(),
            final(bits).data@ == old(bits).data@,
            parse_tree(bits_of(old(bits).data@), old(bits).pos(), words@, *old(w) as int) == (Some(
                (t, final(bits).pos(), *final(w) as int),
            )),
        decreases 8 * bits.data@.len() - bits.pos(),
    {
        let ghost dbits = bits_of(old(bits).data@);
        let ghost i = old(bits).pos();
        let ghost w0 = *old(w) as int;
        proof {
            lemma_parse_advances(dbits, i, words@, w0);
        }
        let bit = bits.read();
        proof {
            assert(dbits[i] == bit_at(old(bits).data@, i));
        }
        if bit != 0 {
            let word = words[*w];
            *w = *w + 1;
            HuffmanNode::Leaf(word)
        } else {
            proof {
                lemma_parse_advances(dbits, i + 1, words@, w0);
            }
            let l = HuffmanNode::load_from_bits(bits, words, w);
            let r = HuffmanNode::load_from_bits(bits, words, w);
            HuffmanNode::Branch(Box::new(l), Box::new(r))
        }
    }

    /// Reads one symbol: walks the tree from this node, one bit per step,
    /// left on 0 and right on 1, and returns the byte of the leaf reached.
    pub fn get_byte(&self, bits: &mut BitStreamReader) -> (b: u8)
        requires
            old(bits).wf(),
            walk(*self, bits_of(old(bits).data@), old(bits).pos()).is_some(),
        ensures
            final(bits).wf(),
            final(bits).data@ == old(bits).data@,
            walk(*self, bits_of(old(bits).data@), old(bits).pos()) == (Some(
                (b, final(bits).pos()),
            )),
        decreases *self,
    {
        match self {
            HuffmanNode::Leaf(x) => *x,
            HuffmanNode::Branch(l, r) => {
                let ghost dbits = bits_of(old(bits).data@);
                let bit = bits.read();
                proof {
                    assert(dbits[old(bits).pos()] == bit_at(old(bits).data@, old(bits).pos()));
                }
                if bit == 0 {
                    l.get_byte(bits)
                } else {
                    r.get_byte(bits)
                }
            },
        }
    }
}


/// Code bits are binary: every element of a code is 0 or 1.
proof fn lemma_code_bits(t: HuffmanNode, b: u8)
    ensures
        forall|k: int|
            0 <= k < code_of(t, b).len() ==> (#[trigger] code_of(t, b)[k] == 0u8 || code_of(
                t,
                b,
            )[k] == 1u8),
    decreases t,
{
    match t {
        HuffmanNode::Leaf(_) => {},
        HuffmanNode::Branch(l, r) => {
            lemma_code_bits(*l, b);
            lemma_code_bits(*r, b);
            let c = code_of(t, b);
            assert forall|k: int| 0 <= k < c.len() implies (#[trigger] c[k] == 0u8 || c[k]
                == 1u8) by {
                if k > 0 {
                    if has_leaf(*l, b) {
                        assert(c[k] == code_of(*l, b)[k - 1]);
                    } else {
                        assert(c[k] == code_of(*r, b)[k - 1]);
                    }
                }
            }
        },
    }
}


/// The tree `encode` builds for an input: the build loop over the input's
/// byte occurrence counts.
pub open spec fn tree_of(bytes: Seq<u8>) -> HuffmanNode {
    huffman_tree(counts_of(bytes))
}

/// Number of data bits `encode` writes for an input: the summed code
/// lengths of its bytes under `tree_of`.
pub open spec fn data_bits_of(bytes: Seq<u8>) -> int {
    codes_concat(tree_of(bytes), bytes, bytes.len() as int).len() as int
}

/// Compresses `bytes` into a self-contained payload: the data-bit count, the
/// leaf values and shape of the tree built from the input's byte
/// frequencies (`tree_of`), and the bit-packed codes of the input, each
/// region zero-padded to a byte. The payload decodes back to exactly
/// `bytes`; an empty input yields a payload with a zero bit count that
/// decodes to an empty buffer. The length bound keeps the bit count inside
/// 32 bits on any machine.
pub fn encode(bytes: &[u8]) -> (r: Vec<u8>)
    requires
        bytes@.len() <= 0x1000000,
    ensures
        decode_spec(r@) == (Some(bytes@)),
        r@.len() == 324 + (data_bits_of(bytes@) + 7) / 8,
        r@.len() <= 324 + 32 * bytes@.len(),
        be32(r@) == data_bits_of(bytes@),
        r@.subrange(4, 260) == leaf_bytes(tree_of(bytes@)),
        bits_match(bits_of(r@.skip(260)), shape_bits(tree_of(bytes@)), 0),
        bit_at(r@.skip(260), 511) == 0u8,
        bits_match(bits_of(r@.skip(324)), codes_concat(tree_of(bytes@), bytes@, bytes@.len() as int), 0),
        (forall|k: int|
            data_bits_of(bytes@) <= k < 8 * (r@.len() - 324) ==> bit_at(r@.skip(324), k) == 0u8),
{
    let freq = HuffmanNode::stat_freq(bytes);
    let root = HuffmanNode::build(freq.as_slice());
    let dict = root.get_dict();

    let mut data_bits = BitStreamWriter::new();
    let n = bytes.len();
    for i in 0..n
        invariant
            n == bytes@.len(),
            n <= 0x1000000,
            covers_all_bytes(root),
            leaf_count(root) == 256,
            dict@.len() == 256,
            forall|b: int| 0 <= b < 256 ==> (#[trigger] dict@[b])@ == code_of(root, b as u8),
            data_bits.wf(),
            data_bits@ == codes_concat(root, bytes@, i as int),
            data_bits@.len() <= 255 * i,
    {
        let code = &dict[bytes[i] as usize];
        proof {
            lemma_code_len(root, bytes@[i as int]);
            lemma_code_bits(root, bytes@[i as int]);
        }
        let ghost base = data_bits@;
        let m = code.len();
        for k in 0..m
            invariant
                m == code@.len(),
                m <= 255,
                forall|p: int| 0 <= p < m ==> (#[trigger] code@[p] == 0u8 || code@[p] == 1u8),
                data_bits.wf(),
                data_bits@ == base + code@.subrange(0, k as int),
                base.len() <= 255 * 0x1000000 - 255,
        {
            data_bits.write(code[k]);
            proof {
                assert(data_bits@ =~= base + code@.subrange(0, k + 1));
            }
        }
        proof {
            assert(code@.subrange(0, m as int) =~= code@);
            assert(data_bits@ == codes_concat(root, bytes@, i + 1));
        }
    }
    proof {
        assert(data_bits@ == codes_concat(root, bytes@, bytes@.len() as int));
    }
    let total = data_bits.total_bits();

    let mut tree_bits = BitStreamWriter::new();
    let mut words: Vec<u8> = Vec::new();
    root.dump_to_bits(&mut tree_bits, &mut words);
    proof {
        lemma_dump_lens(root);
        assert(tree_bits@ =~= shape_bits(root));
        assert(words@ =~= leaf_bytes(root));
        tree_bits.lemma_buffer_bits();
        assert(tree_bits.data@.len() == 64);
        data_bits.lemma_buffer_bits();
    }
    let ghost shape = tree_bits@;
    let ghost data_seq = data_bits@;
    let ghost tree_bytes = tree_bits.data@;
    let ghost data_bytes = data_bits.data@;

    let mut out: Vec<u8> = Vec::new();
    push_be32(&mut out, total as u32);
    let ghost head = out@;
    out.append(&mut words);
    out.append(&mut tree_bits.data);
    out.append(&mut data_bits.data);

    proof {
        let payload = out@;
        assert(payload =~= head + leaf_bytes(root) + tree_bytes + data_bytes);
        assert(payload.len() >= 260);
        assert(be32(payload) == total) by {
            assert(head.skip(0) =~= head);
            assert(payload[0] == head[0] && payload[1] == head[1] && payload[2] == head[2]
                && payload[3] == head[3]);
        }
        let words_region = payload.subrange(4, 260);
        assert(words_region =~= leaf_bytes(root));
        let region = payload.skip(260);
        assert(region =~= tree_bytes + data_bytes);
        let rbits = bits_of(region);
        assert forall|k: int| 0 <= k < shape.len() implies #[trigger] rbits[0 + k]
            == shape_bits(root)[k] by {
            assert(region[k / 8] == tree_bytes[k / 8]);
            assert(bit_at(region, k) == bit_at(tree_bytes, k));
            assert(bit_at(tree_bytes, k) == shape[k]);
        }
        lemma_parse_dump(root, rbits, 0, words_region, 0);
        assert(parse_tree(rbits, 0, words_region, 0) == Some((root, 511int, 256int)));
        let db = 260 + (511 + 7) / 8;
        assert(db == 324);
        assert(payload.len() == 324 + data_bytes.len());
        let data_region = payload.skip(324);
        assert(data_region =~= data_bytes);
        let dbits = bits_of(data_region);
        assert(total == codes_concat(root, bytes@, bytes@.len() as int).len());
        assert(total <= 8 * data_bytes.len());
        assert forall|m: int| 0 <= m < total implies #[trigger] dbits[m] == codes_concat(
            root,
            bytes@,
            bytes@.len() as int,
        )[m] by {
            assert(bit_at(data_region, m) == bit_at(data_bytes, m));
            assert(bit_at(data_bytes, m) == data_seq[m]);
        }
        assert(bits_match(dbits, codes_concat(root, bytes@, bytes@.len() as int), 0));
        lemma_decode_concat(root, bytes@, dbits, 0, total as int);
        assert(codes_concat(root, bytes@, 0).len() == 0);
        assert(decode_data(root, dbits, 0, total as int) == Some(bytes@.skip(0)));
        assert(bytes@.skip(0) =~= bytes@);
        assert(decode_spec(payload) == Some(bytes@));
        assert(root == tree_of(bytes@)) by {
            assert(ints_of_usize(freq@) =~= counts_of(bytes@));
        }
        assert(total == data_bits_of(bytes@));
        assert(payload.len() == 324 + data_bytes.len());
        assert(data_bytes.len() == (total + 7) / 8) by {
            vstd::arithmetic::div_mod::lemma_fundamental_div_mod_converse(
                total + 7,
                8,
                data_bytes.len() as int,
                total + 7 - 8 * data_bytes.len(),
            );
        }
        assert((total + 7) / 8 <= 32 * bytes@.len()) by {
            vstd::arithmetic::div_mod::lemma_fundamental_div_mod(total + 7, 8);
        }
        assert(bits_match(rbits, shape_bits(root), 0));
        assert(bit_at(region, 511) == 0u8) by {
            assert(region[511int / 8] == tree_bytes[511int / 8]);
            assert(bit_at(region, 511) == bit_at(tree_bytes, 511));
        }
        assert(bits_match(bits_of(data_region), codes_concat(root, bytes@, bytes@.len() as int), 0));
        assert forall|k: int|
            data_bits_of(bytes@) <= k < 8 * (payload.len() - 324) implies bit_at(
            payload.skip(324),
            k,
        ) == 0u8 by {
            assert(data_region[k / 8] == data_bytes[k / 8]);
            assert(bit_at(data_region, k) == bit_at(data_bytes, k));
        }
        assert(payload.subrange(4, 260) == leaf_bytes(root));
    }
    out
}

/// Decompresses a payload produced by `encode`: reads the data-bit count,
/// the 256 leaf values and the tree shape, then walks the tree per data bit
/// and emits one byte per leaf reached until the declared count of bits has
/// been consumed.
pub fn decode(bytes: &[u8]) -> (r: Vec<u8>)
    requires
        decode_spec(bytes@).is_some(),
        8 * bytes@.len() <= usize::MAX,
    ensures
        r@ == decode_spec(bytes@).unwrap(),
{
    let ghost result = decode_spec(bytes@).unwrap();
    let size_u32 = crate::bytes::read_be32(bytes[0], bytes[1], bytes[2], bytes[3]);
    let size = size_u32 as usize;
    proof {
        assert(size == be32(bytes@));
    }
    let words = &bytes[4..260];
    let region = &bytes[260..bytes.len()];
    proof {
        assert(words@ =~= bytes@.subrange(4, 260));
        assert(region@ =~= bytes@.skip(260));
    }
    let mut reader = BitStreamReader::from_bytes(region);
    let mut w: usize = 0;
    let root = HuffmanNode::load_from_bits(&mut reader, words, &mut w);
    let ghost p = reader.pos();
    proof {
        assert(parse_tree(bits_of(region@), 0, words@, 0) == Some((root, p, w as int)));
        assert(is_branch(root));
    }
    let tb = reader.total_bytes();
    let data_start = 260 + tb;
    let data = &bytes[data_start..bytes.len()];
    let ghost dbits = bits_of(data@);
    proof {
        assert(data@ =~= bytes@.skip(260 + (p + 7) / 8));
        assert(decode_data(root, dbits, 0, size as int) == Some(result));
    }
    let mut dreader = BitStreamReader::from_bytes(data);
    let mut out: Vec<u8> = Vec::new();
    while dreader.total_bits() < size
        invariant
            dreader.wf(),
            dreader.data@ == data@,
            dbits == bits_of(data@),
            size <= usize::MAX,
            is_branch(root),
            decode_data(root, dbits, dreader.pos(), size as int).is_some(),
            out@ + decode_data(root, dbits, dreader.pos(), size as int).unwrap() == result,
        decreases (if dreader.pos() < size { size - dreader.pos() } else { 0int }),
    {
        let ghost pos = dreader.pos();
        let ghost step = decode_data(root, dbits, pos, size as int);
        proof {
            assert(pos < size as int);
            assert(walk(root, dbits, pos).is_some());
        }
        let b = root.get_byte(&mut dreader);
        let ghost pre_out = out@;
        out.push(b);
        proof {
            let j = dreader.pos();
            let rest = decode_data(root, dbits, j, size as int).unwrap();
            assert(j > pos);
            assert(step.unwrap() == seq![b] + rest);
            assert(out@ + rest =~= pre_out + (seq![b] + rest));
        }
    }
    proof {
        assert(decode_data(root, dbits, dreader.pos(), size as int) == Some(Seq::<u8>::empty()));
        assert(out@ + Seq::<u8>::empty() =~= out@);
    }
    out
}

} // verus!
