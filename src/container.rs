use vstd::prelude::*;
use vstd::utf8::is_scalar;
use crate::bitstream::{PackedStream, decode, decode_step, walk};
use crate::huffman::HuffmanNode;

verus! {

/// Byte `i` (from the least significant) of `v`.
pub open spec fn byte_of(v: u64, i: u64) -> u8 {
    ((v >> (8 * i)) & 0xff) as u8
}

/// The `n` little-endian bytes of `v`.
pub open spec fn le_bytes(v: u64, n: nat) -> Seq<u8> {
    Seq::new(n, |i: int| byte_of(v, i as u64))
}

/// The little-endian number in `b[at..at + 4]`.
pub open spec fn u32_at(b: Seq<u8>, at: int) -> u32 {
    (b[at] as u32) | ((b[at + 1] as u32) << 8) | ((b[at + 2] as u32) << 16) | ((b[at + 3] as u32) << 24)
}

/// The little-endian number in `b[at..at + 8]`.
pub open spec fn u64_at(b: Seq<u8>, at: int) -> u64 {
    (b[at] as u64) | ((b[at + 1] as u64) << 8) | ((b[at + 2] as u64) << 16) | ((b[at + 3] as u64) << 24) | ((
    b[at + 4] as u64) << 32) | ((b[at + 5] as u64) << 40) | ((b[at + 6] as u64) << 48) | ((b[at + 7] as u64)
        << 56)
}

proof fn lemma_u32_round_trip(v: u32, b: Seq<u8>, at: int)
    requires
        0 <= at,
        at + 4 <= b.len(),
        b.subrange(at, at + 4) == le_bytes(v as u64, 4),
    ensures
        u32_at(b, at) == v,
{
    let w = v as u64;
    assert(b[at] == le_bytes(w, 4)[0]);
    assert(b[at + 1] == le_bytes(w, 4)[1]);
    assert(b[at + 2] == le_bytes(w, 4)[2]);
    assert(b[at + 3] == le_bytes(w, 4)[3]);
    let b0 = b[at];
    let b1 = b[at + 1];
    let b2 = b[at + 2];
    let b3 = b[at + 3];
    assert((b0 as u32) | ((b1 as u32) << 8) | ((b2 as u32) << 16) | ((b3 as u32) << 24) == v) by (bit_vector)
        requires
            w == v as u64,
            b0 == ((w >> 0u64) & 0xff) as u8,
            b1 == ((w >> 8u64) & 0xff) as u8,
            b2 == ((w >> 16u64) & 0xff) as u8,
            b3 == ((w >> 24u64) & 0xff) as u8,
    ;
}

proof fn lemma_u64_round_trip(v: u64, b: Seq<u8>, at: int)
    requires
        0 <= at,
        at + 8 <= b.len(),
        b.subrange(at, at + 8) == le_bytes(v, 8),
    ensures
        u64_at(b, at) == v,
{
    let e = le_bytes(v, 8);
    assert(b[at] == e[0] && b[at + 1] == e[1] && b[at + 2] == e[2] && b[at + 3] == e[3]);
    assert(b[at + 4] == e[4] && b[at + 5] == e[5] && b[at + 6] == e[6] && b[at + 7] == e[7]);
    let b0 = b[at];
    let b1 = b[at + 1];
    let b2 = b[at + 2];
    let b3 = b[at + 3];
    let b4 = b[at + 4];
    let b5 = b[at + 5];
    let b6 = b[at + 6];
    let b7 = b[at + 7];
    assert((b0 as u64) | ((b1 as u64) << 8) | ((b2 as u64) << 16) | ((b3 as u64) << 24) | ((b4 as u64) << 32) | ((
    b5 as u64) << 40) | ((b6 as u64) << 48) | ((b7 as u64) << 56) == v) by (bit_vector)
        requires
            b0 == ((v >> 0u64) & 0xff) as u8,
            b1 == ((v >> 8u64) & 0xff) as u8,
            b2 == ((v >> 16u64) & 0xff) as u8,
            b3 == ((v >> 24u64) & 0xff) as u8,
            b4 == ((v >> 32u64) & 0xff) as u8,
            b5 == ((v >> 40u64) & 0xff) as u8,
            b6 == ((v >> 48u64) & 0xff) as u8,
            b7 == ((v >> 56u64) & 0xff) as u8,
    ;
}

/// The stored form of a tree, in preorder: `0` and then both subtrees for an
/// internal node, `1` and then the symbol's scalar value (4 bytes,
/// little-endian) for a leaf. Weights are not stored.
pub open spec fn tree_bytes(t: HuffmanNode) -> Seq<u8>
    decreases t,
{
    if t.value is Some {
        seq![1u8] + le_bytes((t.value->Some_0 as u32) as u64, 4)
    } else if t.left is Some && t.right is Some {
        seq![0u8] + tree_bytes(t.left_child()) + tree_bytes(t.right_child())
    } else {
        Seq::empty()
    }
}

/// `t` with every weight zero: what a decoder needs of a tree.
pub open spec fn shape(t: HuffmanNode) -> HuffmanNode
    decreases t,
{
    if t.value is Some {
        HuffmanNode { freq_value: 0, left: None, right: None, value: t.value }
    } else if t.left is Some && t.right is Some {
        HuffmanNode {
            freq_value: 0,
            left: Some(Box::new(shape(t.left_child()))),
            right: Some(Box::new(shape(t.right_child()))),
            value: None,
        }
    } else {
        t
    }
}

/// The tree stored at the start of `b` and the number of bytes it takes,
/// looking at most `fuel` nodes deep.
pub open spec fn parse_tree(b: Seq<u8>, fuel: nat) -> Option<(HuffmanNode, nat)>
    decreases fuel,
{
    if fuel == 0 || b.len() == 0 {
        None
    } else if b[0] == 1 {
        if b.len() >= 5 && is_scalar(u32_at(b, 1)) {
            Some((HuffmanNode { freq_value: 0, left: None, right: None, value: Some(u32_at(b, 1) as char) }, 5))
        } else {
            None
        }
    } else if b[0] == 0 {
        match parse_tree(b.drop_first(), (fuel - 1) as nat) {
            Some((l, n)) => match parse_tree(b.skip(1 + n as int), (fuel - 1) as nat) {
                Some((r, m)) => Some(
                    (
                        HuffmanNode { freq_value: 0, left: Some(Box::new(l)), right: Some(Box::new(r)), value: None },
                        1 + n + m,
                    ),
                ),
                None => None,
            },
            None => None,
        }
    } else {
        None
    }
}

/// The stored form of a tree with a packed stream: the tree, then the valid
/// bit count (8 bytes, little-endian), then the packed bytes.
pub open spec fn container_bytes(t: HuffmanNode, bit_count: u64, bytes: Seq<u8>) -> Seq<u8> {
    tree_bytes(t) + le_bytes(bit_count, 8) + bytes
}

/// The tree, valid bit count and packed bytes stored in `b`.
pub open spec fn parse_container(b: Seq<u8>) -> Option<(HuffmanNode, u64, Seq<u8>)> {
    match parse_tree(b, b.len()) {
        Some((t, n)) => if n + 8 <= b.len() {
            Some((t, u64_at(b, n as int), b.skip(n + 8 as int)))
        } else {
            None
        },
        None => None,
    }
}

/// Relies on `char::from_u32`: the character with scalar value `v`, and
/// `None` exactly where `v` is not a Unicode scalar value.
#[verifier::external_body]
fn char_from_scalar(v: u32) -> (r: Option<char>)
    ensures
        r is Some <==> is_scalar(v),
        r matches Some(c) ==> c == v as char,
{
    char::from_u32(v)
}

/// Appends the `n` low bytes of `v`, least significant first.
fn push_le(out: &mut Vec<u8>, v: u64, n: usize)
    requires
        n <= 8,
    ensures
        final(out)@ == old(out)@ + le_bytes(v, n as nat),
{
    let mut i: usize = 0;
    while i < n
        invariant
            i <= n <= 8,
            out@ == old(out)@ + le_bytes(v, i as nat),
        decreases n - i,
    {
        out.push(((v >> (8 * i as u64)) & 0xff) as u8);
        assert(out@ =~= old(out)@ + le_bytes(v, i as nat + 1));
        i = i + 1;
    }
}

/// Appends the stored form of the tree `node`.
fn write_tree(node: &HuffmanNode, out: &mut Vec<u8>)
    requires
        node.wf(),
    ensures
        final(out)@ == old(out)@ + tree_bytes(*node),
    decreases node,
{
    if let Some(c) = node.value {
        out.push(1u8);
        push_le(out, c as u32 as u64, 4);
        assert(out@ =~= old(out)@ + tree_bytes(*node));
    } else {
        out.push(0u8);
        write_tree(node.left.as_ref().unwrap(), out);
        write_tree(node.right.as_ref().unwrap(), out);
        assert(out@ =~= old(out)@ + tree_bytes(*node));
    }
}

/// The stored form of a tree with a packed stream.
pub fn write_container(root: &HuffmanNode, stream: &PackedStream) -> (r: Vec<u8>)
    requires
        root.wf(),
    ensures
        r@ == container_bytes(*root, stream.bit_count as u64, stream.bytes@),
{
    let mut out: Vec<u8> = Vec::new();
    write_tree(root, &mut out);
    push_le(&mut out, stream.bit_count as u64, 8);
    let n = stream.bytes.len();
    let mut i: usize = 0;
    while i < n
        invariant
            i <= n == stream.bytes@.len(),
            out@ == tree_bytes(*root) + le_bytes(stream.bit_count as u64, 8) + stream.bytes@.take(i as int),
        decreases n - i,
    {
        out.push(stream.bytes[i]);
        assert(stream.bytes@.take(i + 1) =~= stream.bytes@.take(i as int).push(stream.bytes@[i as int]));
        i = i + 1;
    }
    assert(stream.bytes@.take(n as int) =~= stream.bytes@);
    out
}

/// Reads the tree stored in `b` from `pos` on; returns it with the position
/// just past it.
fn read_tree(b: &Vec<u8>, pos: usize, fuel: usize) -> (r: Option<(HuffmanNode, usize)>)
    requires
        pos <= b@.len(),
    ensures
        match parse_tree(b@.skip(pos as int), fuel as nat) {
            Some((t, n)) => r == Some((t, (pos + n) as usize)) && pos + n <= b@.len(),
            None => r is None,
        },
    decreases fuel,
{
    let len = b.len();
    let ghost rest = b@.skip(pos as int);
    if fuel == 0 || pos == len {
        return None;
    }
    let tag = b[pos];
    if tag == 1 {
        if len - pos < 5 {
            return None;
        }
        let v = (b[pos + 1] as u32) | ((b[pos + 2] as u32) << 8) | ((b[pos + 3] as u32) << 16) | ((b[pos + 4] as u32)
            << 24);
        assert(v == u32_at(rest, 1));
        match char_from_scalar(v) {
            Some(c) => Some((HuffmanNode { freq_value: 0, left: None, right: None, value: Some(c) }, pos + 5)),
            None => None,
        }
    } else if tag == 0 {
        assert(rest.drop_first() =~= b@.skip(pos + 1));
        let (l, after_left) = match read_tree(b, pos + 1, fuel - 1) {
            Some(x) => x,
            None => {
                return None;
            },
        };
        let ghost n = after_left - pos - 1;
        assert(rest.skip(1 + n) =~= b@.skip(after_left as int));
        let (r, end) = match read_tree(b, after_left, fuel - 1) {
            Some(x) => x,
            None => {
                return None;
            },
        };
        Some((HuffmanNode { freq_value: 0, left: Some(Box::new(l)), right: Some(Box::new(r)), value: None }, end))
    } else {
        None
    }
}

/// Reads a tree and a packed stream from their stored form; `None` where
/// `b` is not such a form, or holds a bit count that does not fit in `usize`.
pub fn read_container(b: &Vec<u8>) -> (r: Option<(HuffmanNode, PackedStream)>)
    ensures
        r matches Some((t, p)) ==> t.wf(),
        match parse_container(b@) {
            Some((t, n, bytes)) => if n <= usize::MAX {
                r matches Some((rt, rp)) && rt == t && rp.bit_count == n && rp.bytes@ == bytes
            } else {
                r is None
            },
            None => r is None,
        },
{
    let len = b.len();
    assert(b@.skip(0) =~= b@);
    let (tree, at) = match read_tree(b, 0, len) {
        Some(x) => x,
        None => {
            return None;
        },
    };
    proof {
        lemma_parse_tree_wf(b@, len as nat);
    }
    if len - at < 8 {
        return None;
    }
    let n = (b[at] as u64) | ((b[at + 1] as u64) << 8) | ((b[at + 2] as u64) << 16) | ((b[at + 3] as u64) << 24) | ((
    b[at + 4] as u64) << 32) | ((b[at + 5] as u64) << 40) | ((b[at + 6] as u64) << 48) | ((b[at + 7] as u64) << 56);
    assert(n == u64_at(b@, at as int));
    if n > usize::MAX as u64 {
        return None;
    }
    let mut bytes: Vec<u8> = Vec::new();
    let mut i = at + 8;
    while i < len
        invariant
            at + 8 <= i <= len == b@.len(),
            bytes@ == b@.subrange(at + 8, i as int),
        decreases len - i,
    {
        bytes.push(b[i]);
        i = i + 1;
    }
    assert(bytes@ =~= b@.skip(at + 8));
    Some((tree, PackedStream { bytes, bit_count: n as usize }))
}

/// A parsed tree is well-formed.
pub proof fn lemma_parse_tree_wf(b: Seq<u8>, fuel: nat)
    ensures
        parse_tree(b, fuel) matches Some((t, n)) ==> t.wf() && 1 <= n <= b.len(),
    decreases fuel,
{
    if fuel > 0 && b.len() > 0 && b[0] == 0 {
        lemma_parse_tree_wf(b.drop_first(), (fuel - 1) as nat);
        if let Some((l, n)) = parse_tree(b.drop_first(), (fuel - 1) as nat) {
            lemma_parse_tree_wf(b.skip(1 + n as int), (fuel - 1) as nat);
        }
    }
}

proof fn lemma_tree_bytes_len(t: HuffmanNode)
    requires
        t.wf(),
    ensures
        tree_bytes(t).len() >= 1,
    decreases t,
{
    if t.value is None {
        lemma_tree_bytes_len(t.left_child());
    }
}

proof fn lemma_parse_tree_bytes(t: HuffmanNode, rest: Seq<u8>, fuel: nat)
    requires
        t.wf(),
        fuel >= tree_bytes(t).len(),
    ensures
        parse_tree(tree_bytes(t) + rest, fuel) == Some((shape(t), tree_bytes(t).len())),
    decreases t,
{
    let b = tree_bytes(t) + rest;
    lemma_tree_bytes_len(t);
    if let Some(c) = t.value {
        let v = c as u32;
        assert(b.subrange(1, 5) =~= le_bytes(v as u64, 4));
        lemma_u32_round_trip(v, b, 1);
        vstd::utf8::char_is_scalar(c);
        vstd::utf8::char_u32_cast(c, v);
    } else {
        let l = t.left_child();
        let r = t.right_child();
        let lb = tree_bytes(l);
        let rb = tree_bytes(r);
        assert(b.drop_first() =~= lb + (rb + rest));
        lemma_parse_tree_bytes(l, rb + rest, (fuel - 1) as nat);
        assert(b.skip(1 + lb.len() as int) =~= rb + rest);
        lemma_parse_tree_bytes(r, rest, (fuel - 1) as nat);
    }
}

/// Reading the stored form of a tree and a packed stream gives back the
/// tree's shape (every weight zero), the bit count and the bytes.
pub proof fn lemma_container_round_trip(t: HuffmanNode, bit_count: u64, bytes: Seq<u8>)
    requires
        t.wf(),
    ensures
        parse_container(container_bytes(t, bit_count, bytes)) == Some((shape(t), bit_count, bytes)),
{
    let b = container_bytes(t, bit_count, bytes);
    let tb = tree_bytes(t);
    assert(b =~= tb + (le_bytes(bit_count, 8) + bytes));
    lemma_parse_tree_bytes(t, le_bytes(bit_count, 8) + bytes, b.len());
    assert(b.subrange(tb.len() as int, tb.len() + 8 as int) =~= le_bytes(bit_count, 8));
    lemma_u64_round_trip(bit_count, b, tb.len() as int);
    assert(b.skip(tb.len() + 8 as int) =~= bytes);
}

proof fn lemma_shape_walk(t: HuffmanNode, bits: Seq<bool>)
    requires
        t.wf(),
    ensures
        shape(t).wf(),
        shape(t).value == t.value,
        walk(shape(t), bits) == walk(t, bits),
    decreases t,
{
    if t.value is None {
        lemma_shape_walk(t.left_child(), Seq::empty());
        lemma_shape_walk(t.right_child(), Seq::empty());
        if bits.len() > 0 {
            lemma_shape_walk(t.left_child(), bits.drop_first());
            lemma_shape_walk(t.right_child(), bits.drop_first());
        }
    }
}

/// Weights play no part in decoding: a tree's shape decodes every bit
/// sequence as the tree does.
pub proof fn lemma_shape_decodes_alike(t: HuffmanNode, bits: Seq<bool>)
    requires
        t.wf(),
    ensures
        shape(t).wf(),
        decode(shape(t), bits) == decode(t, bits),
    decreases bits.len(),
{
    lemma_shape_walk(t, bits);
    assert(decode_step(shape(t), bits) == decode_step(t, bits));
    if bits.len() > 0 {
        if let Some((c, n)) = decode_step(t, bits) {
            if 0 < n <= bits.len() {
                lemma_shape_decodes_alike(t, bits.skip(n as int));
            }
        }
    }
}

} // verus!
