use vstd::prelude::*;
use crate::bits::bits_of;
use crate::huffman::{HuffCode, HuffError, HuffmanNode};

verus! {

/// Bit `j` of byte `b`, counting from the most significant.
pub open spec fn byte_bit(b: u8, j: int) -> bool {
    (b >> ((7 - j) as u8)) & 1u8 == 1u8
}

/// The bits of `bytes`, each byte most significant bit first.
pub open spec fn bytes_bits(bytes: Seq<u8>) -> Seq<bool> {
    Seq::new(8 * bytes.len(), |i: int| byte_bit(bytes[i / 8], i % 8))
}

/// The bit patterns of `codes`, one after the other.
pub open spec fn concat_bits(codes: Seq<HuffCode>) -> Seq<bool> {
    codes.map_values(|c: HuffCode| c.bits()).flatten()
}

/// Packed bits: `bit_count` valid bits in `bytes`, most significant bit of
/// each byte first; the bits after them are padding.
pub struct PackedStream {
    pub bytes: Vec<u8>,
    pub bit_count: usize,
}

impl PackedStream {
    /// The valid bits of the stream.
    pub open spec fn bits(self) -> Seq<bool> {
        bytes_bits(self.bytes@).take(self.bit_count as int)
    }
}

proof fn lemma_byte_bit_zero(j: int)
    requires
        0 <= j < 8,
    ensures
        !byte_bit(0, j),
{
    let k = (7 - j) as u8;
    assert((0u8 >> k) & 1u8 == 0u8) by (bit_vector);
}

proof fn lemma_byte_bit_set(b: u8, k: u8, j: int)
    requires
        k < 8,
        0 <= j < 8,
    ensures
        byte_bit(b | (0x80u8 >> k), j) == (j == k || byte_bit(b, j)),
{
    let s = (7 - j) as u8;
    if j == k {
        assert(((b | (0x80u8 >> k)) >> s) & 1u8 == 1u8) by (bit_vector)
            requires k < 8, s == 7 - k;
    } else {
        assert(((b | (0x80u8 >> k)) >> s) & 1u8 == (b >> s) & 1u8) by (bit_vector)
            requires k < 8, s < 8, s != 7 - k;
    }
}

proof fn lemma_concat_take(codes: Seq<HuffCode>, k: int)
    requires
        0 <= k < codes.len(),
    ensures
        concat_bits(codes.take(k + 1)) == concat_bits(codes.take(k)) + codes[k].bits(),
{
    let f = |c: HuffCode| c.bits();
    assert(codes.take(k + 1).map_values(f) =~= codes.take(k).map_values(f).push(codes[k].bits()));
    codes.take(k).map_values(f).lemma_flatten_push(codes[k].bits());
}

proof fn lemma_concat_take_len(codes: Seq<HuffCode>, k: int)
    requires
        0 <= k <= codes.len(),
    ensures
        concat_bits(codes.take(k)).len() <= concat_bits(codes).len(),
    decreases codes.len() - k,
{
    if k < codes.len() {
        lemma_concat_take(codes, k);
        lemma_concat_take_len(codes, k + 1);
    } else {
        assert(codes.take(k) =~= codes);
    }
}

/// Packs the bit patterns of `codes`, in order and without gaps, into as
/// few bytes as they need; the bits after the last code are zero.
pub fn codes_to_bin(codes: &Vec<HuffCode>) -> (r: PackedStream)
    requires
        forall|k: int| 0 <= k < codes@.len() ==> (#[trigger] codes@[k]).bitlength <= 64,
        concat_bits(codes@).len() <= usize::MAX,
    ensures
        r.bit_count == concat_bits(codes@).len(),
        r.bytes@.len() == (r.bit_count + 7) / 8,
        r.bits() == concat_bits(codes@),
        forall|i: int| r.bit_count <= i < bytes_bits(r.bytes@).len() ==> !(#[trigger] bytes_bits(r.bytes@)[i]),
        r.bit_count % 8 == 0 ==> r.bytes@.len() * 8 == r.bit_count,
{
    let mut bytes: Vec<u8> = Vec::new();
    let mut cursor: usize = 0;
    let mut k: usize = 0;
    while k < codes.len()
        invariant
            k <= codes@.len(),
            forall|m: int| 0 <= m < codes@.len() ==> (#[trigger] codes@[m]).bitlength <= 64,
            concat_bits(codes@).len() <= usize::MAX,
            cursor == concat_bits(codes@.take(k as int)).len(),
            bytes@.len() == (cursor + 7) / 8,
            forall|i: int| 0 <= i < cursor ==> #[trigger] bytes_bits(bytes@)[i] == concat_bits(codes@.take(k as int))[i],
            forall|i: int| cursor <= i < bytes_bits(bytes@).len() ==> !(#[trigger] bytes_bits(bytes@)[i]),
        decreases codes@.len() - k,
    {
        let len = codes[k].bitlength;
        let code = codes[k].code;
        let ghost done = concat_bits(codes@.take(k as int));
        let ghost pattern = codes@[k as int].bits();
        proof {
            lemma_concat_take(codes@, k as int);
            lemma_concat_take_len(codes@, k + 1);
        }
        let mut j: u8 = 0;
        while j < len
            invariant
                j <= len <= 64,
                len == codes@[k as int].bitlength,
                code == codes@[k as int].code,
                pattern == bits_of(code, len as nat),
                done.len() + len <= usize::MAX,
                cursor == done.len() + j,
                bytes@.len() == (cursor + 7) / 8,
                forall|i: int| 0 <= i < cursor ==> #[trigger] bytes_bits(bytes@)[i] == (done + pattern)[i],
                forall|i: int| cursor <= i < bytes_bits(bytes@).len() ==> !(#[trigger] bytes_bits(bytes@)[i]),
            decreases len - j,
        {
            let bit = (code >> ((len - 1 - j) as u64)) & 1 == 1;
            assert(bit == pattern[j as int]);
            let ghost old_bytes = bytes@;
            if cursor % 8 == 0 {
                bytes.push(0);
                proof {
                    assert forall|i: int| 0 <= i < bytes_bits(bytes@).len() implies #[trigger] bytes_bits(bytes@)[i]
                        == if i < bytes_bits(old_bytes).len() { bytes_bits(old_bytes)[i] } else { false } by {
                        if i >= bytes_bits(old_bytes).len() {
                            assert(i / 8 == old_bytes.len());
                            lemma_byte_bit_zero(i % 8);
                        } else {
                            assert(i / 8 < old_bytes.len());
                        }
                    }
                }
            }
            let ghost mid_bytes = bytes@;
            let idx = cursor / 8;
            if bit {
                let shift = (cursor % 8) as u8;
                let b = bytes[idx] | (0x80u8 >> shift);
                bytes.set(idx, b);
                proof {
                    assert forall|i: int| 0 <= i < bytes_bits(bytes@).len() implies #[trigger] bytes_bits(bytes@)[i]
                        == (i == cursor || bytes_bits(mid_bytes)[i]) by {
                        if i / 8 == idx {
                            lemma_byte_bit_set(mid_bytes[idx as int], shift, i % 8);
                        }
                    }
                }
            }
            cursor = cursor + 1;
            j = j + 1;
        }
        assert(pattern.len() == len);
        k = k + 1;
    }
    assert(codes@.take(k as int) =~= codes@);
    let r = PackedStream { bytes, bit_count: cursor };
    assert(r.bits() =~= concat_bits(codes@));
    r
}

/// Follows `bits` down from `node` to a leaf: its symbol and the number of
/// bits used, or `None` where the bits end first.
pub open spec fn walk(node: HuffmanNode, bits: Seq<bool>) -> Option<(char, nat)>
    decreases node,
{
    if node.value is Some {
        Some((node.value->Some_0, 0))
    } else if node.left is Some && node.right is Some {
        if bits.len() == 0 {
            None
        } else {
            let child = if bits[0] { node.right_child() } else { node.left_child() };
            match walk(child, bits.drop_first()) {
                Some((c, n)) => Some((c, n + 1)),
                None => None,
            }
        }
    } else {
        None
    }
}

/// The first symbol of `bits` and the number of bits it takes; a lone leaf
/// takes one bit per symbol.
pub open spec fn decode_step(root: HuffmanNode, bits: Seq<bool>) -> Option<(char, nat)> {
    if root.value is Some {
        Some((root.value->Some_0, 1))
    } else {
        walk(root, bits)
    }
}

/// The symbols that `bits` encode under the tree `root`, or `None` where the
/// bits end in the middle of a code.
pub open spec fn decode(root: HuffmanNode, bits: Seq<bool>) -> Option<Seq<char>>
    decreases bits.len(),
{
    if bits.len() == 0 {
        Some(Seq::empty())
    } else {
        match decode_step(root, bits) {
            Some((c, n)) => if 0 < n <= bits.len() {
                match decode(root, bits.skip(n as int)) {
                    Some(rest) => Some(seq![c] + rest),
                    None => None,
                }
            } else {
                None
            },
            None => None,
        }
    }
}

pub(crate) proof fn lemma_walk_bound(node: HuffmanNode, bits: Seq<bool>)
    requires
        node.wf(),
    ensures
        walk(node, bits) matches Some((c, n)) ==> n <= bits.len() && (node.value is None ==> n >= 1),
    decreases node,
{
    if node.value is None && bits.len() > 0 {
        let child = if bits[0] { node.right_child() } else { node.left_child() };
        lemma_walk_bound(child, bits.drop_first());
    }
}

/// Bit `pos` of `bytes`.
fn read_bit(bytes: &Vec<u8>, pos: usize) -> (r: bool)
    requires
        pos < 8 * bytes@.len(),
    ensures
        r == bytes_bits(bytes@)[pos as int],
{
    let shift = (7 - pos % 8) as u8;
    (bytes[pos / 8] >> shift) & 1u8 == 1u8
}

/// Follows the bits of `bytes` from `pos` (up to `end`) down from `node`;
/// returns the symbol reached and the position after the last bit used.
fn walk_bits(node: &HuffmanNode, bytes: &Vec<u8>, pos: usize, end: usize) -> (r: Option<(char, usize)>)
    requires
        node.wf(),
        pos <= end <= 8 * bytes@.len(),
    ensures
        match walk(*node, bytes_bits(bytes@).subrange(pos as int, end as int)) {
            Some((c, n)) => r == Some((c, (pos + n) as usize)),
            None => r is None,
        },
    decreases node,
{
    let ghost bits = bytes_bits(bytes@).subrange(pos as int, end as int);
    if let Some(c) = node.value {
        return Some((c, pos));
    }
    if pos == end {
        return None;
    }
    let bit = read_bit(bytes, pos);
    assert(bits.drop_first() =~= bytes_bits(bytes@).subrange(pos + 1, end as int));
    proof {
        lemma_walk_bound(if bit { node.right_child() } else { node.left_child() }, bits.drop_first());
    }
    if bit {
        walk_bits(node.right.as_ref().unwrap(), bytes, pos + 1, end)
    } else {
        walk_bits(node.left.as_ref().unwrap(), bytes, pos + 1, end)
    }
}

/// Decodes the valid bits of `stream` with the tree `root`. Fails with
/// `TruncatedStream` where the valid bits end inside a code, or where the
/// stream claims more valid bits than its bytes hold.
pub fn unpack(stream: &PackedStream, root: &HuffmanNode) -> (r: Result<Vec<char>, HuffError>)
    requires
        root.wf(),
    ensures
        stream.bit_count > 8 * stream.bytes@.len() ==> r == Err::<Vec<char>, HuffError>(HuffError::TruncatedStream),
        stream.bit_count <= 8 * stream.bytes@.len() ==> match decode(*root, stream.bits()) {
            Some(s) => r matches Ok(v) && v@ == s,
            None => r == Err::<Vec<char>, HuffError>(HuffError::TruncatedStream),
        },
{
    let n = stream.bit_count;
    let bytes = &stream.bytes;
    let full = n / 8;
    if full > bytes.len() || (full == bytes.len() && n % 8 != 0) {
        return Err(HuffError::TruncatedStream);
    }
    let ghost all = bytes_bits(bytes@);
    assert(stream.bits() =~= all.subrange(0, n as int));
    let mut out: Vec<char> = Vec::new();
    let mut pos: usize = 0;
    while pos < n
        invariant
            pos <= n <= 8 * bytes@.len(),
            root.wf(),
            all == bytes_bits(bytes@),
            stream.bits() == all.subrange(0, n as int),
            decode(*root, all.subrange(0, n as int)) == match decode(*root, all.subrange(pos as int, n as int)) {
                Some(rest) => Some(out@ + rest),
                None => None::<Seq<char>>,
            },
        decreases n - pos,
    {
        let ghost rest = all.subrange(pos as int, n as int);
        let ghost out0 = out@;
        let next: usize;
        if let Some(c) = root.value {
            out.push(c);
            next = pos + 1;
        } else {
            proof {
                lemma_walk_bound(*root, rest);
            }
            match walk_bits(root, bytes, pos, n) {
                Some((c, p)) => {
                    out.push(c);
                    next = p;
                },
                None => {
                    assert(rest.len() > 0);
                    assert(decode(*root, rest) is None);
                    return Err(HuffError::TruncatedStream);
                },
            }
        }
        proof {
            assert(rest.skip(next - pos) =~= all.subrange(next as int, n as int));
            assert(out@ == out0.push(out@.last()));
            match decode(*root, all.subrange(next as int, n as int)) {
                Some(tail) => {
                    assert(out0 + (seq![out@.last()] + tail) =~= out@ + tail);
                },
                None => {},
            }
        }
        pos = next;
    }
    assert(all.subrange(pos as int, n as int) =~= Seq::<bool>::empty());
    assert(out@ + Seq::<char>::empty() =~= out@);
    Ok(out)
}

} // verus!
