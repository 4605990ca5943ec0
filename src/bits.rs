use vstd::prelude::*;
use vstd::arithmetic::power2::{pow2, lemma2_to64, lemma_pow2_adds};

verus! {

/// Bit `i` (counting from the most significant of the `len` low bits) of `code`.
pub open spec fn code_bit(code: u64, len: nat, i: int) -> bool {
    (code >> ((len - 1 - i) as u64)) & 1 == 1
}

/// The `len` low bits of `code`, most significant first.
pub open spec fn bits_of(code: u64, len: nat) -> Seq<bool> {
    Seq::new(len, |i: int| code_bit(code, len, i))
}

/// The number whose binary form, most significant bit first, is `s`.
pub open spec fn bits_value(s: Seq<bool>) -> nat
    decreases s.len(),
{
    if s.len() == 0 {
        0
    } else {
        2 * bits_value(s.drop_last()) + if s.last() { 1nat } else { 0nat }
    }
}

/// The text form of a bit sequence: `'0'` and `'1'`, most significant first.
pub open spec fn bits_text(s: Seq<bool>) -> Seq<char> {
    Seq::new(s.len(), |i: int| if s[i] { '1' } else { '0' })
}

pub proof fn lemma_bits_value_bound(s: Seq<bool>)
    ensures
        bits_value(s) < pow2(s.len()),
    decreases s.len(),
{
    if s.len() == 0 {
        lemma2_to64();
    } else {
        lemma_bits_value_bound(s.drop_last());
        lemma_pow2_adds(1, (s.len() - 1) as nat);
        lemma2_to64();
    }
}

/// Appends `bit` below the `len` bits of `code`.
pub fn shift_in(code: u64, len: u8, bit: bool, Ghost(s): Ghost<Seq<bool>>) -> (r: u64)
    requires
        len < 64,
        s.len() == len,
        code == bits_value(s),
        bits_of(code, len as nat) == s,
    ensures
        r == bits_value(s.push(bit)),
        bits_of(r, len as nat + 1) == s.push(bit),
{
    let b: u64 = if bit { 1 } else { 0 };
    proof {
        lemma_bits_value_bound(s);
        if len < 63 {
            vstd::arithmetic::power2::lemma_pow2_strictly_increases(len as nat, 63);
        }
        vstd::arithmetic::power2::lemma2_to64_rest();
    }
    let r = (code << 1u64) | b;
    assert(r == code * 2 + b) by (bit_vector)
        requires r == (code << 1u64) | b, code < 0x8000_0000_0000_0000u64, b <= 1;
    assert(s.push(bit).drop_last() =~= s);
    assert forall|i: int| 0 <= i < len + 1 implies #[trigger] code_bit(r, len as nat + 1, i)
        == s.push(bit)[i] by {
        let k: u64 = (len - i) as u64;
        if i < len {
            assert(((code << 1u64) | b) >> k & 1 == (code >> ((k - 1) as u64)) & 1) by (bit_vector)
                requires k >= 1, k < 64, b <= 1;
            assert(code_bit(code, len as nat, i) == s[i]);
        } else {
            assert(((code << 1u64) | b) >> 0u64 & 1 == b) by (bit_vector)
                requires b <= 1;
        }
    }
    assert(bits_of(r, len as nat + 1) =~= s.push(bit));
    r
}

} // verus!
