use vstd::prelude::*;
use crate::bitstream::{decode, decode_step, walk, lemma_walk_bound};
use crate::bitstream::{PackedStream, codes_to_bin};
use crate::frequency::{frequencies, distinct, count, lemma_distinct, symbols_of};
use crate::huffman::{
    HuffCode, HuffError, HuffmanNode, code_table, codes_match, lookup, lemma_lookup_found,
    lemma_paths_extend, gen_code_map, huffman_tree,
};

verus! {

/// The bits that encode `input` with the codes of the tree `root`, one code
/// per symbol, in order.
pub open spec fn encoded_bits(root: HuffmanNode, input: Seq<char>) -> Seq<bool> {
    input.map_values(|c: char| code_table(root.code_list())[c]).flatten()
}

proof fn lemma_walk_paths(node: HuffmanNode, q: Seq<bool>, j: int, rest: Seq<bool>)
    requires
        node.wf(),
        0 <= j < node.paths(q).len(),
    ensures
        q.len() <= node.paths(q)[j].1.len(),
        walk(node, node.paths(q)[j].1.skip(q.len() as int) + rest) == Some(
            (node.paths(q)[j].0, (node.paths(q)[j].1.len() - q.len()) as nat),
        ),
    decreases node,
{
    let p = node.paths(q)[j].1;
    if node.value is Some {
        assert(p.skip(q.len() as int) + rest =~= rest);
    } else {
        let l = node.left_child();
        let r = node.right_child();
        let ql = q.push(false);
        let qr = q.push(true);
        let lp = l.paths(ql);
        let bits = p.skip(q.len() as int) + rest;
        if j < lp.len() {
            lemma_walk_paths(l, ql, j, rest);
            lemma_paths_extend(l, ql);
            assert(lp[j].1.len() >= ql.len());
            assert(p == lp[j].1);
            assert(p.subrange(0, ql.len() as int)[q.len() as int] == ql[q.len() as int]);
            assert(bits[0] == false);
            assert(bits.drop_first() =~= p.skip(ql.len() as int) + rest);
        } else {
            let k = j - lp.len();
            lemma_walk_paths(r, qr, k, rest);
            lemma_paths_extend(r, qr);
            assert(r.paths(qr)[k].1.len() >= qr.len());
            assert(p == r.paths(qr)[k].1);
            assert(p.subrange(0, qr.len() as int)[q.len() as int] == qr[q.len() as int]);
            assert(bits[0] == true);
            assert(bits.drop_first() =~= p.skip(qr.len() as int) + rest);
        }
    }
}

proof fn lemma_step_code(root: HuffmanNode, j: int, rest: Seq<bool>)
    requires
        root.wf(),
        0 <= j < root.code_list().len(),
    ensures
        root.code_list()[j].1.len() >= 1,
        decode_step(root, root.code_list()[j].1 + rest) == Some(
            (root.code_list()[j].0, root.code_list()[j].1.len()),
        ),
{
    if root.value is None {
        let p = root.code_list()[j].1;
        lemma_walk_paths(root, Seq::empty(), j, rest);
        assert(p.skip(0) =~= p);
        lemma_walk_bound(root, p + rest);
    }
}

/// Decoding the encoding of `input` gives `input` back, for every tree whose
/// codes cover the symbols of `input`.
pub proof fn lemma_round_trip(root: HuffmanNode, input: Seq<char>)
    requires
        root.wf(),
        forall|i: int| 0 <= i < input.len() ==> code_table(root.code_list()).contains_key(#[trigger] input[i]),
    ensures
        decode(root, encoded_bits(root, input)) == Some(input),
    decreases input.len(),
{
    let list = root.code_list();
    let f = |c: char| code_table(list)[c];
    if input.len() == 0 {
        assert(input.map_values(f).len() == 0);
        assert(input =~= Seq::<char>::empty());
    } else {
        let c = input[0];
        let tail = input.drop_first();
        assert(code_table(list).contains_key(c));
        let w = code_table(list)[c];
        lemma_lookup_found(list, c);
        let j = choose|j: int| 0 <= j < list.len() && list[j] == (c, w);
        assert forall|i: int| 0 <= i < tail.len() implies code_table(list).contains_key(#[trigger] tail[i]) by {
            assert(tail[i] == input[i + 1]);
        }
        lemma_round_trip(root, tail);
        assert(input.map_values(f).drop_first() =~= tail.map_values(f));
        let rest = encoded_bits(root, tail);
        assert(encoded_bits(root, input) == w + rest);
        lemma_step_code(root, j, rest);
        assert((w + rest).skip(w.len() as int) =~= rest);
        assert(seq![c] + tail =~= input);
    }
}

proof fn lemma_paths_symbols(node: HuffmanNode, q: Seq<bool>)
    requires
        node.wf(),
    ensures
        node.paths(q).len() == node.leaves().len(),
        forall|m: int| 0 <= m < node.leaves().len() ==> (#[trigger] node.paths(q)[m]).0 == node.leaves()[m].0,
    decreases node,
{
    if node.value is None {
        let l = node.left_child();
        let r = node.right_child();
        lemma_paths_symbols(l, q.push(false));
        lemma_paths_symbols(r, q.push(true));
        assert forall|m: int| 0 <= m < node.leaves().len() implies (#[trigger] node.paths(q)[m]).0 == node.leaves()[m].0 by {
            if m < l.leaves().len() {
                assert(node.paths(q)[m] == l.paths(q.push(false))[m]);
                assert(node.leaves()[m] == l.leaves()[m]);
            } else {
                let k = m - l.leaves().len();
                assert(node.paths(q)[m] == r.paths(q.push(true))[k]);
                assert(node.leaves()[m] == r.leaves()[k]);
            }
        }
    }
}

/// Each symbol of a leaf has a code.
proof fn lemma_leaf_symbols_coded(root: HuffmanNode, c: char, w: u64)
    requires
        root.wf(),
        root.leaves().contains((c, w)),
    ensures
        code_table(root.code_list()).contains_key(c),
{
    let list = root.code_list();
    let m = choose|m: int| 0 <= m < root.leaves().len() && root.leaves()[m] == (c, w);
    if root.value is None {
        lemma_paths_symbols(root, Seq::empty());
    }
    assert(list[m].0 == c);
    lemma_lookup_found(list, c);
}

/// Every symbol of `input` has a code in a tree built from its frequencies.
proof fn lemma_symbols_covered(root: HuffmanNode, input: Seq<char>)
    requires
        root.wf(),
        root.leaves().to_multiset() == frequencies(input).to_multiset(),
    ensures
        forall|i: int| 0 <= i < input.len() ==> code_table(root.code_list()).contains_key(#[trigger] input[i]),
{
    broadcast use vstd::seq_lib::group_to_multiset_ensures;

    lemma_distinct(input);
    assert forall|i: int| 0 <= i < input.len() implies code_table(root.code_list()).contains_key(#[trigger] input[i]) by {
        let c = input[i];
        assert(input.contains(c));
        let d = distinct(input);
        let k = choose|k: int| 0 <= k < d.len() && d[k] == c;
        let e = (c, count(input, c) as u64);
        assert(frequencies(input)[k] == e);
        assert(frequencies(input).contains(e));
        assert(frequencies(input).to_multiset().count(e) > 0);
        assert(root.leaves().to_multiset().count(e) > 0);
        lemma_leaf_symbols_coded(root, c, e.1);
    }
}

/// In a tree of depth at most 64 every code is at most 64 bits long.
proof fn lemma_code_lengths(root: HuffmanNode)
    requires
        root.wf(),
        root.depth() <= 64,
    ensures
        forall|j: int| 0 <= j < root.code_list().len() ==> (#[trigger] root.code_list()[j]).1.len() <= 64,
{
    if root.value is None {
        lemma_paths_extend(root, Seq::empty());
        assert forall|j: int| 0 <= j < root.code_list().len() implies (#[trigger] root.code_list()[j]).1.len() <= 64 by {
            assert(root.paths(Seq::empty())[j].1.len() <= root.depth());
        }
    }
}

proof fn lemma_flatten_len(s: Seq<Seq<bool>>)
    requires
        forall|k: int| 0 <= k < s.len() ==> (#[trigger] s[k]).len() <= 64,
    ensures
        s.flatten().len() <= 64 * s.len(),
    decreases s.len(),
{
    if s.len() > 0 {
        assert forall|k: int| 0 <= k < s.drop_first().len() implies (#[trigger] s.drop_first()[k]).len() <= 64 by {
            assert(s.drop_first()[k] == s[k + 1]);
        }
        lemma_flatten_len(s.drop_first());
        assert(s[0].len() <= 64);
    }
}

/// Builds the tree of `data`, encodes each symbol of `data` with its code,
/// and packs the codes. The stream decodes back to `data` with the tree.
pub fn encode(data: &str) -> (r: Result<(HuffmanNode, PackedStream), HuffError>)
    requires
        data@.len() <= usize::MAX / 64,
    ensures
        data@.len() == 0 <==> r == Err::<(HuffmanNode, PackedStream), HuffError>(HuffError::EmptyInput),
        r == Err::<(HuffmanNode, PackedStream), HuffError>(HuffError::CodeLengthOverflow) <==> data@.len() > 0
            && huffman_tree(frequencies(data@)).depth() > 64,
        r matches Err(e) ==> e == HuffError::EmptyInput || e == HuffError::CodeLengthOverflow,
        r matches Ok((t, p)) ==> {
            &&& t == huffman_tree(frequencies(data@))
            &&& t.wf()
            &&& t.depth() <= 64
            &&& t.leaves().to_multiset() == frequencies(data@).to_multiset()
            &&& p.bits() == encoded_bits(t, data@)
            &&& p.bit_count == encoded_bits(t, data@).len()
            &&& p.bytes@.len() == (p.bit_count + 7) / 8
            &&& decode(t, p.bits()) == Some(data@)
        },
{
    let root = match HuffmanNode::new(data) {
        Ok(t) => t,
        Err(e) => {
            return Err(e);
        },
    };
    let map = match gen_code_map(&root) {
        Ok(m) => m,
        Err(e) => {
            return Err(e);
        },
    };
    let symbols = symbols_of(data);
    let ghost table = code_table(root.code_list());
    proof {
        lemma_symbols_covered(root, data@);
        lemma_code_lengths(root);
    }
    let mut codes: Vec<HuffCode> = Vec::new();
    let mut i: usize = 0;
    while i < symbols.len()
        invariant
            i <= symbols@.len(),
            symbols@ == data@,
            map.wf(),
            map@ == table,
            table == code_table(root.code_list()),
            forall|k: int| 0 <= k < data@.len() ==> table.contains_key(#[trigger] data@[k]),
            forall|j: int| 0 <= j < root.code_list().len() ==> (#[trigger] root.code_list()[j]).1.len() <= 64,
            codes@.len() == i,
            forall|k: int| 0 <= k < i ==> (#[trigger] codes@[k]).bits() == table[data@[k]],
            forall|k: int| 0 <= k < i ==> (#[trigger] codes@[k]).bitlength <= 64,
        decreases symbols@.len() - i,
    {
        let c = symbols[i];
        let h = map.get(c).unwrap();
        proof {
            lemma_lookup_found(root.code_list(), c);
            let j = choose|j: int| 0 <= j < root.code_list().len() && root.code_list()[j] == (c, table[c]);
            assert(root.code_list()[j].1.len() <= 64);
        }
        let copy = h.duplicate();
        assert(copy.bits() == h.bits());
        codes.push(copy);
        i = i + 1;
    }
    proof {
        let f = |h: HuffCode| h.bits();
        let g = |c: char| table[c];
        assert(codes@.map_values(f) =~= data@.map_values(g));
        assert forall|k: int| 0 <= k < codes@.map_values(f).len() implies (#[trigger] codes@.map_values(f)[k]).len() <= 64 by {
            assert(codes@[k].bits().len() == codes@[k].bitlength);
        }
        lemma_flatten_len(codes@.map_values(f));
        assert(64 * data@.len() <= usize::MAX) by (nonlinear_arith)
            requires data@.len() <= usize::MAX / 64;
        lemma_round_trip(root, data@);
    }
    let packed = codes_to_bin(&codes);
    Ok((root, packed))
}

/// Code generation depends on the tree alone: two code lists generated from
/// one tree agree in every field.
pub proof fn lemma_gen_codes_deterministic(root: HuffmanNode, a: Seq<HuffCode>, b: Seq<HuffCode>)
    requires
        root.wf(),
        codes_match(a, root.code_list()),
        codes_match(b, root.code_list()),
    ensures
        a.len() == b.len(),
        forall|i: int| 0 <= i < a.len() ==> {
            &&& (#[trigger] a[i]).val == b[i].val
            &&& a[i].bitlength == b[i].bitlength
            &&& a[i].code == b[i].code
            &&& a[i].code_str@ == b[i].code_str@
        },
{
    assert forall|i: int| 0 <= i < a.len() implies {
        &&& (#[trigger] a[i]).val == b[i].val
        &&& a[i].bitlength == b[i].bitlength
        &&& a[i].code == b[i].code
        &&& a[i].code_str@ == b[i].code_str@
    } by {
        assert(a[i].is_code_of(root.code_list()[i].0, root.code_list()[i].1));
        assert(b[i].is_code_of(root.code_list()[i].0, root.code_list()[i].1));
    }
}

proof fn lemma_repeated_symbol(c: char, n: nat)
    ensures
        distinct(Seq::new(n, |i: int| c)) == (if n == 0 { Seq::<char>::empty() } else { seq![c] }),
        count(Seq::new(n, |i: int| c), c) == n,
    decreases n,
{
    if n > 0 {
        let s = Seq::new(n, |i: int| c);
        let t = Seq::new((n - 1) as nat, |i: int| c);
        assert(s.drop_last() =~= t);
        lemma_repeated_symbol(c, (n - 1) as nat);
        if n > 1 {
            assert(t[0] == c);
        } else {
            assert(Seq::<char>::empty().push(c) =~= seq![c]);
        }
    }
}

proof fn lemma_leaves_len(node: HuffmanNode)
    requires
        node.wf(),
    ensures
        node.leaves().len() >= 1,
        node.value is None ==> node.leaves().len() >= 2,
    decreases node,
{
    if node.value is None {
        lemma_leaves_len(node.left_child());
        lemma_leaves_len(node.right_child());
    }
}

/// Input made of one symbol repeated `n` times: the tree is a lone leaf
/// whose code is the single bit `0`, the packed stream holds exactly `n`
/// bits in `(n + 7) / 8` bytes, and it decodes back to the input.
pub proof fn lemma_single_symbol(root: HuffmanNode, stream: PackedStream, c: char, n: nat)
    requires
        0 < n <= u64::MAX,
        root.wf(),
        root.leaves().to_multiset() == frequencies(Seq::new(n, |i: int| c)).to_multiset(),
        stream.bits() == encoded_bits(root, Seq::new(n, |i: int| c)),
        stream.bytes@.len() == (stream.bit_count + 7) / 8,
    ensures
        root.value == Some(c),
        root.code_list() == seq![(c, seq![false])],
        stream.bit_count == n,
        stream.bytes@.len() == (n + 7) / 8,
        stream.bits() == Seq::new(n, |i: int| false),
        decode(root, stream.bits()) == Some(Seq::new(n, |i: int| c)),
{
    broadcast use vstd::seq_lib::group_to_multiset_ensures;

    let input = Seq::new(n, |i: int| c);
    lemma_repeated_symbol(c, n);
    let e = (c, n as u64);
    assert(frequencies(input) =~= seq![e]);
    lemma_leaves_len(root);
    let lv = root.leaves();
    assert(lv.to_multiset().len() == 1);
    assert(lv.len() == 1);
    assert(root.value is Some);
    assert(seq![e][0] == e);
    assert(seq![e].contains(e));
    assert(lv.to_multiset().count(e) > 0);
    assert(lv.contains(e));
    assert(lv[0] == e);
    assert(root.code_list() =~= seq![(c, seq![false])]);
    let list = root.code_list();
    assert(lookup(list, c) == Some(seq![false]));
    lemma_encoded_repeated(root, c, n);
    lemma_symbols_covered(root, input);
    lemma_round_trip(root, input);
    assert(stream.bits().len() == n);
}

proof fn lemma_encoded_repeated(root: HuffmanNode, c: char, n: nat)
    requires
        code_table(root.code_list()).contains_key(c),
        code_table(root.code_list())[c] == seq![false],
    ensures
        encoded_bits(root, Seq::new(n, |i: int| c)) == Seq::new(n, |i: int| false),
    decreases n,
{
    let f = |x: char| code_table(root.code_list())[x];
    let s = Seq::new(n, |i: int| c);
    if n > 0 {
        lemma_encoded_repeated(root, c, (n - 1) as nat);
        let t = Seq::new((n - 1) as nat, |i: int| c);
        assert(s.map_values(f).drop_first() =~= t.map_values(f));
        assert(seq![false] + Seq::new((n - 1) as nat, |i: int| false) =~= Seq::new(n, |i: int| false));
    } else {
        assert(s.map_values(f).len() == 0);
        assert(Seq::new(n, |i: int| false) =~= Seq::<bool>::empty());
    }
}

} // verus!
