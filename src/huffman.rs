use vstd::prelude::*;
use vstd::multiset::Multiset;
use vstd::string::StringExecFns;
use crate::bits::{bits_of, bits_value, bits_text, shift_in};
use crate::frequency::{frequencies, total_weight, count_frequencies, symbols_of, lemma_total_weight_frequencies};

verus! {

/// Errors reported by the coder.
#[derive(Debug, Clone, Copy, PartialEq, Eq, Structural)]
pub enum HuffError {
    /// There is no symbol to build a tree from.
    EmptyInput,
    /// The valid bits ran out in the middle of a code.
    TruncatedStream,
    /// A code would be longer than the 64 bits that hold its pattern.
    CodeLengthOverflow,
}

/// A node of the prefix tree: a leaf holds a symbol, an internal node holds
/// two children; `freq_value` is the total weight of the leaves below.
#[derive(Debug)]
pub struct HuffmanNode {
    pub freq_value: u64,
    pub left: Option<Box<HuffmanNode>>,
    pub right: Option<Box<HuffmanNode>>,
    pub value: Option<char>,
}

impl HuffmanNode {
    /// The left child of an internal node.
    pub open spec fn left_child(self) -> HuffmanNode {
        *self.left->Some_0
    }

    /// The right child of an internal node.
    pub open spec fn right_child(self) -> HuffmanNode {
        *self.right->Some_0
    }

    /// Leaves carry a symbol and no children; internal nodes carry two
    /// children, no symbol, and the sum of their children's weights.
    pub open spec fn wf(self) -> bool
        decreases self,
    {
        if self.value is Some {
            self.left is None && self.right is None
        } else if self.left is Some && self.right is Some {
            &&& self.left_child().wf()
            &&& self.right_child().wf()
            &&& self.freq_value == self.left_child().freq_value + self.right_child().freq_value
        } else {
            false
        }
    }

    /// The (symbol, weight) pairs of the leaves, left to right.
    pub open spec fn leaves(self) -> Seq<(char, u64)>
        decreases self,
    {
        if self.value is Some {
            seq![(self.value->Some_0, self.freq_value)]
        } else if self.left is Some && self.right is Some {
            self.left_child().leaves() + self.right_child().leaves()
        } else {
            Seq::empty()
        }
    }

    /// The length of the longest path from this node to a leaf.
    pub open spec fn depth(self) -> nat
        decreases self,
    {
        if self.value is Some {
            0
        } else if self.left is Some && self.right is Some {
            let l = self.left_child().depth();
            let r = self.right_child().depth();
            1 + if l >= r { l } else { r }
        } else {
            0
        }
    }

    /// Each leaf's symbol with the path that leads to it from this node,
    /// appended to `prefix` (`false` for left, `true` for right), left to right.
    pub open spec fn paths(self, prefix: Seq<bool>) -> Seq<(char, Seq<bool>)>
        decreases self,
    {
        if self.value is Some {
            seq![(self.value->Some_0, prefix)]
        } else if self.left is Some && self.right is Some {
            self.left_child().paths(prefix.push(false)) + self.right_child().paths(prefix.push(true))
        } else {
            Seq::empty()
        }
    }

    /// The code of each leaf in traversal order; a lone leaf gets the one-bit code `0`.
    pub open spec fn code_list(self) -> Seq<(char, Seq<bool>)> {
        if self.value is Some {
            seq![(self.value->Some_0, seq![false])]
        } else {
            self.paths(Seq::empty())
        }
    }
}

/// The (symbol, weight) pairs of the leaves of all trees of `q`.
pub open spec fn forest_leaves(q: Seq<HuffmanNode>) -> Multiset<(char, u64)>
    decreases q.len(),
{
    if q.len() == 0 {
        Multiset::empty()
    } else {
        forest_leaves(q.drop_last()).add(q.last().leaves().to_multiset())
    }
}

/// The sum of the weights of the roots of `q`.
pub open spec fn forest_weight(q: Seq<HuffmanNode>) -> nat
    decreases q.len(),
{
    if q.len() == 0 {
        0
    } else {
        forest_weight(q.drop_last()) + q.last().freq_value as nat
    }
}

proof fn lemma_forest_remove(q: Seq<HuffmanNode>, i: int)
    requires
        0 <= i < q.len(),
    ensures
        forest_leaves(q) =~= forest_leaves(q.remove(i)).add(q[i].leaves().to_multiset()),
        forest_weight(q) == forest_weight(q.remove(i)) + q[i].freq_value,
    decreases q.len(),
{
    if i == q.len() - 1 {
        assert(q.remove(i) =~= q.drop_last());
    } else {
        let dl = q.drop_last();
        lemma_forest_remove(dl, i);
        assert(q.remove(i).drop_last() =~= dl.remove(i));
        assert(q.remove(i).last() == q.last());
        assert(dl[i] == q[i]);
    }
}

/// The leaf for symbol `c` with weight `w`.
pub open spec fn leaf_node(c: char, w: u64) -> HuffmanNode {
    HuffmanNode { freq_value: w, left: None, right: None, value: Some(c) }
}

/// The internal node with children `a` (left) and `b` (right).
pub open spec fn merged(a: HuffmanNode, b: HuffmanNode) -> HuffmanNode {
    HuffmanNode {
        freq_value: (a.freq_value + b.freq_value) as u64,
        left: Some(Box::new(a)),
        right: Some(Box::new(b)),
        value: None,
    }
}

/// The position of the first tree of least weight in `q`.
pub open spec fn min_pos(q: Seq<HuffmanNode>) -> int
    decreases q.len(),
{
    if q.len() <= 1 {
        0
    } else {
        let m = min_pos(q.drop_last());
        if q.last().freq_value < q[m].freq_value {
            q.len() - 1
        } else {
            m
        }
    }
}

/// One greedy step: the lightest tree is taken out, then the lightest of
/// the rest, and the tree that joins them (the first on the left) is
/// appended.
pub open spec fn merge_step(q: Seq<HuffmanNode>) -> Seq<HuffmanNode> {
    let i = min_pos(q);
    let q1 = q.remove(i);
    let j = min_pos(q1);
    q1.remove(j).push(merged(q[i], q1[j]))
}

/// The first tree of `q` after at most `steps` greedy steps, stopping where
/// one tree is left.
pub open spec fn greedy(q: Seq<HuffmanNode>, steps: nat) -> HuffmanNode
    decreases steps,
{
    if steps == 0 || q.len() <= 1 {
        q[0]
    } else {
        greedy(merge_step(q), (steps - 1) as nat)
    }
}

/// The tree that the greedy construction builds from a frequency table: one
/// leaf per entry, in table order, merged until one tree is left.
pub open spec fn huffman_tree(freqs: Seq<(char, u64)>) -> HuffmanNode {
    greedy(freqs.map_values(|e: (char, u64)| leaf_node(e.0, e.1)), freqs.len())
}

impl HuffmanNode {
    fn leaf(c: char, w: u64) -> (r: HuffmanNode)
        ensures
            r.wf(),
            r.freq_value == w,
            r.leaves() == seq![(c, w)],
            r == leaf_node(c, w),
    {
        HuffmanNode { freq_value: w, left: None, right: None, value: Some(c) }
    }

    fn merge(a: HuffmanNode, b: HuffmanNode) -> (r: HuffmanNode)
        requires
            a.wf(),
            b.wf(),
            a.freq_value + b.freq_value <= u64::MAX,
        ensures
            r.wf(),
            r.freq_value == a.freq_value + b.freq_value,
            r.leaves() == a.leaves() + b.leaves(),
            r == merged(a, b),
    {
        HuffmanNode {
            freq_value: a.freq_value + b.freq_value,
            left: Some(Box::new(a)),
            right: Some(Box::new(b)),
            value: None,
        }
    }

    /// Builds the prefix tree of `data`: its leaves are the distinct symbols of
    /// `data`, each weighted by its number of occurrences.
    pub fn new(data: &str) -> (r: Result<HuffmanNode, HuffError>)
        ensures
            r is Err <==> data@.len() == 0,
            r is Err ==> r == Err::<HuffmanNode, HuffError>(HuffError::EmptyInput),
            r matches Ok(t) ==> {
                &&& t.wf()
                &&& t.leaves().to_multiset() == frequencies(data@).to_multiset()
                &&& t.freq_value == data@.len()
                &&& t == huffman_tree(frequencies(data@))
            },
    {
        let symbols = symbols_of(data);
        let n = symbols.len();
        let freqs = count_frequencies(&symbols);
        proof {
            lemma_total_weight_frequencies(data@);
            crate::frequency::lemma_distinct(data@);
            if data@.len() > 0 {
                assert(data@.contains(data@[0]));
                assert(crate::frequency::distinct(data@).len() > 0);
            }
        }
        build_tree(&freqs)
    }
}

/// Index of the first node of least weight in `q`.
fn min_index(q: &Vec<HuffmanNode>) -> (r: usize)
    requires
        q@.len() > 0,
    ensures
        r < q@.len(),
        forall|k: int| 0 <= k < q@.len() ==> q@[r as int].freq_value <= #[trigger] q@[k].freq_value,
        forall|k: int| 0 <= k < r ==> q@[r as int].freq_value < #[trigger] q@[k].freq_value,
        r == min_pos(q@),
{
    let mut best: usize = 0;
    let mut k: usize = 1;
    while k < q.len()
        invariant
            best < k <= q@.len(),
            best == min_pos(q@.take(k as int)),
            forall|m: int| 0 <= m < k ==> q@[best as int].freq_value <= #[trigger] q@[m].freq_value,
            forall|m: int| 0 <= m < best ==> q@[best as int].freq_value < #[trigger] q@[m].freq_value,
        decreases q@.len() - k,
    {
        assert(q@.take(k + 1).drop_last() =~= q@.take(k as int));
        if q[k].freq_value < q[best].freq_value {
            best = k;
        }
        k = k + 1;
    }
    assert(q@.take(k as int) =~= q@);
    best
}

/// Builds a prefix tree from a frequency table by repeatedly merging the two
/// lightest trees; the first one taken becomes the left child. Among trees of
/// equal weight the one that entered the queue first is taken first: leaves
/// enter in table order, and each merged tree enters after all earlier ones.
pub fn build_tree(freqs: &Vec<(char, u64)>) -> (r: Result<HuffmanNode, HuffError>)
    requires
        total_weight(freqs@) <= u64::MAX,
    ensures
        r is Err <==> freqs@.len() == 0,
        r is Err ==> r == Err::<HuffmanNode, HuffError>(HuffError::EmptyInput),
        r matches Ok(t) ==> {
            &&& t.wf()
            &&& t.leaves().to_multiset() == freqs@.to_multiset()
            &&& t.freq_value == total_weight(freqs@)
            &&& t == huffman_tree(freqs@)
        },
{
    broadcast use vstd::seq_lib::group_to_multiset_ensures;

    if freqs.len() == 0 {
        return Err(HuffError::EmptyInput);
    }
    let mut queue: Vec<HuffmanNode> = Vec::new();
    let mut k: usize = 0;
    proof {
        vstd::multiset::lemma_multiset_empty_len(freqs@.take(0).to_multiset());
    }
    while k < freqs.len()
        invariant
            k <= freqs@.len(),
            queue@.len() == k,
            forall|m: int| 0 <= m < k ==> (#[trigger] queue@[m]).wf(),
            forest_leaves(queue@) =~= freqs@.take(k as int).to_multiset(),
            forest_weight(queue@) == total_weight(freqs@.take(k as int)),
            queue@ == freqs@.take(k as int).map_values(|e: (char, u64)| leaf_node(e.0, e.1)),
        decreases freqs@.len() - k,
    {
        let (c, w) = freqs[k];
        let ghost before = queue@;
        queue.push(HuffmanNode::leaf(c, w));
        proof {
            assert(queue@.drop_last() == before);
            assert(freqs@.take(k + 1) =~= freqs@.take(k as int) + seq![(c, w)]);
            assert(freqs@.take(k + 1).drop_last() =~= freqs@.take(k as int));
            vstd::seq_lib::lemma_multiset_commutative(freqs@.take(k as int), seq![(c, w)]);
            assert(queue@ =~= freqs@.take(k + 1).map_values(|e: (char, u64)| leaf_node(e.0, e.1)));
        }
        k = k + 1;
    }
    assert(freqs@.take(k as int) =~= freqs@);
    let ghost leaves0 = queue@;
    assert(greedy(leaves0, leaves0.len()) == huffman_tree(freqs@));
    while queue.len() > 1
        invariant
            queue@.len() >= 1,
            forall|m: int| 0 <= m < queue@.len() ==> (#[trigger] queue@[m]).wf(),
            forest_leaves(queue@) =~= freqs@.to_multiset(),
            forest_weight(queue@) == total_weight(freqs@),
            total_weight(freqs@) <= u64::MAX,
            greedy(queue@, queue@.len()) == huffman_tree(freqs@),
        decreases queue@.len(),
    {
        let ghost q0 = queue@;
        let i = min_index(&queue);
        let a = queue.remove(i);
        let ghost q1 = queue@;
        let j = min_index(&queue);
        let b = queue.remove(j);
        let ghost q2 = queue@;
        proof {
            lemma_forest_remove(q0, i as int);
            lemma_forest_remove(q1, j as int);
            assert(a.wf() && b.wf());
            vstd::seq_lib::lemma_multiset_commutative(a.leaves(), b.leaves());
        }
        let m = HuffmanNode::merge(a, b);
        queue.push(m);
        proof {
            assert(queue@ == merge_step(q0));
            assert(greedy(q0, q0.len()) == greedy(merge_step(q0), (q0.len() - 1) as nat));
            assert(queue@.drop_last() == q2);
            assert forall|n: int| 0 <= n < queue@.len() implies (#[trigger] queue@[n]).wf() by {
                if n < q2.len() {
                    assert(q2[n] == q1.remove(j as int)[n]);
                }
            }
        }
    }
    let ghost last = queue@;
    let root = queue.pop().unwrap();
    proof {
        assert(last.drop_last().len() == 0);
        assert(last.last() == root);
        assert(last[0] == root);
        assert(forest_leaves(last.drop_last()) == Multiset::<(char, u64)>::empty());
        assert(forest_weight(last.drop_last()) == 0);
        assert(forest_leaves(last) =~= root.leaves().to_multiset());
        assert(greedy(last, last.len()) == last[0]);
    }
    Ok(root)
}

/// The code of one symbol: its bit pattern (`bitlength` low bits of
/// `code`, most significant first) and the same bits as text.
#[derive(Debug, Clone)]
pub struct HuffCode {
    pub val: char,
    pub bitlength: u8,
    pub code: u64,
    pub code_str: String,
}

impl HuffCode {
    fn from_parts(val: char, bitlength: u8, code: u64, code_str: String) -> (r: HuffCode)
        ensures
            r.val == val,
            r.bitlength == bitlength,
            r.code == code,
            r.code_str == code_str,
    {
        HuffCode { val, bitlength, code, code_str }
    }

    /// A copy of this code.
    pub fn duplicate(&self) -> (r: HuffCode)
        ensures
            r.val == self.val,
            r.bitlength == self.bitlength,
            r.code == self.code,
            r.code_str@ == self.code_str@,
    {
        HuffCode::from_parts(self.val, self.bitlength, self.code, self.code_str.clone())
    }

    /// The bit pattern of this code.
    pub open spec fn bits(self) -> Seq<bool> {
        bits_of(self.code, self.bitlength as nat)
    }

    /// This is the code of `sym` with bit pattern `path`, in each of its forms.
    pub open spec fn is_code_of(self, sym: char, path: Seq<bool>) -> bool {
        &&& self.val == sym
        &&& self.bitlength == path.len()
        &&& self.code == bits_value(path)
        &&& self.bits() == path
        &&& self.code_str@ == bits_text(path)
    }
}

/// `codes` holds, in order, the codes that `list` describes.
pub open spec fn codes_match(codes: Seq<HuffCode>, list: Seq<(char, Seq<bool>)>) -> bool {
    &&& codes.len() == list.len()
    &&& forall|i: int| 0 <= i < codes.len() ==> (#[trigger] codes[i]).is_code_of(list[i].0, list[i].1)
}

/// Every path of `paths(prefix)` extends `prefix`, by at most the node's depth.
pub proof fn lemma_paths_extend(node: HuffmanNode, prefix: Seq<bool>)
    requires
        node.wf(),
    ensures
        forall|i: int| 0 <= i < node.paths(prefix).len() ==> {
            &&& prefix.len() <= #[trigger] node.paths(prefix)[i].1.len() <= prefix.len() + node.depth()
            &&& node.paths(prefix)[i].1.subrange(0, prefix.len() as int) == prefix
        },
    decreases node,
{
    if node.value is None {
        let l = node.left_child();
        let r = node.right_child();
        lemma_paths_extend(l, prefix.push(false));
        lemma_paths_extend(r, prefix.push(true));
        let lp = l.paths(prefix.push(false));
        assert forall|i: int| 0 <= i < node.paths(prefix).len() implies {
            &&& prefix.len() <= #[trigger] node.paths(prefix)[i].1.len() <= prefix.len() + node.depth()
            &&& node.paths(prefix)[i].1.subrange(0, prefix.len() as int) == prefix
        } by {
            let p = node.paths(prefix)[i].1;
            if i < lp.len() {
                assert(p == lp[i].1);
                assert(p.subrange(0, prefix.len() + 1 as int) == prefix.push(false));
                assert(p.subrange(0, prefix.len() as int) =~= prefix) by {
                    assert forall|j: int| 0 <= j < prefix.len() implies p[j] == prefix[j] by {
                        assert(p.subrange(0, prefix.len() + 1 as int)[j] == prefix.push(false)[j]);
                    }
                }
            } else {
                assert(p == r.paths(prefix.push(true))[i - lp.len()].1);
                assert(p.subrange(0, prefix.len() + 1 as int) == prefix.push(true));
                assert(p.subrange(0, prefix.len() as int) =~= prefix) by {
                    assert forall|j: int| 0 <= j < prefix.len() implies p[j] == prefix[j] by {
                        assert(p.subrange(0, prefix.len() + 1 as int)[j] == prefix.push(true)[j]);
                    }
                }
            }
        }
    } else {
        assert(node.paths(prefix)[0].1.subrange(0, prefix.len() as int) =~= prefix);
    }
}

/// `a` is a prefix of `b`.
pub open spec fn is_prefix(a: Seq<bool>, b: Seq<bool>) -> bool {
    a.len() <= b.len() && b.subrange(0, a.len() as int) == a
}

/// No code of `list` is a prefix of another entry's code.
pub open spec fn prefix_free(list: Seq<(char, Seq<bool>)>) -> bool {
    forall|i: int, j: int|
        0 <= i < list.len() && 0 <= j < list.len() && i != j ==> !is_prefix(
            #[trigger] list[i].1,
            #[trigger] list[j].1,
        )
}

proof fn lemma_paths_prefix_free(node: HuffmanNode, prefix: Seq<bool>)
    requires
        node.wf(),
    ensures
        prefix_free(node.paths(prefix)),
    decreases node,
{
    if node.value is None {
        let l = node.left_child();
        let r = node.right_child();
        let pl = prefix.push(false);
        let pr = prefix.push(true);
        lemma_paths_prefix_free(l, pl);
        lemma_paths_prefix_free(r, pr);
        lemma_paths_extend(l, pl);
        lemma_paths_extend(r, pr);
        let lp = l.paths(pl);
        let rp = r.paths(pr);
        let all = node.paths(prefix);
        let n = prefix.len() as int;
        assert forall|i: int, j: int|
            0 <= i < all.len() && 0 <= j < all.len() && i != j implies !is_prefix(
                #[trigger] all[i].1,
                #[trigger] all[j].1,
            ) by {
            if i < lp.len() && j < lp.len() {
                assert(all[i] == lp[i] && all[j] == lp[j]);
            } else if i >= lp.len() && j >= lp.len() {
                assert(all[i] == rp[i - lp.len()] && all[j] == rp[j - lp.len()]);
            } else {
                let a = all[i].1;
                let b = all[j].1;
                // one code goes left at position n, the other right
                let (x, y) = if i < lp.len() { (lp[i].1, rp[j - lp.len()].1) } else { (rp[i - lp.len()].1, lp[j].1) };
                if i < lp.len() {
                    assert(lp[i].1.len() >= n + 1 && rp[j - lp.len()].1.len() >= n + 1);
                } else {
                    assert(lp[j].1.len() >= n + 1 && rp[i - lp.len()].1.len() >= n + 1);
                }
                assert(a == x && b == y);
                assert(x.subrange(0, n + 1)[n] == x[n]);
                assert(y.subrange(0, n + 1)[n] == y[n]);
                assert(x[n] != y[n]);
                if is_prefix(a, b) {
                    assert(b.subrange(0, a.len() as int)[n] == b[n]);
                }
            }
        }
    }
}

/// The codes of a well-formed tree form a prefix code: no code is a prefix
/// of another.
pub proof fn lemma_codes_prefix_free(root: HuffmanNode)
    requires
        root.wf(),
    ensures
        prefix_free(root.code_list()),
{
    if root.value is None {
        lemma_paths_prefix_free(root, Seq::empty());
    }
}

/// Appends the code of each leaf below `node` to `codes`; `location` and
/// `location_str` hold the path from the root to `node`, `depth` bits long.
fn recurse_codes(
    node: &HuffmanNode,
    codes: &mut Vec<HuffCode>,
    location_str: String,
    location: u64,
    depth: u8,
    Ghost(prefix): Ghost<Seq<bool>>,
) -> (r: Result<(), HuffError>)
    requires
        node.wf(),
        depth <= 64,
        prefix.len() == depth,
        location == bits_value(prefix),
        bits_of(location, depth as nat) == prefix,
        location_str@ == bits_text(prefix),
    ensures
        r is Ok <==> depth + node.depth() <= 64,
        r is Err ==> r == Err::<(), HuffError>(HuffError::CodeLengthOverflow),
        r is Ok ==> {
            &&& final(codes)@.len() == old(codes)@.len() + node.paths(prefix).len()
            &&& forall|i: int| 0 <= i < old(codes)@.len() ==> final(codes)@[i] == old(codes)@[i]
            &&& forall|i: int|
                0 <= i < node.paths(prefix).len() ==> (#[trigger] final(codes)@[old(codes)@.len() + i]).is_code_of(
                    node.paths(prefix)[i].0,
                    node.paths(prefix)[i].1,
                )
        },
    decreases node,
{
    if let Some(c) = node.value {
        codes.push(HuffCode::from_parts(c, depth, location, location_str));
        assert(codes@[old(codes)@.len() + 0int] == codes@.last());
        return Ok(());
    }
    if depth >= 64 {
        return Err(HuffError::CodeLengthOverflow);
    }
    let left = node.left.as_ref().unwrap();
    let right = node.right.as_ref().unwrap();
    let mut left_str = location_str.clone();
    let mut right_str = location_str;
    proof {
        reveal_strlit("0");
        reveal_strlit("1");
    }
    left_str.append("0");
    right_str.append("1");
    assert(left_str@ =~= bits_text(prefix.push(false)));
    assert(right_str@ =~= bits_text(prefix.push(true)));
    let left_code = shift_in(location, depth, false, Ghost(prefix));
    let right_code = shift_in(location, depth, true, Ghost(prefix));
    let rl = recurse_codes(left, codes, left_str, left_code, depth + 1, Ghost(prefix.push(false)));
    if rl.is_err() {
        return rl;
    }
    let ghost after_left = codes@;
    let rr = recurse_codes(right, codes, right_str, right_code, depth + 1, Ghost(prefix.push(true)));
    if rr.is_err() {
        return rr;
    }
    proof {
        let n0 = old(codes)@.len() as int;
        let lp = node.left_child().paths(prefix.push(false));
        let rp = node.right_child().paths(prefix.push(true));
        assert forall|i: int| 0 <= i < node.paths(prefix).len() implies (#[trigger] codes@[n0 + i]).is_code_of(
            node.paths(prefix)[i].0, node.paths(prefix)[i].1) by {
            if i < lp.len() {
                assert(codes@[n0 + i] == after_left[n0 + i]);
            } else {
                assert(codes@[n0 + i] == codes@[n0 + lp.len() + (i - lp.len())]);
            }
        }
    }
    Ok(())
}

/// The code of every leaf of the tree, in depth-first order, left before right.
pub fn gen_codes(root_node: &HuffmanNode) -> (r: Result<Vec<HuffCode>, HuffError>)
    requires
        root_node.wf(),
    ensures
        r is Ok <==> root_node.depth() <= 64,
        r is Err ==> r == Err::<Vec<HuffCode>, HuffError>(HuffError::CodeLengthOverflow),
        r matches Ok(v) ==> codes_match(v@, root_node.code_list()),
        prefix_free(root_node.code_list()),
{
    proof {
        lemma_codes_prefix_free(*root_node);
    }
    let mut out_codes: Vec<HuffCode> = Vec::new();
    if let Some(c) = root_node.value {
        let mut s = String::new();
        proof {
            reveal_strlit("0");
        }
        s.append("0");
        out_codes.push(HuffCode::from_parts(c, 1, 0, s));
        proof {
            let p = seq![false];
            assert(p.drop_last() =~= Seq::<bool>::empty());
            assert(bits_value(Seq::<bool>::empty()) == 0);
            assert(bits_value(p) == 0);
            assert(out_codes@[0].bits() =~= p) by {
                assert((0u64 >> 0u64) & 1 == 0) by (bit_vector);
            }
            assert(s@ =~= bits_text(p));
        }
        return Ok(out_codes);
    }
    proof {
        reveal_strlit("");
    }
    proof {
        assert(bits_of(0, 0) =~= Seq::<bool>::empty());
        assert(bits_text(Seq::<bool>::empty()) =~= Seq::<char>::empty());
        assert(bits_value(Seq::<bool>::empty()) == 0);
    }
    let res = recurse_codes(root_node, &mut out_codes, String::new(), 0, 0, Ghost(Seq::empty()));
    match res {
        Ok(()) => {
            assert forall|i: int| 0 <= i < out_codes@.len() implies (#[trigger] out_codes@[i]).is_code_of(
                root_node.code_list()[i].0, root_node.code_list()[i].1) by {
                assert(out_codes@[i] == out_codes@[0 + i]);
            }
            Ok(out_codes)
        },
        Err(e) => Err(e),
    }
}

/// The code that `list` gives `c`: that of the last entry for `c`.
pub open spec fn lookup(list: Seq<(char, Seq<bool>)>, c: char) -> Option<Seq<bool>>
    decreases list.len(),
{
    if list.len() == 0 {
        None
    } else if list.last().0 == c {
        Some(list.last().1)
    } else {
        lookup(list.drop_last(), c)
    }
}

/// The map from symbol to code that `list` gives; where a symbol has several
/// entries, the last one counts.
pub open spec fn code_table(list: Seq<(char, Seq<bool>)>) -> Map<char, Seq<bool>> {
    Map::new(|c: char| lookup(list, c) is Some, |c: char| lookup(list, c)->Some_0)
}

pub proof fn lemma_lookup_found(list: Seq<(char, Seq<bool>)>, c: char)
    ensures
        lookup(list, c) matches Some(p) ==> exists|j: int| 0 <= j < list.len() && list[j] == (c, p),
        (exists|j: int| 0 <= j < list.len() && list[j].0 == c) ==> lookup(list, c) is Some,
    decreases list.len(),
{
    if list.len() > 0 {
        let t = list.drop_last();
        lemma_lookup_found(t, c);
        if let Some(p) = lookup(list, c) {
            if list.last().0 == c {
                assert(list[list.len() - 1] == (c, p));
            } else {
                let j = choose|j: int| 0 <= j < t.len() && t[j] == (c, p);
                assert(list[j] == (c, p));
            }
        }
        if exists|j: int| 0 <= j < list.len() && list[j].0 == c {
            let j = choose|j: int| 0 <= j < list.len() && list[j].0 == c;
            if j < list.len() - 1 {
                assert(t[j].0 == c);
            }
        }
    }
}

/// Codes keyed by symbol: the generated codes in order, where the last code
/// of a symbol is the one that a lookup finds.
pub struct CodeMap {
    pub codes: Vec<HuffCode>,
}

impl CodeMap {
    /// Each symbol with its bit pattern, in order.
    pub open spec fn entries(self) -> Seq<(char, Seq<bool>)> {
        self.codes@.map_values(|h: HuffCode| (h.val, h.bits()))
    }

    /// Every code holds its bit pattern in each of its forms.
    pub open spec fn wf(self) -> bool {
        forall|k: int| 0 <= k < self.codes@.len() ==> (#[trigger] self.codes@[k]).is_code_of(
            self.codes@[k].val,
            self.codes@[k].bits(),
        )
    }

    pub open spec fn view(self) -> Map<char, Seq<bool>> {
        code_table(self.entries())
    }

    /// The code of `c`, if it has one.
    pub fn get(&self, c: char) -> (r: Option<&HuffCode>)
        requires
            self.wf(),
        ensures
            r is Some <==> self@.contains_key(c),
            r matches Some(h) ==> h.is_code_of(c, self@[c]),
    {
        let ghost all = self.entries();
        let mut i = self.codes.len();
        assert(all.take(i as int) =~= all);
        while i > 0
            invariant
                i <= self.codes@.len(),
                self.wf(),
                all == self.entries(),
                lookup(all, c) == lookup(all.take(i as int), c),
            decreases i,
        {
            assert(all.take(i as int).drop_last() =~= all.take(i - 1));
            if self.codes[i - 1].val == c {
                assert(all[i - 1] == (c, self.codes@[i - 1].bits()));
                assert(all.take(i as int).last() == all[i - 1]);
                assert(lookup(all, c) == Some(self.codes@[i - 1].bits()));
                assert(self@.contains_key(c));
                assert(self@[c] == self.codes@[i - 1].bits());
                assert(self.codes@[i - 1].is_code_of(self.codes@[i - 1].val, self.codes@[i - 1].bits()));
                return Some(&self.codes[i - 1]);
            }
            i = i - 1;
        }
        None
    }
}

/// The codes of the tree keyed by symbol.
pub fn gen_code_map(root_node: &HuffmanNode) -> (r: Result<CodeMap, HuffError>)
    requires
        root_node.wf(),
    ensures
        r is Ok <==> root_node.depth() <= 64,
        r is Err ==> r == Err::<CodeMap, HuffError>(HuffError::CodeLengthOverflow),
        r matches Ok(m) ==> {
            &&& m.wf()
            &&& codes_match(m.codes@, root_node.code_list())
            &&& m.entries() == root_node.code_list()
            &&& m@ == code_table(root_node.code_list())
        },
{
    match gen_codes(root_node) {
        Ok(codes) => {
            let m = CodeMap { codes };
            assert(m.entries() =~= root_node.code_list());
            Ok(m)
        },
        Err(e) => Err(e),
    }
}

} // verus!
