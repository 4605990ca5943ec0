use vstd::prelude::*;

verus! {

broadcast use vstd::string::group_string_axioms;

/// How many times `c` occurs in `s`.
pub open spec fn count(s: Seq<char>, c: char) -> nat
    decreases s.len(),
{
    if s.len() == 0 {
        0
    } else {
        count(s.drop_last(), c) + if s.last() == c { 1nat } else { 0nat }
    }
}

/// The distinct symbols of `s`, in the order of their first occurrence.
pub open spec fn distinct(s: Seq<char>) -> Seq<char>
    decreases s.len(),
{
    if s.len() == 0 {
        Seq::empty()
    } else if s.drop_last().contains(s.last()) {
        distinct(s.drop_last())
    } else {
        distinct(s.drop_last()).push(s.last())
    }
}

/// The frequency table of `s`: each distinct symbol, in the order of its first
/// occurrence, with the number of times it occurs.
pub open spec fn frequencies(s: Seq<char>) -> Seq<(char, u64)> {
    distinct(s).map_values(|c: char| (c, count(s, c) as u64))
}

pub proof fn lemma_count_bound(s: Seq<char>, c: char)
    ensures
        count(s, c) <= s.len(),
    decreases s.len(),
{
    if s.len() > 0 {
        lemma_count_bound(s.drop_last(), c);
    }
}

pub proof fn lemma_count_absent(s: Seq<char>, c: char)
    requires
        !s.contains(c),
    ensures
        count(s, c) == 0,
    decreases s.len(),
{
    if s.len() > 0 {
        assert(s[s.len() - 1] == s.last());
        assert forall|k: int| 0 <= k < s.len() - 1 implies s.drop_last()[k] != c by {
            assert(s[k] == s.drop_last()[k]);
        }
        lemma_count_absent(s.drop_last(), c);
    }
}

/// `distinct(s)` holds each symbol of `s` exactly once.
pub proof fn lemma_distinct(s: Seq<char>)
    ensures
        forall|c: char| distinct(s).contains(c) <==> s.contains(c),
        distinct(s).no_duplicates(),
    decreases s.len(),
{
    if s.len() > 0 {
        let t = s.drop_last();
        lemma_distinct(t);
        assert forall|c: char| s.contains(c) <==> t.contains(c) || c == s.last() by {
            if s.contains(c) {
                let k = choose|k: int| 0 <= k < s.len() && s[k] == c;
                if k < t.len() {
                    assert(t[k] == c);
                }
            }
            if t.contains(c) {
                let k = choose|k: int| 0 <= k < t.len() && t[k] == c;
                assert(s[k] == c);
            }
            if c == s.last() {
                assert(s[s.len() - 1] == c);
            }
        }
        if !t.contains(s.last()) {
            let d = distinct(t);
            assert forall|c: char| d.push(s.last()).contains(c) <==> d.contains(c) || c == s.last() by {
                if d.push(s.last()).contains(c) {
                    let k = choose|k: int| 0 <= k < d.len() + 1 && d.push(s.last())[k] == c;
                    if k < d.len() {
                        assert(d[k] == c);
                    }
                }
                if d.contains(c) {
                    let k = choose|k: int| 0 <= k < d.len() && d[k] == c;
                    assert(d.push(s.last())[k] == c);
                }
                if c == s.last() {
                    assert(d.push(s.last())[d.len() as int] == c);
                }
            }
        }
    }
}

/// The sum of the weights of a frequency table.
pub open spec fn total_weight(freqs: Seq<(char, u64)>) -> nat
    decreases freqs.len(),
{
    if freqs.len() == 0 {
        0
    } else {
        total_weight(freqs.drop_last()) + freqs.last().1 as nat
    }
}

/// The sum over `d` of the number of times each of its entries occurs in `s`.
pub open spec fn count_sum(s: Seq<char>, d: Seq<char>) -> nat
    decreases d.len(),
{
    if d.len() == 0 {
        0
    } else {
        count_sum(s, d.drop_last()) + count(s, d.last())
    }
}

proof fn lemma_count_sum_push(s: Seq<char>, c: char, d: Seq<char>)
    ensures
        count_sum(s.push(c), d) == count_sum(s, d) + count(d, c),
    decreases d.len(),
{
    assert(s.push(c).drop_last() =~= s);
    if d.len() > 0 {
        lemma_count_sum_push(s, c, d.drop_last());
    }
}

proof fn lemma_count_unique(d: Seq<char>, c: char)
    requires
        d.no_duplicates(),
        d.contains(c),
    ensures
        count(d, c) == 1,
    decreases d.len(),
{
    let t = d.drop_last();
    assert(t.no_duplicates()) by {
        assert forall|i: int, j: int| 0 <= i < t.len() && 0 <= j < t.len() && i != j implies t[i] != t[j] by {
            assert(t[i] == d[i] && t[j] == d[j]);
        }
    }
    if d.last() == c {
        assert forall|k: int| 0 <= k < t.len() implies t[k] != c by {
            assert(t[k] == d[k]);
            assert(d[d.len() - 1] == c);
        }
        lemma_count_absent(t, c);
    } else {
        let k = choose|k: int| 0 <= k < d.len() && d[k] == c;
        assert(k < d.len() - 1);
        assert(t[k] == c);
        lemma_count_unique(t, c);
    }
}

proof fn lemma_weights_of_counts(s: Seq<char>, d: Seq<char>)
    requires
        s.len() <= u64::MAX,
    ensures
        total_weight(d.map_values(|c: char| (c, count(s, c) as u64))) == count_sum(s, d),
    decreases d.len(),
{
    if d.len() > 0 {
        let f = |c: char| (c, count(s, c) as u64);
        assert(d.map_values(f).drop_last() =~= d.drop_last().map_values(f));
        lemma_weights_of_counts(s, d.drop_last());
        lemma_count_bound(s, d.last());
    }
}

/// The weights of the frequency table of `s` add up to the length of `s`.
pub proof fn lemma_total_weight_frequencies(s: Seq<char>)
    requires
        s.len() <= u64::MAX,
    ensures
        total_weight(frequencies(s)) == s.len(),
{
    lemma_count_sum_distinct(s);
    lemma_weights_of_counts(s, distinct(s));
}

proof fn lemma_count_sum_distinct(s: Seq<char>)
    ensures
        count_sum(s, distinct(s)) == s.len(),
    decreases s.len(),
{
    if s.len() > 0 {
        let t = s.drop_last();
        let c = s.last();
        assert(t.push(c) =~= s);
        lemma_count_sum_distinct(t);
        lemma_distinct(t);
        let d = distinct(t);
        lemma_count_sum_push(t, c, d);
        if t.contains(c) {
            lemma_count_unique(d, c);
        } else {
            lemma_count_absent(d, c);
            lemma_count_absent(t, c);
            assert(d.push(c).drop_last() =~= d);
        }
    }
}

/// The symbols of `data`, in order.
pub fn symbols_of(data: &str) -> (r: Vec<char>)
    ensures
        r@ == data@,
{
    let mut out: Vec<char> = Vec::new();
    for c in it: data.chars()
        invariant
            out@ == it.history(),
    {
        out.push(c);
    }
    out
}

/// Counts the occurrences of each symbol of `data`; the entries come in the
/// order of each symbol's first occurrence.
pub fn count_frequencies(data: &Vec<char>) -> (r: Vec<(char, u64)>)
    ensures
        r@ == frequencies(data@),
{
    let mut table: Vec<(char, u64)> = Vec::new();
    let n = data.len();
    let mut i: usize = 0;
    while i < n
        invariant
            n == data@.len(),
            i <= n,
            table@ == frequencies(data@.take(i as int)),
        decreases n - i,
    {
        let c = data[i];
        let ghost pre = data@.take(i as int);
        let ghost post = data@.take(i + 1);
        proof {
            assert(post.drop_last() =~= pre);
            assert(post.last() == c);
            lemma_distinct(pre);
            lemma_count_bound(pre, c);
        }
        let mut j: usize = 0;
        while j < table.len() && table[j].0 != c
            invariant
                j <= table@.len(),
                table@ == frequencies(pre),
                forall|k: int| 0 <= k < j ==> table@[k].0 != c,
            decreases table@.len() - j,
        {
            j = j + 1;
        }
        let ghost d = distinct(pre);
        if j < table.len() {
            let (sym, k) = table[j];
            assert(d[j as int] == c);
            assert(pre.contains(c));
            assert(k == count(pre, c));
            table.set(j, (sym, k + 1));
            proof {
                assert(distinct(post) == d);
                assert forall|m: int| 0 <= m < d.len() implies table@[m] == frequencies(post)[m] by {
                    if m != j {
                        assert(d[m] != d[j as int]);
                    }
                }
                assert(table@ =~= frequencies(post));
            }
        } else {
            assert forall|k: int| 0 <= k < d.len() implies d[k] != c by {
                assert(table@[k].0 == d[k]);
            }
            assert(!d.contains(c));
            proof {
                lemma_count_absent(pre, c);
            }
            table.push((c, 1));
            proof {
                assert(distinct(post) == d.push(c));
                assert forall|m: int| 0 <= m < d.len() + 1 implies table@[m] == frequencies(post)[m] by {
                    if m < d.len() {
                        assert(d[m] != c);
                    }
                }
                assert(table@ =~= frequencies(post));
            }
        }
        i = i + 1;
    }
    assert(data@.take(n as int) =~= data@);
    table
}

} // verus!
