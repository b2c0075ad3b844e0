//! Latency summarization: sorting and the median.
//!
//! Each directly-follows pair collects a multiset of whole-second latencies;
//! the summarizer reduces it to one representative value, the median.

use vstd::prelude::*;
use vstd::relations::{sorted_by, total_ordering};
use vstd::seq_lib::lemma_sorted_unique;

verus! {

/// The ascending order on latency values.
pub open spec fn u64_le() -> spec_fn(u64, u64) -> bool {
    |x: u64, y: u64| x <= y
}

pub proof fn lemma_u64_le_total_ordering()
    ensures
        total_ordering(u64_le()),
{
}

/// Inserting an element anywhere in a sequence inserts it into the multiset.
pub proof fn lemma_insert_to_multiset<A>(s: Seq<A>, i: int, x: A)
    requires
        0 <= i <= s.len(),
    ensures
        s.insert(i, x).to_multiset() =~= s.to_multiset().insert(x),
{
    broadcast use vstd::seq_lib::group_to_multiset_ensures;
    broadcast use vstd::multiset::group_multiset_axioms;

    let t = s.insert(i, x);
    assert(t.remove(i) =~= s);
    assert(t[i] == x);
    assert(s.to_multiset() =~= t.to_multiset().remove(x));
    assert(t.contains(x));
    assert(t.to_multiset().count(x) > 0);
    assert forall|y: A|
        t.to_multiset().count(y) == s.to_multiset().insert(x).count(y) by {
        if y == x {
            assert(s.to_multiset().count(x) == t.to_multiset().count(x) - 1);
        } else {
            assert(s.to_multiset().count(y) == t.to_multiset().count(y));
        }
    }
}

/// Sorts the vector of latencies ascending.
pub fn sort_u64(v: &mut Vec<u64>)
    ensures
        final(v)@ == old(v)@.sort_by(u64_le()),
{
    let ghost input = old(v)@;
    let mut out: Vec<u64> = Vec::new();
    let mut k: usize = 0;
    proof {
        assert(out@ =~= input.take(0));
    }
    while k < v.len()
        invariant
            v@ == input,
            k <= input.len(),
            sorted_by(out@, u64_le()),
            out@.to_multiset() == input.take(k as int).to_multiset(),
        decreases input.len() - k,
    {
        let x = v[k];
        let mut pos: usize = 0;
        while pos < out.len() && out[pos] <= x
            invariant
                pos <= out@.len(),
                forall|j: int| 0 <= j < pos ==> out@[j] <= x,
            decreases out@.len() - pos,
        {
            pos = pos + 1;
        }
        let ghost before = out@;
        out.insert(pos, x);
        proof {
            assert(out@ =~= before.insert(pos as int, x));
            lemma_insert_to_multiset(before, pos as int, x);
            assert forall|i: int, j: int| 0 <= i < j < out@.len() implies u64_le()(
                out@[i],
                out@[j],
            ) by {
                assert(out@ =~= before.take(pos as int) + seq![x] + before.skip(pos as int));
                if i < pos && j < pos {
                    assert(u64_le()(before[i], before[j]));
                } else if i < pos && j == pos {
                    assert(out@[i] == before[i]);
                } else if i < pos && j > pos {
                    assert(u64_le()(before[i], before[j - 1]) || i == j - 1);
                    assert(out@[j] == before[j - 1]);
                } else if i == pos && j > pos {
                    assert(out@[j] == before[j - 1]);
                    assert(j - 1 < before.len());
                    assert(pos < before.len());
                    assert(!(before[pos as int] <= x));
                    if pos < j - 1 {
                        assert(u64_le()(before[pos as int], before[j - 1]));
                    }
                    assert(x <= before[j - 1]);
                } else {
                    assert(i > pos);
                    assert(u64_le()(before[i - 1], before[j - 1]));
                    assert(out@[i] == before[i - 1] && out@[j] == before[j - 1]);
                }
            }
            assert(input.take(k + 1) =~= input.take(k as int).push(input[k as int]));
            broadcast use vstd::seq_lib::group_to_multiset_ensures;
        }
        k = k + 1;
    }
    proof {
        assert(input.take(input.len() as int) =~= input);
        input.lemma_sort_by_ensures(u64_le());
        lemma_u64_le_total_ordering();
        lemma_sorted_unique(out@, input.sort_by(u64_le()), u64_le());
    }
    *v = out;
}

/// The median of a multiset of latencies: the middle element of the sorted
/// sequence for an odd count, the truncating integer average of the two
/// middle elements for an even count, and zero for an empty multiset.
pub open spec fn median_of(s: Seq<u64>) -> u64 {
    if s.len() == 0 {
        0u64
    } else {
        let t = s.sort_by(u64_le());
        let m = s.len() as int / 2;
        if s.len() % 2 == 1 {
            t[m]
        } else {
            (((t[m - 1] as int) + (t[m] as int)) / 2) as u64
        }
    }
}

/// Sorts the observations ascending and returns their median.
pub fn median(values: &mut Vec<u64>) -> (r: u64)
    ensures
        final(values)@ == old(values)@.sort_by(u64_le()),
        r == median_of(old(values)@),
{
    let ghost input = old(values)@;
    if values.len() == 0 {
        proof {
            broadcast use vstd::seq_lib::group_to_multiset_ensures;

            input.lemma_sort_by_ensures(u64_le());
            assert(input.to_multiset().len() == 0);
            assert(input.sort_by(u64_le()).to_multiset().len() == 0);
            assert(input.sort_by(u64_le()).len() == 0);
            assert(input.sort_by(u64_le()) =~= input);
        }
        return 0;
    }
    sort_u64(values);
    proof {
        broadcast use vstd::seq_lib::group_to_multiset_ensures;

        input.lemma_sort_by_ensures(u64_le());
        lemma_u64_le_total_ordering();
        assert(values@.to_multiset().len() == input.to_multiset().len());
        assert(values@.len() == input.len());
    }
    let len = values.len();
    let middle = len / 2;
    if len % 2 == 1 {
        values[middle]
    } else {
        proof {
            assert(len >= 2);
            assert(middle >= 1);
        }
        let a = values[middle - 1];
        let b = values[middle];
        proof {
            let t = input.sort_by(u64_le());
            assert(u64_le()(t[middle - 1], t[middle as int]));
            assert(a <= b);
            let d = b - a;
            assert((a as int + b as int) / 2 == a as int + (d as int) / 2) by (nonlinear_arith)
                requires
                    a <= b,
                    d == b - a,
            ;
        }
        a + (b - a) / 2
    }
}

} // verus!
