//! Lexicographic ordering of byte strings.
//!
//! Activity labels are byte strings; the edge ordering of the graph encoder
//! breaks ties lexicographically, and node listings are emitted in ascending
//! lexicographic order.  This module defines that order on `Seq<u8>`, proves
//! it total, and provides the executable comparison.

use vstd::prelude::*;
use vstd::relations::{sorted_by, total_ordering};

verus! {

/// Lexicographic "less than or equal" on byte sequences: a proper prefix
/// precedes its extensions, otherwise the first differing byte decides.
pub open spec fn lex_le(a: Seq<u8>, b: Seq<u8>) -> bool
    decreases a.len(),
{
    if a.len() == 0 {
        true
    } else if b.len() == 0 {
        false
    } else if a[0] < b[0] {
        true
    } else if a[0] > b[0] {
        false
    } else {
        lex_le(a.drop_first(), b.drop_first())
    }
}

pub proof fn lemma_lex_le_reflexive(a: Seq<u8>)
    ensures
        lex_le(a, a),
    decreases a.len(),
{
    if a.len() > 0 {
        lemma_lex_le_reflexive(a.drop_first());
    }
}

pub proof fn lemma_lex_le_connected(a: Seq<u8>, b: Seq<u8>)
    ensures
        lex_le(a, b) || lex_le(b, a),
    decreases a.len(),
{
    if a.len() > 0 && b.len() > 0 && a[0] == b[0] {
        lemma_lex_le_connected(a.drop_first(), b.drop_first());
    }
}

pub proof fn lemma_lex_le_antisymmetric(a: Seq<u8>, b: Seq<u8>)
    requires
        lex_le(a, b),
        lex_le(b, a),
    ensures
        a == b,
    decreases a.len(),
{
    if a.len() == 0 {
        assert(b.len() == 0);
        assert(a =~= b);
    } else {
        assert(b.len() > 0);
        assert(a[0] == b[0]);
        lemma_lex_le_antisymmetric(a.drop_first(), b.drop_first());
        assert(a =~= seq![a[0]] + a.drop_first());
        assert(b =~= seq![b[0]] + b.drop_first());
    }
}

pub proof fn lemma_lex_le_transitive(a: Seq<u8>, b: Seq<u8>, c: Seq<u8>)
    requires
        lex_le(a, b),
        lex_le(b, c),
    ensures
        lex_le(a, c),
    decreases a.len(),
{
    if a.len() > 0 && b.len() > 0 && c.len() > 0 && a[0] == b[0] && b[0] == c[0] {
        lemma_lex_le_transitive(a.drop_first(), b.drop_first(), c.drop_first());
    }
}

/// The lexicographic order is a total order, in the sense of
/// `vstd::relations::total_ordering`.
pub proof fn lemma_lex_le_total_ordering()
    ensures
        total_ordering(lex_le_fn()),
{
    let leq = lex_le_fn();
    assert forall|a: Seq<u8>| #[trigger] leq(a, a) by {
        lemma_lex_le_reflexive(a);
    }
    assert forall|a: Seq<u8>, b: Seq<u8>| #[trigger] leq(a, b) && #[trigger] leq(b, a)
        implies a == b by {
        lemma_lex_le_antisymmetric(a, b);
    }
    assert forall|a: Seq<u8>, b: Seq<u8>, c: Seq<u8>|
        #[trigger] leq(a, b) && #[trigger] leq(b, c) implies leq(a, c) by {
        lemma_lex_le_transitive(a, b, c);
    }
    assert forall|a: Seq<u8>, b: Seq<u8>| #![trigger leq(a, b)] true implies leq(a, b) || leq(
        b,
        a,
    ) by {
        lemma_lex_le_connected(a, b);
    }
}

/// Executable lexicographic comparison of two byte strings.
pub fn bytes_le(a: &Vec<u8>, b: &Vec<u8>) -> (r: bool)
    ensures
        r == lex_le(a@, b@),
{
    let mut i: usize = 0;
    proof {
        assert(a@.skip(0) =~= a@);
        assert(b@.skip(0) =~= b@);
    }
    loop
        invariant
            i <= a@.len(),
            i <= b@.len(),
            lex_le(a@, b@) == lex_le(a@.skip(i as int), b@.skip(i as int)),
        decreases a@.len() - i,
    {
        if i == a.len() {
            proof {
                assert(a@.skip(i as int).len() == 0);
            }
            return true;
        }
        if i == b.len() {
            proof {
                assert(b@.skip(i as int).len() == 0);
                assert(a@.skip(i as int).len() > 0);
            }
            return false;
        }
        let x = a[i];
        let y = b[i];
        proof {
            let sa = a@.skip(i as int);
            let sb = b@.skip(i as int);
            assert(sa[0] == a@[i as int]);
            assert(sb[0] == b@[i as int]);
            assert(sa.drop_first() =~= a@.skip(i + 1));
            assert(sb.drop_first() =~= b@.skip(i + 1));
        }
        if x < y {
            return true;
        }
        if x > y {
            return false;
        }
        i = i + 1;
    }
}

/// The byte-string views of a sequence of byte vectors.
pub open spec fn labels_view(s: Seq<Vec<u8>>) -> Seq<Seq<u8>> {
    s.map(|i: int, v: Vec<u8>| v@)
}

/// The lexicographic order as a relation value, for use with `sort_by`.
pub open spec fn lex_le_fn() -> spec_fn(Seq<u8>, Seq<u8>) -> bool {
    |a: Seq<u8>, b: Seq<u8>| lex_le(a, b)
}

/// Sorts byte strings into ascending lexicographic order.
pub fn sort_labels(v: &mut Vec<Vec<u8>>)
    ensures
        labels_view(final(v)@) == labels_view(old(v)@).sort_by(lex_le_fn()),
{
    let ghost input = labels_view(old(v)@);
    let mut out: Vec<Vec<u8>> = Vec::new();
    let mut k: usize = 0;
    proof {
        assert(labels_view(out@) =~= input.take(0));
    }
    while k < v.len()
        invariant
            labels_view(v@) == input,
            v@.len() == input.len(),
            k <= input.len(),
            sorted_by(labels_view(out@), lex_le_fn()),
            labels_view(out@).to_multiset() == input.take(k as int).to_multiset(),
        decreases input.len() - k,
    {
        let x = copy_label(&v[k]);
        let ghost xv = x@;
        proof {
            assert(input[k as int] == v@[k as int]@);
        }
        let mut pos: usize = 0;
        while pos < out.len() && bytes_le(&out[pos], &x)
            invariant
                pos <= out@.len(),
                forall|j: int| 0 <= j < pos ==> lex_le((#[trigger] out@[j])@, xv),
                x@ == xv,
            decreases out@.len() - pos,
        {
            pos = pos + 1;
        }
        let ghost before = labels_view(out@);
        out.insert(pos, x);
        proof {
            assert(labels_view(out@) =~= before.insert(pos as int, xv));
            crate::stats::lemma_insert_to_multiset(before, pos as int, xv);
            let now = labels_view(out@);
            assert forall|i: int, j: int| 0 <= i < j < now.len() implies lex_le_fn()(
                now[i],
                now[j],
            ) by {
                assert(now =~= before.take(pos as int) + seq![xv] + before.skip(pos as int));
                if i < pos && j < pos {
                    assert(lex_le_fn()(before[i], before[j]));
                } else if i < pos && j == pos {
                    assert(now[i] == before[i]);
                    assert(lex_le(before[i], xv));
                } else if i < pos && j > pos {
                    assert(lex_le_fn()(before[i], before[j - 1]) || i == j - 1);
                    assert(now[j] == before[j - 1]);
                    if i == j - 1 {
                        lemma_lex_le_reflexive(before[i]);
                    }
                } else if i == pos && j > pos {
                    assert(now[j] == before[j - 1]);
                    assert(pos < before.len());
                    assert(!lex_le(before[pos as int], xv));
                    lemma_lex_le_connected(before[pos as int], xv);
                    assert(lex_le(xv, before[pos as int]));
                    if pos < j - 1 {
                        assert(lex_le_fn()(before[pos as int], before[j - 1]));
                        lemma_lex_le_transitive(xv, before[pos as int], before[j - 1]);
                    }
                    assert(lex_le(xv, before[j - 1]));
                } else {
                    assert(i > pos);
                    assert(lex_le_fn()(before[i - 1], before[j - 1]));
                    assert(now[i] == before[i - 1] && now[j] == before[j - 1]);
                }
            }
            assert(input.take(k + 1) =~= input.take(k as int).push(input[k as int]));
            broadcast use vstd::seq_lib::group_to_multiset_ensures;
        }
        k = k + 1;
    }
    proof {
        assert(input.take(input.len() as int) =~= input);
        lemma_lex_le_total_ordering();
        input.lemma_sort_by_ensures(lex_le_fn());
        vstd::seq_lib::lemma_sorted_unique(
            labels_view(out@),
            input.sort_by(lex_le_fn()),
            lex_le_fn(),
        );
    }
    *v = out;
}

/// Copies a byte string.
pub fn copy_label(v: &Vec<u8>) -> (r: Vec<u8>)
    ensures
        r@ == v@,
{
    let mut r: Vec<u8> = Vec::new();
    let mut i: usize = 0;
    while i < v.len()
        invariant
            i <= v@.len(),
            r@ == v@.take(i as int),
        decreases v@.len() - i,
    {
        r.push(v[i]);
        proof {
            assert(v@.take(i + 1) =~= v@.take(i as int).push(v@[i as int]));
        }
        i = i + 1;
    }
    proof {
        assert(v@.take(v@.len() as int) =~= v@);
    }
    r
}

/// Executable equality of two byte strings.
pub fn bytes_eq(a: &Vec<u8>, b: &Vec<u8>) -> (r: bool)
    ensures
        r == (a@ == b@),
{
    if a.len() != b.len() {
        return false;
    }
    let mut i: usize = 0;
    while i < a.len()
        invariant
            a@.len() == b@.len(),
            i <= a@.len(),
            forall|j: int| 0 <= j < i ==> a@[j] == b@[j],
        decreases a@.len() - i,
    {
        if a[i] != b[i] {
            return false;
        }
        i = i + 1;
    }
    proof {
        assert(a@ =~= b@);
    }
    true
}

} // verus!
