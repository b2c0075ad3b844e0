//! Encoding of the aggregated relation as a bounded graph description.
//!
//! Edges are ranked by descending weight with a lexicographic tie-break and
//! at most thirty are retained.  Every retained edge gets a pen width scaled
//! linearly into `[1.0, 2.6]`, in fixed-point micro units to keep the
//! computation exact; every retained activity gets a fill color whose shared
//! red and green channel is scaled linearly from its activity weight.

use vstd::prelude::*;
use vstd::arithmetic::div_mod::{lemma_div_is_ordered, lemma_div_multiples_vanish};
use vstd::relations::{sorted_by, total_ordering};
use vstd::seq_lib::lemma_sorted_unique;

use crate::dfg::DfgActivities;
use crate::order::{
    bytes_eq, bytes_le, copy_label, lemma_lex_le_antisymmetric, lemma_lex_le_connected,
    lemma_lex_le_reflexive, lemma_lex_le_total_ordering, lemma_lex_le_transitive, lex_le,
    lex_le_fn,
};

verus! {

/// The greatest number of edges the encoder retains.
pub const EDGE_CAP: usize = 30;

/// The view of an edge list: label pair and summarized weight.
pub open spec fn entries_view(s: Seq<(DfgActivities, u64)>) -> Seq<((Seq<u8>, Seq<u8>), u64)> {
    s.map(|i: int, e: (DfgActivities, u64)| ((e.0.act1@, e.0.act2@), e.1))
}

/// The ranking order of edges: descending weight, ties broken by descending
/// first label, then by descending second label.
pub open spec fn edge_before(a: ((Seq<u8>, Seq<u8>), u64), b: ((Seq<u8>, Seq<u8>), u64)) -> bool {
    ||| a.1 > b.1
    ||| (a.1 == b.1 && a.0.0 != b.0.0 && !lex_le(a.0.0, b.0.0))
    ||| (a.1 == b.1 && a.0.0 == b.0.0 && lex_le(b.0.1, a.0.1))
}

/// The ranking order as a relation value, for use with `sort_by`.
pub open spec fn edge_le_fn() -> spec_fn(
    ((Seq<u8>, Seq<u8>), u64),
    ((Seq<u8>, Seq<u8>), u64),
) -> bool {
    |a: ((Seq<u8>, Seq<u8>), u64), b: ((Seq<u8>, Seq<u8>), u64)| edge_before(a, b)
}

/// The edge ranking is a total order.
pub proof fn lemma_edge_order_total()
    ensures
        total_ordering(edge_le_fn()),
{
    let leq = edge_le_fn();
    assert forall|a: ((Seq<u8>, Seq<u8>), u64)| #[trigger] leq(a, a) by {
        lemma_lex_le_reflexive(a.0.1);
    }
    assert forall|a: ((Seq<u8>, Seq<u8>), u64), b: ((Seq<u8>, Seq<u8>), u64)|
        #[trigger] leq(a, b) && #[trigger] leq(b, a) implies a == b by {
        if a.1 == b.1 {
            if a.0.0 != b.0.0 {
                lemma_lex_le_connected(a.0.0, b.0.0);
            } else {
                lemma_lex_le_antisymmetric(a.0.1, b.0.1);
                assert(a.0.1 == b.0.1);
                assert(a.0 == b.0);
            }
        }
    }
    assert forall|a: ((Seq<u8>, Seq<u8>), u64), b: ((Seq<u8>, Seq<u8>), u64), c: (
        (Seq<u8>, Seq<u8>),
        u64,
    )| #[trigger] leq(a, b) && #[trigger] leq(b, c) implies leq(a, c) by {
        if a.1 == b.1 && b.1 == c.1 {
            lemma_lex_le_connected(a.0.0, b.0.0);
            lemma_lex_le_connected(b.0.0, c.0.0);
            lemma_lex_le_connected(a.0.0, c.0.0);
            if a.0.0 == b.0.0 && b.0.0 == c.0.0 {
                lemma_lex_le_transitive(c.0.1, b.0.1, a.0.1);
            } else if a.0.0 == b.0.0 {
                // b before c by first label; a shares b's first label
            } else if b.0.0 == c.0.0 {
            } else {
                // both steps strict on the first label
                if a.0.0 == c.0.0 {
                    lemma_lex_le_transitive(a.0.0, c.0.0, b.0.0);
                    lemma_lex_le_antisymmetric(a.0.0, b.0.0);
                } else {
                    if lex_le(a.0.0, c.0.0) {
                        lemma_lex_le_transitive(a.0.0, c.0.0, b.0.0);
                        lemma_lex_le_antisymmetric(a.0.0, b.0.0);
                    }
                }
            }
        }
    }
    assert forall|a: ((Seq<u8>, Seq<u8>), u64), b: ((Seq<u8>, Seq<u8>), u64)|
        #![trigger leq(a, b)]
        true implies leq(a, b) || leq(b, a) by {
        lemma_edge_connected(a, b);
    }
}

/// Any two edges are comparable under the ranking order.
pub proof fn lemma_edge_connected(a: ((Seq<u8>, Seq<u8>), u64), b: ((Seq<u8>, Seq<u8>), u64))
    ensures
        edge_before(a, b) || edge_before(b, a),
{
    if a.1 == b.1 {
        if a.0.0 != b.0.0 {
            lemma_lex_le_connected(a.0.0, b.0.0);
            lemma_lex_le_antisymmetric_hint(a.0.0, b.0.0);
        } else {
            lemma_lex_le_connected(a.0.1, b.0.1);
        }
    }
}

/// Executable edge ranking comparison.
pub fn edge_before_exec(a: &(DfgActivities, u64), b: &(DfgActivities, u64)) -> (r: bool)
    ensures
        r == edge_before(((a.0.act1@, a.0.act2@), a.1), ((b.0.act1@, b.0.act2@), b.1)),
{
    if a.1 != b.1 {
        a.1 > b.1
    } else if !bytes_eq(&a.0.act1, &b.0.act1) {
        proof {
            lemma_lex_le_connected(a.0.act1@, b.0.act1@);
            lemma_lex_le_antisymmetric_hint(a.0.act1@, b.0.act1@);
        }
        !bytes_le(&a.0.act1, &b.0.act1)
    } else {
        bytes_le(&b.0.act2, &a.0.act2)
    }
}

proof fn lemma_lex_le_antisymmetric_hint(a: Seq<u8>, b: Seq<u8>)
    ensures
        lex_le(a, b) && lex_le(b, a) ==> a == b,
{
    if lex_le(a, b) && lex_le(b, a) {
        lemma_lex_le_antisymmetric(a, b);
    }
}

/// Sorts an edge list into ranking order.
pub fn sort_entries(v: &mut Vec<(DfgActivities, u64)>)
    ensures
        entries_view(final(v)@) == entries_view(old(v)@).sort_by(edge_le_fn()),
        final(v)@.len() == old(v)@.len(),
{
    let ghost input = entries_view(old(v)@);
    let mut out: Vec<(DfgActivities, u64)> = Vec::new();
    let mut k: usize = 0;
    proof {
        assert(entries_view(out@) =~= input.take(0));
    }
    while k < v.len()
        invariant
            entries_view(v@) == input,
            v@.len() == input.len(),
            k <= input.len(),
            sorted_by(entries_view(out@), edge_le_fn()),
            entries_view(out@).to_multiset() == input.take(k as int).to_multiset(),
            out@.len() + (input.len() - k) == input.len(),
        decreases input.len() - k,
    {
        let x = (
            DfgActivities { act1: copy_label(&v[k].0.act1), act2: copy_label(&v[k].0.act2) },
            v[k].1,
        );
        let ghost xv = ((x.0.act1@, x.0.act2@), x.1);
        proof {
            assert(input[k as int] == xv);
        }
        let mut pos: usize = 0;
        while pos < out.len() && edge_before_exec(&out[pos], &x)
            invariant
                pos <= out@.len(),
                forall|j: int|
                    0 <= j < pos ==> edge_before(#[trigger] entries_view(out@)[j], xv),
                xv == ((x.0.act1@, x.0.act2@), x.1),
            decreases out@.len() - pos,
        {
            pos = pos + 1;
        }
        let ghost before = entries_view(out@);
        out.insert(pos, x);
        proof {
            assert(entries_view(out@) =~= before.insert(pos as int, xv));
            crate::stats::lemma_insert_to_multiset(before, pos as int, xv);
            lemma_edge_order_total();
            let now = entries_view(out@);
            assert forall|i: int, j: int| 0 <= i < j < now.len() implies edge_le_fn()(
                now[i],
                now[j],
            ) by {
                assert(now =~= before.take(pos as int) + seq![xv] + before.skip(pos as int));
                if i < pos && j < pos {
                    assert(edge_le_fn()(before[i], before[j]));
                } else if i < pos && j == pos {
                    assert(now[i] == before[i]);
                    assert(edge_before(before[i], xv));
                } else if i < pos && j > pos {
                    assert(edge_le_fn()(before[i], before[j - 1]) || i == j - 1);
                    assert(now[j] == before[j - 1]);
                } else if i == pos && j > pos {
                    assert(now[j] == before[j - 1]);
                    assert(pos < before.len());
                    assert(!edge_before(before[pos as int], xv));
                    lemma_edge_connected(before[pos as int], xv);
                    assert(edge_le_fn()(xv, before[pos as int]));
                    if pos < j - 1 {
                        assert(edge_le_fn()(before[pos as int], before[j - 1]));
                    }
                    assert(edge_before(xv, before[j - 1]));
                } else {
                    assert(i > pos);
                    assert(edge_le_fn()(before[i - 1], before[j - 1]));
                    assert(now[i] == before[i - 1] && now[j] == before[j - 1]);
                }
            }
            assert(input.take(k + 1) =~= input.take(k as int).push(input[k as int]));
            broadcast use vstd::seq_lib::group_to_multiset_ensures;
        }
        k = k + 1;
    }
    proof {
        assert(input.take(input.len() as int) =~= input);
        lemma_edge_order_total();
        input.lemma_sort_by_ensures(edge_le_fn());
        lemma_sorted_unique(entries_view(out@), input.sort_by(edge_le_fn()), edge_le_fn());
        broadcast use vstd::seq_lib::group_to_multiset_ensures;

        assert(entries_view(out@).len() == out@.len());
        assert(entries_view(out@).to_multiset().len() == input.to_multiset().len());
    }
    *v = out;
}

/// The least element of a weight sequence (zero when empty).
pub open spec fn seq_u64_min(s: Seq<u64>) -> u64
    decreases s.len(),
{
    if s.len() == 0 {
        0u64
    } else if s.len() == 1 {
        s[0]
    } else {
        let m = seq_u64_min(s.drop_last());
        if s.last() < m {
            s.last()
        } else {
            m
        }
    }
}

/// The greatest element of a weight sequence (zero when empty).
pub open spec fn seq_u64_max(s: Seq<u64>) -> u64
    decreases s.len(),
{
    if s.len() == 0 {
        0u64
    } else if s.len() == 1 {
        s[0]
    } else {
        let m = seq_u64_max(s.drop_last());
        if s.last() > m {
            s.last()
        } else {
            m
        }
    }
}

/// Every element lies between the minimum and the maximum.
pub proof fn lemma_seq_u64_min_max(s: Seq<u64>)
    ensures
        forall|i: int| 0 <= i < s.len() ==> seq_u64_min(s) <= #[trigger] s[i],
        forall|i: int| 0 <= i < s.len() ==> #[trigger] s[i] <= seq_u64_max(s),
    decreases s.len(),
{
    if s.len() > 1 {
        lemma_seq_u64_min_max(s.drop_last());
        assert forall|i: int| 0 <= i < s.len() implies seq_u64_min(s) <= #[trigger] s[i]
            && s[i] <= seq_u64_max(s) by {
            if i < s.len() - 1 {
                assert(s.drop_last()[i] == s[i]);
            }
        }
    }
}

/// The pen width of a retained edge, in millionths: weight `w` scaled
/// linearly from `[lo, hi]` onto `[1.0, 2.6]`, with a guard term that sends
/// every weight to `1.0` when all weights are equal.
pub open spec fn penwidth_micros(w: int, lo: int, hi: int) -> int
    recommends
        0 <= lo <= w <= hi,
{
    1000000 + (1600000 * (w - lo) * 100000) / ((hi - lo) * 100000 + 1)
}

/// Pen widths lie in `[1.0, 2.6]`; the minimum weight maps to exactly
/// `1.0`, and the maximum weight maps to `2.6` up to a deficiency of at
/// most sixteen millionths introduced by the guard term.
pub proof fn lemma_penwidth_bounds(w: int, lo: int, hi: int)
    requires
        0 <= lo <= w <= hi,
    ensures
        1000000 <= penwidth_micros(w, lo, hi) <= 2600000,
        w == lo ==> penwidth_micros(w, lo, hi) == 1000000,
        w == hi && lo < hi ==> penwidth_micros(w, lo, hi) >= 2600000 - 16,
{
    let n = w - lo;
    let d = hi - lo;
    let num = 1600000 * n * 100000;
    let den = d * 100000 + 1;
    assert(den >= 1);
    assert(num >= 0) by (nonlinear_arith)
        requires
            n >= 0,
            num == 1600000 * n * 100000,
    ;
    assert(num / den >= 0) by {
        lemma_div_is_ordered(0, num, den);
        assert(0int / den == 0) by {
            lemma_div_multiples_vanish(0, den);
        }
    }
    assert(num <= 1600000 * (den - 1)) by (nonlinear_arith)
        requires
            0 <= n <= d,
            num == 1600000 * n * 100000,
            den == d * 100000 + 1,
    ;
    assert(num / den <= 1600000) by {
        lemma_div_is_ordered(num, 1600000 * den, den);
        lemma_div_multiples_vanish(1600000, den);
        assert(num <= 1600000 * den);
        assert((den * 1600000) / den == 1600000);
        assert(1600000 * den == den * 1600000);
    }
    if w == lo {
        assert(num == 0) by (nonlinear_arith)
            requires
                n == 0,
                num == 1600000 * n * 100000,
        ;
        assert(0int / den == 0) by {
            lemma_div_multiples_vanish(0, den);
        }
    }
    if w == hi && lo < hi {
        assert(num == 1600000 * den - 1600000) by (nonlinear_arith)
            requires
                n == d,
                d >= 1,
                num == 1600000 * n * 100000,
                den == d * 100000 + 1,
        ;
        assert(den >= 100001);
        let x = 1600000 - 16;
        assert(x * den <= num) by (nonlinear_arith)
            requires
                den >= 100001,
                num == 1600000 * den - 1600000,
                x == 1600000 - 16,
        ;
        assert(num / den >= x) by {
            lemma_div_is_ordered(x * den, num, den);
            lemma_div_multiples_vanish(x, den);
            assert((den * x) / den == x);
            assert(x * den == den * x);
        }
    }
}

/// Executable pen width computation.
pub fn penwidth_value(w: u64, lo: u64, hi: u64) -> (r: u64)
    requires
        lo <= w <= hi,
    ensures
        r == penwidth_micros(w as int, lo as int, hi as int),
{
    proof {
        lemma_penwidth_bounds(w as int, lo as int, hi as int);
    }
    let num: u128 = 1600000u128 * ((w - lo) as u128) * 100000u128;
    let den: u128 = ((hi - lo) as u128) * 100000u128 + 1;
    let q: u128 = num / den;
    proof {
        assert(num == 1600000 * ((w - lo) as int) * 100000) by (nonlinear_arith)
            requires
                num == 1600000u128 * ((w - lo) as u128) * 100000u128,
                (w - lo) as u128 == (w - lo) as int,
        ;
        assert(q == (1600000 * ((w as int) - (lo as int)) * 100000) / (((hi as int) - (
        lo as int)) * 100000 + 1));
        assert(q <= 1600000);
    }
    1000000 + (q as u64)
}

/// The rounded color scale of an activity weight: `100 * (w - lo) /
/// (hi - lo + epsilon)`, rounded to the nearest integer.
pub open spec fn color_scale(w: int, lo: int, hi: int) -> int
    recommends
        0 <= lo <= w <= hi,
{
    (2 * (10000000 * (w - lo)) + ((hi - lo) * 100000 + 1)) / (2 * ((hi - lo) * 100000 + 1))
}

/// The shared red and green channel of an activity's fill color.
pub open spec fn color_channel(w: int, lo: int, hi: int) -> int
    recommends
        0 <= lo <= w <= hi,
{
    255 - color_scale(w, lo, hi)
}

/// Color channels lie in `[155, 255]`: the scale is at most `100`.
pub proof fn lemma_color_channel_bounds(w: int, lo: int, hi: int)
    requires
        0 <= lo <= w <= hi,
    ensures
        0 <= color_scale(w, lo, hi) <= 100,
        155 <= color_channel(w, lo, hi) <= 255,
{
    let n = w - lo;
    let d = hi - lo;
    let a = 10000000 * n;
    let b = d * 100000 + 1;
    assert(b >= 1);
    assert(a >= 0) by (nonlinear_arith)
        requires
            n >= 0,
            a == 10000000 * n,
    ;
    assert(2 * a + b >= 0);
    assert(color_scale(w, lo, hi) == (2 * a + b) / (2 * b));
    assert((2 * a + b) / (2 * b) >= 0) by {
        lemma_div_is_ordered(0, 2 * a + b, 2 * b);
        lemma_div_multiples_vanish(0, 2 * b);
    }
    assert(2 * a + b <= 100 * (2 * b) + 2 * b - 1) by (nonlinear_arith)
        requires
            0 <= n <= d,
            a == 10000000 * n,
            b == d * 100000 + 1,
    ;
    assert((2 * a + b) / (2 * b) <= 100) by {
        lemma_div_is_ordered(2 * a + b, 101 * (2 * b) - 1, 2 * b);
        assert(101 * (2 * b) - 1 == (2 * b) * 101 + (-1));
        lemma_div_101(b);
    }
}

proof fn lemma_div_101(b: int)
    requires
        b >= 1,
    ensures
        ((2 * b) * 101 + (-1)) / (2 * b) == 100,
{
    vstd::arithmetic::div_mod::lemma_fundamental_div_mod_converse(
        (2 * b) * 101 + (-1),
        2 * b,
        100,
        2 * b - 1,
    );
}

/// Executable color scale computation.
pub fn color_channel_value(w: u64, lo: u64, hi: u64) -> (r: u8)
    requires
        lo <= w <= hi,
    ensures
        r == color_channel(w as int, lo as int, hi as int),
{
    proof {
        lemma_color_channel_bounds(w as int, lo as int, hi as int);
    }
    let a: u128 = 10000000u128 * ((w - lo) as u128);
    let b: u128 = ((hi - lo) as u128) * 100000u128 + 1;
    let q: u128 = (2 * a + b) / (2 * b);
    proof {
        assert(a == 10000000 * ((w as int) - (lo as int)));
        assert(q == color_scale(w as int, lo as int, hi as int));
    }
    255 - (q as u8)
}

/// A hexadecimal digit, upper case.
pub open spec fn hex_digit(d: int) -> u8
    recommends
        0 <= d < 16,
{
    if d < 10 {
        (48 + d) as u8
    } else {
        (55 + d) as u8
    }
}

/// A fill color: `#` followed by the channel twice in hexadecimal and a
/// fixed blue channel of `FF`.
pub open spec fn color_bytes(c: int) -> Seq<u8>
    recommends
        0 <= c < 256,
{
    seq![
        35u8,
        hex_digit(c / 16),
        hex_digit(c % 16),
        hex_digit(c / 16),
        hex_digit(c % 16),
        70u8,
        70u8,
    ]
}

/// Builds the fill color string of a channel value.
pub fn make_color(c: u8) -> (v: Vec<u8>)
    ensures
        v@ == color_bytes(c as int),
{
    let hi = c / 16;
    let lo = c % 16;
    let hi_digit: u8 = if hi < 10 {
        48 + hi
    } else {
        55 + hi
    };
    let lo_digit: u8 = if lo < 10 {
        48 + lo
    } else {
        55 + lo
    };
    let mut v: Vec<u8> = Vec::new();
    v.push(35);
    v.push(hi_digit);
    v.push(lo_digit);
    v.push(hi_digit);
    v.push(lo_digit);
    v.push(70);
    v.push(70);
    proof {
        assert(v@ =~= color_bytes(c as int));
    }
    v
}

/// The decimal digits of a non-negative number.
pub open spec fn dec_digits(n: int) -> Seq<u8>
    recommends
        n >= 0,
    decreases n,
{
    if n < 10 {
        seq![(48 + if n >= 0 {
            n
        } else {
            0int
        }) as u8]
    } else {
        dec_digits(n / 10).push((48 + n % 10) as u8)
    }
}

/// Renders a number in decimal.
pub fn u64_to_dec(n: u64) -> (v: Vec<u8>)
    ensures
        v@ == dec_digits(n as int),
    decreases n,
{
    if n < 10 {
        let mut v: Vec<u8> = Vec::new();
        v.push(48 + (n as u8));
        proof {
            assert(v@ =~= dec_digits(n as int));
        }
        v
    } else {
        let mut v = u64_to_dec(n / 10);
        v.push(48 + ((n % 10) as u8));
        v
    }
}

/// The summarized edge list of the gathered mapping: each pair with its
/// single summarized weight (zero if a latency list were empty).
pub open spec fn summarized_entries(m: Seq<((Seq<u8>, Seq<u8>), Seq<u64>)>) -> Seq<
    ((Seq<u8>, Seq<u8>), u64),
> {
    m.map(
        |i: int, e: ((Seq<u8>, Seq<u8>), Seq<u64>)|
            (
                e.0,
                if e.1.len() > 0 {
                    e.1[0]
                } else {
                    0u64
                },
            ),
    )
}

/// The weights of an edge list.
pub open spec fn entry_weights(s: Seq<((Seq<u8>, Seq<u8>), u64)>) -> Seq<u64> {
    s.map(|i: int, e: ((Seq<u8>, Seq<u8>), u64)| e.1)
}

/// The endpoint labels of an edge list, source before target, edge by edge.
pub open spec fn edge_endpoint_labels(s: Seq<((Seq<u8>, Seq<u8>), u64)>) -> Seq<Seq<u8>>
    decreases s.len(),
{
    if s.len() == 0 {
        Seq::empty()
    } else {
        edge_endpoint_labels(s.drop_last()) + seq![s.last().0.0, s.last().0.1]
    }
}

/// The position of the first occurrence of `l` in `s`.
pub open spec fn index_in(s: Seq<Seq<u8>>, l: Seq<u8>) -> int
    recommends
        s.contains(l),
    decreases s.len(),
{
    if s.len() == 0 {
        0
    } else if s[0] == l {
        0
    } else {
        1 + index_in(s.drop_first(), l)
    }
}

proof fn lemma_index_in(s: Seq<Seq<u8>>, l: Seq<u8>, j: int)
    requires
        0 <= j < s.len(),
        s[j] == l,
        forall|m: int| 0 <= m < j ==> s[m] != l,
    ensures
        index_in(s, l) == j,
    decreases j,
{
    if j == 0 {
    } else {
        assert(s[0] != l);
        assert forall|m: int| 0 <= m < j - 1 implies s.drop_first()[m] != l by {
            assert(s[m + 1] != l);
        }
        lemma_index_in(s.drop_first(), l, j - 1);
    }
}

/// The summed weight of every edge whose target is `act`.
pub open spec fn edge_weight_sum(s: Seq<((Seq<u8>, Seq<u8>), u64)>, act: Seq<u8>) -> int
    decreases s.len(),
{
    if s.len() == 0 {
        0
    } else {
        edge_weight_sum(s.drop_last(), act) + if s.last().0.1 == act {
            s.last().1 as int
        } else {
            0int
        }
    }
}

/// The count recorded for `act` in a tally, zero when absent.
pub open spec fn tally_count(t: Seq<(Seq<u8>, int)>, act: Seq<u8>) -> int
    decreases t.len(),
{
    if t.len() == 0 {
        0
    } else if t[0].0 == act {
        t[0].1
    } else {
        tally_count(t.drop_first(), act)
    }
}

/// The weight of an activity: the summed weight of every edge targeting it,
/// plus its start tally.
pub open spec fn activity_weight(
    entries: Seq<((Seq<u8>, Seq<u8>), u64)>,
    start: Seq<(Seq<u8>, int)>,
    act: Seq<u8>,
) -> int {
    edge_weight_sum(entries, act) + tally_count(start, act)
}

/// The summed weight of every edge.
pub open spec fn weight_total(s: Seq<((Seq<u8>, Seq<u8>), u64)>) -> int
    decreases s.len(),
{
    if s.len() == 0 {
        0
    } else {
        weight_total(s.drop_last()) + s.last().1 as int
    }
}

/// The summed weight of every edge plus every start tally: an upper bound
/// on any single activity's weight.
pub open spec fn total_weight(
    entries: Seq<((Seq<u8>, Seq<u8>), u64)>,
    start: Seq<(Seq<u8>, int)>,
) -> int {
    weight_total(entries) + crate::dfg::tally_total(start)
}

proof fn lemma_edge_weight_sum_bounds(s: Seq<((Seq<u8>, Seq<u8>), u64)>, act: Seq<u8>)
    ensures
        0 <= edge_weight_sum(s, act) <= weight_total(s),
    decreases s.len(),
{
    if s.len() > 0 {
        lemma_edge_weight_sum_bounds(s.drop_last(), act);
    }
}

proof fn lemma_tally_count_bounds(t: Seq<(Seq<u8>, int)>, act: Seq<u8>)
    requires
        forall|i: int| 0 <= i < t.len() ==> (#[trigger] t[i]).1 >= 0,
    ensures
        0 <= tally_count(t, act) <= crate::dfg::tally_total(t),
    decreases t.len(),
{
    if t.len() > 0 {
        assert forall|i: int| 0 <= i < t.drop_first().len() implies (#[trigger] t.drop_first()[
            i
        ]).1 >= 0 by {
            assert(t[i + 1].1 >= 0);
        }
        lemma_tally_count_bounds(t.drop_first(), act);
        lemma_tally_total_nonneg(t.drop_first());
    }
}

proof fn lemma_tally_total_nonneg(t: Seq<(Seq<u8>, int)>)
    requires
        forall|i: int| 0 <= i < t.len() ==> (#[trigger] t[i]).1 >= 0,
    ensures
        crate::dfg::tally_total(t) >= 0,
    decreases t.len(),
{
    if t.len() > 0 {
        assert forall|i: int| 0 <= i < t.drop_first().len() implies (#[trigger] t.drop_first()[
            i
        ]).1 >= 0 by {
            assert(t[i + 1].1 >= 0);
        }
        lemma_tally_total_nonneg(t.drop_first());
    }
}

proof fn lemma_weight_total_take(s: Seq<((Seq<u8>, Seq<u8>), u64)>, i: int)
    requires
        0 <= i <= s.len(),
    ensures
        weight_total(s.take(i)) <= weight_total(s),
    decreases s.len(),
{
    if i == s.len() {
        assert(s.take(i) =~= s);
    } else {
        assert(s.drop_last().take(i) =~= s.take(i));
        lemma_weight_total_take(s.drop_last(), i);
    }
}

/// An activity's weight never exceeds the total weight.
pub proof fn lemma_activity_weight_bounds(
    entries: Seq<((Seq<u8>, Seq<u8>), u64)>,
    start: Seq<(Seq<u8>, int)>,
    act: Seq<u8>,
)
    requires
        forall|i: int| 0 <= i < start.len() ==> (#[trigger] start[i]).1 >= 0,
    ensures
        0 <= activity_weight(entries, start, act) <= total_weight(entries, start),
{
    lemma_edge_weight_sum_bounds(entries, act);
    lemma_tally_count_bounds(start, act);
}

/// Finds the first occurrence of a label known to be present.
fn find_label(verts: &Vec<Vec<u8>>, l: &Vec<u8>) -> (r: usize)
    requires
        crate::order::labels_view(verts@).contains(l@),
    ensures
        r < verts@.len(),
        verts@[r as int]@ == l@,
        r == index_in(crate::order::labels_view(verts@), l@),
{
    let ghost vs = crate::order::labels_view(verts@);
    let mut j: usize = 0;
    loop
        invariant
            j <= verts@.len(),
            vs == crate::order::labels_view(verts@),
            vs.contains(l@),
            forall|m: int| 0 <= m < j ==> vs[m] != l@,
        decreases verts@.len() - j,
    {
        if j == verts.len() {
            proof {
                let m = choose|m: int| 0 <= m < vs.len() && vs[m] == l@;
                assert(false);
            }
        }
        if bytes_eq(&verts[j], l) {
            proof {
                lemma_index_in(vs, l@, j as int);
            }
            return j;
        }
        j = j + 1;
    }
}

/// Looks a label up, returning its position when present.
fn lookup_label(verts: &Vec<Vec<u8>>, l: &Vec<u8>) -> (r: Option<usize>)
    ensures
        match r {
            Some(j) => {
                &&& crate::order::labels_view(verts@).contains(l@)
                &&& j < verts@.len()
                &&& j == index_in(crate::order::labels_view(verts@), l@)
            },
            None => !crate::order::labels_view(verts@).contains(l@),
        },
{
    let ghost vs = crate::order::labels_view(verts@);
    let mut j: usize = 0;
    while j < verts.len()
        invariant
            j <= verts@.len(),
            vs == crate::order::labels_view(verts@),
            forall|m: int| 0 <= m < j ==> vs[m] != l@,
        decreases verts@.len() - j,
    {
        if bytes_eq(&verts[j], l) {
            proof {
                assert(vs[j as int] == l@);
                assert(vs.contains(l@));
                lemma_index_in(vs, l@, j as int);
            }
            return Some(j);
        }
        j = j + 1;
    }
    proof {
        if vs.contains(l@) {
            let m = choose|m: int| 0 <= m < vs.len() && vs[m] == l@;
            assert(false);
        }
    }
    None
}

/// The least weight of a list.
pub fn seq_min_value(v: &Vec<u64>) -> (r: u64)
    ensures
        r == seq_u64_min(v@),
{
    let mut r: u64 = 0;
    let mut i: usize = 0;
    while i < v.len()
        invariant
            i <= v@.len(),
            r == seq_u64_min(v@.take(i as int)),
        decreases v@.len() - i,
    {
        let x = v[i];
        proof {
            assert(v@.take(i + 1).drop_last() =~= v@.take(i as int));
            assert(v@.take(i + 1).last() == v@[i as int]);
        }
        if i == 0 || x < r {
            r = x;
        }
        proof {
            if i == 0 {
                assert(v@.take(1).len() == 1);
                assert(v@.take(1)[0] == v@[0]);
            }
        }
        i = i + 1;
    }
    proof {
        assert(v@.take(v@.len() as int) =~= v@);
    }
    r
}

/// The greatest weight of a list.
pub fn seq_max_value(v: &Vec<u64>) -> (r: u64)
    ensures
        r == seq_u64_max(v@),
{
    let mut r: u64 = 0;
    let mut i: usize = 0;
    while i < v.len()
        invariant
            i <= v@.len(),
            r == seq_u64_max(v@.take(i as int)),
        decreases v@.len() - i,
    {
        let x = v[i];
        proof {
            assert(v@.take(i + 1).drop_last() =~= v@.take(i as int));
            assert(v@.take(i + 1).last() == v@[i as int]);
        }
        if i == 0 || x > r {
            r = x;
        }
        proof {
            if i == 0 {
                assert(v@.take(1).len() == 1);
                assert(v@.take(1)[0] == v@[0]);
            }
        }
        i = i + 1;
    }
    proof {
        assert(v@.take(v@.len() as int) =~= v@);
    }
    r
}

/// Computes an activity's weight: the summed weight of every edge targeting
/// it plus its start tally.
pub fn activity_weight_value(
    entries: &Vec<(DfgActivities, u64)>,
    start: &Vec<(Vec<u8>, u64)>,
    act: &Vec<u8>,
) -> (r: u64)
    requires
        total_weight(entries_view(entries@), crate::dfg::tally_view(start@)) <= u64::MAX,
    ensures
        r == activity_weight(entries_view(entries@), crate::dfg::tally_view(start@), act@),
{
    let ghost ev = entries_view(entries@);
    let ghost sv = crate::dfg::tally_view(start@);
    proof {
        assert forall|i: int| 0 <= i < sv.len() implies (#[trigger] sv[i]).1 >= 0 by {
            assert(sv[i].1 == start@[i].1 as int);
        }
        lemma_tally_total_nonneg(sv);
        lemma_edge_weight_sum_bounds(ev, act@);
    }
    let mut acc: u64 = 0;
    let mut i: usize = 0;
    while i < entries.len()
        invariant
            i <= ev.len(),
            ev == entries_view(entries@),
            sv == crate::dfg::tally_view(start@),
            acc == edge_weight_sum(ev.take(i as int), act@),
            total_weight(ev, sv) <= u64::MAX,
            forall|m: int| 0 <= m < sv.len() ==> (#[trigger] sv[m]).1 >= 0,
        decreases ev.len() - i,
    {
        proof {
            assert(ev.take(i + 1).drop_last() =~= ev.take(i as int));
            assert(ev.take(i + 1).last() == ev[i as int]);
            lemma_edge_weight_sum_bounds(ev.take(i + 1), act@);
            lemma_weight_total_take(ev, i + 1);
            lemma_tally_total_nonneg(sv);
        }
        if bytes_eq(&entries[i].0.act2, act) {
            acc = acc + entries[i].1;
        }
        i = i + 1;
    }
    proof {
        assert(ev.take(ev.len() as int) =~= ev);
        assert(sv.skip(0) =~= sv);
    }
    let mut j: usize = 0;
    while j < start.len()
        invariant
            j <= sv.len(),
            ev == entries_view(entries@),
            sv == crate::dfg::tally_view(start@),
            acc == edge_weight_sum(ev, act@),
            total_weight(ev, sv) <= u64::MAX,
            forall|m: int| 0 <= m < sv.len() ==> (#[trigger] sv[m]).1 >= 0,
            tally_count(sv, act@) == tally_count(sv.skip(j as int), act@),
        decreases sv.len() - j,
    {
        proof {
            let sk = sv.skip(j as int);
            assert(sk[0] == sv[j as int]);
            assert(sk.drop_first() =~= sv.skip(j + 1));
        }
        if bytes_eq(&start[j].0, act) {
            proof {
                assert(tally_count(sv, act@) == sv[j as int].1);
                lemma_edge_weight_sum_bounds(ev, act@);
                lemma_tally_count_bounds(sv, act@);
            }
            return acc + start[j].1;
        }
        j = j + 1;
    }
    proof {
        assert(sv.skip(sv.len() as int) =~= Seq::<(Seq<u8>, int)>::empty());
    }
    acc
}

/// Appends one byte string to another.
pub fn append_bytes(dst: &mut Vec<u8>, src: &Vec<u8>)
    ensures
        final(dst)@ == old(dst)@ + src@,
{
    let mut i: usize = 0;
    proof {
        assert(dst@ =~= old(dst)@ + src@.take(0));
    }
    while i < src.len()
        invariant
            i <= src@.len(),
            dst@ == old(dst)@ + src@.take(i as int),
        decreases src@.len() - i,
    {
        dst.push(src[i]);
        proof {
            assert(old(dst)@ + src@.take(i + 1) =~= (old(dst)@ + src@.take(i as int)).push(
                src@[i as int],
            ));
        }
        i = i + 1;
    }
    proof {
        assert(src@.take(src@.len() as int) =~= src@);
    }
}

/// A node of the rendered graph: one retained activity.  Rendered with
/// `style=filled`, font size 12 and the default box shape.
#[derive(Debug, PartialEq, Eq)]
pub struct GraphNode {
    pub id: Vec<u8>,
    pub label: Vec<u8>,
    pub fillcolor: Vec<u8>,
}

/// A directed edge of the rendered graph: one retained directly-follows
/// pair, labelled with its weight, font size 12.
#[derive(Debug, PartialEq, Eq)]
pub struct GraphEdge {
    pub from: Vec<u8>,
    pub to: Vec<u8>,
    pub label: Vec<u8>,
    pub penwidth_micros: u64,
}

/// An edge from the synthetic start node (a filled circle, font size 34) to
/// a start activity, or from an end activity to the synthetic end node (a
/// double circle, font size 32); the label is the activity's tally.
#[derive(Debug, PartialEq, Eq)]
pub struct PseudoEdge {
    pub node: Vec<u8>,
    pub label: Vec<u8>,
}

/// The bounded, render-ready graph description.  The renderer draws it with
/// a transparent background, non-overlapping layout and box-shaped default
/// nodes; the synthetic start and end nodes exist exactly when their edge
/// lists are non-empty.
#[derive(Debug, PartialEq, Eq)]
pub struct GraphModel {
    pub nodes: Vec<GraphNode>,
    pub edges: Vec<GraphEdge>,
    pub start_edges: Vec<PseudoEdge>,
    pub end_edges: Vec<PseudoEdge>,
}

/// The view of a node list.
pub open spec fn nodes_view(s: Seq<GraphNode>) -> Seq<(Seq<u8>, Seq<u8>, Seq<u8>)> {
    s.map(|i: int, n: GraphNode| (n.id@, n.label@, n.fillcolor@))
}

/// The view of an edge list.
pub open spec fn edges_view(s: Seq<GraphEdge>) -> Seq<(Seq<u8>, Seq<u8>, Seq<u8>, int)> {
    s.map(|i: int, e: GraphEdge| (e.from@, e.to@, e.label@, e.penwidth_micros as int))
}

/// The view of a pseudo-edge list.
pub open spec fn pseudo_view(s: Seq<PseudoEdge>) -> Seq<(Seq<u8>, Seq<u8>)> {
    s.map(|i: int, e: PseudoEdge| (e.node@, e.label@))
}

/// A node's label text: the activity and its weight in parentheses.
pub open spec fn node_label_bytes(act: Seq<u8>, w: int) -> Seq<u8> {
    act + seq![32u8, 40u8] + dec_digits(w) + seq![41u8]
}

/// The retained edges: the ranked edge list cut to the cap.
pub open spec fn retained_of(entries: Seq<((Seq<u8>, Seq<u8>), u64)>) -> Seq<
    ((Seq<u8>, Seq<u8>), u64),
> {
    let ranked = entries.sort_by(edge_le_fn());
    if ranked.len() <= EDGE_CAP as int {
        ranked
    } else {
        ranked.take(EDGE_CAP as int)
    }
}

/// The retained activities: the distinct endpoint labels of the retained
/// edges, sorted ascending.
pub open spec fn verts_of(retained: Seq<((Seq<u8>, Seq<u8>), u64)>) -> Seq<Seq<u8>> {
    crate::dfg::dedup(edge_endpoint_labels(retained)).sort_by(lex_le_fn())
}

/// The pseudo edges of a tally against the retained activities: one edge
/// per tallied activity that is a retained vertex, labelled with its count.
pub open spec fn pseudo_edges_of(t: Seq<(Seq<u8>, int)>, verts: Seq<Seq<u8>>) -> Seq<
    (Seq<u8>, Seq<u8>),
>
    decreases t.len(),
{
    if t.len() == 0 {
        Seq::empty()
    } else if verts.contains(t.last().0) {
        pseudo_edges_of(t.drop_last(), verts).push(
            (dec_digits(index_in(verts, t.last().0)), dec_digits(t.last().1)),
        )
    } else {
        pseudo_edges_of(t.drop_last(), verts)
    }
}

/// What it means for a graph description to encode a summarized edge list
/// with its start and end tallies.  Every component is a function of the
/// inputs, so the encoding is deterministic.
pub open spec fn encodes(
    entries: Seq<((Seq<u8>, Seq<u8>), u64)>,
    start: Seq<(Seq<u8>, int)>,
    end: Seq<(Seq<u8>, int)>,
    g: GraphModel,
) -> bool {
    let r = retained_of(entries);
    let verts = verts_of(r);
    let ws = entry_weights(r);
    let lo = seq_u64_min(ws);
    let hi = seq_u64_max(ws);
    let aw = Seq::new(verts.len(), |i: int| activity_weight(entries, start, verts[i]));
    let aw64 = Seq::new(
        verts.len(),
        |i: int| activity_weight(entries, start, verts[i]) as u64,
    );
    let alo = seq_u64_min(aw64);
    let ahi = seq_u64_max(aw64);
    &&& g.nodes@.len() == verts.len()
    &&& forall|i: int|
        0 <= i < verts.len() ==> nodes_view(g.nodes@)[i] == (
            dec_digits(i),
            node_label_bytes(verts[i], aw[i]),
            color_bytes(color_channel(aw[i], alo as int, ahi as int)),
        )
    &&& g.edges@.len() == r.len()
    &&& forall|i: int|
        0 <= i < r.len() ==> edges_view(g.edges@)[i] == (
            dec_digits(index_in(verts, (#[trigger] r[i]).0.0)),
            dec_digits(index_in(verts, r[i].0.1)),
            dec_digits(r[i].1 as int),
            penwidth_micros(r[i].1 as int, lo as int, hi as int),
        )
    &&& pseudo_view(g.start_edges@) == pseudo_edges_of(start, verts)
    &&& pseudo_view(g.end_edges@) == pseudo_edges_of(end, verts)
}

/// Encoding is deterministic: any two graph descriptions encoding the same
/// summarized edge list and tallies agree on every node, every edge, every
/// pen width and every color, whatever order the inputs were produced in.
pub proof fn lemma_encoding_deterministic(
    entries: Seq<((Seq<u8>, Seq<u8>), u64)>,
    start: Seq<(Seq<u8>, int)>,
    end: Seq<(Seq<u8>, int)>,
    g1: GraphModel,
    g2: GraphModel,
)
    requires
        encodes(entries, start, end, g1),
        encodes(entries, start, end, g2),
    ensures
        nodes_view(g1.nodes@) == nodes_view(g2.nodes@),
        edges_view(g1.edges@) == edges_view(g2.edges@),
        pseudo_view(g1.start_edges@) == pseudo_view(g2.start_edges@),
        pseudo_view(g1.end_edges@) == pseudo_view(g2.end_edges@),
{
    assert(nodes_view(g1.nodes@) =~= nodes_view(g2.nodes@));
    let r = retained_of(entries);
    assert forall|i: int| 0 <= i < r.len() implies edges_view(g1.edges@)[i] == edges_view(
        g2.edges@,
    )[i] by {
        let e = r[i];
    }
    assert(edges_view(g1.edges@) =~= edges_view(g2.edges@));
}

/// At most the cap's worth of edges is retained, and no more than there are
/// distinct pairs.
pub proof fn lemma_retained_bounded(entries: Seq<((Seq<u8>, Seq<u8>), u64)>)
    ensures
        retained_of(entries).len() <= EDGE_CAP as int,
        retained_of(entries).len() <= entries.len(),
        entries.len() <= EDGE_CAP as int ==> retained_of(entries).len() == entries.len(),
{
    lemma_edge_order_total();
    entries.lemma_sort_by_ensures(edge_le_fn());
    broadcast use vstd::seq_lib::group_to_multiset_ensures;

    assert(entries.sort_by(edge_le_fn()).to_multiset().len() == entries.to_multiset().len());
}

/// Pen widths of an edge list, in micro units, scaled from the list's own
/// least and greatest weight.
pub fn assign_penwidth_edges(entries: &Vec<(DfgActivities, u64)>) -> (p: Vec<u64>)
    ensures
        p@.len() == entries@.len(),
        forall|i: int|
            0 <= i < entries@.len() ==> (#[trigger] p@[i]) as int == penwidth_micros(
                entries_view(entries@)[i].1 as int,
                seq_u64_min(entry_weights(entries_view(entries@))) as int,
                seq_u64_max(entry_weights(entries_view(entries@))) as int,
            ),
{
    let ghost ev = entries_view(entries@);
    let mut ws: Vec<u64> = Vec::new();
    let mut i: usize = 0;
    proof {
        assert(ws@ =~= entry_weights(ev).take(0));
    }
    while i < entries.len()
        invariant
            i <= ev.len(),
            ev == entries_view(entries@),
            ws@ == entry_weights(ev).take(i as int),
        decreases ev.len() - i,
    {
        ws.push(entries[i].1);
        proof {
            assert(ws@ =~= entry_weights(ev).take(i + 1));
        }
        i = i + 1;
    }
    proof {
        assert(entry_weights(ev).take(ev.len() as int) =~= entry_weights(ev));
        lemma_seq_u64_min_max(ws@);
    }
    let lo = seq_min_value(&ws);
    let hi = seq_max_value(&ws);
    let mut p: Vec<u64> = Vec::new();
    let mut j: usize = 0;
    while j < ws.len()
        invariant
            j <= ws@.len(),
            ev == entries_view(entries@),
            ws@ == entry_weights(ev),
            lo == seq_u64_min(ws@),
            hi == seq_u64_max(ws@),
            p@.len() == j,
            forall|m: int|
                0 <= m < j ==> (#[trigger] p@[m]) as int == penwidth_micros(
                    ev[m].1 as int,
                    lo as int,
                    hi as int,
                ),
        decreases ws@.len() - j,
    {
        proof {
            lemma_seq_u64_min_max(ws@);
            assert(lo <= ws@[j as int] <= hi);
        }
        let v = penwidth_value(ws[j], lo, hi);
        p.push(v);
        j = j + 1;
    }
    p
}

/// Fill colors for a list of activity weights, scaled from the list's own
/// least and greatest weight.
pub fn get_activities_color(weights: &Vec<u64>) -> (c: Vec<Vec<u8>>)
    ensures
        c@.len() == weights@.len(),
        forall|i: int|
            0 <= i < weights@.len() ==> (#[trigger] c@[i])@ == color_bytes(
                color_channel(
                    weights@[i] as int,
                    seq_u64_min(weights@) as int,
                    seq_u64_max(weights@) as int,
                ),
            ),
{
    let lo = seq_min_value(weights);
    let hi = seq_max_value(weights);
    let mut c: Vec<Vec<u8>> = Vec::new();
    let mut j: usize = 0;
    while j < weights.len()
        invariant
            j <= weights@.len(),
            lo == seq_u64_min(weights@),
            hi == seq_u64_max(weights@),
            c@.len() == j,
            forall|m: int|
                0 <= m < j ==> (#[trigger] c@[m])@ == color_bytes(
                    color_channel(weights@[m] as int, lo as int, hi as int),
                ),
        decreases weights@.len() - j,
    {
        proof {
            lemma_seq_u64_min_max(weights@);
            assert(lo <= weights@[j as int] <= hi);
        }
        let ch = color_channel_value(weights[j], lo, hi);
        let col = make_color(ch);
        c.push(col);
        j = j + 1;
    }
    c
}

/// Adds a label to the vertex list if it is not yet present.
fn add_vertex(verts: &mut Vec<Vec<u8>>, l: &Vec<u8>)
    ensures
        crate::order::labels_view(final(verts)@) == (if crate::order::labels_view(
            old(verts)@,
        ).contains(l@) {
            crate::order::labels_view(old(verts)@)
        } else {
            crate::order::labels_view(old(verts)@).push(l@)
        }),
{
    let present = lookup_label(verts, l);
    match present {
        Some(_) => {
        },
        None => {
            let owned = copy_label(l);
            verts.push(owned);
            proof {
                assert(crate::order::labels_view(verts@) =~= crate::order::labels_view(
                    old(verts)@,
                ).push(l@));
            }
        },
    }
}

proof fn lemma_eel_contains(s: Seq<((Seq<u8>, Seq<u8>), u64)>, k: int)
    requires
        0 <= k < s.len(),
    ensures
        edge_endpoint_labels(s).contains(s[k].0.0),
        edge_endpoint_labels(s).contains(s[k].0.1),
    decreases s.len(),
{
    let e = edge_endpoint_labels(s);
    let prev = edge_endpoint_labels(s.drop_last());
    if k == s.len() - 1 {
        assert(e[prev.len() as int] == s[k].0.0);
        assert(e[prev.len() as int + 1] == s[k].0.1);
    } else {
        assert(s.drop_last()[k] == s[k]);
        lemma_eel_contains(s.drop_last(), k);
        let i0 = choose|i: int| 0 <= i < prev.len() && prev[i] == s[k].0.0;
        assert(e[i0] == s[k].0.0);
        let i1 = choose|i: int| 0 <= i < prev.len() && prev[i] == s[k].0.1;
        assert(e[i1] == s[k].0.1);
    }
}

proof fn lemma_dedup_contains(s: Seq<Seq<u8>>, x: Seq<u8>)
    ensures
        crate::dfg::dedup(s).contains(x) <==> s.contains(x),
    decreases s.len(),
{
    let d = crate::dfg::dedup(s);
    if s.len() == 0 {
    } else {
        let prev = crate::dfg::dedup(s.drop_last());
        lemma_dedup_contains(s.drop_last(), x);
        if d.contains(x) {
            let i = choose|i: int| 0 <= i < d.len() && d[i] == x;
            if i < prev.len() {
                assert(prev[i] == x);
                assert(prev.contains(x));
                let m = choose|m: int| 0 <= m < s.drop_last().len() && s.drop_last()[m] == x;
                assert(s[m] == x);
            } else {
                assert(x == s.last());
                assert(s[s.len() - 1] == x);
            }
            assert(s.contains(x));
        }
        if s.contains(x) {
            let i = choose|i: int| 0 <= i < s.len() && s[i] == x;
            if i < s.len() - 1 {
                assert(s.drop_last()[i] == x);
                assert(s.drop_last().contains(x));
                assert(prev.contains(x));
                let m = choose|m: int| 0 <= m < prev.len() && prev[m] == x;
                if prev.contains(s.last()) {
                    assert(d[m] == x);
                } else {
                    assert(d[m] == x);
                }
            } else {
                assert(x == s.last());
                if prev.contains(s.last()) {
                    let m = choose|m: int| 0 <= m < prev.len() && prev[m] == x;
                    assert(d[m] == x);
                } else {
                    assert(d[d.len() - 1] == x);
                }
            }
            assert(d.contains(x));
        }
    }
}

proof fn lemma_sorted_labels_contains(s: Seq<Seq<u8>>, x: Seq<u8>)
    ensures
        s.sort_by(lex_le_fn()).contains(x) <==> s.contains(x),
{
    crate::order::lemma_lex_le_total_ordering();
    s.lemma_sort_by_ensures(lex_le_fn());
    broadcast use vstd::seq_lib::group_to_multiset_ensures;
    broadcast use vstd::multiset::group_multiset_axioms;

    assert(s.to_multiset() =~= s.sort_by(lex_le_fn()).to_multiset());
    assert(s.contains(x) <==> s.to_multiset().count(x) > 0);
    assert(s.sort_by(lex_le_fn()).contains(x) <==> s.sort_by(lex_le_fn()).to_multiset().count(x)
        > 0);
}

/// An encoded graph retains at most the cap's worth of edges, and at most
/// one edge per distinct directly-follows pair.
pub proof fn lemma_encoded_edge_count(
    entries: Seq<((Seq<u8>, Seq<u8>), u64)>,
    start: Seq<(Seq<u8>, int)>,
    end: Seq<(Seq<u8>, int)>,
    g: GraphModel,
)
    requires
        encodes(entries, start, end, g),
    ensures
        g.edges@.len() <= EDGE_CAP as int,
        g.edges@.len() <= entries.len(),
{
    lemma_retained_bounded(entries);
}

/// Every edge of an encoded graph has its pen width within `[1.0, 2.6]`,
/// the least retained weight mapping to exactly `1.0`.
pub proof fn lemma_encoded_penwidths_in_range(
    entries: Seq<((Seq<u8>, Seq<u8>), u64)>,
    start: Seq<(Seq<u8>, int)>,
    end: Seq<(Seq<u8>, int)>,
    g: GraphModel,
)
    requires
        encodes(entries, start, end, g),
    ensures
        forall|i: int|
            0 <= i < g.edges@.len() ==> 1000000 <= (#[trigger] edges_view(g.edges@)[i]).3
                <= 2600000,
{
    let r = retained_of(entries);
    let ws = entry_weights(r);
    lemma_seq_u64_min_max(ws);
    assert forall|i: int|
        0 <= i < g.edges@.len() implies 1000000 <= (#[trigger] edges_view(g.edges@)[i]).3
        <= 2600000 by {
        let e = r[i];
        assert(ws[i] == r[i].1);
        lemma_penwidth_bounds(
            r[i].1 as int,
            seq_u64_min(ws) as int,
            seq_u64_max(ws) as int,
        );
    }
}

/// A fill color built from a channel in `[155, 255]`.
pub open spec fn color_in_range(s: Seq<u8>) -> bool {
    exists|c: int| 155 <= c <= 255 && s == color_bytes(c)
}

/// Every node of an encoded graph carries a fill color whose shared red and
/// green channel lies in `[155, 255]`.
pub proof fn lemma_encoded_colors_in_range(
    entries: Seq<((Seq<u8>, Seq<u8>), u64)>,
    start: Seq<(Seq<u8>, int)>,
    end: Seq<(Seq<u8>, int)>,
    g: GraphModel,
)
    requires
        encodes(entries, start, end, g),
        forall|i: int| 0 <= i < start.len() ==> (#[trigger] start[i]).1 >= 0,
        total_weight(entries, start) <= u64::MAX,
    ensures
        forall|i: int|
            0 <= i < g.nodes@.len() ==> color_in_range((#[trigger] nodes_view(g.nodes@)[i]).2),
{
    let r = retained_of(entries);
    let verts = verts_of(r);
    let aw = Seq::new(verts.len(), |i: int| activity_weight(entries, start, verts[i]));
    let aw64 = Seq::new(
        verts.len(),
        |i: int| activity_weight(entries, start, verts[i]) as u64,
    );
    lemma_seq_u64_min_max(aw64);
    assert forall|i: int|
        0 <= i < g.nodes@.len() implies color_in_range(
        (#[trigger] nodes_view(g.nodes@)[i]).2,
    ) by {
        lemma_activity_weight_bounds(entries, start, verts[i]);
        assert(aw64[i] as int == aw[i]);
        let lo = seq_u64_min(aw64);
        let hi = seq_u64_max(aw64);
        assert(lo <= aw64[i] <= hi);
        lemma_color_channel_bounds(aw[i], lo as int, hi as int);
        let c = color_channel(aw[i], lo as int, hi as int);
        assert(155 <= c <= 255 && nodes_view(g.nodes@)[i].2 == color_bytes(c));
    }
}

/// The precondition of the encoder: the accumulated activity weights fit
/// the machine word they are rendered from.
pub open spec fn dfg_ok(d: crate::dfg::Dfg) -> bool {
    total_weight(
        summarized_entries(crate::dfg::ret_view(d.ret@)),
        crate::dfg::tally_view(d.start_activities@),
    ) <= u64::MAX
}

impl crate::dfg::Dfg {
    /// Decides whether the aggregate can be encoded: the summed edge
    /// weights and start tallies must fit a machine word.
    pub fn visualization_ready(&self) -> (b: bool)
        ensures
            b == dfg_ok(*self),
    {
        let ghost e_all = summarized_entries(crate::dfg::ret_view(self.ret@));
        let ghost sv = crate::dfg::tally_view(self.start_activities@);
        proof {
            assert forall|i: int| 0 <= i < sv.len() implies (#[trigger] sv[i]).1 >= 0 by {
                assert(sv[i].1 == self.start_activities@[i].1 as int);
            }
        }
        let mut acc: u64 = 0;
        let mut i: usize = 0;
        proof {
            assert(e_all.take(0) =~= Seq::<((Seq<u8>, Seq<u8>), u64)>::empty());
        }
        while i < self.ret.len()
            invariant
                i <= self.ret@.len(),
                e_all == summarized_entries(crate::dfg::ret_view(self.ret@)),
                sv == crate::dfg::tally_view(self.start_activities@),
                forall|m: int| 0 <= m < sv.len() ==> (#[trigger] sv[m]).1 >= 0,
                e_all.len() == self.ret@.len(),
                acc == weight_total(e_all.take(i as int)),
            decreases self.ret@.len() - i,
        {
            let w: u64 = if self.ret[i].1.len() > 0 {
                self.ret[i].1[0]
            } else {
                0
            };
            proof {
                assert(e_all[i as int].1 == w);
                assert(e_all.take(i + 1).drop_last() =~= e_all.take(i as int));
                assert(e_all.take(i + 1).last() == e_all[i as int]);
            }
            if w > u64::MAX - acc {
                proof {
                    lemma_weight_total_take(e_all, i + 1);
                    lemma_tally_total_nonneg(sv);
                }
                return false;
            }
            acc = acc + w;
            i = i + 1;
        }
        proof {
            assert(e_all.take(e_all.len() as int) =~= e_all);
            assert(sv.skip(0) =~= sv);
        }
        let mut j: usize = 0;
        while j < self.start_activities.len()
            invariant
                j <= self.start_activities@.len(),
                sv == crate::dfg::tally_view(self.start_activities@),
                e_all == summarized_entries(crate::dfg::ret_view(self.ret@)),
                forall|m: int| 0 <= m < sv.len() ==> (#[trigger] sv[m]).1 >= 0,
                acc as int == weight_total(e_all) + (crate::dfg::tally_total(sv)
                    - crate::dfg::tally_total(sv.skip(j as int))),
            decreases sv.len() - j,
        {
            let c = self.start_activities[j].1;
            proof {
                let sk = sv.skip(j as int);
                assert(sk[0] == sv[j as int]);
                assert(sk.drop_first() =~= sv.skip(j + 1));
                assert(crate::dfg::tally_total(sk) == sv[j as int].1 + crate::dfg::tally_total(
                    sv.skip(j + 1),
                ));
                assert forall|m: int| 0 <= m < sv.skip(j + 1).len() implies (#[trigger] sv.skip(
                    j + 1,
                )[m]).1 >= 0 by {
                    assert(sv[m + j + 1].1 >= 0);
                }
                lemma_tally_total_nonneg(sv.skip(j + 1));
            }
            if c > u64::MAX - acc {
                return false;
            }
            acc = acc + c;
            j = j + 1;
        }
        proof {
            assert(sv.skip(sv.len() as int) =~= Seq::<(Seq<u8>, int)>::empty());
        }
        true
    }

    /// Encodes the aggregate as a bounded graph description: the edges are
    /// ranked and cut to the cap, pen widths and node colors are scaled
    /// from the retained extremes, every retained activity gets a stable
    /// identifier (its rank in the sorted vertex list), and the retained
    /// pairs replace the working mapping.
    pub fn visualize_dfg(&mut self) -> (g: GraphModel)
        requires
            dfg_ok(*old(self)),
        ensures
            encodes(
                summarized_entries(crate::dfg::ret_view(old(self).ret@)),
                crate::dfg::tally_view(old(self).start_activities@),
                crate::dfg::tally_view(old(self).end_activities@),
                g,
            ),
            crate::dfg::ret_view(final(self).ret@) == retained_of(
                summarized_entries(crate::dfg::ret_view(old(self).ret@)),
            ).map(|i: int, e: ((Seq<u8>, Seq<u8>), u64)| (e.0, seq![e.1])),
            final(self).tuples@ == old(self).tuples@,
            final(self).start_activities@ == old(self).start_activities@,
            final(self).end_activities@ == old(self).end_activities@,
            final(self).unique_activities@ == old(self).unique_activities@,
    {
        let ghost e_all = summarized_entries(crate::dfg::ret_view(old(self).ret@));
        let ghost s_tally = crate::dfg::tally_view(old(self).start_activities@);
        let ghost t_tally = crate::dfg::tally_view(old(self).end_activities@);
        // The summarized edge list.
        let mut entries: Vec<(DfgActivities, u64)> = Vec::new();
        let mut i: usize = 0;
        proof {
            assert(entries_view(entries@) =~~= e_all.take(0));
        }
        while i < self.ret.len()
            invariant
                i <= self.ret@.len(),
                *self == *old(self),
                e_all == summarized_entries(crate::dfg::ret_view(self.ret@)),
                e_all.len() == self.ret@.len(),
                entries_view(entries@) == e_all.take(i as int),
            decreases self.ret@.len() - i,
        {
            proof {
                assert(e_all.take(i as int).len() == i);
                assert(entries@.len() == i);
            }
            let w: u64 = if self.ret[i].1.len() > 0 {
                self.ret[i].1[0]
            } else {
                0
            };
            let pair = DfgActivities {
                act1: copy_label(&self.ret[i].0.act1),
                act2: copy_label(&self.ret[i].0.act2),
            };
            entries.push((pair, w));
            proof {
                let rv = crate::dfg::ret_view(self.ret@);
                assert(rv[i as int] == (
                    (self.ret@[i as int].0.act1@, self.ret@[i as int].0.act2@),
                    self.ret@[i as int].1@,
                ));
                assert(e_all[i as int] == (
                    rv[i as int].0,
                    if rv[i as int].1.len() > 0 {
                        rv[i as int].1[0]
                    } else {
                        0u64
                    },
                ));
                assert(entries_view(entries@) =~= e_all.take(i + 1));
            }
            i = i + 1;
        }
        proof {
            assert(e_all.take(e_all.len() as int) =~= e_all);
        }
        // A second copy, ranked and cut to the cap.
        let mut ranked: Vec<(DfgActivities, u64)> = Vec::new();
        let mut i2: usize = 0;
        proof {
            assert(entries_view(ranked@) =~~= e_all.take(0));
        }
        while i2 < entries.len()
            invariant
                i2 <= entries@.len(),
                entries_view(entries@) == e_all,
                entries@.len() == e_all.len(),
                entries_view(ranked@) == e_all.take(i2 as int),
            decreases entries@.len() - i2,
        {
            proof {
                assert(e_all.take(i2 as int).len() == i2);
                assert(ranked@.len() == i2);
            }
            let pair = DfgActivities {
                act1: copy_label(&entries[i2].0.act1),
                act2: copy_label(&entries[i2].0.act2),
            };
            ranked.push((pair, entries[i2].1));
            proof {
                assert(entries_view(entries@)[i2 as int] == (
                    (entries@[i2 as int].0.act1@, entries@[i2 as int].0.act2@),
                    entries@[i2 as int].1,
                ));
                assert(entries_view(ranked@) =~~= e_all.take(i2 + 1));
            }
            i2 = i2 + 1;
        }
        proof {
            assert(e_all.take(e_all.len() as int) =~= e_all);
        }
        sort_entries(&mut ranked);
        let ghost r = retained_of(e_all);
        if ranked.len() > EDGE_CAP {
            ranked.truncate(EDGE_CAP);
            proof {
                assert(entries_view(ranked@) =~~= e_all.sort_by(edge_le_fn()).take(
                    EDGE_CAP as int,
                ));
            }
        }
        proof {
            assert(entries_view(ranked@) =~~= r);
            assert(ranked@.len() == r.len());
        }
        // The retained vertex set, sorted ascending.
        let mut verts: Vec<Vec<u8>> = Vec::new();
        let mut k: usize = 0;
        proof {
            assert(r.take(0) =~= Seq::<((Seq<u8>, Seq<u8>), u64)>::empty());
            assert(crate::order::labels_view(verts@) =~= crate::dfg::dedup(
                edge_endpoint_labels(r.take(0)),
            ));
        }
        while k < ranked.len()
            invariant
                k <= ranked@.len(),
                entries_view(ranked@) == r,
                ranked@.len() == r.len(),
                crate::order::labels_view(verts@) == crate::dfg::dedup(
                    edge_endpoint_labels(r.take(k as int)),
                ),
            decreases ranked@.len() - k,
        {
            let ghost base = edge_endpoint_labels(r.take(k as int));
            let ghost a = r[k as int].0.0;
            let ghost b = r[k as int].0.1;
            proof {
                assert(r.take(k + 1).drop_last() =~= r.take(k as int));
                assert(r.take(k + 1).last() == r[k as int]);
                assert(edge_endpoint_labels(r.take(k + 1)) =~= base.push(a).push(b));
                assert(base.push(a).drop_last() =~= base);
                assert(base.push(a).last() == a);
                assert(base.push(a).push(b).drop_last() =~= base.push(a));
                assert(base.push(a).push(b).last() == b);
                assert(ranked@[k as int].0.act1@ == a);
                assert(ranked@[k as int].0.act2@ == b);
            }
            add_vertex(&mut verts, &ranked[k].0.act1);
            proof {
                assert(crate::order::labels_view(verts@) == crate::dfg::dedup(base.push(a)));
            }
            add_vertex(&mut verts, &ranked[k].0.act2);
            proof {
                assert(crate::order::labels_view(verts@) == crate::dfg::dedup(
                    base.push(a).push(b),
                ));
                assert(crate::order::labels_view(verts@) == crate::dfg::dedup(
                    edge_endpoint_labels(r.take(k + 1)),
                ));
            }
            k = k + 1;
        }
        proof {
            assert(r.take(r.len() as int) =~= r);
        }
        crate::order::sort_labels(&mut verts);
        let ghost vts = verts_of(r);
        proof {
            assert(crate::order::labels_view(verts@) == vts);
        }
        // Pen widths over the retained edges.
        let pens = assign_penwidth_edges(&ranked);
        // Activity weights over the retained vertices.
        let ghost aw64 = Seq::new(
            vts.len(),
            |i: int| activity_weight(e_all, s_tally, vts[i]) as u64,
        );
        let mut aws: Vec<u64> = Vec::new();
        let mut k2: usize = 0;
        while k2 < verts.len()
            invariant
                k2 <= verts@.len(),
                *self == *old(self),
                e_all == summarized_entries(crate::dfg::ret_view(self.ret@)),
                s_tally == crate::dfg::tally_view(self.start_activities@),
                entries_view(entries@) == e_all,
                crate::order::labels_view(verts@) == vts,
                verts@.len() == vts.len(),
                aw64 == Seq::new(
                    vts.len(),
                    |i: int| activity_weight(e_all, s_tally, vts[i]) as u64,
                ),
                aws@.len() == k2,
                forall|m: int| 0 <= m < k2 ==> aws@[m] == aw64[m],
                total_weight(e_all, s_tally) <= u64::MAX,
            decreases verts@.len() - k2,
        {
            let aw = activity_weight_value(&entries, &self.start_activities, &verts[k2]);
            proof {
                assert(vts[k2 as int] == verts@[k2 as int]@);
            }
            aws.push(aw);
            k2 = k2 + 1;
        }
        proof {
            assert(aws@ =~= aw64);
        }
        // Fill colors over the retained vertices.
        let colors = get_activities_color(&aws);
        // Nodes.
        let ghost aw_int = Seq::new(vts.len(), |i: int| activity_weight(e_all, s_tally, vts[i]));
        proof {
            assert forall|m: int| 0 <= m < vts.len() implies aw64[m] as int == aw_int[m] by {
                assert forall|x: int| 0 <= x < s_tally.len() implies (#[trigger] s_tally[x]).1
                    >= 0 by {
                    assert(s_tally[x].1 == old(self).start_activities@[x].1 as int);
                }
                lemma_activity_weight_bounds(e_all, s_tally, vts[m]);
            }
        }
        let mut nodes: Vec<GraphNode> = Vec::new();
        let mut k3: usize = 0;
        while k3 < verts.len()
            invariant
                k3 <= verts@.len(),
                crate::order::labels_view(verts@) == vts,
                verts@.len() == vts.len(),
                aws@ == aw64,
                aw64.len() == vts.len(),
                colors@.len() == vts.len(),
                forall|m: int|
                    0 <= m < vts.len() ==> (#[trigger] colors@[m])@ == color_bytes(
                        color_channel(
                            aw64[m] as int,
                            seq_u64_min(aw64) as int,
                            seq_u64_max(aw64) as int,
                        ),
                    ),
                forall|m: int| 0 <= m < vts.len() ==> aw64[m] as int == aw_int[m],
                aw_int == Seq::new(vts.len(), |i: int| activity_weight(e_all, s_tally, vts[i])),
                nodes@.len() == k3,
                forall|m: int|
                    0 <= m < k3 ==> nodes_view(nodes@)[m] == (
                        dec_digits(m),
                        node_label_bytes(vts[m], aw_int[m]),
                        color_bytes(
                            color_channel(
                                aw_int[m],
                                seq_u64_min(aw64) as int,
                                seq_u64_max(aw64) as int,
                            ),
                        ),
                    ),
            decreases verts@.len() - k3,
        {
            let id = u64_to_dec(k3 as u64);
            let mut lab = copy_label(&verts[k3]);
            lab.push(32);
            lab.push(40);
            let wd = u64_to_dec(aws[k3]);
            append_bytes(&mut lab, &wd);
            lab.push(41);
            proof {
                assert(aws@[k3 as int] == aw64[k3 as int]);
                assert(aw64[k3 as int] as int == aw_int[k3 as int]);
                assert(lab@ =~= node_label_bytes(vts[k3 as int], aw_int[k3 as int]));
            }
            let color = copy_label(&colors[k3]);
            let ghost idv = id@;
            let ghost labv = lab@;
            let ghost colv = color@;
            let ghost prev = nodes@;
            nodes.push(GraphNode { id, label: lab, fillcolor: color });
            proof {
                assert(k3 as u64 as int == k3 as int);
                assert(idv == dec_digits(k3 as int));
                assert(colv == color_bytes(
                    color_channel(
                        aw_int[k3 as int],
                        seq_u64_min(aw64) as int,
                        seq_u64_max(aw64) as int,
                    ),
                ));
                assert(nodes@.len() == k3 + 1);
                assert(nodes_view(nodes@)[k3 as int] == (idv, labv, colv));
                assert forall|m: int| 0 <= m < k3 as int implies nodes_view(nodes@)[m]
                    == nodes_view(prev)[m] by {
                    assert(nodes@[m] == prev[m]);
                }
                assert forall|m: int| 0 <= m < k3 as int + 1 implies nodes_view(nodes@)[m] == (
                    dec_digits(m),
                    node_label_bytes(vts[m], aw_int[m]),
                    color_bytes(
                        color_channel(
                            aw_int[m],
                            seq_u64_min(aw64) as int,
                            seq_u64_max(aw64) as int,
                        ),
                    ),
                ) by {
                    if m < k3 as int {
                        assert(nodes_view(nodes@)[m] == nodes_view(prev)[m]);
                    } else {
                        assert(m == k3 as int);
                        assert(nodes_view(nodes@)[m] == (idv, labv, colv));
                    }
                }
            }
            k3 = k3 + 1;
        }
        // Edges.
        let mut edges: Vec<GraphEdge> = Vec::new();
        let mut k4: usize = 0;
        while k4 < ranked.len()
            invariant
                k4 <= ranked@.len(),
                entries_view(ranked@) == r,
                ranked@.len() == r.len(),
                crate::order::labels_view(verts@) == vts,
                vts == verts_of(r),
                pens@.len() == r.len(),
                forall|m: int|
                    0 <= m < r.len() ==> (#[trigger] pens@[m]) as int == penwidth_micros(
                        r[m].1 as int,
                        seq_u64_min(entry_weights(r)) as int,
                        seq_u64_max(entry_weights(r)) as int,
                    ),
                edges@.len() == k4,
                forall|m: int|
                    0 <= m < k4 ==> edges_view(edges@)[m] == (
                        dec_digits(index_in(vts, (#[trigger] r[m]).0.0)),
                        dec_digits(index_in(vts, r[m].0.1)),
                        dec_digits(r[m].1 as int),
                        penwidth_micros(
                            r[m].1 as int,
                            seq_u64_min(entry_weights(r)) as int,
                            seq_u64_max(entry_weights(r)) as int,
                        ),
                    ),
            decreases ranked@.len() - k4,
        {
            proof {
                lemma_eel_contains(r, k4 as int);
                lemma_dedup_contains(edge_endpoint_labels(r), r[k4 as int].0.0);
                lemma_dedup_contains(edge_endpoint_labels(r), r[k4 as int].0.1);
                lemma_sorted_labels_contains(
                    crate::dfg::dedup(edge_endpoint_labels(r)),
                    r[k4 as int].0.0,
                );
                lemma_sorted_labels_contains(
                    crate::dfg::dedup(edge_endpoint_labels(r)),
                    r[k4 as int].0.1,
                );
                assert(ranked@[k4 as int].0.act1@ == r[k4 as int].0.0);
                assert(ranked@[k4 as int].0.act2@ == r[k4 as int].0.1);
            }
            let j1 = find_label(&verts, &ranked[k4].0.act1);
            let j2 = find_label(&verts, &ranked[k4].0.act2);
            let from = u64_to_dec(j1 as u64);
            let to = u64_to_dec(j2 as u64);
            let elabel = u64_to_dec(ranked[k4].1);
            edges.push(
                GraphEdge { from, to, label: elabel, penwidth_micros: pens[k4] },
            );
            k4 = k4 + 1;
        }
        // Start and end pseudo edges.
        let mut start_edges: Vec<PseudoEdge> = Vec::new();
        let mut i5: usize = 0;
        proof {
            assert(s_tally.take(0) =~= Seq::<(Seq<u8>, int)>::empty());
            assert(pseudo_view(start_edges@) =~= pseudo_edges_of(s_tally.take(0), vts));
        }
        while i5 < self.start_activities.len()
            invariant
                i5 <= self.start_activities@.len(),
                *self == *old(self),
                s_tally == crate::dfg::tally_view(self.start_activities@),
                s_tally.len() == self.start_activities@.len(),
                crate::order::labels_view(verts@) == vts,
                pseudo_view(start_edges@) == pseudo_edges_of(s_tally.take(i5 as int), vts),
            decreases self.start_activities@.len() - i5,
        {
            proof {
                assert(s_tally.take(i5 + 1).drop_last() =~= s_tally.take(i5 as int));
                assert(s_tally.take(i5 + 1).last() == s_tally[i5 as int]);
                assert(s_tally[i5 as int].0 == self.start_activities@[i5 as int].0@);
            }
            let present = lookup_label(&verts, &self.start_activities[i5].0);
            match present {
                Some(j) => {
                    let node = u64_to_dec(j as u64);
                    let lab = u64_to_dec(self.start_activities[i5].1);
                    start_edges.push(PseudoEdge { node, label: lab });
                    proof {
                        assert(pseudo_view(start_edges@) =~= pseudo_edges_of(
                            s_tally.take(i5 + 1),
                            vts,
                        ));
                    }
                },
                None => {
                    proof {
                        assert(pseudo_view(start_edges@) =~= pseudo_edges_of(
                            s_tally.take(i5 + 1),
                            vts,
                        ));
                    }
                },
            }
            i5 = i5 + 1;
        }
        proof {
            assert(s_tally.take(s_tally.len() as int) =~= s_tally);
        }
        let mut end_edges: Vec<PseudoEdge> = Vec::new();
        let mut i6: usize = 0;
        proof {
            assert(t_tally.take(0) =~= Seq::<(Seq<u8>, int)>::empty());
            assert(pseudo_view(end_edges@) =~= pseudo_edges_of(t_tally.take(0), vts));
        }
        while i6 < self.end_activities.len()
            invariant
                i6 <= self.end_activities@.len(),
                *self == *old(self),
                t_tally == crate::dfg::tally_view(self.end_activities@),
                t_tally.len() == self.end_activities@.len(),
                crate::order::labels_view(verts@) == vts,
                pseudo_view(end_edges@) == pseudo_edges_of(t_tally.take(i6 as int), vts),
            decreases self.end_activities@.len() - i6,
        {
            proof {
                assert(t_tally.take(i6 + 1).drop_last() =~= t_tally.take(i6 as int));
                assert(t_tally.take(i6 + 1).last() == t_tally[i6 as int]);
                assert(t_tally[i6 as int].0 == self.end_activities@[i6 as int].0@);
            }
            let present = lookup_label(&verts, &self.end_activities[i6].0);
            match present {
                Some(j) => {
                    let node = u64_to_dec(j as u64);
                    let lab = u64_to_dec(self.end_activities[i6].1);
                    end_edges.push(PseudoEdge { node, label: lab });
                    proof {
                        assert(pseudo_view(end_edges@) =~= pseudo_edges_of(
                            t_tally.take(i6 + 1),
                            vts,
                        ));
                    }
                },
                None => {
                    proof {
                        assert(pseudo_view(end_edges@) =~= pseudo_edges_of(
                            t_tally.take(i6 + 1),
                            vts,
                        ));
                    }
                },
            }
            i6 = i6 + 1;
        }
        proof {
            assert(t_tally.take(t_tally.len() as int) =~= t_tally);
        }
        // The retained pairs replace the working mapping.
        let ghost target = r.map(|i: int, e: ((Seq<u8>, Seq<u8>), u64)| (e.0, seq![e.1]));
        let mut new_ret: Vec<(DfgActivities, Vec<u64>)> = Vec::new();
        proof {
            assert(r.skip(0) =~= r);
        }
        while ranked.len() > 0
            invariant
                crate::dfg::ret_view(new_ret@).len() + ranked@.len() == r.len(),
                new_ret@.len() <= r.len(),
                entries_view(ranked@) == r.skip(new_ret@.len() as int),
                forall|m: int|
                    0 <= m < new_ret@.len() ==> crate::dfg::ret_view(new_ret@)[m] == (
                        (#[trigger] r[m]).0,
                        seq![r[m].1],
                    ),
            decreases ranked@.len(),
        {
            let ghost done = new_ret@.len() as int;
            let e = ranked.remove(0);
            let (pair, w) = e;
            proof {
                assert(entries_view(ranked@) =~= r.skip(done).drop_first());
                assert(r.skip(done).drop_first() =~= r.skip(done + 1));
                assert(r.skip(done)[0] == r[done]);
                assert(pair.act1@ == r[done].0.0 && pair.act2@ == r[done].0.1 && w == r[done].1);
            }
            let mut single: Vec<u64> = Vec::new();
            single.push(w);
            new_ret.push((pair, single));
            proof {
                assert(single@ =~= seq![w]);
            }
        }
        self.ret = new_ret;
        let g = GraphModel { nodes, edges, start_edges, end_edges };
        proof {
            assert(crate::dfg::ret_view(self.ret@) =~= target);
            assert(pseudo_view(g.start_edges@) == pseudo_edges_of(s_tally, vts));
            assert(pseudo_view(g.end_edges@) == pseudo_edges_of(t_tally, vts));
            assert forall|m: int| 0 <= m < vts.len() implies nodes_view(g.nodes@)[m] == (
                dec_digits(m),
                node_label_bytes(vts[m], aw_int[m]),
                color_bytes(
                    color_channel(aw_int[m], seq_u64_min(aw64) as int, seq_u64_max(aw64) as int),
                ),
            ) by {
            }
        }
        g
    }
}

} // verus!
