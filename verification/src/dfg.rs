//! Aggregation of a log into the directly-follows relation.
//!
//! Walking every trace's consecutive event pairs yields directly-follows
//! observations: an ordered activity pair together with the whole-second
//! latency between the two events, clamped to zero when time runs backwards.
//! The observations are gathered into a mapping from pair to latency
//! multiset, each trace's first and last activities are tallied, and every
//! pair's latencies are then reduced to their median.

use vstd::prelude::*;

use crate::event_log::{distinct_cases, AttrValue, EventLog, EventRow, Traces};
use crate::order::{bytes_eq, copy_label, labels_view, lex_le_fn};
use crate::stats::{median, median_of};

verus! {

/// An ordered pair of activity labels: the aggregation key of the
/// directly-follows relation.
#[derive(Debug, Clone, PartialEq, Eq)]
pub struct DfgActivities {
    pub act1: Vec<u8>,
    pub act2: Vec<u8>,
}

/// The directly-follows aggregate of an event log.
#[derive(Debug, PartialEq, Eq)]
pub struct Dfg {
    /// Per-trace observation lists: one `(pair, latency)` record per
    /// adjacent event pair of each trace.
    pub tuples: Vec<Vec<(DfgActivities, u64)>>,
    /// The gathered mapping from pair to its latency observations, in order
    /// of first appearance; after summarization each list holds one value,
    /// the median.
    pub ret: Vec<(DfgActivities, Vec<u64>)>,
    /// Per-activity count of traces beginning with it.
    pub start_activities: Vec<(Vec<u8>, u64)>,
    /// Per-activity count of traces ending with it.
    pub end_activities: Vec<(Vec<u8>, u64)>,
    /// The distinct activity labels of the log, sorted ascending.
    pub unique_activities: Vec<Vec<u8>>,
}

/// The label substituted for a non-textual activity attribute.
pub open spec fn placeholder_label() -> Seq<u8> {
    seq![78u8, 79u8, 84u8, 32u8, 65u8, 32u8, 83u8, 84u8, 82u8, 73u8, 78u8, 71u8]
}

/// The activity label of an attribute value: its text, or the fixed
/// placeholder when the value is not textual.
pub open spec fn label_of(a: AttrValue) -> Seq<u8> {
    match a {
        AttrValue::Text(s) => s@,
        AttrValue::NonText => placeholder_label(),
    }
}

/// Whole seconds elapsed from a timestamp in microseconds to a later one,
/// clamped to zero when the second timestamp does not lie after the first.
pub open spec fn latency_of(t1: int, t2: int) -> int {
    if t2 <= t1 {
        0
    } else {
        (t2 - t1) / 1000000
    }
}

/// The observations of one trace: for every adjacent event pair, the ordered
/// label pair and the latency between the events.
pub open spec fn trace_obs(t: Traces) -> Seq<((Seq<u8>, Seq<u8>), u64)> {
    if t.events@.len() == 0 {
        Seq::empty()
    } else {
        Seq::new(
            (t.events@.len() - 1) as nat,
            |i: int|
                (
                    (label_of(t.events@[i].activity), label_of(t.events@[i + 1].activity)),
                    latency_of(
                        t.events@[i].timestamp as int,
                        t.events@[i + 1].timestamp as int,
                    ) as u64,
                ),
        )
    }
}

/// The observations of a whole log, trace by trace.
pub open spec fn log_obs(traces: Seq<Traces>) -> Seq<((Seq<u8>, Seq<u8>), u64)>
    decreases traces.len(),
{
    if traces.len() == 0 {
        Seq::empty()
    } else {
        log_obs(traces.drop_last()) + trace_obs(traces.last())
    }
}

/// The view of one per-trace observation list.
pub open spec fn pairs_view(s: Seq<(DfgActivities, u64)>) -> Seq<((Seq<u8>, Seq<u8>), u64)> {
    s.map(|i: int, e: (DfgActivities, u64)| ((e.0.act1@, e.0.act2@), e.1))
}

/// The view of the gathered pair mapping.
pub open spec fn ret_view(s: Seq<(DfgActivities, Vec<u64>)>) -> Seq<
    ((Seq<u8>, Seq<u8>), Seq<u64>),
> {
    s.map(|i: int, e: (DfgActivities, Vec<u64>)| ((e.0.act1@, e.0.act2@), e.1@))
}

/// Adds one observation to the gathered mapping: appended to its pair's
/// list when the pair is present, opening a new entry otherwise.
pub open spec fn gather_insert(
    m: Seq<((Seq<u8>, Seq<u8>), Seq<u64>)>,
    k: (Seq<u8>, Seq<u8>),
    x: u64,
) -> Seq<((Seq<u8>, Seq<u8>), Seq<u64>)>
    decreases m.len(),
{
    if m.len() == 0 {
        seq![(k, seq![x])]
    } else if m[0].0 == k {
        seq![(m[0].0, m[0].1.push(x))] + m.drop_first()
    } else {
        seq![m[0]] + gather_insert(m.drop_first(), k, x)
    }
}

/// Gathers a sequence of observations into the pair mapping, keys in order
/// of first appearance, each pair's latencies in observation order.
pub open spec fn gather(obs: Seq<((Seq<u8>, Seq<u8>), u64)>) -> Seq<
    ((Seq<u8>, Seq<u8>), Seq<u64>),
>
    decreases obs.len(),
{
    if obs.len() == 0 {
        Seq::empty()
    } else {
        gather_insert(gather(obs.drop_last()), obs.last().0, obs.last().1)
    }
}

/// Replaces every pair's latency list by the single-element list holding its
/// median.
pub open spec fn summarize(m: Seq<((Seq<u8>, Seq<u8>), Seq<u64>)>) -> Seq<
    ((Seq<u8>, Seq<u8>), Seq<u64>),
> {
    m.map(|i: int, e: ((Seq<u8>, Seq<u8>), Seq<u64>)| (e.0, seq![median_of(e.1)]))
}

/// The view of a tally list, counts as unbounded integers.
pub open spec fn tally_view(s: Seq<(Vec<u8>, u64)>) -> Seq<(Seq<u8>, int)> {
    s.map(|i: int, e: (Vec<u8>, u64)| (e.0@, e.1 as int))
}

/// Adds one occurrence of `k` to a tally list.
pub open spec fn tally_insert(m: Seq<(Seq<u8>, int)>, k: Seq<u8>) -> Seq<(Seq<u8>, int)>
    decreases m.len(),
{
    if m.len() == 0 {
        seq![(k, 1int)]
    } else if m[0].0 == k {
        seq![(m[0].0, m[0].1 + 1int)] + m.drop_first()
    } else {
        seq![m[0]] + tally_insert(m.drop_first(), k)
    }
}

/// Tallies a sequence of labels, keys in order of first appearance.
pub open spec fn tally(labels: Seq<Seq<u8>>) -> Seq<(Seq<u8>, int)>
    decreases labels.len(),
{
    if labels.len() == 0 {
        Seq::empty()
    } else {
        tally_insert(tally(labels.drop_last()), labels.last())
    }
}

/// The first activity label of every non-empty trace.
pub open spec fn start_labels(traces: Seq<Traces>) -> Seq<Seq<u8>>
    decreases traces.len(),
{
    if traces.len() == 0 {
        Seq::empty()
    } else if traces.last().events@.len() == 0 {
        start_labels(traces.drop_last())
    } else {
        start_labels(traces.drop_last()).push(label_of(traces.last().events@[0].activity))
    }
}

/// The last activity label of every non-empty trace.
pub open spec fn end_labels(traces: Seq<Traces>) -> Seq<Seq<u8>>
    decreases traces.len(),
{
    if traces.len() == 0 {
        Seq::empty()
    } else if traces.last().events@.len() == 0 {
        end_labels(traces.drop_last())
    } else {
        end_labels(traces.drop_last()).push(
            label_of(traces.last().events@[traces.last().events@.len() - 1].activity),
        )
    }
}

/// The number of traces with at least one event.
pub open spec fn count_nonempty(traces: Seq<Traces>) -> int
    decreases traces.len(),
{
    if traces.len() == 0 {
        0
    } else {
        count_nonempty(traces.drop_last()) + if traces.last().events@.len() == 0 {
            0int
        } else {
            1int
        }
    }
}

/// The activity labels of one trace's events, in order.
pub open spec fn trace_labels(t: Traces) -> Seq<Seq<u8>> {
    Seq::new(t.events@.len(), |i: int| label_of(t.events@[i].activity))
}

/// The activity labels of every event of the log, trace by trace.
pub open spec fn event_labels(traces: Seq<Traces>) -> Seq<Seq<u8>>
    decreases traces.len(),
{
    if traces.len() == 0 {
        Seq::empty()
    } else {
        event_labels(traces.drop_last()) + trace_labels(traces.last())
    }
}

/// The distinct elements of a label sequence, in order of first appearance.
pub open spec fn dedup(s: Seq<Seq<u8>>) -> Seq<Seq<u8>>
    decreases s.len(),
{
    if s.len() == 0 {
        Seq::empty()
    } else if dedup(s.drop_last()).contains(s.last()) {
        dedup(s.drop_last())
    } else {
        dedup(s.drop_last()).push(s.last())
    }
}

/// The deduplicated label sequence holds each label at most once: the
/// vocabulary lists every activity exactly once.
pub proof fn lemma_dedup_distinct(s: Seq<Seq<u8>>)
    ensures
        dedup(s).no_duplicates(),
    decreases s.len(),
{
    if s.len() > 0 {
        lemma_dedup_distinct(s.drop_last());
        let prev = dedup(s.drop_last());
        if !prev.contains(s.last()) {
            let d = dedup(s);
            assert forall|i: int, j: int| 0 <= i < j < d.len() implies d[i] != d[j] by {
                if j == d.len() - 1 {
                    assert(d[j] == s.last());
                    assert(prev[i] == d[i]);
                    if d[i] == s.last() {
                        assert(prev.contains(s.last()));
                    }
                } else {
                    assert(prev[i] == d[i] && prev[j] == d[j]);
                }
            }
        }
    }
}

/// The sum of a tally's counts.
pub open spec fn tally_total(m: Seq<(Seq<u8>, int)>) -> int
    decreases m.len(),
{
    if m.len() == 0 {
        0
    } else {
        m[0].1 + tally_total(m.drop_first())
    }
}

proof fn lemma_tally_insert_total(m: Seq<(Seq<u8>, int)>, k: Seq<u8>)
    ensures
        tally_total(tally_insert(m, k)) == tally_total(m) + 1,
    decreases m.len(),
{
    let t = tally_insert(m, k);
    if m.len() == 0 {
        assert(t =~= seq![(k, 1int)]);
        assert(t.len() == 1);
        assert(t.drop_first() =~= Seq::<(Seq<u8>, int)>::empty());
        assert(tally_total(t) == t[0].1 + tally_total(t.drop_first()));
    } else if m[0].0 == k {
        assert(t.len() == m.len());
        assert(t.drop_first() =~= m.drop_first());
        assert(t[0].1 == m[0].1 + 1);
    } else {
        lemma_tally_insert_total(m.drop_first(), k);
        assert(t.len() > 0);
        assert(t.drop_first() =~= tally_insert(m.drop_first(), k));
        assert(t[0] == m[0]);
    }
}

proof fn lemma_tally_total_is_len(labels: Seq<Seq<u8>>)
    ensures
        tally_total(tally(labels)) == labels.len(),
    decreases labels.len(),
{
    if labels.len() > 0 {
        lemma_tally_total_is_len(labels.drop_last());
        lemma_tally_insert_total(tally(labels.drop_last()), labels.last());
    }
}

proof fn lemma_start_end_label_counts(traces: Seq<Traces>)
    ensures
        start_labels(traces).len() == count_nonempty(traces),
        end_labels(traces).len() == count_nonempty(traces),
    decreases traces.len(),
{
    if traces.len() > 0 {
        lemma_start_end_label_counts(traces.drop_last());
    }
}

/// The start and end tallies each total to the number of non-empty traces:
/// every non-empty trace contributes exactly one start and one end
/// observation.
pub proof fn lemma_start_end_tally_totals(traces: Seq<Traces>)
    ensures
        tally_total(tally(start_labels(traces))) == count_nonempty(traces),
        tally_total(tally(end_labels(traces))) == count_nonempty(traces),
{
    lemma_tally_total_is_len(start_labels(traces));
    lemma_tally_total_is_len(end_labels(traces));
    lemma_start_end_label_counts(traces);
}

proof fn lemma_gather_insert_found(
    m: Seq<((Seq<u8>, Seq<u8>), Seq<u64>)>,
    j: int,
    k: (Seq<u8>, Seq<u8>),
    x: u64,
)
    requires
        0 <= j < m.len(),
        m[j].0 == k,
        forall|i: int| 0 <= i < j ==> (#[trigger] m[i]).0 != k,
    ensures
        gather_insert(m, k, x) == m.update(j, (m[j].0, m[j].1.push(x))),
    decreases m.len(),
{
    if j == 0 {
        assert(gather_insert(m, k, x) =~= m.update(0, (m[0].0, m[0].1.push(x))));
    } else {
        assert(m[0].0 != k);
        assert forall|i: int| 0 <= i < j - 1 implies (#[trigger] m.drop_first()[i]).0 != k by {
            assert(m[i + 1].0 != k);
        }
        lemma_gather_insert_found(m.drop_first(), j - 1, k, x);
        assert(gather_insert(m, k, x) =~= m.update(j, (m[j].0, m[j].1.push(x))));
    }
}

proof fn lemma_gather_insert_absent(
    m: Seq<((Seq<u8>, Seq<u8>), Seq<u64>)>,
    k: (Seq<u8>, Seq<u8>),
    x: u64,
)
    requires
        forall|i: int| 0 <= i < m.len() ==> (#[trigger] m[i]).0 != k,
    ensures
        gather_insert(m, k, x) == m.push((k, seq![x])),
    decreases m.len(),
{
    if m.len() == 0 {
        assert(gather_insert(m, k, x) =~= m.push((k, seq![x])));
    } else {
        assert forall|i: int| 0 <= i < m.drop_first().len() implies (#[trigger] m.drop_first()[
            i
        ]).0 != k by {
            assert(m[i + 1].0 != k);
        }
        lemma_gather_insert_absent(m.drop_first(), k, x);
        assert(gather_insert(m, k, x) =~= m.push((k, seq![x])));
    }
}

proof fn lemma_tally_insert_found(m: Seq<(Seq<u8>, int)>, j: int, k: Seq<u8>)
    requires
        0 <= j < m.len(),
        m[j].0 == k,
        forall|i: int| 0 <= i < j ==> (#[trigger] m[i]).0 != k,
    ensures
        tally_insert(m, k) == m.update(j, (m[j].0, m[j].1 + 1)),
    decreases m.len(),
{
    if j == 0 {
        assert(tally_insert(m, k) =~= m.update(0, (m[0].0, m[0].1 + 1)));
    } else {
        assert(m[0].0 != k);
        assert forall|i: int| 0 <= i < j - 1 implies (#[trigger] m.drop_first()[i]).0 != k by {
            assert(m[i + 1].0 != k);
        }
        lemma_tally_insert_found(m.drop_first(), j - 1, k);
        assert(tally_insert(m, k) =~= m.update(j, (m[j].0, m[j].1 + 1)));
    }
}

proof fn lemma_tally_insert_absent(m: Seq<(Seq<u8>, int)>, k: Seq<u8>)
    requires
        forall|i: int| 0 <= i < m.len() ==> (#[trigger] m[i]).0 != k,
    ensures
        tally_insert(m, k) == m.push((k, 1int)),
    decreases m.len(),
{
    if m.len() == 0 {
        assert(tally_insert(m, k) =~= m.push((k, 1int)));
    } else {
        assert forall|i: int| 0 <= i < m.drop_first().len() implies (#[trigger] m.drop_first()[
            i
        ]).0 != k by {
            assert(m[i + 1].0 != k);
        }
        lemma_tally_insert_absent(m.drop_first(), k);
        assert(tally_insert(m, k) =~= m.push((k, 1int)));
    }
}

/// Whether a key occurs in the gathered mapping.
pub open spec fn gather_has_key(m: Seq<((Seq<u8>, Seq<u8>), Seq<u64>)>, k: (Seq<u8>, Seq<u8>)) -> bool {
    exists|i: int| 0 <= i < m.len() && (#[trigger] m[i]).0 == k
}

/// Whether every key of the gathered mapping occurs exactly once.
pub open spec fn gather_keys_distinct(m: Seq<((Seq<u8>, Seq<u8>), Seq<u64>)>) -> bool {
    forall|i: int, j: int| 0 <= i < j < m.len() ==> (#[trigger] m[i]).0 != (#[trigger] m[j]).0
}

proof fn lemma_gather_insert_keys(
    m: Seq<((Seq<u8>, Seq<u8>), Seq<u64>)>,
    k: (Seq<u8>, Seq<u8>),
    x: u64,
)
    requires
        gather_keys_distinct(m),
    ensures
        gather_keys_distinct(gather_insert(m, k, x)),
        forall|l: (Seq<u8>, Seq<u8>)|
            #[trigger] gather_has_key(gather_insert(m, k, x), l) <==> (gather_has_key(m, l) || l
                == k),
    decreases m.len(),
{
    let t = gather_insert(m, k, x);
    if m.len() == 0 {
        assert(t =~= seq![(k, seq![x])]);
        assert forall|l: (Seq<u8>, Seq<u8>)| #[trigger] gather_has_key(t, l) <==> (gather_has_key(
            m,
            l,
        ) || l == k) by {
            if l == k {
                assert(t[0].0 == k);
            }
        }
    } else if m[0].0 == k {
        assert(t =~= m.update(0, (m[0].0, m[0].1.push(x))));
        assert forall|l: (Seq<u8>, Seq<u8>)| #[trigger] gather_has_key(t, l) <==> (gather_has_key(
            m,
            l,
        ) || l == k) by {
            if gather_has_key(t, l) {
                let i = choose|i: int| 0 <= i < t.len() && (#[trigger] t[i]).0 == l;
                assert(m[i].0 == l);
            }
            if gather_has_key(m, l) {
                let i = choose|i: int| 0 <= i < m.len() && (#[trigger] m[i]).0 == l;
                assert(t[i].0 == l);
            }
            if l == k {
                assert(t[0].0 == k);
            }
        }
    } else {
        assert forall|i: int, j: int|
            0 <= i < j < m.drop_first().len() implies (#[trigger] m.drop_first()[i]).0 != (
        #[trigger] m.drop_first()[j]).0 by {
            assert(m[i + 1].0 != m[j + 1].0);
        }
        lemma_gather_insert_keys(m.drop_first(), k, x);
        let rest = gather_insert(m.drop_first(), k, x);
        assert(t =~= seq![m[0]] + rest);
        assert forall|l: (Seq<u8>, Seq<u8>)| #[trigger] gather_has_key(t, l) <==> (gather_has_key(
            m,
            l,
        ) || l == k) by {
            if gather_has_key(t, l) {
                let i = choose|i: int| 0 <= i < t.len() && (#[trigger] t[i]).0 == l;
                if i == 0 {
                    assert(m[0].0 == l);
                } else {
                    assert(rest[i - 1].0 == l);
                    assert(gather_has_key(rest, l));
                    if gather_has_key(m.drop_first(), l) {
                        let j = choose|j: int|
                            0 <= j < m.drop_first().len() && (#[trigger] m.drop_first()[j]).0 == l;
                        assert(m[j + 1].0 == l);
                    }
                }
            }
            if gather_has_key(m, l) {
                let i = choose|i: int| 0 <= i < m.len() && (#[trigger] m[i]).0 == l;
                if i == 0 {
                    assert(t[0].0 == l);
                } else {
                    assert(m.drop_first()[i - 1].0 == l);
                    assert(gather_has_key(m.drop_first(), l));
                    assert(gather_has_key(rest, l));
                    let j = choose|j: int| 0 <= j < rest.len() && (#[trigger] rest[j]).0 == l;
                    assert(t[j + 1].0 == l);
                }
            }
            if l == k {
                assert(gather_has_key(rest, k));
                let j = choose|j: int| 0 <= j < rest.len() && (#[trigger] rest[j]).0 == k;
                assert(t[j + 1].0 == k);
            }
        }
        assert forall|i: int, j: int| 0 <= i < j < t.len() implies (#[trigger] t[i]).0 != (
        #[trigger] t[j]).0 by {
            if i == 0 {
                assert(t[j].0 == rest[j - 1].0);
                if t[0].0 == t[j].0 {
                    assert(gather_has_key(rest, m[0].0));
                    assert(gather_has_key(m.drop_first(), m[0].0) || m[0].0 == k);
                    if gather_has_key(m.drop_first(), m[0].0) {
                        let q = choose|q: int|
                            0 <= q < m.drop_first().len() && (#[trigger] m.drop_first()[q]).0
                                == m[0].0;
                        assert(m[q + 1].0 == m[0].0);
                    }
                }
            } else {
                assert(t[i].0 == rest[i - 1].0 && t[j].0 == rest[j - 1].0);
            }
        }
    }
}

/// Every pair occurs exactly once in the gathered mapping: the retained
/// edge count is bounded by the number of distinct directly-follows pairs.
pub proof fn lemma_gather_distinct(obs: Seq<((Seq<u8>, Seq<u8>), u64)>)
    ensures
        gather_keys_distinct(gather(obs)),
    decreases obs.len(),
{
    if obs.len() > 0 {
        lemma_gather_distinct(obs.drop_last());
        lemma_gather_insert_keys(gather(obs.drop_last()), obs.last().0, obs.last().1);
    }
}

proof fn lemma_label_of_from_attr_view(a1: AttrValue, a2: AttrValue)
    requires
        crate::event_log::attr_view(a1) == crate::event_log::attr_view(a2),
    ensures
        label_of(a1) == label_of(a2),
{
    match a1 {
        AttrValue::Text(x) => {
            match a2 {
                AttrValue::Text(y) => {
                    assert(x@ == y@);
                },
                AttrValue::NonText => {
                    assert(false);
                },
            }
        },
        AttrValue::NonText => {
            match a2 {
                AttrValue::Text(y) => {
                    assert(false);
                },
                AttrValue::NonText => {
                },
            }
        },
    }
}

proof fn lemma_trace_match_determines(t1: Traces, t2: Traces, rs: Seq<EventRow>)
    requires
        crate::event_log::trace_matches_rows(t1, rs),
        crate::event_log::trace_matches_rows(t2, rs),
    ensures
        t1.events@.len() == t2.events@.len(),
        trace_obs(t1) == trace_obs(t2),
        trace_labels(t1) == trace_labels(t2),
        t1.events@.len() > 0 ==> label_of(t1.events@[0].activity) == label_of(
            t2.events@[0].activity,
        ),
        t1.events@.len() > 0 ==> label_of(t1.events@[t1.events@.len() - 1].activity) == label_of(
            t2.events@[t2.events@.len() - 1].activity,
        ),
{
    assert forall|j: int| 0 <= j < rs.len() implies label_of((#[trigger] t1.events@[j]).activity)
        == label_of(t2.events@[j].activity) && t1.events@[j].timestamp
        == t2.events@[j].timestamp by {
        assert(crate::event_log::event_matches_row(t1.events@[j], rs[j]));
        assert(crate::event_log::event_matches_row(t2.events@[j], rs[j]));
        lemma_label_of_from_attr_view(t1.events@[j].activity, t2.events@[j].activity);
    }
    assert(trace_obs(t1) =~= trace_obs(t2));
    assert(trace_labels(t1) =~= trace_labels(t2));
}

/// Grouping determines aggregation: any two logs that group the same rows
/// carry the same observations, the same start and end labels and the same
/// activity labels, so two runs over an identical input aggregate, and
/// hence encode, identically.
pub proof fn lemma_grouping_determines_aggregation(
    rows: Seq<EventRow>,
    t1: Seq<Traces>,
    t2: Seq<Traces>,
)
    requires
        t1.len() == distinct_cases(rows).len(),
        t2.len() == distinct_cases(rows).len(),
        forall|k: int|
            0 <= k < distinct_cases(rows).len() ==> crate::event_log::trace_matches_rows(
                #[trigger] t1[k],
                crate::event_log::rows_with_case(rows, distinct_cases(rows)[k]),
            ),
        forall|k: int|
            0 <= k < distinct_cases(rows).len() ==> crate::event_log::trace_matches_rows(
                #[trigger] t2[k],
                crate::event_log::rows_with_case(rows, distinct_cases(rows)[k]),
            ),
    ensures
        log_obs(t1) == log_obs(t2),
        start_labels(t1) == start_labels(t2),
        end_labels(t1) == end_labels(t2),
        event_labels(t1) == event_labels(t2),
{
    let dc = distinct_cases(rows);
    let n = dc.len() as int;
    assert(distinct_cases_short(rows, n) =~= dc);
    lemma_grouping_determines_short(rows, t1, t2, n);
}

/// The first `n` distinct cases, to recurse over a prefix of the traces.
pub open spec fn distinct_cases_short(rows: Seq<EventRow>, n: int) -> Seq<Seq<u8>> {
    distinct_cases(rows).take(n)
}

proof fn lemma_grouping_determines_short(
    rows: Seq<EventRow>,
    t1: Seq<Traces>,
    t2: Seq<Traces>,
    n: int,
)
    requires
        0 <= n <= distinct_cases(rows).len(),
        t1.len() == n,
        t2.len() == n,
        forall|k: int|
            0 <= k < n ==> crate::event_log::trace_matches_rows(
                #[trigger] t1[k],
                crate::event_log::rows_with_case(rows, distinct_cases_short(rows, n)[k]),
            ),
        forall|k: int|
            0 <= k < n ==> crate::event_log::trace_matches_rows(
                #[trigger] t2[k],
                crate::event_log::rows_with_case(rows, distinct_cases_short(rows, n)[k]),
            ),
    ensures
        log_obs(t1) == log_obs(t2),
        start_labels(t1) == start_labels(t2),
        end_labels(t1) == end_labels(t2),
        event_labels(t1) == event_labels(t2),
    decreases n,
{
    if n > 0 {
        let dc = distinct_cases(rows);
        let rows_n = crate::event_log::rows_with_case(rows, dc[n - 1]);
        assert forall|k: int|
            0 <= k < n - 1 implies crate::event_log::trace_matches_rows(
            #[trigger] t1.drop_last()[k],
            crate::event_log::rows_with_case(rows, distinct_cases_short(rows, n - 1)[k]),
        ) by {
            assert(t1.drop_last()[k] == t1[k]);
            assert(distinct_cases_short(rows, n - 1)[k] == distinct_cases_short(rows, n)[k]);
        }
        assert forall|k: int|
            0 <= k < n - 1 implies crate::event_log::trace_matches_rows(
            #[trigger] t2.drop_last()[k],
            crate::event_log::rows_with_case(rows, distinct_cases_short(rows, n - 1)[k]),
        ) by {
            assert(t2.drop_last()[k] == t2[k]);
            assert(distinct_cases_short(rows, n - 1)[k] == distinct_cases_short(rows, n)[k]);
        }
        lemma_grouping_determines_short(rows, t1.drop_last(), t2.drop_last(), n - 1);
        assert(distinct_cases_short(rows, n)[n - 1] == dc[n - 1]);
        lemma_trace_match_determines(t1[n - 1], t2[n - 1], rows_n);
        assert(t1.last() == t1[n - 1] && t2.last() == t2[n - 1]);
        assert(log_obs(t1) =~= log_obs(t2));
        assert(start_labels(t1) =~= start_labels(t2));
        assert(end_labels(t1) =~= end_labels(t2));
        assert(event_labels(t1) =~= event_labels(t2));
    }
}

/// The latencies observed for one pair, in observation order.
pub open spec fn pair_latencies(
    obs: Seq<((Seq<u8>, Seq<u8>), u64)>,
    k: (Seq<u8>, Seq<u8>),
) -> Seq<u64> {
    obs.filter(|o: ((Seq<u8>, Seq<u8>), u64)| o.0 == k).map(
        |i: int, o: ((Seq<u8>, Seq<u8>), u64)| o.1,
    )
}

proof fn lemma_pair_latencies_step(obs: Seq<((Seq<u8>, Seq<u8>), u64)>, k: (Seq<u8>, Seq<u8>))
    requires
        obs.len() > 0,
    ensures
        obs.last().0 == k ==> pair_latencies(obs, k) == pair_latencies(obs.drop_last(), k).push(
            obs.last().1,
        ),
        obs.last().0 != k ==> pair_latencies(obs, k) == pair_latencies(obs.drop_last(), k),
{
    reveal(Seq::filter);
    if obs.last().0 == k {
        assert(pair_latencies(obs, k) =~= pair_latencies(obs.drop_last(), k).push(obs.last().1));
    } else {
        assert(pair_latencies(obs, k) =~= pair_latencies(obs.drop_last(), k));
    }
}

proof fn lemma_pair_latencies_empty(obs: Seq<((Seq<u8>, Seq<u8>), u64)>, k: (Seq<u8>, Seq<u8>))
    requires
        forall|i: int| 0 <= i < obs.len() ==> (#[trigger] obs[i]).0 != k,
    ensures
        pair_latencies(obs, k).len() == 0,
    decreases obs.len(),
{
    reveal(Seq::filter);
    if obs.len() > 0 {
        assert forall|i: int| 0 <= i < obs.drop_last().len() implies (#[trigger] obs.drop_last()[
            i
        ]).0 != k by {
            assert(obs[i].0 != k);
        }
        lemma_pair_latencies_empty(obs.drop_last(), k);
    }
}

proof fn lemma_gather_has_key_iff(obs: Seq<((Seq<u8>, Seq<u8>), u64)>, l: (Seq<u8>, Seq<u8>))
    ensures
        gather_has_key(gather(obs), l) <==> (exists|i: int|
            0 <= i < obs.len() && (#[trigger] obs[i]).0 == l),
    decreases obs.len(),
{
    if obs.len() > 0 {
        lemma_gather_has_key_iff(obs.drop_last(), l);
        lemma_gather_distinct(obs.drop_last());
        lemma_gather_insert_keys(gather(obs.drop_last()), obs.last().0, obs.last().1);
        if gather_has_key(gather(obs), l) {
            if gather_has_key(gather(obs.drop_last()), l) {
                let i = choose|i: int|
                    0 <= i < obs.drop_last().len() && (#[trigger] obs.drop_last()[i]).0 == l;
                assert(obs[i].0 == l);
            } else {
                assert(l == obs.last().0);
                assert(obs[obs.len() - 1].0 == l);
            }
        }
        if exists|i: int| 0 <= i < obs.len() && (#[trigger] obs[i]).0 == l {
            let i = choose|i: int| 0 <= i < obs.len() && (#[trigger] obs[i]).0 == l;
            if i < obs.len() - 1 {
                assert(obs.drop_last()[i].0 == l);
            }
        }
    }
}

/// Each entry of the gathered mapping holds exactly its pair's observed
/// latencies, in observation order.
pub proof fn lemma_gather_latencies(obs: Seq<((Seq<u8>, Seq<u8>), u64)>)
    ensures
        forall|j: int|
            0 <= j < gather(obs).len() ==> (#[trigger] gather(obs)[j]).1 == pair_latencies(
                obs,
                gather(obs)[j].0,
            ),
    decreases obs.len(),
{
    if obs.len() > 0 {
        let prev = gather(obs.drop_last());
        let k0 = obs.last().0;
        let x0 = obs.last().1;
        let g = gather(obs);
        lemma_gather_latencies(obs.drop_last());
        lemma_gather_distinct(obs.drop_last());
        lemma_gather_has_key_iff(obs.drop_last(), k0);
        assert(g == gather_insert(prev, k0, x0));
        assert forall|j: int| 0 <= j < g.len() implies (#[trigger] g[j]).1 == pair_latencies(
            obs,
            g[j].0,
        ) by {
            if gather_has_key(prev, k0) {
                let p = choose|p: int| 0 <= p < prev.len() && (#[trigger] prev[p]).0 == k0;
                assert forall|i: int| 0 <= i < p implies (#[trigger] prev[i]).0 != k0 by {
                    assert(prev[i].0 != prev[p].0);
                }
                lemma_gather_insert_found(prev, p, k0, x0);
                if j == p {
                    lemma_pair_latencies_step(obs, k0);
                    assert(prev[p].1 == pair_latencies(obs.drop_last(), k0));
                } else {
                    assert(g[j] == prev[j]);
                    assert(prev[j].0 != prev[p].0);
                    lemma_pair_latencies_step(obs, prev[j].0);
                }
            } else {
                assert forall|i: int| 0 <= i < prev.len() implies (#[trigger] prev[i]).0
                    != k0 by {
                    assert(gather_has_key(prev, k0) || prev[i].0 != k0);
                }
                lemma_gather_insert_absent(prev, k0, x0);
                assert(g =~= prev.push((k0, seq![x0])));
                if j < prev.len() {
                    assert(g[j] == prev[j]);
                    assert(prev[j].0 != k0) by {
                        if prev[j].0 == k0 {
                            assert(gather_has_key(prev, k0));
                        }
                    }
                    lemma_pair_latencies_step(obs, prev[j].0);
                } else {
                    assert(g[j] == (k0, seq![x0]));
                    assert forall|i: int|
                        0 <= i < obs.drop_last().len() implies (#[trigger] obs.drop_last()[i]).0
                        != k0 by {
                        if obs.drop_last()[i].0 == k0 {
                            assert(obs[i].0 == k0);
                        }
                    }
                    lemma_pair_latencies_empty(obs.drop_last(), k0);
                    lemma_pair_latencies_step(obs, k0);
                    assert(pair_latencies(obs, k0) =~= seq![x0]);
                }
            }
        }
    }
}

/// Builds the placeholder label for a non-textual activity attribute.
pub fn make_placeholder_label() -> (r: Vec<u8>)
    ensures
        r@ == placeholder_label(),
{
    let mut v: Vec<u8> = Vec::new();
    v.push(78);
    v.push(79);
    v.push(84);
    v.push(32);
    v.push(65);
    v.push(32);
    v.push(83);
    v.push(84);
    v.push(82);
    v.push(73);
    v.push(78);
    v.push(71);
    proof {
        assert(v@ =~= placeholder_label());
    }
    v
}

/// Extracts the activity label of an attribute value.
pub fn extract_label(a: &AttrValue) -> (r: Vec<u8>)
    ensures
        r@ == label_of(*a),
{
    match a {
        AttrValue::Text(s) => copy_label(s),
        AttrValue::NonText => make_placeholder_label(),
    }
}

/// Whole seconds from `t1` to `t2` (microsecond timestamps), clamped to
/// zero.
pub fn latency_seconds(t1: i64, t2: i64) -> (r: u64)
    ensures
        r == latency_of(t1 as int, t2 as int),
{
    if t2 <= t1 {
        0
    } else {
        let d: i128 = (t2 as i128) - (t1 as i128);
        (d / 1000000) as u64
    }
}

fn dfg_insert(ret: &mut Vec<(DfgActivities, Vec<u64>)>, pair: DfgActivities, x: u64)
    ensures
        ret_view(final(ret)@) == gather_insert(
            ret_view(old(ret)@),
            (pair.act1@, pair.act2@),
            x,
        ),
{
    let ghost m = ret_view(old(ret)@);
    let ghost k = (pair.act1@, pair.act2@);
    let mut j: usize = 0;
    let mut found = false;
    while j < ret.len() && !found
        invariant
            j <= ret@.len(),
            ret@ == old(ret)@,
            m == ret_view(ret@),
            k == (pair.act1@, pair.act2@),
            found ==> j < m.len() && m[j as int].0 == k,
            forall|i: int| 0 <= i < j ==> (#[trigger] m[i]).0 != k,
        decreases m.len() - j + (if found {
            0int
        } else {
            1int
        }),
    {
        if bytes_eq(&ret[j].0.act1, &pair.act1) && bytes_eq(&ret[j].0.act2, &pair.act2) {
            found = true;
        } else {
            j = j + 1;
        }
    }
    if found {
        let mut entry = ret.remove(j);
        entry.1.push(x);
        let ghost updated = entry;
        ret.insert(j, entry);
        proof {
            assert(ret@ =~= old(ret)@.update(j as int, updated));
            lemma_gather_insert_found(m, j as int, k, x);
            assert(ret_view(ret@) =~= m.update(j as int, (m[j as int].0, m[j as int].1.push(x))));
        }
    } else {
        let mut obs: Vec<u64> = Vec::new();
        obs.push(x);
        ret.push((pair, obs));
        proof {
            assert(obs@ =~= seq![x]);
            lemma_gather_insert_absent(m, k, x);
            assert(ret_view(ret@) =~= m.push((k, seq![x])));
        }
    }
}

fn add_tally(t: &mut Vec<(Vec<u8>, u64)>, label: Vec<u8>, Ghost(bound): Ghost<int>)
    requires
        forall|i: int| 0 <= i < old(t)@.len() ==> (#[trigger] old(t)@[i]).1 <= bound,
        0 <= bound < u64::MAX,
    ensures
        tally_view(final(t)@) == tally_insert(tally_view(old(t)@), label@),
        forall|i: int| 0 <= i < final(t)@.len() ==> (#[trigger] final(t)@[i]).1 <= bound + 1,
{
    let ghost m = tally_view(old(t)@);
    let ghost k = label@;
    let mut j: usize = 0;
    let mut found = false;
    while j < t.len() && !found
        invariant
            j <= t@.len(),
            t@ == old(t)@,
            m == tally_view(t@),
            k == label@,
            found ==> j < m.len() && m[j as int].0 == k,
            forall|i: int| 0 <= i < j ==> (#[trigger] m[i]).0 != k,
        decreases m.len() - j + (if found {
            0int
        } else {
            1int
        }),
    {
        if bytes_eq(&t[j].0, &label) {
            found = true;
        } else {
            j = j + 1;
        }
    }
    if found {
        let entry = t.remove(j);
        let count = entry.1;
        proof {
            assert(old(t)@[j as int].1 <= bound);
        }
        let updated = (entry.0, count + 1);
        t.insert(j, updated);
        proof {
            assert(t@ =~= old(t)@.update(j as int, updated));
            lemma_tally_insert_found(m, j as int, k);
            assert(tally_view(t@) =~= m.update(j as int, (m[j as int].0, m[j as int].1 + 1)));
        }
    } else {
        t.push((label, 1));
        proof {
            lemma_tally_insert_absent(m, k);
            assert(tally_view(t@) =~= m.push((k, 1int)));
        }
    }
}

impl Dfg {
    /// An empty aggregate.
    pub fn new() -> (r: Self)
        ensures
            r.tuples@.len() == 0,
            r.ret@.len() == 0,
            r.start_activities@.len() == 0,
            r.end_activities@.len() == 0,
            r.unique_activities@.len() == 0,
    {
        Dfg {
            tuples: Vec::new(),
            ret: Vec::new(),
            start_activities: Vec::new(),
            end_activities: Vec::new(),
            unique_activities: Vec::new(),
        }
    }

    /// Aggregates the log: per-trace observation lists, the gathered pair
    /// mapping summarized to one median per pair, the start and end
    /// activity tallies, and the sorted distinct activity vocabulary.
    pub fn create_dfg_from_eventlog(&mut self, log: &EventLog)
        ensures
            final(self).tuples@.len() == log.traces@.len(),
            forall|i: int|
                0 <= i < log.traces@.len() ==> pairs_view((#[trigger] final(self).tuples@[i])@)
                    == trace_obs(log.traces@[i]),
            ret_view(final(self).ret@) == summarize(gather(log_obs(log.traces@))),
            tally_view(final(self).start_activities@) == tally(start_labels(log.traces@)),
            tally_view(final(self).end_activities@) == tally(end_labels(log.traces@)),
            labels_view(final(self).unique_activities@) == dedup(event_labels(log.traces@)).sort_by(
                lex_le_fn(),
            ),
    {
        let ghost ts = log.traces@;
        let n = log.traces.len();
        // Distinct activity vocabulary, in order of first appearance.
        let mut vocab: Vec<Vec<u8>> = Vec::new();
        let mut k: usize = 0;
        proof {
            assert(ts.take(0) =~= Seq::<Traces>::empty());
            assert(labels_view(vocab@) =~= dedup(event_labels(ts.take(0))));
        }
        while k < n
            invariant
                k <= n,
                n == ts.len(),
                log.traces@ == ts,
                labels_view(vocab@) == dedup(event_labels(ts.take(k as int))),
            decreases n - k,
        {
            let ghost base = event_labels(ts.take(k as int));
            let events = &log.traces[k].events;
            let mut q: usize = 0;
            proof {
                assert(trace_labels(ts[k as int]).take(0) =~= Seq::<Seq<u8>>::empty());
                assert(base + trace_labels(ts[k as int]).take(0) =~= base);
            }
            while q < events.len()
                invariant
                    q <= events@.len(),
                    k < n,
                    n == ts.len(),
                    log.traces@ == ts,
                    events@ == ts[k as int].events@,
                    base == event_labels(ts.take(k as int)),
                    labels_view(vocab@) == dedup(
                        base + trace_labels(ts[k as int]).take(q as int),
                    ),
                decreases events@.len() - q,
            {
                let lab = extract_label(&events[q].activity);
                let ghost lv = lab@;
                proof {
                    assert(lv == trace_labels(ts[k as int])[q as int]);
                }
                let mut j: usize = 0;
                let mut present = false;
                while j < vocab.len() && !present
                    invariant
                        j <= vocab@.len(),
                        lab@ == lv,
                        present ==> exists|m: int|
                            0 <= m < vocab@.len() && (#[trigger] vocab@[m])@ == lv,
                        forall|m: int| 0 <= m < j ==> (#[trigger] vocab@[m])@ != lv,
                    decreases vocab@.len() - j + (if present {
                        0int
                    } else {
                        1int
                    }),
                {
                    if bytes_eq(&vocab[j], &lab) {
                        present = true;
                    } else {
                        j = j + 1;
                    }
                }
                proof {
                    let prefix = base + trace_labels(ts[k as int]).take(q as int);
                    assert(present == dedup(prefix).contains(lv)) by {
                        if present {
                            let m = choose|m: int|
                                0 <= m < vocab@.len() && (#[trigger] vocab@[m])@ == lv;
                            assert(dedup(prefix)[m] == lv);
                        } else {
                            assert forall|m: int| 0 <= m < dedup(prefix).len() implies dedup(
                                prefix,
                            )[m] != lv by {
                                assert(vocab@[m]@ != lv);
                            }
                        }
                    }
                    let ext = prefix.push(lv);
                    assert(ext.drop_last() =~= prefix);
                    assert(ext =~= base + trace_labels(ts[k as int]).take(q + 1));
                }
                if !present {
                    vocab.push(lab);
                    proof {
                        assert(labels_view(vocab@) =~= dedup(
                            base + trace_labels(ts[k as int]).take(q + 1),
                        ));
                    }
                } else {
                    proof {
                        assert(labels_view(vocab@) =~= dedup(
                            base + trace_labels(ts[k as int]).take(q + 1),
                        ));
                    }
                }
                q = q + 1;
            }
            proof {
                assert(trace_labels(ts[k as int]).take(events@.len() as int) =~= trace_labels(
                    ts[k as int],
                ));
                assert(ts.take(k + 1).drop_last() =~= ts.take(k as int));
                assert(ts.take(k + 1).last() == ts[k as int]);
                assert(event_labels(ts.take(k + 1)) =~= base + trace_labels(ts[k as int]));
            }
            k = k + 1;
        }
        proof {
            assert(ts.take(ts.len() as int) =~= ts);
        }
        crate::order::sort_labels(&mut vocab);
        // Per-trace observation lists.
        let mut tuples: Vec<Vec<(DfgActivities, u64)>> = Vec::new();
        let mut k2: usize = 0;
        while k2 < n
            invariant
                k2 <= n,
                n == ts.len(),
                log.traces@ == ts,
                tuples@.len() == k2,
                forall|i: int|
                    0 <= i < k2 ==> pairs_view((#[trigger] tuples@[i])@) == trace_obs(ts[i]),
            decreases n - k2,
        {
            let events = &log.traces[k2].events;
            let mut cur: Vec<(DfgActivities, u64)> = Vec::new();
            proof {
                assert(pairs_view(cur@) =~= Seq::<((Seq<u8>, Seq<u8>), u64)>::empty());
            }
            if events.len() > 0 {
                let mut i: usize = 1;
                proof {
                    assert(trace_obs(ts[k2 as int]).take(0) =~= Seq::<
                        ((Seq<u8>, Seq<u8>), u64),
                    >::empty());
                    assert(pairs_view(cur@) =~= trace_obs(ts[k2 as int]).take(0));
                }
                while i < events.len()
                    invariant
                        1 <= i,
                        i <= events@.len(),
                        k2 < n,
                        n == ts.len(),
                        log.traces@ == ts,
                        events@ == ts[k2 as int].events@,
                        events@.len() > 0,
                        pairs_view(cur@) == trace_obs(ts[k2 as int]).take(i - 1),
                    decreases events@.len() - i,
                {
                    let act1 = extract_label(&events[i - 1].activity);
                    let act2 = extract_label(&events[i].activity);
                    let lat = latency_seconds(events[i - 1].timestamp, events[i].timestamp);
                    let ghost before = pairs_view(cur@);
                    cur.push((DfgActivities { act1, act2 }, lat));
                    proof {
                        let ob = trace_obs(ts[k2 as int]);
                        assert(pairs_view(cur@) =~= before.push(ob[i - 1]));
                        assert(ob.take(i as int) =~= ob.take(i - 1).push(ob[i - 1]));
                    }
                    i = i + 1;
                }
                proof {
                    let ob = trace_obs(ts[k2 as int]);
                    assert(ob.take(events@.len() - 1) =~= ob);
                }
            }
            tuples.push(cur);
            k2 = k2 + 1;
        }
        // Gather the observations into the pair mapping.
        let mut ret: Vec<(DfgActivities, Vec<u64>)> = Vec::new();
        let mut k3: usize = 0;
        proof {
            assert(ts.take(0) =~= Seq::<Traces>::empty());
            assert(ret_view(ret@) =~= gather(log_obs(ts.take(0))));
        }
        while k3 < n
            invariant
                k3 <= n,
                n == ts.len(),
                tuples@.len() == n,
                forall|i: int|
                    0 <= i < n ==> pairs_view((#[trigger] tuples@[i])@) == trace_obs(ts[i]),
                ret_view(ret@) == gather(log_obs(ts.take(k3 as int))),
            decreases n - k3,
        {
            let m = tuples[k3].len();
            let mut q: usize = 0;
            proof {
                assert(trace_obs(ts[k3 as int]).take(0) =~= Seq::<
                    ((Seq<u8>, Seq<u8>), u64),
                >::empty());
                assert(log_obs(ts.take(k3 as int)) + trace_obs(ts[k3 as int]).take(0) =~= log_obs(
                    ts.take(k3 as int),
                ));
            }
            while q < m
                invariant
                    q <= m,
                    k3 < n,
                    n == ts.len(),
                    tuples@.len() == n,
                    m == tuples@[k3 as int]@.len(),
                    forall|i: int|
                        0 <= i < n ==> pairs_view((#[trigger] tuples@[i])@) == trace_obs(ts[i]),
                    ret_view(ret@) == gather(
                        log_obs(ts.take(k3 as int)) + trace_obs(ts[k3 as int]).take(q as int),
                    ),
                decreases m - q,
            {
                let pair = DfgActivities {
                    act1: copy_label(&tuples[k3][q].0.act1),
                    act2: copy_label(&tuples[k3][q].0.act2),
                };
                let x = tuples[k3][q].1;
                proof {
                    assert(pairs_view(tuples@[k3 as int]@)[q as int] == trace_obs(
                        ts[k3 as int],
                    )[q as int]);
                }
                dfg_insert(&mut ret, pair, x);
                proof {
                    let prefix = log_obs(ts.take(k3 as int)) + trace_obs(ts[k3 as int]).take(
                        q as int,
                    );
                    let ob = trace_obs(ts[k3 as int])[q as int];
                    let ext = prefix.push(ob);
                    assert(ext.drop_last() =~= prefix);
                    assert(gather(ext) == gather_insert(gather(prefix), ob.0, ob.1));
                    assert(ext =~= log_obs(ts.take(k3 as int)) + trace_obs(ts[k3 as int]).take(
                        q + 1,
                    ));
                }
                q = q + 1;
            }
            proof {
                assert(trace_obs(ts[k3 as int]).take(m as int) =~= trace_obs(ts[k3 as int]));
                assert(ts.take(k3 + 1).drop_last() =~= ts.take(k3 as int));
                assert(ts.take(k3 + 1).last() == ts[k3 as int]);
                assert(log_obs(ts.take(k3 + 1)) =~= log_obs(ts.take(k3 as int)) + trace_obs(
                    ts[k3 as int],
                ));
            }
            k3 = k3 + 1;
        }
        proof {
            assert(ts.take(ts.len() as int) =~= ts);
        }
        // End activity tallies.
        let mut end_acts: Vec<(Vec<u8>, u64)> = Vec::new();
        let mut k4: usize = 0;
        proof {
            assert(ts.take(0) =~= Seq::<Traces>::empty());
            assert(tally_view(end_acts@) =~= tally(end_labels(ts.take(0))));
        }
        while k4 < n
            invariant
                k4 <= n,
                n == ts.len(),
                log.traces@ == ts,
                tally_view(end_acts@) == tally(end_labels(ts.take(k4 as int))),
                forall|i: int| 0 <= i < end_acts@.len() ==> (#[trigger] end_acts@[i]).1 <= k4,
            decreases n - k4,
        {
            let events = &log.traces[k4].events;
            proof {
                assert(ts.take(k4 + 1).drop_last() =~= ts.take(k4 as int));
                assert(ts.take(k4 + 1).last() == ts[k4 as int]);
            }
            if events.len() > 0 {
                let lab = extract_label(&events[events.len() - 1].activity);
                add_tally(&mut end_acts, lab, Ghost(k4 as int));
                proof {
                    let prev = end_labels(ts.take(k4 as int));
                    let l = label_of(
                        ts[k4 as int].events@[ts[k4 as int].events@.len() - 1].activity,
                    );
                    assert(end_labels(ts.take(k4 + 1)) == prev.push(l));
                    assert(prev.push(l).drop_last() =~= prev);
                    assert(prev.push(l).last() == l);
                    assert(tally(prev.push(l)) == tally_insert(tally(prev), l));
                }
            }
            k4 = k4 + 1;
        }
        // Start activity tallies.
        let mut start_acts: Vec<(Vec<u8>, u64)> = Vec::new();
        let mut k5: usize = 0;
        proof {
            assert(ts.take(0) =~= Seq::<Traces>::empty());
            assert(tally_view(start_acts@) =~= tally(start_labels(ts.take(0))));
        }
        while k5 < n
            invariant
                k5 <= n,
                n == ts.len(),
                log.traces@ == ts,
                tally_view(start_acts@) == tally(start_labels(ts.take(k5 as int))),
                forall|i: int| 0 <= i < start_acts@.len() ==> (#[trigger] start_acts@[i]).1 <= k5,
            decreases n - k5,
        {
            let events = &log.traces[k5].events;
            proof {
                assert(ts.take(k5 + 1).drop_last() =~= ts.take(k5 as int));
                assert(ts.take(k5 + 1).last() == ts[k5 as int]);
            }
            if events.len() > 0 {
                let lab = extract_label(&events[0].activity);
                add_tally(&mut start_acts, lab, Ghost(k5 as int));
                proof {
                    let prev = start_labels(ts.take(k5 as int));
                    let l = label_of(ts[k5 as int].events@[0].activity);
                    assert(start_labels(ts.take(k5 + 1)) == prev.push(l));
                    assert(prev.push(l).drop_last() =~= prev);
                    assert(prev.push(l).last() == l);
                    assert(tally(prev.push(l)) == tally_insert(tally(prev), l));
                }
            }
            k5 = k5 + 1;
        }
        proof {
            assert(tally_view(end_acts@) == tally(end_labels(ts)));
            assert(tally_view(start_acts@) == tally(start_labels(ts)));
        }
        // Reduce every pair's latency list to its median.
        let ghost gathered = gather(log_obs(ts));
        let mut j: usize = 0;
        while j < ret.len()
            invariant
                j <= ret@.len(),
                ret_view(ret@).len() == gathered.len(),
                ret@.len() == gathered.len(),
                forall|i: int|
                    0 <= i < j ==> ret_view(ret@)[i] == (
                        gathered[i].0,
                        seq![median_of(gathered[i].1)],
                    ),
                forall|i: int| j <= i < gathered.len() ==> ret_view(ret@)[i] == gathered[i],
            decreases ret@.len() - j,
        {
            let ghost before = ret@;
            let entry = ret.remove(j);
            let (pair, mut obs) = entry;
            proof {
                assert(ret_view(before)[j as int] == gathered[j as int]);
                assert(obs@ == gathered[j as int].1);
            }
            let med = median(&mut obs);
            let mut single: Vec<u64> = Vec::new();
            single.push(med);
            let ghost replacement = (pair, single);
            ret.insert(j, (pair, single));
            proof {
                assert(ret@ =~= before.update(j as int, replacement));
                assert(single@ =~= seq![median_of(gathered[j as int].1)]);
                assert forall|i: int| 0 <= i < gathered.len() implies #[trigger] ret_view(ret@)[i]
                    == (if i <= j {
                    (gathered[i].0, seq![median_of(gathered[i].1)])
                } else {
                    gathered[i]
                }) by {
                    if i < j {
                        assert(ret_view(ret@)[i] == ret_view(before)[i]);
                    } else if i == j {
                    } else {
                        assert(ret_view(ret@)[i] == ret_view(before)[i]);
                    }
                }
            }
            j = j + 1;
        }
        proof {
            assert(ret_view(ret@) =~= summarize(gathered));
        }
        self.tuples = tuples;
        self.ret = ret;
        self.start_activities = start_acts;
        self.end_activities = end_acts;
        self.unique_activities = vocab;
    }
}

} // verus!
