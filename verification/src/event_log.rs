//! Grouping of source rows into per-case traces.
//!
//! The ingested dataset is a sequence of rows, each carrying a case
//! identifier, an activity attribute and a timestamp.  Rows sharing a case
//! identifier form one trace, in the order the source presents them; one
//! trace exists per distinct case identifier, in order of first appearance.

use vstd::prelude::*;

use crate::order::{bytes_eq, copy_label, labels_view};

verus! {

/// The value of an event's activity attribute: either text (UTF-8 bytes) or,
/// degraded, a value of some other type.
#[derive(Debug, Clone, PartialEq, Eq)]
pub enum AttrValue {
    Text(Vec<u8>),
    NonText,
}

/// One source row: the case identifier it belongs to, its activity attribute
/// and its timestamp in microseconds.
#[derive(Debug, Clone, PartialEq, Eq)]
pub struct EventRow {
    pub case_id: Vec<u8>,
    pub activity: AttrValue,
    pub timestamp: i64,
}

/// One event of a trace: the two load-bearing attributes of a source row.
#[derive(Debug, PartialEq, Eq)]
pub struct Event {
    pub activity: AttrValue,
    pub timestamp: i64,
}

/// One trace: the case identifier, kept as the trace's name attribute, and
/// the ordered events sharing it.
#[derive(Debug, PartialEq, Eq)]
pub struct Traces {
    pub name: Vec<u8>,
    pub events: Vec<Event>,
}

/// An event log: one trace per distinct case identifier of the source rows.
#[derive(Debug, PartialEq, Eq)]
pub struct EventLog {
    pub traces: Vec<Traces>,
}

/// The textual content of an activity attribute, if it has one.
pub open spec fn attr_view(a: AttrValue) -> Option<Seq<u8>> {
    match a {
        AttrValue::Text(s) => Some(s@),
        AttrValue::NonText => None,
    }
}

/// An event carries exactly the load-bearing attributes of a row.
pub open spec fn event_matches_row(e: Event, r: EventRow) -> bool {
    &&& attr_view(e.activity) == attr_view(r.activity)
    &&& e.timestamp == r.timestamp
}

/// The distinct case identifiers of `rows`, in order of first appearance.
pub open spec fn distinct_cases(rows: Seq<EventRow>) -> Seq<Seq<u8>>
    decreases rows.len(),
{
    if rows.len() == 0 {
        Seq::empty()
    } else {
        let prev = distinct_cases(rows.drop_last());
        if prev.contains(rows.last().case_id@) {
            prev
        } else {
            prev.push(rows.last().case_id@)
        }
    }
}

/// The rows of `rows` whose case identifier is `c`, in source order.
pub open spec fn rows_with_case(rows: Seq<EventRow>, c: Seq<u8>) -> Seq<EventRow>
    decreases rows.len(),
{
    if rows.len() == 0 {
        Seq::empty()
    } else if rows.last().case_id@ == c {
        rows_with_case(rows.drop_last(), c).push(rows.last())
    } else {
        rows_with_case(rows.drop_last(), c)
    }
}

/// A trace holds one event per row of `rs`, in order.
pub open spec fn trace_matches_rows(t: Traces, rs: Seq<EventRow>) -> bool {
    &&& t.events@.len() == rs.len()
    &&& forall|j: int| 0 <= j < rs.len() ==> event_matches_row(#[trigger] t.events@[j], rs[j])
}

/// The distinct case identifiers are exactly the case identifiers occurring
/// in the rows, each exactly once: together with the length clause of
/// `create_event_log` this states that the number of traces equals the
/// number of distinct case identifiers of the log.
pub proof fn lemma_distinct_cases_exact(rows: Seq<EventRow>)
    ensures
        distinct_cases(rows).no_duplicates(),
        forall|c: Seq<u8>|
            #[trigger] distinct_cases(rows).contains(c) <==> (exists|i: int|
                0 <= i < rows.len() && (#[trigger] rows[i]).case_id@ == c),
    decreases rows.len(),
{
    if rows.len() > 0 {
        lemma_distinct_cases_exact(rows.drop_last());
        let prev = distinct_cases(rows.drop_last());
        let dc = distinct_cases(rows);
        assert forall|c: Seq<u8>| #[trigger] dc.contains(c) implies (exists|i: int|
            0 <= i < rows.len() && (#[trigger] rows[i]).case_id@ == c) by {
            if prev.contains(c) {
                let i = choose|i: int|
                    0 <= i < rows.drop_last().len() && (#[trigger] rows.drop_last()[i]).case_id@
                        == c;
                assert(rows[i].case_id@ == c);
            } else {
                assert(rows[rows.len() - 1].case_id@ == c);
            }
        }
        assert forall|c: Seq<u8>| (exists|i: int|
            0 <= i < rows.len() && (#[trigger] rows[i]).case_id@ == c) implies #[trigger] dc.contains(
            c,
        ) by {
            let i = choose|i: int| 0 <= i < rows.len() && (#[trigger] rows[i]).case_id@ == c;
            if i < rows.len() - 1 {
                assert(rows.drop_last()[i].case_id@ == c);
                assert(prev.contains(c));
                if !prev.contains(rows.last().case_id@) {
                    assert(dc == prev.push(rows.last().case_id@));
                    let k = choose|k: int| 0 <= k < prev.len() && prev[k] == c;
                    assert(dc[k] == c);
                }
            } else {
                if prev.contains(rows.last().case_id@) {
                } else {
                    assert(dc[dc.len() - 1] == c);
                }
            }
        }
    }
}

/// Copies an activity attribute value.
pub fn copy_attr(a: &AttrValue) -> (r: AttrValue)
    ensures
        attr_view(r) == attr_view(*a),
{
    match a {
        AttrValue::Text(s) => AttrValue::Text(copy_label(s)),
        AttrValue::NonText => AttrValue::NonText,
    }
}

impl EventLog {
    /// An empty event log.
    pub fn new() -> (r: Self)
        ensures
            r.traces@.len() == 0,
    {
        EventLog { traces: Vec::new() }
    }

    /// Partitions the rows into traces: one trace per distinct case
    /// identifier, in order of first appearance, each holding one event per
    /// row of that case, in source order.
    pub fn create_event_log(&mut self, rows: &Vec<EventRow>)
        ensures
            final(self).traces@.len() == distinct_cases(rows@).len(),
            forall|k: int|
                0 <= k < distinct_cases(rows@).len() ==> (#[trigger] final(self).traces@[k]).name@
                    == distinct_cases(rows@)[k],
            forall|k: int|
                0 <= k < distinct_cases(rows@).len() ==> trace_matches_rows(
                    #[trigger] final(self).traces@[k],
                    rows_with_case(rows@, distinct_cases(rows@)[k]),
                ),
    {
        let ghost all = rows@;
        // First pass: the distinct case identifiers, in order of first
        // appearance.
        let mut names: Vec<Vec<u8>> = Vec::new();
        let mut i: usize = 0;
        proof {
            assert(all.take(0) =~= Seq::<EventRow>::empty());
            assert(labels_view(names@) =~= distinct_cases(all.take(0)));
        }
        while i < rows.len()
            invariant
                i <= all.len(),
                rows@ == all,
                labels_view(names@) == distinct_cases(all.take(i as int)),
            decreases all.len() - i,
        {
            let c = &rows[i].case_id;
            let mut j: usize = 0;
            let mut present = false;
            while j < names.len() && !present
                invariant
                    j <= names@.len(),
                    i < all.len(),
                    rows@ == all,
                    c@ == all[i as int].case_id@,
                    present ==> exists|m: int| 0 <= m < names@.len() && names@[m]@ == c@,
                    !present ==> forall|m: int| 0 <= m < j ==> (#[trigger] names@[m])@ != c@,
                decreases names@.len() - j + (if present {
                    0int
                } else {
                    1int
                }),
            {
                if bytes_eq(&names[j], c) {
                    present = true;
                } else {
                    j = j + 1;
                }
            }
            proof {
                let dc = distinct_cases(all.take(i as int));
                assert(present == dc.contains(c@)) by {
                    if present {
                        let m = choose|m: int| 0 <= m < names@.len() && names@[m]@ == c@;
                        assert(dc[m] == c@);
                    } else {
                        assert forall|m: int| 0 <= m < dc.len() implies dc[m] != c@ by {
                            assert(names@[m]@ != c@);
                        }
                    }
                }
                assert(all.take(i + 1).drop_last() =~= all.take(i as int));
                assert(all.take(i + 1).last() == all[i as int]);
            }
            if !present {
                let owned = copy_label(c);
                names.push(owned);
                proof {
                    assert(labels_view(names@) =~= distinct_cases(all.take(i + 1)));
                }
            } else {
                proof {
                    assert(labels_view(names@) =~= distinct_cases(all.take(i + 1)));
                }
            }
            i = i + 1;
        }
        proof {
            assert(all.take(all.len() as int) =~= all);
        }
        // Second pass: collect each case's events, in source order.
        let mut traces: Vec<Traces> = Vec::new();
        let mut k: usize = 0;
        while k < names.len()
            invariant
                k <= names@.len(),
                rows@ == all,
                labels_view(names@) == distinct_cases(all),
                traces@.len() == k,
                forall|m: int|
                    0 <= m < k ==> (#[trigger] traces@[m]).name@ == distinct_cases(all)[m],
                forall|m: int|
                    0 <= m < k ==> trace_matches_rows(
                        #[trigger] traces@[m],
                        rows_with_case(all, distinct_cases(all)[m]),
                    ),
            decreases names@.len() - k,
        {
            let ghost c = names@[k as int]@;
            let mut events: Vec<Event> = Vec::new();
            let mut i2: usize = 0;
            proof {
                assert(all.take(0) =~= Seq::<EventRow>::empty());
            }
            while i2 < rows.len()
                invariant
                    i2 <= all.len(),
                    rows@ == all,
                    k < names@.len(),
                    c == names@[k as int]@,
                    events@.len() == rows_with_case(all.take(i2 as int), c).len(),
                    forall|j: int|
                        0 <= j < events@.len() ==> event_matches_row(
                            #[trigger] events@[j],
                            rows_with_case(all.take(i2 as int), c)[j],
                        ),
                decreases all.len() - i2,
            {
                proof {
                    assert(all.take(i2 + 1).drop_last() =~= all.take(i2 as int));
                    assert(all.take(i2 + 1).last() == all[i2 as int]);
                }
                if bytes_eq(&rows[i2].case_id, &names[k]) {
                    let e = Event {
                        activity: copy_attr(&rows[i2].activity),
                        timestamp: rows[i2].timestamp,
                    };
                    events.push(e);
                }
                i2 = i2 + 1;
            }
            proof {
                assert(all.take(all.len() as int) =~= all);
            }
            let name = copy_label(&names[k]);
            traces.push(Traces { name, events });
            k = k + 1;
        }
        self.traces = traces;
    }
}

} // verus!
