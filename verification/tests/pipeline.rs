use dfg_discovery::dfg::Dfg;
use dfg_discovery::event_log::{AttrValue, EventLog, EventRow};
use dfg_discovery::stats::median;

fn text_row(case: &str, act: &str, ts_micros: i64) -> EventRow {
    EventRow {
        case_id: case.as_bytes().to_vec(),
        activity: AttrValue::Text(act.as_bytes().to_vec()),
        timestamp: ts_micros,
    }
}

const SECOND: i64 = 1_000_000;

#[test]
fn median_of_empty_is_zero() {
    let mut v: Vec<u64> = Vec::new();
    assert_eq!(median(&mut v), 0);
}

#[test]
fn median_of_singleton() {
    let mut v = vec![7u64];
    assert_eq!(median(&mut v), 7);
}

#[test]
fn median_of_even_count_truncates() {
    let mut v = vec![3u64, 5];
    assert_eq!(median(&mut v), 4);
    let mut w = vec![5u64, 6];
    assert_eq!(median(&mut w), 5);
}

#[test]
fn median_of_odd_count_is_middle() {
    let mut v = vec![9u64, 1, 5];
    assert_eq!(median(&mut v), 5);
    assert_eq!(v, vec![1, 5, 9]);
}

#[test]
fn grouping_one_trace_per_distinct_case() {
    let rows = vec![
        text_row("x", "A", 0),
        text_row("y", "A", 0),
        text_row("x", "B", SECOND),
        text_row("z", "A", 0),
        text_row("y", "C", 2 * SECOND),
    ];
    let mut log = EventLog::new();
    log.create_event_log(&rows);
    assert_eq!(log.traces.len(), 3);
    assert_eq!(log.traces[0].name, b"x".to_vec());
    assert_eq!(log.traces[1].name, b"y".to_vec());
    assert_eq!(log.traces[2].name, b"z".to_vec());
    // each trace holds exactly the rows of its case, in source order
    assert_eq!(log.traces[0].events.len(), 2);
    assert_eq!(log.traces[1].events.len(), 2);
    assert_eq!(log.traces[2].events.len(), 1);
    assert_eq!(
        log.traces[0].events[0].activity,
        AttrValue::Text(b"A".to_vec())
    );
    assert_eq!(
        log.traces[0].events[1].activity,
        AttrValue::Text(b"B".to_vec())
    );
    assert_eq!(log.traces[1].events[1].timestamp, 2 * SECOND);
}

#[test]
fn nontextual_activity_becomes_placeholder() {
    let rows = vec![
        EventRow {
            case_id: b"c".to_vec(),
            activity: AttrValue::NonText,
            timestamp: 0,
        },
        text_row("c", "B", 4 * SECOND),
    ];
    let mut log = EventLog::new();
    log.create_event_log(&rows);
    let mut dfg = Dfg::new();
    dfg.create_dfg_from_eventlog(&log);
    assert_eq!(dfg.ret.len(), 1);
    assert_eq!(dfg.ret[0].0.act1, b"NOT A STRING".to_vec());
    assert_eq!(dfg.ret[0].0.act2, b"B".to_vec());
    assert_eq!(dfg.ret[0].1, vec![4]);
    // the placeholder is tallied as a start activity
    assert_eq!(dfg.start_activities.len(), 1);
    assert_eq!(dfg.start_activities[0].0, b"NOT A STRING".to_vec());
    assert_eq!(dfg.start_activities[0].1, 1);
}

#[test]
fn negative_time_gap_clamps_to_zero() {
    let rows = vec![text_row("c", "A", 9 * SECOND), text_row("c", "B", 2 * SECOND)];
    let mut log = EventLog::new();
    log.create_event_log(&rows);
    let mut dfg = Dfg::new();
    dfg.create_dfg_from_eventlog(&log);
    assert_eq!(dfg.ret.len(), 1);
    assert_eq!(dfg.ret[0].1, vec![0]);
}

#[test]
fn empty_trace_is_skipped() {
    let log = EventLog {
        traces: vec![dfg_discovery::event_log::Traces {
            name: b"empty".to_vec(),
            events: Vec::new(),
        }],
    };
    let mut dfg = Dfg::new();
    dfg.create_dfg_from_eventlog(&log);
    assert!(dfg.ret.is_empty());
    assert!(dfg.start_activities.is_empty());
    assert!(dfg.end_activities.is_empty());
    assert!(dfg.tuples[0].is_empty());
}

#[test]
fn start_and_end_tallies_total_nonempty_traces() {
    let rows = vec![
        text_row("1", "A", 0),
        text_row("2", "A", 0),
        text_row("3", "B", 0),
        text_row("1", "C", SECOND),
        text_row("2", "B", SECOND),
    ];
    let mut log = EventLog::new();
    log.create_event_log(&rows);
    let mut dfg = Dfg::new();
    dfg.create_dfg_from_eventlog(&log);
    let start_total: u64 = dfg.start_activities.iter().map(|e| e.1).sum();
    let end_total: u64 = dfg.end_activities.iter().map(|e| e.1).sum();
    assert_eq!(start_total, 3);
    assert_eq!(end_total, 3);
    assert_eq!(dfg.start_activities, vec![(b"A".to_vec(), 2), (b"B".to_vec(), 1)]);
}

#[test]
fn vocabulary_is_sorted_and_distinct() {
    let rows = vec![
        text_row("1", "beta", 0),
        text_row("1", "alpha", SECOND),
        text_row("2", "beta", 0),
        text_row("2", "gamma", SECOND),
    ];
    let mut log = EventLog::new();
    log.create_event_log(&rows);
    let mut dfg = Dfg::new();
    dfg.create_dfg_from_eventlog(&log);
    assert_eq!(
        dfg.unique_activities,
        vec![b"alpha".to_vec(), b"beta".to_vec(), b"gamma".to_vec()]
    );
}

#[test]
fn end_to_end_two_traces() {
    // Two traces A -> B -> C; trace 1 at 0s, 5s, 10s; trace 2 at 0s, 3s, 9s.
    let rows = vec![
        text_row("1", "A", 0),
        text_row("1", "B", 5 * SECOND),
        text_row("1", "C", 10 * SECOND),
        text_row("2", "A", 0),
        text_row("2", "B", 3 * SECOND),
        text_row("2", "C", 9 * SECOND),
    ];
    let mut log = EventLog::new();
    log.create_event_log(&rows);
    assert_eq!(log.traces.len(), 2);
    let mut dfg = Dfg::new();
    dfg.create_dfg_from_eventlog(&log);
    // pair (A,B): latencies {5,3} -> median 4; pair (B,C): {5,6} -> median 5
    assert_eq!(dfg.ret.len(), 2);
    assert_eq!(dfg.ret[0].0.act1, b"A".to_vec());
    assert_eq!(dfg.ret[0].0.act2, b"B".to_vec());
    assert_eq!(dfg.ret[0].1, vec![4]);
    assert_eq!(dfg.ret[1].0.act1, b"B".to_vec());
    assert_eq!(dfg.ret[1].0.act2, b"C".to_vec());
    assert_eq!(dfg.ret[1].1, vec![5]);
    assert_eq!(dfg.start_activities, vec![(b"A".to_vec(), 2)]);
    assert_eq!(dfg.end_activities, vec![(b"C".to_vec(), 2)]);

    assert!(dfg.visualization_ready());
    let g = dfg.visualize_dfg();

    // both pairs retained, ranked by descending weight
    assert_eq!(g.edges.len(), 2);
    assert_eq!(dfg.ret.len(), 2);
    // nodes are the sorted vertex set A, B, C with ids 0, 1, 2
    assert_eq!(g.nodes.len(), 3);
    assert_eq!(g.nodes[0].id, b"0".to_vec());
    assert_eq!(g.nodes[1].id, b"1".to_vec());
    assert_eq!(g.nodes[2].id, b"2".to_vec());
    // activity weights: A = 0 + 2 (start tally), B = 4 (edge A->B), C = 5
    assert_eq!(g.nodes[0].label, b"A (2)".to_vec());
    assert_eq!(g.nodes[1].label, b"B (4)".to_vec());
    assert_eq!(g.nodes[2].label, b"C (5)".to_vec());
    // colors: scale over [2, 5]: A -> 255, B -> 255 - 67, C -> 255 - 100
    assert_eq!(g.nodes[0].fillcolor, b"#FFFFFF".to_vec());
    assert_eq!(g.nodes[1].fillcolor, b"#BCBCFF".to_vec());
    assert_eq!(g.nodes[2].fillcolor, b"#9B9BFF".to_vec());
    // edge ranking: (B,C) with weight 5 first, then (A,B) with weight 4
    assert_eq!(g.edges[0].from, b"1".to_vec());
    assert_eq!(g.edges[0].to, b"2".to_vec());
    assert_eq!(g.edges[0].label, b"5".to_vec());
    assert_eq!(g.edges[1].from, b"0".to_vec());
    assert_eq!(g.edges[1].to, b"1".to_vec());
    assert_eq!(g.edges[1].label, b"4".to_vec());
    // penwidths: maximum maps to 2.6 within tolerance, minimum to exactly 1.0
    assert_eq!(g.edges[0].penwidth_micros, 2_599_984);
    assert_eq!(g.edges[1].penwidth_micros, 1_000_000);
    // start and end pseudo edges
    assert_eq!(g.start_edges.len(), 1);
    assert_eq!(g.start_edges[0].node, b"0".to_vec());
    assert_eq!(g.start_edges[0].label, b"2".to_vec());
    assert_eq!(g.end_edges.len(), 1);
    assert_eq!(g.end_edges[0].node, b"2".to_vec());
    assert_eq!(g.end_edges[0].label, b"2".to_vec());
}

#[test]
fn runs_are_deterministic() {
    let rows = vec![
        text_row("1", "A", 0),
        text_row("1", "B", 5 * SECOND),
        text_row("2", "B", 0),
        text_row("2", "A", 7 * SECOND),
        text_row("3", "A", 0),
        text_row("3", "B", 5 * SECOND),
    ];
    let mut log1 = EventLog::new();
    log1.create_event_log(&rows);
    let mut dfg1 = Dfg::new();
    dfg1.create_dfg_from_eventlog(&log1);
    let g1 = dfg1.visualize_dfg();

    let mut log2 = EventLog::new();
    log2.create_event_log(&rows);
    let mut dfg2 = Dfg::new();
    dfg2.create_dfg_from_eventlog(&log2);
    let g2 = dfg2.visualize_dfg();

    assert_eq!(g1, g2);
    assert_eq!(dfg1.ret, dfg2.ret);
}
