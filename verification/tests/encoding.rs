use dfg_discovery::dfg::{Dfg, DfgActivities};
use dfg_discovery::event_log::{AttrValue, EventLog, EventRow};
use dfg_discovery::graph::{u64_to_dec, EDGE_CAP};

fn text_row(case: &str, act: &str, ts_micros: i64) -> EventRow {
    EventRow {
        case_id: case.as_bytes().to_vec(),
        activity: AttrValue::Text(act.as_bytes().to_vec()),
        timestamp: ts_micros,
    }
}

const SECOND: i64 = 1_000_000;

#[test]
fn decimal_rendering() {
    assert_eq!(u64_to_dec(0), b"0".to_vec());
    assert_eq!(u64_to_dec(7), b"7".to_vec());
    assert_eq!(u64_to_dec(1234), b"1234".to_vec());
    assert_eq!(u64_to_dec(10), b"10".to_vec());
}

#[test]
fn at_most_thirty_edges_are_retained() {
    // one trace with 41 events: 40 distinct pairs, latencies 40, 39, ..., 1
    let mut rows = Vec::new();
    let mut t: i64 = 0;
    rows.push(text_row("c", "a00", t));
    for i in 1..41i64 {
        t += (41 - i) * SECOND;
        rows.push(text_row("c", &format!("a{:02}", i), t));
    }
    let mut log = EventLog::new();
    log.create_event_log(&rows);
    let mut dfg = Dfg::new();
    dfg.create_dfg_from_eventlog(&log);
    assert_eq!(dfg.ret.len(), 40);
    let g = dfg.visualize_dfg();
    assert_eq!(g.edges.len(), EDGE_CAP);
    assert_eq!(dfg.ret.len(), EDGE_CAP);
    // the cap keeps the greatest weights: 40 down to 11
    assert_eq!(g.edges[0].label, b"40".to_vec());
    assert_eq!(g.edges[EDGE_CAP - 1].label, b"11".to_vec());
    for e in &dfg.ret {
        assert!(e.1[0] >= 11);
    }
}

#[test]
fn fewer_pairs_than_cap_all_retained() {
    let rows = vec![
        text_row("c", "A", 0),
        text_row("c", "B", SECOND),
        text_row("c", "C", 2 * SECOND),
    ];
    let mut log = EventLog::new();
    log.create_event_log(&rows);
    let mut dfg = Dfg::new();
    dfg.create_dfg_from_eventlog(&log);
    let g = dfg.visualize_dfg();
    assert_eq!(g.edges.len(), 2);
}

#[test]
fn equal_weights_break_ties_by_descending_labels() {
    // two pairs, both with weight zero: (B,A) ranks before (A,B)
    let rows = vec![
        text_row("1", "A", 0),
        text_row("1", "B", 0),
        text_row("2", "B", 0),
        text_row("2", "A", 0),
    ];
    let mut log = EventLog::new();
    log.create_event_log(&rows);
    let mut dfg = Dfg::new();
    dfg.create_dfg_from_eventlog(&log);
    let g = dfg.visualize_dfg();
    assert_eq!(g.edges.len(), 2);
    // vertex set sorted: A -> id 0, B -> id 1
    assert_eq!(g.edges[0].from, b"1".to_vec());
    assert_eq!(g.edges[0].to, b"0".to_vec());
    assert_eq!(g.edges[1].from, b"0".to_vec());
    assert_eq!(g.edges[1].to, b"1".to_vec());
}

#[test]
fn single_weight_maps_to_minimum_penwidth() {
    let rows = vec![text_row("c", "A", 0), text_row("c", "B", 30 * SECOND)];
    let mut log = EventLog::new();
    log.create_event_log(&rows);
    let mut dfg = Dfg::new();
    dfg.create_dfg_from_eventlog(&log);
    let g = dfg.visualize_dfg();
    assert_eq!(g.edges.len(), 1);
    assert_eq!(g.edges[0].penwidth_micros, 1_000_000);
}

#[test]
fn penwidths_and_colors_stay_in_range() {
    let mut rows = Vec::new();
    let mut t: i64 = 0;
    rows.push(text_row("c", "n0", t));
    for i in 1..10i64 {
        t += i * i * SECOND;
        rows.push(text_row("c", &format!("n{}", i), t));
    }
    let mut log = EventLog::new();
    log.create_event_log(&rows);
    let mut dfg = Dfg::new();
    dfg.create_dfg_from_eventlog(&log);
    let g = dfg.visualize_dfg();
    for e in &g.edges {
        assert!(e.penwidth_micros >= 1_000_000);
        assert!(e.penwidth_micros <= 2_600_000);
    }
    for n in &g.nodes {
        // "#RRGGFF" with both scaled channels in [155, 255]
        assert_eq!(n.fillcolor.len(), 7);
        assert_eq!(n.fillcolor[0], b'#');
        assert_eq!(&n.fillcolor[5..], b"FF");
        let hex = std::str::from_utf8(&n.fillcolor[1..3]).unwrap();
        let channel = u8::from_str_radix(hex, 16).unwrap();
        assert!((155..=255).contains(&channel));
        assert_eq!(n.fillcolor[1..3], n.fillcolor[3..5]);
    }
}

#[test]
fn pruned_pairs_leave_the_working_mapping() {
    let mut rows = Vec::new();
    let mut t: i64 = 0;
    rows.push(text_row("c", "b00", t));
    for i in 1..36i64 {
        t += i * SECOND;
        rows.push(text_row("c", &format!("b{:02}", i), t));
    }
    let mut log = EventLog::new();
    log.create_event_log(&rows);
    let mut dfg = Dfg::new();
    dfg.create_dfg_from_eventlog(&log);
    assert_eq!(dfg.ret.len(), 35);
    let _ = dfg.visualize_dfg();
    assert_eq!(dfg.ret.len(), 30);
    for e in &dfg.ret {
        assert_eq!(e.1.len(), 1);
        assert!(e.1[0] >= 6);
    }
}

#[test]
fn readiness_check_rejects_overflowing_weights() {
    let dfg = Dfg {
        tuples: Vec::new(),
        ret: vec![(
            DfgActivities {
                act1: b"A".to_vec(),
                act2: b"B".to_vec(),
            },
            vec![u64::MAX],
        )],
        start_activities: vec![(b"A".to_vec(), 1)],
        end_activities: Vec::new(),
        unique_activities: Vec::new(),
    };
    assert!(!dfg.visualization_ready());
}

#[test]
fn readiness_check_accepts_ordinary_logs() {
    let rows = vec![text_row("c", "A", 0), text_row("c", "B", SECOND)];
    let mut log = EventLog::new();
    log.create_event_log(&rows);
    let mut dfg = Dfg::new();
    dfg.create_dfg_from_eventlog(&log);
    assert!(dfg.visualization_ready());
    let empty = Dfg::new();
    assert!(empty.visualization_ready());
}
