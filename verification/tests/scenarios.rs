//! End-to-end scenarios of the discovery pipeline on plain values.

use federated_dfg::alphabet::build_table;
use federated_dfg::alphabet::ActivityTable;
use federated_dfg::dfg::Dfg;
use federated_dfg::laws::discover_plain;
use federated_dfg::pipeline::PlainCase;

fn table_of(labels: &[&str]) -> ActivityTable {
    let mut v: Vec<String> = Vec::new();
    for l in labels {
        v.push((*l).to_string());
    }
    build_table(v).unwrap()
}

fn pos(t: &ActivityTable, l: &str) -> u16 {
    t.lookup(&l.to_string()).unwrap()
}

fn case(
    t: &ActivityTable,
    a: &[(&str, u32)],
    b: &[(&str, u32)],
) -> PlainCase {
    let mut f_act = Vec::new();
    let mut f_ts = Vec::new();
    for (l, ts) in a {
        f_act.push(pos(t, l));
        f_ts.push(*ts);
    }
    let mut o_act = Vec::new();
    let mut o_ts = Vec::new();
    for (l, ts) in b {
        o_act.push(pos(t, l));
        o_ts.push(*ts);
    }
    PlainCase { f_act, f_ts, o_act, o_ts }
}

fn freq(d: &Dfg, from: &str, to: &str) -> u64 {
    for e in d.edges.iter() {
        if e.from == from && e.to == to {
            return e.freq;
        }
    }
    0
}

fn node_count(d: &Dfg, label: &str) -> u64 {
    for n in d.nodes.iter() {
        if n.label == label {
            return n.count;
        }
    }
    panic!("node not present");
}

fn total_freq(d: &Dfg) -> u64 {
    d.edges.iter().map(|e| e.freq).sum()
}

fn edges_vec(d: &Dfg) -> Vec<(String, String, u64)> {
    d.edges.iter().map(|e| (e.from.clone(), e.to.clone(), e.freq)).collect()
}

fn nodes_vec(d: &Dfg) -> Vec<(String, u64)> {
    d.nodes.iter().map(|n| (n.label.clone(), n.count)).collect()
}

#[test]
fn s1_minimal() {
    let t = table_of(&["X", "Y", "Z"]);
    let cases = vec![case(&t, &[("X", 1), ("Y", 3)], &[("Z", 2)])];
    let d = discover_plain(&t, &cases, 100);
    assert_eq!(freq(&d, "start", "X"), 1);
    assert_eq!(freq(&d, "X", "Z"), 1);
    assert_eq!(freq(&d, "Z", "Y"), 1);
    assert_eq!(freq(&d, "Y", "end"), 1);
    assert_eq!(d.edges.len(), 4);
    // the surviving pairs number F + O + 1
    assert_eq!(total_freq(&d), 4);
}

#[test]
fn s2_empty_b() {
    let t = table_of(&["X", "Y"]);
    let cases = vec![case(&t, &[("X", 1), ("Y", 2)], &[])];
    let d = discover_plain(&t, &cases, 100);
    assert_eq!(freq(&d, "start", "X"), 1);
    assert_eq!(freq(&d, "X", "Y"), 1);
    assert_eq!(freq(&d, "Y", "end"), 1);
    assert_eq!(d.edges.len(), 3);
}

#[test]
fn s2_empty_a() {
    let t = table_of(&["X", "Y"]);
    let cases = vec![case(&t, &[], &[("X", 1), ("Y", 2)])];
    let d = discover_plain(&t, &cases, 100);
    assert_eq!(freq(&d, "start", "X"), 1);
    assert_eq!(freq(&d, "X", "Y"), 1);
    assert_eq!(freq(&d, "Y", "end"), 1);
    assert_eq!(d.edges.len(), 3);
}

#[test]
fn s3_tie_break() {
    let t = table_of(&["X", "Y"]);
    let cases = vec![case(&t, &[("X", 5)], &[("Y", 5)])];
    let d = discover_plain(&t, &cases, 100);
    // on an equal timestamp the key holder's event comes first
    assert_eq!(freq(&d, "start", "X"), 1);
    assert_eq!(freq(&d, "X", "Y"), 1);
    assert_eq!(freq(&d, "Y", "end"), 1);
    assert_eq!(d.edges.len(), 3);
}

#[test]
fn s4_interleave() {
    let t = table_of(&["P", "Q", "R", "S"]);
    let cases = vec![case(&t, &[("P", 1), ("R", 4)], &[("Q", 2), ("S", 3)])];
    let d = discover_plain(&t, &cases, 100);
    assert_eq!(freq(&d, "start", "P"), 1);
    assert_eq!(freq(&d, "P", "Q"), 1);
    assert_eq!(freq(&d, "Q", "S"), 1);
    assert_eq!(freq(&d, "S", "R"), 1);
    assert_eq!(freq(&d, "R", "end"), 1);
    assert_eq!(d.edges.len(), 5);
}

#[test]
fn s5_multi_case() {
    let t = table_of(&["X", "Y", "Z", "P", "Q", "R", "S"]);
    let cases = vec![
        case(&t, &[("X", 1), ("Y", 3)], &[("Z", 2)]),
        case(&t, &[("P", 1), ("R", 4)], &[("Q", 2), ("S", 3)]),
    ];
    let d = discover_plain(&t, &cases, 100);
    assert_eq!(freq(&d, "start", "X"), 1);
    assert_eq!(freq(&d, "start", "P"), 1);
    assert_eq!(freq(&d, "X", "Z"), 1);
    assert_eq!(freq(&d, "P", "Q"), 1);
    assert_eq!(d.edges.len(), 9);
    // start and end each once per case
    assert_eq!(node_count(&d, "start"), 2);
    assert_eq!(node_count(&d, "end"), 2);
}

#[test]
fn s6_duplicate_activity() {
    let t = table_of(&["A"]);
    let cases = vec![case(&t, &[("A", 1), ("A", 3)], &[("A", 2)])];
    let d = discover_plain(&t, &cases, 100);
    assert_eq!(freq(&d, "start", "A"), 1);
    assert_eq!(freq(&d, "A", "A"), 2);
    assert_eq!(freq(&d, "A", "end"), 1);
    assert_eq!(d.edges.len(), 3);
    assert_eq!(node_count(&d, "A"), 3);
}

#[test]
fn window_size_independence() {
    let t = table_of(&["X", "Y", "Z", "P", "Q", "R", "S"]);
    let cases = vec![
        case(&t, &[("X", 1), ("Y", 3)], &[("Z", 2)]),
        case(&t, &[("P", 1), ("R", 4)], &[("Q", 2), ("S", 3)]),
        case(&t, &[("X", 2)], &[("Y", 1)]),
    ];
    let d1 = discover_plain(&t, &cases, 1);
    let d2 = discover_plain(&t, &cases, 2);
    let d3 = discover_plain(&t, &cases, 100);
    assert_eq!(edges_vec(&d1), edges_vec(&d2));
    assert_eq!(edges_vec(&d1), edges_vec(&d3));
    assert_eq!(nodes_vec(&d1), nodes_vec(&d2));
    assert_eq!(nodes_vec(&d1), nodes_vec(&d3));
}

#[test]
fn aggregation_commutes() {
    // the same decrypted pairs in two different orders aggregate to the
    // identical graph
    let t = table_of(&["X", "Y"]);
    let bot = 2u16;
    let pairs1: Vec<(u16, u16)> = vec![(3, 0), (0, 1), (1, 4), (bot, bot), (0, 1)];
    let pairs2: Vec<(u16, u16)> = vec![(0, 1), (bot, bot), (1, 4), (0, 1), (3, 0)];
    let d1 = federated_dfg::dfg::build_dfg(&t, &pairs1);
    let d2 = federated_dfg::dfg::build_dfg(&t, &pairs2);
    assert_eq!(edges_vec(&d1), edges_vec(&d2));
    assert_eq!(nodes_vec(&d1), nodes_vec(&d2));
    assert_eq!(freq(&d1, "X", "Y"), 2);
}

#[test]
fn bottom_pairs_are_dropped() {
    let t = table_of(&["X", "Y"]);
    let bot = 2u16;
    let pairs: Vec<(u16, u16)> = vec![(bot, bot), (0, 1), (bot, bot), (bot, bot)];
    let d = federated_dfg::dfg::build_dfg(&t, &pairs);
    assert_eq!(total_freq(&d), 1);
    assert_eq!(freq(&d, "X", "Y"), 1);
    // no edge ever carries the sentinel label
    for e in d.edges.iter() {
        assert_ne!(e.from, "bottom");
        assert_ne!(e.to, "bottom");
    }
    for n in d.nodes.iter() {
        assert_ne!(n.label, "bottom");
    }
}

#[test]
fn alphabet_independence() {
    // permuting the activity-index assignment permutes only the internal
    // indices; the labelled graph stays the same
    let t1 = table_of(&["X", "Y", "Z"]);
    let t2 = table_of(&["Z", "X", "Y"]);
    let cases1 = vec![case(&t1, &[("X", 1), ("Y", 3)], &[("Z", 2)])];
    let cases2 = vec![case(&t2, &[("X", 1), ("Y", 3)], &[("Z", 2)])];
    let d1 = discover_plain(&t1, &cases1, 100);
    let d2 = discover_plain(&t2, &cases2, 100);
    let mut e1 = edges_vec(&d1);
    let mut e2 = edges_vec(&d2);
    e1.sort();
    e2.sort();
    assert_eq!(e1, e2);
    let mut n1 = nodes_vec(&d1);
    let mut n2 = nodes_vec(&d2);
    n1.sort();
    n2.sort();
    assert_eq!(n1, n2);
}

#[test]
fn sanitised_value_keeps_edges() {
    // a foreign value rewritten to the start marker still produces its
    // chain of edges: nothing is dropped
    let t = table_of(&["X"]);
    let start_idx = t.start_idx();
    let cases = vec![PlainCase {
        f_act: vec![start_idx, 0],
        f_ts: vec![1, 2],
        o_act: vec![],
        o_ts: vec![],
    }];
    let d = discover_plain(&t, &cases, 100);
    // F + O + 1 == 3 surviving pairs
    assert_eq!(total_freq(&d), 3);
    assert_eq!(freq(&d, "start", "start"), 1);
    assert_eq!(freq(&d, "start", "X"), 1);
    assert_eq!(freq(&d, "X", "end"), 1);
}

#[test]
fn alphabet_overflow() {
    let mut labels: Vec<String> = Vec::new();
    for i in 0..65534u32 {
        labels.push(format!("a{}", i));
    }
    let r = build_table(labels);
    assert!(r.is_err());
    let mut few: Vec<String> = Vec::new();
    few.push("a".to_string());
    let r2 = build_table(few);
    assert!(r2.is_ok());
    let t = r2.unwrap();
    assert_eq!(t.len(), 4);
    assert_eq!(t.bot(), 1);
    assert_eq!(t.start_idx(), 2);
    assert_eq!(t.end_idx(), 3);
}
