use hyperpath::HyperPath;
use hyperpath::parse_ipv4;

fn load_dump(h: &mut HyperPath, lines: &[&[u8]]) {
    for line in lines {
        h.load_dump_line(line).unwrap();
    }
}

fn load_relations(h: &mut HyperPath, lines: &[&[u8]]) {
    h.enable_relations();
    for line in lines {
        h.load_relation_line(line).unwrap();
    }
}

fn query(h: &HyperPath, s: &str, d: &str) -> Option<Vec<u64>> {
    let a1 = parse_ipv4(s.as_bytes()).unwrap();
    let a2 = parse_ipv4(d.as_bytes()).unwrap();
    h.path(a1, a2)
}

#[test]
fn single_vantage_simple_join() {
    let mut h = HyperPath::new();
    load_dump(&mut h, &[
        b"||||10|1.0.0.0/8|10 20 30",
        b"||||10|2.0.0.0/8|10 20 40",
    ]);
    assert_eq!(query(&h, "1.2.3.4", "2.3.4.5"), Some(vec![30, 20, 40]));
}

#[test]
fn no_common_as_means_no_path() {
    let mut h = HyperPath::new();
    load_dump(&mut h, &[
        b"||||10|1.0.0.0/8|10 20",
        b"||||11|2.0.0.0/8|11 21",
    ]);
    assert_eq!(query(&h, "1.2.3.4", "2.3.4.5"), None);
}

#[test]
fn longest_prefix_match_wins() {
    let mut h = HyperPath::new();
    load_dump(&mut h, &[
        b"||||10|1.0.0.0/8|10 99",
        b"||||10|1.2.0.0/16|10 20 30",
        b"||||10|2.0.0.0/8|10 20 40",
    ]);
    assert_eq!(query(&h, "1.2.3.4", "2.3.4.5"), Some(vec![30, 20, 40]));
}

#[test]
fn valley_free_preferred_even_if_longer() {
    let mut h = HyperPath::new();
    load_dump(&mut h, &[
        // Notifier 1 yields the valley-free candidate [50, 100, 99, 60].
        b"||||1|1.0.0.0/8|1 100 50",
        b"||||1|2.0.0.0/8|1 100 99 60",
        // Notifier 2 yields the shorter valleyed candidate [70, 2, 80].
        b"||||2|1.0.0.0/8|2 70",
        b"||||2|2.0.0.0/8|2 80",
    ]);
    load_relations(&mut h, &[
        b"100|50|-1",
        b"100|99|-1",
        b"99|60|-1",
        b"70|2|-1",
        b"80|2|-1",
    ]);
    assert_eq!(query(&h, "1.2.3.4", "2.3.4.5"), Some(vec![50, 100, 99, 60]));
}

#[test]
fn valleyed_candidate_returned_when_no_valley_free_exists() {
    let mut h = HyperPath::new();
    load_dump(&mut h, &[
        b"||||2|1.0.0.0/8|2 70",
        b"||||2|2.0.0.0/8|2 80",
    ]);
    load_relations(&mut h, &[b"70|2|-1", b"80|2|-1"]);
    assert_eq!(query(&h, "1.2.3.4", "2.3.4.5"), Some(vec![70, 2, 80]));
}

#[test]
fn shortest_candidate_of_a_class_wins() {
    let mut h = HyperPath::new();
    load_dump(&mut h, &[
        b"||||1|1.0.0.0/8|1 100 50",
        b"||||1|2.0.0.0/8|1 100 99 60",
        b"||||2|1.0.0.0/8|2 70",
        b"||||2|2.0.0.0/8|2 80",
    ]);
    // No relation data: every candidate is unrestricted and the shorter
    // one is returned.
    assert_eq!(query(&h, "1.2.3.4", "2.3.4.5"), Some(vec![70, 2, 80]));
}

#[test]
fn peering_at_start_is_valleyed() {
    let mut h = HyperPath::new();
    load_dump(&mut h, &[b"||||1|1.0.0.0/8|1 2 3"]);
    load_relations(&mut h, &[b"1|2|0", b"2|3|-1"]);
    assert!(!h.valley_free(&vec![1, 2, 3]));
}

#[test]
fn unknown_edges_do_not_valley() {
    let mut h = HyperPath::new();
    load_dump(&mut h, &[b"||||1|1.0.0.0/8|1 2 3"]);
    load_relations(&mut h, &[]);
    assert!(h.valley_free(&vec![7, 8, 9]));
}

#[test]
fn reversed_relation_directions_are_recorded() {
    let mut h = HyperPath::new();
    load_dump(&mut h, &[b"||||1|1.0.0.0/8|1 2 3"]);
    // 10 provides 20, so 20 consumes 10: climbing 20 -> 10 then
    // descending 10 -> 30 is valley-free.
    load_relations(&mut h, &[b"10|20|-1", b"10|30|-1"]);
    assert!(h.valley_free(&vec![20, 10, 30]));
    // Descending then climbing is valleyed.
    assert!(!h.valley_free(&vec![10, 20, 10]));
}

#[test]
fn sibling_code_is_ignored() {
    let mut h = HyperPath::new();
    load_dump(&mut h, &[b"||||1|1.0.0.0/8|1 2 3"]);
    load_relations(&mut h, &[b"7|8|1", b"8|7|1"]);
    // Code 1 records nothing, so the edges stay unknown and the path is
    // not valleyed.
    assert!(h.valley_free(&vec![7, 8, 7]));
}

#[test]
fn later_insert_of_same_prefix_overwrites() {
    let mut h = HyperPath::new();
    load_dump(&mut h, &[
        b"||||10|1.0.0.0/8|10 20 30",
        b"||||10|1.2.3.4/8|10 20 35",
        b"||||10|2.0.0.0/8|10 20 40",
    ]);
    // 1.2.3.4/8 names the same /8 prefix as 1.0.0.0/8, so the second
    // line replaced the first.
    assert_eq!(query(&h, "1.2.3.4", "2.3.4.5"), Some(vec![35, 20, 40]));
}

#[test]
fn networks_lists_notifiers_once() {
    let mut h = HyperPath::new();
    load_dump(&mut h, &[
        b"||||10|1.0.0.0/8|10 20",
        b"||||11|2.0.0.0/8|11 21",
        b"||||10|3.0.0.0/8|10 22",
    ]);
    assert_eq!(h.networks, vec![10, 11]);
}

#[test]
fn loading_is_deterministic() {
    let dump: &[&[u8]] = &[
        b"||||10|1.0.0.0/8|10 99",
        b"||||10|1.2.0.0/16|10 20 30",
        b"||||10|2.0.0.0/8|10 20 40",
        b"||||11|1.0.0.0/8|11 21",
    ];
    let rels: &[&[u8]] = &[b"20|30|-1", b"20|40|-1"];
    let mut h1 = HyperPath::new();
    load_dump(&mut h1, dump);
    load_relations(&mut h1, rels);
    let mut h2 = HyperPath::new();
    load_dump(&mut h2, dump);
    load_relations(&mut h2, rels);
    assert_eq!(h1.networks, h2.networks);
    assert_eq!(query(&h1, "1.2.3.4", "2.3.4.5"), query(&h2, "1.2.3.4", "2.3.4.5"));
}

#[test]
fn malformed_dump_line_reports_error_and_changes_nothing() {
    let mut h = HyperPath::new();
    load_dump(&mut h, &[b"||||10|1.0.0.0/8|10 20"]);
    assert!(h.load_dump_line(b"||||10|bad").is_err());
    assert_eq!(h.networks, vec![10]);
    assert_eq!(query(&h, "1.2.3.4", "1.9.9.9"), Some(vec![20]));
}

#[test]
fn lookup_misses_outside_every_prefix() {
    let mut h = HyperPath::new();
    load_dump(&mut h, &[b"||||10|1.0.0.0/8|10 20"]);
    assert_eq!(query(&h, "2.0.0.1", "1.2.3.4"), None);
}

#[test]
fn empty_corpus_predicts_nothing() {
    let h = HyperPath::new();
    assert_eq!(query(&h, "1.2.3.4", "2.3.4.5"), None);
    assert!(h.networks.is_empty());
}

#[test]
fn host_prefix_beats_every_shorter_mask() {
    let mut h = HyperPath::new();
    load_dump(&mut h, &[
        b"||||10|1.0.0.0/8|10 99",
        b"||||10|1.2.3.4/32|10 20 30",
        b"||||10|2.0.0.0/8|10 20 40",
    ]);
    assert_eq!(query(&h, "1.2.3.4", "2.3.4.5"), Some(vec![30, 20, 40]));
    // The /32 covers exactly one address; its neighbour falls back to
    // the /8.
    assert_eq!(query(&h, "1.2.3.5", "2.3.4.5"), Some(vec![99, 10, 20, 40]));
}

#[test]
fn single_as_path_has_no_edges() {
    let mut h = HyperPath::new();
    load_dump(&mut h, &[b"||||1|1.0.0.0/8|1"]);
    load_relations(&mut h, &[b"1|2|0"]);
    assert!(h.valley_free(&vec![1]));
}

#[test]
fn zero_length_prefix_covers_everything() {
    let mut h = HyperPath::new();
    load_dump(&mut h, &[
        b"||||10|0.0.0.0/0|10 20 30",
        b"||||10|2.0.0.0/8|10 20 40",
    ]);
    assert_eq!(query(&h, "9.9.9.9", "2.3.4.5"), Some(vec![30, 20, 40]));
}
