use net_topology::links::LinkSet;
use net_topology::peers::{announce_line, announced_name, expected_names, PeerLinks};
use net_topology::status::StatusTable;

fn rows(t: &StatusTable) -> Vec<(String, bool)> {
    (0..t.len()).map(|i| t.row(i)).collect()
}

#[test]
fn status_table_keeps_names_in_order() {
    let mut t = StatusTable::new();
    t.insert("Carol", false);
    t.insert("Alice", true);
    t.insert("Bob", false);
    assert_eq!(
        rows(&t),
        vec![("Alice".to_string(), true), ("Bob".to_string(), false), ("Carol".to_string(), false)]
    );
    t.insert("Bob", true);
    assert_eq!(t.len(), 3);
    assert_eq!(t.get("Bob"), Some(true));
    assert_eq!(t.active_count(), 2);
    assert_eq!(t.get("Dave"), None);
}

#[test]
fn status_order_is_by_code_point() {
    let mut t = StatusTable::new();
    t.insert("bob", false);
    t.insert("Bob", false);
    t.insert("Bo", false);
    t.insert("Émile", false);
    t.insert("", true);
    let names: Vec<String> = rows(&t).into_iter().map(|r| r.0).collect();
    let mut sorted = names.clone();
    sorted.sort();
    assert_eq!(names, sorted);
    assert_eq!(names, vec!["", "Bo", "Bob", "bob", "Émile"]);
}

#[test]
fn same_map_same_rows_whatever_the_order_of_inserts() {
    let mut a = StatusTable::new();
    let mut b = StatusTable::new();
    for (n, u) in [("x", true), ("m", false), ("a", true), ("m", true)] {
        a.insert(n, u);
    }
    for (n, u) in [("m", true), ("a", true), ("x", false), ("x", true)] {
        b.insert(n, u);
    }
    assert_eq!(rows(&a), rows(&b));
}

#[test]
fn expected_names_from_list() {
    let v = expected_names(" Alice ,Bob,,Carol\t");
    assert_eq!(v, vec!["Alice".to_string(), "Bob".to_string(), "".to_string(), "Carol".to_string()]);
    let t = StatusTable::from_names(&vec!["Bob".to_string(), "Al".to_string(), "Bob".to_string()]);
    assert_eq!(rows(&t), vec![("Al".to_string(), false), ("Bob".to_string(), false)]);
}

#[test]
fn announced_name_is_trimmed() {
    assert_eq!(announced_name("  Bubbu\r\n"), "Bubbu");
    assert_eq!(announced_name("\n"), "");
}

#[test]
fn link_set_insert_remove() {
    let mut l = LinkSet::new();
    l.insert("A");
    l.insert("B");
    l.insert("A");
    assert_eq!(l.len(), 2);
    assert!(l.contains("A"));
    l.remove("A");
    assert!(!l.contains("A"));
    assert!(l.contains("B"));
    l.remove("Z");
    assert_eq!(l.len(), 1);
}

#[test]
fn hub_relays_to_every_other_spoke() {
    let mut p = PeerLinks::new(&vec!["Bubbu".to_string(), "Cairi".to_string(), "Dora".to_string()]);
    assert_eq!(p.status.active_count(), 0);
    p.connect("Bubbu");
    p.connect("Cairi");
    p.connect("Dora");
    let mut to = p.relay_targets("Bubbu");
    to.sort();
    assert_eq!(to, vec!["Cairi".to_string(), "Dora".to_string()]);
    let mut all = p.broadcast_targets();
    all.sort();
    assert_eq!(all.len(), 3);
    p.disconnect("Cairi");
    assert_eq!(p.status.get("Cairi"), Some(false));
    assert_eq!(p.relay_targets("Bubbu"), vec!["Dora".to_string()]);
    assert_eq!(p.status.active_count(), 2);
}

#[test]
fn dead_links_are_dropped_but_status_stays() {
    let mut p = PeerLinks::new(&vec![]);
    p.connect("A");
    p.connect("B");
    p.connect("C");
    p.drop_dead(&vec!["B".to_string(), "Z".to_string()]);
    let mut all = p.broadcast_targets();
    all.sort();
    assert_eq!(all, vec!["A".to_string(), "C".to_string()]);
    assert_eq!(p.status.get("B"), Some(true));
    assert_eq!(p.status.len(), 3);
}

#[test]
fn unexpected_peer_joins_the_table() {
    let mut p = PeerLinks::new(&vec!["Alice".to_string()]);
    p.connect("Mallory");
    assert_eq!(p.status.len(), 2);
    assert_eq!(p.status.get("Mallory"), Some(true));
    assert_eq!(p.status.get("Alice"), Some(false));
}

#[test]
fn announce_line_reads_back_as_the_trimmed_name() {
    assert_eq!(announce_line("Bubbu"), "Bubbu\n");
    assert_eq!(announced_name(&announce_line("Bubbu")), "Bubbu");
    assert_eq!(announced_name(&announce_line(" Cairi\t")), "Cairi");
    assert_eq!(announced_name(&announce_line("  ")), "");
}

#[test]
fn spoke_link_is_touched_only_by_its_own_events() {
    let mut p = PeerLinks::new(&vec!["S".to_string(), "T".to_string()]);
    p.connect("S");
    p.connect("T");
    p.disconnect("T");
    p.connect("U");
    p.drop_dead(&vec!["U".to_string()]);
    assert_eq!(p.relay_targets("T"), vec!["S".to_string()]);
    assert_eq!(p.relay_targets("S"), Vec::<String>::new());
}

#[test]
fn status_names_are_never_forgotten() {
    let mut p = PeerLinks::new(&vec!["A".to_string(), "B".to_string()]);
    p.connect("C");
    p.disconnect("A");
    p.disconnect("C");
    p.drop_dead(&vec!["B".to_string()]);
    assert_eq!(p.status.len(), 3);
    assert_eq!(p.status.get("A"), Some(false));
    assert_eq!(p.status.get("B"), Some(false));
    assert_eq!(p.status.get("C"), Some(false));
}
