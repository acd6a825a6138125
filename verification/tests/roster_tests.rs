use net_topology::command::{bus_command, chat_args, node_args, star_command, BusCommand, StarCommand};
use net_topology::roster::{find_entry, mesh_plan, parse_roster, ring_plan, initial_status, RosterEntry};

const MESH_ROSTER: &str = "Anirudha:127.0.0.1:7878,Bubbu:127.0.0.1:7879,Cairi:127.0.0.1:7880";
const RING_ROSTER: &str = "Alice:127.0.0.1:9000,Bob:127.0.0.1:9001,Carol:127.0.0.1:9002";

fn names(v: &Vec<RosterEntry>) -> Vec<String> {
    v.iter().map(|e| e.name.clone()).collect()
}

#[test]
fn roster_of_three_peers() {
    let r = parse_roster(MESH_ROSTER).unwrap();
    assert_eq!(r.len(), 3);
    assert_eq!(r[0].name, "Anirudha");
    assert_eq!(r[0].ip, "127.0.0.1");
    assert_eq!(r[0].port, "7878");
    assert_eq!(r[2].name, "Cairi");
    assert_eq!(r[2].port, "7880");
}

#[test]
fn roster_entries_are_trimmed_and_port_keeps_colons() {
    let r = parse_roster("  A:10.0.0.1:80 ,\tB:::1:99\n").unwrap();
    assert_eq!(r.len(), 2);
    assert_eq!(r[0].name, "A");
    assert_eq!(r[0].port, "80");
    assert_eq!(r[1].name, "B");
    assert_eq!(r[1].ip, "");
    assert_eq!(r[1].port, ":1:99");
}

#[test]
fn roster_bad_entry_is_reported_as_written() {
    match parse_roster("A:1.2.3.4:5, B:1.2.3.4") {
        Err(e) => assert_eq!(e, " B:1.2.3.4"),
        Ok(_) => panic!("accepted a bad roster"),
    }
    match parse_roster("") {
        Err(e) => assert_eq!(e, ""),
        Ok(_) => panic!("accepted an empty roster"),
    }
    match parse_roster("x,A:1:2") {
        Err(e) => assert_eq!(e, "x"),
        Ok(_) => panic!("accepted a bad roster"),
    }
}

#[test]
fn find_entry_takes_the_first_match() {
    let r = parse_roster("A:1:1,B:2:2,A:3:3").unwrap();
    assert_eq!(find_entry(&r, "A"), Some(0));
    assert_eq!(find_entry(&r, "B"), Some(1));
    assert_eq!(find_entry(&r, "C"), None);
}

#[test]
fn mesh_plan_dials_only_earlier_names() {
    let r = parse_roster(MESH_ROSTER).unwrap();
    let a = mesh_plan("Anirudha", &r).unwrap();
    assert_eq!(a.my_port, "7878");
    assert_eq!(names(&a.others), vec!["Bubbu".to_string(), "Cairi".to_string()]);
    assert_eq!(a.dial.len(), 0);
    let b = mesh_plan("Bubbu", &r).unwrap();
    assert_eq!(b.my_port, "7879");
    assert_eq!(names(&b.others), vec!["Anirudha".to_string(), "Cairi".to_string()]);
    assert_eq!(names(&b.dial), vec!["Anirudha".to_string()]);
    let c = mesh_plan("Cairi", &r).unwrap();
    assert_eq!(names(&c.dial), vec!["Anirudha".to_string(), "Bubbu".to_string()]);
    assert!(mesh_plan("Dora", &r).is_none());
}

#[test]
fn mesh_of_three_has_three_links_each_dialled_once() {
    let r = parse_roster(MESH_ROSTER).unwrap();
    let mut total: usize = 0;
    for who in ["Anirudha", "Bubbu", "Cairi"] {
        let p = mesh_plan(who, &r).unwrap();
        total += p.dial.len();
        for d in &p.dial {
            let other = mesh_plan(&d.name, &r).unwrap();
            assert!(other.dial.iter().all(|e| e.name != who));
        }
    }
    assert_eq!(total, 3);
}

#[test]
fn mesh_of_five_has_ten_links() {
    let r = parse_roster("E:h:1,B:h:2,D:h:3,A:h:4,C:h:5").unwrap();
    let mut total: usize = 0;
    for e in &r {
        total += mesh_plan(&e.name, &r).unwrap().dial.len();
    }
    assert_eq!(total, 10);
}

#[test]
fn mesh_initial_status_has_every_other_peer_down() {
    let r = parse_roster(MESH_ROSTER).unwrap();
    let p = mesh_plan("Bubbu", &r).unwrap();
    let t = initial_status(&p.others);
    assert_eq!(t.len(), 2);
    assert_eq!(t.get("Anirudha"), Some(false));
    assert_eq!(t.get("Cairi"), Some(false));
    assert_eq!(t.get("Bubbu"), None);
    assert_eq!(t.active_count(), 0);
}

#[test]
fn ring_plan_follows_roster_order_and_wraps() {
    let r = parse_roster(RING_ROSTER).unwrap();
    let a = ring_plan("Alice", &r).unwrap();
    assert_eq!(a.my_port, "9000");
    assert_eq!(a.succ.name, "Bob");
    assert_eq!(a.succ.port, "9001");
    assert_eq!(a.pred_name, "Carol");
    let c = ring_plan("Carol", &r).unwrap();
    assert_eq!(c.succ.name, "Alice");
    assert_eq!(c.succ.ip, "127.0.0.1");
    assert_eq!(c.pred_name, "Bob");
    assert!(ring_plan("Dave", &r).is_none());
}

#[test]
fn ring_of_one_is_its_own_neighbour() {
    let r = parse_roster("Solo:127.0.0.1:9100").unwrap();
    let p = ring_plan("Solo", &r).unwrap();
    assert_eq!(p.succ.name, "Solo");
    assert_eq!(p.pred_name, "Solo");
}

fn args(v: &[&str]) -> Vec<String> {
    v.iter().map(|s| s.to_string()).collect()
}

#[test]
fn star_command_roles() {
    match star_command(&args(&["star", "Hub", "hub", "8000", "Bubbu, Cairi"])) {
        StarCommand::Hub { name, port, expected } => {
            assert_eq!(name, "Hub");
            assert_eq!(port, "8000");
            assert_eq!(expected, vec!["Bubbu".to_string(), "Cairi".to_string()]);
        }
        _ => panic!("not a hub"),
    }
    match star_command(&args(&["star", "Bubbu", "spoke", "127.0.0.1:8000"])) {
        StarCommand::Spoke { name, hub_addr } => {
            assert_eq!(name, "Bubbu");
            assert_eq!(hub_addr, "127.0.0.1:8000");
        }
        _ => panic!("not a spoke"),
    }
    assert!(matches!(star_command(&args(&["star", "x"])), StarCommand::Usage));
    assert!(matches!(star_command(&args(&["star", "H", "hub", "8000"])), StarCommand::HubUsage));
    assert!(matches!(star_command(&args(&["star", "B", "spoke"])), StarCommand::SpokeUsage));
    match star_command(&args(&["star", "B", "leaf", "x"])) {
        StarCommand::UnknownRole { role } => assert_eq!(role, "leaf"),
        _ => panic!("role accepted"),
    }
}

#[test]
fn bus_command_roles() {
    match bus_command(&args(&["bus", "segment", "6000", "Alice,Bob,Carol"])) {
        BusCommand::Segment { port, expected } => {
            assert_eq!(port, "6000");
            assert_eq!(expected.len(), 3);
            assert_eq!(expected[2], "Carol");
        }
        _ => panic!("not a segment"),
    }
    match bus_command(&args(&["bus", "Alice", "station", "127.0.0.1:6000"])) {
        BusCommand::Station { name, segment_addr } => {
            assert_eq!(name, "Alice");
            assert_eq!(segment_addr, "127.0.0.1:6000");
        }
        _ => panic!("not a station"),
    }
    assert!(matches!(bus_command(&args(&["bus"])), BusCommand::Usage));
    assert!(matches!(bus_command(&args(&["bus", "segment", "6000"])), BusCommand::SegmentUsage));
    assert!(matches!(bus_command(&args(&["bus", "Alice", "hub", "x:1"])), BusCommand::StationUsage));
}

#[test]
fn node_and_chat_arguments() {
    let a = node_args(&args(&["mesh", "Bubbu", MESH_ROSTER])).unwrap();
    assert_eq!(a.my_name, "Bubbu");
    assert_eq!(a.roster, MESH_ROSTER);
    assert!(node_args(&args(&["mesh", "Bubbu"])).is_none());
    let c = chat_args(&args(&["chat", "Anirudha", "7878", "127.0.0.1:7879"])).unwrap();
    assert_eq!(c.name, "Anirudha");
    assert_eq!(c.listen_port, "7878");
    assert_eq!(c.peer_addr, "127.0.0.1:7879");
    assert!(chat_args(&args(&["chat", "Anirudha", "7878"])).is_none());
}
