use net_topology::message::{session_step, SessionAction, SessionEvent};
use net_topology::message::{chat_frame, chat_text, is_exit, peer_line, station_line, topology_line, StationLine};
use net_topology::ring::{handle_ring_message, parse_ring_frame, relay_overflows, ring_frame, RingAction};
use net_topology::screen::{bus_screen, hub_screen, mesh_screen, ring_screen};
use net_topology::status::StatusTable;
use net_topology::number::{parse_u32, push_decimal};
use net_topology::text::{chars_of, string_of};

const CLEAR: &str = "\x1B[2J\x1B[H";

fn table(entries: &[(&str, bool)]) -> StatusTable {
    let mut t = StatusTable::new();
    for (n, u) in entries {
        t.insert(n, *u);
    }
    t
}

#[test]
fn chat_lines() {
    assert_eq!(chat_frame("Bubbu", "hello there"), "MSG Bubbu: hello there\n");
    assert_eq!(peer_line("Anirudha", "hi"), "Anirudha: hi\n");
    assert_eq!(chat_text("MSG Bubbu: hello there\r\n"), Some("Bubbu: hello there".to_string()));
    assert_eq!(chat_text("TOPO A:true\n"), None);
    assert_eq!(chat_text("MSG"), None);
}

#[test]
fn chat_round_trip_and_trailing_space() {
    let f = chat_frame("Cairi", "see you");
    assert_eq!(chat_text(&f), Some("Cairi: see you".to_string()));
    let g = chat_frame("Cairi", "hi  ");
    assert_eq!(chat_text(&g), Some("Cairi: hi".to_string()));
}

#[test]
fn exit_is_recognised_trimmed() {
    assert!(is_exit("exit"));
    assert!(is_exit("  exit \r\n"));
    assert!(!is_exit("exit now"));
    assert!(!is_exit("Exit"));
}

#[test]
fn topology_line_lists_names_in_order() {
    let t = table(&[("Carol", false), ("Alice", true), ("Bob", true)]);
    assert_eq!(topology_line(&t), "TOPO Alice:true,Bob:true,Carol:false\n");
    assert_eq!(topology_line(&StatusTable::new()), "TOPO \n");
}

#[test]
fn station_line_kinds() {
    match station_line("TOPO A:true,B:false\n") {
        StationLine::Topology(b) => assert_eq!(b, "A:true,B:false"),
        _ => panic!("not topology"),
    }
    match station_line("MSG Alice: hi\n") {
        StationLine::Chat(t) => assert_eq!(t, "Alice: hi"),
        _ => panic!("not chat"),
    }
    assert!(matches!(station_line("hello\n"), StationLine::Other));
    assert!(matches!(station_line("TOPO \n"), StationLine::Other));
}

fn expected_table(rows: &[(&str, bool)]) -> String {
    let mut s = String::new();
    for (n, c) in rows {
        s.push_str(&format!("{:<15} {}\n", n, if *c { "CONNECTED" } else { "disconnected" }));
    }
    s
}

#[test]
fn every_station_shows_the_segment_table() {
    let seg = table(&[("Cairi", false), ("Anirudha", true), ("Bablya", true)]);
    let line = topology_line(&seg);
    let body = match station_line(&line) {
        StationLine::Topology(b) => b,
        _ => panic!("topology not recognised"),
    };
    let screen = bus_screen("Bablya", &body);
    let mut want = String::from(CLEAR);
    want.push_str("=== BUS TOPOLOGY — Station: Bablya ===\n");
    want.push_str("(Every station shares this SAME view — the whole segment is one broadcast domain)\n\n");
    want.push_str(&format!("{:<15} {}\n", "Station", "Status"));
    want.push_str(&format!("{:<15} {}\n", "-------", "------"));
    want.push_str(&expected_table(&[("Anirudha", true), ("Bablya", true), ("Cairi", false)]));
    want.push_str("-----------------------------------\n");
    want.push_str("Active on bus: 2\n\n");
    assert_eq!(screen, want);
}

#[test]
fn bus_screen_skips_malformed_entries() {
    let screen = bus_screen("X", "A:true,junk,B:yes,C:true:extra");
    let mut want = String::from(CLEAR);
    want.push_str("=== BUS TOPOLOGY — Station: X ===\n");
    want.push_str("(Every station shares this SAME view — the whole segment is one broadcast domain)\n\n");
    want.push_str(&format!("{:<15} {}\n", "Station", "Status"));
    want.push_str(&format!("{:<15} {}\n", "-------", "------"));
    want.push_str(&expected_table(&[("A", true), ("B", false), ("C", false)]));
    want.push_str("-----------------------------------\n");
    want.push_str("Active on bus: 1\n\n");
    assert_eq!(screen, want);
}

#[test]
fn mesh_screen_matches_print_topology() {
    let t = table(&[("Cairi", true), ("Bubbu", true)]);
    let mut want = String::from(CLEAR);
    want.push_str("=== P2P Mesh Topology — Node: Anirudha ===\n");
    want.push_str(&format!("{:<15} {}\n", "Peer", "Status"));
    want.push_str(&format!("{:<15} {}\n", "----", "------"));
    want.push_str(&expected_table(&[("Bubbu", true), ("Cairi", true)]));
    want.push_str("--------------------------------------\n");
    want.push_str("Active edges from this node: 2 / 2\n\n");
    assert_eq!(mesh_screen("Anirudha", &t), want);
}

#[test]
fn mesh_screen_long_name_is_not_cut() {
    let t = table(&[("AVeryLongPeerName", false)]);
    let s = mesh_screen("n", &t);
    assert!(s.contains("AVeryLongPeerName disconnected\n"));
    assert!(s.contains("Active edges from this node: 0 / 1\n"));
}

#[test]
fn hub_screen_matches_print_hub_topology() {
    let t = table(&[("Cairi", false), ("Bubbu", true)]);
    let mut want = String::from(CLEAR);
    want.push_str("=== STAR TOPOLOGY — Hub: Hub ===\n");
    want.push_str(&format!("{:<15} {}\n", "Spoke", "Status"));
    want.push_str(&format!("{:<15} {}\n", "-----", "------"));
    want.push_str(&expected_table(&[("Bubbu", true), ("Cairi", false)]));
    want.push_str("-----------------------------------\n");
    want.push_str("Active spokes: 1 / 2\n");
    want.push_str("(Spokes cannot see each other — only the hub has this full view)\n\n");
    assert_eq!(hub_screen("Hub", &t), want);
}

#[test]
fn ring_screen_matches_print_ring_topology() {
    let mut want = String::from(CLEAR);
    want.push_str("=== RING TOPOLOGY — Node: Alice ===\n");
    want.push_str(&format!("Predecessor ({:<10}): {}\n", "Carol", "CONNECTED (incoming)"));
    want.push_str(&format!("Successor   ({:<10}): {}\n", "Bob", "disconnected"));
    want.push_str("--------------------------------------\n\n");
    assert_eq!(ring_screen("Alice", "Carol", true, "Bob", false), want);
}

#[test]
fn ring_frames() {
    assert_eq!(ring_frame("Alice", 1, "hi | there"), "MSG|Alice|1|hi | there\n");
    let f = parse_ring_frame("MSG|Alice|2|a|b").unwrap();
    assert_eq!(f.origin, "Alice");
    assert_eq!(f.hop, 2);
    assert_eq!(f.text, "a|b");
    assert_eq!(parse_ring_frame("MSG|Alice|two|x").unwrap().hop, 0);
    assert!(parse_ring_frame("MSG|Alice|1").is_none());
    assert!(parse_ring_frame("TOK|Alice|1|x").is_none());
}

#[test]
fn message_goes_round_a_ring_of_three() {
    let ring = ["Alice", "Bob", "Carol"];
    let mut line = ring_frame("Alice", 1, "hello");
    let mut at: usize = 1;
    let mut hops: Vec<u32> = Vec::new();
    loop {
        match handle_ring_message(ring[at], &line) {
            RingAction::Relay { origin, hop, text, report, forward } => {
                assert_eq!(origin, "Alice");
                assert_eq!(text, "hello");
                assert_eq!(
                    report,
                    format!("[{}] Relaying message from Alice (hop {}): \"hello\"", ring[at], hop)
                );
                hops.push(hop);
                line = forward;
                at = (at + 1) % 3;
            }
            RingAction::Completed { hop, text, report } => {
                assert_eq!(at, 0);
                assert_eq!(hop, 3);
                assert_eq!(text, "hello");
                assert_eq!(report, "[Alice] Message completed the ring after 3 hop(s): \"hello\"");
                break;
            }
            RingAction::Ignore => panic!("frame ignored"),
        }
    }
    assert_eq!(hops, vec![1, 2]);
}

#[test]
fn ring_ignores_other_lines_and_checks_overflow() {
    assert!(matches!(handle_ring_message("Bob", "hello\n"), RingAction::Ignore));
    assert!(relay_overflows("Bob", "MSG|Alice|4294967295|x\n"));
    assert!(!relay_overflows("Alice", "MSG|Alice|4294967295|x\n"));
    assert!(!relay_overflows("Bob", "MSG|Alice|7|x\n"));
    match handle_ring_message("Bob", "MSG|Alice|4294967294|x\n") {
        RingAction::Relay { forward, .. } => assert_eq!(forward, "MSG|Alice|4294967295|x\n"),
        _ => panic!("not relayed"),
    }
}

fn parse(s: &str) -> Option<u32> {
    parse_u32(&chars_of(s))
}

#[test]
fn u32_reading_follows_str_parse() {
    for s in ["0", "007", "+5", "-5", "", "+", "4294967295", "4294967296", "12a", " 1", "99999999999999999999"] {
        assert_eq!(parse(s), s.parse::<u32>().ok(), "input {:?}", s);
    }
}

#[test]
fn decimal_writing() {
    for n in [0u64, 9, 10, 4294967295, 18446744073709551615] {
        let mut b: Vec<char> = Vec::new();
        push_decimal(&mut b, n);
        assert_eq!(string_of(&b), n.to_string());
    }
}

#[test]
fn session_steps() {
    match session_step("Bubbu", &SessionEvent::Typed("hello".to_string())) {
        SessionAction::Send(f) => assert_eq!(f, "MSG Bubbu: hello\n"),
        _ => panic!("not sent"),
    }
    assert!(matches!(session_step("Bubbu", &SessionEvent::Typed(" exit ".to_string())), SessionAction::Quit));
    assert!(matches!(session_step("Bubbu", &SessionEvent::InputEnded), SessionAction::Quit));
    assert!(matches!(session_step("Bubbu", &SessionEvent::WriteFailed), SessionAction::Reconnect));
}
