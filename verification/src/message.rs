use vstd::prelude::*;
use crate::screen::{body_rows, topo_rows};
use crate::split::{split_on, joined, views, join_chars, stripped_prefix, strip_prefix_chars, lemma_split_concat, lemma_split_without_sep};
use crate::status::{Row, StatusTable};
use crate::text::{trimmed, trimmed_end, bool_text, is_whitespace, chars_of, chars_eq_str, trim, trim_end, push_str, push_chars, push_bool, string_of, lemma_trimmed_end_after};

verus! {

/// The line a mesh peer, star spoke or bus station sends for a typed
/// message: `MSG name: message`.
pub open spec fn chat_frame_text(name: Seq<char>, msg: Seq<char>) -> Seq<char> {
    "MSG "@ + name + ": "@ + msg + "\n"@
}

/// The line a peer of the two-peer chat sends: `name: message`.
pub open spec fn peer_line_text(name: Seq<char>, msg: Seq<char>) -> Seq<char> {
    name + ": "@ + msg + "\n"@
}

/// The text a chat line carries after its `MSG ` tag, once the line ending
/// and trailing whitespace are gone; `None` for a line without the tag.
pub open spec fn chat_payload(received: Seq<char>) -> Option<Seq<char>> {
    stripped_prefix(trimmed_end(received), "MSG "@)
}

/// One `name:state` item of a bus topology line.
pub open spec fn topo_item(r: Row) -> Seq<char> {
    r.0 + ":"@ + bool_text(r.1)
}

/// The body of a bus topology line: the items, `,`-separated, in the
/// order of the rows.
pub open spec fn topo_body(rows: Seq<Row>) -> Seq<char> {
    joined(rows.map_values(|r: Row| topo_item(r)), seq![','])
}

/// The topology line a bus segment sends to every station.
pub open spec fn topology_line_text(rows: Seq<Row>) -> Seq<char> {
    "TOPO "@ + topo_body(rows) + "\n"@
}

/// What a line from the bus segment is to a station.
pub enum StationLine {
    /// `TOPO body`: the segment's status table.
    Topology(String),
    /// `MSG text`: a message, to print.
    Chat(String),
    /// Anything else, ignored.
    Other,
}

/// What happens during a spoke's or station's session with its hub or
/// segment.
pub enum SessionEvent {
    /// A line was typed.
    Typed(String),
    /// Typed input ended, or could not be read.
    InputEnded,
    /// Writing to the hub or segment failed.
    WriteFailed,
}

/// What a spoke or station does next.
pub enum SessionAction {
    /// Write this line to the hub or segment.
    Send(String),
    /// End the program.
    Quit,
    /// Wait and connect again.
    Reconnect,
}

/// The next step of a spoke's or station's session: `exit` or the end of
/// input quits, a failed write reconnects, any other line is sent as a
/// chat line.
pub fn session_step(my_name: &str, event: &SessionEvent) -> (r: SessionAction)
    ensures
        match event {
            SessionEvent::Typed(line) => if trimmed(line@) == "exit"@ {
                r is Quit
            } else {
                r matches SessionAction::Send(f) && f@ == chat_frame_text(my_name@, line@)
            },
            SessionEvent::InputEnded => r is Quit,
            SessionEvent::WriteFailed => r is Reconnect,
        },
{
    match event {
        SessionEvent::Typed(line) => {
            if is_exit(line.as_str()) {
                SessionAction::Quit
            } else {
                SessionAction::Send(chat_frame(my_name, line.as_str()))
            }
        },
        SessionEvent::InputEnded => SessionAction::Quit,
        SessionEvent::WriteFailed => SessionAction::Reconnect,
    }
}

/// The line for a typed message.
pub fn chat_frame(name: &str, msg: &str) -> (r: String)
    ensures
        r@ == chat_frame_text(name@, msg@),
{
    let mut b: Vec<char> = Vec::new();
    push_str(&mut b, "MSG ");
    push_str(&mut b, name);
    push_str(&mut b, ": ");
    push_str(&mut b, msg);
    push_str(&mut b, "\n");
    string_of(&b)
}

/// The line a peer of the two-peer chat sends for a typed message.
pub fn peer_line(name: &str, msg: &str) -> (r: String)
    ensures
        r@ == peer_line_text(name@, msg@),
{
    let mut b: Vec<char> = Vec::new();
    push_str(&mut b, name);
    push_str(&mut b, ": ");
    push_str(&mut b, msg);
    push_str(&mut b, "\n");
    string_of(&b)
}

/// Whether a typed line asks to quit: it is `exit` once trimmed.
pub fn is_exit(line: &str) -> (r: bool)
    ensures
        r == (trimmed(line@) == "exit"@),
{
    let s = chars_of(line);
    let t = trim(&s);
    chars_eq_str(&t, "exit")
}

/// The message text of a received chat line, if it has the `MSG ` tag.
pub fn chat_text(received: &str) -> (r: Option<String>)
    ensures
        match r {
            Some(t) => chat_payload(received@) == Some(t@),
            None => chat_payload(received@) is None,
        },
{
    let s = chars_of(received);
    let t = trim_end(&s);
    let tag = chars_of("MSG ");
    match strip_prefix_chars(&t, &tag) {
        Some(x) => Some(string_of(&x)),
        None => None,
    }
}

/// What a bus station makes of a line from the segment.
pub fn station_line(received: &str) -> (r: StationLine)
    ensures
        match r {
            StationLine::Topology(b) => stripped_prefix(trimmed_end(received@), "TOPO "@) == Some(b@),
            StationLine::Chat(t) => stripped_prefix(trimmed_end(received@), "TOPO "@) is None
                && chat_payload(received@) == Some(t@),
            StationLine::Other => stripped_prefix(trimmed_end(received@), "TOPO "@) is None
                && chat_payload(received@) is None,
        },
{
    let s = chars_of(received);
    let t = trim_end(&s);
    let topo = chars_of("TOPO ");
    match strip_prefix_chars(&t, &topo) {
        Some(b) => StationLine::Topology(string_of(&b)),
        None => {
            let tag = chars_of("MSG ");
            match strip_prefix_chars(&t, &tag) {
                Some(x) => StationLine::Chat(string_of(&x)),
                None => StationLine::Other,
            }
        },
    }
}

/// The topology line a bus segment broadcasts for its status table
/// (`broadcast_topology`): every name with `true` or `false`, in name order.
pub fn topology_line(status: &StatusTable) -> (r: String)
    ensures
        r@ == topology_line_text(status.rows()),
{
    let ghost rows = status.rows();
    let ghost items = rows.map_values(|r: Row| topo_item(r));
    let mut parts: Vec<Vec<char>> = Vec::new();
    let mut i: usize = 0;
    while i < status.len()
        invariant
            rows == status.rows(),
            items == rows.map_values(|r: Row| topo_item(r)),
            i <= rows.len(),
            views(parts@) == items.take(i as int),
        decreases rows.len() - i,
    {
        let mut item: Vec<char> = Vec::new();
        push_chars(&mut item, status.row_name(i));
        push_str(&mut item, ":");
        push_bool(&mut item, status.row_up(i));
        let ghost before = views(parts@);
        let ghost iv = item@;
        parts.push(item);
        assert(views(parts@) =~= before.push(iv));
        assert(views(parts@) =~= items.take(i + 1));
        i = i + 1;
    }
    assert(items.take(rows.len() as int) =~= items);
    let sep = vec![','];
    assert(sep@ =~= seq![',']);
    let body = join_chars(&parts, &sep);
    let mut b: Vec<char> = Vec::new();
    push_str(&mut b, "TOPO ");
    push_chars(&mut b, &body);
    push_str(&mut b, "\n");
    string_of(&b)
}

/// A message typed at one node reaches the others as `name: message`: the
/// receiver's `chat_text` of the sender's `chat_frame` is the sender's name,
/// `: ` and the message, provided the message does not end in whitespace
/// (which the receiver drops with the line ending).
pub proof fn lemma_chat_delivery(name: Seq<char>, msg: Seq<char>)
    requires
        msg.len() > 0,
        !is_whitespace(msg.last()),
    ensures
        chat_payload(chat_frame_text(name, msg)) == Some(name + ": "@ + msg),
{
    reveal_strlit("MSG ");
    reveal_strlit("\n");
    let a = "MSG "@ + name + ": "@ + msg;
    assert(chat_frame_text(name, msg) =~= a + "\n"@);
    assert(a.last() == msg.last());
    lemma_trimmed_end_after(a, "\n"@);
    lemma_trimmed_end_newline();
    assert(a + Seq::<char>::empty() =~= a);
    assert(a.take(4) =~= "MSG "@);
    assert(a.skip(4) =~= name + ": "@ + msg);
}

proof fn lemma_trimmed_end_newline()
    ensures
        trimmed_end("\n"@) == Seq::<char>::empty(),
{
    reveal_strlit("\n");
    assert("\n"@ =~= seq!['\n']);
    assert(is_whitespace('\n'));
    assert("\n"@.drop_last() =~= Seq::<char>::empty());
    assert(trimmed_end(Seq::<char>::empty()) =~= Seq::<char>::empty());
    assert(trimmed_end("\n"@) == trimmed_end("\n"@.drop_last()));
}

proof fn lemma_split_joined(items: Seq<Seq<char>>, c: char)
    requires
        items.len() > 0,
        forall|i: int| 0 <= i < items.len() ==> !(#[trigger] items[i]).contains(c),
    ensures
        split_on(joined(items, seq![c]), c) == items,
    decreases items.len(),
{
    if items.len() == 1 {
        lemma_split_without_sep(items[0], c);
        assert(seq![items[0]] =~= items);
    } else {
        let init = items.drop_last();
        lemma_split_joined(init, c);
        lemma_split_concat(joined(init, seq![c]), items.last(), c);
        lemma_split_without_sep(items.last(), c);
        assert(init + seq![items.last()] =~= items);
    }
}

proof fn lemma_topo_rows_of_items(rows: Seq<Row>)
    requires
        forall|i: int| 0 <= i < rows.len() ==> !(#[trigger] rows[i]).0.contains(':'),
    ensures
        topo_rows(rows.map_values(|r: Row| topo_item(r))) == rows,
    decreases rows.len(),
{
    let items = rows.map_values(|r: Row| topo_item(r));
    if rows.len() > 0 {
        let init = rows.drop_last();
        assert(init.map_values(|r: Row| topo_item(r)) =~= items.drop_last());
        lemma_topo_rows_of_items(init);
        let r = rows.last();
        reveal_strlit(":");
        reveal_strlit("true");
        reveal_strlit("false");
        let bt = bool_text(r.1);
        assert(!bt.contains(':')) by {
            if bt.contains(':') {
                let k = choose|k: int| 0 <= k < bt.len() && bt[k] == ':';
            }
        }
        assert(!r.0.contains(':')) by {
            assert(rows[rows.len() - 1] == r);
        }
        assert(topo_item(r) =~= r.0 + seq![':'] + bt);
        lemma_split_concat(r.0, bt, ':');
        lemma_split_without_sep(r.0, ':');
        lemma_split_without_sep(bt, ':');
        assert(split_on(topo_item(r), ':') =~= seq![r.0, bt]);
        assert(items.last() == topo_item(r));
        assert((bt == "true"@) == r.1) by {
            if !r.1 {
                assert("false"@.len() != "true"@.len());
            }
        }
        assert(init.push(r) =~= rows);
    } else {
        assert(items =~= Seq::<Seq<char>>::empty());
    }
}

/// Every bus station shows the segment's own table: reading back the body
/// of the topology line the segment broadcasts gives the segment's rows,
/// in the same order, provided there is at least one row and no name holds
/// `,` or `:` (the characters that separate items and fields).
pub proof fn lemma_topology_roundtrip(rows: Seq<Row>)
    requires
        rows.len() > 0,
        forall|i: int| 0 <= i < rows.len() ==> !(#[trigger] rows[i]).0.contains(','),
        forall|i: int| 0 <= i < rows.len() ==> !(#[trigger] rows[i]).0.contains(':'),
    ensures
        stripped_prefix(trimmed_end(topology_line_text(rows)), "TOPO "@) == Some(topo_body(rows)),
        body_rows(topo_body(rows)) == rows,
{
    reveal_strlit("TOPO ");
    reveal_strlit("\n");
    reveal_strlit(":");
    reveal_strlit("true");
    reveal_strlit("false");
    let items = rows.map_values(|r: Row| topo_item(r));
    assert forall|i: int| 0 <= i < items.len() implies !(#[trigger] items[i]).contains(',') by {
        let r = rows[i];
        let bt = bool_text(r.1);
        if items[i].contains(',') {
            let k = choose|k: int| 0 <= k < items[i].len() && items[i][k] == ',';
            assert(items[i] == r.0 + ":"@ + bt);
            if k < r.0.len() {
                assert(r.0[k] == ',');
            } else if k == r.0.len() {
            } else {
                assert(bt[k - r.0.len() - 1] == ',');
            }
        }
    }
    lemma_split_joined(items, ',');
    lemma_topo_rows_of_items(rows);
    let body = topo_body(rows);
    let last = rows.last();
    assert(body.len() > 0 && !is_whitespace(body.last())) by {
        lemma_joined_last(items, seq![',']);
        assert(items.last() == topo_item(last));
        assert(topo_item(last).last() == 'e');
    }
    let a = "TOPO "@ + body;
    assert(topology_line_text(rows) =~= a + "\n"@);
    assert(a.last() == body.last());
    lemma_trimmed_end_after(a, "\n"@);
    lemma_trimmed_end_newline();
    assert(a + Seq::<char>::empty() =~= a);
    assert(a.take(5) =~= "TOPO "@);
    assert(a.skip(5) =~= body);
}

proof fn lemma_joined_last(p: Seq<Seq<char>>, sep: Seq<char>)
    requires
        p.len() > 0,
        p.last().len() > 0,
    ensures
        joined(p, sep).len() > 0,
        joined(p, sep).last() == p.last().last(),
{
}

} // verus!
