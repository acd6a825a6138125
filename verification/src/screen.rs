use vstd::prelude::*;
use crate::number::{decimal, push_decimal};
use crate::split::{split_on, splitn_on, views, split_chars, splitn_chars};
use crate::status::{Row, StatusTable, count_up};
use crate::text::{ends_with, starts_with, padded, chars_of, chars_eq_str, push_str, push_chars, push_padded, string_of};

verus! {

/// The escape sequence that clears the terminal and homes the cursor,
/// written before every redraw.
pub open spec fn clear_screen() -> Seq<char> {
    "\x1B[2J\x1B[H"@
}

/// The word a status screen shows for a link.
pub open spec fn link_word(up: bool) -> Seq<char> {
    if up {
        "CONNECTED"@
    } else {
        "disconnected"@
    }
}

/// One line of a status screen: the name padded to 15 characters, a space,
/// the link's state.
pub open spec fn row_line(r: Row) -> Seq<char> {
    padded(r.0, 15) + " "@ + link_word(r.1) + "\n"@
}

/// The lines of a status screen for `rows`, in order.
pub open spec fn row_lines(rows: Seq<Row>) -> Seq<char>
    decreases rows.len(),
{
    if rows.len() == 0 {
        Seq::<char>::empty()
    } else {
        row_lines(rows.drop_last()) + row_line(rows.last())
    }
}

/// The header of a status table: `title` and `rule` padded to 15
/// characters, each followed by its counterpart of `Status`.
pub open spec fn table_head(title: Seq<char>, rule: Seq<char>) -> Seq<char> {
    padded(title, 15) + " Status\n"@ + padded(rule, 15) + " ------\n"@
}

/// What a mesh node shows: every other peer and its link, then how many
/// links are up out of how many peers.
pub open spec fn mesh_screen_text(me: Seq<char>, rows: Seq<Row>) -> Seq<char> {
    clear_screen() + "=== P2P Mesh Topology — Node: "@ + me + " ===\n"@ + table_head("Peer"@, "----"@)
        + row_lines(rows) + "--------------------------------------\n"@
        + "Active edges from this node: "@ + decimal(count_up(rows)) + " / "@ + decimal(rows.len())
        + "\n"@ + "\n"@
}

/// What a star hub shows: every spoke and its link, then how many are up.
pub open spec fn hub_screen_text(hub: Seq<char>, rows: Seq<Row>) -> Seq<char> {
    clear_screen() + "=== STAR TOPOLOGY — Hub: "@ + hub + " ===\n"@ + table_head("Spoke"@, "-----"@)
        + row_lines(rows) + "-----------------------------------\n"@ + "Active spokes: "@ + decimal(
        count_up(rows),
    ) + " / "@ + decimal(rows.len()) + "\n"@
        + "(Spokes cannot see each other — only the hub has this full view)\n"@ + "\n"@
}

/// One `name:state` entry of a bus topology body, if it has the `:`; the
/// link is up exactly when the state reads `true`.
pub open spec fn topo_entry(piece: Seq<char>) -> Option<Row> {
    let p = splitn_on(piece, 2, ':');
    if p.len() == 2 {
        Some((p[0], p[1] == "true"@))
    } else {
        None
    }
}

/// The rows that the `,`-separated entries describe, skipping malformed ones.
pub open spec fn topo_rows(pieces: Seq<Seq<char>>) -> Seq<Row>
    decreases pieces.len(),
{
    if pieces.len() == 0 {
        Seq::<Row>::empty()
    } else {
        let r = topo_rows(pieces.drop_last());
        match topo_entry(pieces.last()) {
            Some(e) => r.push(e),
            None => r,
        }
    }
}

/// The rows of a bus topology body.
pub open spec fn body_rows(body: Seq<char>) -> Seq<Row> {
    topo_rows(split_on(body, ','))
}

/// What a bus station shows for the topology body the segment sent.
pub open spec fn bus_screen_text(me: Seq<char>, body: Seq<char>) -> Seq<char> {
    clear_screen() + "=== BUS TOPOLOGY — Station: "@ + me + " ===\n"@
        + "(Every station shares this SAME view — the whole segment is one broadcast domain)\n"@
        + "\n"@ + table_head("Station"@, "-------"@) + row_lines(body_rows(body))
        + "-----------------------------------\n"@ + "Active on bus: "@ + decimal(
        count_up(body_rows(body)),
    ) + "\n"@ + "\n"@
}

/// What a ring node shows: its two neighbours, names padded to 10
/// characters, and the state of each link.
pub open spec fn ring_screen_text(
    me: Seq<char>,
    pred: Seq<char>,
    pred_up: bool,
    succ: Seq<char>,
    succ_up: bool,
) -> Seq<char> {
    clear_screen() + "=== RING TOPOLOGY — Node: "@ + me + " ===\n"@ + "Predecessor ("@ + padded(pred, 10)
        + "): "@ + (if pred_up {
        "CONNECTED (incoming)"@
    } else {
        "disconnected"@
    }) + "\n"@ + "Successor   ("@ + padded(succ, 10) + "): "@ + (if succ_up {
        "CONNECTED (outgoing)"@
    } else {
        "disconnected"@
    }) + "\n"@ + "--------------------------------------\n"@ + "\n"@
}

fn push_head(buf: &mut Vec<char>, title: &str, rule: &str)
    ensures
        final(buf)@ == old(buf)@ + table_head(title@, rule@),
{
    let t = chars_of(title);
    let r = chars_of(rule);
    push_padded(buf, &t, 15);
    push_str(buf, " Status\n");
    push_padded(buf, &r, 15);
    push_str(buf, " ------\n");
    assert(buf@ =~= old(buf)@ + table_head(title@, rule@));
}

fn push_row(buf: &mut Vec<char>, name: &Vec<char>, up: bool)
    ensures
        final(buf)@ == old(buf)@ + row_line((name@, up)),
{
    push_padded(buf, name, 15);
    push_str(buf, " ");
    if up {
        push_str(buf, "CONNECTED");
    } else {
        push_str(buf, "disconnected");
    }
    push_str(buf, "\n");
    assert(buf@ =~= old(buf)@ + row_line((name@, up)));
}

fn push_table_rows(buf: &mut Vec<char>, status: &StatusTable)
    ensures
        final(buf)@ == old(buf)@ + row_lines(status.rows()),
{
    let ghost rows = status.rows();
    let mut i: usize = 0;
    assert(rows.take(0) =~= Seq::<Row>::empty());
    assert(buf@ =~= old(buf)@ + row_lines(rows.take(0)));
    while i < status.len()
        invariant
            rows == status.rows(),
            i <= rows.len(),
            buf@ == old(buf)@ + row_lines(rows.take(i as int)),
        decreases rows.len() - i,
    {
        let name = status.row_name(i);
        let up = status.row_up(i);
        push_row(buf, name, up);
        assert(rows.take(i + 1).drop_last() =~= rows.take(i as int));
        assert(rows.take(i + 1).last() == (name@, up));
        assert(buf@ =~= old(buf)@ + row_lines(rows.take(i + 1)));
        i = i + 1;
    }
    assert(rows.take(rows.len() as int) =~= rows);
}

/// The mesh node's screen (`print_topology`).
pub fn mesh_screen(my_name: &str, status: &StatusTable) -> (r: String)
    ensures
        r@ == mesh_screen_text(my_name@, status.rows()),
        ends_with(
            r@,
            "Active edges from this node: "@ + decimal(status.rows().filter(|r: Row| r.1).len()) + " / "@
                + decimal(status.rows().len()) + "\n"@ + "\n"@,
        ),
{
    proof {
        lemma_mesh_screen_count(my_name@, status.rows());
    }
    let mut b: Vec<char> = Vec::new();
    push_str(&mut b, "\x1B[2J\x1B[H");
    push_str(&mut b, "=== P2P Mesh Topology — Node: ");
    push_str(&mut b, my_name);
    push_str(&mut b, " ===\n");
    push_head(&mut b, "Peer", "----");
    push_table_rows(&mut b, status);
    push_str(&mut b, "--------------------------------------\n");
    push_str(&mut b, "Active edges from this node: ");
    push_decimal(&mut b, status.active_count() as u64);
    push_str(&mut b, " / ");
    push_decimal(&mut b, status.len() as u64);
    push_str(&mut b, "\n");
    push_str(&mut b, "\n");
    assert(b@ =~= mesh_screen_text(my_name@, status.rows()));
    string_of(&b)
}

/// The star hub's screen (`print_hub_topology`).
pub fn hub_screen(hub_name: &str, status: &StatusTable) -> (r: String)
    ensures
        r@ == hub_screen_text(hub_name@, status.rows()),
        ends_with(
            r@,
            "Active spokes: "@ + decimal(status.rows().filter(|r: Row| r.1).len()) + " / "@ + decimal(
                status.rows().len(),
            ) + "\n"@ + "(Spokes cannot see each other — only the hub has this full view)\n"@ + "\n"@,
        ),
{
    proof {
        lemma_hub_screen_count(hub_name@, status.rows());
    }
    let mut b: Vec<char> = Vec::new();
    push_str(&mut b, "\x1B[2J\x1B[H");
    push_str(&mut b, "=== STAR TOPOLOGY — Hub: ");
    push_str(&mut b, hub_name);
    push_str(&mut b, " ===\n");
    push_head(&mut b, "Spoke", "-----");
    push_table_rows(&mut b, status);
    push_str(&mut b, "-----------------------------------\n");
    push_str(&mut b, "Active spokes: ");
    push_decimal(&mut b, status.active_count() as u64);
    push_str(&mut b, " / ");
    push_decimal(&mut b, status.len() as u64);
    push_str(&mut b, "\n");
    push_str(&mut b, "(Spokes cannot see each other — only the hub has this full view)\n");
    push_str(&mut b, "\n");
    assert(b@ =~= hub_screen_text(hub_name@, status.rows()));
    string_of(&b)
}

/// The ring node's screen (`print_ring_topology`).
pub fn ring_screen(my_name: &str, pred_name: &str, pred_up: bool, succ_name: &str, succ_up: bool) -> (r:
    String)
    ensures
        r@ == ring_screen_text(my_name@, pred_name@, pred_up, succ_name@, succ_up),
        ends_with(
            r@,
            "Successor   ("@ + padded(succ_name@, 10) + "): "@ + (if succ_up {
                "CONNECTED (outgoing)"@
            } else {
                "disconnected"@
            }) + "\n"@ + "--------------------------------------\n"@ + "\n"@,
        ),
        starts_with(
            r@,
            clear_screen() + "=== RING TOPOLOGY — Node: "@ + my_name@ + " ===\n"@ + "Predecessor ("@
                + padded(pred_name@, 10) + "): "@ + (if pred_up {
                "CONNECTED (incoming)"@
            } else {
                "disconnected"@
            }) + "\n"@,
        ),
{
    proof {
        lemma_ring_screen_lines(my_name@, pred_name@, pred_up, succ_name@, succ_up);
    }
    let mut b: Vec<char> = Vec::new();
    push_str(&mut b, "\x1B[2J\x1B[H");
    push_str(&mut b, "=== RING TOPOLOGY — Node: ");
    push_str(&mut b, my_name);
    push_str(&mut b, " ===\n");
    push_str(&mut b, "Predecessor (");
    let p = chars_of(pred_name);
    push_padded(&mut b, &p, 10);
    push_str(&mut b, "): ");
    if pred_up {
        push_str(&mut b, "CONNECTED (incoming)");
    } else {
        push_str(&mut b, "disconnected");
    }
    push_str(&mut b, "\n");
    push_str(&mut b, "Successor   (");
    let s = chars_of(succ_name);
    push_padded(&mut b, &s, 10);
    push_str(&mut b, "): ");
    if succ_up {
        push_str(&mut b, "CONNECTED (outgoing)");
    } else {
        push_str(&mut b, "disconnected");
    }
    push_str(&mut b, "\n");
    push_str(&mut b, "--------------------------------------\n");
    push_str(&mut b, "\n");
    assert(b@ =~= ring_screen_text(my_name@, pred_name@, pred_up, succ_name@, succ_up));
    string_of(&b)
}

/// The bus station's screen for the topology body the segment sent
/// (`print_bus_topology`).
pub fn bus_screen(my_name: &str, body: &str) -> (r: String)
    ensures
        r@ == bus_screen_text(my_name@, body@),
{
    let bv = chars_of(body);
    let pieces = split_chars(&bv, ',');
    let ghost ps = views(pieces@);
    let mut lines: Vec<char> = Vec::new();
    let mut active: usize = 0;
    let mut i: usize = 0;
    assert(ps.take(0) =~= Seq::<Seq<char>>::empty());
    while i < pieces.len()
        invariant
            ps == views(pieces@),
            ps == split_on(body@, ','),
            i <= ps.len(),
            lines@ == row_lines(topo_rows(ps.take(i as int))),
            active == count_up(topo_rows(ps.take(i as int))),
            active <= i,
        decreases ps.len() - i,
    {
        let ghost before = topo_rows(ps.take(i as int));
        assert(ps.take(i + 1).drop_last() =~= ps.take(i as int));
        assert(ps.take(i + 1).last() == pieces@[i as int]@);
        let parts = splitn_chars(&pieces[i], 2, ':');
        if parts.len() == 2 {
            assert(views(parts@)[0] == parts@[0]@);
            assert(views(parts@)[1] == parts@[1]@);
            let up = chars_eq_str(&parts[1], "true");
            if up {
                active = active + 1;
            }
            push_row(&mut lines, &parts[0], up);
            assert(topo_rows(ps.take(i + 1)) == before.push((parts@[0]@, up)));
            assert(before.push((parts@[0]@, up)).drop_last() =~= before);
        }
        i = i + 1;
    }
    assert(ps.take(ps.len() as int) =~= ps);
    let mut b: Vec<char> = Vec::new();
    push_str(&mut b, "\x1B[2J\x1B[H");
    push_str(&mut b, "=== BUS TOPOLOGY — Station: ");
    push_str(&mut b, my_name);
    push_str(&mut b, " ===\n");
    push_str(
        &mut b,
        "(Every station shares this SAME view — the whole segment is one broadcast domain)\n",
    );
    push_str(&mut b, "\n");
    push_head(&mut b, "Station", "-------");
    push_chars(&mut b, &lines);
    push_str(&mut b, "-----------------------------------\n");
    push_str(&mut b, "Active on bus: ");
    push_decimal(&mut b, active as u64);
    push_str(&mut b, "\n");
    push_str(&mut b, "\n");
    assert(b@ =~= bus_screen_text(my_name@, body@));
    string_of(&b)
}

proof fn lemma_count_up_filter(rows: Seq<Row>, p: spec_fn(Row) -> bool)
    requires
        forall|r: Row| #[trigger] p(r) == r.1,
    ensures
        count_up(rows) == rows.filter(p).len(),
    decreases rows.len(),
{
    reveal(Seq::filter);
    if rows.len() > 0 {
        lemma_count_up_filter(rows.drop_last(), p);
    }
}

proof fn lemma_ends_with(head: Seq<char>, tail: Seq<char>)
    ensures
        ends_with(head + tail, tail),
{
    assert((head + tail).skip(head.len() as int) =~= tail);
}

proof fn lemma_starts_with(head: Seq<char>, tail: Seq<char>)
    ensures
        starts_with(head + tail, head),
{
    assert((head + tail).take(head.len() as int) =~= head);
}

/// A hub's screen ends by counting the spokes whose link is up, out of all
/// the spokes it knows, before its closing note.
pub proof fn lemma_hub_screen_count(hub: Seq<char>, rows: Seq<Row>)
    ensures
        ends_with(
            hub_screen_text(hub, rows),
            "Active spokes: "@ + decimal(rows.filter(|r: Row| r.1).len()) + " / "@ + decimal(rows.len())
                + "\n"@ + "(Spokes cannot see each other — only the hub has this full view)\n"@ + "\n"@,
        ),
{
    lemma_count_up_filter(rows, |r: Row| r.1);
    let tail = "Active spokes: "@ + decimal(rows.filter(|r: Row| r.1).len()) + " / "@ + decimal(rows.len())
        + "\n"@ + "(Spokes cannot see each other — only the hub has this full view)\n"@ + "\n"@;
    let head = clear_screen() + "=== STAR TOPOLOGY — Hub: "@ + hub + " ===\n"@ + table_head(
        "Spoke"@,
        "-----"@,
    ) + row_lines(rows) + "-----------------------------------\n"@;
    assert(hub_screen_text(hub, rows) =~= head + tail);
    lemma_ends_with(head, tail);
}

/// A mesh node's screen ends by counting the peers whose link is up, out of
/// all the peers it knows.
pub proof fn lemma_mesh_screen_count(me: Seq<char>, rows: Seq<Row>)
    ensures
        ends_with(
            mesh_screen_text(me, rows),
            "Active edges from this node: "@ + decimal(rows.filter(|r: Row| r.1).len()) + " / "@ + decimal(
                rows.len(),
            ) + "\n"@ + "\n"@,
        ),
{
    lemma_count_up_filter(rows, |r: Row| r.1);
    let tail = "Active edges from this node: "@ + decimal(rows.filter(|r: Row| r.1).len()) + " / "@
        + decimal(rows.len()) + "\n"@ + "\n"@;
    let head = clear_screen() + "=== P2P Mesh Topology — Node: "@ + me + " ===\n"@ + table_head(
        "Peer"@,
        "----"@,
    ) + row_lines(rows) + "--------------------------------------\n"@;
    assert(mesh_screen_text(me, rows) =~= head + tail);
    lemma_ends_with(head, tail);
}

/// A ring node's screen shows each link by its own state alone: it starts
/// with the predecessor's line, which depends on `pred_up` only, and ends
/// with the successor's line, which depends on `succ_up` only.
pub proof fn lemma_ring_screen_lines(
    me: Seq<char>,
    pred: Seq<char>,
    pred_up: bool,
    succ: Seq<char>,
    succ_up: bool,
)
    ensures
        starts_with(
            ring_screen_text(me, pred, pred_up, succ, succ_up),
            clear_screen() + "=== RING TOPOLOGY — Node: "@ + me + " ===\n"@ + "Predecessor ("@ + padded(
                pred,
                10,
            ) + "): "@ + (if pred_up {
                "CONNECTED (incoming)"@
            } else {
                "disconnected"@
            }) + "\n"@,
        ),
        ends_with(
            ring_screen_text(me, pred, pred_up, succ, succ_up),
            "Successor   ("@ + padded(succ, 10) + "): "@ + (if succ_up {
                "CONNECTED (outgoing)"@
            } else {
                "disconnected"@
            }) + "\n"@ + "--------------------------------------\n"@ + "\n"@,
        ),
{
    let head = clear_screen() + "=== RING TOPOLOGY — Node: "@ + me + " ===\n"@ + "Predecessor ("@ + padded(
        pred,
        10,
    ) + "): "@ + (if pred_up {
        "CONNECTED (incoming)"@
    } else {
        "disconnected"@
    }) + "\n"@;
    let tail = "Successor   ("@ + padded(succ, 10) + "): "@ + (if succ_up {
        "CONNECTED (outgoing)"@
    } else {
        "disconnected"@
    }) + "\n"@ + "--------------------------------------\n"@ + "\n"@;
    assert(ring_screen_text(me, pred, pred_up, succ, succ_up) =~= head + tail);
    lemma_starts_with(head, tail);
    lemma_ends_with(head, tail);
}

} // verus!
