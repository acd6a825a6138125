use vstd::prelude::*;
use crate::number::{decimal, parsed_u32, parse_u32, push_decimal, lemma_parse_decimal, lemma_decimal_digits, is_digit};
use crate::roster::succ_index;
use crate::split::{split_on, splitn_on, joined, views, splitn_chars, lemma_split_join, lemma_split_concat, lemma_split_without_sep};
use crate::text::{trimmed_end, is_whitespace, chars_of, chars_eq_str, str_eq, trim_end, push_str, string_of, lemma_trimmed_end_after, lemma_trimmed_end_idempotent};

verus! {

/// A ring frame `MSG|origin|hop|text` taken apart.
pub struct RingFrame {
    pub origin: String,
    pub hop: u32,
    pub text: String,
}

/// What a ring node does with a line from its predecessor.
pub enum RingOutcome {
    /// Not a ring frame: nothing.
    Ignore,
    /// The node's own frame came back: the ring is complete.
    Completed { hop: u32, text: Seq<char> },
    /// Someone else's frame: pass it on to the successor.
    Relay { origin: Seq<char>, hop: u32, text: Seq<char> },
}

/// The `|`-separated fields of a ring line, at most four, so the text keeps
/// any `|` of its own.
pub open spec fn ring_fields(line: Seq<char>) -> Seq<Seq<char>> {
    splitn_on(line, 4, '|')
}

/// A ring line read as a frame: four fields, the first `MSG`; a hop count
/// that does not read as a `u32` counts as 0.
pub open spec fn parsed_frame(line: Seq<char>) -> Option<(Seq<char>, u32, Seq<char>)> {
    let f = ring_fields(line);
    if f.len() == 4 && f[0] == "MSG"@ {
        Some(
            (
                f[1],
                match parsed_u32(f[2]) {
                    Some(h) => h,
                    None => 0,
                },
                f[3],
            ),
        )
    } else {
        None
    }
}

/// What the node `me` does with the line `received` (its line ending and
/// any trailing whitespace are dropped first).
pub open spec fn ring_outcome(me: Seq<char>, received: Seq<char>) -> RingOutcome {
    match parsed_frame(trimmed_end(received)) {
        None => RingOutcome::Ignore,
        Some((o, h, t)) => if o == me {
            RingOutcome::Completed { hop: h, text: t }
        } else {
            RingOutcome::Relay { origin: o, hop: h, text: t }
        },
    }
}

/// The frame line `MSG|origin|hop|text` and its line ending.
pub open spec fn frame_text(origin: Seq<char>, hop: nat, text: Seq<char>) -> Seq<char> {
    "MSG|"@ + origin + "|"@ + decimal(hop) + "|"@ + text + "\n"@
}

/// What a node prints when its own frame comes back.
pub open spec fn completed_report(me: Seq<char>, hop: nat, text: Seq<char>) -> Seq<char> {
    "["@ + me + "] Message completed the ring after "@ + decimal(hop) + " hop(s): \""@ + text + "\""@
}

/// What a node prints when it passes a frame on.
pub open spec fn relay_report(me: Seq<char>, origin: Seq<char>, hop: nat, text: Seq<char>) -> Seq<char> {
    "["@ + me + "] Relaying message from "@ + origin + " (hop "@ + decimal(hop) + "): \""@ + text + "\""@
}

/// What `handle_ring_message` decided, with the lines to print and send.
pub enum RingAction {
    Ignore,
    Completed { hop: u32, text: String, report: String },
    Relay { origin: String, hop: u32, text: String, report: String, forward: String },
}

/// Reads a ring line (already stripped of its line ending) as a frame.
pub fn parse_ring_frame(line: &str) -> (r: Option<RingFrame>)
    ensures
        match r {
            Some(f) => parsed_frame(line@) == Some((f.origin@, f.hop, f.text@)),
            None => parsed_frame(line@) is None,
        },
{
    let s = chars_of(line);
    parse_frame_chars(&s)
}

fn parse_frame_chars(s: &Vec<char>) -> (r: Option<RingFrame>)
    ensures
        match r {
            Some(f) => parsed_frame(s@) == Some((f.origin@, f.hop, f.text@)),
            None => parsed_frame(s@) is None,
        },
{
    let f = splitn_chars(s, 4, '|');
    if f.len() != 4 {
        return None;
    }
    assert(views(f@)[0] == f@[0]@);
    if !chars_eq_str(&f[0], "MSG") {
        return None;
    }
    let hop = match parse_u32(&f[2]) {
        Some(h) => h,
        None => 0,
    };
    assert(views(f@)[1] == f@[1]@);
    assert(views(f@)[2] == f@[2]@);
    assert(views(f@)[3] == f@[3]@);
    Some(RingFrame { origin: string_of(&f[1]), hop, text: string_of(&f[3]) })
}

/// The frame line `MSG|origin|hop|text\n` that a node sends on.
pub fn ring_frame(origin: &str, hop: u32, text: &str) -> (r: String)
    ensures
        r@ == frame_text(origin@, hop as nat, text@),
{
    let mut b: Vec<char> = Vec::new();
    push_str(&mut b, "MSG|");
    push_str(&mut b, origin);
    push_str(&mut b, "|");
    push_decimal(&mut b, hop as u64);
    push_str(&mut b, "|");
    push_str(&mut b, text);
    push_str(&mut b, "\n");
    string_of(&b)
}

/// Whether passing on the line `received` would take its hop count past
/// `u32::MAX`, where `handle_ring_message` cannot go (the count is a `u32`).
pub fn relay_overflows(my_name: &str, received: &str) -> (r: bool)
    ensures
        r == (ring_outcome(my_name@, received@) matches RingOutcome::Relay { hop, .. } && hop
            == u32::MAX),
{
    let s = chars_of(received);
    let t = trim_end(&s);
    match parse_frame_chars(&t) {
        None => false,
        Some(f) => !str_eq(f.origin.as_str(), my_name) && f.hop == u32::MAX,
    }
}

/// What the ring node `my_name` does with a line `received` from its
/// predecessor: nothing, report that its own message came round, or report
/// and pass on someone else's with the hop count one higher.
pub fn handle_ring_message(my_name: &str, received: &str) -> (r: RingAction)
    requires
        !(ring_outcome(my_name@, received@) matches RingOutcome::Relay { hop, .. } && hop
            == u32::MAX),
    ensures
        match ring_outcome(my_name@, received@) {
            RingOutcome::Ignore => r is Ignore,
            RingOutcome::Completed { hop, text } => r matches RingAction::Completed {
                hop: h,
                text: t,
                report,
            } && h == hop && t@ == text && report@ == completed_report(my_name@, hop as nat, text),
            RingOutcome::Relay { origin, hop, text } => r matches RingAction::Relay {
                origin: o,
                hop: h,
                text: t,
                report,
                forward,
            } && o@ == origin && h == hop && t@ == text && report@ == relay_report(
                my_name@,
                origin,
                hop as nat,
                text,
            ) && forward@ == frame_text(origin, (hop + 1) as nat, text),
        },
{
    let s = chars_of(received);
    let t = trim_end(&s);
    match parse_frame_chars(&t) {
        None => RingAction::Ignore,
        Some(f) => {
            if str_eq(f.origin.as_str(), my_name) {
                let mut b: Vec<char> = Vec::new();
                push_str(&mut b, "[");
                push_str(&mut b, my_name);
                push_str(&mut b, "] Message completed the ring after ");
                push_decimal(&mut b, f.hop as u64);
                push_str(&mut b, " hop(s): \"");
                push_str(&mut b, f.text.as_str());
                push_str(&mut b, "\"");
                let report = string_of(&b);
                RingAction::Completed { hop: f.hop, text: f.text, report }
            } else {
                let mut b: Vec<char> = Vec::new();
                push_str(&mut b, "[");
                push_str(&mut b, my_name);
                push_str(&mut b, "] Relaying message from ");
                push_str(&mut b, f.origin.as_str());
                push_str(&mut b, " (hop ");
                push_decimal(&mut b, f.hop as u64);
                push_str(&mut b, "): \"");
                push_str(&mut b, f.text.as_str());
                push_str(&mut b, "\"");
                let report = string_of(&b);
                let forward = ring_frame(f.origin.as_str(), f.hop + 1, f.text.as_str());
                RingAction::Relay { origin: f.origin, hop: f.hop, text: f.text, report, forward }
            }
        },
    }
}

proof fn lemma_frame_fields(origin: Seq<char>, d: Seq<char>, t: Seq<char>)
    requires
        !origin.contains('|'),
        !d.contains('|'),
    ensures
        ring_fields("MSG|"@ + origin + "|"@ + d + "|"@ + t) == seq!["MSG"@, origin, d, t],
{
    reveal_strlit("MSG|");
    reveal_strlit("MSG");
    reveal_strlit("|");
    let m = seq!['M', 'S', 'G'];
    assert("MSG"@ =~= m);
    let bar = seq!['|'];
    let line = "MSG|"@ + origin + "|"@ + d + "|"@ + t;
    assert(line =~= m + bar + (origin + bar + (d + bar + t)));
    lemma_split_concat(m, origin + bar + (d + bar + t), '|');
    lemma_split_concat(origin, d + bar + t, '|');
    lemma_split_concat(d, t, '|');
    assert(!m.contains('|')) by {
        if m.contains('|') {
            let k = choose|k: int| 0 <= k < m.len() && m[k] == '|';
        }
    }
    lemma_split_without_sep(m, '|');
    lemma_split_without_sep(origin, '|');
    lemma_split_without_sep(d, '|');
    lemma_split_join(t, '|');
    let pt = split_on(t, '|');
    let p = split_on(line, '|');
    assert(p =~= seq![m, origin, d] + pt);
    if p.len() <= 4 {
        assert(pt.len() == 1);
        assert(joined(pt, seq!['|']) == pt[0]);
        assert(p =~= seq!["MSG"@, origin, d, t]);
    } else {
        assert(p.skip(3) =~= pt);
        assert(p.take(3).push(joined(p.skip(3), seq!['|'])) =~= seq!["MSG"@, origin, d, t]);
    }
}

/// A frame that `origin` sends round a ring of distinct `names` (the
/// roster's order) reaches, after `k` hops, the node `k` places on, with
/// hop count `k`: each node before the last passes it on to its successor,
/// and it comes back to its sender, who reports the ring complete, after as
/// many hops as the ring has nodes.  Its text arrives without the trailing
/// whitespace that every node drops, and passing it on drops no more.
pub proof fn lemma_ring_delivery(names: Seq<Seq<char>>, o: int, text: Seq<char>, k: int)
    requires
        names.no_duplicates(),
        0 <= o < names.len(),
        1 <= k <= names.len(),
        names.len() <= u32::MAX,
        !names[o].contains('|'),
    ensures
        ring_outcome(names[(o + k) % (names.len() as int)], frame_text(names[o], k as nat, text))
            == if k < names.len() {
            RingOutcome::Relay { origin: names[o], hop: k as u32, text: trimmed_end(text) }
        } else {
            RingOutcome::Completed { hop: k as u32, text: trimmed_end(text) }
        },
        succ_index((o + k) % (names.len() as int), names.len() as int) == (o + k + 1) % (
        names.len() as int),
        trimmed_end(trimmed_end(text)) == trimmed_end(text),
{
    let n = names.len() as int;
    let d = decimal(k as nat);
    lemma_decimal_digits(k as nat);
    assert(!d.contains('|')) by {
        if d.contains('|') {
            let j = choose|j: int| 0 <= j < d.len() && d[j] == '|';
            assert(is_digit(d[j]));
        }
    }
    reveal_strlit("\n");
    reveal_strlit("|");
    let head = "MSG|"@ + names[o] + "|"@ + d + "|"@;
    assert(frame_text(names[o], k as nat, text) =~= head + (text + "\n"@));
    assert(head.last() == '|');
    lemma_trimmed_end_after(head, text + "\n"@);
    assert((text + "\n"@).drop_last() =~= text);
    assert(is_whitespace((text + "\n"@).last()));
    assert(trimmed_end(text + "\n"@) == trimmed_end(text));
    assert(head + trimmed_end(text) =~= "MSG|"@ + names[o] + "|"@ + d + "|"@ + trimmed_end(text));
    lemma_frame_fields(names[o], d, trimmed_end(text));
    lemma_parse_decimal(k as u32);
    lemma_trimmed_end_idempotent(text);
    let at = (o + k) % n;
    if k < n {
        if o + k < n {
            vstd::arithmetic::div_mod::lemma_small_mod((o + k) as nat, n as nat);
        } else {
            vstd::arithmetic::div_mod::lemma_mod_add_multiples_vanish(o + k - n, n);
            vstd::arithmetic::div_mod::lemma_small_mod((o + k - n) as nat, n as nat);
        }
        assert(names[at] != names[o]);
    } else {
        vstd::arithmetic::div_mod::lemma_mod_add_multiples_vanish(o, n);
        vstd::arithmetic::div_mod::lemma_small_mod(o as nat, n as nat);
    }
    vstd::arithmetic::div_mod::lemma_add_mod_noop_right(1, o + k, n);
    assert(1 + (o + k) == o + k + 1);
}

} // verus!
