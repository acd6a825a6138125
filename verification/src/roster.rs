use vstd::prelude::*;
use crate::order::{lex_lt, lex_less, lemma_lex_total, lemma_lex_asymmetric, lemma_lex_irreflexive};
use crate::split::{split_on, splitn_on, views, split_chars, splitn_chars, occurrences, lemma_split_count, lemma_split_join, lemma_split_keeps_out, lemma_joined_keeps_out};
use crate::status::StatusTable;
use crate::text::{trimmed, chars_of, chars_eq, trim, string_of, lemma_trimmed_within};

verus! {

/// A roster entry as plain text: name, address, port.
pub type EntryView = (Seq<char>, Seq<char>, Seq<char>);

/// One `Name:ip:port` entry of a roster.
pub struct RosterEntry {
    pub name: String,
    pub ip: String,
    pub port: String,
}

impl View for RosterEntry {
    type V = EntryView;

    open spec fn view(&self) -> EntryView {
        (self.name@, self.ip@, self.port@)
    }
}

/// The views of a list of roster entries.
pub open spec fn entry_views(v: Seq<RosterEntry>) -> Seq<EntryView> {
    v.map_values(|e: RosterEntry| e@)
}

/// The `:`-separated fields of one roster entry: the entry is trimmed, then
/// split at most twice, so the port keeps any later `:`.
pub open spec fn entry_fields(piece: Seq<char>) -> Seq<Seq<char>> {
    splitn_on(trimmed(piece), 3, ':')
}

/// The entries that the `,`-separated pieces describe, or the first piece
/// that does not have three fields.
pub open spec fn parsed_entries(pieces: Seq<Seq<char>>) -> Result<Seq<EntryView>, Seq<char>>
    decreases pieces.len(),
{
    if pieces.len() == 0 {
        Ok(Seq::<EntryView>::empty())
    } else {
        let f = entry_fields(pieces[0]);
        if f.len() != 3 {
            Err(pieces[0])
        } else {
            match parsed_entries(pieces.drop_first()) {
                Ok(rest) => Ok(seq![(f[0], f[1], f[2])] + rest),
                Err(e) => Err(e),
            }
        }
    }
}

/// A roster `Name1:ip:port,Name2:ip:port,...` read as its entries, or the
/// first entry (as written, before trimming) that is not of that form.
pub open spec fn parsed_roster(s: Seq<char>) -> Result<Seq<EntryView>, Seq<char>> {
    parsed_entries(split_on(s, ','))
}

proof fn lemma_fields_keep_out(piece: Seq<char>, x: char)
    requires
        !piece.contains(x),
        x != ':',
    ensures
        forall|i: int| 0 <= i < entry_fields(piece).len() ==> !(#[trigger] entry_fields(piece)[i]).contains(x),
{
    let t = trimmed(piece);
    if t.contains(x) {
        lemma_trimmed_within(piece, x);
    }
    lemma_split_keeps_out(t, ':', x);
    let p = split_on(t, ':');
    let f = entry_fields(piece);
    if p.len() > 3 {
        assert forall|i: int| 0 <= i < p.skip(2).len() implies !(#[trigger] p.skip(2)[i]).contains(x) by {
            assert(p.skip(2)[i] == p[i + 2]);
        }
        assert(!seq![':'].contains(x)) by {
            if seq![':'].contains(x) {
                let k = choose|k: int| 0 <= k < 1 && seq![':'][k] == x;
            }
        }
        lemma_joined_keeps_out(p.skip(2), seq![':'], x);
        assert forall|i: int| 0 <= i < f.len() implies !(#[trigger] f[i]).contains(x) by {
            if i < 2 {
                assert(f[i] == p[i]);
            }
        }
    }
}

proof fn lemma_parsed_entries_shape(pieces: Seq<Seq<char>>)
    requires
        forall|i: int| 0 <= i < pieces.len() ==> !(#[trigger] pieces[i]).contains(','),
    ensures
        parsed_entries(pieces) matches Ok(v) ==> {
            &&& v.len() == pieces.len()
            &&& forall|i: int|
                0 <= i < v.len() ==> !(#[trigger] v[i]).0.contains(',') && !v[i].1.contains(',')
                    && !v[i].2.contains(',')
        },
    decreases pieces.len(),
{
    if pieces.len() > 0 {
        let rest = pieces.drop_first();
        assert forall|i: int| 0 <= i < rest.len() implies !(#[trigger] rest[i]).contains(',') by {
            assert(rest[i] == pieces[i + 1]);
        }
        lemma_parsed_entries_shape(rest);
        lemma_fields_keep_out(pieces[0], ',');
        let f = entry_fields(pieces[0]);
        if f.len() == 3 {
            match parsed_entries(rest) {
                Ok(r) => {
                    let v = seq![(f[0], f[1], f[2])] + r;
                    assert forall|i: int| 0 <= i < v.len() implies !(#[trigger] v[i]).0.contains(',')
                        && !v[i].1.contains(',') && !v[i].2.contains(',') by {
                        if i > 0 {
                            assert(v[i] == r[i - 1]);
                        }
                    }
                },
                Err(_) => {},
            }
        }
    }
}

/// A roster has one entry per comma-separated piece, however many pieces
/// there are: when it reads, it gives one entry more than it has commas,
/// and no field of any entry holds a comma.
pub proof fn lemma_roster_entries(s: Seq<char>)
    ensures
        parsed_roster(s) matches Ok(v) ==> {
            &&& v.len() == occurrences(s, ',') + 1
            &&& forall|i: int|
                0 <= i < v.len() ==> !(#[trigger] v[i]).0.contains(',') && !v[i].1.contains(',')
                    && !v[i].2.contains(',')
        },
{
    lemma_split_count(s, ',');
    lemma_split_join(s, ',');
    lemma_parsed_entries_shape(split_on(s, ','));
}

/// Entry `i` is the first one named `name`.
pub open spec fn first_named(r: Seq<EntryView>, name: Seq<char>, i: int) -> bool {
    &&& 0 <= i < r.len()
    &&& r[i].0 == name
    &&& forall|j: int| 0 <= j < i ==> #[trigger] r[j].0 != name
}

/// Some entry is named `name`.
pub open spec fn names_entry(r: Seq<EntryView>, name: Seq<char>) -> bool {
    exists|i: int| 0 <= i < r.len() && r[i].0 == name
}

/// The entry is not named `name`.
pub open spec fn not_named(name: Seq<char>) -> spec_fn(EntryView) -> bool {
    |e: EntryView| e.0 != name
}

/// The entry's name comes before `name`.
pub open spec fn named_before(name: Seq<char>) -> spec_fn(EntryView) -> bool {
    |e: EntryView| lex_lt(e.0, name)
}

proof fn lemma_filter_exact(s: Seq<EntryView>, p: spec_fn(EntryView) -> bool)
    ensures
        forall|e: EntryView| #[trigger] s.filter(p).contains(e) <==> (s.contains(e) && p(e)),
{
    assert forall|e: EntryView| #[trigger] s.filter(p).contains(e) <==> (s.contains(e) && p(e)) by {
        if s.filter(p).contains(e) {
            s.lemma_filter_contains_rev(p, e);
            let i = choose|i: int| 0 <= i < s.filter(p).len() && s.filter(p)[i] == e;
            s.lemma_filter_pred(p, i);
        }
        if s.contains(e) && p(e) {
            let i = choose|i: int| 0 <= i < s.len() && s[i] == e;
            s.lemma_filter_contains(p, i);
        }
    }
}

/// A mesh node's peers are exactly the roster entries whose name is not its
/// own (an entry is left out if and only if it is named like the node), and
/// the peers it dials are exactly the roster entries whose name comes before
/// its own in the order of `str`.
pub proof fn lemma_mesh_peers_exact(v: Seq<EntryView>, me: Seq<char>)
    ensures
        forall|e: EntryView| #[trigger] v.filter(not_named(me)).contains(e) <==> (v.contains(e) && e.0
            != me),
        forall|e: EntryView| #[trigger] v.filter(not_named(me)).filter(named_before(me)).contains(e) <==> (
        v.contains(e) && lex_lt(e.0, me)),
{
    lemma_filter_exact(v, not_named(me));
    lemma_filter_exact(v.filter(not_named(me)), named_before(me));
    assert forall|e: EntryView| #[trigger] v.filter(not_named(me)).filter(named_before(me)).contains(e)
        <==> (v.contains(e) && lex_lt(e.0, me)) by {
        lemma_lex_irreflexive(me);
        if lex_lt(e.0, me) && e.0 == me {
            assert(lex_lt(me, me));
        }
    }
}

fn copy_entry(e: &RosterEntry) -> (r: RosterEntry)
    ensures
        r@ == e@,
{
    RosterEntry { name: e.name.clone(), ip: e.ip.clone(), port: e.port.clone() }
}

/// Reads a roster string; a malformed entry is returned, as written, as the
/// error.
pub fn parse_roster(roster: &str) -> (r: Result<Vec<RosterEntry>, String>)
    ensures
        match r {
            Ok(v) => parsed_roster(roster@) == Ok::<Seq<EntryView>, Seq<char>>(entry_views(v@)),
            Err(e) => parsed_roster(roster@) == Err::<Seq<EntryView>, Seq<char>>(e@),
        },
        r matches Ok(v) ==> v@.len() == occurrences(roster@, ',') + 1,
{
    proof {
        lemma_roster_entries(roster@);
    }
    let s = chars_of(roster);
    let pieces = split_chars(&s, ',');
    let ghost ps = views(pieces@);
    let mut out: Vec<RosterEntry> = Vec::new();
    let mut i: usize = 0;
    assert(ps.skip(0) =~= ps);
    while i < pieces.len()
        invariant
            ps == views(pieces@),
            ps == split_on(roster@, ','),
            i <= ps.len(),
            parsed_roster(roster@) == match parsed_entries(ps.skip(i as int)) {
                Ok(rest) => Ok::<Seq<EntryView>, Seq<char>>(entry_views(out@) + rest),
                Err(e) => Err(e),
            },
        decreases ps.len() - i,
    {
        let ghost tail = ps.skip(i as int);
        assert(tail[0] == pieces@[i as int]@);
        assert(tail.drop_first() =~= ps.skip(i + 1));
        let t = trim(&pieces[i]);
        let f = splitn_chars(&t, 3, ':');
        if f.len() != 3 {
            return Err(string_of(&pieces[i]));
        }
        let e = RosterEntry { name: string_of(&f[0]), ip: string_of(&f[1]), port: string_of(&f[2]) };
        let ghost before = entry_views(out@);
        let ghost ev = e@;
        out.push(e);
        proof {
            assert(entry_views(out@) =~= before.push(ev));
            match parsed_entries(ps.skip(i + 1)) {
                Ok(rest) => {
                    assert(before.push(ev) + rest =~= before + (seq![ev] + rest));
                },
                Err(_) => {},
            }
        }
        i = i + 1;
    }
    assert(ps.skip(ps.len() as int) =~= Seq::<Seq<char>>::empty());
    assert(entry_views(out@) + Seq::<EntryView>::empty() =~= entry_views(out@));
    Ok(out)
}

/// The index of the first entry named `name`, if there is one.
pub fn find_entry(roster: &Vec<RosterEntry>, name: &str) -> (r: Option<usize>)
    ensures
        match r {
            Some(i) => first_named(entry_views(roster@), name@, i as int),
            None => !names_entry(entry_views(roster@), name@),
        },
{
    let me = chars_of(name);
    let mut i: usize = 0;
    while i < roster.len()
        invariant
            i <= roster@.len(),
            me@ == name@,
            forall|j: int| 0 <= j < i ==> #[trigger] entry_views(roster@)[j].0 != name@,
        decreases roster@.len() - i,
    {
        let n = chars_of_name(&roster[i]);
        assert(entry_views(roster@)[i as int].0 == roster@[i as int].name@);
        if chars_eq(&n, &me) {
            return Some(i);
        }
        i = i + 1;
    }
    None
}

/// What a mesh node takes from the roster: its own port, every other entry,
/// and the entries it dials itself (those named before it: the peer with the
/// larger name initiates, the smaller one waits, so that of two peers exactly
/// one opens the link between them).
pub struct MeshPlan {
    pub my_port: String,
    pub others: Vec<RosterEntry>,
    pub dial: Vec<RosterEntry>,
}

/// The mesh plan of the node `my_name`, or `None` where the roster does not
/// name it.
pub fn mesh_plan(my_name: &str, roster: &Vec<RosterEntry>) -> (r: Option<MeshPlan>)
    ensures
        r is None <==> !names_entry(entry_views(roster@), my_name@),
        r matches Some(p) ==> {
            &&& exists|i: int|
                #[trigger] first_named(entry_views(roster@), my_name@, i) && p.my_port@ == roster@[i].port@
            &&& entry_views(p.others@) == entry_views(roster@).filter(not_named(my_name@))
            &&& entry_views(p.dial@) == entry_views(p.others@).filter(named_before(my_name@))
            &&& forall|e: EntryView| #[trigger] entry_views(p.others@).contains(e) <==> (entry_views(
                roster@,
            ).contains(e) && e.0 != my_name@)
            &&& forall|e: EntryView| #[trigger] entry_views(p.dial@).contains(e) <==> (entry_views(
                roster@,
            ).contains(e) && lex_lt(e.0, my_name@))
        },
{
    let me = chars_of(my_name);
    let idx = find_entry(roster, my_name);
    match idx {
        None => None,
        Some(k) => {
            let my_port = roster[k].port.clone();
            let ghost all = entry_views(roster@);
            let mut others: Vec<RosterEntry> = Vec::new();
            let mut dial: Vec<RosterEntry> = Vec::new();
            let mut i: usize = 0;
            while i < roster.len()
                invariant
                    i <= roster@.len(),
                    all == entry_views(roster@),
                    me@ == my_name@,
                    entry_views(others@) == all.take(i as int).filter(not_named(my_name@)),
                    entry_views(dial@) == entry_views(others@).filter(named_before(my_name@)),
                decreases roster@.len() - i,
            {
                let ghost ev = roster@[i as int]@;
                let ghost o0 = entry_views(others@);
                let ghost d0 = entry_views(dial@);
                assert(all.take(i + 1) =~= all.take(i as int).push(ev));
                proof {
                    all.take(i as int).lemma_filter_push(ev, not_named(my_name@));
                }
                let n = chars_of_name(&roster[i]);
                assert(ev == roster@[i as int]@);
                if !chars_eq(&n, &me) {
                    let e = copy_entry(&roster[i]);
                    others.push(e);
                    assert(entry_views(others@) =~= o0.push(ev));
                    proof {
                        o0.lemma_filter_push(ev, named_before(my_name@));
                    }
                    if lex_less(&n, &me) {
                        let e2 = copy_entry(&roster[i]);
                        dial.push(e2);
                        assert(entry_views(dial@) =~= d0.push(ev));
                    }
                }
                i = i + 1;
            }
            assert(all.take(roster@.len() as int) =~= all);
            proof {
                lemma_mesh_peers_exact(all, my_name@);
                assert(first_named(all, my_name@, k as int));
            }
            Some(MeshPlan { my_port, others, dial })
        },
    }
}

fn chars_of_name(e: &RosterEntry) -> (r: Vec<char>)
    ensures
        r@ == e.name@,
{
    chars_of(e.name.as_str())
}

/// The status table a mesh node starts from: every other peer, link down.
pub fn initial_status(others: &Vec<RosterEntry>) -> (t: StatusTable)
    ensures
        t.wf(),
        t@ == Map::new(
            |k: Seq<char>| names_entry(entry_views(others@), k),
            |k: Seq<char>| false,
        ),
{
    let mut names: Vec<String> = Vec::new();
    let mut i: usize = 0;
    while i < others.len()
        invariant
            i <= others@.len(),
            names@.len() == i,
            forall|j: int| 0 <= j < i ==> #[trigger] names@[j]@ == others@[j].name@,
        decreases others@.len() - i,
    {
        names.push(others[i].name.clone());
        i = i + 1;
    }
    let t = StatusTable::from_names(&names);
    assert(t@ =~= Map::new(
        |k: Seq<char>| names_entry(entry_views(others@), k),
        |k: Seq<char>| false,
    )) by {
        assert forall|k: Seq<char>| #[trigger] t@.dom().contains(k) <==> names_entry(entry_views(others@), k) by {
            if names_entry(entry_views(others@), k) {
                let j = choose|j: int| 0 <= j < others@.len() && entry_views(others@)[j].0 == k;
                assert(names@[j]@ == k);
            }
            if t@.dom().contains(k) {
                let j = choose|j: int| 0 <= j < names@.len() && names@[j]@ == k;
                assert(entry_views(others@)[j].0 == k);
            }
        }
    }
    t
}

/// The index after `i` in a ring of `n`.
pub open spec fn succ_index(i: int, n: int) -> int {
    (i + 1) % n
}

/// The index before `i` in a ring of `n`.
pub open spec fn pred_index(i: int, n: int) -> int {
    (i + n - 1) % n
}

proof fn lemma_ring_indices(i: int, n: int)
    requires
        0 <= i < n,
    ensures
        succ_index(i, n) == if i + 1 == n { 0 } else { i + 1 },
        pred_index(i, n) == if i == 0 { n - 1 } else { i - 1 },
{
    if i + 1 == n {
        vstd::arithmetic::div_mod::lemma_mod_self_0(n);
    } else {
        vstd::arithmetic::div_mod::lemma_small_mod((i + 1) as nat, n as nat);
    }
    if i == 0 {
        vstd::arithmetic::div_mod::lemma_small_mod((n - 1) as nat, n as nat);
    } else {
        vstd::arithmetic::div_mod::lemma_mod_add_multiples_vanish(i - 1, n);
        vstd::arithmetic::div_mod::lemma_small_mod((i - 1) as nat, n as nat);
    }
}

/// What a ring node takes from the roster, whose order is the ring's:
/// its own port, its successor (whom it dials) and its predecessor's name
/// (who dials it).
pub struct RingPlan {
    pub my_port: String,
    pub succ: RosterEntry,
    pub pred_name: String,
}

/// The ring plan of the node `my_name`, or `None` where the roster does not
/// name it.
pub fn ring_plan(my_name: &str, roster: &Vec<RosterEntry>) -> (r: Option<RingPlan>)
    ensures
        r is None <==> !names_entry(entry_views(roster@), my_name@),
        r matches Some(p) ==> exists|i: int|
            #[trigger] first_named(entry_views(roster@), my_name@, i) && p.my_port@ == entry_views(roster@)[i].2
                && p.succ@ == entry_views(roster@)[succ_index(i, roster@.len() as int)]
                && p.pred_name@ == entry_views(roster@)[pred_index(i, roster@.len() as int)].0,
{
    match find_entry(roster, my_name) {
        None => None,
        Some(i) => {
            let n: usize = roster.len();
            let s: usize = if i + 1 == n { 0 } else { i + 1 };
            let p: usize = if i == 0 { n - 1 } else { i - 1 };
            proof {
                lemma_ring_indices(i as int, n as int);
            }
            let plan = RingPlan {
                my_port: roster[i].port.clone(),
                succ: copy_entry(&roster[s]),
                pred_name: roster[p].name.clone(),
            };
            assert(first_named(entry_views(roster@), my_name@, i as int));
            Some(plan)
        },
    }
}

/// In a ring, the successor's predecessor and the predecessor's successor
/// are the node itself: each link of the ring is one node's outgoing link
/// and the next node's incoming link.
pub proof fn lemma_ring_neighbours(i: int, n: int)
    requires
        0 <= i < n,
    ensures
        0 <= succ_index(i, n) < n,
        0 <= pred_index(i, n) < n,
        pred_index(succ_index(i, n), n) == i,
        succ_index(pred_index(i, n), n) == i,
{
    lemma_ring_indices(i, n);
    let s = succ_index(i, n);
    let p = pred_index(i, n);
    lemma_ring_indices(s, n);
    lemma_ring_indices(p, n);
}

/// How many of `names` come before `me`: the links `me` dials in a mesh.
pub open spec fn dial_count(names: Seq<Seq<char>>, me: Seq<char>) -> nat
    decreases names.len(),
{
    if names.len() == 0 {
        0
    } else {
        dial_count(names.drop_last(), me) + if lex_lt(names.last(), me) {
            1nat
        } else {
            0nat
        }
    }
}

/// How many of `names` come after `x`: the links dialled to `x`.
pub open spec fn dialer_count(names: Seq<Seq<char>>, x: Seq<char>) -> nat
    decreases names.len(),
{
    if names.len() == 0 {
        0
    } else {
        dialer_count(names.drop_last(), x) + if lex_lt(x, names.last()) {
            1nat
        } else {
            0nat
        }
    }
}

/// The links that the nodes of `nodes` dial among `names`, added up.
pub open spec fn links_dialled(nodes: Seq<Seq<char>>, names: Seq<Seq<char>>) -> nat
    decreases nodes.len(),
{
    if nodes.len() == 0 {
        0
    } else {
        links_dialled(nodes.drop_last(), names) + dial_count(names, nodes.last())
    }
}

/// The links of a full mesh over `names`: what every node dials, added up.
pub open spec fn mesh_links(names: Seq<Seq<char>>) -> nat {
    links_dialled(names, names)
}

/// Of two distinct peers exactly one dials the other: the one whose name
/// comes last.
pub proof fn lemma_one_dialer(a: Seq<char>, b: Seq<char>)
    requires
        a != b,
    ensures
        lex_lt(a, b) != lex_lt(b, a),
{
    lemma_lex_total(a, b);
    lemma_lex_asymmetric(a, b);
}

proof fn lemma_dial_split(names: Seq<Seq<char>>, x: Seq<char>)
    requires
        !names.contains(x),
    ensures
        dial_count(names, x) + dialer_count(names, x) == names.len(),
    decreases names.len(),
{
    if names.len() > 0 {
        assert(!names.drop_last().contains(x)) by {
            if names.drop_last().contains(x) {
                let k = choose|k: int| 0 <= k < names.drop_last().len() && names.drop_last()[k] == x;
                assert(names[k] == x);
            }
        }
        lemma_dial_split(names.drop_last(), x);
        assert(names.last() != x) by {
            assert(names[names.len() - 1] == names.last());
        }
        lemma_one_dialer(x, names.last());
    }
}

proof fn lemma_links_dialled_push(nodes: Seq<Seq<char>>, names: Seq<Seq<char>>, x: Seq<char>)
    ensures
        links_dialled(nodes, names.push(x)) == links_dialled(nodes, names) + dialer_count(nodes, x),
    decreases nodes.len(),
{
    if nodes.len() > 0 {
        lemma_links_dialled_push(nodes.drop_last(), names, x);
        assert(names.push(x).drop_last() =~= names);
    }
}

/// A full mesh of `n` peers with distinct names has `n * (n - 1) / 2`
/// links: each pair is linked once, by the peer whose name comes last.
pub proof fn lemma_mesh_link_count(names: Seq<Seq<char>>)
    requires
        names.no_duplicates(),
    ensures
        2 * mesh_links(names) == names.len() * (names.len() - 1),
    decreases names.len(),
{
    if names.len() > 0 {
        let s = names.drop_last();
        let x = names.last();
        assert(s.push(x) =~= names);
        assert(s.no_duplicates()) by {
            assert forall|i: int, j: int| 0 <= i < s.len() && 0 <= j < s.len() && i != j implies s[i]
                != s[j] by {
                assert(names[i] == s[i] && names[j] == s[j]);
            }
        }
        assert(!s.contains(x)) by {
            if s.contains(x) {
                let k = choose|k: int| 0 <= k < s.len() && s[k] == x;
                assert(names[k] == names[names.len() - 1]);
            }
        }
        lemma_mesh_link_count(s);
        lemma_links_dialled_push(s, s, x);
        lemma_dial_split(s, x);
        lemma_lex_irreflexive(x);
        assert(dial_count(names, x) == dial_count(s, x));
        assert(mesh_links(names) == links_dialled(s, names) + dial_count(names, x));
        let m = mesh_links(s);
        let n = s.len();
        assert(mesh_links(names) == m + n);
        assert(2 * (m + n) == (n + 1) * n) by (nonlinear_arith)
            requires
                2 * m == n * (n - 1),
        ;
    }
}

/// The number of entries a mesh node dials (its plan's `dial`) is the
/// number of roster names that come before its own.
pub proof fn lemma_dial_len(v: Seq<EntryView>, me: Seq<char>)
    ensures
        v.filter(not_named(me)).filter(named_before(me)).len() == dial_count(
            v.map_values(|e: EntryView| e.0),
            me,
        ),
    decreases v.len(),
{
    if v.len() > 0 {
        let w = v.drop_last();
        let e = v.last();
        assert(w.push(e) =~= v);
        lemma_dial_len(w, me);
        w.lemma_filter_push(e, not_named(me));
        w.filter(not_named(me)).lemma_filter_push(e, named_before(me));
        assert(v.map_values(|e: EntryView| e.0).drop_last() =~= w.map_values(|e: EntryView| e.0));
        lemma_lex_irreflexive(me);
    } else {
        assert(v.filter(not_named(me)) =~= v) by {
            reveal(Seq::filter);
        }
        assert(v.filter(not_named(me)).filter(named_before(me)) =~= v) by {
            reveal(Seq::filter);
        }
    }
}

} // verus!
