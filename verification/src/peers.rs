use vstd::prelude::*;
use crate::links::{LinkSet, string_views};
use crate::split::{split_on, views, split_chars};
use crate::status::StatusTable;
use crate::text::{trimmed, trimmed_start, trimmed_end, is_whitespace, chars_of, trim, push_str, string_of};

verus! {

/// What a node knows of its peers: every peer's link state (what its screen
/// shows) and the links it can write to right now.  A hub, a bus segment and
/// a mesh node each keep one.
pub struct PeerLinks {
    pub status: StatusTable,
    pub links: LinkSet,
}

/// The peer names of a comma-separated list, each trimmed (the `expected`
/// argument of a hub or bus segment).
pub open spec fn listed_names(list: Seq<char>) -> Seq<Seq<char>> {
    split_on(list, ',').map_values(|p: Seq<char>| trimmed(p))
}

/// Reads a comma-separated list of peer names.
pub fn expected_names(list: &str) -> (r: Vec<String>)
    ensures
        string_views(r@) == listed_names(list@),
{
    let s = chars_of(list);
    let pieces = split_chars(&s, ',');
    let ghost target = listed_names(list@);
    let mut r: Vec<String> = Vec::new();
    let mut i: usize = 0;
    while i < pieces.len()
        invariant
            views(pieces@) == split_on(list@, ','),
            target == listed_names(list@),
            i <= pieces@.len(),
            string_views(r@) == target.take(i as int),
        decreases pieces@.len() - i,
    {
        let t = trim(&pieces[i]);
        let ghost before = string_views(r@);
        assert(views(pieces@)[i as int] == pieces@[i as int]@);
        r.push(string_of(&t));
        assert(string_views(r@) =~= before.push(t@));
        assert(string_views(r@) =~= target.take(i + 1));
        i = i + 1;
    }
    assert(target.take(pieces@.len() as int) =~= target);
    r
}

/// The name a peer announces in the first line it sends (the line trimmed).
pub fn announced_name(first_line: &str) -> (r: String)
    ensures
        r@ == trimmed(first_line@),
{
    let s = chars_of(first_line);
    let t = trim(&s);
    string_of(&t)
}

/// The first line a peer sends on a new link: its name and a line ending.
pub fn announce_line(name: &str) -> (r: String)
    ensures
        r@ == name@ + "\n"@,
{
    let mut b: Vec<char> = Vec::new();
    push_str(&mut b, name);
    push_str(&mut b, "\n");
    string_of(&b)
}

proof fn lemma_trimmed_start_push_space(x: Seq<char>, c: char)
    requires
        is_whitespace(c),
    ensures
        trimmed_start(x.push(c)) == if trimmed_start(x).len() > 0 {
            trimmed_start(x).push(c)
        } else {
            Seq::<char>::empty()
        },
    decreases x.len(),
{
    if x.len() == 0 {
        assert(x.push(c).drop_first() =~= Seq::<char>::empty());
        assert(trimmed_start(Seq::<char>::empty()) =~= Seq::<char>::empty());
    } else if is_whitespace(x[0]) {
        assert(x.push(c).drop_first() =~= x.drop_first().push(c));
        lemma_trimmed_start_push_space(x.drop_first(), c);
    }
}

/// A peer that announces itself is known by its name, trimmed: reading the
/// name back from its announce line gives the name without surrounding
/// whitespace.
pub proof fn lemma_announce_roundtrip(name: Seq<char>)
    ensures
        trimmed(name + "\n"@) == trimmed(name),
{
    reveal_strlit("\n");
    assert(name + "\n"@ =~= name.push('\n'));
    assert(is_whitespace('\n'));
    lemma_trimmed_start_push_space(name, '\n');
    let t = trimmed_start(name);
    if t.len() > 0 {
        assert(t.push('\n').drop_last() =~= t);
        assert(trimmed_end(t.push('\n')) == trimmed_end(t));
    }
}

/// A hub keeps each spoke apart from the rest: the link to spoke `s` is
/// made or dropped only by `s`'s own connect or disconnect, or by a failed
/// write to `s`, and a line relayed from `n` goes to `s` exactly when `s` is
/// linked and is not `n`.  These are the only lines a hub writes to a spoke;
/// it never writes status.
pub proof fn lemma_spoke_isolation(links: Set<Seq<char>>, s: Seq<char>, n: Seq<char>, dead: Set<Seq<char>>)
    ensures
        n != s ==> links.insert(n).contains(s) == links.contains(s),
        n != s ==> links.remove(n).contains(s) == links.contains(s),
        !dead.contains(s) ==> links.difference(dead).contains(s) == links.contains(s),
        links.remove(n).contains(s) == (s != n && links.contains(s)),
{
}

impl PeerLinks {
    /// Both parts are well formed.
    pub open spec fn wf(&self) -> bool {
        self.status.wf() && self.links.wf()
    }

    /// Every listed peer known, every link down, nothing to write to.
    pub fn new(names: &Vec<String>) -> (p: PeerLinks)
        ensures
            p.wf(),
            p.status@ == Map::new(
                |k: Seq<char>| exists|i: int| 0 <= i < names@.len() && names@[i]@ == k,
                |k: Seq<char>| false,
            ),
            p.links@ == Set::<Seq<char>>::empty(),
    {
        PeerLinks { status: StatusTable::from_names(names), links: LinkSet::new() }
    }

    /// The same, starting from a status table of its own.
    pub fn with_status(status: StatusTable) -> (p: PeerLinks)
        requires
            status.wf(),
        ensures
            p.wf(),
            p.status == status,
            p.links@ == Set::<Seq<char>>::empty(),
    {
        PeerLinks { status, links: LinkSet::new() }
    }

    /// A link to `name` came up (`register_connection`, or a hub or segment
    /// accepting a peer that announced itself): it can be written to and is
    /// shown up.
    pub fn connect(&mut self, name: &str)
        requires
            old(self).wf(),
        ensures
            final(self).wf(),
            final(self).status@ == old(self).status@.insert(name@, true),
            old(self).status@.dom().subset_of(final(self).status@.dom()),
            final(self).links@ == old(self).links@.insert(name@),
    {
        self.links.insert(name);
        self.status.insert(name, true);
    }

    /// The link to `name` went down (the end of a reading loop): it is
    /// shown down and no longer written to.
    pub fn disconnect(&mut self, name: &str)
        requires
            old(self).wf(),
        ensures
            final(self).wf(),
            final(self).status@ == old(self).status@.insert(name@, false),
            old(self).status@.dom().subset_of(final(self).status@.dom()),
            final(self).links@ == old(self).links@.remove(name@),
    {
        self.status.insert(name, false);
        self.links.remove(name);
    }

    /// Where a line from `sender` is relayed: every open link but the
    /// sender's own.
    pub fn relay_targets(&self, sender: &str) -> (r: Vec<String>)
        requires
            self.wf(),
        ensures
            string_views(r@).no_duplicates(),
            string_views(r@).to_set() == self.links@.remove(sender@),
    {
        self.links.others(sender)
    }

    /// Where a broadcast goes: every open link.
    pub fn broadcast_targets(&self) -> (r: Vec<String>)
        requires
            self.wf(),
        ensures
            string_views(r@).no_duplicates(),
            string_views(r@).to_set() == self.links@,
    {
        self.links.all()
    }

    /// The writes to `dead` failed: those links are dropped.  Their status
    /// is left as it was: a peer stays shown up until its reading loop ends.
    pub fn drop_dead(&mut self, dead: &Vec<String>)
        requires
            old(self).wf(),
        ensures
            final(self).wf(),
            final(self).status == old(self).status,
            old(self).status@.dom().subset_of(final(self).status@.dom()),
            final(self).links@ == old(self).links@.difference(string_views(dead@).to_set()),
    {
        self.links.remove_all(dead);
    }
}

} // verus!
