use vstd::prelude::*;
use crate::split::views;
use crate::text::{chars_of, chars_eq, string_of};

verus! {

/// The views of a vector of strings.
pub open spec fn string_views(v: Seq<String>) -> Seq<Seq<char>> {
    v.map_values(|s: String| s@)
}

/// The names of the peers a node holds an open link to (the keys of the map
/// from name to socket that the program keeps), each once.
pub struct LinkSet {
    names: Vec<Vec<char>>,
}

impl View for LinkSet {
    type V = Set<Seq<char>>;

    open spec fn view(&self) -> Set<Seq<char>> {
        self.names().to_set()
    }
}

/// A name is in `s.push(y)` when it is in `s` or is `y`.
proof fn lemma_push_contains(s: Seq<Seq<char>>, y: Seq<char>)
    ensures
        forall|x: Seq<char>| #[trigger] s.push(y).contains(x) <==> (s.contains(x) || x == y),
{
    assert forall|x: Seq<char>| #[trigger] s.push(y).contains(x) <==> (s.contains(x) || x == y) by {
        if s.push(y).contains(x) {
            let j = choose|j: int| 0 <= j < s.push(y).len() && s.push(y)[j] == x;
            if j < s.len() {
                assert(s[j] == x);
            }
        }
        if s.contains(x) {
            let j = choose|j: int| 0 <= j < s.len() && s[j] == x;
            assert(s.push(y)[j] == x);
        }
        if x == y {
            assert(s.push(y)[s.len() as int] == x);
        }
    }
}

impl LinkSet {
    /// The names, in the order the links were opened.
    pub closed spec fn names(&self) -> Seq<Seq<char>> {
        views(self.names@)
    }

    /// No name is held twice.
    pub open spec fn wf(&self) -> bool {
        self.names().no_duplicates()
    }

    /// No open links.
    pub fn new() -> (l: LinkSet)
        ensures
            l.wf(),
            l@ == Set::<Seq<char>>::empty(),
    {
        let l = LinkSet { names: Vec::new() };
        assert(l.names() =~= Seq::<Seq<char>>::empty());
        assert(l@ =~= Set::<Seq<char>>::empty());
        l
    }

    fn index_of(&self, n: &Vec<char>) -> (r: Option<usize>)
        ensures
            match r {
                Some(i) => i < self.names().len() && self.names()[i as int] == n@,
                None => !self.names().contains(n@),
            },
    {
        let mut i: usize = 0;
        while i < self.names.len()
            invariant
                i <= self.names@.len(),
                forall|j: int| 0 <= j < i ==> #[trigger] self.names()[j] != n@,
            decreases self.names@.len() - i,
        {
            if chars_eq(&self.names[i], n) {
                return Some(i);
            }
            i = i + 1;
        }
        None
    }

    /// Whether a link to `name` is open.
    pub fn contains(&self, name: &str) -> (r: bool)
        ensures
            r == self@.contains(name@),
    {
        let n = chars_of(name);
        match self.index_of(&n) {
            Some(_) => true,
            None => false,
        }
    }

    /// Records an open link to `name`; a second link under the same name
    /// takes the place of the first.
    pub fn insert(&mut self, name: &str)
        requires
            old(self).wf(),
        ensures
            final(self).wf(),
            final(self)@ == old(self)@.insert(name@),
    {
        let n = chars_of(name);
        match self.index_of(&n) {
            Some(i) => {
                assert(self.names()[i as int] == name@);
                assert(self@ =~= old(self)@.insert(name@));
            },
            None => {
                let ghost before = self.names();
                self.names.push(n);
                assert(self.names() =~= before.push(name@));
                proof { lemma_push_contains(before, name@); }
                assert(self@ =~= old(self)@.insert(name@));
            },
        }
    }

    /// Forgets the link to `name`.
    pub fn remove(&mut self, name: &str)
        requires
            old(self).wf(),
        ensures
            final(self).wf(),
            final(self)@ == old(self)@.remove(name@),
    {
        let n = chars_of(name);
        match self.index_of(&n) {
            Some(i) => {
                let ghost before = self.names();
                self.names.remove(i);
                assert(self.names() =~= before.remove(i as int));
                assert forall|x: Seq<char>| #[trigger] self@.contains(x) <==> old(self)@.remove(
                    name@,
                ).contains(x) by {
                    if before.contains(x) {
                        let j = choose|j: int| 0 <= j < before.len() && before[j] == x;
                        if x != name@ {
                            if j < i {
                                assert(self.names()[j] == x);
                            } else {
                                assert(j != i);
                                assert(self.names()[j - 1] == x);
                            }
                        }
                    }
                    if self.names().contains(x) {
                        let j = choose|j: int| 0 <= j < self.names().len() && self.names()[j] == x;
                        if j < i {
                            assert(before[j] == x);
                        } else {
                            assert(before[j + 1] == x);
                        }
                    }
                }
                assert(self@ =~= old(self)@.remove(name@));
            },
            None => {
                assert(self@ =~= old(self)@.remove(name@));
            },
        }
    }

    /// Forgets the links to every name in `dead` (the links a write failed on).
    pub fn remove_all(&mut self, dead: &Vec<String>)
        requires
            old(self).wf(),
        ensures
            final(self).wf(),
            final(self)@ == old(self)@.difference(string_views(dead@).to_set()),
    {
        let mut i: usize = 0;
        while i < dead.len()
            invariant
                i <= dead@.len(),
                self.wf(),
                self@ == old(self)@.difference(string_views(dead@).take(i as int).to_set()),
            decreases dead@.len() - i,
        {
            self.remove(dead[i].as_str());
            let ghost pre = string_views(dead@).take(i as int);
            assert(string_views(dead@).take(i + 1) =~= pre.push(dead@[i as int]@));
            proof {
                lemma_push_contains(pre, dead@[i as int]@);
            }
            assert(self@ =~= old(self)@.difference(string_views(dead@).take(i + 1).to_set()));
            i = i + 1;
        }
        assert(string_views(dead@).take(dead@.len() as int) =~= string_views(dead@));
    }

    /// The names of every open link except the one to `sender`, each once:
    /// where a line that `sender` wrote is relayed to.
    pub fn others(&self, sender: &str) -> (r: Vec<String>)
        requires
            self.wf(),
        ensures
            string_views(r@).no_duplicates(),
            string_views(r@).to_set() == self@.remove(sender@),
    {
        let s = chars_of(sender);
        let mut r: Vec<String> = Vec::new();
        let mut i: usize = 0;
        while i < self.names.len()
            invariant
                i <= self.names@.len(),
                self.wf(),
                s@ == sender@,
                string_views(r@).no_duplicates(),
                forall|x: Seq<char>| #[trigger] string_views(r@).contains(x) <==> (
                    self.names().take(i as int).contains(x) && x != sender@),
            decreases self.names@.len() - i,
        {
            let ghost before = string_views(r@);
            let ghost pre = self.names().take(i as int);
            let ghost y = self.names()[i as int];
            assert(self.names().take(i + 1) =~= pre.push(y));
            proof {
                lemma_push_contains(pre, y);
                lemma_push_contains(before, y);
            }
            if !chars_eq(&self.names[i], &s) {
                let name = string_of(&self.names[i]);
                r.push(name);
                assert(string_views(r@) =~= before.push(y));
                assert(!before.contains(self.names()[i as int])) by {
                    if before.contains(self.names()[i as int]) {
                        let j = choose|j: int| 0 <= j < i && self.names()[j] == self.names()[i as int];
                    }
                }
            } else {
                assert(string_views(r@) =~= before);
            }
            i = i + 1;
        }
        assert(self.names().take(self.names@.len() as int) =~= self.names());
        assert(string_views(r@).to_set() =~= self@.remove(sender@));
        r
    }

    /// The names of every open link, each once.
    pub fn all(&self) -> (r: Vec<String>)
        requires
            self.wf(),
        ensures
            string_views(r@).no_duplicates(),
            string_views(r@).to_set() == self@,
    {
        let mut r: Vec<String> = Vec::new();
        let mut i: usize = 0;
        while i < self.names.len()
            invariant
                i <= self.names@.len(),
                self.wf(),
                string_views(r@) == self.names().take(i as int),
            decreases self.names@.len() - i,
        {
            let ghost before = string_views(r@);
            let name = string_of(&self.names[i]);
            r.push(name);
            assert(string_views(r@) =~= before.push(self.names()[i as int]));
            assert(string_views(r@) =~= self.names().take(i + 1));
            i = i + 1;
        }
        assert(self.names().take(self.names@.len() as int) =~= self.names());
        r
    }

    /// How many links are open.
    pub fn len(&self) -> (r: usize)
        ensures
            r == self.names().len(),
    {
        self.names.len()
    }
}

} // verus!
