use vstd::prelude::*;
use crate::order::{lex_lt, lex_less, lemma_lex_irreflexive, lemma_lex_asymmetric, lemma_lex_transitive, lemma_lex_total};
use crate::text::{chars_of, chars_eq, string_of};

verus! {

/// A row of a status table: a peer's name and whether its link is up.
pub type Row = (Seq<char>, bool);

/// The names of `rows` strictly ascend, so no name occurs twice.
pub open spec fn names_ascending(rows: Seq<Row>) -> bool {
    forall|i: int, j: int|
        #![trigger rows[i], rows[j]]
        0 <= i < j < rows.len() ==> lex_lt(rows[i].0, rows[j].0)
}

/// Some row of `rows` is named `k`.
pub open spec fn has_name(rows: Seq<Row>, k: Seq<char>) -> bool {
    exists|i: int| 0 <= i < rows.len() && rows[i].0 == k
}

/// The map from name to link state that `rows` list.
pub open spec fn rows_map(rows: Seq<Row>) -> Map<Seq<char>, bool> {
    Map::new(
        |k: Seq<char>| has_name(rows, k),
        |k: Seq<char>| rows[choose|i: int| 0 <= i < rows.len() && rows[i].0 == k].1,
    )
}

/// The number of rows whose link is up.
pub open spec fn count_up(rows: Seq<Row>) -> nat
    decreases rows.len(),
{
    if rows.len() == 0 {
        0
    } else {
        count_up(rows.drop_last()) + if rows.last().1 {
            1nat
        } else {
            0nat
        }
    }
}

/// The link state of every peer a node knows of, by name, kept in ascending
/// order of name, the order in which every screen lists it.
pub struct StatusTable {
    entries: Vec<(Vec<char>, bool)>,
}

impl View for StatusTable {
    type V = Map<Seq<char>, bool>;

    open spec fn view(&self) -> Map<Seq<char>, bool> {
        rows_map(self.rows())
    }
}

/// In ascending rows, the row at `i` is the one the map gives for its name.
pub proof fn lemma_rows_map_at(rows: Seq<Row>, i: int)
    requires
        names_ascending(rows),
        0 <= i < rows.len(),
    ensures
        rows_map(rows).dom().contains(rows[i].0),
        rows_map(rows)[rows[i].0] == rows[i].1,
{
    assert(has_name(rows, rows[i].0));
    let j = choose|j: int| 0 <= j < rows.len() && rows[j].0 == rows[i].0;
    if j < i {
        assert(lex_lt(rows[j].0, rows[i].0));
        lemma_lex_irreflexive(rows[i].0);
    } else if j > i {
        assert(lex_lt(rows[i].0, rows[j].0));
        lemma_lex_irreflexive(rows[i].0);
    }
}

proof fn lemma_update_row(rows: Seq<Row>, i: int, up: bool)
    requires
        names_ascending(rows),
        0 <= i < rows.len(),
    ensures
        names_ascending(rows.update(i, (rows[i].0, up))),
        rows_map(rows.update(i, (rows[i].0, up))) == rows_map(rows).insert(rows[i].0, up),
{
    let n = rows[i].0;
    let r2 = rows.update(i, (n, up));
    assert forall|a: int, b: int| #![trigger r2[a], r2[b]] 0 <= a < b < r2.len() implies lex_lt(
        r2[a].0,
        r2[b].0,
    ) by {
        assert(lex_lt(rows[a].0, rows[b].0));
    }
    let m = rows_map(rows).insert(n, up);
    assert forall|k: Seq<char>| #[trigger] rows_map(r2).dom().contains(k) <==> m.dom().contains(k) by {
        if has_name(r2, k) {
            let j = choose|j: int| 0 <= j < r2.len() && r2[j].0 == k;
            if j != i {
                assert(rows[j].0 == k);
            }
        }
        if has_name(rows, k) {
            let j = choose|j: int| 0 <= j < rows.len() && rows[j].0 == k;
            assert(r2[j].0 == k);
        }
        if k == n {
            assert(r2[i].0 == k);
        }
    }
    assert forall|k: Seq<char>| #[trigger] rows_map(r2).dom().contains(k) implies rows_map(r2)[k]
        == m[k] by {
        let j = choose|j: int| 0 <= j < r2.len() && r2[j].0 == k;
        lemma_rows_map_at(r2, j);
        if j != i {
            lemma_rows_map_at(rows, j);
            lemma_lex_irreflexive(k);
            if j < i {
                assert(lex_lt(rows[j].0, rows[i].0));
            } else {
                assert(lex_lt(rows[i].0, rows[j].0));
            }
        }
    }
    assert(rows_map(r2) =~= m);
}

proof fn lemma_insert_row(rows: Seq<Row>, i: int, n: Seq<char>, up: bool)
    requires
        names_ascending(rows),
        0 <= i <= rows.len(),
        forall|j: int| 0 <= j < i ==> lex_lt(#[trigger] rows[j].0, n),
        i < rows.len() ==> lex_lt(n, rows[i].0),
    ensures
        names_ascending(rows.insert(i, (n, up))),
        rows_map(rows.insert(i, (n, up))) == rows_map(rows).insert(n, up),
        !has_name(rows, n),
{
    let r2 = rows.insert(i, (n, up));
    assert forall|j: int| i <= j < rows.len() implies lex_lt(n, #[trigger] rows[j].0) by {
        if j > i {
            assert(lex_lt(rows[i].0, rows[j].0));
            lemma_lex_transitive(n, rows[i].0, rows[j].0);
        }
    }
    assert forall|a: int, b: int| #![trigger r2[a], r2[b]] 0 <= a < b < r2.len() implies lex_lt(
        r2[a].0,
        r2[b].0,
    ) by {
        if a < i && b < i {
            assert(lex_lt(rows[a].0, rows[b].0));
        } else if a < i && b == i {
        } else if a < i && b > i {
            assert(r2[b] == rows[b - 1]);
            assert(lex_lt(rows[a].0, n));
            lemma_lex_transitive(rows[a].0, n, rows[b - 1].0);
        } else if a == i {
            assert(r2[b] == rows[b - 1]);
        } else {
            assert(lex_lt(rows[a - 1].0, rows[b - 1].0));
        }
    }
    assert(!has_name(rows, n)) by {
        if has_name(rows, n) {
            let j = choose|j: int| 0 <= j < rows.len() && rows[j].0 == n;
            lemma_lex_irreflexive(n);
            if j < i {
                assert(lex_lt(rows[j].0, n));
            } else {
                assert(lex_lt(n, rows[j].0));
            }
        }
    }
    let m = rows_map(rows).insert(n, up);
    assert forall|k: Seq<char>| #[trigger] rows_map(r2).dom().contains(k) <==> m.dom().contains(k) by {
        if has_name(r2, k) {
            let j = choose|j: int| 0 <= j < r2.len() && r2[j].0 == k;
            if j < i {
                assert(rows[j].0 == k);
            } else if j > i {
                assert(rows[j - 1].0 == k);
            }
        }
        if has_name(rows, k) {
            let j = choose|j: int| 0 <= j < rows.len() && rows[j].0 == k;
            if j < i {
                assert(r2[j].0 == k);
            } else {
                assert(r2[j + 1].0 == k);
            }
        }
        if k == n {
            assert(r2[i].0 == k);
        }
    }
    assert forall|k: Seq<char>| #[trigger] rows_map(r2).dom().contains(k) implies rows_map(r2)[k]
        == m[k] by {
        let j = choose|j: int| 0 <= j < r2.len() && r2[j].0 == k;
        lemma_rows_map_at(r2, j);
        if j < i {
            lemma_rows_map_at(rows, j);
        } else if j > i {
            lemma_rows_map_at(rows, j - 1);
        }
    }
    assert(rows_map(r2) =~= m);
}

/// Two ascending row lists that describe the same map are the same list:
/// what a screen shows of a status table depends on its map alone.
pub proof fn lemma_rows_determined(a: Seq<Row>, b: Seq<Row>)
    requires
        names_ascending(a),
        names_ascending(b),
        rows_map(a) == rows_map(b),
    ensures
        a == b,
    decreases a.len(),
{
    if a.len() == 0 {
        if b.len() > 0 {
            lemma_rows_map_at(b, 0);
            assert(!rows_map(a).dom().contains(b[0].0));
        }
        assert(a =~= b);
    } else {
        lemma_rows_map_at(a, 0);
        if b.len() == 0 {
            assert(!rows_map(b).dom().contains(a[0].0));
        }
        lemma_rows_map_at(b, 0);
        assert(has_name(b, a[0].0));
        assert(has_name(a, b[0].0));
        let j = choose|j: int| 0 <= j < b.len() && b[j].0 == a[0].0;
        let i = choose|i: int| 0 <= i < a.len() && a[i].0 == b[0].0;
        if a[0].0 != b[0].0 {
            assert(j > 0 && i > 0);
            assert(lex_lt(b[0].0, b[j].0));
            assert(lex_lt(a[0].0, a[i].0));
            lemma_lex_asymmetric(a[0].0, b[0].0);
        }
        let a2 = a.drop_first();
        let b2 = b.drop_first();
        lemma_drop_first_map(a);
        lemma_drop_first_map(b);
        lemma_ascending_drop_first(a);
        lemma_ascending_drop_first(b);
        lemma_rows_determined(a2, b2);
        assert(a =~= b) by {
            assert forall|x: int| 0 <= x < a.len() implies a[x] == b[x] by {
                if x > 0 {
                    assert(a[x] == a2[x - 1]);
                    assert(b[x] == b2[x - 1]);
                }
            }
        }
    }
}

proof fn lemma_ascending_drop_first(a: Seq<Row>)
    requires
        names_ascending(a),
        a.len() > 0,
    ensures
        names_ascending(a.drop_first()),
{
    let a2 = a.drop_first();
    assert forall|x: int, y: int| #![trigger a2[x], a2[y]] 0 <= x < y < a2.len() implies lex_lt(
        a2[x].0,
        a2[y].0,
    ) by {
        assert(lex_lt(a[x + 1].0, a[y + 1].0));
    }
}

proof fn lemma_drop_first_map(a: Seq<Row>)
    requires
        names_ascending(a),
        a.len() > 0,
    ensures
        rows_map(a.drop_first()) == rows_map(a).remove(a[0].0),
{
    let a2 = a.drop_first();
    lemma_ascending_drop_first(a);
    let m = rows_map(a).remove(a[0].0);
    assert forall|k: Seq<char>| #[trigger] rows_map(a2).dom().contains(k) <==> m.dom().contains(k) by {
        if has_name(a2, k) {
            let j = choose|j: int| 0 <= j < a2.len() && a2[j].0 == k;
            assert(a[j + 1].0 == k);
            assert(lex_lt(a[0].0, a[j + 1].0));
            lemma_lex_irreflexive(k);
        }
        if has_name(a, k) && k != a[0].0 {
            let j = choose|j: int| 0 <= j < a.len() && a[j].0 == k;
            assert(j > 0);
            assert(a2[j - 1].0 == k);
        }
    }
    assert forall|k: Seq<char>| #[trigger] rows_map(a2).dom().contains(k) implies rows_map(a2)[k]
        == m[k] by {
        let j = choose|j: int| 0 <= j < a2.len() && a2[j].0 == k;
        lemma_rows_map_at(a2, j);
        lemma_rows_map_at(a, j + 1);
    }
    assert(rows_map(a2) =~= m);
}

impl StatusTable {
    /// The rows of the table, in ascending order of name.
    pub closed spec fn rows(&self) -> Seq<Row> {
        self.entries@.map_values(|e: (Vec<char>, bool)| (e.0@, e.1))
    }

    /// The table is well formed: its names strictly ascend.
    pub open spec fn wf(&self) -> bool {
        names_ascending(self.rows())
    }

    /// An empty table.
    pub fn new() -> (t: StatusTable)
        ensures
            t.wf(),
            t.rows() == Seq::<Row>::empty(),
            t@ == Map::<Seq<char>, bool>::empty(),
    {
        let t = StatusTable { entries: Vec::new() };
        assert(t.rows() =~= Seq::<Row>::empty());
        assert(t@ =~= Map::<Seq<char>, bool>::empty());
        t
    }

    /// Records that the link to `name` is up (`true`) or down (`false`),
    /// adding `name` if the table did not know it.
    pub fn insert(&mut self, name: &str, up: bool)
        requires
            old(self).wf(),
        ensures
            final(self).wf(),
            final(self)@ == old(self)@.insert(name@, up),
    {
        let n = chars_of(name);
        let ghost rows = self.rows();
        let len = self.entries.len();
        let mut i: usize = 0;
        while i < len && lex_less(&self.entries[i].0, &n)
            invariant
                len == self.entries@.len(),
                rows == self.rows(),
                i <= len,
                forall|j: int| 0 <= j < i ==> lex_lt(#[trigger] rows[j].0, n@),
            decreases len - i,
        {
            assert(rows[i as int].0 == self.entries@[i as int].0@);
            i = i + 1;
        }
        if i < len && chars_eq(&self.entries[i].0, &n) {
            proof {
                assert(rows[i as int].0 == n@);
                lemma_update_row(rows, i as int, up);
            }
            self.entries.set(i, (n, up));
            assert(self.rows() =~= rows.update(i as int, (rows[i as int].0, up)));
        } else {
            proof {
                if i < len {
                    assert(rows[i as int].0 == self.entries@[i as int].0@);
                    assert(!lex_lt(rows[i as int].0, n@));
                    lemma_lex_total(rows[i as int].0, n@);
                }
                lemma_insert_row(rows, i as int, n@, up);
            }
            let ghost nv = n@;
            self.entries.insert(i, (n, up));
            assert(self.rows() =~= rows.insert(i as int, (nv, up)));
        }
    }

    /// The table for the given names, every link down: what a hub or segment
    /// starts from with its expected names, or a mesh node with its roster.
    pub fn from_names(names: &Vec<String>) -> (t: StatusTable)
        ensures
            t.wf(),
            t@ == Map::new(
                |k: Seq<char>| exists|i: int| 0 <= i < names@.len() && names@[i]@ == k,
                |k: Seq<char>| false,
            ),
    {
        let mut t = StatusTable::new();
        let mut i: usize = 0;
        while i < names.len()
            invariant
                i <= names@.len(),
                t.wf(),
                t@ == Map::new(
                    |k: Seq<char>| exists|j: int| 0 <= j < i && names@[j]@ == k,
                    |k: Seq<char>| false,
                ),
            decreases names@.len() - i,
        {
            let ghost before = t@;
            t.insert(names[i].as_str(), false);
            let ghost target = Map::new(
                |k: Seq<char>| exists|j: int| 0 <= j < i + 1 && names@[j]@ == k,
                |k: Seq<char>| false,
            );
            assert forall|k: Seq<char>| #[trigger] t@.dom().contains(k) <==> target.dom().contains(k) by {
                if exists|j: int| 0 <= j < i + 1 && names@[j]@ == k {
                    let j = choose|j: int| 0 <= j < i + 1 && names@[j]@ == k;
                    if j < i {
                        assert(before.dom().contains(k));
                    }
                }
                if before.dom().contains(k) {
                    let j = choose|j: int| 0 <= j < i && names@[j]@ == k;
                    assert(0 <= j < i + 1 && names@[j]@ == k);
                }
                if k == names@[i as int]@ {
                    assert(0 <= i < i + 1 && names@[i as int]@ == k);
                }
            }
            assert(t@ =~= target);
            i = i + 1;
        }
        t
    }

    /// The link state recorded for `name`, if the table knows it.
    pub fn get(&self, name: &str) -> (r: Option<bool>)
        requires
            self.wf(),
        ensures
            r == if self@.dom().contains(name@) {
                Some(self@[name@])
            } else {
                None::<bool>
            },
    {
        let n = chars_of(name);
        let ghost rows = self.rows();
        let mut i: usize = 0;
        while i < self.entries.len()
            invariant
                rows == self.rows(),
                self.wf(),
                n@ == name@,
                i <= rows.len(),
                forall|j: int| 0 <= j < i ==> #[trigger] rows[j].0 != n@,
            decreases rows.len() - i,
        {
            assert(rows[i as int] == (self.entries@[i as int].0@, self.entries@[i as int].1));
            if chars_eq(&self.entries[i].0, &n) {
                proof {
                    lemma_rows_map_at(rows, i as int);
                }
                return Some(self.entries[i].1);
            }
            i = i + 1;
        }
        assert(!self@.dom().contains(name@)) by {
            if has_name(rows, n@) {
                let j = choose|j: int| 0 <= j < rows.len() && rows[j].0 == n@;
                assert(rows[j].0 != n@);
            }
        }
        None
    }

    /// The number of names in the table.
    pub fn len(&self) -> (r: usize)
        ensures
            r == self.rows().len(),
    {
        self.entries.len()
    }

    /// The name and link state of row `i`, in ascending order of name.
    pub fn row(&self, i: usize) -> (r: (String, bool))
        requires
            i < self.rows().len(),
        ensures
            r.0@ == self.rows()[i as int].0,
            r.1 == self.rows()[i as int].1,
    {
        (string_of(&self.entries[i].0), self.entries[i].1)
    }

    /// The name of row `i` as characters.
    pub fn row_name(&self, i: usize) -> (r: &Vec<char>)
        requires
            i < self.rows().len(),
        ensures
            r@ == self.rows()[i as int].0,
    {
        &self.entries[i].0
    }

    /// The link state of row `i`.
    pub fn row_up(&self, i: usize) -> (r: bool)
        requires
            i < self.rows().len(),
        ensures
            r == self.rows()[i as int].1,
    {
        self.entries[i].1
    }

    /// How many links are up.
    pub fn active_count(&self) -> (r: usize)
        ensures
            r == count_up(self.rows()),
    {
        let ghost rows = self.rows();
        let mut c: usize = 0;
        let mut i: usize = 0;
        while i < self.entries.len()
            invariant
                rows == self.rows(),
                i <= rows.len(),
                c == count_up(rows.take(i as int)),
                c <= i,
            decreases rows.len() - i,
        {
            assert(rows.take(i + 1).drop_last() =~= rows.take(i as int));
            assert(rows[i as int].1 == self.entries@[i as int].1);
            if self.entries[i].1 {
                c = c + 1;
            }
            i = i + 1;
        }
        assert(rows.take(rows.len() as int) =~= rows);
        c
    }
}

} // verus!
