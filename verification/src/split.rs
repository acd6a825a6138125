use vstd::prelude::*;

verus! {

/// The pieces of `s` between occurrences of `c`, as `str::split` with a
/// `char` pattern gives them: built up one character at a time, where a `c`
/// opens a new, empty piece and any other character extends the last one.
pub open spec fn split_on(s: Seq<char>, c: char) -> Seq<Seq<char>>
    decreases s.len(),
{
    if s.len() == 0 {
        seq![Seq::<char>::empty()]
    } else {
        let p = split_on(s.drop_last(), c);
        if s.last() == c {
            p.push(Seq::<char>::empty())
        } else {
            p.update(p.len() - 1, p.last().push(s.last()))
        }
    }
}

/// The pieces joined back together with `sep` between neighbours.
pub open spec fn joined(p: Seq<Seq<char>>, sep: Seq<char>) -> Seq<char>
    decreases p.len(),
{
    if p.len() == 0 {
        Seq::<char>::empty()
    } else if p.len() == 1 {
        p[0]
    } else {
        joined(p.drop_last(), sep) + sep + p.last()
    }
}

/// At most `n` pieces, as `str::splitn(n, c)`: the first `n - 1` pieces of
/// `split_on`, and then everything after them as one piece.
pub open spec fn splitn_on(s: Seq<char>, n: nat, c: char) -> Seq<Seq<char>> {
    let p = split_on(s, c);
    if p.len() <= n {
        p
    } else {
        p.take(n - 1).push(joined(p.skip(n - 1), seq![c]))
    }
}

/// What is left of `s` after the prefix `p`, if `s` starts with `p`.
pub open spec fn stripped_prefix(s: Seq<char>, p: Seq<char>) -> Option<Seq<char>> {
    if p.len() <= s.len() && s.take(p.len() as int) == p {
        Some(s.skip(p.len() as int))
    } else {
        None
    }
}

/// The views of a vector of character vectors.
pub open spec fn views(v: Seq<Vec<char>>) -> Seq<Seq<char>> {
    v.map_values(|x: Vec<char>| x@)
}

/// Splitting on `c` and joining with `c` gives the text back, and no piece
/// holds a `c`.
pub proof fn lemma_split_join(s: Seq<char>, c: char)
    ensures
        joined(split_on(s, c), seq![c]) == s,
        forall|i: int| 0 <= i < split_on(s, c).len() ==> !(#[trigger] split_on(s, c)[i]).contains(c),
        split_on(s, c).len() >= 1,
    decreases s.len(),
{
    if s.len() == 0 {
        assert(joined(split_on(s, c), seq![c]) =~= s);
    } else {
        let t = s.drop_last();
        lemma_split_join(t, c);
        let p = split_on(t, c);
        if s.last() == c {
            let q = p.push(Seq::<char>::empty());
            assert(q.drop_last() =~= p);
            assert(joined(q, seq![c]) =~= s);
            assert forall|i: int| 0 <= i < q.len() implies !(#[trigger] q[i]).contains(c) by {
                if i < p.len() {
                    assert(q[i] == p[i]);
                }
            }
        } else {
            let q = p.update(p.len() - 1, p.last().push(s.last()));
            lemma_join_extend_last(p, seq![c], s.last());
            assert(joined(q, seq![c]) =~= s);
            assert forall|i: int| 0 <= i < q.len() implies !(#[trigger] q[i]).contains(c) by {
                if i < p.len() - 1 {
                    assert(q[i] == p[i]);
                } else {
                    let l = p.last();
                    assert(!l.contains(c));
                    if q[i].contains(c) {
                        let k = choose|k: int| 0 <= k < q[i].len() && q[i][k] == c;
                        if k < l.len() {
                            assert(l[k] == c);
                        }
                    }
                }
            }
        }
    }
}

proof fn lemma_join_extend_last(p: Seq<Seq<char>>, sep: Seq<char>, x: char)
    requires
        p.len() >= 1,
    ensures
        joined(p.update(p.len() - 1, p.last().push(x)), sep) == joined(p, sep).push(x),
{
    let q = p.update(p.len() - 1, p.last().push(x));
    if p.len() == 1 {
        assert(joined(q, sep) =~= joined(p, sep).push(x));
    } else {
        assert(q.drop_last() =~= p.drop_last());
        assert(joined(q, sep) =~= joined(p, sep).push(x));
    }
}

/// Joins the pieces with `sep` between neighbours.
pub fn join_chars(p: &Vec<Vec<char>>, sep: &Vec<char>) -> (r: Vec<char>)
    ensures
        r@ == joined(views(p@), sep@),
{
    let mut r: Vec<char> = Vec::new();
    let mut i: usize = 0;
    while i < p.len()
        invariant
            i <= p@.len(),
            r@ == joined(views(p@).take(i as int), sep@),
        decreases p@.len() - i,
    {
        let ghost before = views(p@).take(i as int);
        if i > 0 {
            crate::text::push_chars(&mut r, sep);
        }
        crate::text::push_chars(&mut r, &p[i]);
        proof {
            let after = views(p@).take(i + 1);
            assert(after.drop_last() =~= before);
            assert(after.last() == p@[i as int]@);
            if i == 0 {
                assert(r@ =~= joined(after, sep@));
            }
        }
        i = i + 1;
    }
    assert(views(p@).take(p@.len() as int) =~= views(p@));
    r
}

/// The pieces of `s` between occurrences of `c`.
pub fn split_chars(s: &Vec<char>, c: char) -> (r: Vec<Vec<char>>)
    ensures
        views(r@) == split_on(s@, c),
{
    let mut pieces: Vec<Vec<char>> = Vec::new();
    let mut cur: Vec<char> = Vec::new();
    let mut i: usize = 0;
    assert(s@.take(0) =~= Seq::<char>::empty());
    assert(views(pieces@).push(cur@) =~= seq![Seq::<char>::empty()]);
    while i < s.len()
        invariant
            i <= s@.len(),
            split_on(s@.take(i as int), c) == views(pieces@).push(cur@),
        decreases s@.len() - i,
    {
        let ghost before = views(pieces@).push(cur@);
        let ch = s[i];
        assert(s@.take(i + 1).drop_last() =~= s@.take(i as int));
        assert(s@.take(i + 1).last() == ch);
        if ch == c {
            let done = cur;
            pieces.push(done);
            cur = Vec::new();
            assert(views(pieces@).push(cur@) =~= before.push(Seq::<char>::empty()));
        } else {
            cur.push(ch);
            assert(views(pieces@).push(cur@) =~= before.update(
                before.len() - 1,
                before.last().push(ch),
            ));
        }
        i = i + 1;
    }
    assert(s@.take(s@.len() as int) =~= s@);
    pieces.push(cur);
    pieces
}

/// At most `n` pieces of `s` between occurrences of `c`, the last holding
/// the rest of `s`.
pub fn splitn_chars(s: &Vec<char>, n: usize, c: char) -> (r: Vec<Vec<char>>)
    requires
        n >= 1,
    ensures
        views(r@) == splitn_on(s@, n as nat, c),
{
    let all = split_chars(s, c);
    if all.len() <= n {
        return all;
    }
    let mut head: Vec<Vec<char>> = Vec::new();
    let mut tail: Vec<Vec<char>> = Vec::new();
    let mut i: usize = 0;
    while i < all.len()
        invariant
            1 <= n < all@.len(),
            i <= all@.len(),
            views(head@) == views(all@).take(if i < n - 1 { i as int } else { n - 1 }),
            views(tail@) == if i < n - 1 {
                Seq::<Seq<char>>::empty()
            } else {
                views(all@).subrange(n - 1, i as int)
            },
        decreases all@.len() - i,
    {
        let piece = sub_all(&all[i]);
        let ghost pv = piece@;
        let ghost h0 = views(head@);
        let ghost t0 = views(tail@);
        if i < n - 1 {
            head.push(piece);
            assert(views(head@) =~= h0.push(pv));
            assert(views(head@) =~= views(all@).take(i + 1));
        } else {
            tail.push(piece);
            assert(views(tail@) =~= t0.push(pv));
            assert(views(tail@) =~= views(all@).subrange(n - 1, i + 1));
        }
        i = i + 1;
    }
    let sep = vec![c];
    assert(sep@ =~= seq![c]);
    let rest = join_chars(&tail, &sep);
    let ghost h0 = views(head@);
    let ghost rv = rest@;
    head.push(rest);
    assert(views(head@) =~= h0.push(rv));
    assert(views(all@).subrange(n - 1, all@.len() as int) =~= views(all@).skip(n - 1));
    assert(views(head@) =~= views(all@).take(n - 1).push(joined(views(all@).skip(n - 1), seq![c])));
    head
}

fn sub_all(v: &Vec<char>) -> (r: Vec<char>)
    ensures
        r@ == v@,
{
    crate::text::sub_chars(v, 0, v.len())
}

/// What is left of `s` after the prefix `p`, if `s` starts with `p`.
pub fn strip_prefix_chars(s: &Vec<char>, p: &Vec<char>) -> (r: Option<Vec<char>>)
    ensures
        match r {
            Some(t) => stripped_prefix(s@, p@) == Some(t@),
            None => stripped_prefix(s@, p@) is None,
        },
{
    if p.len() > s.len() {
        return None;
    }
    let mut i: usize = 0;
    while i < p.len()
        invariant
            p@.len() <= s@.len(),
            i <= p@.len(),
            forall|k: int| 0 <= k < i ==> s@[k] == p@[k],
        decreases p@.len() - i,
    {
        if s[i] != p[i] {
            assert(s@.take(p@.len() as int)[i as int] != p@[i as int]);
            return None;
        }
        i = i + 1;
    }
    assert(s@.take(p@.len() as int) =~= p@);
    Some(crate::text::sub_chars(s, p.len(), s.len()))
}

/// Splitting around a separator splits each side on its own.
pub proof fn lemma_split_concat(a: Seq<char>, b: Seq<char>, c: char)
    ensures
        split_on(a + seq![c] + b, c) == split_on(a, c) + split_on(b, c),
    decreases b.len(),
{
    let s = a + seq![c] + b;
    if b.len() == 0 {
        assert(s.drop_last() =~= a);
        assert(split_on(a, c).push(Seq::<char>::empty()) =~= split_on(a, c) + split_on(b, c));
    } else {
        assert(s.drop_last() =~= a + seq![c] + b.drop_last());
        lemma_split_concat(a, b.drop_last(), c);
        let pa = split_on(a, c);
        let pb = split_on(b.drop_last(), c);
        lemma_split_join(b.drop_last(), c);
        if b.last() == c {
            assert((pa + pb).push(Seq::<char>::empty()) =~= pa + pb.push(Seq::<char>::empty()));
        } else {
            let q = pa + pb;
            assert(q.update(q.len() - 1, q.last().push(b.last())) =~= pa + pb.update(
                pb.len() - 1,
                pb.last().push(b.last()),
            ));
        }
    }
}

/// A text without the separator is one piece.
pub proof fn lemma_split_without_sep(a: Seq<char>, c: char)
    requires
        !a.contains(c),
    ensures
        split_on(a, c) == seq![a],
    decreases a.len(),
{
    if a.len() > 0 {
        assert(!a.drop_last().contains(c)) by {
            if a.drop_last().contains(c) {
                let k = choose|k: int| 0 <= k < a.drop_last().len() && a.drop_last()[k] == c;
                assert(a[k] == c);
            }
        }
        lemma_split_without_sep(a.drop_last(), c);
        assert(a.last() != c) by {
            assert(a[a.len() - 1] == a.last());
        }
        assert(a.drop_last().push(a.last()) =~= a);
        assert(seq![a.drop_last()].update(0, a.drop_last().push(a.last())) =~= seq![a]);
    } else {
        assert(a =~= Seq::<char>::empty());
    }
}

/// How many times `c` occurs in `s`.
pub open spec fn occurrences(s: Seq<char>, c: char) -> nat
    decreases s.len(),
{
    if s.len() == 0 {
        0
    } else {
        occurrences(s.drop_last(), c) + if s.last() == c {
            1nat
        } else {
            0nat
        }
    }
}

/// Splitting on `c` gives one piece more than `c` occurs.
pub proof fn lemma_split_count(s: Seq<char>, c: char)
    ensures
        split_on(s, c).len() == occurrences(s, c) + 1,
    decreases s.len(),
{
    if s.len() > 0 {
        lemma_split_count(s.drop_last(), c);
    }
}

/// No piece of a split holds a character that the text does not hold.
pub proof fn lemma_split_keeps_out(s: Seq<char>, c: char, x: char)
    requires
        !s.contains(x),
    ensures
        forall|i: int| 0 <= i < split_on(s, c).len() ==> !(#[trigger] split_on(s, c)[i]).contains(x),
    decreases s.len(),
{
    if s.len() > 0 {
        let t = s.drop_last();
        assert(!t.contains(x)) by {
            if t.contains(x) {
                let k = choose|k: int| 0 <= k < t.len() && t[k] == x;
                assert(s[k] == x);
            }
        }
        lemma_split_keeps_out(t, c, x);
        lemma_split_join(t, c);
        let p = split_on(t, c);
        assert(s.last() != x) by {
            assert(s[s.len() - 1] == s.last());
        }
        let q = split_on(s, c);
        assert forall|i: int| 0 <= i < q.len() implies !(#[trigger] q[i]).contains(x) by {
            if i < p.len() - 1 {
                assert(q[i] == p[i]);
            } else if i == p.len() - 1 {
                if s.last() == c {
                    assert(q[i] == p[i]);
                } else {
                    let l = p.last();
                    assert(q[i] == l.push(s.last()));
                    if q[i].contains(x) {
                        let k = choose|k: int| 0 <= k < q[i].len() && q[i][k] == x;
                        assert(k < l.len());
                        assert(l[k] == x);
                    }
                }
            } else {
                assert(q[i] == Seq::<char>::empty());
            }
        }
    }
}

/// Joining pieces that lack `x` with a separator that lacks `x` gives a
/// text that lacks `x`.
pub proof fn lemma_joined_keeps_out(p: Seq<Seq<char>>, sep: Seq<char>, x: char)
    requires
        forall|i: int| 0 <= i < p.len() ==> !(#[trigger] p[i]).contains(x),
        !sep.contains(x),
    ensures
        !joined(p, sep).contains(x),
    decreases p.len(),
{
    if p.len() > 1 {
        let init = p.drop_last();
        assert forall|i: int| 0 <= i < init.len() implies !(#[trigger] init[i]).contains(x) by {
            assert(init[i] == p[i]);
        }
        lemma_joined_keeps_out(init, sep, x);
        let j = joined(init, sep) + sep + p.last();
        assert(!p.last().contains(x)) by {
            assert(p[p.len() - 1] == p.last());
        }
        if j.contains(x) {
            let k = choose|k: int| 0 <= k < j.len() && j[k] == x;
            let a = joined(init, sep).len();
            if k < a {
                assert(joined(init, sep)[k] == x);
            } else if k < a + sep.len() {
                assert(sep[k - a] == x);
            } else {
                assert(p.last()[k - a - sep.len()] == x);
            }
        }
    } else if p.len() == 1 {
        assert(joined(p, sep) == p[0]);
    }
}

} // verus!
