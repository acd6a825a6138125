use vstd::prelude::*;

verus! {

/// The Unicode `White_Space` property, the set `char::is_whitespace` tests.
pub open spec fn is_whitespace(c: char) -> bool {
    let u = c as u32;
    ||| 0x9 <= u <= 0xD
    ||| u == 0x20
    ||| u == 0x85
    ||| u == 0xA0
    ||| u == 0x1680
    ||| 0x2000 <= u <= 0x200A
    ||| u == 0x2028
    ||| u == 0x2029
    ||| u == 0x202F
    ||| u == 0x205F
    ||| u == 0x3000
}

/// `s` without its leading whitespace.
pub open spec fn trimmed_start(s: Seq<char>) -> Seq<char>
    decreases s.len(),
{
    if s.len() > 0 && is_whitespace(s[0]) {
        trimmed_start(s.drop_first())
    } else {
        s
    }
}

/// `s` without its trailing whitespace.
pub open spec fn trimmed_end(s: Seq<char>) -> Seq<char>
    decreases s.len(),
{
    if s.len() > 0 && is_whitespace(s.last()) {
        trimmed_end(s.drop_last())
    } else {
        s
    }
}

/// `s` without leading and trailing whitespace.
pub open spec fn trimmed(s: Seq<char>) -> Seq<char> {
    trimmed_end(trimmed_start(s))
}

/// Tests whether `c` is Unicode whitespace.
pub fn is_whitespace_char(c: char) -> (b: bool)
    ensures
        b == is_whitespace(c),
{
    let u = c as u32;
    (0x9 <= u && u <= 0xD) || u == 0x20 || u == 0x85 || u == 0xA0 || u == 0x1680 || (0x2000 <= u
        && u <= 0x200A) || u == 0x2028 || u == 0x2029 || u == 0x202F || u == 0x205F || u == 0x3000
}

/// The characters of `s`, one by one.
pub fn chars_of(s: &str) -> (v: Vec<char>)
    ensures
        v@ == s@,
{
    let n = s.unicode_len();
    let mut v: Vec<char> = Vec::new();
    let mut i: usize = 0;
    while i < n
        invariant
            n == s@.len(),
            i <= n,
            v@ == s@.take(i as int),
        decreases n - i,
    {
        v.push(s.get_char(i));
        i = i + 1;
        assert(v@ =~= s@.take(i as int));
    }
    assert(v@ =~= s@);
    v
}

/// Appends the characters of `s` to `buf`.
pub fn push_str(buf: &mut Vec<char>, s: &str)
    ensures
        final(buf)@ == old(buf)@ + s@,
{
    let n = s.unicode_len();
    let mut i: usize = 0;
    while i < n
        invariant
            n == s@.len(),
            i <= n,
            buf@ == old(buf)@ + s@.take(i as int),
        decreases n - i,
    {
        buf.push(s.get_char(i));
        i = i + 1;
        assert(buf@ =~= old(buf)@ + s@.take(i as int));
    }
    assert(s@.take(n as int) =~= s@);
}

/// Appends `s` to `buf`.
pub fn push_chars(buf: &mut Vec<char>, s: &Vec<char>)
    ensures
        final(buf)@ == old(buf)@ + s@,
{
    let n = s.len();
    let mut i: usize = 0;
    while i < n
        invariant
            n == s@.len(),
            i <= n,
            buf@ == old(buf)@ + s@.take(i as int),
        decreases n - i,
    {
        buf.push(s[i]);
        i = i + 1;
        assert(buf@ =~= old(buf)@ + s@.take(i as int));
    }
    assert(s@.take(n as int) =~= s@);
}

/// The characters `s[from..to]`.
pub fn sub_chars(s: &Vec<char>, from: usize, to: usize) -> (r: Vec<char>)
    requires
        from <= to <= s@.len(),
    ensures
        r@ == s@.subrange(from as int, to as int),
{
    let mut r: Vec<char> = Vec::new();
    let mut i: usize = from;
    while i < to
        invariant
            from <= i <= to <= s@.len(),
            r@ == s@.subrange(from as int, i as int),
        decreases to - i,
    {
        r.push(s[i]);
        i = i + 1;
        assert(r@ =~= s@.subrange(from as int, i as int));
    }
    r
}

/// Whether two character sequences are equal.
pub fn chars_eq(a: &Vec<char>, b: &Vec<char>) -> (r: bool)
    ensures
        r == (a@ == b@),
{
    if a.len() != b.len() {
        return false;
    }
    let mut i: usize = 0;
    while i < a.len()
        invariant
            a@.len() == b@.len(),
            i <= a@.len(),
            forall|k: int| 0 <= k < i ==> a@[k] == b@[k],
        decreases a@.len() - i,
    {
        if a[i] != b[i] {
            return false;
        }
        i = i + 1;
    }
    assert(a@ =~= b@);
    true
}

/// Whether `a` is the string `b`.
pub fn chars_eq_str(a: &Vec<char>, b: &str) -> (r: bool)
    ensures
        r == (a@ == b@),
{
    let bv = chars_of(b);
    chars_eq(a, &bv)
}

/// Whether two strings are equal.
pub fn str_eq(a: &str, b: &str) -> (r: bool)
    ensures
        r == (a@ == b@),
{
    let av = chars_of(a);
    chars_eq_str(&av, b)
}

/// `s` without its leading whitespace.
pub fn trim_start(s: &Vec<char>) -> (r: Vec<char>)
    ensures
        r@ == trimmed_start(s@),
{
    let n = s.len();
    let mut i: usize = 0;
    assert(s@.skip(0) =~= s@);
    while i < n && is_whitespace_char(s[i])
        invariant
            n == s@.len(),
            i <= n,
            trimmed_start(s@) == trimmed_start(s@.skip(i as int)),
        decreases n - i,
    {
        assert(s@.skip(i as int).drop_first() =~= s@.skip(i + 1));
        i = i + 1;
    }
    assert(s@.skip(i as int) =~= s@.subrange(i as int, n as int));
    sub_chars(s, i, n)
}

/// `s` without its trailing whitespace.
pub fn trim_end(s: &Vec<char>) -> (r: Vec<char>)
    ensures
        r@ == trimmed_end(s@),
{
    let mut j: usize = s.len();
    assert(s@.take(j as int) =~= s@);
    while j > 0 && is_whitespace_char(s[j - 1])
        invariant
            j <= s@.len(),
            trimmed_end(s@) == trimmed_end(s@.take(j as int)),
        decreases j,
    {
        assert(s@.take(j as int).drop_last() =~= s@.take(j - 1));
        j = j - 1;
    }
    assert(s@.take(j as int) =~= s@.subrange(0, j as int));
    sub_chars(s, 0, j)
}

/// `s` without leading and trailing whitespace.
pub fn trim(s: &Vec<char>) -> (r: Vec<char>)
    ensures
        r@ == trimmed(s@),
{
    let t = trim_start(s);
    trim_end(&t)
}

/// `t` ends with `suffix`.
pub open spec fn ends_with(t: Seq<char>, suffix: Seq<char>) -> bool {
    suffix.len() <= t.len() && t.skip(t.len() - suffix.len()) == suffix
}

/// `t` starts with `prefix`.
pub open spec fn starts_with(t: Seq<char>, prefix: Seq<char>) -> bool {
    prefix.len() <= t.len() && t.take(prefix.len() as int) == prefix
}

/// `s` padded with spaces on the right to `width` characters, as `{:<width}`
/// formats it; text already that wide is left as it is.
pub open spec fn padded(s: Seq<char>, width: nat) -> Seq<char> {
    if s.len() >= width {
        s
    } else {
        s + Seq::new((width - s.len()) as nat, |i: int| ' ')
    }
}

/// `b` as `{}` formats a `bool`.
pub open spec fn bool_text(b: bool) -> Seq<char> {
    if b {
        "true"@
    } else {
        "false"@
    }
}

/// Appends `s`, padded with spaces to `width` characters, to `buf`.
pub fn push_padded(buf: &mut Vec<char>, s: &Vec<char>, width: usize)
    ensures
        final(buf)@ == old(buf)@ + padded(s@, width as nat),
{
    push_chars(buf, s);
    let mut k: usize = s.len();
    while k < width
        invariant
            k >= s@.len(),
            s@.len() >= width ==> k == s@.len(),
            s@.len() < width ==> k <= width,
            buf@ == old(buf)@ + s@ + Seq::new((k - s@.len()) as nat, |i: int| ' '),
        decreases width - k,
    {
        buf.push(' ');
        k = k + 1;
        assert(buf@ =~= old(buf)@ + s@ + Seq::new((k - s@.len()) as nat, |i: int| ' '));
    }
    if s.len() >= width {
        assert(k == s@.len());
        assert(Seq::new((k - s@.len()) as nat, |i: int| ' ') =~= Seq::<char>::empty());
        assert(buf@ =~= old(buf)@ + s@);
    } else {
        assert(buf@ =~= old(buf)@ + padded(s@, width as nat));
    }
}

/// Appends `b` as `{}` formats it to `buf`.
pub fn push_bool(buf: &mut Vec<char>, b: bool)
    ensures
        final(buf)@ == old(buf)@ + bool_text(b),
{
    if b {
        push_str(buf, "true");
    } else {
        push_str(buf, "false");
    }
}

/// Appends `c` to `s` (`String::push`).
#[verifier::external_body]
fn push_char(s: &mut String, c: char)
    ensures
        final(s)@ == old(s)@.push(c),
{
    s.push(c);
}

/// The characters `v` as a `String`.
pub fn string_of(v: &Vec<char>) -> (s: String)
    ensures
        s@ == v@,
{
    let mut s = String::new();
    let mut i: usize = 0;
    while i < v.len()
        invariant
            i <= v@.len(),
            s@ == v@.take(i as int),
        decreases v@.len() - i,
    {
        push_char(&mut s, v[i]);
        i = i + 1;
        assert(s@ =~= v@.take(i as int));
    }
    assert(v@.take(v@.len() as int) =~= v@);
    s
}

/// Dropping trailing whitespace after a text that ends in something else
/// only touches what follows it.
pub proof fn lemma_trimmed_end_after(a: Seq<char>, b: Seq<char>)
    requires
        a.len() > 0,
        !is_whitespace(a.last()),
    ensures
        trimmed_end(a + b) == a + trimmed_end(b),
    decreases b.len(),
{
    if b.len() == 0 {
        assert(a + b =~= a);
        assert(a + trimmed_end(b) =~= a);
    } else {
        assert((a + b).last() == b.last());
        if is_whitespace(b.last()) {
            assert((a + b).drop_last() =~= a + b.drop_last());
            lemma_trimmed_end_after(a, b.drop_last());
        }
    }
}

/// Dropping trailing whitespace twice is dropping it once.
pub proof fn lemma_trimmed_end_idempotent(t: Seq<char>)
    ensures
        trimmed_end(trimmed_end(t)) == trimmed_end(t),
    decreases t.len(),
{
    if t.len() > 0 && is_whitespace(t.last()) {
        lemma_trimmed_end_idempotent(t.drop_last());
    }
}

proof fn lemma_trimmed_start_within(s: Seq<char>, x: char)
    requires
        trimmed_start(s).contains(x),
    ensures
        s.contains(x),
    decreases s.len(),
{
    if s.len() > 0 && is_whitespace(s[0]) {
        lemma_trimmed_start_within(s.drop_first(), x);
        let k = choose|k: int| 0 <= k < s.drop_first().len() && s.drop_first()[k] == x;
        assert(s[k + 1] == x);
    }
}

proof fn lemma_trimmed_end_within(s: Seq<char>, x: char)
    requires
        trimmed_end(s).contains(x),
    ensures
        s.contains(x),
    decreases s.len(),
{
    if s.len() > 0 && is_whitespace(s.last()) {
        lemma_trimmed_end_within(s.drop_last(), x);
        let k = choose|k: int| 0 <= k < s.drop_last().len() && s.drop_last()[k] == x;
        assert(s[k] == x);
    }
}

/// Trimming adds no character: whatever the trimmed text holds, the text
/// held.
pub proof fn lemma_trimmed_within(s: Seq<char>, x: char)
    requires
        trimmed(s).contains(x),
    ensures
        s.contains(x),
{
    lemma_trimmed_end_within(trimmed_start(s), x);
    lemma_trimmed_start_within(s, x);
}

} // verus!
