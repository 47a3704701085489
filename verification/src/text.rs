use vstd::prelude::*;

verus! {

/// The characters of `s`, one per element.
pub fn chars_of(s: &str) -> (v: Vec<char>)
    ensures
        v@ == s@,
{
    broadcast use vstd::string::group_string_axioms;
    let mut v: Vec<char> = Vec::new();
    for c in it: s.chars()
        invariant
            v@ == it.seq().take(it.index() as int),
            it.seq() == s@,
    {
        v.push(c);
    }
    v
}


/// The contents of each row of a nested vector.
pub open spec fn rows_of<T>(v: Seq<Vec<T>>) -> Seq<Seq<T>> {
    v.map_values(|r: Vec<T>| r@)
}

/// Whether `l` begins with the character `c`.
pub open spec fn starts_with(l: Seq<char>, c: char) -> bool {
    l.len() > 0 && l[0] == c
}

/// Index of the first line feed in `s`, or `s.len()` when there is none.
pub open spec fn newline_at(s: Seq<char>) -> nat
    decreases s.len(),
{
    if s.len() == 0 {
        0
    } else if s[0] == '\n' {
        0
    } else {
        1 + newline_at(s.drop_first())
    }
}

/// `l` without one trailing carriage return.
pub open spec fn strip_cr(l: Seq<char>) -> Seq<char> {
    if l.len() > 0 && l.last() == '\r' {
        l.drop_last()
    } else {
        l
    }
}

/// The lines of `s`: pieces between line feeds, a carriage return before a
/// line feed dropped, and no empty last line after a final line feed.
pub open spec fn lines(s: Seq<char>) -> Seq<Seq<char>>
    decreases s.len(),
{
    if s.len() == 0 {
        seq![]
    } else {
        let k = newline_at(s);
        if k >= s.len() {
            seq![s]
        } else {
            seq![strip_cr(s.take(k as int))] + lines(s.skip(k + 1 as int))
        }
    }
}

proof fn lemma_newline_at_bound(s: Seq<char>)
    ensures
        newline_at(s) <= s.len(),
        newline_at(s) < s.len() ==> s[newline_at(s) as int] == '\n',
        forall|i: int| 0 <= i < newline_at(s) ==> s[i] != '\n',
    decreases s.len(),
{
    if s.len() > 0 && s[0] != '\n' {
        lemma_newline_at_bound(s.drop_first());
        assert forall|i: int| 0 <= i < newline_at(s) implies s[i] != '\n' by {
            if i > 0 {
                assert(s[i] == s.drop_first()[i - 1]);
            }
        }
    }
}

pub(crate) proof fn lemma_newline_at_concat(cur: Seq<char>, t: Seq<char>)
    requires
        forall|i: int| 0 <= i < cur.len() ==> cur[i] != '\n',
    ensures
        newline_at(cur + t) == cur.len() + newline_at(t),
    decreases cur.len(),
{
    if cur.len() > 0 {
        assert((cur + t).drop_first() =~= cur.drop_first() + t);
        lemma_newline_at_concat(cur.drop_first(), t);
    } else {
        assert(cur + t =~= t);
    }
}

/// The lines of a character sequence, as `str::lines` splits them.
pub fn split_lines(s: &Vec<char>) -> (out: Vec<Vec<char>>)
    ensures
        rows_of(out@) == lines(s@),
{
    let mut out: Vec<Vec<char>> = Vec::new();
    let mut cur: Vec<char> = Vec::new();
    let mut k: usize = 0;
    assert(cur@ + s@.skip(0) =~= s@);
    assert(rows_of(out@) + lines(s@) =~= lines(s@));
    while k < s.len()
        invariant
            0 <= k <= s.len(),
            forall|i: int| 0 <= i < cur@.len() ==> cur@[i] != '\n',
            lines(s@) == rows_of(out@) + lines(cur@ + s@.skip(k as int)),
        decreases s.len() - k,
    {
        let c = s[k];
        let ghost rest = s@.skip(k as int);
        let ghost old_cur = cur@;
        proof {
            lemma_newline_at_concat(cur@, rest);
        }
        if c == '\n' {
            let line = if cur.len() > 0 && cur[cur.len() - 1] == '\r' {
                let mut l = cur;
                l.pop();
                l
            } else {
                cur
            };
            assert(line@ == strip_cr(old_cur));
            proof {
                let whole = old_cur + rest;
                assert(whole.take(old_cur.len() as int) =~= old_cur);
                assert(whole.skip(old_cur.len() + 1 as int) =~= s@.skip(k + 1 as int));
                assert(lines(whole) == seq![strip_cr(old_cur)] + lines(s@.skip(k + 1 as int)));
                assert(rows_of(out@.push(line)) =~= rows_of(out@) + seq![line@]);
                assert(Seq::<char>::empty() + s@.skip(k + 1 as int) =~= s@.skip(k + 1 as int));
            }
            out.push(line);
            cur = Vec::new();
        } else {
            cur.push(c);
            assert(old_cur + rest =~= cur@ + s@.skip(k + 1 as int));
        }
        k = k + 1;
    }
    proof {
        assert(cur@ + s@.skip(k as int) =~= cur@);
        lemma_newline_at_concat(cur@, Seq::<char>::empty());
        assert(cur@ + Seq::<char>::empty() =~= cur@);
    }
    if cur.len() > 0 {
        assert(rows_of(out@.push(cur)) =~= rows_of(out@) + seq![cur@]);
        out.push(cur);
    } else {
        assert(rows_of(out@) + lines(cur@) =~= rows_of(out@));
    }
    out
}

proof fn lemma_newline_at_keeps_first(a: Seq<char>, t: Seq<char>)
    requires
        newline_at(a) < a.len(),
    ensures
        newline_at(a + t) == newline_at(a),
    decreases a.len(),
{
    if a[0] != '\n' {
        assert((a + t).drop_first() =~= a.drop_first() + t);
        lemma_newline_at_keeps_first(a.drop_first(), t);
    }
}

/// Text that is empty or ends with a line feed splits into its own lines
/// followed by those of whatever comes after it.
pub proof fn lemma_lines_after_line_feed(a: Seq<char>, t: Seq<char>)
    requires
        a.len() == 0 || a.last() == '\n',
    ensures
        lines(a + t) == lines(a) + lines(t),
    decreases a.len(),
{
    if a.len() == 0 {
        assert(a + t =~= t);
        assert(lines(a) + lines(t) =~= lines(t));
    } else {
        lemma_newline_at_bound(a);
        if newline_at(a) == a.len() {
            assert(a[a.len() - 1] == '\n');
        }
        let k = newline_at(a);
        lemma_newline_at_keeps_first(a, t);
        lemma_newline_at_bound(a + t);
        let a2 = a.skip(k + 1 as int);
        assert((a + t).take(k as int) =~= a.take(k as int));
        assert((a + t).skip(k + 1 as int) =~= a2 + t);
        if a2.len() > 0 {
            assert(a2.last() == a.last());
        }
        lemma_lines_after_line_feed(a2, t);
        assert(lines(a + t) =~= lines(a) + lines(t));
    }
}

/// Text that ends with neither a line feed nor a carriage return, joined to
/// more text at a line feed, splits into its own lines followed by those of
/// the rest.
pub proof fn lemma_lines_join(a: Seq<char>, b: Seq<char>)
    requires
        a.len() > 0,
        a.last() != '\n',
        a.last() != '\r',
    ensures
        lines(a + seq!['\n'] + b) == lines(a) + lines(b),
    decreases a.len(),
{
    let s = a + seq!['\n'] + b;
    lemma_newline_at_bound(a);
    let k = newline_at(a);
    if k < a.len() {
        lemma_newline_at_keeps_first(a, seq!['\n'] + b);
        assert(s =~= a + (seq!['\n'] + b));
        assert(k < a.len() - 1);
        let a2 = a.skip(k + 1 as int);
        assert(s.take(k as int) =~= a.take(k as int));
        assert(s.skip(k + 1 as int) =~= a2 + seq!['\n'] + b);
        assert(a2.last() == a.last());
        lemma_lines_join(a2, b);
        assert(lines(s) =~= lines(a) + lines(b));
    } else {
        lemma_newline_at_concat(a, seq!['\n'] + b);
        assert(s =~= a + (seq!['\n'] + b));
        assert(s.take(a.len() as int) =~= a);
        assert(s.skip(a.len() + 1 as int) =~= b);
        assert(strip_cr(a) == a);
        assert(lines(a) =~= seq![a]);
        assert(lines(s) =~= lines(a) + lines(b));
    }
}

/// A line without a line feed, then a line feed, then more text: that line
/// (without a trailing carriage return) followed by the lines of the rest.
pub proof fn lemma_lines_of_first_line(c: Seq<char>, b: Seq<char>)
    requires
        forall|i: int| 0 <= i < c.len() ==> c[i] != '\n',
    ensures
        lines(c + seq!['\n'] + b) == seq![strip_cr(c)] + lines(b),
        c.len() > 0 && c.last() == '\r' ==> lines(c + seq!['\n'] + b) == seq![c.drop_last()] + lines(b),
        !(c.len() > 0 && c.last() == '\r') ==> lines(c + seq!['\n'] + b) == seq![c] + lines(b),
{
    let s = c + seq!['\n'] + b;
    lemma_newline_at_concat(c, seq!['\n'] + b);
    assert(s =~= c + (seq!['\n'] + b));
    assert(s.take(c.len() as int) =~= c);
    assert(s.skip(c.len() + 1 as int) =~= b);
}

} // verus!
