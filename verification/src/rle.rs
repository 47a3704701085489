use vstd::prelude::*;

verus! {

/// What the `regex` crate answers when the one-character text `c` is
/// matched against the regular expression `pattern`: whether it matches, or
/// `None` when the pattern does not compile.
pub uninterp spec fn regex_match_char(pattern: Seq<char>, c: char) -> Option<bool>;

/// Whether `c` matches `pattern`, as `regex::Regex::new` compiles the
/// pattern and `Regex::is_match` tries it on the text made of `c` alone;
/// `None` when the pattern does not compile. The answer depends on the
/// pattern and the character only; which characters match is left to the
/// crate's Unicode tables and is not stated.
#[verifier::external_body]
fn regex_is_match_char(pattern: &str, c: char) -> (r: Option<bool>)
    ensures
        r == regex_match_char(pattern@, c),
{
    let mut buf = [0u8; 4];
    match regex::Regex::new(pattern) {
        Ok(re) => Some(re.is_match(c.encode_utf8(&mut buf))),
        Err(_) => None,
    }
}

/// The regular expression of a single decimal digit, `^\d$`.
pub open spec fn digit_pattern() -> Seq<char> {
    seq!['^', '\\', 'd', '$']
}

/// The regular expression of a single word character, `^\w$`.
pub open spec fn word_pattern() -> Seq<char> {
    seq!['^', '\\', 'w', '$']
}

/// An ASCII character.
pub open spec fn is_ascii_char(c: char) -> bool {
    (c as int) < 128
}

/// An ASCII decimal digit.
pub open spec fn is_ascii_digit(c: char) -> bool {
    '0' <= c && c <= '9'
}

/// A decimal digit as the regular expression class `\d` has it: among
/// ASCII characters `0` to `9`, and among the others whatever the `regex`
/// crate's Unicode class of decimal digits holds.
pub open spec fn is_digit(c: char) -> bool {
    if is_ascii_char(c) {
        is_ascii_digit(c)
    } else {
        regex_match_char(digit_pattern(), c) == Some(true)
    }
}

/// A run of digits that `usize` parsing accepts: ASCII digits only, with a
/// value that fits in a `usize`.
pub open spec fn parses(r: Seq<char>) -> bool {
    &&& forall|i: int| 0 <= i < r.len() ==> is_ascii_digit(#[trigger] r[i])
    &&& decimal(r) <= usize::MAX
}

/// Whether `c` is a digit, as `is_digit` states it.
fn is_digit_char(c: char) -> (b: bool)
    ensures
        b == is_digit(c),
{
    if (c as u32) < 128 {
        '0' <= c && c <= '9'
    } else {
        let m = regex_is_match_char("^\\d$", c);
        proof {
            reveal_strlit("^\\d$");
            assert("^\\d$"@ =~= digit_pattern());
        }
        match m {
            Some(b) => b,
            None => false,
        }
    }
}

/// The value of a decimal digit.
pub open spec fn digit_value(c: char) -> nat {
    (c as int - '0' as int) as nat
}

/// The value of a string of decimal digits.
pub open spec fn decimal(s: Seq<char>) -> nat
    decreases s.len(),
{
    if s.len() == 0 {
        0
    } else {
        decimal(s.drop_last()) * 10 + digit_value(s.last())
    }
}

/// The maximal runs of decimal digits in `s`, in order.
pub open spec fn numbers(s: Seq<char>) -> Seq<Seq<char>>
    decreases s.len(),
{
    if s.len() == 0 {
        seq![]
    } else if !is_digit(s[0]) {
        numbers(s.drop_first())
    } else {
        let rest = numbers(s.drop_first());
        if s.len() > 1 && is_digit(s[1]) {
            seq![seq![s[0]] + rest[0]] + rest.drop_first()
        } else {
            seq![seq![s[0]]] + rest
        }
    }
}

/// The values of the runs of digits in `s`.
pub open spec fn number_values(s: Seq<char>) -> Seq<nat> {
    numbers(s).map_values(|r: Seq<char>| decimal(r))
}

proof fn lemma_numbers_starting_digit(t: Seq<char>)
    requires
        t.len() > 0,
        is_digit(t[0]),
    ensures
        numbers(t).len() > 0,
{
}

/// Digits in front of `t` join the run that `t` begins with, if any.
proof fn lemma_numbers_prefix(r: Seq<char>, t: Seq<char>)
    requires
        r.len() > 0,
        forall|i: int| 0 <= i < r.len() ==> is_digit(#[trigger] r[i]),
    ensures
        numbers(r + t) == if t.len() > 0 && is_digit(t[0]) {
            seq![r + numbers(t)[0]] + numbers(t).drop_first()
        } else {
            seq![r] + numbers(t)
        },
    decreases r.len(),
{
    let s = r + t;
    assert(s[0] == r[0]);
    assert(is_digit(r[0]));
    if r.len() == 1 {
        assert(s.drop_first() =~= t);
        assert(r =~= seq![r[0]]);
        if t.len() > 0 {
            assert(s[1] == t[0]);
        }
    } else {
        let r2 = r.drop_first();
        assert(s.drop_first() =~= r2 + t);
        assert(s[1] == r[1]);
        assert(is_digit(r[1]));
        lemma_numbers_prefix(r2, t);
        assert(seq![r[0]] + r2 =~= r);
        if t.len() > 0 && is_digit(t[0]) {
            lemma_numbers_starting_digit(t);
            assert(seq![r[0]] + (r2 + numbers(t)[0]) =~= r + numbers(t)[0]);
            assert((seq![r2 + numbers(t)[0]] + numbers(t).drop_first()).drop_first() =~= numbers(t).drop_first());
        } else {
            assert((seq![r2] + numbers(t)).drop_first() =~= numbers(t));
        }
    }
}

proof fn lemma_decimal_grows(a: Seq<char>, b: Seq<char>)
    ensures
        decimal(a + b) >= decimal(a),
    decreases b.len(),
{
    if b.len() == 0 {
        assert(a + b =~= a);
    } else {
        assert((a + b).drop_last() =~= a + b.drop_last());
        lemma_decimal_grows(a, b.drop_last());
    }
}

/// The values of the runs of digits in `s`; `None` when one of them does not
/// parse as a `usize` (see `parses`).
pub fn header_numbers(s: &Vec<char>) -> (out: Option<Vec<usize>>)
    ensures
        match out {
            Some(v) => (forall|i: int| 0 <= i < numbers(s@).len() ==> parses(#[trigger] numbers(s@)[i]))
                && v@.len() == number_values(s@).len()
                && forall|i: int| 0 <= i < v@.len() ==> v@[i] as nat == #[trigger] number_values(s@)[i],
            None => exists|i: int| 0 <= i < numbers(s@).len() && !parses(#[trigger] numbers(s@)[i]),
        },
{
    let mut out: Vec<usize> = Vec::new();
    let mut cur_len: usize = 0;
    let mut cur: usize = 0;
    let ghost mut run: Seq<char> = seq![];
    let ghost mut done: Seq<Seq<char>> = seq![];
    let mut k: usize = 0;
    assert(run + s@.skip(0) =~= s@);
    while k < s.len()
        invariant
            0 <= k <= s@.len(),
            run.len() == cur_len,
            cur_len <= k,
            forall|i: int| 0 <= i < run.len() ==> is_ascii_digit(#[trigger] run[i]),
            cur == decimal(run),
            cur <= usize::MAX,
            numbers(s@) == done + numbers(run + s@.skip(k as int)),
            out@.len() == done.len(),
            forall|i: int| 0 <= i < done.len() ==> parses(#[trigger] done[i]),
            forall|i: int| 0 <= i < done.len() ==> out@[i] as nat == #[trigger] decimal(done[i]),
        decreases s@.len() - k,
    {
        let c = s[k];
        let ghost rest = s@.skip(k as int);
        assert(rest[0] == c);
        assert(rest.drop_first() =~= s@.skip(k + 1));
        if is_digit_char(c) {
            let ghost r2 = run.push(c);
            let ghost tail = s@.skip(k + 1);
            proof {
                assert forall|i: int| 0 <= i < run.len() implies is_digit(#[trigger] run[i]) by {
                    assert(is_ascii_digit(run[i]));
                }
                assert(r2 + tail =~= run + rest);
                assert forall|i: int| 0 <= i < r2.len() implies is_digit(#[trigger] r2[i]) by {
                    if i < run.len() {
                        assert(r2[i] == run[i]);
                        assert(is_ascii_digit(run[i]));
                    }
                }
                lemma_numbers_prefix(r2, tail);
                if tail.len() > 0 && is_digit(tail[0]) {
                    lemma_numbers_starting_digit(tail);
                }
            }
            let ghost first = if tail.len() > 0 && is_digit(tail[0]) {
                r2 + numbers(tail)[0]
            } else {
                r2
            };
            proof {
                assert(numbers(r2 + tail)[0] == first);
                assert(numbers(s@)[done.len() as int] == first);
                assert(first[run.len() as int] == c);
            }
            if !('0' <= c && c <= '9') {
                assert(!parses(first));
                return None;
            }
            let d = (c as u32 - '0' as u32) as usize;
            assert(run.push(c).drop_last() =~= run);
            if cur > (usize::MAX - d) / 10 {
                proof {
                    assert(decimal(run.push(c)) > usize::MAX) by (nonlinear_arith)
                        requires
                            cur > (usize::MAX - d) / 10,
                            decimal(run.push(c)) == cur * 10 + d,
                            d <= 9;
                    if tail.len() > 0 && is_digit(tail[0]) {
                        lemma_decimal_grows(r2, numbers(tail)[0]);
                    }
                    assert(!parses(first));
                }
                return None;
            }
            cur = cur * 10 + d;
            cur_len = cur_len + 1;
            proof {
                assert(run + rest =~= run.push(c) + s@.skip(k + 1));
                run = run.push(c);
            }
        } else {
            if cur_len > 0 {
                proof {
                    assert forall|i: int| 0 <= i < run.len() implies is_digit(#[trigger] run[i]) by {
                        assert(is_ascii_digit(run[i]));
                    }
                    lemma_numbers_prefix(run, rest);
                    assert(numbers(rest) =~= numbers(s@.skip(k + 1)));
                    assert(done + (seq![run] + numbers(rest)) =~= done.push(run) + numbers(s@.skip(k + 1)));
                    done = done.push(run);
                    run = seq![];
                }
                out.push(cur);
                assert(run + s@.skip(k + 1) =~= s@.skip(k + 1));
            } else {
                assert(run + rest =~= rest);
                assert(run + s@.skip(k + 1) =~= s@.skip(k + 1));
            }
            cur_len = 0;
            cur = 0;
        }
        k = k + 1;
    }
    proof {
        assert(s@.skip(k as int) =~= Seq::<char>::empty());
        assert(run + s@.skip(k as int) =~= run);
    }
    if cur_len > 0 {
        proof {
            assert forall|i: int| 0 <= i < run.len() implies is_digit(#[trigger] run[i]) by {
                assert(is_ascii_digit(run[i]));
            }
            lemma_numbers_prefix(run, Seq::<char>::empty());
            assert(run + Seq::<char>::empty() =~= run);
            done = done.push(run);
        }
        out.push(cur);
    }
    proof {
        assert(numbers(s@) =~= done);
    }
    assert(out@.len() == number_values(s@).len());
    Some(out)
}


/// A character that may follow a count, as the regular expression class
/// `[\w\$]` has it: among ASCII characters a letter, a digit, `_` or `$`,
/// and among the others whatever the `regex` crate's Unicode class of word
/// characters holds.
pub open spec fn is_tag(c: char) -> bool {
    if is_ascii_char(c) {
        is_ascii_digit(c) || ('a' <= c && c <= 'z') || ('A' <= c && c <= 'Z') || c == '_' || c == '$'
    } else {
        regex_match_char(word_pattern(), c) == Some(true)
    }
}

/// The number of digits that `s` begins with.
pub open spec fn digit_run(s: Seq<char>) -> nat
    decreases s.len(),
{
    if s.len() > 0 && is_digit(s[0]) {
        1 + digit_run(s.drop_first())
    } else {
        0
    }
}

/// `n` copies of `c`.
pub open spec fn repeat(c: char, n: nat) -> Seq<char> {
    Seq::new(n, |_i: int| c)
}

pub proof fn lemma_digit_run_bound(s: Seq<char>)
    ensures
        digit_run(s) <= s.len(),
    decreases s.len(),
{
    if s.len() > 0 && is_digit(s[0]) {
        lemma_digit_run_bound(s.drop_first());
    }
}

/// `e` after `front`, or nothing when there is no `e`.
pub open spec fn prefixed(front: Seq<char>, e: Option<Seq<char>>) -> Option<Seq<char>> {
    match e {
        Some(e) => Some(front + e),
        None => None,
    }
}

/// The run-length expansion of `s`: each count (a run of digits) and the
/// tag after it become the tag repeated count times; other characters stay.
/// A run of digits not followed by a tag lends its last digit as the tag,
/// and a lone digit not followed by a tag stays as it is. `None` when a
/// count does not parse as a `usize` (see `parses`).
pub open spec fn expand(s: Seq<char>) -> Option<Seq<char>>
    decreases s.len(),
{
    if s.len() == 0 {
        Some(seq![])
    } else {
        let n = digit_run(s);
        proof {
            lemma_digit_run_bound(s);
        }
        if n == 0 || (n == 1 && !(n < s.len() && is_tag(s[n as int]))) {
            prefixed(seq![s[0]], expand(s.drop_first()))
        } else {
            let tag_at: int = if n < s.len() && is_tag(s[n as int]) {
                n as int
            } else {
                n - 1
            };
            if !parses(s.take(tag_at)) {
                None
            } else {
                prefixed(repeat(s[tag_at], decimal(s.take(tag_at))), expand(s.skip(tag_at + 1)))
            }
        }
    }
}

proof fn lemma_digit_run_step(s: Seq<char>, q: int)
    requires
        0 <= q <= s.len(),
    ensures
        q < s.len() && is_digit(s[q]) ==> digit_run(s.skip(q)) == 1 + digit_run(s.skip(q + 1)),
        !(q < s.len() && is_digit(s[q])) ==> digit_run(s.skip(q)) == 0,
{
    if q < s.len() {
        assert(s.skip(q).drop_first() =~= s.skip(q + 1));
        assert(s.skip(q)[0] == s[q]);
    }
}

/// The run-length expansion of `s`, as `expand` states it.
pub fn expand_runs(s: &Vec<char>) -> (out: Option<Vec<char>>)
    ensures
        match out {
            Some(v) => expand(s@) == Some(v@),
            None => expand(s@) is None,
        },
{
    let mut out: Vec<char> = Vec::new();
    let mut p: usize = 0;
    assert(s@.skip(0) =~= s@);
    assert(Seq::<char>::empty() + s@ =~= s@);
    while p < s.len()
        invariant
            0 <= p <= s@.len(),
            expand(s@) == prefixed(out@, expand(s@.skip(p as int))),
        decreases s@.len() - p,
    {
        let ghost rest = s@.skip(p as int);
        let mut q: usize = p;
        let mut all_ok = true;
        let mut all: usize = 0;
        let mut prev_ok = true;
        let mut prev: usize = 0;
        assert(s@.subrange(p as int, p as int) =~= Seq::<char>::empty());
        let len = s.len();
        let mut more = q < len && is_digit_char(s[q]);
        while more
            invariant
                len == s@.len(),
                p <= q <= s@.len(),
                more == (q < s@.len() && is_digit(s@[q as int])),
                digit_run(rest) == (q - p) + digit_run(s@.skip(q as int)),
                rest == s@.skip(p as int),
                all_ok == parses(s@.subrange(p as int, q as int)),
                all_ok ==> all == decimal(s@.subrange(p as int, q as int)),
                q > p ==> prev_ok == parses(s@.subrange(p as int, q - 1)),
                q > p ==> (prev_ok ==> prev == decimal(s@.subrange(p as int, q - 1))),
            decreases s@.len() - q,
        {
            proof {
                lemma_digit_run_step(s@, q as int);
            }
            let c = s[q];
            let ascii = '0' <= c && c <= '9';
            let d: usize = if ascii { (c as u32 - '0' as u32) as usize } else { 0 };
            let ghost run = s@.subrange(p as int, q as int);
            let ghost run2 = run.push(c);
            assert(s@.subrange(p as int, q + 1) =~= run2);
            assert(run2.drop_last() =~= run);
            assert(run2[run.len() as int] == c);
            assert(forall|i: int| 0 <= i < run.len() ==> #[trigger] run2[i] == run[i]);
            prev_ok = all_ok;
            prev = all;
            if all_ok && ascii && all <= (usize::MAX - d) / 10 {
                all = all * 10 + d;
                proof {
                    assert(all == decimal(run2));
                    assert forall|i: int| 0 <= i < run2.len() implies is_ascii_digit(#[trigger] run2[i]) by {
                        if i < run.len() {
                            assert(run2[i] == run[i]);
                        }
                    }
                }
            } else {
                proof {
                    if all_ok && ascii {
                        assert(decimal(run2) > usize::MAX) by (nonlinear_arith)
                            requires
                                all > (usize::MAX - d) / 10,
                                decimal(run2) == all * 10 + d,
                                d <= 9;
                    } else if !all_ok {
                        if decimal(run) > usize::MAX {
                            assert(decimal(run2) >= decimal(run) * 10) by (nonlinear_arith)
                                requires
                                    decimal(run2) == decimal(run) * 10 + digit_value(c);
                        } else {
                            let i = choose|i: int| 0 <= i < run.len() && !is_ascii_digit(#[trigger] run[i]);
                            assert(run2[i] == run[i]);
                        }
                    }
                    assert(!parses(run2));
                }
                all_ok = false;
            }
            q = q + 1;
            more = q < len && is_digit_char(s[q]);
        }
        proof {
            lemma_digit_run_step(s@, q as int);
            lemma_digit_run_bound(rest);
        }
        let n = q - p;
        assert(n == digit_run(rest));
        if n == 0 || (n == 1 && !(q < s.len() && is_tag_char(s[q]))) {
            proof {
                assert(rest[0] == s@[p as int]);
                assert(rest.drop_first() =~= s@.skip(p + 1));
                if n == 1 {
                    assert(rest[1] == s@[q as int] || q >= s@.len());
                }
                assert(out@.push(s@[p as int]) =~= out@ + seq![s@[p as int]]);
                match expand(s@.skip(p + 1)) {
                    Some(e) => {
                        assert(out@ + (seq![s@[p as int]] + e) =~= out@.push(s@[p as int]) + e);
                    },
                    None => {},
                }
            }
            out.push(s[p]);
            p = p + 1;
        } else {
            let followed = q < s.len() && is_tag_char(s[q]);
            let tag_at: usize = if followed { q } else { q - 1 };
            let ok = if followed { all_ok } else { prev_ok };
            let count = if followed { all } else { prev };
            proof {
                if q < s@.len() {
                    assert(rest[n as int] == s@[q as int]);
                }
                assert(rest.take(tag_at - p) =~= s@.subrange(p as int, tag_at as int));
                assert(rest[tag_at - p] == s@[tag_at as int]);
                assert(rest.skip(tag_at - p + 1) =~= s@.skip(tag_at + 1));
            }
            if !ok {
                return None;
            }
            let tag = s[tag_at];
            let ghost base = out@;
            let mut i: usize = 0;
            while i < count
                invariant
                    0 <= i <= count,
                    out@ == base + repeat(tag, i as nat),
                decreases count - i,
            {
                out.push(tag);
                assert(base + repeat(tag, (i + 1) as nat) =~= (base + repeat(tag, i as nat)).push(tag));
                i = i + 1;
            }
            proof {
                match expand(s@.skip(tag_at + 1)) {
                    Some(e) => {
                        assert(base + (repeat(tag, count as nat) + e) =~= out@ + e);
                    },
                    None => {},
                }
            }
            p = tag_at + 1;
        }
    }
    assert(s@.skip(p as int) =~= Seq::<char>::empty());
    assert(out@ + Seq::<char>::empty() =~= out@);
    Some(out)
}

/// Whether `c` may follow a count, as `is_tag` states it.
fn is_tag_char(c: char) -> (b: bool)
    ensures
        b == is_tag(c),
{
    if (c as u32) < 128 {
        ('0' <= c && c <= '9') || ('a' <= c && c <= 'z') || ('A' <= c && c <= 'Z') || c == '_' || c
            == '$'
    } else {
        let m = regex_is_match_char("^\\w$", c);
        proof {
            reveal_strlit("^\\w$");
            assert("^\\w$"@ =~= word_pattern());
        }
        match m {
            Some(b) => b,
            None => false,
        }
    }
}


/// Where the next cell goes once the decoded characters `e` have been laid
/// out from the top left corner: `$` moves to the start of the next row,
/// any other character fills one cell and moves one column right.
pub open spec fn cursor(e: Seq<char>) -> (int, int)
    decreases e.len(),
{
    if e.len() == 0 {
        (0, 0)
    } else {
        let p = cursor(e.drop_last());
        if e.last() == '$' {
            (p.0 + 1, 0)
        } else {
            (p.0, p.1 + 1)
        }
    }
}

/// Character `k` of `e` fills the cell in row `i`, column `j`.
pub open spec fn placed_at(e: Seq<char>, k: int, i: int, j: int) -> bool {
    0 <= k < e.len() && e[k] != '$' && cursor(e.take(k)) == (i, j)
}

/// Every character of `e` that fills a cell fills one of an `h` by `w` field.
pub open spec fn fits(e: Seq<char>, h: int, w: int) -> bool {
    forall|k: int|
        0 <= k < e.len() && e[k] != '$' ==> {
            let p = #[trigger] cursor(e.take(k));
            p.0 < h && p.1 < w
        }
}

/// A character other than `b` fills the cell in row `i`, column `j`.
pub open spec fn filled(e: Seq<char>, i: int, j: int) -> bool {
    exists|k: int| placed_at(e, k, i, j) && e[k] != 'b'
}

/// The `h` by `w` field that the decoded characters `e` fill: a cell is
/// alive when a character other than `b` fills it.
pub open spec fn decoded(e: Seq<char>, h: nat, w: nat) -> Seq<Seq<(usize, usize)>> {
    Seq::new(
        h,
        |i: int|
            Seq::new(
                w,
                |j: int|
                    if filled(e, i, j) {
                        (1usize, 1usize)
                    } else {
                        (0usize, 0usize)
                    },
            ),
    )
}

/// `a` comes before `b` in reading order.
pub open spec fn precedes(a: (int, int), b: (int, int)) -> bool {
    a.0 < b.0 || (a.0 == b.0 && a.1 < b.1)
}

proof fn lemma_cursor_moves_on(e: Seq<char>, k1: int, k2: int)
    requires
        0 <= k1 < k2 <= e.len(),
        e[k1] != '$',
    ensures
        precedes(cursor(e.take(k1)), cursor(e.take(k2))),
    decreases k2 - k1,
{
    assert(e.take(k2).drop_last() =~= e.take(k2 - 1));
    assert(e.take(k2).last() == e[k2 - 1]);
    if k2 > k1 + 1 {
        lemma_cursor_moves_on(e, k1, k2 - 1);
    }
}

proof fn lemma_cursor_bound(e: Seq<char>)
    ensures
        0 <= cursor(e).0 <= e.len(),
        0 <= cursor(e).1 <= e.len(),
    decreases e.len(),
{
    if e.len() > 0 {
        lemma_cursor_bound(e.drop_last());
    }
}

/// Lays out the decoded characters `e` on an `h` by `w` field; `None` when
/// a character would fill a cell outside it.
pub fn fill_field(e: &Vec<char>, h: usize, w: usize) -> (out: Option<Vec<Vec<(usize, usize)>>>)
    ensures
        match out {
            Some(g) => fits(e@, h as int, w as int) && crate::text::rows_of(g@) == decoded(e@, h as nat, w as nat),
            None => !fits(e@, h as int, w as int),
        },
{
    let mut grid: Vec<Vec<(usize, usize)>> = Vec::new();
    let mut i: usize = 0;
    while i < h
        invariant
            0 <= i <= h,
            grid@.len() == i,
            forall|x: int| 0 <= x < i ==> (#[trigger] grid@[x])@ == Seq::new(w as nat, |j: int| (0usize, 0usize)),
        decreases h - i,
    {
        let mut row: Vec<(usize, usize)> = Vec::new();
        let mut j: usize = 0;
        while j < w
            invariant
                0 <= j <= w,
                row@ == Seq::new(j as nat, |y: int| (0usize, 0usize)),
            decreases w - j,
        {
            row.push((0, 0));
            assert(row@ =~= Seq::new((j + 1) as nat, |y: int| (0usize, 0usize)));
            j = j + 1;
        }
        grid.push(row);
        i = i + 1;
    }
    assert(crate::text::rows_of(grid@) =~= decoded(e@.take(0), h as nat, w as nat)) by {
        assert forall|x: int| 0 <= x < h implies #[trigger] crate::text::rows_of(grid@)[x] =~= decoded(e@.take(0), h as nat, w as nat)[x] by {
            assert forall|y: int| 0 <= y < w implies crate::text::rows_of(grid@)[x][y] == decoded(e@.take(0), h as nat, w as nat)[x][y] by {
                assert(!filled(e@.take(0), x, y));
            }
        }
    }
    let mut r: usize = 0;
    let mut c: usize = 0;
    let mut k: usize = 0;
    while k < e.len()
        invariant
            0 <= k <= e@.len(),
            (r as int, c as int) == cursor(e@.take(k as int)),
            r <= k,
            c <= k,
            fits(e@.take(k as int), h as int, w as int),
            grid@.len() == h,
            forall|x: int| 0 <= x < h ==> (#[trigger] grid@[x])@.len() == w,
            crate::text::rows_of(grid@) == decoded(e@.take(k as int), h as nat, w as nat),
        decreases e@.len() - k,
    {
        let x = e[k];
        let ghost pre = e@.take(k as int);
        let ghost post = e@.take(k + 1);
        assert(post =~= pre.push(x));
        assert(post.drop_last() =~= pre);
        assert forall|m: int| 0 <= m < k implies #[trigger] post.take(m) == pre.take(m) && post[m] == pre[m] by {
            assert(post.take(m) =~= pre.take(m));
        }
        if x == '$' {
            proof {
                assert(fits(post, h as int, w as int)) by {
                    assert forall|m: int| 0 <= m < post.len() && post[m] != '$' implies {
                        let p = #[trigger] cursor(post.take(m));
                        p.0 < h && p.1 < w
                    } by {
                        assert(post.take(m) == pre.take(m) && post[m] == pre[m]);
                    }
                }
                assert forall|a: int, b: int| 0 <= a < h && 0 <= b < w implies
                    #[trigger] filled(post, a, b) == filled(pre, a, b) by {
                    if exists|m: int| placed_at(post, m, a, b) && post[m] != 'b' {
                        let m = choose|m: int| placed_at(post, m, a, b) && post[m] != 'b';
                        assert(post.take(m) == pre.take(m) && post[m] == pre[m]);
                        assert(placed_at(pre, m, a, b));
                    }
                    if exists|m: int| placed_at(pre, m, a, b) && pre[m] != 'b' {
                        let m = choose|m: int| placed_at(pre, m, a, b) && pre[m] != 'b';
                        assert(post.take(m) == pre.take(m) && post[m] == pre[m]);
                        assert(placed_at(post, m, a, b));
                    }
                }
                assert(decoded(post, h as nat, w as nat) =~= decoded(pre, h as nat, w as nat)) by {
                    assert forall|a: int| 0 <= a < h implies #[trigger] decoded(post, h as nat, w as nat)[a] =~= decoded(pre, h as nat, w as nat)[a] by {
                    }
                }
            }
            r = r + 1;
            c = 0;
        } else {
            if r >= h || c >= w {
                proof {
                    assert(post[k as int] == x);
                    assert(post.take(k as int) == pre);
                    assert(e@.take(k as int) == pre);
                    assert(e@[k as int] == x);
                    let p = cursor(e@.take(k as int));
                    assert(!(p.0 < h && p.1 < w));
                }
                return None;
            }
            let v: usize = if x == 'b' { 0 } else { 1 };
            let ghost old_grid = grid@;
            assert(old_grid[r as int] == grid@[r as int]);
            grid[r][c] = (v, v);
            proof {
                assert(fits(post, h as int, w as int)) by {
                    assert forall|m: int| 0 <= m < post.len() && post[m] != '$' implies {
                        let p = #[trigger] cursor(post.take(m));
                        p.0 < h && p.1 < w
                    } by {
                        if m < k {
                            assert(post.take(m) == pre.take(m) && post[m] == pre[m]);
                        } else {
                            assert(post.take(m) =~= pre);
                        }
                    }
                }
                assert(post.take(k as int) =~= pre);
                assert forall|a: int, b: int| 0 <= a < h && 0 <= b < w implies
                    #[trigger] filled(post, a, b) == (if a == r && b == c {
                        x != 'b'
                    } else {
                        filled(pre, a, b)
                    }) by {
                    if exists|m: int| placed_at(post, m, a, b) && post[m] != 'b' {
                        let m = choose|m: int| placed_at(post, m, a, b) && post[m] != 'b';
                        if m < k {
                            assert(post.take(m) == pre.take(m) && post[m] == pre[m]);
                            assert(placed_at(pre, m, a, b));
                            lemma_cursor_moves_on(e@, m, k as int);
                            assert(e@.take(m) == pre.take(m)) by {
                                assert(e@.take(m) =~= pre.take(m));
                            }
                            assert(e@[m] == pre[m]);
                        } else {
                            assert(m == k);
                        }
                    }
                    if a == r && b == c && x != 'b' {
                        assert(placed_at(post, k as int, a, b));
                    }
                    if a != r || b != c {
                        if exists|m: int| placed_at(pre, m, a, b) && pre[m] != 'b' {
                            let m = choose|m: int| placed_at(pre, m, a, b) && pre[m] != 'b';
                            assert(post.take(m) == pre.take(m) && post[m] == pre[m]);
                            assert(placed_at(post, m, a, b));
                        }
                    }
                }
                let want = decoded(post, h as nat, w as nat);
                assert forall|a: int| 0 <= a < h implies #[trigger] crate::text::rows_of(grid@)[a] =~= want[a] by {
                    if a == r {
                        assert(grid@[a]@ == old_grid[a]@.update(c as int, (v, v)));
                    } else {
                        assert(grid@[a] == old_grid[a]);
                    }
                    assert forall|y: int| 0 <= y < w implies crate::text::rows_of(grid@)[a][y] == want[a][y] by {
                        assert(filled(post, a, y) == (if a == r && y == c { x != 'b' } else { filled(pre, a, y) }));
                        assert(crate::text::rows_of(old_grid)[a][y] == decoded(pre, h as nat, w as nat)[a][y]);
                    }
                }
                assert(crate::text::rows_of(grid@) =~= want);
            }
            c = c + 1;
        }
        k = k + 1;
    }
    assert(e@.take(e@.len() as int) =~= e@);
    Some(grid)
}

proof fn lemma_digit_run_of_run(r: Seq<char>, y: Seq<char>)
    requires
        forall|i: int| 0 <= i < r.len() ==> is_digit(#[trigger] r[i]),
        y.len() == 0 || !is_digit(y[0]),
    ensures
        digit_run(r + y) == r.len(),
    decreases r.len(),
{
    if r.len() == 0 {
        assert(r + y =~= y);
    } else {
        assert((r + y).drop_first() =~= r.drop_first() + y);
        assert((r + y)[0] == r[0]);
        lemma_digit_run_of_run(r.drop_first(), y);
    }
}

/// A count followed by a tag that is no digit stands for the tag repeated
/// as many times as the count's decimal value, and the rest of the text
/// expands on its own; a count that does not parse as a `usize` leaves the
/// text unreadable.
pub proof fn lemma_count_repeats_tag(r: Seq<char>, t: char, x: Seq<char>)
    requires
        r.len() > 0,
        forall|i: int| 0 <= i < r.len() ==> is_digit(#[trigger] r[i]),
        is_tag(t),
        !is_digit(t),
    ensures
        (forall|i: int| 0 <= i < r.len() ==> '0' <= #[trigger] r[i] && r[i] <= '9') && decimal(r)
            <= usize::MAX ==> expand(r + seq![t] + x) == match expand(x) {
            Some(e) => Some(Seq::new(decimal(r), |_i: int| t) + e),
            None => None,
        },
        !(forall|i: int| 0 <= i < r.len() ==> '0' <= #[trigger] r[i] && r[i] <= '9') ==> expand(
            r + seq![t] + x,
        ) is None,
        decimal(r) > usize::MAX ==> expand(r + seq![t] + x) is None,
{
    let s = r + seq![t] + x;
    assert(s =~= r + (seq![t] + x));
    lemma_digit_run_of_run(r, seq![t] + x);
    let n = r.len();
    assert(s[n as int] == t);
    assert(s[0] == r[0]);
    assert(s.take(n as int) =~= r);
    assert(s.skip(n + 1 as int) =~= x);
    assert(repeat(t, decimal(r)) =~= Seq::new(decimal(r), |_i: int| t));
}

/// A character that begins no count stays as it is, and the rest of the
/// text expands on its own.
pub proof fn lemma_other_character_stays(c: char, x: Seq<char>)
    requires
        !is_digit(c),
    ensures
        expand(seq![c] + x) == match expand(x) {
            Some(e) => Some(seq![c] + e),
            None => None,
        },
{
    let s = seq![c] + x;
    assert(s[0] == c);
    assert(s.drop_first() =~= x);
}

/// A string of decimal digits is read in base ten, most significant digit
/// first: one more digit at the end multiplies the value by ten and adds the
/// digit, and the empty string is worth nothing.
pub proof fn lemma_decimal_base_ten(r: Seq<char>, d: char)
    requires
        '0' <= d && d <= '9',
    ensures
        decimal(r.push(d)) == decimal(r) * 10 + (d as int - '0' as int),
        decimal(seq![d]) == d as int - '0' as int,
        decimal(Seq::<char>::empty()) == 0,
{
    assert(r.push(d).drop_last() =~= r);
    assert(seq![d].drop_last() =~= Seq::<char>::empty());
    assert(seq![d].last() == d);
    assert(decimal(Seq::<char>::empty()) == 0);
    assert(decimal(seq![d]) == decimal(seq![d].drop_last()) * 10 + digit_value(d));
}

/// The runs of digits of a text: a character that is no digit separates
/// runs and is dropped, and a run of digits ended by such a character is
/// one number followed by those of the rest.
pub proof fn lemma_numbers_split(r: Seq<char>, c: char, x: Seq<char>)
    requires
        forall|i: int| 0 <= i < r.len() ==> is_digit(#[trigger] r[i]),
        !is_digit(c),
    ensures
        numbers(seq![c] + x) == numbers(x),
        r.len() > 0 ==> numbers(r + seq![c] + x) == seq![r] + numbers(x),
        numbers(r) == if r.len() > 0 { seq![r] } else { Seq::<Seq<char>>::empty() },
{
    let s = seq![c] + x;
    assert(s[0] == c);
    assert(s.drop_first() =~= x);
    if r.len() > 0 {
        assert(r + seq![c] + x =~= r + s);
        lemma_numbers_prefix(r, s);
        lemma_numbers_prefix(r, Seq::<char>::empty());
        assert(r + Seq::<char>::empty() =~= r);
        assert(seq![r] + Seq::<Seq<char>>::empty() =~= seq![r]);
    }
}

/// No `$` in `e`.
pub open spec fn one_row(e: Seq<char>) -> bool {
    forall|i: int| 0 <= i < e.len() ==> e[i] != '$'
}

proof fn lemma_cursor_in_row(e: Seq<char>, k: int)
    requires
        one_row(e),
        0 <= k <= e.len(),
    ensures
        cursor(e.take(k)) == (0int, k),
    decreases k,
{
    if k > 0 {
        assert(e.take(k).drop_last() =~= e.take(k - 1));
        assert(e.take(k).last() == e[k - 1]);
        lemma_cursor_in_row(e, k - 1);
    }
}

proof fn lemma_cursor_after_row(e: Seq<char>, f: Seq<char>, m: int)
    requires
        one_row(e),
        0 <= m <= f.len(),
    ensures
        cursor((e + seq!['$'] + f).take(e.len() + 1 + m)) == (cursor(f.take(m)).0 + 1, cursor(
            f.take(m),
        ).1),
    decreases m,
{
    let big = e + seq!['$'] + f;
    let n = e.len() as int;
    if m == 0 {
        assert(big.take(n + 1).drop_last() =~= e);
        assert(big.take(n + 1).last() == '$');
        lemma_cursor_in_row(e, n);
        assert(e.take(n) =~= e);
        assert(f.take(0) =~= Seq::<char>::empty());
    } else {
        lemma_cursor_after_row(e, f, m - 1);
        assert(big.take(n + 1 + m).drop_last() =~= big.take(n + 1 + (m - 1)));
        assert(big.take(n + 1 + m).last() == f[m - 1]);
        assert(f.take(m).drop_last() =~= f.take(m - 1));
        assert(f.take(m).last() == f[m - 1]);
    }
}

proof fn lemma_piece_positions(e: Seq<char>, f: Seq<char>)
    requires
        one_row(e),
    ensures
        forall|k: int|
            0 <= k <= e.len() ==> #[trigger] cursor((e + seq!['$'] + f).take(k)) == (0int, k),
        forall|m: int|
            0 <= m <= f.len() ==> #[trigger] cursor((e + seq!['$'] + f).take(e.len() + 1 + m)) == (
                cursor(f.take(m)).0 + 1,
                cursor(f.take(m)).1,
            ),
        forall|k: int| 0 <= k < e.len() ==> #[trigger] (e + seq!['$'] + f)[k] == e[k],
        (e + seq!['$'] + f)[e.len() as int] == '$',
        forall|m: int| 0 <= m < f.len() ==> #[trigger] (e + seq!['$'] + f)[e.len() + 1 + m] == f[m],
        (e + seq!['$'] + f).len() == e.len() + 1 + f.len(),
{
    let big = e + seq!['$'] + f;
    let n = e.len() as int;
    assert forall|k: int| 0 <= k <= n implies #[trigger] cursor(big.take(k)) == (0int, k) by {
        assert(big.take(k) =~= e.take(k));
        lemma_cursor_in_row(e, k);
    }
    assert forall|m: int| 0 <= m <= f.len() implies #[trigger] cursor(big.take(n + 1 + m)) == (
        cursor(f.take(m)).0 + 1,
        cursor(f.take(m)).1,
    ) by {
        lemma_cursor_after_row(e, f, m);
    }
}

proof fn lemma_piece_fits(e: Seq<char>, f: Seq<char>, h: nat, w: nat)
    requires
        one_row(e),
    ensures
        fits(e + seq!['$'] + f, h + 1 as int, w as int) == (e.len() <= w && fits(f, h as int, w as int)),
{
    let big = e + seq!['$'] + f;
    let n = e.len() as int;
    lemma_piece_positions(e, f);
    if fits(big, h + 1 as int, w as int) {
        if n > 0 {
            assert(big[n - 1] == e[n - 1]);
            assert(cursor(big.take(n - 1)) == (0int, n - 1));
        }
        assert forall|m: int| 0 <= m < f.len() && f[m] != '$' implies {
            let p = #[trigger] cursor(f.take(m));
            p.0 < h && p.1 < w
        } by {
            assert(big[n + 1 + m] == f[m]);
            assert(cursor(big.take(n + 1 + m)) == (cursor(f.take(m)).0 + 1, cursor(f.take(m)).1));
        }
    }
    if e.len() <= w && fits(f, h as int, w as int) {
        assert forall|k: int| 0 <= k < big.len() && big[k] != '$' implies {
            let p = #[trigger] cursor(big.take(k));
            p.0 < h + 1 && p.1 < w
        } by {
            if k < n {
                assert(cursor(big.take(k)) == (0int, k));
            } else {
                let m = k - n - 1;
                assert(big[n + 1 + m] == f[m]);
                assert(cursor(big.take(n + 1 + m)) == (cursor(f.take(m)).0 + 1, cursor(f.take(m)).1));
            }
        }
    }
}

proof fn lemma_piece_first_row(e: Seq<char>, f: Seq<char>, h: nat, w: nat)
    requires
        one_row(e),
    ensures
        forall|j: int|
            0 <= j < w ==> #[trigger] decoded(e + seq!['$'] + f, h + 1, w)[0][j] == if j < e.len()
                && e[j] != 'b' {
                (1usize, 1usize)
            } else {
                (0usize, 0usize)
            },
{
    let big = e + seq!['$'] + f;
    let n = e.len() as int;
    lemma_piece_positions(e, f);
    assert forall|j: int| 0 <= j < w implies #[trigger] decoded(big, h + 1, w)[0][j] == if j < e.len() && e[j] != 'b' {
        (1usize, 1usize)
    } else {
        (0usize, 0usize)
    } by {
        if filled(big, 0, j) {
            let k = choose|k: int| placed_at(big, k, 0, j) && big[k] != 'b';
            if k > n {
                let m = k - n - 1;
                assert(cursor(big.take(n + 1 + m)) == (cursor(f.take(m)).0 + 1, cursor(f.take(m)).1));
                lemma_cursor_bound(f.take(m));
            }
            assert(k < n);
        }
        if j < e.len() && e[j] != 'b' {
            assert(cursor(big.take(j)) == (0int, j));
            assert(placed_at(big, j, 0, j));
        }
    }
}

proof fn lemma_piece_rows_below(e: Seq<char>, f: Seq<char>, h: nat, w: nat)
    requires
        one_row(e),
    ensures
        forall|i: int, j: int|
            0 <= i < h && 0 <= j < w ==> #[trigger] decoded(e + seq!['$'] + f, h + 1, w)[i + 1][j]
                == decoded(f, h, w)[i][j],
{
    let big = e + seq!['$'] + f;
    let n = e.len() as int;
    lemma_piece_positions(e, f);
    assert forall|i: int, j: int| 0 <= i < h && 0 <= j < w implies #[trigger] decoded(big, h + 1, w)[i + 1][j]
        == decoded(f, h, w)[i][j] by {
        if filled(big, i + 1, j) {
            let k = choose|k: int| placed_at(big, k, i + 1, j) && big[k] != 'b';
            if k < n {
                assert(cursor(big.take(k)) == (0int, k));
            }
            let m = k - n - 1;
            assert(big[n + 1 + m] == f[m]);
            assert(cursor(big.take(n + 1 + m)) == (cursor(f.take(m)).0 + 1, cursor(f.take(m)).1));
            assert(placed_at(f, m, i, j));
        }
        if filled(f, i, j) {
            let m = choose|m: int| placed_at(f, m, i, j) && f[m] != 'b';
            assert(big[n + 1 + m] == f[m]);
            assert(cursor(big.take(n + 1 + m)) == (cursor(f.take(m)).0 + 1, cursor(f.take(m)).1));
            assert(placed_at(big, n + 1 + m, i + 1, j));
        }
    }
}

/// A piece of the decoded cells without `$` is laid out as one row from
/// the left edge, the piece after the `$` from the next row on: row 0 of
/// the field holds the piece's cells, `b` dead and anything else alive, the
/// rest of the piece's row dead, and the rows below are the field that the
/// rest lays out; the whole fits exactly when the piece is no wider than the
/// field and the rest fits in the rows below.
pub proof fn lemma_rows_are_pieces(e: Seq<char>, f: Seq<char>, h: nat, w: nat)
    requires
        one_row(e),
    ensures
        fits(e + seq!['$'] + f, h + 1 as int, w as int) == (e.len() <= w && fits(f, h as int, w as int)),
        forall|j: int|
            0 <= j < w ==> #[trigger] decoded(e + seq!['$'] + f, h + 1, w)[0][j] == if j < e.len()
                && e[j] != 'b' {
                (1usize, 1usize)
            } else {
                (0usize, 0usize)
            },
        forall|i: int, j: int|
            0 <= i < h && 0 <= j < w ==> #[trigger] decoded(e + seq!['$'] + f, h + 1, w)[i + 1][j]
                == decoded(f, h, w)[i][j],
{
    lemma_piece_fits(e, f, h, w);
    lemma_piece_first_row(e, f, h, w);
    lemma_piece_rows_below(e, f, h, w);
}

/// The last piece of the decoded cells, with no `$`, is one row from the
/// left edge: it fits exactly when it is empty or there is a row and it is
/// no wider than the field, row 0 holds its cells (`b` dead, anything else
/// alive) and every other cell is dead.
pub proof fn lemma_last_row(e: Seq<char>, h: nat, w: nat)
    requires
        one_row(e),
    ensures
        fits(e, h as int, w as int) == (e.len() == 0 || (h >= 1 && e.len() <= w)),
        forall|i: int, j: int|
            0 <= i < h && 0 <= j < w ==> #[trigger] decoded(e, h, w)[i][j] == if i == 0 && j < e.len()
                && e[j] != 'b' {
                (1usize, 1usize)
            } else {
                (0usize, 0usize)
            },
{
    let n = e.len() as int;
    assert forall|k: int| 0 <= k <= n implies #[trigger] cursor(e.take(k)) == (0int, k) by {
        lemma_cursor_in_row(e, k);
    }
    if fits(e, h as int, w as int) && n > 0 {
        assert(e[n - 1] != '$');
        assert(cursor(e.take(n - 1)) == (0int, n - 1));
    }
    if e.len() == 0 || (h >= 1 && e.len() <= w) {
        assert forall|k: int| 0 <= k < e.len() && e[k] != '$' implies {
            let p = #[trigger] cursor(e.take(k));
            p.0 < h && p.1 < w
        } by {
            assert(cursor(e.take(k)) == (0int, k));
        }
    }
    assert forall|i: int, j: int| 0 <= i < h && 0 <= j < w implies #[trigger] decoded(e, h, w)[i][j] == if i == 0
        && j < e.len() && e[j] != 'b' {
        (1usize, 1usize)
    } else {
        (0usize, 0usize)
    } by {
        if filled(e, i, j) {
            let k = choose|k: int| placed_at(e, k, i, j) && e[k] != 'b';
            assert(cursor(e.take(k)) == (0int, k));
        }
        if i == 0 && j < e.len() && e[j] != 'b' {
            assert(cursor(e.take(j)) == (0int, j));
            assert(placed_at(e, j, 0, j));
        }
    }
}

} // verus!
