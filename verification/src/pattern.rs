use vstd::prelude::*;
use crate::life::Cell;
use crate::text::{
    chars_of, lemma_lines_after_line_feed, lemma_lines_join, lemma_lines_of_first_line, lines, rows_of,
    split_lines, starts_with, strip_cr,
};
use crate::rle::{
    decimal, decoded, expand, expand_runs, fill_field, fits, header_numbers, number_values, numbers, parses,
};

verus! {

/// The cell that a character of a plain-text pattern stands for: `.` is
/// dead, anything else alive.
pub open spec fn plain_cell(c: char) -> Cell {
    if c == '.' {
        (0, 0)
    } else {
        (1, 1)
    }
}

/// The lines of a plain-text pattern that hold cells: those not begun by `!`.
pub open spec fn plain_rows(s: Seq<char>) -> Seq<Seq<char>> {
    lines(s).filter(|l: Seq<char>| !starts_with(l, '!'))
}

/// The pattern that a plain-text file describes, one row per line of cells.
pub open spec fn plain_pattern(s: Seq<char>) -> Seq<Seq<Cell>> {
    plain_rows(s).map_values(|l: Seq<char>| l.map_values(|c: char| plain_cell(c)))
}

/// The cells of one line of a plain-text pattern.
fn plain_row(l: &Vec<char>) -> (row: Vec<Cell>)
    ensures
        row@ == l@.map_values(|c: char| plain_cell(c)),
{
    let mut row: Vec<Cell> = Vec::new();
    let mut m: usize = 0;
    while m < l.len()
        invariant
            0 <= m <= l@.len(),
            row@ == l@.take(m as int).map_values(|c: char| plain_cell(c)),
        decreases l@.len() - m,
    {
        let t: usize = if l[m] == '.' { 0 } else { 1 };
        row.push((t, t));
        assert(l@.take(m + 1) =~= l@.take(m as int).push(l@[m as int]));
        assert(row@ =~= l@.take(m + 1).map_values(|c: char| plain_cell(c)));
        m = m + 1;
    }
    assert(l@.take(l@.len() as int) =~= l@);
    row
}

/// Reads a plain-text pattern: each line not begun by `!` is a row, `.` a
/// dead cell and any other character a live one.
pub fn parse_hr(contents: String) -> (pattern: Vec<Vec<Cell>>)
    ensures
        rows_of(pattern@) == plain_pattern(contents@),
{
    let chars = chars_of(contents.as_str());
    let ls = split_lines(&chars);
    let ghost all = rows_of(ls@);
    let ghost keep = |l: Seq<char>| !starts_with(l, '!');
    let mut out: Vec<Vec<Cell>> = Vec::new();
    let mut k: usize = 0;
    assert(all.take(0) =~= Seq::<Seq<char>>::empty());
    while k < ls.len()
        invariant
            0 <= k <= ls@.len(),
            all == rows_of(ls@),
            all == lines(chars@),
            keep == (|l: Seq<char>| !starts_with(l, '!')),
            rows_of(out@) == all.take(k as int).filter(keep).map_values(
                |l: Seq<char>| l.map_values(|c: char| plain_cell(c)),
            ),
        decreases ls@.len() - k,
    {
        let l = &ls[k];
        assert(l@ == all[k as int]);
        assert(all.take(k + 1) =~= all.take(k as int).push(all[k as int]));
        proof { all.take(k as int).lemma_filter_push(all[k as int], keep); }
        let ghost f = |l: Seq<char>| l.map_values(|c: char| plain_cell(c));
        let ghost a = all.take(k as int).filter(keep);
        if l.len() > 0 && l[0] == '!' {
            assert(!keep(all[k as int]));
            assert(all.take(k + 1).filter(keep) == a);
        } else {
            assert(keep(all[k as int]));
            let row = plain_row(l);
            let ghost before = rows_of(out@);
            out.push(row);
            assert(rows_of(out@) =~= before.push(row@));
            assert(all.take(k + 1).filter(keep) == a.push(all[k as int]));
            assert(a.push(all[k as int]).map_values(f) =~= a.map_values(f).push(f(all[k as int])));
        }
        k = k + 1;
    }
    assert(all.take(ls@.len() as int) =~= all);
    out
}


/// The lines of a run-length encoded pattern that are not comments (begun
/// by `#`): the header, then the encoded cells.
pub open spec fn rle_lines(s: Seq<char>) -> Seq<Seq<char>> {
    lines(s).filter(|l: Seq<char>| !starts_with(l, '#'))
}

/// The encoded cells of a run-length encoded pattern: the lines after the
/// header joined together, with every `!` taken out.
pub open spec fn rle_body(s: Seq<char>) -> Seq<char> {
    rle_lines(s).skip(1).flatten().filter(|c: char| c != '!')
}

/// The numbers in the header of a run-length encoded pattern: the width,
/// then the height, then whatever else it holds.
pub open spec fn rle_size(s: Seq<char>) -> Seq<nat> {
    number_values(rle_lines(s)[0])
}

/// Whether a run-length encoded pattern can be read: it has a header with
/// at least two numbers, every number and count parses as a `usize`, and
/// every cell it fills lies within the width and height that the header
/// gives.
pub open spec fn rle_ok(s: Seq<char>) -> bool {
    &&& rle_lines(s).len() > 0
    &&& forall|i: int|
        0 <= i < numbers(rle_lines(s)[0]).len() ==> parses(#[trigger] numbers(rle_lines(s)[0])[i])
    &&& rle_size(s).len() >= 2
    &&& expand(rle_body(s)) is Some
    &&& fits(expand(rle_body(s)).unwrap(), rle_size(s)[1] as int, rle_size(s)[0] as int)
}

/// The pattern that a run-length encoded file describes: a field as high
/// and as wide as its header says, the cells laid out from its top left
/// corner, `b` dead and anything else alive.
pub open spec fn rle_pattern(s: Seq<char>) -> Seq<Seq<Cell>> {
    decoded(expand(rle_body(s)).unwrap(), rle_size(s)[1], rle_size(s)[0])
}

/// The lines that do not begin with `c`.
fn drop_lines_starting(ls: &Vec<Vec<char>>, c: char) -> (out: Vec<Vec<char>>)
    ensures
        rows_of(out@) == rows_of(ls@).filter(|l: Seq<char>| !starts_with(l, c)),
{
    let ghost all = rows_of(ls@);
    let ghost keep = |l: Seq<char>| !starts_with(l, c);
    let mut out: Vec<Vec<char>> = Vec::new();
    let mut k: usize = 0;
    assert(all.take(0) =~= Seq::<Seq<char>>::empty());
    while k < ls.len()
        invariant
            0 <= k <= ls@.len(),
            all == rows_of(ls@),
            keep == (|l: Seq<char>| !starts_with(l, c)),
            rows_of(out@) == all.take(k as int).filter(keep),
        decreases ls@.len() - k,
    {
        let l = &ls[k];
        assert(l@ == all[k as int]);
        assert(all.take(k + 1) =~= all.take(k as int).push(all[k as int]));
        proof {
            all.take(k as int).lemma_filter_push(all[k as int], keep);
        }
        if l.len() > 0 && l[0] == c {
        } else {
            let row = l.clone();
            let ghost before = rows_of(out@);
            out.push(row);
            assert(rows_of(out@) =~= before.push(l@));
        }
        k = k + 1;
    }
    assert(all.take(ls@.len() as int) =~= all);
    out
}

/// The lines from `from` on, joined, with every `!` taken out.
fn join_body(ls: &Vec<Vec<char>>, from: usize) -> (out: Vec<char>)
    requires
        from <= ls@.len(),
    ensures
        out@ == rows_of(ls@).skip(from as int).flatten().filter(|c: char| c != '!'),
{
    let ghost all = rows_of(ls@);
    let ghost keep = |c: char| c != '!';
    let mut out: Vec<char> = Vec::new();
    let mut m: usize = from;
    assert(all.subrange(from as int, from as int) =~= Seq::<Seq<char>>::empty());
    while m < ls.len()
        invariant
            from <= m <= ls@.len(),
            all == rows_of(ls@),
            keep == (|c: char| c != '!'),
            out@ == all.subrange(from as int, m as int).flatten().filter(keep),
        decreases ls@.len() - m,
    {
        let l = &ls[m];
        let ghost done = all.subrange(from as int, m as int).flatten();
        assert(l@ == all[m as int]);
        proof {
            vstd::seq_lib::lemma_flatten_concat(all.subrange(from as int, m as int), seq![l@]);
            assert(all.subrange(from as int, m + 1) =~= all.subrange(from as int, m as int) + seq![l@]);
            assert(seq![l@].drop_first() =~= Seq::<Seq<char>>::empty());
            seq![l@].lemma_flatten_one_element();
        }
        let mut q: usize = 0;
        assert(done + l@.take(0) =~= done);
        while q < l.len()
            invariant
                0 <= q <= l@.len(),
                keep == (|c: char| c != '!'),
                out@ == (done + l@.take(q as int)).filter(keep),
            decreases l@.len() - q,
        {
            let x = l[q];
            assert(done + l@.take(q + 1) =~= (done + l@.take(q as int)).push(x));
            proof {
                (done + l@.take(q as int)).lemma_filter_push(x, keep);
            }
            if x != '!' {
                out.push(x);
            }
            q = q + 1;
        }
        assert(l@.take(l@.len() as int) =~= l@);
        m = m + 1;
    }
    assert(all.subrange(from as int, ls@.len() as int) =~= all.skip(from as int));
    out
}

/// Reads a run-length encoded pattern; `None` exactly when it cannot be
/// read (see `rle_ok`).
pub fn decode_rle(contents: &str) -> (out: Option<Vec<Vec<Cell>>>)
    ensures
        match out {
            Some(p) => rle_ok(contents@) && rows_of(p@) == rle_pattern(contents@),
            None => !rle_ok(contents@),
        },
{
    let chars = chars_of(contents);
    let ls = split_lines(&chars);
    let data = drop_lines_starting(&ls, '#');
    assert(rows_of(data@) == rle_lines(contents@));
    if data.len() == 0 {
        return None;
    }
    assert(data@[0]@ == rle_lines(contents@)[0]);
    let size = match header_numbers(&data[0]) {
        Some(v) => v,
        None => {
            return None;
        },
    };
    if size.len() < 2 {
        return None;
    }
    let body = join_body(&data, 1);
    assert(body@ == rle_body(contents@));
    let expanded = match expand_runs(&body) {
        Some(e) => e,
        None => {
            return None;
        },
    };
    let w = size[0];
    let h = size[1];
    fill_field(&expanded, h, w)
}

/// Reads a run-length encoded pattern.
pub fn parse_rle(contents: String) -> (pattern: Vec<Vec<Cell>>)
    requires
        rle_ok(contents@),
    ensures
        rows_of(pattern@) == rle_pattern(contents@),
{
    match decode_rle(contents.as_str()) {
        Some(p) => p,
        None => Vec::new(),
    }
}

/// A readable run-length encoded pattern is exactly as high and as wide as
/// its header says, and every cell of it is settled and either dead or
/// alive with state 1.
pub proof fn lemma_rle_pattern_shape(s: Seq<char>)
    requires
        rle_ok(s),
    ensures
        rle_pattern(s).len() == rle_size(s)[1],
        rle_pattern(s).len() == decimal(numbers(rle_lines(s)[0])[1]),
        forall|i: int| 0 <= i < rle_pattern(s).len() ==> #[trigger] rle_pattern(s)[i].len() == rle_size(s)[0],
        forall|i: int|
            0 <= i < rle_pattern(s).len() ==> #[trigger] rle_pattern(s)[i].len() == decimal(
                numbers(rle_lines(s)[0])[0],
            ),
        forall|i: int, j: int|
            0 <= i < rle_pattern(s).len() && 0 <= j < rle_pattern(s)[i].len() ==> #[trigger] rle_pattern(s)[i][j]
                == (0usize, 0usize) || rle_pattern(s)[i][j] == (1usize, 1usize),
{
}

/// A plain-text pattern has a row for each line not begun by `!`, as long
/// as that line, each cell dead (`.`) or alive with state 1.
pub proof fn lemma_plain_pattern_shape(s: Seq<char>)
    ensures
        plain_pattern(s).len() == plain_rows(s).len(),
        forall|i: int| 0 <= i < plain_pattern(s).len() ==> #[trigger] plain_pattern(s)[i].len() == plain_rows(s)[i].len(),
        forall|i: int, j: int|
            0 <= i < plain_pattern(s).len() && 0 <= j < plain_pattern(s)[i].len() ==> #[trigger] plain_pattern(s)[i][j]
                == (if plain_rows(s)[i][j] == '.' { (0usize, 0usize) } else { (1usize, 1usize) }),
{
}

/// Plain-text rows are read line by line: two texts joined at a line feed
/// read as the rows of the first followed by those of the second, when the
/// first ends with neither a line feed nor a carriage return.
pub proof fn lemma_plain_pattern_join(a: Seq<char>, b: Seq<char>)
    requires
        a.len() > 0,
        a.last() != '\n',
        a.last() != '\r',
    ensures
        plain_pattern(a + seq!['\n'] + b) == plain_pattern(a) + plain_pattern(b),
{
    let keep = |l: Seq<char>| !starts_with(l, '!');
    let f = |l: Seq<char>| l.map_values(|c: char| plain_cell(c));
    lemma_lines_join(a, b);
    Seq::filter_distributes_over_add(lines(a), lines(b), keep);
    let x = plain_rows(a);
    let y = plain_rows(b);
    assert((x + y).map_values(f) =~= x.map_values(f) + y.map_values(f));
}

/// A comment line (one begun by `#`) may be put before any line of a
/// run-length encoded file without changing what the file reads as.
pub proof fn lemma_rle_comment_ignored(a: Seq<char>, c: Seq<char>, b: Seq<char>)
    requires
        a.len() == 0 || a.last() == '\n',
        starts_with(c, '#'),
        forall|i: int| 0 <= i < c.len() ==> c[i] != '\n',
    ensures
        rle_lines(a + c + seq!['\n'] + b) == rle_lines(a + b),
        rle_ok(a + c + seq!['\n'] + b) == rle_ok(a + b),
        rle_pattern(a + c + seq!['\n'] + b) == rle_pattern(a + b),
{
    let keep = |l: Seq<char>| !starts_with(l, '#');
    let x = a + c + seq!['\n'] + b;
    let rest = c + seq!['\n'] + b;
    assert(x =~= a + rest);
    lemma_lines_after_line_feed(a, rest);
    lemma_lines_after_line_feed(a, b);
    lemma_lines_of_first_line(c, b);
    assert(starts_with(strip_cr(c), '#'));
    let one = seq![strip_cr(c)];
    Seq::filter_distributes_over_add(lines(a), one + lines(b), keep);
    Seq::filter_distributes_over_add(one, lines(b), keep);
    Seq::filter_distributes_over_add(lines(a), lines(b), keep);
    reveal_with_fuel(Seq::<Seq<char>>::filter, 2);
    assert(one.filter(keep) =~= Seq::<Seq<char>>::empty()) by {
        assert(one.drop_last() =~= Seq::<Seq<char>>::empty());
    }
    assert(lines(x) == lines(a) + (one + lines(b)));
    assert(one.filter(keep) + lines(b).filter(keep) =~= lines(b).filter(keep));
}

proof fn lemma_lines_of_one_line(l: Seq<char>)
    requires
        l.len() > 0,
        forall|i: int| 0 <= i < l.len() ==> l[i] != '\n',
    ensures
        lines(l) == seq![l],
{
    crate::text::lemma_newline_at_concat(l, Seq::<char>::empty());
    assert(l + Seq::<char>::empty() =~= l);
}

/// A line that is not begun by `!` reads as exactly one row, as long as the
/// line, with a dead cell for each `.` and a live one for any other
/// character, whatever cells it holds.
pub proof fn lemma_plain_line_is_a_row(l: Seq<char>)
    requires
        l.len() > 0,
        l[0] != '!',
        forall|i: int| 0 <= i < l.len() ==> l[i] != '\n',
    ensures
        plain_pattern(l).len() == 1,
        plain_pattern(l)[0].len() == l.len(),
        forall|j: int|
            0 <= j < l.len() ==> #[trigger] plain_pattern(l)[0][j] == if l[j] == '.' {
                (0usize, 0usize)
            } else {
                (1usize, 1usize)
            },
{
    lemma_lines_of_one_line(l);
    reveal_with_fuel(Seq::<Seq<char>>::filter, 2);
    assert(seq![l].drop_last() =~= Seq::<Seq<char>>::empty());
    assert(plain_rows(l) =~= seq![l]);
}

/// A line begun by `!` gives no row.
pub proof fn lemma_plain_comment_gives_no_row(l: Seq<char>)
    requires
        l.len() > 0,
        l[0] == '!',
        forall|i: int| 0 <= i < l.len() ==> l[i] != '\n',
    ensures
        plain_pattern(l).len() == 0,
{
    lemma_lines_of_one_line(l);
    reveal_with_fuel(Seq::<Seq<char>>::filter, 2);
    assert(seq![l].drop_last() =~= Seq::<Seq<char>>::empty());
    assert(plain_rows(l) =~= Seq::<Seq<char>>::empty());
}

} // verus!
