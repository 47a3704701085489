use vstd::prelude::*;
use crate::life::{rectangular, settled, Cell, Generation};
use crate::pattern::{decode_rle, parse_hr, plain_cell, plain_pattern, rle_ok, rle_pattern};
use crate::text::{chars_of, rows_of};

verus! {

/// The height and the width of the field.
pub const FIELD_DIM: usize = 100;

/// Whether `s` ends with `suffix`.
pub open spec fn ends_with(s: Seq<char>, suffix: Seq<char>) -> bool {
    s.len() >= suffix.len() && s.skip(s.len() - suffix.len()) == suffix
}

/// The file name suffix of run-length encoded patterns.
pub open spec fn rle_suffix() -> Seq<char> {
    seq!['.', 'r', 'l', 'e']
}

/// Whether `s` ends with `.rle`.
pub fn is_rle_name(s: &str) -> (b: bool)
    ensures
        b == ends_with(s@, rle_suffix()),
{
    let v = chars_of(s);
    let n = v.len();
    if n < 4 {
        return false;
    }
    let b = v[n - 4] == '.' && v[n - 3] == 'r' && v[n - 2] == 'l' && v[n - 1] == 'e';
    proof {
        let t = v@.skip(n - 4);
        assert(t[0] == v@[n - 4] && t[1] == v@[n - 3] && t[2] == v@[n - 2] && t[3] == v@[n - 1]);
        if b {
            assert(t =~= rle_suffix());
        }
    }
    b
}

/// The pattern in a file: run-length encoded when its name ends with
/// `.rle`, plain text otherwise.
pub open spec fn file_pattern(name: Seq<char>, s: Seq<char>) -> Seq<Seq<Cell>> {
    if ends_with(name, rle_suffix()) {
        rle_pattern(s)
    } else {
        plain_pattern(s)
    }
}

/// Where a pattern of `n` rows (or columns) begins, so that it stands in
/// the middle of the field.
pub open spec fn offset(n: nat) -> int {
    FIELD_DIM / 2 - n / 2
}

/// Whether the pattern is small enough to be put on the field: fewer rows
/// than the field, and a first row shorter than the field.
pub open spec fn small(p: Seq<Seq<Cell>>) -> bool {
    p.len() < FIELD_DIM && p[0].len() < FIELD_DIM
}

/// Whether a pattern can be put on the field: it has a row, and when it is
/// small every row, begun in the middle, ends within the field.
pub open spec fn placeable(p: Seq<Seq<Cell>>) -> bool {
    &&& p.len() > 0
    &&& small(p) ==> forall|a: int|
        0 <= a < p.len() ==> #[trigger] p[a].len() + offset(p[0].len()) <= FIELD_DIM
}

/// The field with the pattern in its middle when the pattern is small, and
/// empty otherwise.
pub open spec fn placed(p: Seq<Seq<Cell>>) -> Seq<Seq<Cell>> {
    Seq::new(
        FIELD_DIM as nat,
        |i: int|
            Seq::new(
                FIELD_DIM as nat,
                |j: int|
                    {
                        let a = i - offset(p.len());
                        let b = j - offset(p[0].len());
                        if small(p) && 0 <= a < p.len() && 0 <= b < p[a].len() {
                            p[a][b]
                        } else {
                            (0usize, 0usize)
                        }
                    },
            ),
    )
}

/// The field with every cell dead.
pub open spec fn empty_field() -> Seq<Seq<Cell>> {
    Seq::new(FIELD_DIM as nat, |i: int| Seq::new(FIELD_DIM as nat, |j: int| (0usize, 0usize)))
}

/// Whether a field can be made from the file `name` with contents `s`: an
/// empty file gives an empty field; otherwise its pattern must be readable
/// and placeable.
pub open spec fn loadable(name: Seq<char>, s: Seq<char>) -> bool {
    s.len() == 0 || ((ends_with(name, rle_suffix()) ==> rle_ok(s)) && placeable(file_pattern(name, s)))
}

/// The field made from the file `name` with contents `s`.
pub open spec fn loaded(name: Seq<char>, s: Seq<char>) -> Seq<Seq<Cell>> {
    if s.len() == 0 {
        empty_field()
    } else {
        placed(file_pattern(name, s))
    }
}

/// A `FIELD_DIM` by `FIELD_DIM` field of dead cells.
fn dead_field() -> (f: Vec<Vec<Cell>>)
    ensures
        rows_of(f@) == empty_field(),
{
    let mut f: Vec<Vec<Cell>> = Vec::new();
    let mut i: usize = 0;
    while i < FIELD_DIM
        invariant
            0 <= i <= FIELD_DIM,
            f@.len() == i,
            forall|x: int| 0 <= x < i ==> (#[trigger] f@[x])@ == Seq::new(FIELD_DIM as nat, |j: int| (0usize, 0usize)),
        decreases FIELD_DIM - i,
    {
        let mut row: Vec<Cell> = Vec::new();
        let mut j: usize = 0;
        while j < FIELD_DIM
            invariant
                0 <= j <= FIELD_DIM,
                row@ == Seq::new(j as nat, |y: int| (0usize, 0usize)),
            decreases FIELD_DIM - j,
        {
            row.push((0, 0));
            assert(row@ =~= Seq::new((j + 1) as nat, |y: int| (0usize, 0usize)));
            j = j + 1;
        }
        f.push(row);
        i = i + 1;
    }
    assert(rows_of(f@) =~= empty_field()) by {
        assert forall|x: int| 0 <= x < FIELD_DIM implies #[trigger] rows_of(f@)[x] =~= empty_field()[x] by {}
    }
    f
}

/// Puts the pattern in the middle of the field; `None` exactly when it
/// cannot be placed.
fn place(p: &Vec<Vec<Cell>>) -> (f: Option<Vec<Vec<Cell>>>)
    ensures
        match f {
            Some(f) => placeable(rows_of(p@)) && rows_of(f@) == placed(rows_of(p@)),
            None => !placeable(rows_of(p@)),
        },
{
    let ghost pv = rows_of(p@);
    let mut field = dead_field();
    if p.len() == 0 {
        return None;
    }
    let dim_i = p.len();
    let dim_j = p[0].len();
    assert(p@[0]@ == pv[0]);
    if !(dim_i < FIELD_DIM && dim_j < FIELD_DIM) {
        assert(rows_of(field@) =~= placed(pv)) by {
            assert forall|x: int| 0 <= x < FIELD_DIM implies #[trigger] rows_of(field@)[x] =~= placed(pv)[x] by {}
        }
        return Some(field);
    }
    let shift_i = FIELD_DIM / 2 - dim_i / 2;
    let shift_j = FIELD_DIM / 2 - dim_j / 2;
    let mut a: usize = 0;
    while a < dim_i
        invariant
            0 <= a <= dim_i,
            dim_i == pv.len(),
            dim_i < FIELD_DIM,
            shift_j == offset(pv[0].len()),
            pv[0].len() == dim_j,
            dim_j < FIELD_DIM,
            pv == rows_of(p@),
            forall|x: int| 0 <= x < a ==> #[trigger] pv[x].len() + shift_j <= FIELD_DIM,
        decreases dim_i - a,
    {
        assert(p@[a as int]@ == pv[a as int]);
        if p[a].len() > FIELD_DIM - shift_j {
            assert(small(pv));
            assert(pv[a as int].len() + offset(pv[0].len()) > FIELD_DIM);
            return None;
        }
        a = a + 1;
    }
    proof {
        assert(rows_of(field@).len() == field@.len());
        assert(empty_field().len() == FIELD_DIM);
        assert(field@.len() == FIELD_DIM);
        assert forall|x: int| 0 <= x < FIELD_DIM implies (#[trigger] field@[x])@.len() == FIELD_DIM by {
            assert(rows_of(field@)[x] == field@[x]@);
            assert(empty_field()[x].len() == FIELD_DIM);
        }
        assert forall|x: int, y: int|
            0 <= x < FIELD_DIM && 0 <= y < FIELD_DIM implies #[trigger] rows_of(field@)[x][y] == (
                if x - shift_i < 0 { placed(pv)[x][y] } else { (0usize, 0usize) }) by {
            assert(rows_of(field@)[x] == empty_field()[x]);
        }
    }
    let mut a: usize = 0;
    while a < dim_i
        invariant
            0 <= a <= dim_i,
            dim_i == pv.len(),
            dim_i < FIELD_DIM,
            dim_j < FIELD_DIM,
            pv[0].len() == dim_j,
            shift_i == offset(pv.len()),
            shift_j == offset(pv[0].len()),
            pv == rows_of(p@),
            forall|x: int| 0 <= x < dim_i ==> #[trigger] pv[x].len() + shift_j <= FIELD_DIM,
            field@.len() == FIELD_DIM,
            forall|x: int| 0 <= x < FIELD_DIM ==> (#[trigger] field@[x])@.len() == FIELD_DIM,
            forall|x: int, y: int|
                0 <= x < FIELD_DIM && 0 <= y < FIELD_DIM ==> #[trigger] rows_of(field@)[x][y] == (
                    if x - shift_i < a { placed(pv)[x][y] } else { (0usize, 0usize) }),
        decreases dim_i - a,
    {
        let row = &p[a];
        assert(row@ == pv[a as int]);
        let mut b: usize = 0;
        while b < row.len()
            invariant
                0 <= a < dim_i,
                0 <= b <= row@.len(),
                row@ == pv[a as int],
                dim_i == pv.len(),
                dim_i < FIELD_DIM,
                dim_j < FIELD_DIM,
                pv[0].len() == dim_j,
                shift_i == offset(pv.len()),
                shift_j == offset(pv[0].len()),
                row@.len() + shift_j <= FIELD_DIM,
                field@.len() == FIELD_DIM,
                forall|x: int| 0 <= x < FIELD_DIM ==> (#[trigger] field@[x])@.len() == FIELD_DIM,
                forall|x: int, y: int|
                    0 <= x < FIELD_DIM && 0 <= y < FIELD_DIM ==> #[trigger] rows_of(field@)[x][y] == (
                        if x - shift_i < a || (x - shift_i == a && y - shift_j < b) {
                            placed(pv)[x][y]
                        } else {
                            (0usize, 0usize)
                        }),
            decreases row@.len() - b,
        {
            let ghost before = field@;
            let ghost before_rows = rows_of(field@);
            let fi = a + shift_i;
            let fj = b + shift_j;
            assert(before[fi as int]@ == before_rows[fi as int]);
            field[fi][fj] = row[b];
            proof {
                assert forall|x: int, y: int|
                    0 <= x < FIELD_DIM && 0 <= y < FIELD_DIM implies #[trigger] rows_of(field@)[x][y] == (
                        if x - shift_i < a || (x - shift_i == a && y - shift_j < b + 1) {
                            placed(pv)[x][y]
                        } else {
                            (0usize, 0usize)
                        }) by {
                    if x == fi {
                        assert(field@[x]@ == before[x]@.update(fj as int, row@[b as int]));
                        assert(rows_of(field@)[x] == field@[x]@);
                        assert(before_rows[x] == before[x]@);
                    } else {
                        assert(field@[x] == before[x]);
                        assert(rows_of(field@)[x] == field@[x]@);
                        assert(before_rows[x] == before[x]@);
                    }
                }
            }
            b = b + 1;
        }
        proof {
            assert forall|x: int, y: int|
                0 <= x < FIELD_DIM && 0 <= y < FIELD_DIM implies #[trigger] rows_of(field@)[x][y] == (
                    if x - shift_i < a + 1 { placed(pv)[x][y] } else { (0usize, 0usize) }) by {
                if x - shift_i == a && y - shift_j >= row@.len() {
                    assert(placed(pv)[x][y] == (0usize, 0usize));
                }
                if x - shift_i == a && y - shift_j < 0 {
                    assert(placed(pv)[x][y] == (0usize, 0usize));
                }
            }
        }
        a = a + 1;
    }
    proof {
        assert forall|x: int| 0 <= x < FIELD_DIM implies #[trigger] rows_of(field@)[x] =~= placed(pv)[x] by {
            assert forall|y: int| 0 <= y < FIELD_DIM implies rows_of(field@)[x][y] == placed(pv)[x][y] by {
                if x - shift_i >= a {
                    assert(placed(pv)[x][y] == (0usize, 0usize));
                }
            }
        }
        assert(rows_of(field@) =~= placed(pv));
    }
    Some(field)
}

impl Generation {
    /// The field made from the pattern file `file_name` with contents
    /// `contents`; `None` exactly when it cannot be made (see `loadable`).
    pub fn try_from_pattern_file(file_name: &str, contents: &str) -> (g: Option<Generation>)
        ensures
            match g {
                Some(g) => loadable(file_name@, contents@) && g@ == loaded(file_name@, contents@),
                None => !loadable(file_name@, contents@),
            },
    {
        if contents.is_empty() {
            let f = dead_field();
            return Some(Generation { state: f });
        }
        let pattern = if is_rle_name(file_name) {
            match decode_rle(contents) {
                Some(p) => p,
                None => {
                    return None;
                },
            }
        } else {
            parse_hr(contents.to_string())
        };
        match place(&pattern) {
            Some(f) => Some(Generation { state: f }),
            None => None,
        }
    }

    /// The field made from the pattern file `file_name` with contents
    /// `contents`: the pattern in its middle, or no live cell when the
    /// file is empty or the pattern too big.
    pub fn from_pattern_file(file_name: &str, contents: &str) -> (g: Generation)
        requires
            loadable(file_name@, contents@),
        ensures
            g@ == loaded(file_name@, contents@),
    {
        match Generation::try_from_pattern_file(file_name, contents) {
            Some(g) => g,
            None => Generation { state: Vec::new() },
        }
    }
}

/// Whatever file it is made from, the field is `FIELD_DIM` by `FIELD_DIM`
/// and settled, so that the simulation can step it.
pub proof fn lemma_loaded_field_is_square_and_settled(name: Seq<char>, s: Seq<char>)
    requires
        loadable(name, s),
    ensures
        loaded(name, s).len() == FIELD_DIM,
        forall|i: int| 0 <= i < FIELD_DIM ==> #[trigger] loaded(name, s)[i].len() == FIELD_DIM,
        rectangular(loaded(name, s)),
        settled(loaded(name, s)),
{
    let f = loaded(name, s);
    if s.len() > 0 {
        let p = file_pattern(name, s);
        assert(settled(p)) by {
            if ends_with(name, rle_suffix()) {
            } else {
                assert forall|a: int, b: int| 0 <= a < p.len() && 0 <= b < p[a].len() implies #[trigger] p[a][b].0 == p[a][b].1 by {
                    let l = crate::pattern::plain_rows(s)[a];
                    assert(p[a][b] == plain_cell(l[b]));
                }
            }
        }
        assert forall|i: int, j: int| 0 <= i < f.len() && 0 <= j < f[i].len() implies #[trigger] f[i][j].0 == f[i][j].1 by {
            let a = i - offset(p.len());
            let b = j - offset(p[0].len());
            if small(p) && 0 <= a < p.len() && 0 <= b < p[a].len() {
                assert(f[i][j] == p[a][b]);
            }
        }
    }
}

/// A pattern with as many rows as the field, or a first row as long, is
/// dropped whole rather than cut: the field stays dead.
pub proof fn lemma_big_pattern_gives_dead_field(name: Seq<char>, s: Seq<char>)
    requires
        loadable(name, s),
        s.len() > 0,
        !small(file_pattern(name, s)),
    ensures
        loaded(name, s) == empty_field(),
{
    let f = loaded(name, s);
    assert forall|i: int| 0 <= i < FIELD_DIM implies #[trigger] f[i] =~= empty_field()[i] by {}
    assert(f =~= empty_field());
}

/// A pattern with fewer rows than the field and a first row shorter than
/// the field stands in the middle of the loaded field: its cell in row `a`,
/// column `b` is the field's cell in row `50 - h / 2 + a`, column
/// `50 - w / 2 + b` (`h` rows, first row `w` long), and every other cell of
/// the field is dead.
pub proof fn lemma_pattern_placed_in_middle(name: Seq<char>, s: Seq<char>)
    requires
        loadable(name, s),
        s.len() > 0,
        file_pattern(name, s).len() < 100,
        file_pattern(name, s)[0].len() < 100,
    ensures
        ({
            let p = file_pattern(name, s);
            let f = loaded(name, s);
            let top = 50 - p.len() / 2;
            let lft = 50 - p[0].len() / 2;
            &&& f.len() == 100
            &&& forall|a: int, b: int|
                0 <= a < p.len() && 0 <= b < p[a].len() ==> 0 <= top + a < 100 && 0 <= lft + b < 100
                    && f[top + a][lft + b] == #[trigger] p[a][b]
            &&& forall|i: int, j: int|
                0 <= i < 100 && 0 <= j < 100 && !(top <= i < top + p.len() && lft <= j < lft
                    + p[i - top].len()) ==> #[trigger] f[i][j] == (0usize, 0usize)
        }),
{
    let p = file_pattern(name, s);
    let f = loaded(name, s);
    let top = 50 - p.len() / 2;
    let lft = 50 - p[0].len() / 2;
    assert(small(p));
    assert forall|a: int, b: int| 0 <= a < p.len() && 0 <= b < p[a].len() implies 0 <= top + a < 100 && 0
        <= lft + b < 100 && f[top + a][lft + b] == #[trigger] p[a][b] by {
        assert(p[a].len() + offset(p[0].len()) <= FIELD_DIM);
        assert(top + a - offset(p.len()) == a);
    }
}

} // verus!
