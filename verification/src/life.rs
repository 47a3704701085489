use vstd::prelude::*;
use crate::text::rows_of;

verus! {

/// A cell of the field: the current state and the state pending for the
/// next generation. A state above zero is alive.
pub type Cell = (usize, usize);

/// The position of one displayed cell: row, then column.
pub struct Index(pub (usize, usize));

/// The field of the simulation, row by row.
pub struct Generation {
    pub state: Vec<Vec<(usize, usize)>>,
}

impl View for Generation {
    type V = Seq<Seq<Cell>>;

    open spec fn view(&self) -> Seq<Seq<Cell>> {
        rows_of(self.state@)
    }
}

/// Every row has the length of the first, and that length is not zero.
pub open spec fn rectangular(g: Seq<Seq<Cell>>) -> bool {
    g.len() > 0 ==> {
        &&& g[0].len() > 0
        &&& forall|i: int| 0 <= i < g.len() ==> #[trigger] g[i].len() == g[0].len()
    }
}

/// `1` when the current state of cell `(i, j)` is alive, else `0`.
pub open spec fn alive(g: Seq<Seq<Cell>>, i: int, j: int) -> int {
    if g[i][j].0 > 0 {
        1
    } else {
        0
    }
}

/// The number of live cells among the eight around `(i, j)`, the field
/// wrapping around at its edges like a torus.
#[verifier::opaque]
pub open spec fn live_neighbours(g: Seq<Seq<Cell>>, i: int, j: int) -> int {
    let h = g.len() as int;
    let w = g[0].len() as int;
    let up = (i - 1) % h;
    let down = (i + 1) % h;
    let left = (j - 1) % w;
    let right = (j + 1) % w;
    alive(g, up, left) + alive(g, up, j) + alive(g, up, right) + alive(g, i, right) + alive(
        g,
        down,
        right,
    ) + alive(g, down, j) + alive(g, down, left) + alive(g, i, left)
}

/// The pending state that the rule of life gives a cell whose current state
/// is `now`, whose pending state is `pending`, and that has `n` live
/// neighbours: a dead cell with three is born, a live cell with other than
/// two or three dies, and otherwise the pending state stays.
pub open spec fn life_rule(now: usize, pending: usize, n: int) -> usize {
    if now == 0 {
        if n == 3 {
            1
        } else {
            pending
        }
    } else if n != 2 && n != 3 {
        0
    } else {
        pending
    }
}

/// Whether `cells` names the position `(i, j)`.
pub open spec fn names(cells: Seq<Index>, i: int, j: int) -> bool {
    exists|k: int| 0 <= k < cells.len() && (#[trigger] cells[k]).0.0 == i && cells[k].0.1 == j
}

/// The pending state of `(i, j)` once the cells in `cells` have been judged.
pub open spec fn pending_after(g: Seq<Seq<Cell>>, cells: Seq<Index>, i: int, j: int) -> usize {
    if names(cells, i, j) {
        life_rule(g[i][j].0, g[i][j].1, live_neighbours(g, i, j))
    } else {
        g[i][j].1
    }
}

/// The field after one step: each cell settles on its pending state, the
/// cells in `cells` having been judged first.
pub open spec fn stepped(g: Seq<Seq<Cell>>, cells: Seq<Index>) -> Seq<Seq<Cell>> {
    Seq::new(
        g.len(),
        |i: int|
            Seq::new(
                g[i].len(),
                |j: int|
                    {
                        let v = pending_after(g, cells, i, j);
                        (v, v)
                    },
            ),
    )
}

/// Whether cell `k` of `cells` is shown during the step: its pending state
/// when its turn comes.
pub open spec fn shown_at(g: Seq<Seq<Cell>>, cells: Seq<Index>, k: int) -> bool {
    let (i, j) = cells[k].0;
    pending_after(g, cells.take(k), i as int, j as int) > 0
}

/// Every position in `cells` lies on the field.
pub open spec fn on_field(g: Seq<Seq<Cell>>, cells: Seq<Index>) -> bool {
    forall|k: int|
        0 <= k < cells.len() ==> (#[trigger] cells[k]).0.0 < g.len() && cells[k].0.1 < g[0].len()
}

proof fn lemma_wrap(i: int, n: int)
    requires
        0 <= i < n,
    ensures
        (i - 1) % n == if i == 0 { n - 1 } else { i - 1 },
        (i + 1) % n == if i == n - 1 { 0 } else { i + 1 },
{
    if i == 0 {
        vstd::arithmetic::div_mod::lemma_mod_multiples_vanish(-1, n - 1, n);
        assert(n * -1 + (n - 1) == -1);
        vstd::arithmetic::div_mod::lemma_small_mod((n - 1) as nat, n as nat);
    } else {
        vstd::arithmetic::div_mod::lemma_small_mod((i - 1) as nat, n as nat);
    }
    if i == n - 1 {
        vstd::arithmetic::div_mod::lemma_mod_self_0(n);
    } else {
        vstd::arithmetic::div_mod::lemma_small_mod((i + 1) as nat, n as nat);
    }
}

proof fn lemma_live_neighbours_at(g: Seq<Seq<Cell>>, i: int, j: int, up: int, down: int, left: int, right: int)
    requires
        0 <= i < g.len(),
        0 <= j < g[0].len(),
        up == (if i == 0 { g.len() - 1 } else { i - 1 }),
        down == (if i == g.len() - 1 { 0 } else { i + 1 }),
        left == (if j == 0 { g[0].len() - 1 } else { j - 1 }),
        right == (if j == g[0].len() - 1 { 0 } else { j + 1 }),
    ensures
        live_neighbours(g, i, j) == alive(g, up, left) + alive(g, up, j) + alive(g, up, right)
            + alive(g, i, right) + alive(g, down, right) + alive(g, down, j) + alive(g, down, left)
            + alive(g, i, left),
{
    reveal(live_neighbours);
    lemma_wrap(i, g.len() as int);
    lemma_wrap(j, g[0].len() as int);
}

/// `1` when cell `c` of `row` is alive, else `0`.
fn alive_at(row: &Vec<Cell>, c: usize) -> (a: usize)
    requires
        c < row@.len(),
    ensures
        a == (if row@[c as int].0 > 0 { 1int } else { 0int }),
{
    if row[c].0 > 0 {
        1
    } else {
        0
    }
}

/// The number of live neighbours of `(i, j)`.
#[verifier::rlimit(40)]
fn count_neighbours(state: &Vec<Vec<Cell>>, i: usize, j: usize) -> (count: usize)
    requires
        rectangular(rows_of(state@)),
        i < state@.len(),
        j < rows_of(state@)[0].len(),
    ensures
        count == live_neighbours(rows_of(state@), i as int, j as int),
{
    let ghost g = rows_of(state@);
    let last_i = state.len() - 1;
    let last_j = state[0].len() - 1;
    let up = if i == 0 { last_i } else { i - 1 };
    let down = if i == last_i { 0 } else { i + 1 };
    let left = if j == 0 { last_j } else { j - 1 };
    let right = if j == last_j { 0 } else { j + 1 };
    proof {
        lemma_live_neighbours_at(g, i as int, j as int, up as int, down as int, left as int, right as int);
        assert(g[up as int].len() == g[0].len());
        assert(g[down as int].len() == g[0].len());
        assert(g[i as int].len() == g[0].len());
    }
    let row_up = &state[up];
    let row_mid = &state[i];
    let row_down = &state[down];
    assert(g[up as int] == row_up@);
    assert(g[i as int] == row_mid@);
    assert(g[down as int] == row_down@);
    let a1 = alive_at(row_up, left);
    let a2 = alive_at(row_up, j);
    let a3 = alive_at(row_up, right);
    let a4 = alive_at(row_mid, right);
    let a5 = alive_at(row_down, right);
    let a6 = alive_at(row_down, j);
    let a7 = alive_at(row_down, left);
    let a8 = alive_at(row_mid, left);
    assert(a1 == alive(g, up as int, left as int));
    assert(a2 == alive(g, up as int, j as int));
    assert(a3 == alive(g, up as int, right as int));
    assert(a4 == alive(g, i as int, right as int));
    assert(a5 == alive(g, down as int, right as int));
    assert(a6 == alive(g, down as int, j as int));
    assert(a7 == alive(g, down as int, left as int));
    assert(a8 == alive(g, i as int, left as int));
    a1 + a2 + a3 + a4 + a5 + a6 + a7 + a8
}


proof fn lemma_neighbours_follow_now(a: Seq<Seq<Cell>>, b: Seq<Seq<Cell>>, i: int, j: int)
    requires
        a.len() == b.len(),
        a.len() > 0,
        forall|r: int| 0 <= r < a.len() ==> #[trigger] a[r].len() == b[r].len(),
        forall|r: int, c: int|
            0 <= r < a.len() && 0 <= c < a[r].len() ==> #[trigger] a[r][c].0 == b[r][c].0,
        rectangular(a),
        0 <= i < a.len(),
        0 <= j < a[0].len(),
    ensures
        live_neighbours(a, i, j) == live_neighbours(b, i, j),
{
    reveal(live_neighbours);
    let h = a.len() as int;
    let w = a[0].len() as int;
    lemma_wrap(i, h);
    lemma_wrap(j, w);
    assert(a[(i - 1) % h].len() == w);
    assert(a[(i + 1) % h].len() == w);
    assert(a[i].len() == w);
}

proof fn lemma_names_push(cells: Seq<Index>, x: Index, i: int, j: int)
    ensures
        names(cells.push(x), i, j) <==> (names(cells, i, j) || (x.0.0 == i && x.0.1 == j)),
{
    let s = cells.push(x);
    if names(s, i, j) {
        let k = choose|k: int| 0 <= k < s.len() && (#[trigger] s[k]).0.0 == i && s[k].0.1 == j;
        if k < cells.len() {
            assert(cells[k] == s[k]);
        }
    }
    if names(cells, i, j) {
        let k = choose|k: int| 0 <= k < cells.len() && (#[trigger] cells[k]).0.0 == i && cells[k].0.1 == j;
        assert(s[k] == cells[k]);
    }
    if x.0.0 == i && x.0.1 == j {
        assert(s[cells.len() as int] == x);
    }
}

/// One step of the simulation. The cells named in `cells` are judged in
/// turn: each is reported as shown when its pending state is alive, then
/// given the pending state that the rule of life, on the current states of
/// its neighbours, prescribes. Then every cell of the field takes its
/// pending state as its current one. An empty field is left as it is and
/// nothing is shown. A non-empty field must be rectangular, with every
/// judged cell on it; every field that `Generation::try_from_pattern_file`
/// makes is (see `lemma_loaded_field_is_square_and_settled`).
pub fn calc_generation(gen: &mut Generation, cells: &Vec<Index>) -> (shown: Vec<bool>)
    requires
        old(gen)@.len() > 0 ==> rectangular(old(gen)@) && on_field(old(gen)@, cells@),
    ensures
        old(gen)@.len() == 0 ==> final(gen)@ == old(gen)@ && shown@.len() == 0,
        old(gen)@.len() > 0 ==> final(gen)@ == stepped(old(gen)@, cells@),
        old(gen)@.len() > 0 ==> shown@.len() == cells@.len(),
        forall|k: int| 0 <= k < shown@.len() ==> shown@[k] == shown_at(old(gen)@, cells@, k),
{
    let ghost g = gen@;
    let mut shown: Vec<bool> = Vec::new();
    if gen.state.len() == 0 {
        return shown;
    }
    assert(cells@.take(0) =~= Seq::<Index>::empty());
    let mut k: usize = 0;
    while k < cells.len()
        invariant
            0 <= k <= cells@.len(),
            g.len() > 0,
            rectangular(g),
            on_field(g, cells@),
            gen@.len() == g.len(),
            forall|r: int| 0 <= r < g.len() ==> #[trigger] gen@[r].len() == g[r].len(),
            forall|r: int, c: int|
                0 <= r < g.len() && 0 <= c < g[r].len() ==> #[trigger] gen@[r][c] == (
                    g[r][c].0,
                    pending_after(g, cells@.take(k as int), r, c),
                ),
            shown@.len() == k,
            forall|m: int| 0 <= m < k ==> #[trigger] shown@[m] == shown_at(g, cells@, m),
        decreases cells@.len() - k,
    {
        let (i, j) = cells[k].0;
        proof {
            assert(i < g.len() && j < g[0].len());
            assert(g[i as int].len() == g[0].len());
            assert(gen@[i as int].len() == g[0].len());
            assert(gen@[i as int] == gen.state@[i as int]@);
        }
        let v = gen.state[i][j].1 > 0;
        shown.push(v);
        let ghost cur = gen@;
        proof {
            assert(rectangular(cur)) by {
                assert forall|r: int| 0 <= r < cur.len() implies #[trigger] cur[r].len() == cur[0].len() by {
                    assert(g[r].len() == g[0].len());
                }
            }
            lemma_neighbours_follow_now(cur, g, i as int, j as int);
        }
        let count = count_neighbours(&gen.state, i, j);
        assert(gen@[i as int] == gen.state@[i as int]@);
        let now = gen.state[i][j].0;
        let pending = gen.state[i][j].1;
        let next = if now == 0 {
            if count == 3 {
                1
            } else {
                pending
            }
        } else if count != 2 && count != 3 {
            0
        } else {
            pending
        };
        let ghost cur_state = gen.state@;
        gen.state[i][j].1 = next;
        proof {
            assert(gen@[i as int] =~= cur[i as int].update(j as int, (now, next)));
            assert forall|x: int| 0 <= x < g.len() && x != i implies #[trigger] gen@[x] == cur[x] by {
                assert(gen.state@[x] == cur_state[x]);
            }
            let before = cells@.take(k as int);
            let after = cells@.take(k + 1);
            assert(after =~= before.push(cells@[k as int]));
            assert forall|r: int, c: int|
                0 <= r < g.len() && 0 <= c < g[r].len() implies #[trigger] gen@[r][c] == (
                    g[r][c].0,
                    pending_after(g, after, r, c),
                ) by {
                lemma_names_push(before, cells@[k as int], r, c);
                if r != i {
                    assert(gen@[r][c] == cur[r][c]);
                    assert(names(after, r, c) == names(before, r, c));
                } else if c != j {
                    assert(gen@[r][c] == cur[r][c]);
                    assert(names(after, r, c) == names(before, r, c));
                } else {
                    assert(names(after, r, c));
                    assert(cur[r][c] == (g[r][c].0, pending_after(g, before, r, c)));
                    assert(count == live_neighbours(g, r, c));
                    assert(gen@[r][c] == (now, next));
                    assert(now == g[r][c].0);
                    assert(next == pending_after(g, after, r, c));
                }
            }
            assert(shown@[k as int] == shown_at(g, cells@, k as int));
        }
        k = k + 1;
    }
    assert(cells@.take(cells@.len() as int) =~= cells@);
    let ghost mid = gen@;
    let mut r: usize = 0;
    while r < gen.state.len()
        invariant
            0 <= r <= g.len(),
            gen@.len() == g.len(),
            mid.len() == g.len(),
            forall|x: int| 0 <= x < g.len() ==> #[trigger] gen@[x].len() == g[x].len(),
            forall|x: int| 0 <= x < g.len() ==> #[trigger] mid[x].len() == g[x].len(),
            forall|x: int, c: int|
                0 <= x < r && 0 <= c < g[x].len() ==> #[trigger] gen@[x][c] == (mid[x][c].1, mid[x][c].1),
            forall|x: int, c: int|
                r <= x < g.len() && 0 <= c < g[x].len() ==> #[trigger] gen@[x][c] == mid[x][c],
        decreases g.len() - r,
    {
        let mut c: usize = 0;
        while c < gen.state[r].len()
            invariant
                0 <= r < g.len(),
                0 <= c <= g[r as int].len(),
                gen@.len() == g.len(),
                forall|x: int| 0 <= x < g.len() ==> #[trigger] gen@[x].len() == g[x].len(),
                forall|x: int| 0 <= x < g.len() ==> #[trigger] mid[x].len() == g[x].len(),
                forall|x: int, y: int|
                    0 <= x < r && 0 <= y < g[x].len() ==> #[trigger] gen@[x][y] == (mid[x][y].1, mid[x][y].1),
                forall|y: int|
                    0 <= y < c ==> #[trigger] gen@[r as int][y] == (mid[r as int][y].1, mid[r as int][y].1),
                forall|x: int, y: int|
                    r < x < g.len() && 0 <= y < g[x].len() ==> #[trigger] gen@[x][y] == mid[x][y],
                forall|y: int|
                    c <= y < g[r as int].len() ==> #[trigger] gen@[r as int][y] == mid[r as int][y],
            decreases g[r as int].len() - c,
        {
            let ghost before = gen@;
            let ghost before_state = gen.state@;
            assert(before[r as int] == gen.state@[r as int]@);
            let p = gen.state[r][c].1;
            gen.state[r][c].0 = p;
            proof {
                assert(gen@[r as int] =~= before[r as int].update(c as int, (p, p)));
                assert forall|x: int| 0 <= x < g.len() && x != r implies #[trigger] gen@[x] == before[x] by {
                    assert(gen.state@[x] == before_state[x]);
                }
            }
            c = c + 1;
        }
        r = r + 1;
    }
    proof {
        let want = stepped(g, cells@);
        assert forall|x: int| 0 <= x < g.len() implies #[trigger] gen@[x] =~= want[x] by {
            assert forall|y: int| 0 <= y < g[x].len() implies gen@[x][y] == want[x][y] by {
                assert(gen@[x][y] == (mid[x][y].1, mid[x][y].1));
            }
        }
        assert(gen@ =~= want);
    }
    shown
}


/// Every cell's pending state equals its current state.
pub open spec fn settled(g: Seq<Seq<Cell>>) -> bool {
    forall|i: int, j: int| 0 <= i < g.len() && 0 <= j < g[i].len() ==> #[trigger] g[i][j].0 == g[i][j].1
}

/// `cells` names every position of the field.
pub open spec fn covers(g: Seq<Seq<Cell>>, cells: Seq<Index>) -> bool {
    forall|i: int, j: int| 0 <= i < g.len() && 0 <= j < g[i].len() ==> #[trigger] names(cells, i, j)
}

/// Whether the rule of life keeps or makes a cell alive: a live cell with
/// two or three live neighbours survives, a dead cell with exactly three is
/// born.
pub open spec fn survives_or_born(now_alive: bool, n: int) -> bool {
    if now_alive {
        n == 2 || n == 3
    } else {
        n == 3
    }
}

/// A step keeps the shape of the field, and leaves every cell settled.
pub proof fn lemma_step_keeps_shape_and_settles(g: Seq<Seq<Cell>>, cells: Seq<Index>)
    ensures
        stepped(g, cells).len() == g.len(),
        forall|i: int| 0 <= i < g.len() ==> #[trigger] stepped(g, cells)[i].len() == g[i].len(),
        rectangular(g) ==> rectangular(stepped(g, cells)),
        settled(stepped(g, cells)),
{
}

/// On a settled field, a step that judges every cell is one generation of
/// Conway's game of life on the torus: a cell is alive afterwards exactly
/// when it survives or is born, a born cell holds 1, a dying cell 0, and a
/// surviving or still dead cell keeps its state.
pub proof fn lemma_step_is_life(g: Seq<Seq<Cell>>, cells: Seq<Index>, i: int, j: int)
    requires
        settled(g),
        covers(g, cells),
        0 <= i < g.len(),
        0 <= j < g[i].len(),
    ensures
        (stepped(g, cells)[i][j].0 > 0) == survives_or_born(g[i][j].0 > 0, live_neighbours(g, i, j)),
        stepped(g, cells)[i][j].0 == (if g[i][j].0 == 0 && live_neighbours(g, i, j) == 3 {
            1
        } else if g[i][j].0 > 0 && !survives_or_born(true, live_neighbours(g, i, j)) {
            0
        } else {
            g[i][j].0
        }),
{
    assert(names(cells, i, j));
    assert(g[i][j].0 == g[i][j].1);
}

/// A settled field with no live cell stays without one, whichever cells a
/// step judges.
pub proof fn lemma_dead_field_stays_dead(g: Seq<Seq<Cell>>, cells: Seq<Index>)
    requires
        rectangular(g),
        settled(g),
        forall|i: int, j: int| 0 <= i < g.len() && 0 <= j < g[i].len() ==> #[trigger] g[i][j].0 == 0,
    ensures
        forall|i: int, j: int|
            0 <= i < g.len() && 0 <= j < g[i].len() ==> #[trigger] stepped(g, cells)[i][j] == (0usize, 0usize),
{
    assert forall|i: int, j: int| 0 <= i < g.len() && 0 <= j < g[i].len() implies #[trigger] stepped(g, cells)[i][j] == (0usize, 0usize) by {
        assert(g[i][j].0 == g[i][j].1);
        if names(cells, i, j) {
            reveal(live_neighbours);
            let h = g.len() as int;
            let w = g[0].len() as int;
            assert(g[i].len() == w);
            lemma_wrap(i, h);
            lemma_wrap(j, w);
            assert(g[(i - 1) % h].len() == w);
            assert(g[(i + 1) % h].len() == w);
            assert(live_neighbours(g, i, j) == 0);
        }
    }
}

/// On a settled field, a cell judged for the first time is shown exactly
/// when it is alive in the current generation.
pub proof fn lemma_shown_is_current(g: Seq<Seq<Cell>>, cells: Seq<Index>, k: int)
    requires
        settled(g),
        on_field(g, cells),
        0 <= k < cells.len(),
        !names(cells.take(k), cells[k].0.0 as int, cells[k].0.1 as int),
        g.len() > 0,
        rectangular(g),
    ensures
        shown_at(g, cells, k) == (g[cells[k].0.0 as int][cells[k].0.1 as int].0 > 0),
{
    let i = cells[k].0.0 as int;
    let j = cells[k].0.1 as int;
    assert(g[i].len() == g[0].len());
    assert(g[i][j].0 == g[i][j].1);
}

/// The field moved `a` rows up and `b` columns left, what leaves at one
/// edge coming back at the opposite one.
pub open spec fn shifted(g: Seq<Seq<Cell>>, a: int, b: int) -> Seq<Seq<Cell>> {
    let h = g.len() as int;
    let w = g[0].len() as int;
    Seq::new(g.len(), |i: int| Seq::new(g[0].len(), |j: int| g[(i + a) % h][(j + b) % w]))
}

proof fn lemma_wrap_commutes(x: int, d: int, a: int, m: int)
    requires
        0 < m,
    ensures
        ((x + d) % m + a) % m == ((x + a) % m + d) % m,
        0 <= (x + d) % m < m,
{
    vstd::arithmetic::div_mod::lemma_add_mod_noop_right(a, x + d, m);
    vstd::arithmetic::div_mod::lemma_add_mod_noop_right(d, x + a, m);
    assert(a + (x + d) == d + (x + a));
    assert((x + d) % m + a == a + (x + d) % m);
    assert((x + a) % m + d == d + (x + a) % m);
    vstd::arithmetic::div_mod::lemma_mod_bound(x + d, m);
}

proof fn lemma_shifted_neighbours(g: Seq<Seq<Cell>>, a: int, b: int, i: int, j: int)
    requires
        g.len() > 0,
        rectangular(g),
        0 <= i < g.len(),
        0 <= j < g[0].len(),
    ensures
        live_neighbours(shifted(g, a, b), i, j) == live_neighbours(
            g,
            (i + a) % (g.len() as int),
            (j + b) % (g[0].len() as int),
        ),
{
    reveal(live_neighbours);
    let h = g.len() as int;
    let w = g[0].len() as int;
    let s = shifted(g, a, b);
    let i2 = (i + a) % h;
    let j2 = (j + b) % w;
    vstd::arithmetic::div_mod::lemma_mod_bound(i + a, h);
    vstd::arithmetic::div_mod::lemma_mod_bound(j + b, w);
    lemma_wrap_commutes(i, -1, a, h);
    lemma_wrap_commutes(i, 1, a, h);
    lemma_wrap_commutes(i, 0, a, h);
    lemma_wrap_commutes(j, -1, b, w);
    lemma_wrap_commutes(j, 1, b, w);
    lemma_wrap_commutes(j, 0, b, w);
    vstd::arithmetic::div_mod::lemma_small_mod(i as nat, h as nat);
    vstd::arithmetic::div_mod::lemma_small_mod(j as nat, w as nat);
    vstd::arithmetic::div_mod::lemma_small_mod(i2 as nat, h as nat);
    vstd::arithmetic::div_mod::lemma_small_mod(j2 as nat, w as nat);
    assert(s.len() == h);
    assert(s[0].len() == w);
    assert(i - 1 == i + -1);
    assert(j - 1 == j + -1);
    assert(i2 - 1 == i2 + -1);
    assert(j2 - 1 == j2 + -1);
    assert((i + 0) % h == i);
    assert((j + 0) % w == j);
    assert((i2 + 0) % h == i2);
    assert((j2 + 0) % w == j2);
    assert(((i - 1) % h + a) % h == (i2 - 1) % h);
    assert(((i + 1) % h + a) % h == (i2 + 1) % h);
    assert(((j - 1) % w + b) % w == (j2 - 1) % w);
    assert(((j + 1) % w + b) % w == (j2 + 1) % w);
    assert(s[(i - 1) % h][(j - 1) % w] == g[(i2 - 1) % h][(j2 - 1) % w]);
    assert(s[(i - 1) % h][j] == g[(i2 - 1) % h][j2]);
    assert(s[(i - 1) % h][(j + 1) % w] == g[(i2 - 1) % h][(j2 + 1) % w]);
    assert(s[i][(j + 1) % w] == g[i2][(j2 + 1) % w]);
    assert(s[(i + 1) % h][(j + 1) % w] == g[(i2 + 1) % h][(j2 + 1) % w]);
    assert(s[(i + 1) % h][j] == g[(i2 + 1) % h][j2]);
    assert(s[(i + 1) % h][(j - 1) % w] == g[(i2 + 1) % h][(j2 - 1) % w]);
    assert(s[i][(j - 1) % w] == g[i2][(j2 - 1) % w]);
}

/// The torus has no edge: on a settled field, moving the field around and
/// then stepping it gives the same field as stepping it and then moving it
/// around, every cell being judged either way.
pub proof fn lemma_step_commutes_with_shift(
    g: Seq<Seq<Cell>>,
    a: int,
    b: int,
    cells: Seq<Index>,
    shifted_cells: Seq<Index>,
)
    requires
        g.len() > 0,
        rectangular(g),
        settled(g),
        covers(g, cells),
        covers(shifted(g, a, b), shifted_cells),
    ensures
        stepped(shifted(g, a, b), shifted_cells) == shifted(stepped(g, cells), a, b),
{
    let h = g.len() as int;
    let w = g[0].len() as int;
    let s = shifted(g, a, b);
    let left = stepped(s, shifted_cells);
    let right = shifted(stepped(g, cells), a, b);
    assert(stepped(g, cells)[0].len() == w);
    assert forall|i: int| 0 <= i < h implies #[trigger] left[i] =~= right[i] by {
        assert forall|j: int| 0 <= j < w implies left[i][j] == right[i][j] by {
            let i2 = (i + a) % h;
            let j2 = (j + b) % w;
            vstd::arithmetic::div_mod::lemma_mod_bound(i + a, h);
            vstd::arithmetic::div_mod::lemma_mod_bound(j + b, w);
            assert(g[i2].len() == w);
            assert(names(shifted_cells, i, j));
            assert(names(cells, i2, j2));
            assert(s[i][j] == g[i2][j2]);
            assert(g[i2][j2].0 == g[i2][j2].1);
            lemma_shifted_neighbours(g, a, b, i, j);
        }
    }
    assert(left =~= right);
}

/// The field after a step depends only on which positions were judged,
/// not on their order or on repetitions.
pub proof fn lemma_step_ignores_order(g: Seq<Seq<Cell>>, cells: Seq<Index>, others: Seq<Index>)
    requires
        forall|i: int, j: int|
            0 <= i < g.len() && 0 <= j < g[i].len() ==> (#[trigger] names(cells, i, j) <==> names(
                others,
                i,
                j,
            )),
    ensures
        stepped(g, cells) == stepped(g, others),
{
    assert forall|i: int| 0 <= i < g.len() implies #[trigger] stepped(g, cells)[i] =~= stepped(g, others)[i] by {
        assert forall|j: int| 0 <= j < g[i].len() implies stepped(g, cells)[i][j] == stepped(g, others)[i][j] by {
            assert(names(cells, i, j) == names(others, i, j));
        }
    }
    assert(stepped(g, cells) =~= stepped(g, others));
}

proof fn lemma_small_difference_mod(x: int, n: int)
    requires
        0 < n,
        -n < x < n,
    ensures
        x % n == if x >= 0 { x } else { x + n },
{
    if x >= 0 {
        vstd::arithmetic::div_mod::lemma_small_mod(x as nat, n as nat);
    } else {
        vstd::arithmetic::div_mod::lemma_mod_multiples_vanish(1, x, n);
        assert(n * 1 + x == x + n);
        vstd::arithmetic::div_mod::lemma_small_mod((x + n) as nat, n as nat);
    }
}

/// The neighbours of a cell are the eight cells around it on the torus: on
/// a field at least three by three with a single live cell at `(a, b)`, a
/// cell has one live neighbour exactly when it is another cell whose row and
/// column each differ from `a` and `b` by at most one, counting around the
/// edges, and none otherwise.
pub proof fn lemma_neighbours_of_a_single_cell(g: Seq<Seq<Cell>>, a: int, b: int, i: int, j: int)
    requires
        rectangular(g),
        g.len() >= 3,
        g[0].len() >= 3,
        0 <= a < g.len(),
        0 <= b < g[0].len(),
        0 <= i < g.len(),
        0 <= j < g[0].len(),
        forall|x: int, y: int|
            0 <= x < g.len() && 0 <= y < g[0].len() ==> (#[trigger] g[x][y].0 > 0 <==> (x == a && y == b)),
    ensures
        live_neighbours(g, i, j) == if (i != a || j != b) && ((i - a) % (g.len() as int) == 0 || (i - a) % (
        g.len() as int) == 1 || (i - a) % (g.len() as int) == g.len() - 1) && ((j - b) % (g[0].len() as int) == 0
            || (j - b) % (g[0].len() as int) == 1 || (j - b) % (g[0].len() as int) == g[0].len() - 1) {
            1int
        } else {
            0int
        },
{
    reveal(live_neighbours);
    let h = g.len() as int;
    let w = g[0].len() as int;
    lemma_wrap(i, h);
    lemma_wrap(j, w);
    lemma_small_difference_mod(i - a, h);
    lemma_small_difference_mod(j - b, w);
    let up = (i - 1) % h;
    let down = (i + 1) % h;
    let left = (j - 1) % w;
    let right = (j + 1) % w;
    assert(g[up].len() == w);
    assert(g[down].len() == w);
    assert(g[i].len() == w);
    assert(alive(g, up, left) == if up == a && left == b { 1int } else { 0int });
    assert(alive(g, up, j) == if up == a && j == b { 1int } else { 0int });
    assert(alive(g, up, right) == if up == a && right == b { 1int } else { 0int });
    assert(alive(g, i, right) == if i == a && right == b { 1int } else { 0int });
    assert(alive(g, down, right) == if down == a && right == b { 1int } else { 0int });
    assert(alive(g, down, j) == if down == a && j == b { 1int } else { 0int });
    assert(alive(g, down, left) == if down == a && left == b { 1int } else { 0int });
    assert(alive(g, i, left) == if i == a && left == b { 1int } else { 0int });
}

} // verus!
