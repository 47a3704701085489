use vstd::prelude::*;

verus! {

/// The state of the lecturer.
#[derive(Clone, Copy, PartialEq, Eq, Structural, Debug, Hash)]
pub enum LecturerState {
    Load,
    Walk,
    Speak,
}

impl Default for LecturerState {
    fn default() -> (s: LecturerState)
        ensures
            s == LecturerState::Load,
    {
        LecturerState::Load
    }
}

/// The state of the audience.
#[derive(Clone, Copy, PartialEq, Eq, Structural, Debug, Hash)]
pub enum PeopleState {
    Load,
    Run,
    Idle,
}

impl Default for PeopleState {
    fn default() -> (s: PeopleState)
        ensures
            s == PeopleState::Load,
    {
        PeopleState::Load
    }
}

/// The waypoint that a walker heads for.
pub struct PathIndex(pub usize);

/// The waypoint after `index` on a path of `len` waypoints once the
/// current one is reached, and whether the walk is then over.
pub open spec fn walk_next(index: nat, len: nat, arrived: bool) -> (nat, bool) {
    if !arrived {
        (index, false)
    } else if index + 1 < len {
        (index + 1, false)
    } else {
        (index, true)
    }
}

/// One frame of the lecturer's walk along a path of `path_len` waypoints:
/// when the current waypoint is reached, head for the next one, and after
/// the last one start to speak.
pub fn walk_step(pi: &mut PathIndex, path_len: usize, arrived: bool) -> (next: Option<LecturerState>)
    requires
        old(pi).0 < path_len,
    ensures
        (final(pi).0 as nat, next == Some(LecturerState::Speak)) == walk_next(
            old(pi).0 as nat,
            path_len as nat,
            arrived,
        ),
        next is Some ==> next == Some(LecturerState::Speak),
        final(pi).0 < path_len,
{
    if arrived {
        if pi.0 < path_len - 1 {
            pi.0 = pi.0 + 1;
            None
        } else {
            Some(LecturerState::Speak)
        }
    } else {
        None
    }
}

/// Where the walk stands after `n` waypoints have been reached from the
/// first one.
pub open spec fn walk_after(len: nat, n: nat) -> (nat, bool)
    decreases n,
{
    if n == 0 {
        (0, false)
    } else {
        let (i, done) = walk_after(len, (n - 1) as nat);
        if done {
            (i, true)
        } else {
            walk_next(i, len, true)
        }
    }
}

/// Starting at the first of `len` waypoints and reaching one after the
/// other, the walk heads for waypoint `n` after `n` arrivals while `n` is
/// below `len`, and it is over exactly after the `len`-th arrival.
pub proof fn lemma_walk_visits_every_waypoint(len: nat, n: nat)
    requires
        len > 0,
        n <= len,
    ensures
        n < len ==> walk_after(len, n) == (n, false),
        n == len ==> walk_after(len, n) == ((len - 1) as nat, true),
    decreases n,
{
    if n > 0 {
        lemma_walk_visits_every_waypoint(len, (n - 1) as nat);
    }
}

/// Draws an integer in `low..high` with `fastrand::usize` and the
/// thread-local generator. `fastrand::usize` returns a value at least `low`
/// and below `high`, and panics on an empty range, which `requires` rules
/// out. Which integer comes out is left open.
#[verifier::external_body]
fn random_usize(low: usize, high: usize) -> (r: usize)
    requires
        low < high,
    ensures
        low <= r < high,
{
    fastrand::usize(low..high)
}

/// What a running person does in one frame.
#[derive(Clone, Copy, PartialEq, Eq, Structural, Debug)]
pub enum RunStep {
    /// Keep moving towards the next waypoint.
    Walking,
    /// The waypoint was reached and dropped; more remain.
    Reached,
    /// The last waypoint was reached: stop running, turn around and play
    /// the animation with this index.
    Finished(usize),
}

/// One frame of a person running along `path`: when the next waypoint is
/// reached it is dropped, and once none is left the person stops and picks
/// one of the animations 1 and 2.
pub fn run_step<T>(path: &mut Vec<T>, arrived: bool) -> (step: RunStep)
    requires
        old(path)@.len() > 0,
    ensures
        !arrived ==> final(path)@ == old(path)@ && step == RunStep::Walking,
        arrived ==> final(path)@ == old(path)@.drop_first(),
        arrived && old(path)@.len() > 1 ==> step == RunStep::Reached,
        arrived && old(path)@.len() == 1 ==> (step matches RunStep::Finished(a) && 1 <= a < 3),
{
    if !arrived {
        return RunStep::Walking;
    }
    path.remove(0);
    assert(old(path)@.remove(0) =~= old(path)@.drop_first());
    if path.len() == 0 {
        RunStep::Finished(random_usize(1, 3))
    } else {
        RunStep::Reached
    }
}

/// Once nobody runs any more, the audience is idle.
pub fn all_seated(running: usize) -> (r: Option<PeopleState>)
    ensures
        r == (if running == 0 { Some(PeopleState::Idle) } else { None }),
{
    if running == 0 {
        Some(PeopleState::Idle)
    } else {
        None
    }
}

/// Where the path of a person goes: the depth of the row and the column
/// of the seat, counted from the aisle, and the side of the aisle.
#[derive(Clone, Copy, PartialEq, Eq, Structural, Debug)]
pub struct PathSlot {
    pub z: usize,
    pub left: bool,
    pub column: usize,
}

/// The seat of person `idx`: ten to a row, rows five apart starting at
/// depth 50, even numbers to the left of the aisle, columns from 5 on.
pub open spec fn slot_of(idx: nat) -> PathSlot {
    let row = idx / 10;
    PathSlot {
        z: (50 - row * 5) as usize,
        left: idx % 2 == 0,
        column: (5 + idx - row * 10) as usize,
    }
}

/// The seat of person `idx`, as `slot_of` states it. Beyond 109 people the
/// rows would run past the front.
pub fn path_slot(idx: usize) -> (s: PathSlot)
    requires
        idx < 110,
    ensures
        s == slot_of(idx as nat),
        s.z == 50 - 5 * (idx / 10),
        s.left == (idx % 2 == 0),
        s.column == 5 + idx % 10,
{
    let row = idx / 10;
    PathSlot { z: 50 - row * 5, left: idx % 2 == 0, column: 5 + idx - row * 10 }
}

/// No two of the first 110 people get the same seat.
pub proof fn lemma_seats_differ(a: nat, b: nat)
    requires
        a < 110,
        b < 110,
        a != b,
    ensures
        slot_of(a) != slot_of(b),
{
    if slot_of(a) == slot_of(b) {
        assert((50 - (a / 10) * 5) as usize == (50 - (b / 10) * 5) as usize);
        assert(a / 10 == b / 10);
        assert(a % 10 == b % 10);
        assert(a == (a / 10) * 10 + a % 10);
        assert(b == (b / 10) * 10 + b % 10);
    }
}

/// Until the current waypoint is reached the lecturer neither moves on
/// to the next one nor ends the walk; the walk ends only on arrival at the
/// last waypoint, and each other arrival moves on by exactly one.
pub proof fn lemma_walk_moves_on_only_on_arrival(i: nat, len: nat, arrived: bool)
    requires
        i < len,
    ensures
        walk_next(i, len, false) == (i, false),
        walk_next(i, len, arrived).1 ==> arrived && i + 1 == len,
        arrived && i + 1 < len ==> walk_next(i, len, arrived) == (i + 1, false),
        arrived && i + 1 == len ==> walk_next(i, len, arrived) == (i, true),
{
}

} // verus!
