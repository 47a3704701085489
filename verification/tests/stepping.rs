use life_lecture::life::{calc_generation, Generation, Index};

fn field(rows: &[&str]) -> Generation {
    Generation {
        state: rows
            .iter()
            .map(|r| r.chars().map(|c| if c == 'O' { (1, 1) } else { (0, 0) }).collect())
            .collect(),
    }
}

fn picture(g: &Generation) -> Vec<String> {
    g.state.iter().map(|r| r.iter().map(|c| if c.0 > 0 { 'O' } else { '.' }).collect()).collect()
}

fn every_cell(g: &Generation) -> Vec<Index> {
    let mut v = Vec::new();
    for i in 0..g.state.len() {
        for j in 0..g.state[i].len() {
            v.push(Index((i, j)));
        }
    }
    v
}

fn step(g: &mut Generation) -> Vec<bool> {
    let cells = every_cell(g);
    calc_generation(g, &cells)
}

#[test]
fn blinker_has_period_two() {
    let start = [".....", "..O..", "..O..", "..O..", "....."];
    let mut g = field(&start);
    step(&mut g);
    assert_eq!(picture(&g), vec![".....", ".....", ".OOO.", ".....", "....."]);
    step(&mut g);
    assert_eq!(picture(&g), start.to_vec());
}

#[test]
fn block_is_still() {
    let start = ["....", ".OO.", ".OO.", "...."];
    let mut g = field(&start);
    step(&mut g);
    assert_eq!(picture(&g), start.to_vec());
}

#[test]
fn neighbours_wrap_around_the_edges() {
    // three live cells in the corners around (0, 0) across the edges
    let mut g = field(&["....O", ".....", ".....", ".....", "O...O"]);
    step(&mut g);
    assert_eq!(g.state[0][0], (1, 1));
    assert_eq!(picture(&g), vec!["O...O", ".....", ".....", ".....", "O...O"]);
}

#[test]
fn shown_cells_are_the_current_generation() {
    let mut g = field(&[".....", "..O..", "..O..", "..O..", "....."]);
    let shown = step(&mut g);
    let expected: Vec<bool> = (0..25).map(|k| k % 5 == 2 && (1..=3).contains(&(k / 5))).collect();
    assert_eq!(shown, expected);
}

#[test]
fn only_judged_cells_change() {
    let mut g = field(&[".....", "..O..", "..O..", "..O..", "....."]);
    // only the centre row is judged: (2, 1) and (2, 3) are born, the others stay
    let cells: Vec<Index> = (0..5).map(|j| Index((2, j))).collect();
    let shown = calc_generation(&mut g, &cells);
    assert_eq!(shown, vec![false, false, true, false, false]);
    assert_eq!(picture(&g), vec![".....", "..O..", ".OOO.", "..O..", "....."]);
}

#[test]
fn a_cell_judged_twice_shows_its_pending_state() {
    let mut g = field(&["...", "OOO", "..."]);
    let cells = vec![Index((0, 1)), Index((0, 1))];
    let shown = calc_generation(&mut g, &cells);
    assert_eq!(shown, vec![false, true]);
    assert_eq!(g.state[0][1], (1, 1));
}

#[test]
fn pending_states_settle() {
    let mut g = Generation { state: vec![vec![(0, 7), (3, 0)]] };
    let shown = calc_generation(&mut g, &vec![]);
    assert!(shown.is_empty());
    assert_eq!(g.state, vec![vec![(7, 7), (0, 0)]]);
}

#[test]
fn a_single_cell_is_its_own_neighbour() {
    // on a 1 by 1 torus all eight neighbours are the cell itself
    let mut g = field(&["O"]);
    step(&mut g);
    assert_eq!(g.state, vec![vec![(0, 0)]]);
}

#[test]
fn an_empty_field_is_left_alone() {
    let mut g = Generation { state: vec![] };
    let shown = calc_generation(&mut g, &vec![Index((3, 4))]);
    assert!(shown.is_empty());
    assert!(g.state.is_empty());
}

#[test]
fn a_dead_field_stays_dead() {
    let mut g = field(&["....", "....", "...."]);
    step(&mut g);
    assert_eq!(picture(&g), vec!["....", "....", "...."]);
}

fn shift(g: &Generation, a: usize, b: usize) -> Generation {
    let h = g.state.len();
    let w = g.state[0].len();
    Generation {
        state: (0..h).map(|i| (0..w).map(|j| g.state[(i + a) % h][(j + b) % w]).collect()).collect(),
    }
}

#[test]
fn stepping_commutes_with_moving_around_the_torus() {
    let start = field(&["......", ".O....", "..O...", "OOO...", "......"]);
    for (a, b) in [(0, 0), (2, 3), (4, 5), (1, 0)] {
        let mut moved_then_stepped = shift(&start, a, b);
        step(&mut moved_then_stepped);
        let mut stepped = field(&["......", ".O....", "..O...", "OOO...", "......"]);
        step(&mut stepped);
        let stepped_then_moved = shift(&stepped, a, b);
        assert_eq!(moved_then_stepped.state, stepped_then_moved.state);
    }
}

#[test]
fn glider_travels_across_the_edge() {
    // after four generations a glider is the same shape one row down and one column right
    let mut g = field(&[".O...", "..O..", "OOO..", ".....", "....."]);
    for _ in 0..4 {
        step(&mut g);
    }
    assert_eq!(picture(&g), vec![".....", "..O..", "...O.", ".OOO.", "....."]);
    for _ in 0..8 {
        step(&mut g);
    }
    assert_eq!(picture(&g), vec!["O..OO", ".....", ".....", "....O", "O...."]);
}

#[test]
fn the_order_of_the_cells_does_not_matter() {
    let rows = ["......", ".O....", "..O...", "OOO...", "......"];
    let mut forward = field(&rows);
    let cells = every_cell(&forward);
    calc_generation(&mut forward, &cells);
    let mut backward = field(&rows);
    let mut reversed = every_cell(&backward);
    reversed.reverse();
    reversed.push(Index((0, 0)));
    calc_generation(&mut backward, &reversed);
    assert_eq!(forward.state, backward.state);
}
