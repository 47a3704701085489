use life_lecture::flow::{check_ready, GameEvent, GameState};
use life_lecture::menu::{interact_button, pattern_files, ButtonResponse, CurrentFileName, Interaction, LabelColor};
use life_lecture::walk::{
    all_seated, path_slot, run_step, walk_step, LecturerState, PathIndex, PathSlot, PeopleState, RunStep,
};

#[test]
fn phases() {
    assert_eq!(GameState::default(), GameState::Loading);
    assert_eq!(GameState::Loading.next(GameEvent::AllLoaded), Some(GameState::Setup));
    assert_eq!(GameState::Setup.next(GameEvent::PatternChosen), Some(GameState::Simulate));
    assert_eq!(GameState::Simulate.next(GameEvent::ExitPressed), Some(GameState::Setup));
    assert_eq!(GameState::Intro.next(GameEvent::LecturerSpeaks), Some(GameState::Setup));
    assert_eq!(GameState::Setup.next(GameEvent::ExitPressed), None);
    assert_eq!(GameState::Simulate.next(GameEvent::AllLoaded), None);
    assert_eq!(check_ready(0), Some(GameState::Setup));
    assert_eq!(check_ready(2), None);
}

#[test]
fn lecturer_walks_the_whole_path() {
    assert_eq!(LecturerState::default(), LecturerState::Load);
    let mut pi = PathIndex(0);
    assert_eq!(walk_step(&mut pi, 6, false), None);
    assert_eq!(pi.0, 0);
    for expected in 1..6 {
        assert_eq!(walk_step(&mut pi, 6, true), None);
        assert_eq!(pi.0, expected);
    }
    assert_eq!(walk_step(&mut pi, 6, true), Some(LecturerState::Speak));
    assert_eq!(pi.0, 5);
}

#[test]
fn people_run_to_their_seats() {
    assert_eq!(PeopleState::default(), PeopleState::Load);
    let mut path = vec!['a', 'b'];
    assert_eq!(run_step(&mut path, false), RunStep::Walking);
    assert_eq!(path, vec!['a', 'b']);
    assert_eq!(run_step(&mut path, true), RunStep::Reached);
    assert_eq!(path, vec!['b']);
    match run_step(&mut path, true) {
        RunStep::Finished(a) => assert!(a == 1 || a == 2),
        other => panic!("{:?}", other),
    }
    assert!(path.is_empty());
    assert_eq!(all_seated(0), Some(PeopleState::Idle));
    assert_eq!(all_seated(3), None);
}

#[test]
fn seats() {
    assert_eq!(path_slot(0), PathSlot { z: 50, left: true, column: 5 });
    assert_eq!(path_slot(13), PathSlot { z: 45, left: false, column: 8 });
    assert_eq!(path_slot(49), PathSlot { z: 30, left: false, column: 14 });
    let mut all: Vec<PathSlot> = (0..110).map(path_slot).collect();
    all.dedup();
    assert_eq!(all.len(), 110);
}

#[test]
fn menu_buttons() {
    let mut name = CurrentFileName::default();
    assert_eq!(name.0, "");
    let label = "glider.rle".to_string();
    assert_eq!(interact_button(Interaction::Hovered, &label, &mut name), ButtonResponse::Paint(LabelColor::Yellow));
    assert_eq!(name.0, "");
    assert_eq!(interact_button(Interaction::Untouched, &label, &mut name), ButtonResponse::Paint(LabelColor::Beige));
    assert_eq!(interact_button(Interaction::Pressed, &label, &mut name), ButtonResponse::Start(GameState::Simulate));
    assert_eq!(name.0, "glider.rle");
}

#[test]
fn menu_lists_rle_files() {
    let names = vec!["a.rle", "b.cells", "rle", ".rle", "c.RLE", "d.rle"].into_iter().map(String::from).collect();
    assert_eq!(pattern_files(names), vec!["a.rle", ".rle", "d.rle"]);
}

#[test]
fn both_seated_animations_occur() {
    let mut seen = [false; 3];
    for _ in 0..200 {
        let mut path = vec![0u8];
        match run_step(&mut path, true) {
            RunStep::Finished(a) => seen[a] = true,
            other => panic!("{:?}", other),
        }
    }
    assert!(!seen[0] && seen[1] && seen[2]);
}
