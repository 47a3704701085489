use life_lecture::field::FIELD_DIM;
use life_lecture::life::Generation;
use life_lecture::pattern::{decode_rle, parse_hr, parse_rle};
use life_lecture::rle::{expand_runs, header_numbers};
use life_lecture::text::{chars_of, split_lines};

fn chars(s: &str) -> Vec<char> {
    s.chars().collect()
}

fn lines_of(s: &str) -> Vec<String> {
    split_lines(&chars(s)).into_iter().map(|l| l.into_iter().collect()).collect()
}

#[test]
fn chars_of_keeps_every_character() {
    assert_eq!(chars_of("añb"), vec!['a', 'ñ', 'b']);
    assert_eq!(chars_of(""), Vec::<char>::new());
}

#[test]
fn lines_split_like_str_lines() {
    assert_eq!(lines_of("a\r\nb\n\nc\r"), vec!["a", "b", "", "c\r"]);
    assert_eq!(lines_of("one\n"), vec!["one"]);
    assert_eq!(lines_of("\n"), vec![""]);
    assert_eq!(lines_of(""), Vec::<String>::new());
    let text = "x\r\n\r\ny\nz";
    assert_eq!(lines_of(text), text.lines().collect::<Vec<_>>());
}

#[test]
fn plain_pattern_rows() {
    let p = parse_hr("!Name: test\n.O.\n..O\n!note\nOOO\n".to_string());
    assert_eq!(
        p,
        vec![
            vec![(0, 0), (1, 1), (0, 0)],
            vec![(0, 0), (0, 0), (1, 1)],
            vec![(1, 1), (1, 1), (1, 1)],
        ]
    );
}

#[test]
fn plain_pattern_keeps_ragged_and_empty_lines() {
    let p = parse_hr("O\n\n.x.O".to_string());
    assert_eq!(p, vec![vec![(1, 1)], vec![], vec![(0, 0), (1, 1), (0, 0), (1, 1)]]);
    assert_eq!(parse_hr(String::new()), Vec::<Vec<(usize, usize)>>::new());
}

#[test]
fn header_numbers_are_the_digit_runs() {
    assert_eq!(header_numbers(&chars("x = 3, y = 12, rule = B3/S23")), Some(vec![3, 12, 3, 23]));
    assert_eq!(header_numbers(&chars("no numbers")), Some(vec![]));
    assert_eq!(header_numbers(&chars("007x")), Some(vec![7]));
    assert_eq!(header_numbers(&chars("x = 99999999999999999999999, y = 1")), None);
}

#[test]
fn runs_expand() {
    let e = |s: &str| expand_runs(&chars(s)).map(|v| v.into_iter().collect::<String>());
    assert_eq!(e("3b2o$o"), Some("bbboo$o".to_string()));
    assert_eq!(e("2$bo"), Some("$$bo".to_string()));
    assert_eq!(e("0bo"), Some("o".to_string()));
    // a lone digit with no tag after it stays as it is
    assert_eq!(e("5 b"), Some("5 b".to_string()));
    // a longer run with no tag after it lends its last digit as the tag
    assert_eq!(e("123 "), Some("333333333333 ".to_string()));
    assert_eq!(e("99999999999999999999999b"), None);
}

#[test]
fn rle_glider() {
    let text = "#N Glider\n#C a comment\nx = 3, y = 3, rule = B3/S23\nbo$2bo$3o!\n";
    let p = parse_rle(text.to_string());
    assert_eq!(
        p,
        vec![
            vec![(0, 0), (1, 1), (0, 0)],
            vec![(0, 0), (0, 0), (1, 1)],
            vec![(1, 1), (1, 1), (1, 1)],
        ]
    );
}

#[test]
fn rle_lines_join_and_rows_may_be_short() {
    let text = "x = 4, y = 2\n2o\nb$o!";
    assert_eq!(
        decode_rle(text),
        Some(vec![vec![(1, 1), (1, 1), (0, 0), (0, 0)], vec![(1, 1), (0, 0), (0, 0), (0, 0)]])
    );
}

#[test]
fn rle_that_cannot_be_read() {
    // no header
    assert_eq!(decode_rle(""), None);
    assert_eq!(decode_rle("#only a comment\n"), None);
    // one number in the header
    assert_eq!(decode_rle("x = 3\nooo!"), None);
    // a cell beyond the width
    assert_eq!(decode_rle("x = 2, y = 1\nooo!"), None);
    // a cell beyond the height
    assert_eq!(decode_rle("x = 1, y = 1\no$o!"), None);
    // a count that does not fit
    assert_eq!(decode_rle("x = 1, y = 1\n99999999999999999999999b!"), None);
    // extra rows with no cell are fine
    assert!(decode_rle("x = 1, y = 1\no$$$!").is_some());
}

#[test]
fn rle_glider_lands_in_the_middle() {
    let text = "x = 3, y = 3\nbo$2bo$3o!";
    let g = Generation::try_from_pattern_file("glider.rle", text).unwrap();
    assert_eq!(g.state.len(), FIELD_DIM);
    let live: Vec<(usize, usize)> = (0..FIELD_DIM)
        .flat_map(|i| (0..FIELD_DIM).map(move |j| (i, j)))
        .filter(|&(i, j)| g.state[i][j].0 > 0)
        .collect();
    assert_eq!(live, vec![(49, 50), (50, 51), (51, 49), (51, 50), (51, 51)]);
    assert!(g.state.iter().all(|r| r.len() == FIELD_DIM && r.iter().all(|c| c.0 == c.1)));
}

#[test]
fn plain_file_lands_in_the_middle() {
    let g = Generation::from_pattern_file("block.cells", "OO\nOO\n");
    let live: Vec<(usize, usize)> = (0..FIELD_DIM)
        .flat_map(|i| (0..FIELD_DIM).map(move |j| (i, j)))
        .filter(|&(i, j)| g.state[i][j].0 > 0)
        .collect();
    assert_eq!(live, vec![(49, 49), (49, 50), (50, 49), (50, 50)]);
}

#[test]
fn empty_or_big_files_give_a_dead_field() {
    for g in [
        Generation::from_pattern_file("x.rle", ""),
        Generation::from_pattern_file("big.cells", &"O".repeat(100)),
    ] {
        assert_eq!(g.state.len(), FIELD_DIM);
        assert!(g.state.iter().all(|r| r.len() == FIELD_DIM && r.iter().all(|c| *c == (0, 0))));
    }
}

#[test]
fn files_that_cannot_be_loaded() {
    // only comment lines: no row
    assert!(Generation::try_from_pattern_file("a.cells", "!x\n").is_none());
    // a later row that runs past the right edge
    let text = format!("O\n{}", "O".repeat(60));
    assert!(Generation::try_from_pattern_file("a.cells", &text).is_none());
    // an unreadable run-length file
    assert!(Generation::try_from_pattern_file("a.rle", "x = 1\no!").is_none());
    // the same text under another name is read as plain text
    assert!(Generation::try_from_pattern_file("a.txt", "x = 1\no!").is_some());
}

#[test]
fn counts_take_unicode_word_characters_as_tags() {
    let e = |s: &str| expand_runs(&chars(s)).map(|v| v.into_iter().collect::<String>());
    assert_eq!(e("3é"), Some("ééé".to_string()));
    assert_eq!(e("2ж$"), Some("жж$".to_string()));
    // an arrow is no word character: the lone digit stays
    assert_eq!(e("3→"), Some("3→".to_string()));
    // a count in other decimal digits does not parse
    assert_eq!(e("٣o"), None);
    assert_eq!(e("1٣o"), None);
}

#[test]
fn rle_with_non_ascii_tags() {
    assert_eq!(decode_rle("x = 3, y = 1\n3é!"), Some(vec![vec![(1, 1), (1, 1), (1, 1)]]));
    // three cells do not fit in a width of two
    assert_eq!(decode_rle("x = 2, y = 1\n3é!"), None);
    // zero copies of the letter: a dead cell
    assert_eq!(decode_rle("x = 1, y = 1\n0é!"), Some(vec![vec![(0, 0)]]));
    // other decimal digits in a count or in the header do not parse
    assert_eq!(decode_rle("x = 3, y = 1\n٣o!"), None);
    assert_eq!(decode_rle("x = ٣, y = 1\no!"), None);
    assert_eq!(header_numbers(&chars("x = ٣, y = 1")), None);
    let g = Generation::try_from_pattern_file("row.rle", "x = 3, y = 1\n3é!").unwrap();
    assert_eq!(&g.state[50][49..52], &[(1, 1), (1, 1), (1, 1)]);
}

#[test]
fn comment_lines_are_ignored_anywhere() {
    let plain = "x = 3, y = 2\nbo$\n3o!\n";
    let commented = "#C top\nx = 3, y = 2\n#C middle\nbo$\n#C late\n3o!\n#C end\n";
    assert_eq!(decode_rle(plain), decode_rle(commented));
    assert!(decode_rle(plain).is_some());
}

#[test]
fn plain_rows_join_at_a_line_feed() {
    let a = ".O\n!c\nOO";
    let b = "O.\n..";
    let mut joined = parse_hr(a.to_string());
    joined.extend(parse_hr(b.to_string()));
    assert_eq!(parse_hr(format!("{}\n{}", a, b)), joined);
}
