use banana_bot::board::{Anchor, Board};
use banana_bot::command::{parse_command, Command};
use banana_bot::corpus::Corpus;
use banana_bot::render::{get_word_coordinates, render_board};
use banana_bot::session::Session;

fn chars(s: &str) -> Vec<char> {
    s.chars().collect()
}

fn lines(words: &[&str]) -> Vec<Vec<char>> {
    words.iter().map(|w| chars(w)).collect()
}

fn rows(grid: &Vec<Vec<char>>) -> Vec<String> {
    grid.iter().map(|r| r.iter().collect()).collect()
}

#[test]
fn coordinates_of_horizontal_and_vertical_words() {
    let h = get_word_coordinates(&chars("cat"), 2, 3, false, 1, -1);
    assert_eq!(h, vec![(3, 2), (4, 2), (5, 2)]);
    let v = get_word_coordinates(&chars("dog"), -1, 0, true, 1, 1);
    assert_eq!(v, vec![(0, 1), (0, 2), (0, 3)]);
    assert!(get_word_coordinates(&chars(""), 0, 0, true, 0, 0).is_empty());
}

#[test]
fn grid_of_two_joined_words() {
    let b = Board {
        tiles: chars("helloworld"),
        remaining: Vec::new(),
        bottom_end: 'h',
        top_end: 'd',
        top_end_vert: false,
        bottom_end_vert: false,
        words: lines(&["hello", "world"]),
        word_positions: vec![
            Anchor { x: 0, y: 0, vertical: false },
            Anchor { x: 4, y: 1, vertical: false },
        ],
    };
    assert_eq!(rows(&render_board(&b)), vec!["hello    ", "    world"]);
}

#[test]
fn grid_of_vertical_word_at_negative_origin() {
    let b = Board {
        tiles: chars("ox"),
        remaining: Vec::new(),
        bottom_end: 'x',
        top_end: 'o',
        top_end_vert: true,
        bottom_end_vert: true,
        words: lines(&["ox"]),
        word_positions: vec![Anchor { x: -3, y: -2, vertical: true }],
    };
    assert_eq!(rows(&render_board(&b)), vec!["o", "x"]);
}

#[test]
fn grid_of_board_without_words_is_empty() {
    let b = Board {
        tiles: Vec::new(),
        remaining: Vec::new(),
        bottom_end: ' ',
        top_end: ' ',
        top_end_vert: false,
        bottom_end_vert: false,
        words: Vec::new(),
        word_positions: Vec::new(),
    };
    assert!(render_board(&b).is_empty());
}

#[test]
fn printing_rebases_boards_on_new_tiles() {
    let mut s = Session::new(Corpus::new(lines(&["cat"]), Vec::new()));
    s.add_letters(&chars("cat"));
    s.solve();
    s.add_letters(&chars("xy"));
    let grids = s.pretty_print_boards();
    assert_eq!(grids.len(), 1);
    assert_eq!(rows(&grids[0]), vec!["cat"]);
    let b = &s.boards[0];
    assert_eq!(b.tiles, chars("catxy"));
    assert_eq!(b.remaining, chars("xy"));
}

#[test]
fn commands_from_lines() {
    assert_eq!(parse_command(&chars("q")), Command::Quit);
    assert_eq!(parse_command(&chars("p")), Command::PrintLetters);
    assert_eq!(parse_command(&chars("r")), Command::ResetLetters);
    assert_eq!(parse_command(&chars("s")), Command::Solve);
    assert_eq!(parse_command(&chars("h")), Command::Help);
    assert_eq!(parse_command(&chars("b")), Command::ResetBoards);
    assert_eq!(parse_command(&chars("c")), Command::PrintBoards);
    assert_eq!(parse_command(&chars("x")), Command::AddLetters);
    assert_eq!(parse_command(&chars("qq")), Command::AddLetters);
}
