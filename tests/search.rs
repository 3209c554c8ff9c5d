use banana_bot::board::{Anchor, Board};
use banana_bot::corpus::Corpus;
use banana_bot::session::Session;

fn chars(s: &str) -> Vec<char> {
    s.chars().collect()
}

fn lines(words: &[&str]) -> Vec<Vec<char>> {
    words.iter().map(|w| chars(w)).collect()
}

fn text(w: &Vec<char>) -> String {
    w.iter().collect()
}

fn words_of(b: &Board) -> Vec<String> {
    b.words.iter().map(text).collect()
}

fn session(words: &[&str], junctions: &[&str], letters: &str) -> Session {
    let mut s = Session::new(Corpus::new(lines(words), lines(junctions)));
    s.add_letters(&chars(letters));
    s
}

fn board(tiles: &str, remaining: &str, words: &[&str], anchors: &[(i64, i64)]) -> Board {
    let ws = lines(words);
    Board {
        tiles: chars(tiles),
        remaining: chars(remaining),
        bottom_end: ws.first().map(|w| w[0]).unwrap_or(' '),
        top_end: ws.last().map(|w| w[w.len() - 1]).unwrap_or(' '),
        top_end_vert: false,
        bottom_end_vert: false,
        words: ws,
        word_positions: anchors.iter().map(|&(x, y)| Anchor { x, y, vertical: false }).collect(),
    }
}

fn tile_count(b: &Board) -> Vec<char> {
    let mut all: Vec<char> = b.words.iter().flatten().copied().collect();
    all.extend(b.remaining.iter().copied());
    all.sort();
    all
}

fn sorted(s: &str) -> Vec<char> {
    let mut v = chars(s);
    v.sort();
    v
}

#[test]
fn single_word_uses_every_tile() {
    let mut s = session(&["cat"], &[], "cat");
    s.solve();
    assert_eq!(s.boards.len(), 1);
    let b = &s.boards[0];
    assert_eq!(words_of(b), vec!["cat"]);
    assert_eq!(text(&b.remaining), "");
    assert_eq!(tile_count(b), sorted("cat"));
    assert_eq!(b.word_positions, vec![Anchor { x: 0, y: 0, vertical: false }]);
}

#[test]
fn dead_end_keeps_single_word_chains() {
    let mut s = session(&["cat", "dog"], &["at"], "catdog");
    s.solve();
    assert!(!s.boards.is_empty());
    for b in &s.boards {
        assert_eq!(b.words.len(), 1);
        assert_eq!(tile_count(b), sorted("catdog"));
    }
    let cat = s.boards.iter().find(|b| words_of(b) == vec!["cat"]).unwrap();
    assert_eq!(text(&cat.remaining), "dog");
    let dog = s.boards.iter().find(|b| words_of(b) == vec!["dog"]).unwrap();
    assert_eq!(text(&dog.remaining), "cat");
}

#[test]
fn junction_joins_two_words() {
    let mut s = session(&["hello", "world"], &["ow"], "helloworld");
    s.solve();
    assert_eq!(s.boards.len(), 1);
    let b = &s.boards[0];
    assert_eq!(words_of(b), vec!["hello", "world"]);
    assert_eq!(text(&b.remaining), "");
    assert_eq!(
        b.word_positions,
        vec![Anchor { x: 0, y: 0, vertical: false }, Anchor { x: 4, y: 1, vertical: false }]
    );
    assert_eq!(b.bottom_end, 'h');
    assert_eq!(b.top_end, 'd');
}

#[test]
fn join_at_the_bottom_end() {
    let mut s = session(&["hello", "world"], &["ow"], "helloworld");
    let start = board("helloworld", "hello", &["world"], &[(0, 0)]);
    s.construct(&start, 7);
    assert_eq!(s.boards.len(), 1);
    let b = &s.boards[0];
    assert_eq!(words_of(b), vec!["hello", "world"]);
    assert_eq!(
        b.word_positions,
        vec![Anchor { x: -4, y: -1, vertical: false }, Anchor { x: 0, y: 0, vertical: false }]
    );
    assert_eq!(b.bottom_end, 'h');
}

#[test]
fn stale_board_is_dropped() {
    let mut s = session(&["cat"], &[], "cats");
    let start = board("cat", "cat", &[], &[]);
    s.construct(&start, 7);
    assert!(s.boards.is_empty());
}

#[test]
fn empty_tiles_give_one_empty_board() {
    let mut s = session(&["cat"], &[], "");
    s.solve();
    assert_eq!(s.boards.len(), 1);
    assert!(s.boards[0].words.is_empty());
}

#[test]
fn duplicates_compared_in_order() {
    let mut s = session(&["cat", "dog"], &[], "catdog");
    s.boards.push(board("catdog", "", &["cat", "dog"], &[(0, 0), (2, 1)]));
    s.boards.push(board("catdog", "", &["cat", "dog"], &[(0, 0), (2, -1)]));
    s.boards.push(board("catdog", "", &["dog", "cat"], &[(0, 0), (2, 1)]));
    s.remove_duplicates();
    assert_eq!(s.boards.len(), 2);
    assert_eq!(words_of(&s.boards[0]), vec!["cat", "dog"]);
    assert_eq!(s.boards[0].word_positions[1], Anchor { x: 2, y: 1, vertical: false });
    assert_eq!(words_of(&s.boards[1]), vec!["dog", "cat"]);
}

#[test]
fn purge_drops_boards_on_fewer_tiles() {
    let mut s = session(&["cat"], &[], "ca");
    s.boards.push(board("ca", "ca", &[], &[]));
    s.add_letters(&chars("t"));
    s.boards.push(board("cat", "", &["cat"], &[(0, 0)]));
    s.purge_old_boards();
    assert_eq!(s.boards.len(), 1);
    assert_eq!(s.boards[0].tiles.len(), s.get_master_letters().len());
}

#[test]
fn sort_puts_most_leftover_first_and_is_stable() {
    let mut s = session(&[], &[], "abcd");
    s.boards.push(board("abcd", "a", &["bcd"], &[(0, 0)]));
    s.boards.push(board("abcd", "abc", &["d"], &[(0, 0)]));
    s.boards.push(board("abcd", "b", &["acd"], &[(0, 0)]));
    s.boards.push(board("abcd", "ab", &["cd"], &[(0, 0)]));
    s.sort_boards();
    let rem: Vec<String> = s.boards.iter().map(|b| text(&b.remaining)).collect();
    assert_eq!(rem, vec!["abc", "ab", "a", "b"]);
}

#[test]
fn sort_truncates_and_is_idempotent() {
    let mut s = session(&[], &[], "abcdefghijklmnopqrst");
    for i in 0..20usize {
        let rem: String = "abcdefghijklmnopqrst"[..i].to_string();
        s.boards.push(board("abcdefghijklmnopqrst", &rem, &[], &[]));
    }
    s.sort_boards();
    assert_eq!(s.boards.len(), 15);
    assert_eq!(s.boards[0].remaining.len(), 19);
    assert_eq!(s.boards[14].remaining.len(), 5);
    let once: Vec<String> = s.boards.iter().map(|b| text(&b.remaining)).collect();
    s.sort_boards();
    let twice: Vec<String> = s.boards.iter().map(|b| text(&b.remaining)).collect();
    assert_eq!(once, twice);
}

#[test]
fn added_tiles_extend_existing_boards() {
    let mut s = session(&["hello", "world"], &["ow"], "hello");
    s.solve();
    assert_eq!(s.boards.len(), 1);
    assert_eq!(words_of(&s.boards[0]), vec!["hello"]);
    s.add_letters(&chars("world"));
    s.solve();
    assert!(s.boards.iter().all(|b| b.tiles.len() == 10));
    assert!(s.boards.iter().any(|b| words_of(b) == vec!["hello", "world"]));
    for b in &s.boards {
        assert_eq!(tile_count(b), sorted("helloworld"));
    }
}

#[test]
fn resets_clear_state() {
    let mut s = session(&["cat"], &[], "cat");
    s.solve();
    assert_eq!(s.boards.len(), 1);
    s.reset_boards();
    assert!(s.boards.is_empty());
    assert_eq!(text(&s.get_master_letters()), "cat");
    s.solve();
    s.reset_master_letters();
    assert!(s.boards.is_empty());
    assert!(s.get_master_letters().is_empty());
}
