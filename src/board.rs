//! Boards: chains of parallel words linked end to end by two-letter
//! junction words, with the grid placement of each word.
use crate::corpus::texts;
use crate::tiles::{bag, fits};
use vstd::multiset::Multiset;
use vstd::prelude::*;

verus! {

broadcast use vstd::seq_lib::group_to_multiset_ensures, vstd::multiset::group_multiset_axioms,
    vstd::multiset::group_multiset_properties;

/// The most tiles a board may hold, so that every grid coordinate, and the
/// width and height of its grid, fit in the integer types used.
pub const MAX_TILES: usize = 700000000;

/// Where a word's first letter sits on the grid, and which way it is written
/// (down when `vertical`, to the right otherwise).
#[derive(Clone, Copy, PartialEq, Eq, Debug, Structural)]
pub struct Anchor {
    pub x: i64,
    pub y: i64,
    pub vertical: bool,
}

/// A partial or finished layout.
pub struct Board {
    /// The tiles the board was built against.
    pub tiles: Vec<char>,
    /// The tiles not yet placed in a word.
    pub remaining: Vec<char>,
    /// The letter exposed at the bottom end of the chain.
    pub bottom_end: char,
    /// The letter exposed at the top end of the chain.
    pub top_end: char,
    /// Whether the word at the top end is vertical.
    pub top_end_vert: bool,
    /// Whether the word at the bottom end is vertical.
    pub bottom_end_vert: bool,
    /// The placed words, from the bottom end to the top end.
    pub words: Vec<Vec<char>>,
    /// The placement of each word, index for index.
    pub word_positions: Vec<Anchor>,
}

/// A board as values: its tiles and words as letter sequences.
pub struct BoardView {
    pub tiles: Seq<char>,
    pub remaining: Seq<char>,
    pub bottom_end: char,
    pub top_end: char,
    pub top_end_vert: bool,
    pub bottom_end_vert: bool,
    pub words: Seq<Seq<char>>,
    pub anchors: Seq<Anchor>,
}

impl View for Board {
    type V = BoardView;

    open spec fn view(&self) -> BoardView {
        BoardView {
            tiles: self.tiles@,
            remaining: self.remaining@,
            bottom_end: self.bottom_end,
            top_end: self.top_end,
            top_end_vert: self.top_end_vert,
            bottom_end_vert: self.bottom_end_vert,
            words: texts(self.words@),
            anchors: self.word_positions@,
        }
    }
}

/// All letters of a chain of words, with multiplicity.
pub open spec fn letters(words: Seq<Seq<char>>) -> Multiset<char>
    decreases words.len(),
{
    if words.len() == 0 {
        Multiset::empty()
    } else {
        letters(words.drop_last()).add(bag(words.last()))
    }
}

pub proof fn lemma_letters_push(words: Seq<Seq<char>>, w: Seq<char>)
    ensures
        letters(words.push(w)) == letters(words).add(bag(w)),
{
    assert(words.push(w).drop_last() =~= words);
}

pub proof fn lemma_letters_prepend(words: Seq<Seq<char>>, w: Seq<char>)
    ensures
        letters(seq![w] + words) == letters(words).add(bag(w)),
    decreases words.len(),
{
    if words.len() == 0 {
        assert((seq![w] + words).drop_last() =~= words);
        assert(letters(words) =~= Multiset::empty());
        assert(letters(seq![w] + words) =~= letters(words).add(bag(w)));
    } else {
        assert((seq![w] + words).drop_last() =~= seq![w] + words.drop_last());
        lemma_letters_prepend(words.drop_last(), w);
        assert(letters(seq![w] + words) =~= letters(words).add(bag(w)));
    }
}

/// The letter a chain exposes at its bottom end: the first letter of a
/// horizontal bottom word, the last letter of a vertical one.
pub open spec fn bottom_char(words: Seq<Seq<char>>, vertical: bool) -> char {
    if vertical {
        words[0].last()
    } else {
        words[0][0]
    }
}

/// The letter a chain exposes at its top end: the last letter of a
/// horizontal top word, the first letter of a vertical one.
pub open spec fn top_char(words: Seq<Seq<char>>, vertical: bool) -> char {
    if vertical {
        words.last()[0]
    } else {
        words.last().last()
    }
}

/// The two-letter word read across the junction of words `i` and `i + 1`:
/// for horizontal words the last letter of word `i` and the first of word
/// `i + 1`, for vertical ones the first letter of word `i` and the last of
/// word `i + 1`; read top to bottom, or left to right.
pub open spec fn junction(v: BoardView, i: int) -> Seq<char> {
    if v.anchors[i].vertical {
        let a = v.words[i][0];
        let b = v.words[i + 1].last();
        if v.anchors[i + 1].x == v.anchors[i].x + 1 {
            seq![a, b]
        } else {
            seq![b, a]
        }
    } else {
        let a = v.words[i].last();
        let b = v.words[i + 1][0];
        if v.anchors[i + 1].y == v.anchors[i].y + 1 {
            seq![a, b]
        } else {
            seq![b, a]
        }
    }
}

/// Every junction of the chain is a word of `junctions`.
pub open spec fn linked(v: BoardView, junctions: Seq<Seq<char>>) -> bool {
    forall|i: int| 0 <= i < v.words.len() - 1 ==> junctions.contains(#[trigger] junction(v, i))
}

pub open spec fn abs(a: int) -> int {
    if a < 0 {
        -a
    } else {
        a
    }
}

/// Every word lies within a distance of the origin bounded by the tiles
/// placed so far.
pub open spec fn bounded(v: BoardView) -> bool {
    forall|i: int|
        0 <= i < v.words.len() ==> abs(#[trigger] v.anchors[i].x as int) + v.words[i].len() <= 3
            * letters(v.words).len() && abs(v.anchors[i].y as int) + v.words[i].len() <= 3
            * letters(v.words).len()
}

impl BoardView {
    /// The letters of the words and the remaining tiles make up the tiles.
    pub open spec fn conserves(self) -> bool {
        letters(self.words).add(bag(self.remaining)) == bag(self.tiles)
    }

    /// The exposed letters and orientations agree with the end words.
    pub open spec fn ends_agree(self) -> bool {
        if self.words.len() == 0 {
            !self.top_end_vert && !self.bottom_end_vert
        } else {
            &&& self.bottom_end == bottom_char(self.words, self.bottom_end_vert)
            &&& self.top_end == top_char(self.words, self.top_end_vert)
            &&& self.anchors[0].vertical == self.bottom_end_vert
            &&& self.anchors.last().vertical == self.top_end_vert
        }
    }

    /// Well-formed: one placement per word, no empty word, tiles conserved,
    /// the exposed letters matching the end words, and coordinates bounded.
    /// Neighbouring words are parallel: a word joined at an end takes that
    /// end's orientation, and the two-letter junction word runs across both.
    pub open spec fn wf(self) -> bool {
        &&& self.words.len() == self.anchors.len()
        &&& forall|i: int| 0 <= i < self.words.len() ==> #[trigger] self.words[i].len() > 0
        &&& forall|i: int|
            0 <= i < self.words.len() - 1 ==> #[trigger] self.anchors[i].vertical
                == self.anchors[i + 1].vertical
        &&& self.conserves()
        &&& self.ends_agree()
        &&& self.tiles.len() <= MAX_TILES
        &&& bounded(self)
    }

    /// `w` can be placed on this board, leaving `rest` of its remaining tiles.
    pub open spec fn placeable(self, w: Seq<char>, rest: Seq<char>) -> bool {
        &&& self.wf()
        &&& w.len() > 0
        &&& fits(w, self.remaining)
        &&& bag(rest) == bag(self.remaining).difference_with(bag(w))
    }

    /// This empty board with `w` as its only word, horizontal at the origin.
    pub open spec fn seeded(self, w: Seq<char>, rest: Seq<char>) -> BoardView {
        BoardView {
            tiles: self.tiles,
            remaining: rest,
            bottom_end: w[0],
            top_end: w.last(),
            top_end_vert: false,
            bottom_end_vert: false,
            words: seq![w],
            anchors: seq![Anchor { x: 0, y: 0, vertical: false }],
        }
    }

    /// This board with `w` joined to its top end.
    pub open spec fn top_extended(self, w: Seq<char>, rest: Seq<char>, end_first: bool) -> BoardView {
        BoardView {
            remaining: rest,
            top_end: top_char(self.words.push(w), self.top_end_vert),
            words: self.words.push(w),
            anchors: self.anchors.push(self.top_anchor(w, end_first)),
            ..self
        }
    }

    /// This board with `w` joined to its bottom end.
    pub open spec fn bottom_extended(self, w: Seq<char>, rest: Seq<char>, end_first: bool) -> BoardView {
        BoardView {
            remaining: rest,
            bottom_end: bottom_char(seq![w] + self.words, self.bottom_end_vert),
            words: seq![w] + self.words,
            anchors: seq![self.bottom_anchor(w, end_first)] + self.anchors,
            ..self
        }
    }

    /// The two-letter word formed where `w` would meet the top end; with
    /// `end_first` the exposed letter comes first.
    pub open spec fn top_junction(self, w: Seq<char>, end_first: bool) -> Seq<char> {
        let c = if self.top_end_vert {
            w.last()
        } else {
            w[0]
        };
        if end_first {
            seq![self.top_end, c]
        } else {
            seq![c, self.top_end]
        }
    }

    /// The two-letter word formed where `w` would meet the bottom end.
    pub open spec fn bottom_junction(self, w: Seq<char>, end_first: bool) -> Seq<char> {
        let c = if self.bottom_end_vert {
            w[0]
        } else {
            w.last()
        };
        if end_first {
            seq![self.bottom_end, c]
        } else {
            seq![c, self.bottom_end]
        }
    }

    /// Where `w` goes when it joins the top end: a vertical word one column
    /// to the side of the top word, ending on its row; a horizontal word one
    /// row below or above, starting under the top word's last letter.
    pub open spec fn top_anchor(self, w: Seq<char>, end_first: bool) -> Anchor {
        let a = self.anchors.last();
        let step: int = if end_first {
            1
        } else {
            -1
        };
        if self.top_end_vert {
            Anchor { x: (a.x + step) as i64, y: (a.y + 1 - w.len()) as i64, vertical: true }
        } else {
            Anchor {
                x: (a.x + self.words.last().len() - 1) as i64,
                y: (a.y + step) as i64,
                vertical: false,
            }
        }
    }

    /// Where `w` goes when it joins the bottom end.
    pub open spec fn bottom_anchor(self, w: Seq<char>, end_first: bool) -> Anchor {
        let a = self.anchors[0];
        let step: int = if end_first {
            1
        } else {
            -1
        };
        if self.bottom_end_vert {
            Anchor { x: (a.x + step) as i64, y: (a.y + w.len() - 1) as i64, vertical: true }
        } else {
            Anchor { x: (a.x - w.len() + 1) as i64, y: (a.y + step) as i64, vertical: false }
        }
    }
}

/// A copy of a chain of words.
pub fn copy_words(words: &Vec<Vec<char>>) -> (r: Vec<Vec<char>>)
    ensures
        texts(r@) == texts(words@),
{
    let mut r: Vec<Vec<char>> = Vec::new();
    let mut i: usize = 0;
    while i < words.len()
        invariant
            0 <= i <= words@.len(),
            texts(r@) == texts(words@).take(i as int),
        decreases words@.len() - i,
    {
        let w = words[i].clone();
        assert(w@ =~= words@[i as int]@);
        let ghost before = r@;
        r.push(w);
        assert(r@ == before.push(w));
        assert(texts(r@) =~= texts(before).push(w@));
        assert(texts(words@).take(i + 1) =~= texts(words@).take(i as int).push(words@[i as int]@));
        i = i + 1;
    }
    assert(texts(words@).take(words@.len() as int) =~= texts(words@));
    r
}

fn copy_text(w: &Vec<char>) -> (r: Vec<char>)
    ensures
        r@ == w@,
{
    let r = w.clone();
    assert(r@ =~= w@);
    r
}

/// Sizes that bound a placement: the placed letters and the new word both
/// fit in the board's tile count, and every word is within the coordinate
/// bound.
pub proof fn lemma_placement_sizes(v: BoardView, w: Seq<char>, rest: Seq<char>)
    requires
        v.placeable(w, rest),
    ensures
        letters(v.words).len() + v.remaining.len() == v.tiles.len(),
        w.len() + rest.len() == v.remaining.len(),
        v.tiles.len() <= MAX_TILES,
{
    crate::tiles::lemma_difference_add(bag(v.remaining), bag(w));
    assert(bag(v.tiles).len() == v.tiles.len());
    assert(bag(v.remaining).len() == v.remaining.len());
    assert(letters(v.words).add(bag(v.remaining)).len() == letters(v.words).len() + bag(
        v.remaining,
    ).len());
}

/// A single-word board has no junction to check.
pub proof fn lemma_seeded_linked(v: BoardView, w: Seq<char>, rest: Seq<char>, junctions: Seq<Seq<char>>)
    ensures
        linked(v.seeded(w, rest), junctions),
{
}

/// Joining a word to the top end through a valid junction keeps every
/// junction of the chain valid.
pub proof fn lemma_top_linked(
    v: BoardView,
    w: Seq<char>,
    rest: Seq<char>,
    end_first: bool,
    junctions: Seq<Seq<char>>,
)
    requires
        v.placeable(w, rest),
        v.words.len() > 0,
        linked(v, junctions),
        junctions.contains(v.top_junction(w, end_first)),
    ensures
        linked(v.top_extended(w, rest, end_first), junctions),
{
    lemma_placement_sizes(v, w, rest);
    let u = v.top_extended(w, rest, end_first);
    let n = v.words.len() as int;
    assert(abs(v.anchors[n - 1].x as int) + v.words[n - 1].len() <= 3 * letters(v.words).len());
    assert forall|i: int| 0 <= i < u.words.len() - 1 implies junctions.contains(
        #[trigger] junction(u, i),
    ) by {
        if i < n - 1 {
            assert(junction(u, i) == junction(v, i));
        } else {
            assert(junction(u, i) =~= v.top_junction(w, end_first));
        }
    }
}

/// Joining a word to the bottom end through a valid junction keeps every
/// junction of the chain valid.
pub proof fn lemma_bottom_linked(
    v: BoardView,
    w: Seq<char>,
    rest: Seq<char>,
    end_first: bool,
    junctions: Seq<Seq<char>>,
)
    requires
        v.placeable(w, rest),
        v.words.len() > 0,
        linked(v, junctions),
        junctions.contains(v.bottom_junction(w, end_first)),
    ensures
        linked(v.bottom_extended(w, rest, end_first), junctions),
{
    lemma_placement_sizes(v, w, rest);
    let u = v.bottom_extended(w, rest, end_first);
    assert(abs(v.anchors[0].x as int) + v.words[0].len() <= 3 * letters(v.words).len());
    assert forall|i: int| 0 <= i < u.words.len() - 1 implies junctions.contains(
        #[trigger] junction(u, i),
    ) by {
        if i > 0 {
            assert(u.words[i] == v.words[i - 1]);
            assert(u.words[i + 1] == v.words[i]);
            assert(u.anchors[i] == v.anchors[i - 1]);
            assert(u.anchors[i + 1] == v.anchors[i]);
            assert(junction(u, i) == junction(v, i - 1));
        } else {
            assert(u.words[1] == v.words[0]);
            assert(u.anchors[1] == v.anchors[0]);
            assert(junction(u, i) =~= v.bottom_junction(w, end_first));
        }
    }
}

proof fn lemma_bottom_bounded(v: BoardView, w: Seq<char>, rest: Seq<char>, end_first: bool)
    requires
        v.placeable(w, rest),
        v.words.len() > 0,
    ensures
        bounded(v.bottom_extended(w, rest, end_first)),
{
    let u = v.bottom_extended(w, rest, end_first);
    lemma_letters_prepend(v.words, w);
    assert(letters(u.words).len() == letters(v.words).len() + w.len());
    assert forall|i: int| 0 <= i < u.words.len() implies abs(#[trigger] u.anchors[i].x as int)
        + u.words[i].len() <= 3 * letters(u.words).len() && abs(u.anchors[i].y as int)
        + u.words[i].len() <= 3 * letters(u.words).len() by {
        if i > 0 {
            assert(u.anchors[i] == v.anchors[i - 1]);
            assert(u.words[i] == v.words[i - 1]);
            assert(abs(v.anchors[i - 1].x as int) + v.words[i - 1].len() <= 3 * letters(v.words).len());
            assert(abs(v.anchors[i - 1].y as int) + v.words[i - 1].len() <= 3 * letters(v.words).len());
        } else {
            lemma_bottom_anchor_bound(v, w, rest, end_first);
        }
    }
}

proof fn lemma_bottom_anchor_bound(v: BoardView, w: Seq<char>, rest: Seq<char>, end_first: bool)
    requires
        v.placeable(w, rest),
        v.words.len() > 0,
    ensures
        abs(v.bottom_anchor(w, end_first).x as int) + w.len() <= 3 * (letters(v.words).len()
            + w.len()),
        abs(v.bottom_anchor(w, end_first).y as int) + w.len() <= 3 * (letters(v.words).len()
            + w.len()),
{
    lemma_placement_sizes(v, w, rest);
    assert(abs(v.anchors[0].x as int) + v.words[0].len() <= 3 * letters(v.words).len());
    assert(abs(v.anchors[0].y as int) + v.words[0].len() <= 3 * letters(v.words).len());
}

impl Board {
    /// A board with no words yet, every tile remaining.
    pub fn empty(tiles: &Vec<char>) -> (r: Board)
        requires
            tiles@.len() <= MAX_TILES,
        ensures
            r@.wf(),
            r@.tiles == tiles@,
            r@.remaining == tiles@,
            r@.words.len() == 0,
            r@.anchors.len() == 0,
            r.top_end == ' ',
            r.bottom_end == ' ',
    {
        let r = Board {
            tiles: copy_text(tiles),
            remaining: copy_text(tiles),
            bottom_end: ' ',
            top_end: ' ',
            top_end_vert: false,
            bottom_end_vert: false,
            words: Vec::new(),
            word_positions: Vec::new(),
        };
        assert(texts(r.words@) =~= Seq::<Seq<char>>::empty());
        assert(letters(r@.words) =~= Multiset::empty());
        assert(letters(r@.words).add(bag(tiles@)) =~= bag(tiles@));
        r
    }

    /// This empty board with `word` placed as its first word.
    pub fn seeded(&self, word: &Vec<char>, rest: Vec<char>) -> (r: Board)
        requires
            self@.placeable(word@, rest@),
            self@.words.len() == 0,
        ensures
            r@ == self@.seeded(word@, rest@),
            r@.wf(),
    {
        let mut words: Vec<Vec<char>> = Vec::new();
        words.push(copy_text(word));
        let mut word_positions: Vec<Anchor> = Vec::new();
        word_positions.push(Anchor { x: 0, y: 0, vertical: false });
        let r = Board {
            tiles: copy_text(&self.tiles),
            remaining: rest,
            bottom_end: word[0],
            top_end: word[word.len() - 1],
            top_end_vert: false,
            bottom_end_vert: false,
            words,
            word_positions,
        };
        proof {
            assert(texts(r.words@) =~= seq![word@]);
            assert(self@.words =~= Seq::<Seq<char>>::empty());
            lemma_letters_push(self@.words, word@);
            assert(seq![word@] =~= self@.words.push(word@));
            crate::tiles::lemma_difference_add(bag(self@.remaining), bag(word@));
            assert(letters(self@.words) =~= Multiset::empty());
            assert(letters(r@.words) =~= bag(word@));
            assert(letters(r@.words).add(bag(rest@)) =~= letters(self@.words).add(
                bag(self@.remaining),
            ));
        }
        r
    }

    /// This board with `word` joined to its top end, on the side given by
    /// `end_first`.
    pub fn extend_top(&self, word: &Vec<char>, rest: Vec<char>, end_first: bool) -> (r: Board)
        requires
            self@.placeable(word@, rest@),
            self@.words.len() > 0,
        ensures
            r@ == self@.top_extended(word@, rest@, end_first),
            r@.wf(),
    {
        let ghost v = self@;
        let n = self.words.len();
        proof {
            lemma_placement_sizes(v, word@, rest@);
            assert(v.words[n - 1] == self.words@[n - 1]@);
        }
        let a = self.word_positions[n - 1];
        let wl = word.len() as i64;
        let step: i64 = if end_first {
            1
        } else {
            -1
        };
        let anchor = if self.top_end_vert {
            Anchor { x: a.x + step, y: a.y + 1 - wl, vertical: true }
        } else {
            let lw = self.words[n - 1].len() as i64;
            Anchor { x: a.x + lw - 1, y: a.y + step, vertical: false }
        };
        let top_end = if self.top_end_vert {
            word[0]
        } else {
            word[word.len() - 1]
        };
        let mut words = copy_words(&self.words);
        words.push(copy_text(word));
        let mut word_positions = self.word_positions.clone();
        assert(word_positions@ =~= self.word_positions@);
        word_positions.push(anchor);
        let r = Board {
            tiles: copy_text(&self.tiles),
            remaining: rest,
            bottom_end: self.bottom_end,
            top_end,
            top_end_vert: self.top_end_vert,
            bottom_end_vert: self.bottom_end_vert,
            words,
            word_positions,
        };
        proof {
            let w = word@;
            assert(texts(r.words@) =~= v.words.push(w));
            assert(r@ =~~= v.top_extended(w, rest@, end_first));
            lemma_letters_push(v.words, w);
            crate::tiles::lemma_difference_add(bag(v.remaining), bag(w));
            assert(letters(r@.words).add(bag(rest@)) =~= letters(v.words).add(bag(v.remaining)));
            let u = r@;
            assert forall|i: int| 0 <= i < u.words.len() implies #[trigger] u.words[i].len() > 0 by {
                if i < n {
                    assert(u.words[i] == v.words[i]);
                }
            }
            assert forall|i: int| 0 <= i < u.words.len() - 1 implies #[trigger] u.anchors[i].vertical
                == u.anchors[i + 1].vertical by {
                assert(u.anchors[i] == v.anchors[i]);
            }
            assert forall|i: int| 0 <= i < u.words.len() implies abs(#[trigger] u.anchors[i].x as int)
                + u.words[i].len() <= 3 * letters(u.words).len() && abs(u.anchors[i].y as int)
                + u.words[i].len() <= 3 * letters(u.words).len() by {
                if i < n {
                    assert(u.anchors[i] == v.anchors[i]);
                    assert(u.words[i] == v.words[i]);
                }
            }
        }
        r
    }

    /// This board with `word` joined to its bottom end, on the side given by
    /// `end_first`.
    pub fn extend_bottom(&self, word: &Vec<char>, rest: Vec<char>, end_first: bool) -> (r: Board)
        requires
            self@.placeable(word@, rest@),
            self@.words.len() > 0,
        ensures
            r@ == self@.bottom_extended(word@, rest@, end_first),
            r@.wf(),
    {
        let ghost v = self@;
        let n = self.words.len();
        proof {
            lemma_placement_sizes(v, word@, rest@);
        }
        let a = self.word_positions[0];
        let wl = word.len() as i64;
        let step: i64 = if end_first {
            1
        } else {
            -1
        };
        let anchor = if self.bottom_end_vert {
            Anchor { x: a.x + step, y: a.y + wl - 1, vertical: true }
        } else {
            Anchor { x: a.x - wl + 1, y: a.y + step, vertical: false }
        };
        let bottom_end = if self.bottom_end_vert {
            word[word.len() - 1]
        } else {
            word[0]
        };
        let mut words = copy_words(&self.words);
        words.insert(0, copy_text(word));
        let mut word_positions = self.word_positions.clone();
        assert(word_positions@ =~= self.word_positions@);
        word_positions.insert(0, anchor);
        let r = Board {
            tiles: copy_text(&self.tiles),
            remaining: rest,
            bottom_end,
            top_end: self.top_end,
            top_end_vert: self.top_end_vert,
            bottom_end_vert: self.bottom_end_vert,
            words,
            word_positions,
        };
        proof {
            let w = word@;
            assert(texts(r.words@) =~= seq![w] + v.words);
            assert(r.word_positions@ =~= seq![anchor] + v.anchors);
            assert(r@ =~~= v.bottom_extended(w, rest@, end_first));
            lemma_letters_prepend(v.words, w);
            crate::tiles::lemma_difference_add(bag(v.remaining), bag(w));
            assert(letters(r@.words).add(bag(rest@)) =~= letters(v.words).add(bag(v.remaining)));
            let u = r@;
            assert(letters(u.words).len() == letters(v.words).len() + w.len());
            assert(u.words.last() == v.words.last());
            assert(u.anchors.last() == v.anchors.last());
            assert forall|i: int| 0 <= i < u.words.len() implies #[trigger] u.words[i].len() > 0 by {
                if i > 0 {
                    assert(u.words[i] == v.words[i - 1]);
                }
            }
            assert forall|i: int| 0 <= i < u.words.len() - 1 implies #[trigger] u.anchors[i].vertical
                == u.anchors[i + 1].vertical by {
                if i > 0 {
                    assert(u.anchors[i] == v.anchors[i - 1]);
                    assert(u.anchors[i + 1] == v.anchors[i]);
                }
            }
            lemma_bottom_bounded(v, w, rest@, end_first);
        }
        r
    }

    /// This board rebased on `master`, a longer run of tiles that begins with
    /// its own: the tiles it lacks are added to its remaining ones.
    pub fn refreshed(&self, master: &Vec<char>) -> (r: Board)
        requires
            self@.wf(),
            self@.tiles.len() <= master@.len() <= MAX_TILES,
            self@.tiles == master@.take(self@.tiles.len() as int),
        ensures
            r@.wf(),
            r@ == (BoardView { tiles: master@, remaining: r@.remaining, ..self@ }),
            r@.remaining == self@.remaining + crate::tiles::removed(master@, self@.tiles),
            r@.remaining.take(self@.remaining.len() as int) == self@.remaining,
            bag(r@.remaining.skip(self@.remaining.len() as int)) == bag(master@).difference_with(
                bag(self@.tiles),
            ),
    {
        let ghost v = self@;
        let diff = crate::tiles::remove_from_tiles(&self.tiles, master);
        let mut remaining = copy_text(&self.remaining);
        let mut i: usize = 0;
        while i < diff.len()
            invariant
                0 <= i <= diff@.len(),
                remaining@ == v.remaining + diff@.take(i as int),
            decreases diff@.len() - i,
        {
            remaining.push(diff[i]);
            assert(v.remaining + diff@.take(i + 1) =~= (v.remaining + diff@.take(i as int)).push(
                diff@[i as int],
            ));
            i = i + 1;
        }
        assert(diff@.take(diff@.len() as int) =~= diff@);
        assert(remaining@ =~= v.remaining + diff@);
        let r = Board {
            tiles: copy_text(master),
            remaining,
            bottom_end: self.bottom_end,
            top_end: self.top_end,
            top_end_vert: self.top_end_vert,
            bottom_end_vert: self.bottom_end_vert,
            words: copy_words(&self.words),
            word_positions: self.word_positions.clone(),
        };
        proof {
            assert(r.word_positions@ =~= v.anchors);
            assert(r@.remaining.take(v.remaining.len() as int) =~= v.remaining);
            assert(r@.remaining.skip(v.remaining.len() as int) =~= diff@);
            assert(master@ =~= v.tiles + master@.skip(v.tiles.len() as int));
            vstd::seq_lib::lemma_multiset_commutative(v.tiles, master@.skip(v.tiles.len() as int));
            vstd::seq_lib::lemma_multiset_commutative(v.remaining, diff@);
            assert(bag(v.tiles).subset_of(bag(master@)));
            crate::tiles::lemma_difference_add(bag(master@), bag(v.tiles));
            assert(letters(r@.words).add(bag(r@.remaining)) =~= bag(master@));
        }
        r
    }

    /// A board equal to this one.
    pub fn copy(&self) -> (r: Board)
        ensures
            r@ == self@,
    {
        Board {
            tiles: copy_text(&self.tiles),
            remaining: copy_text(&self.remaining),
            bottom_end: self.bottom_end,
            top_end: self.top_end,
            top_end_vert: self.top_end_vert,
            bottom_end_vert: self.bottom_end_vert,
            words: copy_words(&self.words),
            word_positions: self.word_positions.clone(),
        }
    }
}

} // verus!
