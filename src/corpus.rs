//! The word dictionary and the two-letter junction dictionary, and the
//! bounded "roughly longest first" selection of candidate words.
use crate::tiles::{fits, is_in_tiles};
use vstd::prelude::*;

verus! {

broadcast use vstd::seq_lib::group_filter_ensures;

/// Which dictionary lines hold a word.
pub open spec fn is_word() -> spec_fn(Seq<char>) -> bool {
    |w: Seq<char>| w.len() > 0
}

/// The texts held by a vector of words.
pub open spec fn texts(v: Seq<Vec<char>>) -> Seq<Seq<char>> {
    v.map_values(|w: Vec<char>| w@)
}

/// Which end of a candidate word must carry a given letter, if either.
#[derive(Clone, Copy, PartialEq, Eq, Debug)]
pub enum Edge {
    Any,
    First(char),
    Last(char),
}

pub open spec fn edge_ok(w: Seq<char>, edge: Edge) -> bool {
    match edge {
        Edge::Any => true,
        Edge::First(c) => w.len() > 0 && w[0] == c,
        Edge::Last(c) => w.len() > 0 && w.last() == c,
    }
}

/// A dictionary word that qualifies as a candidate.
pub open spec fn qualifies(w: Seq<char>, tiles: Seq<char>, edge: Edge) -> bool {
    fits(w, tiles) && edge_ok(w, edge)
}

/// Index of the first held word, from `i` on, that is shorter than `w`; the
/// length of `held` when there is none.
pub open spec fn shorter_index(held: Seq<Seq<char>>, w: Seq<char>, i: int) -> int
    decreases held.len() - i,
{
    if i < 0 || i >= held.len() {
        held.len() as int
    } else if held[i].len() < w.len() {
        i
    } else {
        shorter_index(held, w, i + 1)
    }
}

/// The working set after a qualifying word `w` was seen: appended while the
/// set has room, else put in place of the first held word shorter than it.
pub open spec fn take_in(held: Seq<Seq<char>>, w: Seq<char>, num: nat) -> Seq<Seq<char>> {
    if held.len() < num {
        held.push(w)
    } else {
        let k = shorter_index(held, w, 0);
        if k < held.len() {
            held.update(k, w)
        } else {
            held
        }
    }
}

/// The candidates chosen from `dict`, scanned in order.
pub open spec fn longest(dict: Seq<Seq<char>>, tiles: Seq<char>, edge: Edge, num: nat) -> Seq<
    Seq<char>,
>
    decreases dict.len(),
{
    if dict.len() == 0 {
        Seq::empty()
    } else {
        let held = longest(dict.drop_last(), tiles, edge, num);
        if qualifies(dict.last(), tiles, edge) {
            take_in(held, dict.last(), num)
        } else {
            held
        }
    }
}

proof fn lemma_shorter_index(held: Seq<Seq<char>>, w: Seq<char>, i: int)
    requires
        0 <= i <= held.len(),
    ensures
        i <= shorter_index(held, w, i) <= held.len(),
    decreases held.len() - i,
{
    if i < held.len() && held[i].len() >= w.len() {
        lemma_shorter_index(held, w, i + 1);
    }
}

/// Every chosen candidate is a qualifying word of the dictionary, and there
/// are at most `num` of them.
pub proof fn lemma_longest_members(dict: Seq<Seq<char>>, tiles: Seq<char>, edge: Edge, num: nat)
    ensures
        longest(dict, tiles, edge, num).len() <= num,
        forall|k: int|
            0 <= k < longest(dict, tiles, edge, num).len() ==> {
                let w = #[trigger] longest(dict, tiles, edge, num)[k];
                qualifies(w, tiles, edge) && dict.contains(w)
            },
    decreases dict.len(),
{
    if dict.len() > 0 {
        let prev = dict.drop_last();
        lemma_longest_members(prev, tiles, edge, num);
        let held = longest(prev, tiles, edge, num);
        lemma_shorter_index(held, dict.last(), 0);
        assert forall|x: Seq<char>| prev.contains(x) implies dict.contains(x) by {
            let j = choose|j: int| 0 <= j < prev.len() && prev[j] == x;
            assert(dict[j] == x);
        }
        assert(dict.contains(dict.last())) by {
            assert(dict[dict.len() - 1] == dict.last());
        }
    }
}

/// The dictionaries, loaded once and read many times.
pub struct Corpus {
    words: Vec<Vec<char>>,
    junctions: Vec<Vec<char>>,
}

impl Corpus {
    /// The valid words, in dictionary order.
    pub closed spec fn dict(&self) -> Seq<Seq<char>> {
        texts(self.words@)
    }

    /// The valid two-letter junction words.
    pub closed spec fn junction_words(&self) -> Seq<Seq<char>> {
        texts(self.junctions@)
    }

    pub open spec fn wf(&self) -> bool {
        forall|i: int| 0 <= i < self.dict().len() ==> #[trigger] self.dict()[i].len() > 0
    }

    /// A corpus of the given word lines and junction lines; empty word lines
    /// are left out.
    pub fn new(word_lines: Vec<Vec<char>>, junction_lines: Vec<Vec<char>>) -> (r: Corpus)
        ensures
            r.wf(),
            r.dict() == texts(word_lines@).filter(is_word()),
            r.junction_words() == texts(junction_lines@),
    {
        let mut words: Vec<Vec<char>> = Vec::new();
        let mut i: usize = 0;
        while i < word_lines.len()
            invariant
                0 <= i <= word_lines@.len(),
                texts(words@) == texts(word_lines@.take(i as int)).filter(is_word()),
            decreases word_lines@.len() - i,
        {
            let ghost before = texts(words@);
            assert(texts(word_lines@.take(i + 1)) =~= texts(word_lines@.take(i as int)).push(
                word_lines@[i as int]@,
            ));
            proof {
                texts(word_lines@.take(i as int)).lemma_filter_push(word_lines@[i as int]@, is_word());
            }
            if word_lines[i].len() > 0 {
                let w = word_lines[i].clone();
                assert(w@ =~= word_lines@[i as int]@);
                words.push(w);
                assert(texts(words@) =~= before.push(w@));
            } else {
                assert(!is_word()(word_lines@[i as int]@));
            }
            assert(texts(words@) == texts(word_lines@.take(i + 1)).filter(is_word()));
            i = i + 1;
        }
        assert(word_lines@.take(word_lines@.len() as int) =~= word_lines@);
        let r = Corpus { words, junctions: junction_lines };
        assert forall|i: int| 0 <= i < r.dict().len() implies #[trigger] r.dict()[i].len() > 0 by {
            assert(texts(word_lines@).filter(is_word()).contains(r.dict()[i]));
        }
        r
    }

    /// Up to `num` dictionary words, roughly the longest, that can be spelled
    /// with `tiles`: while the working set has room every such word is taken in
    /// dictionary order; after that a word replaces the first held word that is
    /// shorter than it.
    pub fn find_longest_words(&self, tiles: &Vec<char>, num: usize) -> (r: Vec<Vec<char>>)
        ensures
            texts(r@) == longest(self.dict(), tiles@, Edge::Any, num as nat),
    {
        self.select_longest(tiles, Edge::Any, num)
    }

    /// As `find_longest_words`, for words that start with `letter`, spelled
    /// with `tiles` and one more `letter`.
    pub fn find_longest_words_starting_with(&self, tiles: &Vec<char>, letter: char, num: usize) -> (r:
        Vec<Vec<char>>)
        ensures
            texts(r@) == longest(self.dict(), tiles@.push(letter), Edge::First(letter), num as nat),
    {
        let mut pool = tiles.clone();
        pool.push(letter);
        assert(pool@ =~= tiles@.push(letter));
        self.select_longest(&pool, Edge::First(letter), num)
    }

    /// As `find_longest_words`, for words that end with `letter`, spelled
    /// with `tiles` and one more `letter`.
    pub fn find_longest_words_ending_with(&self, tiles: &Vec<char>, letter: char, num: usize) -> (r:
        Vec<Vec<char>>)
        ensures
            texts(r@) == longest(self.dict(), tiles@.push(letter), Edge::Last(letter), num as nat),
    {
        let mut pool = tiles.clone();
        pool.push(letter);
        assert(pool@ =~= tiles@.push(letter));
        self.select_longest(&pool, Edge::Last(letter), num)
    }

    fn select_longest(&self, tiles: &Vec<char>, edge: Edge, num: usize) -> (r: Vec<Vec<char>>)
        ensures
            texts(r@) == longest(self.dict(), tiles@, edge, num as nat),
    {
        let mut held: Vec<Vec<char>> = Vec::new();
        let mut i: usize = 0;
        while i < self.words.len()
            invariant
                0 <= i <= self.words@.len(),
                self.dict() == texts(self.words@),
                texts(held@) == longest(self.dict().take(i as int), tiles@, edge, num as nat),
            decreases self.words@.len() - i,
        {
            let ghost prefix = self.dict().take(i + 1);
            assert(prefix.drop_last() =~= self.dict().take(i as int));
            assert(prefix.last() == self.words@[i as int]@);
            let word = &self.words[i];
            if is_in_tiles(word, tiles) && edge_matches(word, edge) {
                let ghost h = texts(held@);
                proof {
                    lemma_shorter_index(h, word@, 0);
                }
                if held.len() < num {
                    let w = word.clone();
                    assert(w@ =~= word@);
                    held.push(w);
                    assert(texts(held@) =~= h.push(word@));
                } else {
                    let mut j: usize = 0;
                    while j < held.len()
                        invariant_except_break
                            texts(held@) == h,
                            shorter_index(h, word@, 0) == shorter_index(h, word@, j as int),
                        invariant
                            0 <= j <= held@.len(),
                            held@.len() == h.len(),
                            h.len() >= num,
                        ensures
                            texts(held@) == take_in(h, word@, num as nat),
                        decreases held@.len() - j,
                    {
                        if word.len() > held[j].len() {
                            let w = word.clone();
                            assert(w@ =~= word@);
                            held.set(j, w);
                            assert(texts(held@) =~= h.update(j as int, word@));
                            break;
                        }
                        j = j + 1;
                    }
                }
            }
            i = i + 1;
        }
        assert(self.dict().take(self.words@.len() as int) =~= self.dict());
        held
    }

    /// Whether `word` is in the word dictionary.
    pub fn is_valid(&self, word: &Vec<char>) -> (r: bool)
        ensures
            r == self.dict().contains(word@),
    {
        contains_text(&self.words, word)
    }

    /// Whether `word` is in the junction dictionary.
    pub fn is_valid_two_letter(&self, word: &Vec<char>) -> (r: bool)
        ensures
            r == self.junction_words().contains(word@),
    {
        contains_text(&self.junctions, word)
    }
}

fn edge_matches(w: &Vec<char>, edge: Edge) -> (r: bool)
    ensures
        r == edge_ok(w@, edge),
{
    match edge {
        Edge::Any => true,
        Edge::First(c) => w.len() > 0 && w[0] == c,
        Edge::Last(c) => w.len() > 0 && w[w.len() - 1] == c,
    }
}

/// Whether two words have the same letters in the same order.
pub fn same_text(a: &Vec<char>, b: &Vec<char>) -> (r: bool)
    ensures
        r == (a@ == b@),
{
    if a.len() != b.len() {
        return false;
    }
    let mut i: usize = 0;
    while i < a.len()
        invariant
            a@.len() == b@.len(),
            0 <= i <= a@.len(),
            forall|j: int| 0 <= j < i ==> a@[j] == b@[j],
        decreases a@.len() - i,
    {
        if a[i] != b[i] {
            return false;
        }
        i = i + 1;
    }
    assert(a@ =~= b@);
    true
}

fn contains_text(list: &Vec<Vec<char>>, word: &Vec<char>) -> (r: bool)
    ensures
        r == texts(list@).contains(word@),
{
    let mut i: usize = 0;
    while i < list.len()
        invariant
            0 <= i <= list@.len(),
            forall|j: int| 0 <= j < i ==> texts(list@)[j] != word@,
        decreases list@.len() - i,
    {
        if same_text(&list[i], word) {
            assert(texts(list@)[i as int] == word@);
            return true;
        }
        i = i + 1;
    }
    false
}

} // verus!
