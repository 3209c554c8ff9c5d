//! Tile bags: multisets of letters held as character sequences.
use vstd::multiset::Multiset;
use vstd::prelude::*;

verus! {

broadcast use vstd::seq_lib::group_to_multiset_ensures, vstd::multiset::group_multiset_axioms,
    vstd::multiset::group_multiset_properties;

/// The letters of `s`, with multiplicity.
pub open spec fn bag(s: Seq<char>) -> Multiset<char> {
    s.to_multiset()
}

/// Every letter of `word`, with multiplicity, is present in `tiles`.
pub open spec fn fits(word: Seq<char>, tiles: Seq<char>) -> bool {
    bag(word).subset_of(bag(tiles))
}

/// `s` without its first occurrence of `c`; `s` itself when `c` is absent.
pub open spec fn remove_first(s: Seq<char>, c: char) -> Seq<char>
    decreases s.len(),
{
    if s.len() == 0 {
        s
    } else if s[0] == c {
        s.drop_first()
    } else {
        seq![s[0]] + remove_first(s.drop_first(), c)
    }
}

/// `tiles` after the first occurrence of each letter of `word`, in turn, was
/// taken out.
pub open spec fn removed(tiles: Seq<char>, word: Seq<char>) -> Seq<char>
    decreases word.len(),
{
    if word.len() == 0 {
        tiles
    } else {
        remove_first(removed(tiles, word.drop_last()), word.last())
    }
}

proof fn lemma_remove_first_at(s: Seq<char>, c: char, k: int)
    requires
        0 <= k < s.len(),
        s[k] == c,
        forall|j: int| 0 <= j < k ==> s[j] != c,
    ensures
        remove_first(s, c) == s.remove(k),
    decreases s.len(),
{
    if k > 0 {
        let t = s.drop_first();
        assert forall|j: int| 0 <= j < k - 1 implies t[j] != c by {
            assert(t[j] == s[j + 1]);
        }
        lemma_remove_first_at(t, c, k - 1);
        assert(seq![s[0]] + t.remove(k - 1) =~= s.remove(k));
    }
}

proof fn lemma_remove_first_absent(s: Seq<char>, c: char)
    requires
        !s.contains(c),
    ensures
        remove_first(s, c) == s,
    decreases s.len(),
{
    if s.len() > 0 {
        let t = s.drop_first();
        assert(s[0] != c) by {
            assert(s.contains(s[0]));
        }
        assert(!t.contains(c)) by {
            if t.contains(c) {
                let j = choose|j: int| 0 <= j < t.len() && t[j] == c;
                assert(s[j + 1] == c);
            }
        }
        lemma_remove_first_absent(t, c);
        assert(seq![s[0]] + t =~= s);
    }
}

/// Position of the first occurrence of `c` in `tiles`, if any.
fn find_char(tiles: &Vec<char>, c: char) -> (r: Option<usize>)
    ensures
        match r {
            Some(k) => k < tiles@.len() && tiles@[k as int] == c && forall|j: int|
                0 <= j < k ==> tiles@[j] != c,
            None => !tiles@.contains(c),
        },
{
    let mut i: usize = 0;
    while i < tiles.len()
        invariant
            0 <= i <= tiles@.len(),
            forall|j: int| 0 <= j < i ==> tiles@[j] != c,
        decreases tiles@.len() - i,
    {
        if tiles[i] == c {
            return Some(i);
        }
        i = i + 1;
    }
    None
}

/// Whether `word` can be spelled with `tiles`, each tile used at most once.
pub fn is_in_tiles(word: &Vec<char>, tiles: &Vec<char>) -> (r: bool)
    ensures
        r == fits(word@, tiles@),
{
    let mut rest: Vec<char> = tiles.clone();
    let mut i: usize = 0;
    while i < word.len()
        invariant
            0 <= i <= word@.len(),
            bag(word@.take(i as int)).subset_of(bag(tiles@)),
            bag(rest@) =~= bag(tiles@).difference_with(bag(word@.take(i as int))),
        decreases word@.len() - i,
    {
        let c = word[i];
        assert(word@.take(i + 1) =~= word@.take(i as int).push(c));
        assert(bag(word@.take(i + 1)) =~= bag(word@.take(i as int)).insert(c));
        match find_char(&rest, c) {
            Some(k) => {
                let ghost before = rest@;
                rest.remove(k);
                assert(before[k as int] == c);
                assert(rest@ == before.remove(k as int));
                assert(bag(rest@) == bag(before).remove(c));
            },
            None => {
                proof {
                    assert(!rest@.contains(c));
                    assert(bag(rest@).count(c) == 0);
                    assert(bag(word@.take(i + 1)).count(c) > bag(tiles@).count(c));
                    assert(!bag(word@.take(i + 1)).subset_of(bag(tiles@)));
                    lemma_subset_of_prefix(word@, i + 1, tiles@);
                }
                return false;
            },
        }
        i = i + 1;
    }
    assert(word@.take(word@.len() as int) =~= word@);
    true
}

proof fn lemma_subset_of_prefix(word: Seq<char>, n: int, tiles: Seq<char>)
    requires
        0 <= n <= word.len(),
        !bag(word.take(n)).subset_of(bag(tiles)),
    ensures
        !fits(word, tiles),
{
    let c = choose|c: char| bag(word.take(n)).count(c) > bag(tiles).count(c);
    assert(word =~= word.take(n) + word.skip(n));
    vstd::seq_lib::lemma_multiset_commutative(word.take(n), word.skip(n));
    assert(bag(word).count(c) > bag(tiles).count(c));
}

/// `tiles` with one occurrence of each letter of `word` taken out; letters of
/// `word` that `tiles` lacks are passed over.
pub fn remove_from_tiles(word: &Vec<char>, tiles: &Vec<char>) -> (r: Vec<char>)
    ensures
        r@ == removed(tiles@, word@),
        bag(r@) =~= bag(tiles@).difference_with(bag(word@)),
{
    let mut rest: Vec<char> = tiles.clone();
    let mut i: usize = 0;
    while i < word.len()
        invariant
            0 <= i <= word@.len(),
            rest@ == removed(tiles@, word@.take(i as int)),
            bag(rest@) =~= bag(tiles@).difference_with(bag(word@.take(i as int))),
        decreases word@.len() - i,
    {
        let c = word[i];
        assert(word@.take(i + 1) =~= word@.take(i as int).push(c));
        assert(word@.take(i + 1).drop_last() =~= word@.take(i as int));
        assert(bag(word@.take(i + 1)) =~= bag(word@.take(i as int)).insert(c));
        match find_char(&rest, c) {
            Some(k) => {
                proof {
                    lemma_remove_first_at(rest@, c, k as int);
                }
                let ghost before = rest@;
                rest.remove(k);
                assert(before[k as int] == c);
                assert(rest@ == before.remove(k as int));
                assert(bag(rest@) == bag(before).remove(c));
            },
            None => {
                proof {
                    lemma_remove_first_absent(rest@, c);
                    assert(!rest@.contains(c));
                    assert(bag(rest@).count(c) == 0);
                }
            },
        }
        i = i + 1;
    }
    assert(word@.take(word@.len() as int) =~= word@);
    rest
}

/// Taking a word out of a bag that holds it leaves exactly the word's length
/// fewer tiles.
pub proof fn lemma_subtract_count(word: Seq<char>, tiles: Seq<char>, rest: Seq<char>)
    requires
        fits(word, tiles),
        bag(rest) == bag(tiles).difference_with(bag(word)),
    ensures
        rest.len() == tiles.len() - word.len(),
        bag(rest).add(bag(word)) == bag(tiles),
{
    lemma_difference_add(bag(tiles), bag(word));
}

/// Taking letters out of a bag leaves a part of it.
pub proof fn lemma_difference_subset(a: Multiset<char>, b: Multiset<char>)
    ensures
        a.difference_with(b).subset_of(a),
{
}

/// Taking a sub-multiset out and putting it back gives the original.
pub proof fn lemma_difference_add(a: Multiset<char>, b: Multiset<char>)
    requires
        b.subset_of(a),
    ensures
        a.difference_with(b).add(b) == a,
        a.difference_with(b).len() == a.len() - b.len(),
{
    assert(a.difference_with(b).add(b) =~= a);
    assert(a.difference_with(b).len() + b.len() == a.len());
}

} // verus!
