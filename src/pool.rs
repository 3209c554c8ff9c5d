//! What becomes of the pool of finished boards after a search: stale boards
//! are dropped, repeated word chains are dropped, and the rest are ranked
//! and cut to a bounded number.
use crate::board::BoardView;
use vstd::prelude::*;

verus! {

/// A board built on at least `n` tiles.
pub open spec fn is_current(n: nat) -> spec_fn(BoardView) -> bool {
    |v: BoardView| v.tiles.len() >= n
}

/// The boards of `pool` built on at least `n` tiles, in order.
pub open spec fn purged(pool: Seq<BoardView>, n: nat) -> Seq<BoardView> {
    pool.filter(is_current(n))
}

/// Some board of `pool` has exactly the chain `words`, in the same order.
pub open spec fn has_words(pool: Seq<BoardView>, words: Seq<Seq<char>>) -> bool {
    exists|k: int| 0 <= k < pool.len() && (#[trigger] pool[k]).words == words
}

/// `pool` with every board dropped whose word chain (compared in order) an
/// earlier board already has.
pub open spec fn deduplicated(pool: Seq<BoardView>) -> Seq<BoardView>
    decreases pool.len(),
{
    if pool.len() == 0 {
        pool
    } else {
        let kept = deduplicated(pool.drop_last());
        if has_words(kept, pool.last().words) {
            kept
        } else {
            kept.push(pool.last())
        }
    }
}

/// Dropping repeated chains never empties a pool that has boards.
pub proof fn lemma_deduplicated_nonempty(pool: Seq<BoardView>)
    requires
        pool.len() > 0,
    ensures
        deduplicated(pool).len() > 0,
    decreases pool.len(),
{
    let prev = pool.drop_last();
    if prev.len() > 0 {
        lemma_deduplicated_nonempty(prev);
    } else {
        assert(deduplicated(prev).len() == 0);
        assert(!has_words(deduplicated(prev), pool.last().words));
    }
}

/// The ranking key: the number of tiles a board leaves unplaced.
pub open spec fn key(v: BoardView) -> nat {
    v.remaining.len()
}

/// No board ranks below a later one.
pub open spec fn ranked_order(s: Seq<BoardView>) -> bool {
    forall|i: int, j: int| 0 <= i < j < s.len() ==> key(#[trigger] s[i]) >= key(#[trigger] s[j])
}

/// `v` put into ranked `s` after every board whose key is at least its own.
pub open spec fn insert_ranked(s: Seq<BoardView>, v: BoardView) -> Seq<BoardView>
    decreases s.len(),
{
    if s.len() == 0 {
        seq![v]
    } else if key(s[0]) < key(v) {
        seq![v] + s
    } else {
        seq![s[0]] + insert_ranked(s.drop_first(), v)
    }
}

/// `pool` ordered by key, highest first, boards of equal key in their
/// original order.
pub open spec fn sort_ranked(pool: Seq<BoardView>) -> Seq<BoardView>
    decreases pool.len(),
{
    if pool.len() == 0 {
        pool
    } else {
        insert_ranked(sort_ranked(pool.drop_last()), pool.last())
    }
}

/// `pool` ordered by key and cut to at most `limit` boards.
pub open spec fn ranked(pool: Seq<BoardView>, limit: nat) -> Seq<BoardView> {
    let s = sort_ranked(pool);
    if s.len() <= limit {
        s
    } else {
        s.take(limit as int)
    }
}

/// Where `insert_ranked` puts `v`: after the boards whose key is at least
/// its own.
pub proof fn lemma_insert_ranked_at(s: Seq<BoardView>, v: BoardView, pos: int)
    requires
        0 <= pos <= s.len(),
        forall|j: int| 0 <= j < pos ==> key(#[trigger] s[j]) >= key(v),
        pos < s.len() ==> key(s[pos]) < key(v),
    ensures
        insert_ranked(s, v) == s.insert(pos, v),
    decreases s.len(),
{
    if s.len() == 0 {
        assert(s.insert(pos, v) =~= seq![v]);
    } else if pos == 0 {
        assert(s.insert(pos, v) =~= seq![v] + s);
    } else {
        let t = s.drop_first();
        assert forall|j: int| 0 <= j < pos - 1 implies key(#[trigger] t[j]) >= key(v) by {
            assert(t[j] == s[j + 1]);
        }
        lemma_insert_ranked_at(t, v, pos - 1);
        assert(seq![s[0]] + t.insert(pos - 1, v) =~= s.insert(pos, v));
    }
}

proof fn lemma_insert_ranked_members(s: Seq<BoardView>, v: BoardView)
    ensures
        insert_ranked(s, v).len() == s.len() + 1,
        forall|k: int|
            0 <= k < insert_ranked(s, v).len() ==> #[trigger] insert_ranked(s, v)[k] == v
                || s.contains(insert_ranked(s, v)[k]),
    decreases s.len(),
{
    if s.len() > 0 && key(s[0]) >= key(v) {
        let t = s.drop_first();
        lemma_insert_ranked_members(t, v);
        let r = insert_ranked(s, v);
        assert forall|k: int| 0 <= k < r.len() implies #[trigger] r[k] == v || s.contains(r[k]) by {
            if k == 0 {
                assert(s[0] == r[0]);
            } else {
                assert(r[k] == insert_ranked(t, v)[k - 1]);
                if r[k] != v {
                    let j = choose|j: int| 0 <= j < t.len() && t[j] == r[k];
                    assert(s[j + 1] == r[k]);
                }
            }
        }
    } else if s.len() > 0 {
        let r = insert_ranked(s, v);
        assert forall|k: int| 0 <= k < r.len() implies #[trigger] r[k] == v || s.contains(r[k]) by {
            if k > 0 {
                assert(s[k - 1] == r[k]);
            }
        }
    }
}

proof fn lemma_insert_ranked_order(s: Seq<BoardView>, v: BoardView)
    requires
        ranked_order(s),
    ensures
        ranked_order(insert_ranked(s, v)),
    decreases s.len(),
{
    lemma_insert_ranked_members(s, v);
    if s.len() > 0 {
        let r = insert_ranked(s, v);
        if key(s[0]) < key(v) {
            assert forall|i: int, j: int| 0 <= i < j < r.len() implies key(#[trigger] r[i]) >= key(
                #[trigger] r[j],
            ) by {
                if i > 0 {
                    assert(r[i] == s[i - 1]);
                }
                assert(r[j] == s[j - 1]);
                assert(key(s[0]) >= key(s[j - 1]) || j - 1 == 0);
            }
        } else {
            let t = s.drop_first();
            assert forall|i: int, j: int| 0 <= i < j < t.len() implies key(#[trigger] t[i]) >= key(
                #[trigger] t[j],
            ) by {
                assert(t[i] == s[i + 1] && t[j] == s[j + 1]);
            }
            lemma_insert_ranked_order(t, v);
            lemma_insert_ranked_members(t, v);
            let rt = insert_ranked(t, v);
            assert forall|i: int, j: int| 0 <= i < j < r.len() implies key(#[trigger] r[i]) >= key(
                #[trigger] r[j],
            ) by {
                assert(r[j] == rt[j - 1]);
                if i > 0 {
                    assert(r[i] == rt[i - 1]);
                } else {
                    if rt[j - 1] != v {
                        let m = choose|m: int| 0 <= m < t.len() && t[m] == rt[j - 1];
                        assert(s[m + 1] == t[m]);
                    }
                }
            }
        }
    }
}

/// Ranking orders the pool by key.
pub proof fn lemma_sort_ranked_order(pool: Seq<BoardView>)
    ensures
        ranked_order(sort_ranked(pool)),
        sort_ranked(pool).len() == pool.len(),
    decreases pool.len(),
{
    if pool.len() > 0 {
        lemma_sort_ranked_order(pool.drop_last());
        lemma_insert_ranked_order(sort_ranked(pool.drop_last()), pool.last());
        lemma_insert_ranked_members(sort_ranked(pool.drop_last()), pool.last());
    }
}

proof fn lemma_insert_ranked_last(s: Seq<BoardView>, v: BoardView)
    requires
        forall|j: int| 0 <= j < s.len() ==> key(#[trigger] s[j]) >= key(v),
    ensures
        insert_ranked(s, v) == s.push(v),
{
    lemma_insert_ranked_at(s, v, s.len() as int);
    assert(s.insert(s.len() as int, v) =~= s.push(v));
}

/// A pool already in ranked order is left as it is by ranking.
pub proof fn lemma_sort_ranked_fixed(pool: Seq<BoardView>)
    requires
        ranked_order(pool),
    ensures
        sort_ranked(pool) == pool,
    decreases pool.len(),
{
    if pool.len() > 0 {
        let p = pool.drop_last();
        assert forall|i: int, j: int| 0 <= i < j < p.len() implies key(#[trigger] p[i]) >= key(
            #[trigger] p[j],
        ) by {
            assert(p[i] == pool[i] && p[j] == pool[j]);
        }
        lemma_sort_ranked_fixed(p);
        assert forall|j: int| 0 <= j < p.len() implies key(#[trigger] p[j]) >= key(pool.last()) by {
            assert(p[j] == pool[j]);
        }
        lemma_insert_ranked_last(p, pool.last());
        assert(p.push(pool.last()) =~= pool);
    }
}

/// Ranking and cutting twice with the same limit gives what doing it once
/// gives.
pub proof fn lemma_ranked_idempotent(pool: Seq<BoardView>, limit: nat)
    ensures
        ranked(ranked(pool, limit), limit) == ranked(pool, limit),
{
    lemma_sort_ranked_order(pool);
    let once = ranked(pool, limit);
    let s = sort_ranked(pool);
    assert forall|i: int, j: int| 0 <= i < j < once.len() implies key(#[trigger] once[i]) >= key(
        #[trigger] once[j],
    ) by {
        assert(once[i] == s[i] && once[j] == s[j]);
    }
    lemma_sort_ranked_fixed(once);
}

} // verus!
