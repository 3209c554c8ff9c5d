//! A playing session: the player's tiles, the pool of finished boards, and
//! the backtracking search that fills the pool.
use crate::board::{
    lemma_bottom_linked, lemma_placement_sizes, lemma_seeded_linked, lemma_top_linked, linked,
    Board, BoardView, MAX_TILES,
};
use crate::corpus::{lemma_longest_members, longest, qualifies, same_text, texts, Corpus, Edge};
use crate::pool::{
    deduplicated, has_words, is_current, key, lemma_insert_ranked_at, purged, ranked,
    sort_ranked,
};
use crate::render::{is_grid_of, render_board, texts_of};
use crate::tiles::{bag, remove_from_tiles, removed};
use vstd::prelude::*;

verus! {

broadcast use vstd::seq_lib::group_filter_ensures;

/// How many first words a search tries on an empty board.
pub const SEED_WIDTH: usize = 3;

/// How many candidate words a deep pass tries at each step.
pub const DEEP_DEPTH: usize = 7;

/// How many candidate words a shallow pass tries at each step.
pub const SHALLOW_DEPTH: usize = 3;

/// How many boards the pool keeps after ranking.
pub const POOL_LIMIT: usize = 15;

/// Candidate words this short or shorter are not joined to a chain.
pub const MIN_JOIN_LEN: usize = 4;

/// The views of a sequence of boards.
pub open spec fn views(s: Seq<Board>) -> Seq<BoardView> {
    s.map_values(|b: Board| b@)
}

/// `a` is an initial part of `b`.
pub open spec fn is_prefix(a: Seq<char>, b: Seq<char>) -> bool {
    a.len() <= b.len() && a == b.take(a.len() as int)
}

/// `after` keeps `before` as it was and adds only boards built on `tiles`.
pub open spec fn pool_extends(before: Seq<BoardView>, after: Seq<BoardView>, tiles: Seq<char>) -> bool {
    &&& before.len() <= after.len()
    &&& after.take(before.len() as int) == before
    &&& forall|k: int| before.len() <= k < after.len() ==> (#[trigger] after[k]).tiles == tiles
}

/// `grown` was built from `b`: on the same tiles, with no tiles remaining
/// that `b` did not have, and with `b`'s chain and placements kept as one
/// unbroken stretch of its own.
pub open spec fn grows_from(b: BoardView, grown: BoardView) -> bool {
    &&& grown.tiles == b.tiles
    &&& bag(grown.remaining).subset_of(bag(b.remaining))
    &&& exists|lo: int|
        0 <= lo && lo + b.words.len() <= grown.words.len() && lo + b.words.len()
            <= grown.anchors.len() && #[trigger] grown.words.subrange(
            lo,
            lo + b.words.len(),
        ) == b.words && grown.anchors.subrange(lo, lo + b.words.len()) == b.anchors
}

/// Every board of `after` beyond the first `n` was built from `b`.
pub open spec fn all_grow_from(after: Seq<BoardView>, n: int, b: BoardView) -> bool {
    forall|k: int| n <= k < after.len() ==> grows_from(b, #[trigger] after[k])
}

/// Every board of `after` beyond the first `n` has more words than `b`.
pub open spec fn all_longer(after: Seq<BoardView>, n: int, b: BoardView) -> bool {
    forall|k: int| n <= k < after.len() ==> (#[trigger] after[k]).words.len() > b.words.len()
}

/// `w` is long enough to be joined to `v`, and forms a valid junction at one
/// of its ends, on one of the two sides.
pub open spec fn joinable(v: BoardView, w: Seq<char>, junctions: Seq<Seq<char>>) -> bool {
    &&& w.len() > MIN_JOIN_LEN
    &&& {
        ||| junctions.contains(v.top_junction(w, true))
        ||| junctions.contains(v.top_junction(w, false))
        ||| junctions.contains(v.bottom_junction(w, true))
        ||| junctions.contains(v.bottom_junction(w, false))
    }
}

/// No candidate word for `v` can be joined to it.
pub open spec fn dead_end(
    v: BoardView,
    dict: Seq<Seq<char>>,
    junctions: Seq<Seq<char>>,
    depth: nat,
) -> bool {
    forall|k: int|
        0 <= k < longest(dict, v.remaining, Edge::Any, depth).len() ==> !joinable(
            v,
            #[trigger] longest(dict, v.remaining, Edge::Any, depth)[k],
            junctions,
        )
}

/// The boards a search from `v` commits, in the order it commits them, with
/// `dict` and `junctions` the dictionaries and `n` the player's tile count.
pub open spec fn committed(
    dict: Seq<Seq<char>>,
    junctions: Seq<Seq<char>>,
    n: nat,
    v: BoardView,
    depth: nat,
) -> Seq<BoardView>
    decreases v.remaining.len(), 3nat, 0nat,
{
    if v.tiles.len() != n {
        Seq::empty()
    } else if v.remaining.len() == 0 {
        seq![v]
    } else if v.words.len() == 0 {
        let cands = longest(dict, v.remaining, Edge::Any, SEED_WIDTH as nat);
        seeds_committed(dict, junctions, n, v, depth, cands, cands.len())
    } else if dead_end(v, dict, junctions, depth) {
        seq![v]
    } else {
        let cands = longest(dict, v.remaining, Edge::Any, depth);
        joins_committed(dict, junctions, n, v, depth, cands, cands.len())
    }
}

/// The boards committed from the empty board `v` started with each of the
/// first `i` of `cands`, in turn. (A candidate always takes at least one
/// tile; the length test only makes the recursion visibly finite.)
pub open spec fn seeds_committed(
    dict: Seq<Seq<char>>,
    junctions: Seq<Seq<char>>,
    n: nat,
    v: BoardView,
    depth: nat,
    cands: Seq<Seq<char>>,
    i: nat,
) -> Seq<BoardView>
    decreases v.remaining.len(), 2nat, i,
{
    if i == 0 {
        Seq::empty()
    } else {
        let w = cands[i - 1];
        let rest = removed(v.remaining, w);
        let prev = seeds_committed(dict, junctions, n, v, depth, cands, (i - 1) as nat);
        if rest.len() < v.remaining.len() {
            prev + committed(dict, junctions, n, v.seeded(w, rest), depth)
        } else {
            prev
        }
    }
}

/// The boards committed from `v` while the first `i` of `cands` are tried
/// at both ends, on both sides.
pub open spec fn joins_committed(
    dict: Seq<Seq<char>>,
    junctions: Seq<Seq<char>>,
    n: nat,
    v: BoardView,
    depth: nat,
    cands: Seq<Seq<char>>,
    i: nat,
) -> Seq<BoardView>
    decreases v.remaining.len(), 2nat, i,
{
    if i == 0 {
        Seq::empty()
    } else {
        let w = cands[i - 1];
        let prev = joins_committed(dict, junctions, n, v, depth, cands, (i - 1) as nat);
        if w.len() > MIN_JOIN_LEN {
            prev + join_committed(dict, junctions, n, v, depth, w, true, true) + join_committed(
                dict,
                junctions,
                n,
                v,
                depth,
                w,
                true,
                false,
            ) + join_committed(dict, junctions, n, v, depth, w, false, true) + join_committed(
                dict,
                junctions,
                n,
                v,
                depth,
                w,
                false,
                false,
            )
        } else {
            prev
        }
    }
}

/// The boards committed after `w` is joined to the top end (or the bottom
/// end) of `v` on the side given by `end_first`; none when that junction is
/// not valid. (As above, the length test only bounds the recursion.)
pub open spec fn join_committed(
    dict: Seq<Seq<char>>,
    junctions: Seq<Seq<char>>,
    n: nat,
    v: BoardView,
    depth: nat,
    w: Seq<char>,
    top: bool,
    end_first: bool,
) -> Seq<BoardView>
    decreases v.remaining.len(), 1nat, 0nat,
{
    let junction = if top {
        v.top_junction(w, end_first)
    } else {
        v.bottom_junction(w, end_first)
    };
    let rest = removed(v.remaining, w);
    if junctions.contains(junction) && rest.len() < v.remaining.len() {
        let child = if top {
            v.top_extended(w, rest, end_first)
        } else {
            v.bottom_extended(w, rest, end_first)
        };
        committed(dict, junctions, n, child, depth)
    } else {
        Seq::empty()
    }
}

/// A board with no words on the tiles `m`, all of them remaining.
pub open spec fn empty_board(m: Seq<char>) -> BoardView {
    BoardView {
        tiles: m,
        remaining: m,
        bottom_end: ' ',
        top_end: ' ',
        top_end_vert: false,
        bottom_end_vert: false,
        words: Seq::empty(),
        anchors: Seq::empty(),
    }
}

/// `v` moved onto the tiles `m`, which begin with its own: the tiles it
/// lacks are appended to its remaining ones.
pub open spec fn rebased(v: BoardView, m: Seq<char>) -> BoardView {
    BoardView { tiles: m, remaining: v.remaining + removed(m, v.tiles), ..v }
}

/// The boards committed by deep searches from the first `i` boards of
/// `pool`, each rebased on `m`, in turn.
pub open spec fn rebased_committed(
    dict: Seq<Seq<char>>,
    junctions: Seq<Seq<char>>,
    m: Seq<char>,
    pool: Seq<BoardView>,
    i: nat,
) -> Seq<BoardView>
    decreases i,
{
    if i == 0 || i > pool.len() {
        Seq::empty()
    } else {
        rebased_committed(dict, junctions, m, pool, (i - 1) as nat) + committed(
            dict,
            junctions,
            m.len(),
            rebased(pool[i - 1], m),
            DEEP_DEPTH as nat,
        )
    }
}

/// The pool after the searches of one pass on the tiles `m`, before it is
/// purged, deduplicated and ranked: from an empty pool, a deep search from
/// an empty board; otherwise the old boards, then what deep searches from
/// each of them rebased commit, then what a shallow search from an empty
/// board commits.
pub open spec fn searched(
    dict: Seq<Seq<char>>,
    junctions: Seq<Seq<char>>,
    m: Seq<char>,
    pool: Seq<BoardView>,
) -> Seq<BoardView> {
    if pool.len() == 0 {
        committed(dict, junctions, m.len(), empty_board(m), DEEP_DEPTH as nat)
    } else {
        pool + rebased_committed(dict, junctions, m, pool, pool.len()) + committed(
            dict,
            junctions,
            m.len(),
            empty_board(m),
            SHALLOW_DEPTH as nat,
        )
    }
}

/// One more candidate tried: the pool grows by what the four joins commit.
proof fn lemma_joins_step(
    dict: Seq<Seq<char>>,
    js: Seq<Seq<char>>,
    n: nat,
    v: BoardView,
    depth: nat,
    cands: Seq<Seq<char>>,
    i: nat,
    p0: Seq<BoardView>,
    before: Seq<BoardView>,
    after: Seq<BoardView>,
)
    requires
        i < cands.len(),
        cands[i as int].len() > MIN_JOIN_LEN,
        before == p0 + joins_committed(dict, js, n, v, depth, cands, i),
        after == before + join_committed(dict, js, n, v, depth, cands[i as int], true, true)
            + join_committed(dict, js, n, v, depth, cands[i as int], true, false) + join_committed(
            dict,
            js,
            n,
            v,
            depth,
            cands[i as int],
            false,
            true,
        ) + join_committed(dict, js, n, v, depth, cands[i as int], false, false),
    ensures
        after == p0 + joins_committed(dict, js, n, v, depth, cands, i + 1),
{
    let w = cands[i as int];
    assert(cands[(i + 1) - 1] == w);
    assert(after =~= p0 + (joins_committed(dict, js, n, v, depth, cands, i) + join_committed(
        dict,
        js,
        n,
        v,
        depth,
        w,
        true,
        true,
    ) + join_committed(dict, js, n, v, depth, w, true, false) + join_committed(
        dict,
        js,
        n,
        v,
        depth,
        w,
        false,
        true,
    ) + join_committed(dict, js, n, v, depth, w, false, false)));
}

proof fn lemma_grows_len(b: BoardView, grown: BoardView)
    requires
        grows_from(b, grown),
    ensures
        grown.words.len() >= b.words.len(),
{
}

/// Boards built from a child with more words than `b` have more words than `b`.
proof fn lemma_all_longer_from_child(after: Seq<BoardView>, n: int, b: BoardView, child: BoardView)
    requires
        all_grow_from(after, n, child),
        child.words.len() > b.words.len(),
    ensures
        all_longer(after, n, b),
{
    assert forall|k: int| n <= k < after.len() implies (#[trigger] after[k]).words.len()
        > b.words.len() by {
        lemma_grows_len(child, after[k]);
    }
}

proof fn lemma_all_longer_keep(
    before: Seq<BoardView>,
    after: Seq<BoardView>,
    n: int,
    b: BoardView,
    tiles: Seq<char>,
)
    requires
        all_longer(before, n, b),
        all_longer(after, before.len() as int, b),
        pool_extends(before, after, tiles),
        0 <= n,
    ensures
        all_longer(after, n, b),
{
    assert forall|k: int| n <= k < after.len() implies (#[trigger] after[k]).words.len()
        > b.words.len() by {
        if k < before.len() {
            assert(after[k] == after.take(before.len() as int)[k]);
            assert(before[k].words.len() > b.words.len());
        }
    }
}

proof fn lemma_grows_refl(b: BoardView)
    requires
        b.words.len() == b.anchors.len(),
    ensures
        grows_from(b, b),
{
    let lo: int = 0;
    assert(b.words.subrange(lo, lo + b.words.len()) =~= b.words);
    assert(b.anchors.subrange(lo, lo + b.words.len()) =~= b.anchors);
    assert(bag(b.remaining).subset_of(bag(b.remaining)));
}

proof fn lemma_grows_trans(a: BoardView, b: BoardView, c: BoardView)
    requires
        grows_from(a, b),
        grows_from(b, c),
        a.words.len() == a.anchors.len(),
        b.words.len() == b.anchors.len(),
    ensures
        grows_from(a, c),
{
    let lo1 = choose|lo: int|
        0 <= lo && lo + a.words.len() <= b.words.len() && lo + a.words.len() <= b.anchors.len()
            && #[trigger] b.words.subrange(
            lo,
            lo + a.words.len(),
        ) == a.words && b.anchors.subrange(lo, lo + a.words.len()) == a.anchors;
    let lo2 = choose|lo: int|
        0 <= lo && lo + b.words.len() <= c.words.len() && lo + b.words.len() <= c.anchors.len()
            && #[trigger] c.words.subrange(
            lo,
            lo + b.words.len(),
        ) == b.words && c.anchors.subrange(lo, lo + b.words.len()) == b.anchors;
    let lo = lo1 + lo2;
    assert(c.words.subrange(lo, lo + a.words.len()) =~= a.words);
    assert(c.anchors.subrange(lo, lo + a.words.len()) =~= a.anchors);
}

/// New boards built from `b` are built from whatever `b` was built from.
proof fn lemma_all_grow_trans(after: Seq<BoardView>, n: int, a: BoardView, b: BoardView)
    requires
        all_grow_from(after, n, b),
        grows_from(a, b),
        a.words.len() == a.anchors.len(),
        b.words.len() == b.anchors.len(),
    ensures
        all_grow_from(after, n, a),
{
    assert forall|k: int| n <= k < after.len() implies grows_from(a, #[trigger] after[k]) by {
        lemma_grows_trans(a, b, after[k]);
    }
}

/// Boards already present stay as they were when more are added.
proof fn lemma_all_grow_keep(
    before: Seq<BoardView>,
    after: Seq<BoardView>,
    n: int,
    b: BoardView,
    tiles: Seq<char>,
)
    requires
        all_grow_from(before, n, b),
        all_grow_from(after, before.len() as int, b),
        pool_extends(before, after, tiles),
        0 <= n,
    ensures
        all_grow_from(after, n, b),
{
    assert forall|k: int| n <= k < after.len() implies grows_from(b, #[trigger] after[k]) by {
        if k < before.len() {
            assert(after[k] == after.take(before.len() as int)[k]);
            assert(grows_from(b, before[k]));
        }
    }
}

proof fn lemma_pool_extends_refl(p: Seq<BoardView>, tiles: Seq<char>)
    ensures
        pool_extends(p, p, tiles),
{
    assert(p.take(p.len() as int) =~= p);
}

proof fn lemma_pool_extends_trans(
    a: Seq<BoardView>,
    b: Seq<BoardView>,
    c: Seq<BoardView>,
    tiles: Seq<char>,
)
    requires
        pool_extends(a, b, tiles),
        pool_extends(b, c, tiles),
    ensures
        pool_extends(a, c, tiles),
{
    assert(c.take(a.len() as int) =~= c.take(b.len() as int).take(a.len() as int));
    assert forall|k: int| a.len() <= k < c.len() implies (#[trigger] c[k]).tiles == tiles by {
        if k < b.len() {
            assert(c[k] == c.take(b.len() as int)[k]);
        }
    }
}

/// The player's tiles and the pool of boards found for them.
pub struct Session {
    pub corpus: Corpus,
    /// Every tile the player has logged, in the order logged.
    pub master_letters: Vec<char>,
    /// The finished boards.
    pub boards: Vec<Board>,
}

impl Session {
    /// The pooled boards, in order.
    pub open spec fn pool(&self) -> Seq<BoardView> {
        views(self.boards@)
    }

    /// A board that may stand in this session's pool.
    pub open spec fn admissible(&self, v: BoardView) -> bool {
        &&& v.wf()
        &&& linked(v, self.corpus.junction_words())
        &&& is_prefix(v.tiles, self.master_letters@)
    }

    pub open spec fn wf(&self) -> bool {
        &&& self.corpus.wf()
        &&& self.master_letters@.len() <= MAX_TILES
        &&& forall|k: int| 0 <= k < self.pool().len() ==> self.admissible(#[trigger] self.pool()[k])
    }

    /// A session with no tiles and no boards.
    pub fn new(corpus: Corpus) -> (r: Session)
        requires
            corpus.wf(),
        ensures
            r.wf(),
            r.corpus == corpus,
            r.master_letters@.len() == 0,
            r.pool().len() == 0,
    {
        Session { corpus, master_letters: Vec::new(), boards: Vec::new() }
    }

    /// Logs more tiles for the player.
    pub fn add_letters(&mut self, letters: &Vec<char>)
        requires
            old(self).wf(),
            old(self).master_letters@.len() + letters@.len() <= MAX_TILES,
        ensures
            final(self).wf(),
            final(self).corpus == old(self).corpus,
            final(self).master_letters@ == old(self).master_letters@ + letters@,
            final(self).pool() == old(self).pool(),
    {
        let ghost m0 = self.master_letters@;
        let mut i: usize = 0;
        while i < letters.len()
            invariant
                0 <= i <= letters@.len(),
                self.master_letters@ == m0 + letters@.take(i as int),
                m0.len() + letters@.len() <= MAX_TILES,
                self.corpus == old(self).corpus,
                self.boards@ == old(self).boards@,
                m0 == old(self).master_letters@,
            decreases letters@.len() - i,
        {
            self.master_letters.push(letters[i]);
            assert(m0 + letters@.take(i + 1) =~= (m0 + letters@.take(i as int)).push(letters@[i as int]));
            i = i + 1;
        }
        assert(letters@.take(letters@.len() as int) =~= letters@);
        assert forall|k: int| 0 <= k < self.pool().len() implies self.admissible(
            #[trigger] self.pool()[k],
        ) by {
            let t = self.pool()[k].tiles;
            assert(old(self).admissible(old(self).pool()[k]));
            assert(self.master_letters@.take(t.len() as int) =~= m0.take(t.len() as int));
        }
    }

    /// The tiles the player has logged.
    pub fn get_master_letters(&self) -> (r: Vec<char>)
        ensures
            r@ == self.master_letters@,
    {
        let r = self.master_letters.clone();
        assert(r@ =~= self.master_letters@);
        r
    }

    /// Forgets the player's tiles and every board.
    pub fn reset_master_letters(&mut self)
        requires
            old(self).wf(),
        ensures
            final(self).wf(),
            final(self).corpus == old(self).corpus,
            final(self).master_letters@.len() == 0,
            final(self).pool().len() == 0,
    {
        self.master_letters.clear();
        self.boards.clear();
        assert(self.pool() =~= Seq::<BoardView>::empty());
    }

    /// Forgets every board, keeping the player's tiles.
    pub fn reset_boards(&mut self)
        requires
            old(self).wf(),
        ensures
            final(self).wf(),
            final(self).corpus == old(self).corpus,
            final(self).master_letters@ == old(self).master_letters@,
            final(self).pool().len() == 0,
    {
        self.boards.clear();
        assert(self.pool() =~= Seq::<BoardView>::empty());
    }

    /// Searches for boards that extend `b` and adds the finished ones to the
    /// pool. A board built on fewer or more tiles than the player now has is
    /// dropped; one with no tiles left is finished; an empty board is started
    /// with each of the few longest words; otherwise every candidate word
    /// longer than the minimum is tried at both ends, on both sides, and each
    /// valid junction opens a branch. A board that admits no word at all is
    /// finished as it stands.
    #[verifier::rlimit(40)]
    pub fn construct(&mut self, b: &Board, depth: usize)
        requires
            old(self).wf(),
            old(self).admissible(b@),
        ensures
            final(self).wf(),
            final(self).corpus == old(self).corpus,
            final(self).master_letters@ == old(self).master_letters@,
            pool_extends(old(self).pool(), final(self).pool(), b@.tiles),
            b@.tiles.len() != old(self).master_letters@.len() ==> final(self).pool() == old(
                self,
            ).pool(),
            b@.tiles.len() == old(self).master_letters@.len() && b@.remaining.len() == 0
                ==> final(self).pool() == old(self).pool().push(b@),
            b@.tiles.len() == old(self).master_letters@.len() && b@.words.len() > 0
                ==> final(self).pool().len() > old(self).pool().len(),
            all_grow_from(final(self).pool(), old(self).pool().len() as int, b@),
            final(self).pool() == old(self).pool() + committed(
                old(self).corpus.dict(),
                old(self).corpus.junction_words(),
                old(self).master_letters@.len(),
                b@,
                depth as nat,
            ),
            b@.tiles.len() == old(self).master_letters@.len() && b@.remaining.len() > 0
                && b@.words.len() == 0 ==> (final(self).pool().len() > old(self).pool().len()
                <==> longest(old(self).corpus.dict(), b@.remaining, Edge::Any, SEED_WIDTH as nat).len()
                > 0),
            b@.tiles.len() == old(self).master_letters@.len() && b@.remaining.len() > 0
                && b@.words.len() > 0 && dead_end(
                b@,
                old(self).corpus.dict(),
                old(self).corpus.junction_words(),
                depth as nat,
            ) ==> final(self).pool() == old(self).pool().push(b@),
            b@.tiles.len() == old(self).master_letters@.len() && b@.remaining.len() > 0 && !(
            b@.words.len() > 0 && dead_end(
                b@,
                old(self).corpus.dict(),
                old(self).corpus.junction_words(),
                depth as nat,
            )) ==> all_longer(final(self).pool(), old(self).pool().len() as int, b@),
        decreases b@.remaining.len(), 3nat,
    {
        let ghost p0 = self.pool();
        let ghost v = b@;
        proof {
            lemma_pool_extends_refl(p0, v.tiles);
            lemma_grows_refl(v);
        }
        if b.tiles.len() != self.master_letters.len() {
            assert(p0 + Seq::<BoardView>::empty() =~= p0);
            return;
        }
        if b.remaining.len() == 0 {
            self.copy_and_push(b);
            assert(self.pool().take(p0.len() as int) =~= p0);
            assert(p0.push(v) =~= p0 + seq![v]);
            return;
        }
        let ghost dict = self.corpus.dict();
        let ghost js = self.corpus.junction_words();
        let ghost n = self.master_letters@.len();
        if b.words.len() == 0 {
            let ghost cands = longest(dict, v.remaining, Edge::Any, SEED_WIDTH as nat);
            assert(committed(dict, js, n, v, depth as nat) == seeds_committed(
                dict,
                js,
                n,
                v,
                depth as nat,
                cands,
                cands.len(),
            ));
            self.seed_step(b, depth);
        } else {
            let ghost cands = longest(dict, v.remaining, Edge::Any, depth as nat);
            assert(committed(dict, js, n, v, depth as nat) == if dead_end(v, dict, js, depth as nat) {
                seq![v]
            } else {
                joins_committed(dict, js, n, v, depth as nat, cands, cands.len())
            });
            self.extend_step(b, depth);
            assert(p0.push(v) =~= p0 + seq![v]);
        }
    }

    /// Starts an empty board with each of the few longest words.
    fn seed_step(&mut self, b: &Board, depth: usize)
        requires
            old(self).wf(),
            old(self).admissible(b@),
            b@.tiles.len() == old(self).master_letters@.len(),
            b@.words.len() == 0,
        ensures
            final(self).wf(),
            final(self).corpus == old(self).corpus,
            final(self).master_letters@ == old(self).master_letters@,
            pool_extends(old(self).pool(), final(self).pool(), b@.tiles),
            all_grow_from(final(self).pool(), old(self).pool().len() as int, b@),
            all_longer(final(self).pool(), old(self).pool().len() as int, b@),
            final(self).pool() == old(self).pool() + seeds_committed(
                old(self).corpus.dict(),
                old(self).corpus.junction_words(),
                old(self).master_letters@.len(),
                b@,
                depth as nat,
                longest(old(self).corpus.dict(), b@.remaining, Edge::Any, SEED_WIDTH as nat),
                longest(old(self).corpus.dict(), b@.remaining, Edge::Any, SEED_WIDTH as nat).len(),
            ),
            final(self).pool().len() > old(self).pool().len() <==> longest(
                old(self).corpus.dict(),
                b@.remaining,
                Edge::Any,
                SEED_WIDTH as nat,
            ).len() > 0,
        decreases b@.remaining.len(), 1nat,
    {
        let ghost p0 = self.pool();
        let ghost v = b@;
        proof {
            lemma_pool_extends_refl(p0, v.tiles);
        }
        let l = self.corpus.find_longest_words(&b.remaining, SEED_WIDTH);
        proof {
            lemma_longest_members(self.corpus.dict(), v.remaining, Edge::Any, SEED_WIDTH as nat);
        }
        let mut i: usize = 0;
        while i < l.len()
            invariant
                0 <= i <= l@.len(),
                self.wf(),
                self.corpus == old(self).corpus,
                self.master_letters@ == old(self).master_letters@,
                p0 == old(self).pool(),
                v == b@,
                old(self).admissible(v),
                v.words.len() == 0,
                v.tiles.len() == self.master_letters@.len(),
                pool_extends(p0, self.pool(), v.tiles),
                all_grow_from(self.pool(), p0.len() as int, v),
                all_longer(self.pool(), p0.len() as int, v),
                i == 0 ==> self.pool() == p0,
                i > 0 ==> self.pool().len() > p0.len(),
                self.pool() == p0 + seeds_committed(
                    self.corpus.dict(),
                    self.corpus.junction_words(),
                    self.master_letters@.len(),
                    v,
                    depth as nat,
                    texts(l@),
                    i as nat,
                ),
                texts(l@) == longest(self.corpus.dict(), v.remaining, Edge::Any, SEED_WIDTH as nat),
                forall|k: int| 0 <= k < texts(l@).len() ==> {
                    let w = #[trigger] texts(l@)[k];
                    qualifies(w, v.remaining, Edge::Any) && self.corpus.dict().contains(w)
                },
            decreases l@.len() - i,
        {
            let word = &l[i];
            proof {
                assert(texts(l@)[i as int] == word@);
                let j = choose|j: int|
                    0 <= j < self.corpus.dict().len() && self.corpus.dict()[j] == word@;
                assert(self.corpus.dict()[j].len() > 0);
            }
            let rest = remove_from_tiles(word, &b.remaining);
            let b2 = b.seeded(word, rest);
            proof {
                lemma_placement_sizes(v, word@, b2@.remaining);
                lemma_seeded_linked(v, word@, b2@.remaining, self.corpus.junction_words());
                crate::tiles::lemma_difference_subset(bag(v.remaining), bag(word@));
                let lo: int = 0;
                assert(b2@.words.subrange(lo, lo + v.words.len()) =~= v.words);
                assert(b2@.anchors.subrange(lo, lo + v.words.len()) =~= v.anchors);
                assert(grows_from(v, b2@));
            }
            let ghost p1 = self.pool();
            self.construct(&b2, depth);
            proof {
                lemma_all_grow_trans(self.pool(), p1.len() as int, v, b2@);
                lemma_all_grow_keep(p1, self.pool(), p0.len() as int, v, v.tiles);
                lemma_all_longer_from_child(self.pool(), p1.len() as int, v, b2@);
                lemma_all_longer_keep(p1, self.pool(), p0.len() as int, v, v.tiles);
                lemma_pool_extends_trans(p0, p1, self.pool(), v.tiles);
                let dict = self.corpus.dict();
                let js = self.corpus.junction_words();
                let nn = self.master_letters@.len();
                let prev = seeds_committed(dict, js, nn, v, depth as nat, texts(l@), i as nat);
                assert(texts(l@)[(i + 1) - 1] == word@);
                assert(seeds_committed(dict, js, nn, v, depth as nat, texts(l@), (i + 1) as nat)
                    == prev + committed(dict, js, nn, b2@, depth as nat));
                assert(self.pool() =~= p0 + (prev + committed(dict, js, nn, b2@, depth as nat)));
            }
            i = i + 1;
        }
    }

    /// Tries every long enough candidate word at both ends of a board that
    /// has words; a board that admits none is finished as it stands.
    #[verifier::rlimit(80)]
    fn extend_step(&mut self, b: &Board, depth: usize)
        requires
            old(self).wf(),
            old(self).admissible(b@),
            b@.tiles.len() == old(self).master_letters@.len(),
            b@.words.len() > 0,
        ensures
            final(self).wf(),
            final(self).corpus == old(self).corpus,
            final(self).master_letters@ == old(self).master_letters@,
            pool_extends(old(self).pool(), final(self).pool(), b@.tiles),
            final(self).pool().len() > old(self).pool().len(),
            all_grow_from(final(self).pool(), old(self).pool().len() as int, b@),
            dead_end(b@, old(self).corpus.dict(), old(self).corpus.junction_words(), depth as nat)
                ==> final(self).pool() == old(self).pool().push(b@),
            !dead_end(b@, old(self).corpus.dict(), old(self).corpus.junction_words(), depth as nat)
                ==> final(self).pool() == old(self).pool() + joins_committed(
                old(self).corpus.dict(),
                old(self).corpus.junction_words(),
                old(self).master_letters@.len(),
                b@,
                depth as nat,
                longest(old(self).corpus.dict(), b@.remaining, Edge::Any, depth as nat),
                longest(old(self).corpus.dict(), b@.remaining, Edge::Any, depth as nat).len(),
            ),
            !dead_end(b@, old(self).corpus.dict(), old(self).corpus.junction_words(), depth as nat)
                ==> all_longer(final(self).pool(), old(self).pool().len() as int, b@),
        decreases b@.remaining.len(), 2nat,
    {
        let ghost p0 = self.pool();
        let ghost v = b@;
        proof {
            lemma_pool_extends_refl(p0, v.tiles);
            lemma_grows_refl(v);
        }
        let mut made_words = false;
        let l = self.corpus.find_longest_words(&b.remaining, depth);
        proof {
            lemma_longest_members(self.corpus.dict(), v.remaining, Edge::Any, depth as nat);
        }
        let mut i: usize = 0;
        while i < l.len()
            invariant
                0 <= i <= l@.len(),
                self.wf(),
                self.corpus == old(self).corpus,
                self.master_letters@ == old(self).master_letters@,
                p0 == old(self).pool(),
                v == b@,
                old(self).admissible(v),
                v.words.len() > 0,
                v.tiles.len() == self.master_letters@.len(),
                pool_extends(p0, self.pool(), v.tiles),
                made_words ==> self.pool().len() > p0.len(),
                !made_words ==> self.pool() == p0,
                all_grow_from(self.pool(), p0.len() as int, v),
                all_longer(self.pool(), p0.len() as int, v),
                self.pool() == p0 + joins_committed(
                    self.corpus.dict(),
                    self.corpus.junction_words(),
                    self.master_letters@.len(),
                    v,
                    depth as nat,
                    texts(l@),
                    i as nat,
                ),
                made_words ==> exists|k: int|
                    0 <= k < i && joinable(v, #[trigger] texts(l@)[k], self.corpus.junction_words()),
                !made_words ==> forall|k: int|
                    0 <= k < i ==> !joinable(v, #[trigger] texts(l@)[k], self.corpus.junction_words()),
                texts(l@) == longest(self.corpus.dict(), v.remaining, Edge::Any, depth as nat),
                forall|k: int| 0 <= k < texts(l@).len() ==> {
                    let w = #[trigger] texts(l@)[k];
                    qualifies(w, v.remaining, Edge::Any) && self.corpus.dict().contains(w)
                },
            decreases l@.len() - i,
        {
            let word = &l[i];
            proof {
                assert(texts(l@)[i as int] == word@);
                let j = choose|j: int|
                    0 <= j < self.corpus.dict().len() && self.corpus.dict()[j] == word@;
                assert(self.corpus.dict()[j].len() > 0);
            }
            proof {
                let prev = joins_committed(
                    self.corpus.dict(),
                    self.corpus.junction_words(),
                    self.master_letters@.len(),
                    v,
                    depth as nat,
                    texts(l@),
                    i as nat,
                );
                assert(texts(l@)[(i + 1) - 1] == word@);
                if word@.len() <= MIN_JOIN_LEN {
                    assert(joins_committed(
                        self.corpus.dict(),
                        self.corpus.junction_words(),
                        self.master_letters@.len(),
                        v,
                        depth as nat,
                        texts(l@),
                        (i + 1) as nat,
                    ) == prev);
                }
            }
            if word.len() > MIN_JOIN_LEN {
                let ghost q0 = self.pool();
                let m = self.try_word(b, word, depth);
                proof {
                    lemma_all_grow_keep(q0, self.pool(), p0.len() as int, v, v.tiles);
                    lemma_all_longer_keep(q0, self.pool(), p0.len() as int, v, v.tiles);
                    lemma_pool_extends_trans(p0, q0, self.pool(), v.tiles);
                    if m {
                        assert(joinable(v, texts(l@)[i as int], self.corpus.junction_words()));
                    }
                    lemma_joins_step(
                        self.corpus.dict(),
                        self.corpus.junction_words(),
                        self.master_letters@.len(),
                        v,
                        depth as nat,
                        texts(l@),
                        i as nat,
                        p0,
                        q0,
                        self.pool(),
                    );
                }
                made_words = made_words || m;
            }
            i = i + 1;
        }
        let ghost cands = longest(self.corpus.dict(), v.remaining, Edge::Any, depth as nat);
        let ghost junctions = self.corpus.junction_words();
        if !made_words {
            assert(dead_end(v, self.corpus.dict(), junctions, depth as nat)) by {
                assert forall|k: int| 0 <= k < cands.len() implies !joinable(
                    v,
                    #[trigger] cands[k],
                    junctions,
                ) by {
                    assert(texts(l@)[k] == cands[k]);
                }
            }
            self.copy_and_push(b);
            assert(self.pool().take(p0.len() as int) =~= p0);
            assert(self.pool()[p0.len() as int] == v);
        } else {
            proof {
                let k = choose|k: int|
                    0 <= k < i && joinable(v, #[trigger] texts(l@)[k], junctions);
                assert(cands[k] == texts(l@)[k]);
                assert(!dead_end(v, self.corpus.dict(), junctions, depth as nat));
            }
        }
    }

    /// Tries `word` at both ends of `b`, on both sides, searching on from
    /// each valid junction. Returns whether any junction was valid.
    fn try_word(&mut self, b: &Board, word: &Vec<char>, depth: usize) -> (made: bool)
        requires
            old(self).wf(),
            old(self).admissible(b@),
            b@.words.len() > 0,
            b@.tiles.len() == old(self).master_letters@.len(),
            word@.len() > MIN_JOIN_LEN,
            crate::tiles::fits(word@, b@.remaining),
        ensures
            final(self).wf(),
            final(self).corpus == old(self).corpus,
            final(self).master_letters@ == old(self).master_letters@,
            pool_extends(old(self).pool(), final(self).pool(), b@.tiles),
            all_grow_from(final(self).pool(), old(self).pool().len() as int, b@),
            all_longer(final(self).pool(), old(self).pool().len() as int, b@),
            made == joinable(b@, word@, old(self).corpus.junction_words()),
            made ==> final(self).pool().len() > old(self).pool().len(),
            !made ==> final(self).pool() == old(self).pool(),
            final(self).pool() == old(self).pool() + join_committed(
                old(self).corpus.dict(),
                old(self).corpus.junction_words(),
                old(self).master_letters@.len(),
                b@,
                depth as nat,
                word@,
                true,
                true,
            ) + join_committed(
                old(self).corpus.dict(),
                old(self).corpus.junction_words(),
                old(self).master_letters@.len(),
                b@,
                depth as nat,
                word@,
                true,
                false,
            ) + join_committed(
                old(self).corpus.dict(),
                old(self).corpus.junction_words(),
                old(self).master_letters@.len(),
                b@,
                depth as nat,
                word@,
                false,
                true,
            ) + join_committed(
                old(self).corpus.dict(),
                old(self).corpus.junction_words(),
                old(self).master_letters@.len(),
                b@,
                depth as nat,
                word@,
                false,
                false,
            ),
        decreases b@.remaining.len(), 1nat,
    {
        let ghost p0 = self.pool();
        let ghost v = b@;
        let ghost q0 = self.pool();
        let a = self.try_join(b, word, true, true, depth);
        let ghost q1 = self.pool();
        let c = self.try_join(b, word, true, false, depth);
        let ghost q2 = self.pool();
        proof {
            lemma_all_grow_keep(q0, q1, p0.len() as int, v, v.tiles);
            lemma_all_grow_keep(q1, q2, p0.len() as int, v, v.tiles);
            lemma_all_longer_keep(q0, q1, p0.len() as int, v, v.tiles);
            lemma_all_longer_keep(q1, q2, p0.len() as int, v, v.tiles);
            lemma_pool_extends_trans(p0, q1, q2, v.tiles);
        }
        let d = self.try_join(b, word, false, true, depth);
        let ghost q3 = self.pool();
        let e = self.try_join(b, word, false, false, depth);
        proof {
            lemma_all_grow_keep(q2, q3, p0.len() as int, v, v.tiles);
            lemma_all_grow_keep(q3, self.pool(), p0.len() as int, v, v.tiles);
            lemma_all_longer_keep(q2, q3, p0.len() as int, v, v.tiles);
            lemma_all_longer_keep(q3, self.pool(), p0.len() as int, v, v.tiles);
            lemma_pool_extends_trans(p0, q2, q3, v.tiles);
            lemma_pool_extends_trans(p0, q3, self.pool(), v.tiles);
            assert(self.pool() =~= q3 + (self.pool().skip(q3.len() as int)));
        }
        a || c || d || e
    }

    /// Tries to join `word` to the top end (or the bottom end) of `b`, on the
    /// side given by `end_first`; when the junction is valid, searches on from
    /// the extended board. Returns whether the junction was valid.
    #[verifier::rlimit(40)]
    fn try_join(
        &mut self,
        b: &Board,
        word: &Vec<char>,
        top: bool,
        end_first: bool,
        depth: usize,
    ) -> (r: bool)
        requires
            old(self).wf(),
            old(self).admissible(b@),
            b@.words.len() > 0,
            b@.tiles.len() == old(self).master_letters@.len(),
            word@.len() > 0,
            crate::tiles::fits(word@, b@.remaining),
        ensures
            final(self).wf(),
            final(self).corpus == old(self).corpus,
            final(self).master_letters@ == old(self).master_letters@,
            pool_extends(old(self).pool(), final(self).pool(), b@.tiles),
            r == old(self).corpus.junction_words().contains(
                if top {
                    b@.top_junction(word@, end_first)
                } else {
                    b@.bottom_junction(word@, end_first)
                },
            ),
            r ==> final(self).pool().len() > old(self).pool().len(),
            !r ==> final(self).pool() == old(self).pool(),
            all_grow_from(final(self).pool(), old(self).pool().len() as int, b@),
            all_longer(final(self).pool(), old(self).pool().len() as int, b@),
            final(self).pool() == old(self).pool() + join_committed(
                old(self).corpus.dict(),
                old(self).corpus.junction_words(),
                old(self).master_letters@.len(),
                b@,
                depth as nat,
                word@,
                top,
                end_first,
            ),
        decreases b@.remaining.len(), 0nat,
    {
        let ghost v = b@;
        let ghost p0 = self.pool();
        proof {
            lemma_pool_extends_refl(p0, v.tiles);
        }
        let c = if top {
            if b.top_end_vert {
                word[word.len() - 1]
            } else {
                word[0]
            }
        } else {
            if b.bottom_end_vert {
                word[0]
            } else {
                word[word.len() - 1]
            }
        };
        let e = if top {
            b.top_end
        } else {
            b.bottom_end
        };
        let mut junction: Vec<char> = Vec::new();
        if end_first {
            junction.push(e);
            junction.push(c);
        } else {
            junction.push(c);
            junction.push(e);
        }
        let ghost expected = if top {
            v.top_junction(word@, end_first)
        } else {
            v.bottom_junction(word@, end_first)
        };
        assert(junction@ =~= expected);
        if !self.corpus.is_valid_two_letter(&junction) {
            assert(p0 + Seq::<BoardView>::empty() =~= p0);
            return false;
        }
        let rest = remove_from_tiles(word, &b.remaining);
        proof {
            lemma_placement_sizes(v, word@, rest@);
        }
        let b2 = if top {
            proof {
                lemma_top_linked(v, word@, rest@, end_first, self.corpus.junction_words());
            }
            b.extend_top(word, rest, end_first)
        } else {
            proof {
                lemma_bottom_linked(v, word@, rest@, end_first, self.corpus.junction_words());
            }
            b.extend_bottom(word, rest, end_first)
        };
        proof {
            let lo: int = if top {
                0
            } else {
                1
            };
            crate::tiles::lemma_difference_subset(bag(v.remaining), bag(word@));
            assert(b2@.words.subrange(lo, lo + v.words.len()) =~= v.words);
            assert(b2@.anchors.subrange(lo, lo + v.words.len()) =~= v.anchors);
            assert(grows_from(v, b2@));
        }
        self.construct(&b2, depth);
        proof {
            lemma_all_grow_trans(self.pool(), p0.len() as int, v, b2@);
            lemma_all_longer_from_child(self.pool(), p0.len() as int, v, b2@);
        }
        true
    }

    /// Drops every board built on fewer tiles than the player now has.
    pub fn purge_old_boards(&mut self)
        requires
            old(self).wf(),
        ensures
            final(self).wf(),
            final(self).corpus == old(self).corpus,
            final(self).master_letters@ == old(self).master_letters@,
            final(self).pool() == purged(old(self).pool(), old(self).master_letters@.len()),
            forall|k: int|
                0 <= k < final(self).pool().len() ==> (#[trigger] final(self).pool()[k]).tiles.len()
                    == final(self).master_letters@.len(),
    {
        let ghost p0 = self.pool();
        let ghost n = self.master_letters@.len();
        let mut kept: Vec<Board> = Vec::new();
        let mut i: usize = 0;
        while i < self.boards.len()
            invariant
                0 <= i <= p0.len(),
                self.pool() == p0,
                n == self.master_letters@.len(),
                views(kept@) == purged(p0.take(i as int), n),
            decreases p0.len() - i,
        {
            proof {
                assert(p0.take(i + 1) =~= p0.take(i as int).push(p0[i as int]));
                p0.take(i as int).lemma_filter_push(p0[i as int], is_current(n));
            }
            if self.boards[i].tiles.len() >= self.master_letters.len() {
                let ghost before = views(kept@);
                kept.push(self.boards[i].copy());
                assert(views(kept@) =~= before.push(p0[i as int]));
            }
            i = i + 1;
        }
        assert(p0.take(p0.len() as int) =~= p0);
        self.boards = kept;
        proof {
            assert forall|k: int| 0 <= k < self.pool().len() implies #[trigger] self.admissible(
                self.pool()[k],
            ) && self.pool()[k].tiles.len() == n by {
                let f = p0.filter(is_current(n));
                assert(f[k] == self.pool()[k]);
                assert(f.contains(self.pool()[k]));
                p0.lemma_filter_contains_rev(is_current(n), self.pool()[k]);
                p0.lemma_filter_pred(is_current(n), k);
                let j = choose|j: int| 0 <= j < p0.len() && p0[j] == self.pool()[k];
                assert(old(self).admissible(p0[j]));
            }
        }
    }

    /// Drops every board whose chain of words, compared in order, an earlier
    /// board already has; boards with the same words in another order are
    /// kept.
    pub fn remove_duplicates(&mut self)
        requires
            old(self).wf(),
        ensures
            final(self).wf(),
            final(self).corpus == old(self).corpus,
            final(self).master_letters@ == old(self).master_letters@,
            final(self).pool() == deduplicated(old(self).pool()),
            forall|k: int|
                0 <= k < final(self).pool().len() ==> old(self).pool().contains(
                    #[trigger] final(self).pool()[k],
                ),
    {
        let ghost p0 = self.pool();
        let mut kept: Vec<Board> = Vec::new();
        let mut i: usize = 0;
        while i < self.boards.len()
            invariant
                0 <= i <= p0.len(),
                self.pool() == p0,
                self.wf(),
                views(kept@) == deduplicated(p0.take(i as int)),
                forall|k: int|
                    0 <= k < views(kept@).len() ==> self.admissible(#[trigger] views(kept@)[k])
                        && p0.contains(views(kept@)[k]),
            decreases p0.len() - i,
        {
            proof {
                assert(p0.take(i + 1).drop_last() =~= p0.take(i as int));
                assert(p0.take(i + 1).last() == p0[i as int]);
            }
            if !has_chain(&kept, &self.boards[i].words) {
                let ghost before = views(kept@);
                kept.push(self.boards[i].copy());
                assert(views(kept@) =~= before.push(p0[i as int]));
                assert(self.admissible(p0[i as int]));
                assert(p0.contains(p0[i as int]));
            }
            i = i + 1;
        }
        assert(p0.take(p0.len() as int) =~= p0);
        self.boards = kept;
    }

    /// Orders the pool by the number of tiles each board leaves unplaced,
    /// most first, keeping the order of boards that leave as many, and keeps
    /// the first `POOL_LIMIT` boards.
    pub fn sort_boards(&mut self)
        requires
            old(self).wf(),
        ensures
            final(self).wf(),
            final(self).corpus == old(self).corpus,
            final(self).master_letters@ == old(self).master_letters@,
            final(self).pool() == ranked(old(self).pool(), POOL_LIMIT as nat),
            forall|k: int|
                0 <= k < final(self).pool().len() ==> old(self).pool().contains(
                    #[trigger] final(self).pool()[k],
                ),
    {
        let ghost p0 = self.pool();
        let mut sorted: Vec<Board> = Vec::new();
        let mut i: usize = 0;
        while i < self.boards.len()
            invariant
                0 <= i <= p0.len(),
                self.pool() == p0,
                self.wf(),
                views(sorted@) == sort_ranked(p0.take(i as int)),
                forall|k: int|
                    0 <= k < views(sorted@).len() ==> self.admissible(#[trigger] views(sorted@)[k])
                        && p0.contains(views(sorted@)[k]),
            decreases p0.len() - i,
        {
            proof {
                assert(p0.take(i + 1).drop_last() =~= p0.take(i as int));
                assert(p0.take(i + 1).last() == p0[i as int]);
            }
            let b = self.boards[i].copy();
            let ghost v = b@;
            let mut pos: usize = 0;
            while pos < sorted.len() && sorted[pos].remaining.len() >= b.remaining.len()
                invariant
                    0 <= pos <= sorted@.len(),
                    forall|j: int| 0 <= j < pos ==> key(#[trigger] views(sorted@)[j]) >= key(v),
                    v == b@,
                decreases sorted@.len() - pos,
            {
                pos = pos + 1;
            }
            proof {
                lemma_insert_ranked_at(views(sorted@), v, pos as int);
                assert(self.admissible(p0[i as int]));
                assert(p0.contains(p0[i as int]));
            }
            let ghost before = views(sorted@);
            sorted.insert(pos, b);
            assert(views(sorted@) =~= before.insert(pos as int, v));
            i = i + 1;
        }
        assert(p0.take(p0.len() as int) =~= p0);
        let ghost full = views(sorted@);
        sorted.truncate(POOL_LIMIT);
        assert(views(sorted@) =~= ranked(p0, POOL_LIMIT as nat));
        self.boards = sorted;
    }

    /// One search pass. With an empty pool a deep search starts from an empty
    /// board; otherwise each pooled board is rebased on the player's current
    /// tiles and searched on deeply, and a shallow search starts from an
    /// empty board as well. The pool is then purged of stale boards and of
    /// repeated chains, ranked, and cut to `POOL_LIMIT` boards.
    pub fn solve(&mut self)
        requires
            old(self).wf(),
        ensures
            final(self).wf(),
            final(self).corpus == old(self).corpus,
            final(self).master_letters@ == old(self).master_letters@,
            final(self).pool() == ranked(
                deduplicated(
                    purged(
                        searched(
                            old(self).corpus.dict(),
                            old(self).corpus.junction_words(),
                            old(self).master_letters@,
                            old(self).pool(),
                        ),
                        old(self).master_letters@.len(),
                    ),
                ),
                POOL_LIMIT as nat,
            ),
            final(self).pool().len() <= POOL_LIMIT,
            old(self).pool().len() == 0 && longest(
                old(self).corpus.dict(),
                old(self).master_letters@,
                Edge::Any,
                SEED_WIDTH as nat,
            ).len() > 0 ==> final(self).pool().len() > 0,
            forall|k: int|
                0 <= k < final(self).pool().len() ==> (#[trigger] final(self).pool()[k]).tiles.len()
                    == final(self).master_letters@.len(),
    {
        let ghost p0 = self.pool();
        let ghost m = self.master_letters@;
        proof {
            lemma_pool_extends_refl(p0, m);
        }
        let ghost seeds = longest(self.corpus.dict(), m, Edge::Any, SEED_WIDTH as nat);
        let ghost dict = self.corpus.dict();
        let ghost js = self.corpus.junction_words();
        if self.boards.len() == 0 {
            let b = Board::empty(&self.master_letters);
            assert(self.master_letters@.take(m.len() as int) =~= m);
            assert(b@.words =~= Seq::<Seq<char>>::empty());
            assert(b@.anchors =~= Seq::<crate::board::Anchor>::empty());
            assert(b@ == empty_board(m));
            proof {
                if seeds.len() > 0 {
                    lemma_longest_members(self.corpus.dict(), m, Edge::Any, SEED_WIDTH as nat);
                    let w = seeds[0];
                    let j = choose|j: int|
                        0 <= j < self.corpus.dict().len() && self.corpus.dict()[j] == w;
                    assert(self.corpus.dict()[j].len() > 0);
                    crate::tiles::lemma_difference_add(bag(m), bag(w));
                    m.to_multiset_ensures();
                    w.to_multiset_ensures();
                }
            }
            self.construct(&b, DEEP_DEPTH);
            assert(self.pool() =~= searched(dict, js, m, p0));
        } else {
            let mut recurse: Vec<Board> = Vec::new();
            let mut i: usize = 0;
            while i < self.boards.len()
                invariant
                    0 <= i <= self.boards@.len(),
                    self.wf(),
                    recurse@.len() == i,
                    self.pool() == p0,
                    views(recurse@) == p0.take(i as int),
                    forall|k: int| 0 <= k < i ==> self.admissible(#[trigger] views(recurse@)[k]),
                decreases self.boards@.len() - i,
            {
                let b = self.boards[i].copy();
                assert(self.admissible(self.pool()[i as int]));
                let ghost before = views(recurse@);
                recurse.push(b);
                assert(views(recurse@) =~= before.push(b@));
                assert(views(recurse@) =~= p0.take(i + 1));
                i = i + 1;
            }
            assert(views(recurse@) =~= p0);
            let mut j: usize = 0;
            while j < recurse.len()
                invariant
                    0 <= j <= recurse@.len(),
                    self.wf(),
                    self.corpus == old(self).corpus,
                    self.master_letters@ == m,
                    pool_extends(p0, self.pool(), m),
                    views(recurse@) == p0,
                    dict == self.corpus.dict(),
                    js == self.corpus.junction_words(),
                    self.pool() == p0 + rebased_committed(dict, js, m, p0, j as nat),
                    forall|k: int|
                        0 <= k < recurse@.len() ==> self.admissible(#[trigger] views(recurse@)[k]),
                decreases recurse@.len() - j,
            {
                assert(self.admissible(views(recurse@)[j as int]));
                let r = recurse[j].refreshed(&self.master_letters);
                proof {
                    let v = recurse@[j as int]@;
                    assert(self.master_letters@.take(m.len() as int) =~= m);
                    assert forall|t: int| 0 <= t < r@.words.len() - 1 implies self.corpus.junction_words().contains(
                        #[trigger] crate::board::junction(r@, t),
                    ) by {
                        assert(crate::board::junction(r@, t) == crate::board::junction(v, t));
                    }
                }
                assert(recurse@[j as int]@ == p0[j as int]);
                assert(r@ == rebased(p0[j as int], m));
                let ghost p1 = self.pool();
                self.construct(&r, DEEP_DEPTH);
                proof {
                    lemma_pool_extends_trans(p0, p1, self.pool(), m);
                    let prev = rebased_committed(dict, js, m, p0, j as nat);
                    let more = committed(dict, js, m.len(), rebased(p0[j as int], m), DEEP_DEPTH as nat);
                    assert(rebased_committed(dict, js, m, p0, (j + 1) as nat) == prev + more);
                    assert(self.pool() =~= p0 + (prev + more));
                }
                j = j + 1;
            }
            let b = Board::empty(&self.master_letters);
            assert(self.master_letters@.take(m.len() as int) =~= m);
            assert(b@.words =~= Seq::<Seq<char>>::empty());
            assert(b@.anchors =~= Seq::<crate::board::Anchor>::empty());
            assert(b@ == empty_board(m));
            let ghost p2 = self.pool();
            self.construct(&b, SHALLOW_DEPTH);
            proof {
                lemma_pool_extends_trans(p0, p2, self.pool(), m);
                assert(self.pool() =~= searched(dict, js, m, p0));
            }
        }
        let ghost found = self.pool();
        self.purge_old_boards();
        let ghost fresh = self.pool();
        self.remove_duplicates();
        let ghost distinct = self.pool();
        self.sort_boards();
        assert(pool_extends(p0, found, m));
        proof {
            if p0.len() == 0 && seeds.len() > 0 {
                assert(found.len() > 0);
                assert(found[0].tiles == m);
                found.lemma_filter_contains(is_current(m.len()), 0);
                assert(fresh.len() > 0);
                crate::pool::lemma_deduplicated_nonempty(fresh);
                crate::pool::lemma_sort_ranked_order(distinct);
            }
        }
        assert forall|k: int| 0 <= k < self.pool().len() implies (#[trigger] self.pool()[k]).tiles.len()
            == m.len() by {
            let d = choose|d: int| 0 <= d < distinct.len() && distinct[d] == self.pool()[k];
            let f = choose|f: int| 0 <= f < fresh.len() && fresh[f] == distinct[d];
            assert(fresh[f].tiles.len() == m.len());
        }

    }

    /// Rebases every pooled board on the player's current tiles, the tiles a
    /// board lacks joining its remaining ones, and returns the grid of each.
    pub fn pretty_print_boards(&mut self) -> (r: Vec<Vec<Vec<char>>>)
        requires
            old(self).wf(),
        ensures
            final(self).wf(),
            final(self).corpus == old(self).corpus,
            final(self).master_letters@ == old(self).master_letters@,
            final(self).pool().len() == old(self).pool().len(),
            r@.len() == old(self).pool().len(),
            forall|k: int|
                0 <= k < r@.len() ==> {
                    let before = #[trigger] old(self).pool()[k];
                    let after = final(self).pool()[k];
                    &&& after == (BoardView {
                        tiles: old(self).master_letters@,
                        remaining: after.remaining,
                        ..before
                    })
                    &&& after.remaining == before.remaining + removed(
                        old(self).master_letters@,
                        before.tiles,
                    )
                    &&& bag(after.remaining.skip(before.remaining.len() as int)) == bag(
                        old(self).master_letters@,
                    ).difference_with(bag(before.tiles))
                    &&& is_grid_of(after, texts_of(r@[k]@))
                },
    {
        let ghost p0 = self.pool();
        let ghost m = self.master_letters@;
        let mut grids: Vec<Vec<Vec<char>>> = Vec::new();
        let mut boards: Vec<Board> = Vec::new();
        let mut i: usize = 0;
        while i < self.boards.len()
            invariant
                0 <= i <= p0.len(),
                self.wf(),
                self.pool() == p0,
                self.master_letters@ == m,
                grids@.len() == i,
                boards@.len() == i,
                forall|k: int|
                    0 <= k < i ==> {
                        let before = #[trigger] p0[k];
                        let after = views(boards@)[k];
                        &&& after == (BoardView { tiles: m, remaining: after.remaining, ..before })
                        &&& after.remaining == before.remaining + removed(m, before.tiles)
                        &&& bag(after.remaining.skip(before.remaining.len() as int)) == bag(
                            m,
                        ).difference_with(bag(before.tiles))
                        &&& is_grid_of(after, texts_of(grids@[k]@))
                        &&& self.admissible(after)
                    },
            decreases p0.len() - i,
        {
            assert(self.admissible(p0[i as int]));
            let b = self.boards[i].refreshed(&self.master_letters);
            proof {
                let v = p0[i as int];
                assert(m.take(m.len() as int) =~= m);
                assert forall|t: int| 0 <= t < b@.words.len() - 1 implies self.corpus.junction_words().contains(
                    #[trigger] crate::board::junction(b@, t),
                ) by {
                    assert(crate::board::junction(b@, t) == crate::board::junction(v, t));
                }
            }
            grids.push(render_board(&b));
            let ghost before = views(boards@);
            boards.push(b);
            assert(views(boards@) =~= before.push(b@));
            i = i + 1;
        }
        let ghost rebased = views(boards@);
        self.boards = boards;
        assert forall|k: int| 0 <= k < self.pool().len() implies self.admissible(
            #[trigger] self.pool()[k],
        ) by {
            assert(self.pool()[k] == rebased[k]);
            let before = p0[k];
            assert(self.admissible(rebased[k]));
        }
        grids
    }

    /// Adds a copy of `b` to the pool.
    pub fn copy_and_push(&mut self, b: &Board)
        requires
            old(self).wf(),
            old(self).admissible(b@),
        ensures
            final(self).wf(),
            final(self).corpus == old(self).corpus,
            final(self).master_letters@ == old(self).master_letters@,
            final(self).pool() == old(self).pool().push(b@),
    {
        let ghost p0 = self.pool();
        self.boards.push(b.copy());
        assert(self.pool() =~= p0.push(b@));
    }
}

/// In every pooled board the letters of the words and the remaining tiles
/// together are exactly the board's tiles.
pub proof fn lemma_pool_conserves_tiles(s: Session, k: int)
    requires
        s.wf(),
        0 <= k < s.pool().len(),
    ensures
        crate::board::letters(s.pool()[k].words).add(bag(s.pool()[k].remaining)) == bag(
            s.pool()[k].tiles,
        ),
{
    assert(s.admissible(s.pool()[k]));
}

/// In every pooled board each two neighbouring words meet in a two-letter
/// word of the junction dictionary.
pub proof fn lemma_pool_junctions_valid(s: Session, k: int, i: int)
    requires
        s.wf(),
        0 <= k < s.pool().len(),
        0 <= i < s.pool()[k].words.len() - 1,
    ensures
        s.corpus.junction_words().contains(crate::board::junction(s.pool()[k], i)),
{
    assert(s.admissible(s.pool()[k]));
}

/// Whether two chains have the same words in the same order.
fn same_words(a: &Vec<Vec<char>>, b: &Vec<Vec<char>>) -> (r: bool)
    ensures
        r == (texts(a@) == texts(b@)),
{
    if a.len() != b.len() {
        assert(texts(a@).len() != texts(b@).len());
        return false;
    }
    let mut i: usize = 0;
    while i < a.len()
        invariant
            a@.len() == b@.len(),
            0 <= i <= a@.len(),
            forall|j: int| 0 <= j < i ==> texts(a@)[j] == texts(b@)[j],
        decreases a@.len() - i,
    {
        if !same_text(&a[i], &b[i]) {
            assert(texts(a@)[i as int] != texts(b@)[i as int]);
            return false;
        }
        i = i + 1;
    }
    assert(texts(a@) =~= texts(b@));
    true
}

/// Whether some board of `boards` has the chain `words`.
fn has_chain(boards: &Vec<Board>, words: &Vec<Vec<char>>) -> (r: bool)
    ensures
        r == has_words(views(boards@), texts(words@)),
{
    let mut i: usize = 0;
    while i < boards.len()
        invariant
            0 <= i <= boards@.len(),
            forall|j: int| 0 <= j < i ==> views(boards@)[j].words != texts(words@),
        decreases boards@.len() - i,
    {
        if same_words(&boards[i].words, words) {
            assert(views(boards@)[i as int].words == texts(words@));
            return true;
        }
        i = i + 1;
    }
    false
}

} // verus!
