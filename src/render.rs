//! Laying a board out on a character grid.
use crate::board::{Anchor, Board, BoardView, MAX_TILES};
use vstd::prelude::*;

verus! {

broadcast use vstd::seq_lib::group_to_multiset_ensures, vstd::multiset::group_multiset_axioms;

/// The grid cell of letter `i` of a word whose first letter is at `(x, y)`.
pub open spec fn letter_cell(x: int, y: int, vertical: bool, i: int) -> (int, int) {
    if vertical {
        (x, y + i)
    } else {
        (x + i, y)
    }
}

/// The cells of the letters of `word`, placed at `(position_x, position_y)`
/// and moved by `(x_offset, y_offset)`.
pub fn get_word_coordinates(
    word: &Vec<char>,
    position_x: i64,
    position_y: i64,
    vertical: bool,
    x_offset: i64,
    y_offset: i64,
) -> (r: Vec<(i64, i64)>)
    requires
        word@.len() <= i64::MAX,
        i64::MIN <= position_x + x_offset,
        position_x + x_offset + word@.len() <= i64::MAX,
        i64::MIN <= position_y + y_offset,
        position_y + y_offset + word@.len() <= i64::MAX,
    ensures
        r@.len() == word@.len(),
        forall|i: int|
            0 <= i < r@.len() ==> (#[trigger] r@[i]).0 as int == letter_cell(
                position_x + x_offset,
                position_y + y_offset,
                vertical,
                i,
            ).0 && r@[i].1 as int == letter_cell(
                position_x + x_offset,
                position_y + y_offset,
                vertical,
                i,
            ).1,
{
    let x = position_x + x_offset;
    let y = position_y + y_offset;
    let mut r: Vec<(i64, i64)> = Vec::new();
    let mut i: usize = 0;
    while i < word.len()
        invariant
            0 <= i <= word@.len(),
            x == position_x + x_offset,
            y == position_y + y_offset,
            x + word@.len() <= i64::MAX,
            y + word@.len() <= i64::MAX,
            word@.len() <= i64::MAX,
            r@.len() == i,
            forall|j: int|
                0 <= j < i ==> (#[trigger] r@[j]).0 as int == letter_cell(x as int, y as int, vertical, j).0
                    && r@[j].1 as int == letter_cell(x as int, y as int, vertical, j).1,
        decreases word@.len() - i,
    {
        if vertical {
            r.push((x, y + i as i64));
        } else {
            r.push((x + i as i64, y));
        }
        i = i + 1;
    }
    r
}

/// The column of the last letter of a word of `len` letters.
pub open spec fn far_x(a: Anchor, len: nat) -> int {
    if a.vertical {
        a.x as int
    } else {
        a.x + len - 1
    }
}

/// The row of the last letter of a word of `len` letters.
pub open spec fn far_y(a: Anchor, len: nat) -> int {
    if a.vertical {
        a.y + len - 1
    } else {
        a.y as int
    }
}

/// The least starting column of the first `n` words.
pub open spec fn min_x(v: BoardView, n: int) -> int
    decreases n,
{
    if n <= 1 {
        v.anchors[0].x as int
    } else {
        let m = min_x(v, n - 1);
        if v.anchors[n - 1].x < m {
            v.anchors[n - 1].x as int
        } else {
            m
        }
    }
}

/// The least starting row of the first `n` words.
pub open spec fn min_y(v: BoardView, n: int) -> int
    decreases n,
{
    if n <= 1 {
        v.anchors[0].y as int
    } else {
        let m = min_y(v, n - 1);
        if v.anchors[n - 1].y < m {
            v.anchors[n - 1].y as int
        } else {
            m
        }
    }
}

/// The greatest column holding a last letter among the first `n` words.
pub open spec fn max_x(v: BoardView, n: int) -> int
    decreases n,
{
    if n <= 1 {
        far_x(v.anchors[0], v.words[0].len())
    } else {
        let m = max_x(v, n - 1);
        let f = far_x(v.anchors[n - 1], v.words[n - 1].len());
        if f > m {
            f
        } else {
            m
        }
    }
}

/// The greatest row holding a last letter among the first `n` words.
pub open spec fn max_y(v: BoardView, n: int) -> int
    decreases n,
{
    if n <= 1 {
        far_y(v.anchors[0], v.words[0].len())
    } else {
        let m = max_y(v, n - 1);
        let f = far_y(v.anchors[n - 1], v.words[n - 1].len());
        if f > m {
            f
        } else {
            m
        }
    }
}

proof fn lemma_extents(v: BoardView, n: int)
    requires
        1 <= n <= v.anchors.len(),
        n <= v.words.len(),
    ensures
        forall|k: int|
            0 <= k < n ==> min_x(v, n) <= #[trigger] v.anchors[k].x && min_y(v, n) <= v.anchors[k].y
                && far_x(v.anchors[k], v.words[k].len()) <= max_x(v, n) && far_y(
                v.anchors[k],
                v.words[k].len(),
            ) <= max_y(v, n),
    decreases n,
{
    if n > 1 {
        lemma_extents(v, n - 1);
    }
}

/// Word `k` covers the cell `(gx, gy)`.
pub open spec fn covers(v: BoardView, k: int, gx: int, gy: int) -> bool {
    let a = v.anchors[k];
    let len = v.words[k].len();
    if a.vertical {
        gx == a.x && a.y <= gy < a.y + len
    } else {
        gy == a.y && a.x <= gx < a.x + len
    }
}

/// Which letter of word `k` lies on a cell it covers.
pub open spec fn letter_index(v: BoardView, k: int, gx: int, gy: int) -> int {
    if v.anchors[k].vertical {
        gy - v.anchors[k].y
    } else {
        gx - v.anchors[k].x
    }
}

/// What the cell `(gx, gy)` shows once the first `k` words are painted, each
/// over the ones before it; blank where none of them lies.
pub open spec fn painted(v: BoardView, k: int, gx: int, gy: int) -> char
    decreases k,
{
    if k <= 0 {
        ' '
    } else if covers(v, k - 1, gx, gy) {
        v.words[k - 1][letter_index(v, k - 1, gx, gy)]
    } else {
        painted(v, k - 1, gx, gy)
    }
}

/// The grid of a board: the smallest box holding every letter, its rows
/// running from the least occupied row to the greatest and its columns
/// likewise, each cell showing the letter painted there.
pub open spec fn is_grid_of(v: BoardView, grid: Seq<Seq<char>>) -> bool {
    let n = v.words.len() as int;
    if n == 0 {
        grid.len() == 0
    } else {
        &&& grid.len() == max_y(v, n) - min_y(v, n) + 1
        &&& forall|r: int|
            0 <= r < grid.len() ==> (#[trigger] grid[r]).len() == max_x(v, n) - min_x(v, n) + 1
        &&& forall|r: int, c: int|
            0 <= r < grid.len() && 0 <= c < grid[r].len() ==> #[trigger] grid[r][c] == painted(
                v,
                n,
                c + min_x(v, n),
                r + min_y(v, n),
            )
    }
}

/// The starting column and row, and the column and row of the last letter,
/// of word `k`.
fn extents_of(b: &Board, k: usize) -> (r: (i64, i64, i64, i64))
    requires
        b@.wf(),
        k < b@.words.len(),
    ensures
        r.0 == b@.anchors[k as int].x,
        r.1 == b@.anchors[k as int].y,
        r.2 == far_x(b@.anchors[k as int], b@.words[k as int].len()),
        r.3 == far_y(b@.anchors[k as int], b@.words[k as int].len()),
        -3 * (MAX_TILES as int) <= r.0 <= r.2 <= 3 * (MAX_TILES as int),
        -3 * (MAX_TILES as int) <= r.1 <= r.3 <= 3 * (MAX_TILES as int),
{
    proof {
        lemma_board_extent(b@, k as int);
    }
    let a = b.word_positions[k];
    let len = b.words[k].len() as i64;
    if a.vertical {
        (a.x, a.y, a.x, a.y + len - 1)
    } else {
        (a.x, a.y, a.x + len - 1, a.y)
    }
}

proof fn lemma_board_extent(v: BoardView, k: int)
    requires
        v.wf(),
        0 <= k < v.words.len(),
    ensures
        crate::board::abs(v.anchors[k].x as int) + v.words[k].len() <= 3 * (MAX_TILES as int),
        crate::board::abs(v.anchors[k].y as int) + v.words[k].len() <= 3 * (MAX_TILES as int),
{
    assert(crate::tiles::bag(v.tiles).len() == v.tiles.len());
    assert(crate::board::letters(v.words).add(crate::tiles::bag(v.remaining)).len()
        == crate::board::letters(v.words).len() + crate::tiles::bag(v.remaining).len());
    assert(crate::board::abs(v.anchors[k].x as int) + v.words[k].len() <= 3 * crate::board::letters(
        v.words,
    ).len());
}

/// The grid of board `b` (none for a board without words): see `is_grid_of`.
pub fn render_board(b: &Board) -> (r: Vec<Vec<char>>)
    requires
        b@.wf(),
    ensures
        is_grid_of(b@, texts_of(r@)),
{
    let ghost v = b@;
    let n = b.words.len();
    if n == 0 {
        let r: Vec<Vec<char>> = Vec::new();
        assert(texts_of(r@).len() == 0);
        return r;
    }
    let e0 = extents_of(b, 0);
    let mut lo_x = e0.0;
    let mut lo_y = e0.1;
    let mut hi_x = e0.2;
    let mut hi_y = e0.3;
    let mut i: usize = 1;
    while i < n
        invariant
            1 <= i <= n,
            n == v.words.len(),
            v == b@,
            v.wf(),
            lo_x == min_x(v, i as int),
            lo_y == min_y(v, i as int),
            hi_x == max_x(v, i as int),
            hi_y == max_y(v, i as int),
            -3 * (MAX_TILES as int) <= lo_x <= hi_x <= 3 * (MAX_TILES as int),
            -3 * (MAX_TILES as int) <= lo_y <= hi_y <= 3 * (MAX_TILES as int),
        decreases n - i,
    {
        let e = extents_of(b, i);
        if e.0 < lo_x {
            lo_x = e.0;
        }
        if e.1 < lo_y {
            lo_y = e.1;
        }
        if e.2 > hi_x {
            hi_x = e.2;
        }
        if e.3 > hi_y {
            hi_y = e.3;
        }
        i = i + 1;
    }
    proof {
        lemma_extents(v, n as int);
    }
    let rows = (hi_y - lo_y + 1) as usize;
    let cols = (hi_x - lo_x + 1) as usize;
    let mut grid: Vec<Vec<char>> = Vec::new();
    let mut r: usize = 0;
    while r < rows
        invariant
            0 <= r <= rows,
            grid@.len() == r,
            forall|q: int| 0 <= q < r ==> (#[trigger] grid@[q])@.len() == cols,
            forall|q: int, c: int| 0 <= q < r && 0 <= c < cols ==> #[trigger] grid@[q]@[c] == ' ',
        decreases rows - r,
    {
        let mut line: Vec<char> = Vec::new();
        let mut c: usize = 0;
        while c < cols
            invariant
                0 <= c <= cols,
                line@.len() == c,
                forall|d: int| 0 <= d < c ==> #[trigger] line@[d] == ' ',
            decreases cols - c,
        {
            line.push(' ');
            c = c + 1;
        }
        grid.push(line);
        r = r + 1;
    }
    let mut k: usize = 0;
    while k < n
        invariant
            0 <= k <= n,
            n == v.words.len(),
            v == b@,
            v.wf(),
            lo_x == min_x(v, n as int),
            lo_y == min_y(v, n as int),
            hi_x == max_x(v, n as int),
            hi_y == max_y(v, n as int),
            -3 * (MAX_TILES as int) <= lo_x <= hi_x <= 3 * (MAX_TILES as int),
            -3 * (MAX_TILES as int) <= lo_y <= hi_y <= 3 * (MAX_TILES as int),
            rows == hi_y - lo_y + 1,
            cols == hi_x - lo_x + 1,
            grid@.len() == rows,
            forall|q: int| 0 <= q < rows ==> (#[trigger] grid@[q])@.len() == cols,
            forall|q: int, c: int|
                0 <= q < rows && 0 <= c < cols ==> #[trigger] grid@[q]@[c] == painted(
                    v,
                    k as int,
                    c + lo_x,
                    q + lo_y,
                ),
            forall|t: int|
                0 <= t < n ==> lo_x <= #[trigger] v.anchors[t].x && lo_y <= v.anchors[t].y
                    && far_x(v.anchors[t], v.words[t].len()) <= hi_x && far_y(
                    v.anchors[t],
                    v.words[t].len(),
                ) <= hi_y,
        decreases n - k,
    {
        let word = &b.words[k];
        let a = b.word_positions[k];
        assert(v.words[k as int] == word@);
        assert(v.anchors[k as int] == a);
        let mut j: usize = 0;
        while j < word.len()
            invariant
                0 <= j <= word@.len(),
                k < n,
                n == v.words.len(),
                v == b@,
                v.wf(),
                word@ == v.words[k as int],
                a == v.anchors[k as int],
                rows == hi_y - lo_y + 1,
                cols == hi_x - lo_x + 1,
                grid@.len() == rows,
                lo_x <= a.x && lo_y <= a.y,
                far_x(a, word@.len()) <= hi_x && far_y(a, word@.len()) <= hi_y,
                -3 * (MAX_TILES as int) <= lo_x <= hi_x <= 3 * (MAX_TILES as int),
                -3 * (MAX_TILES as int) <= lo_y <= hi_y <= 3 * (MAX_TILES as int),
                forall|q: int| 0 <= q < rows ==> (#[trigger] grid@[q])@.len() == cols,
                forall|q: int, c: int|
                    0 <= q < rows && 0 <= c < cols ==> #[trigger] grid@[q]@[c] == (if covers(
                        v,
                        k as int,
                        c + lo_x,
                        q + lo_y,
                    ) && letter_index(v, k as int, c + lo_x, q + lo_y) < j {
                        word@[letter_index(v, k as int, c + lo_x, q + lo_y)]
                    } else {
                        painted(v, k as int, c + lo_x, q + lo_y)
                    }),
            decreases word@.len() - j,
        {
            let gx = if a.vertical { a.x } else { a.x + j as i64 };
            let gy = if a.vertical { a.y + j as i64 } else { a.y };
            let row = (gy - lo_y) as usize;
            let col = (gx - lo_x) as usize;
            let ghost before = grid@;
            grid[row][col] = word[j];
            proof {
                assert forall|q: int, c: int| 0 <= q < rows && 0 <= c < cols implies #[trigger] grid@[q]@[c] == (if covers(
                    v,
                    k as int,
                    c + lo_x,
                    q + lo_y,
                ) && letter_index(v, k as int, c + lo_x, q + lo_y) < j + 1 {
                    word@[letter_index(v, k as int, c + lo_x, q + lo_y)]
                } else {
                    painted(v, k as int, c + lo_x, q + lo_y)
                }) by {
                    if q != row || c != col {
                        assert(grid@[q]@[c] == before[q]@[c]);
                    }
                }
            }
            j = j + 1;
        }
        k = k + 1;
    }
    proof {
        let g = texts_of(grid@);
        let m = n as int;
        assert forall|q: int, c: int| 0 <= q < g.len() && 0 <= c < g[q].len() implies #[trigger] g[q][c]
            == painted(v, m, c + min_x(v, m), q + min_y(v, m)) by {
            assert(g[q] == grid@[q]@);
        }
    }
    grid
}

/// The rows of a grid, as character sequences.
pub open spec fn texts_of(rows: Seq<Vec<char>>) -> Seq<Seq<char>> {
    rows.map_values(|line: Vec<char>| line@)
}

} // verus!
