//! Tachyon beams: a grid of sources, splitters and empty space; beams run
//! downward, split sideways at splitters, and the paths are counted.

use vstd::prelude::*;
use vstd::string::StringSliceAdditionalSpecFns;

verus! {

/// What one grid square holds.
pub enum SquareType {
    Source,
    EmptySpace,
    Splitter,
}

/// One grid square: its kind, and whether a beam has passed through it.
pub struct Square {
    pub square_type: SquareType,
    pub visited: bool,
}

/// The beam grid and how many splits have happened.
pub struct Grid {
    pub squares: Vec<Vec<Square>>,
    pub split_count: u32,
}

/// Every row has the same width.
pub open spec fn rect(g: Seq<Vec<Square>>) -> bool {
    forall|i: int| 0 <= i < g.len() ==> (#[trigger] g[i])@.len() == g[0]@.len()
}

/// The kind of the square at (i, j).
pub open spec fn sq(g: Seq<Vec<Square>>, i: int, j: int) -> SquareType {
    g[i]@[j].square_type
}

/// Whether a beam reaches square (i, j): it started there, fell straight
/// down empty space, or was thrown sideways by a splitter next door.
pub open spec fn vis(g: Seq<Vec<Square>>, i: int, j: int) -> bool
    decreases i,
{
    if i <= 0 {
        g[0]@[j].visited
    } else {
        let cols = g[0]@.len() as int;
        ||| g[i]@[j].visited
        ||| (sq(g, i, j) is EmptySpace && vis(g, i - 1, j))
        ||| (j + 1 < cols && sq(g, i, j + 1) is Splitter && vis(g, i - 1, j + 1))
        ||| (j >= 1 && sq(g, i, j - 1) is Splitter && vis(g, i - 1, j - 1))
    }
}

/// How many of the first j squares of row i are splitters with a beam
/// arriving from above.
pub open spec fn row_splits(g: Seq<Vec<Square>>, i: int, j: int) -> int
    decreases j,
{
    if j <= 0 {
        0
    } else {
        row_splits(g, i, j - 1)
            + if sq(g, i, j - 1) is Splitter && vis(g, i - 1, j - 1) { 1int } else { 0int }
    }
}

/// How many splits happen in rows 1 through i.
pub open spec fn splits_upto(g: Seq<Vec<Square>>, i: int) -> int
    decreases i,
{
    if i <= 0 {
        0
    } else {
        splits_upto(g, i - 1) + row_splits(g, i, g[0]@.len() as int)
    }
}

proof fn lemma_row_splits_bound(g: Seq<Vec<Square>>, i: int, j: int)
    requires
        j >= 0,
    ensures
        0 <= row_splits(g, i, j) <= j,
    decreases j,
{
    if j > 0 {
        lemma_row_splits_bound(g, i, j - 1);
    }
}

proof fn lemma_splits_upto_bound(g: Seq<Vec<Square>>, i: int)
    requires
        i >= 0,
    ensures
        0 <= splits_upto(g, i) <= i * (g[0]@.len() as int),
    decreases i,
{
    if i > 0 {
        lemma_splits_upto_bound(g, i - 1);
        lemma_row_splits_bound(g, i, g[0]@.len() as int);
        assert((i - 1) * (g[0]@.len() as int) + g[0]@.len() as int == i * (g[0]@.len() as int))
            by (nonlinear_arith);
    }
}

impl SquareType {
    /// The display character of this square kind.
    pub fn to_char(&self) -> (r: char)
        ensures
            self is Source ==> r == 'S',
            self is Splitter ==> r == '^',
            self is EmptySpace ==> r == '.',
    {
        match self {
            SquareType::Source => 'S',
            SquareType::Splitter => '^',
            SquareType::EmptySpace => '.',
        }
    }
}

impl Grid {
    /// Read a grid from text: 'S' sources, '^' splitters, '.' empty space,
    /// one row per line. Sources start with a beam.
    pub fn parse_grid(input: &str) -> (r: Grid)
        requires
            forall|i: int| 0 <= i < input.spec_bytes().len()
                ==> (#[trigger] input.spec_bytes()[i]) == 83
                    || input.spec_bytes()[i] == 94
                    || input.spec_bytes()[i] == 46
                    || input.spec_bytes()[i] == 10,
        ensures
            r.split_count == 0,
            forall|i: int, j: int| 0 <= i < r.squares@.len()
                && 0 <= j < (#[trigger] r.squares@[i])@.len()
                ==> ((#[trigger] r.squares@[i]@[j]).visited <==> r.squares@[i]@[j].square_type is Source),
    {
        let bs = input.as_bytes();
        let n = bs.len();
        let mut squares: Vec<Vec<Square>> = Vec::new();
        let mut row: Vec<Square> = Vec::new();
        let mut i: usize = 0;
        while i < n
            invariant
                n == bs@.len(),
                i <= n,
                forall|k: int| 0 <= k < bs@.len()
                    ==> (#[trigger] bs@[k]) == 83 || bs@[k] == 94 || bs@[k] == 46 || bs@[k] == 10,
                forall|a: int, b: int| 0 <= a < squares@.len()
                    && 0 <= b < (#[trigger] squares@[a])@.len()
                    ==> ((#[trigger] squares@[a]@[b]).visited
                        <==> squares@[a]@[b].square_type is Source),
                forall|b: int| 0 <= b < row@.len()
                    ==> ((#[trigger] row@[b]).visited <==> row@[b].square_type is Source),
            decreases n - i,
        {
            let b = bs[i];
            if b == 10 {
                squares.push(row);
                row = Vec::new();
            } else if b == 83 {
                row.push(Square { square_type: SquareType::Source, visited: true });
            } else if b == 94 {
                row.push(Square { square_type: SquareType::Splitter, visited: false });
            } else {
                row.push(Square { square_type: SquareType::EmptySpace, visited: false });
            }
            i += 1;
        }
        if row.len() > 0 {
            squares.push(row);
        }
        Grid { squares, split_count: 0 }
    }

    /// Trace the beams downward row by row: a beam continues through empty
    /// space, and a splitter under a beam throws it to both neighbours and
    /// counts one split. Every square's final beam mark and the number of
    /// splits follow the vis and splits_upto forms over the starting grid.
    pub fn trace_tachyons_down(&mut self)
        requires
            rect(old(self).squares@),
            old(self).squares@.len() >= 1,
            old(self).squares@[0]@.len() >= 1,
            old(self).split_count == 0,
            old(self).squares@.len() * old(self).squares@[0]@.len() < 0xFFFF_FFFF,
        ensures
            final(self).squares@.len() == old(self).squares@.len(),
            rect(final(self).squares@),
            forall|i: int, j: int| 0 <= i < final(self).squares@.len()
                && 0 <= j < (#[trigger] final(self).squares@[i])@.len()
                ==> (#[trigger] final(self).squares@[i]@[j]).square_type
                    == old(self).squares@[i]@[j].square_type
                    && (final(self).squares@[i]@[j].visited == vis(old(self).squares@, i, j)),
            final(self).split_count
                == splits_upto(old(self).squares@, old(self).squares@.len() - 1),
    {
        let ghost g0 = self.squares@;
        let rows = self.squares.len();
        let cols = self.squares[0].len();
        let mut i: usize = 1;
        proof {
            assert forall|j: int| 0 <= j < cols implies
                (#[trigger] self.squares@[0]@[j]).visited == vis(g0, 0, j) by {}
        }
        while i < rows
            invariant
                rect(g0),
                rows == g0.len(),
                rows >= 1,
                cols == g0[0]@.len(),
                cols >= 1,
                rows * cols < 0xFFFF_FFFF,
                1 <= i <= rows,
                self.squares@.len() == rows,
                rect(self.squares@),
                forall|a: int| 0 <= a < rows ==> (#[trigger] self.squares@[a])@.len() == cols,
                forall|a: int, b: int| 0 <= a < rows && 0 <= b < cols
                    ==> (#[trigger] self.squares@[a]@[b]).square_type == g0[a]@[b].square_type,
                forall|a: int, b: int| 0 <= a < i && 0 <= b < cols
                    ==> (#[trigger] self.squares@[a]@[b]).visited == vis(g0, a, b),
                forall|a: int, b: int| i <= a < rows && 0 <= b < cols
                    ==> (#[trigger] self.squares@[a]@[b]).visited == g0[a]@[b].visited,
                self.split_count == splits_upto(g0, i - 1),
            decreases rows - i,
        {
            let mut new_row: Vec<Square> = Vec::new();
            let mut splits_here: u32 = 0;
            let mut j: usize = 0;
            proof {
                lemma_splits_upto_bound(g0, i - 1);
                assert((i - 1) * cols as int <= (rows - 1) * (cols as int)) by (nonlinear_arith)
                    requires 1 <= i as int <= rows as int, cols as int >= 0;
            }
            while j < cols
                invariant
                    rect(g0),
                    rows == g0.len(),
                    cols == g0[0]@.len(),
                    rows * cols < 0xFFFF_FFFF,
                    1 <= i < rows,
                    j <= cols,
                    self.squares@.len() == rows,
                    forall|a: int| 0 <= a < rows ==> (#[trigger] self.squares@[a])@.len() == cols,
                    forall|a: int, b: int| 0 <= a < rows && 0 <= b < cols
                        ==> (#[trigger] self.squares@[a]@[b]).square_type == g0[a]@[b].square_type,
                    forall|a: int, b: int| 0 <= a < i && 0 <= b < cols
                        ==> (#[trigger] self.squares@[a]@[b]).visited == vis(g0, a, b),
                    forall|a: int, b: int| i <= a < rows && 0 <= b < cols
                        ==> (#[trigger] self.squares@[a]@[b]).visited == g0[a]@[b].visited,
                    new_row@.len() == j,
                    forall|b: int| 0 <= b < j
                        ==> (#[trigger] new_row@[b]).square_type == g0[i as int]@[b].square_type
                            && new_row@[b].visited == vis(g0, i as int, b),
                    splits_here == row_splits(g0, i as int, j as int),
                    splits_here <= j,
                decreases cols - j,
            {
                proof {
                    lemma_row_splits_bound(g0, i as int, j as int);
                    assert(cols as int <= (rows as int) * (cols as int)) by (nonlinear_arith)
                        requires rows as int >= 1, cols as int >= 0;
                }
                let above = self.squares[i - 1][j].visited;
                let above_left = if j >= 1 { self.squares[i - 1][j - 1].visited } else { false };
                let above_right = if j + 1 < cols {
                    self.squares[i - 1][j + 1].visited
                } else {
                    false
                };
                let here = &self.squares[i][j];
                let init_visited = here.visited;
                let is_empty = matches!(here.square_type, SquareType::EmptySpace);
                let is_splitter = matches!(here.square_type, SquareType::Splitter);
                let left_splitter = if j >= 1 {
                    matches!(self.squares[i][j - 1].square_type, SquareType::Splitter)
                } else {
                    false
                };
                let right_splitter = if j + 1 < cols {
                    matches!(self.squares[i][j + 1].square_type, SquareType::Splitter)
                } else {
                    false
                };
                let marked = init_visited
                    || (is_empty && above)
                    || (right_splitter && above_right)
                    || (left_splitter && above_left);
                let kind = if is_empty {
                    SquareType::EmptySpace
                } else if is_splitter {
                    SquareType::Splitter
                } else {
                    SquareType::Source
                };
                new_row.push(Square { square_type: kind, visited: marked });
                if is_splitter && above {
                    splits_here += 1;
                }
                j += 1;
            }
            let ghost pre = self.squares@;
            self.squares.set(i, new_row);
            proof {
                assert(self.squares@ =~= pre.update(i as int, self.squares@[i as int]));
                assert forall|a: int, b: int| 0 <= a < i + 1 && 0 <= b < cols implies
                    (#[trigger] self.squares@[a]@[b]).visited == vis(g0, a, b) by {
                    if a < i {
                        assert(self.squares@[a] == pre[a]);
                    }
                }
                assert forall|a: int, b: int| i + 1 <= a < rows && 0 <= b < cols implies
                    (#[trigger] self.squares@[a]@[b]).visited == g0[a]@[b].visited by {
                    assert(self.squares@[a] == pre[a]);
                }
                assert(splits_upto(g0, i as int)
                    == splits_upto(g0, i - 1) + row_splits(g0, i as int, cols as int));
                lemma_splits_upto_bound(g0, i as int);
                assert((i as int) * (cols as int) < 0xFFFF_FFFF) by (nonlinear_arith)
                    requires
                        1 <= i && (i as int) < rows as int,
                        (rows as int) * (cols as int) < 0xFFFF_FFFF,
                        cols as int >= 1;
            }
            self.split_count = self.split_count + splits_here;
            i += 1;
        }
    }
}

/// The number of downward paths from square (i, j) to the bottom row: a
/// path continues straight through empty space or a source, and branches
/// to both neighbours under a splitter.
pub open spec fn paths_from(g: Seq<Vec<Square>>, i: int, j: int) -> int
    decreases g.len() - i,
{
    if i >= g.len() - 1 {
        1
    } else {
        let cols = g[0]@.len() as int;
        if sq(g, i + 1, j) is Splitter {
            (if j + 1 < cols { paths_from(g, i + 1, j + 1) } else { 0int })
                + (if j >= 1 { paths_from(g, i + 1, j - 1) } else { 0int })
        } else {
            paths_from(g, i + 1, j)
        }
    }
}

/// The paths from the sources among the first j squares of row i.
pub open spec fn row_sources_sum(g: Seq<Vec<Square>>, i: int, j: int) -> int
    decreases j,
{
    if j <= 0 {
        0
    } else {
        row_sources_sum(g, i, j - 1)
            + if sq(g, i, j - 1) is Source { paths_from(g, i, j - 1) } else { 0int }
    }
}

/// The paths from all sources in the first i rows.
pub open spec fn total_sources_sum(g: Seq<Vec<Square>>, i: int) -> int
    decreases i,
{
    if i <= 0 {
        0
    } else {
        total_sources_sum(g, i - 1) + row_sources_sum(g, i - 1, g[0]@.len() as int)
    }
}

proof fn lemma_paths_nonneg(g: Seq<Vec<Square>>, i: int, j: int)
    ensures
        paths_from(g, i, j) >= 0,
    decreases g.len() - i,
{
    if i < g.len() - 1 {
        let cols = g[0]@.len() as int;
        if j + 1 < cols {
            lemma_paths_nonneg(g, i + 1, j + 1);
        }
        if j >= 1 {
            lemma_paths_nonneg(g, i + 1, j - 1);
        }
        lemma_paths_nonneg(g, i + 1, j);
    }
}

proof fn lemma_row_sources_nonneg(g: Seq<Vec<Square>>, i: int, j: int)
    requires
        j >= 0,
    ensures
        row_sources_sum(g, i, j) >= 0,
    decreases j,
{
    if j > 0 {
        lemma_row_sources_nonneg(g, i, j - 1);
        lemma_paths_nonneg(g, i, j - 1);
    }
}

proof fn lemma_row_sources_le(g: Seq<Vec<Square>>, i: int, j: int, cols: int)
    requires
        0 <= j <= cols,
    ensures
        row_sources_sum(g, i, j) <= row_sources_sum(g, i, cols),
    decreases cols - j,
{
    if j < cols {
        lemma_row_sources_le(g, i, j + 1, cols);
        lemma_paths_nonneg(g, i, j);
    }
}

proof fn lemma_total_sources_le(g: Seq<Vec<Square>>, i: int, n: int)
    requires
        0 <= i <= n,
    ensures
        total_sources_sum(g, i) <= total_sources_sum(g, n),
    decreases n - i,
{
    if i < n {
        lemma_total_sources_le(g, i + 1, n);
        lemma_row_sources_nonneg(g, i, g[0]@.len() as int);
    }
}

impl Grid {
    /// Count, over every source square, the number of distinct downward
    /// paths to the bottom row, by dynamic programming from the bottom up.
    pub fn count_all_paths(&self) -> (r: u64)
        requires
            rect(self.squares@),
            self.squares@.len() >= 1,
            forall|a: int, b: int| 0 <= a < self.squares@.len()
                && 0 <= b < self.squares@[0]@.len()
                ==> #[trigger] paths_from(self.squares@, a, b) <= u64::MAX,
            total_sources_sum(self.squares@, self.squares@.len() as int) <= u64::MAX,
        ensures
            r == total_sources_sum(self.squares@, self.squares@.len() as int),
    {
        let ghost g = self.squares@;
        let rows = self.squares.len();
        let cols = self.squares[0].len();

        // dp[row][col]: paths from (row, col) to the bottom.
        let mut dp: Vec<Vec<u64>> = Vec::new();
        let mut a: usize = 0;
        while a < rows
            invariant
                a <= rows,
                dp@.len() == a,
                forall|x: int| 0 <= x < a ==> (#[trigger] dp@[x])@.len() == cols,
                forall|x: int, y: int| 0 <= x < a && 0 <= y < cols
                    ==> (#[trigger] dp@[x]@[y]) == 0,
            decreases rows - a,
        {
            let mut line: Vec<u64> = Vec::new();
            let mut b: usize = 0;
            while b < cols
                invariant
                    b <= cols,
                    line@.len() == b,
                    forall|y: int| 0 <= y < b ==> (#[trigger] line@[y]) == 0,
                decreases cols - b,
            {
                line.push(0);
                b += 1;
            }
            dp.push(line);
            a += 1;
        }

        // Base case: one path from each bottom-row square.
        let mut b: usize = 0;
        while b < cols
            invariant
                rect(g),
                rows == g.len(),
                rows >= 1,
                cols == g[0]@.len(),
                b <= cols,
                dp@.len() == rows,
                forall|x: int| 0 <= x < rows ==> (#[trigger] dp@[x])@.len() == cols,
                forall|y: int| 0 <= y < b
                    ==> (#[trigger] dp@[rows - 1]@[y]) == paths_from(g, rows - 1, y),
                forall|y: int| b <= y < cols ==> (#[trigger] dp@[rows - 1]@[y]) == 0,
                forall|x: int, y: int| 0 <= x < rows - 1 && 0 <= y < cols
                    ==> (#[trigger] dp@[x]@[y]) == 0,
            decreases cols - b,
        {
            let mut last = match dp.pop() {
                Some(v) => v,
                None => {
                    proof {
                        assert(false);
                    }
                    Vec::new()
                },
            };
            last.set(b, 1);
            dp.push(last);
            proof {
                assert(dp@.len() == rows);
                assert(paths_from(g, rows - 1, b as int) == 1);
            }
            b += 1;
        }

        // Work upward from the second-to-last row.
        let mut row = rows - 1;
        while row > 0
            invariant
                rect(g),
                rows == g.len(),
                rows >= 1,
                cols == g[0]@.len(),
                row < rows,
                g == self.squares@,
                forall|a2: int, b2: int| 0 <= a2 < rows && 0 <= b2 < cols
                    ==> #[trigger] paths_from(g, a2, b2) <= u64::MAX,
                dp@.len() == rows,
                forall|x: int| 0 <= x < rows ==> (#[trigger] dp@[x])@.len() == cols,
                forall|x: int, y: int| row <= x < rows && 0 <= y < cols
                    ==> (#[trigger] dp@[x]@[y]) == paths_from(g, x, y),
                forall|x: int, y: int| 0 <= x < rows && 0 <= y < cols
                    ==> (#[trigger] dp@[x]@[y]) == paths_from(g, x, y) || dp@[x]@[y] == 0,
            decreases row,
        {
            row -= 1;
            let mut line: Vec<u64> = Vec::new();
            let mut col: usize = 0;
            while col < cols
                invariant
                    rect(g),
                    rows == g.len(),
                    cols == g[0]@.len(),
                    row < rows - 1,
                    col <= cols,
                    g == self.squares@,
                    forall|a2: int, b2: int| 0 <= a2 < rows && 0 <= b2 < cols
                        ==> #[trigger] paths_from(g, a2, b2) <= u64::MAX,
                    dp@.len() == rows,
                    forall|x: int| 0 <= x < rows ==> (#[trigger] dp@[x])@.len() == cols,
                    forall|x: int, y: int| row < x < rows && 0 <= y < cols
                        ==> (#[trigger] dp@[x]@[y]) == paths_from(g, x, y),
                    line@.len() == col,
                    forall|y: int| 0 <= y < col ==> (#[trigger] line@[y]) == paths_from(g, row as int, y),
                decreases cols - col,
            {
                let below = &self.squares[row + 1][col];
                let v: u64 = match below.square_type {
                    SquareType::EmptySpace | SquareType::Source => dp[row + 1][col],
                    SquareType::Splitter => {
                        proof {
                            lemma_paths_nonneg(g, row + 1, col + 1);
                            lemma_paths_nonneg(g, row + 1, col - 1);
                            assert(sq(g, row + 1, col as int) is Splitter);
                            assert(paths_from(g, row as int, col as int)
                                == (if col + 1 < cols { paths_from(g, row + 1, col + 1) } else { 0int })
                                    + (if col >= 1 { paths_from(g, row + 1, col - 1) } else { 0int }));
                            assert(paths_from(g, row as int, col as int) <= u64::MAX);
                        }
                        let mut paths: u64 = 0;
                        if col + 1 < cols {
                            paths += dp[row + 1][col + 1];
                        }
                        if col > 0 {
                            paths += dp[row + 1][col - 1];
                        }
                        paths
                    },
                };
                line.push(v);
                col += 1;
            }
            let ghost pre = dp@;
            dp.set(row, line);
            proof {
                assert forall|x: int, y: int| row <= x < rows && 0 <= y < cols implies
                    (#[trigger] dp@[x]@[y]) == paths_from(g, x, y) by {
                    if x > row {
                        assert(dp@[x] == pre[x]);
                    }
                }
                assert forall|x: int, y: int| 0 <= x < rows && 0 <= y < cols implies
                    (#[trigger] dp@[x]@[y]) == paths_from(g, x, y) || dp@[x]@[y] == 0 by {
                    if x != row {
                        assert(dp@[x] == pre[x]);
                    }
                }
            }
        }

        // Sum the paths from every source.
        let mut total: u64 = 0;
        let mut ri: usize = 0;
        while ri < rows
            invariant
                rect(g),
                rows == g.len(),
                rows >= 1,
                cols == g[0]@.len(),
                ri <= rows,
                total_sources_sum(g, rows as int) <= u64::MAX,
                dp@.len() == rows,
                forall|x: int| 0 <= x < rows ==> (#[trigger] dp@[x])@.len() == cols,
                forall|x: int, y: int| 0 <= x < rows && 0 <= y < cols
                    ==> (#[trigger] dp@[x]@[y]) == paths_from(g, x, y),
                g == self.squares@,
                total == total_sources_sum(g, ri as int),
            decreases rows - ri,
        {
            let mut ci: usize = 0;
            while ci < cols
                invariant
                    rect(g),
                    rows == g.len(),
                    cols == g[0]@.len(),
                    ri < rows,
                    ci <= cols,
                    total_sources_sum(g, rows as int) <= u64::MAX,
                    dp@.len() == rows,
                    forall|x: int| 0 <= x < rows ==> (#[trigger] dp@[x])@.len() == cols,
                    forall|x: int, y: int| 0 <= x < rows && 0 <= y < cols
                        ==> (#[trigger] dp@[x]@[y]) == paths_from(g, x, y),
                    g == self.squares@,
                    total == total_sources_sum(g, ri as int) + row_sources_sum(g, ri as int, ci as int),
                decreases cols - ci,
            {
                proof {
                    lemma_row_sources_le(g, ri as int, ci + 1, cols as int);
                    lemma_total_sources_le(g, ri + 1, rows as int);
                    lemma_row_sources_nonneg(g, ri as int, ci as int);
                    lemma_total_sources_le(g, 0, ri as int);
                    lemma_paths_nonneg(g, ri as int, ci as int);
                    assert(total_sources_sum(g, ri + 1)
                        == total_sources_sum(g, ri as int) + row_sources_sum(g, ri as int, cols as int));
                    assert(total_sources_sum(g, 0) == 0);
                    lemma_total_sources_le(g, 0, ri + 1);
                }
                if matches!(self.squares[ri][ci].square_type, SquareType::Source) {
                    total += dp[ri][ci];
                }
                ci += 1;
            }
            proof {
                assert(total_sources_sum(g, ri + 1)
                    == total_sources_sum(g, ri as int) + row_sources_sum(g, ri as int, cols as int));
            }
            ri += 1;
        }
        total
    }
}

/// p is the column trace of one beam path from square (i, j) down to the
/// bottom row: straight through empty space or a source, bent at a
/// splitter.
pub open spec fn is_path(g: Seq<Vec<Square>>, i: int, j: int, p: Seq<usize>) -> bool
    decreases g.len() - i,
{
    if i >= g.len() - 1 {
        p.len() == 1 && p[0] == j
    } else {
        let cols = g[0]@.len() as int;
        p.len() >= 1 && p[0] == j && if sq(g, i + 1, j) is Splitter {
            (j + 1 < cols && is_path(g, i + 1, j + 1, p.skip(1)))
            || (j >= 1 && is_path(g, i + 1, j - 1, p.skip(1)))
        } else {
            is_path(g, i + 1, j, p.skip(1))
        }
    }
}

/// A path starts at its own column and has one entry per remaining row.
proof fn lemma_path_shape(g: Seq<Vec<Square>>, i: int, j: int, p: Seq<usize>)
    requires
        0 <= i < g.len(),
        is_path(g, i, j, p),
    ensures
        p.len() == g.len() - i,
        p[0] == j,
    decreases g.len() - i,
{
    if i < g.len() - 1 {
        let cols = g[0]@.len() as int;
        if sq(g, i + 1, j) is Splitter {
            if j + 1 < cols && is_path(g, i + 1, j + 1, p.skip(1)) {
                lemma_path_shape(g, i + 1, j + 1, p.skip(1));
            } else {
                lemma_path_shape(g, i + 1, j - 1, p.skip(1));
            }
        } else {
            lemma_path_shape(g, i + 1, j, p.skip(1));
        }
    }
}

/// Each listed path starts one row down at column j2.
spec fn paths_list_ok(g: Seq<Vec<Square>>, i: int, j2: int, v: Seq<Vec<usize>>) -> bool {
    forall|k: int| 0 <= k < v.len() ==> is_path(g, i + 1, j2, (#[trigger] v[k])@)
}

/// Copy the paths with this row's column j put in front of each.
fn prepend_all(j: usize, v: Vec<Vec<usize>>) -> (r: Vec<Vec<usize>>)
    ensures
        r@.len() == v@.len(),
        forall|k: int| 0 <= k < r@.len() ==> (#[trigger] r@[k])@ == seq![j] + v@[k]@,
{
    let mut r: Vec<Vec<usize>> = Vec::new();
    let mut k: usize = 0;
    while k < v.len()
        invariant
            k <= v@.len(),
            r@.len() == k,
            forall|m: int| 0 <= m < k ==> (#[trigger] r@[m])@ == seq![j] + v@[m]@,
        decreases v@.len() - k,
    {
        let mut one: Vec<usize> = Vec::new();
        one.push(j);
        let src = &v[k];
        let mut m: usize = 0;
        while m < src.len()
            invariant
                m <= src@.len(),
                src@ == v@[k as int]@,
                k < v@.len(),
                one@ == seq![j] + src@.take(m as int),
            decreases src@.len() - m,
        {
            one.push(src[m]);
            proof {
                assert(src@.take(m + 1).drop_last() =~= src@.take(m as int));
                assert(one@ =~= seq![j] + src@.take(m + 1));
            }
            m += 1;
        }
        proof {
            assert(src@.take(src@.len() as int) =~= src@);
        }
        r.push(one);
        k += 1;
    }
    r
}


/// v lists exactly the paths from (i, j) whose second step lands at column
/// j2: each entry starts at j and continues as a path from (i+1, j2), every
/// such path is listed, and no entry repeats.
spec fn branch_paths(g: Seq<Vec<Square>>, i: int, j: int, j2: int, v: Seq<Vec<usize>>) -> bool {
    &&& forall|k: int| 0 <= k < v.len() ==> (#[trigger] v[k])@.len() >= 1
        && v[k]@[0] == j && is_path(g, i + 1, j2, v[k]@.skip(1))
    &&& forall|p: Seq<usize>| p.len() >= 1 && p[0] == j
        && #[trigger] is_path(g, i + 1, j2, p.skip(1))
        ==> exists|k: int| 0 <= k < v.len() && (#[trigger] v[k])@ == p
    &&& forall|k1: int, k2: int| 0 <= k1 < k2 < v.len()
        ==> (#[trigger] v[k1])@ != (#[trigger] v[k2])@
}

/// Prepending this row's column to the full path list of one square below
/// gives the full branch list.
proof fn lemma_prepended_paths(
    g: Seq<Vec<Square>>, i: int, ju: usize, j2: int, sub: Seq<Vec<usize>>, r: Seq<Vec<usize>>,
)
    requires
        forall|k: int| 0 <= k < sub.len() ==> is_path(g, i + 1, j2, (#[trigger] sub[k])@),
        forall|p: Seq<usize>| #[trigger] is_path(g, i + 1, j2, p)
            ==> exists|k: int| 0 <= k < sub.len() && (#[trigger] sub[k])@ == p,
        forall|k1: int, k2: int| 0 <= k1 < k2 < sub.len()
            ==> (#[trigger] sub[k1])@ != (#[trigger] sub[k2])@,
        r.len() == sub.len(),
        forall|k: int| 0 <= k < r.len() ==> (#[trigger] r[k])@ == seq![ju] + sub[k]@,
    ensures
        branch_paths(g, i, ju as int, j2, r),
{
    let j = ju as int;
    assert forall|k: int| 0 <= k < r.len() implies (#[trigger] r[k])@.len() >= 1
        && r[k]@[0] == j && is_path(g, i + 1, j2, r[k]@.skip(1)) by {
        assert(r[k]@ == seq![ju] + sub[k]@);
        assert(r[k]@.skip(1) =~= sub[k]@);
    }
    assert forall|p: Seq<usize>| p.len() >= 1 && p[0] == j
        && #[trigger] is_path(g, i + 1, j2, p.skip(1))
        implies exists|k: int| 0 <= k < r.len() && (#[trigger] r[k])@ == p by {
        let k = choose|k: int| 0 <= k < sub.len() && (#[trigger] sub[k])@ == p.skip(1);
        assert(r[k]@ == seq![ju] + sub[k]@);
        assert(r[k]@ =~= p);
    }
    assert forall|k1: int, k2: int| 0 <= k1 < k2 < r.len()
        implies (#[trigger] r[k1])@ != (#[trigger] r[k2])@ by {
        if r[k1]@ == r[k2]@ {
            assert(r[k1]@.skip(1) =~= sub[k1]@);
            assert(r[k2]@.skip(1) =~= sub[k2]@);
            assert(sub[k1]@ == sub[k2]@);
        }
    }
}

/// Under empty space or a source, the single branch list is the whole path
/// list of (i, j).
proof fn lemma_straight_paths(g: Seq<Vec<Square>>, i: int, j: int, r: Seq<Vec<usize>>)
    requires
        0 <= i < g.len() - 1,
        !(sq(g, i + 1, j) is Splitter),
        branch_paths(g, i, j, j, r),
    ensures
        forall|k: int| 0 <= k < r.len() ==> is_path(g, i, j, (#[trigger] r[k])@),
        forall|p: Seq<usize>| #[trigger] is_path(g, i, j, p)
            ==> exists|k: int| 0 <= k < r.len() && (#[trigger] r[k])@ == p,
        forall|k1: int, k2: int| 0 <= k1 < k2 < r.len()
            ==> (#[trigger] r[k1])@ != (#[trigger] r[k2])@,
{
    assert forall|k: int| 0 <= k < r.len() implies is_path(g, i, j, (#[trigger] r[k])@) by {
        assert(is_path(g, i + 1, j, r[k]@.skip(1)));
    }
    assert forall|p: Seq<usize>| #[trigger] is_path(g, i, j, p)
        implies exists|k: int| 0 <= k < r.len() && (#[trigger] r[k])@ == p by {
        assert(p.len() >= 1 && p[0] == j && is_path(g, i + 1, j, p.skip(1)));
    }
}

/// Under a splitter, the right and left branch lists together are the
/// whole path list of (i, j).
proof fn lemma_splitter_union(
    g: Seq<Vec<Square>>, i: int, j: int,
    right: Seq<Vec<usize>>, left: Seq<Vec<usize>>, r: Seq<Vec<usize>>,
)
    requires
        0 <= i < g.len() - 1,
        0 <= j < g[0]@.len(),
        sq(g, i + 1, j) is Splitter,
        j + 1 < g[0]@.len() ==> branch_paths(g, i, j, j + 1, right),
        j + 1 >= g[0]@.len() ==> right.len() == 0,
        j >= 1 ==> branch_paths(g, i, j, j - 1, left),
        j < 1 ==> left.len() == 0,
        r == right + left,
    ensures
        forall|k: int| 0 <= k < r.len() ==> is_path(g, i, j, (#[trigger] r[k])@),
        forall|p: Seq<usize>| #[trigger] is_path(g, i, j, p)
            ==> exists|k: int| 0 <= k < r.len() && (#[trigger] r[k])@ == p,
        forall|k1: int, k2: int| 0 <= k1 < k2 < r.len()
            ==> (#[trigger] r[k1])@ != (#[trigger] r[k2])@,
{
    let cols = g[0]@.len() as int;
    assert forall|k: int| 0 <= k < r.len() implies is_path(g, i, j, (#[trigger] r[k])@) by {
        if k < right.len() {
            assert(r[k] == right[k]);
            assert(is_path(g, i + 1, j + 1, right[k]@.skip(1)));
        } else {
            assert(r[k] == left[k - right.len()]);
            assert(is_path(g, i + 1, j - 1, left[k - right.len()]@.skip(1)));
        }
    }
    assert forall|p: Seq<usize>| #[trigger] is_path(g, i, j, p)
        implies exists|k: int| 0 <= k < r.len() && (#[trigger] r[k])@ == p by {
        if j + 1 < cols && is_path(g, i + 1, j + 1, p.skip(1)) {
            let k = choose|k: int| 0 <= k < right.len() && (#[trigger] right[k])@ == p;
            assert(r[k] == right[k]);
        } else {
            assert(j >= 1 && is_path(g, i + 1, j - 1, p.skip(1)));
            let k = choose|k: int| 0 <= k < left.len() && (#[trigger] left[k])@ == p;
            assert(r[right.len() + k] == left[k]);
        }
    }
    assert forall|k1: int, k2: int| 0 <= k1 < k2 < r.len()
        implies (#[trigger] r[k1])@ != (#[trigger] r[k2])@ by {
        if k1 < right.len() && k2 < right.len() {
            assert(r[k1] == right[k1] && r[k2] == right[k2]);
        } else if k1 >= right.len() && k2 >= right.len() {
            assert(r[k1] == left[k1 - right.len()] && r[k2] == left[k2 - right.len()]);
        } else {
            assert(r[k1] == right[k1] && r[k2] == left[k2 - right.len()]);
            let p1 = right[k1]@;
            let p2 = left[k2 - right.len()]@;
            lemma_path_shape(g, i + 1, j + 1, p1.skip(1));
            lemma_path_shape(g, i + 1, j - 1, p2.skip(1));
            if p1 == p2 {
                assert(p1.skip(1)[0] == p2.skip(1)[0]);
            }
        }
    }
}

/// All beam paths from square (i, j) to the bottom row, each one exactly
/// once.
#[verifier::spinoff_prover]
fn paths_from_cell(squares: &Vec<Vec<Square>>, i: usize, j: usize) -> (r: Vec<Vec<usize>>)
    requires
        rect(squares@),
        squares@.len() >= 1,
        i < squares@.len(),
        j < squares@[0]@.len(),
    ensures
        forall|k: int| 0 <= k < r@.len() ==> is_path(squares@, i as int, j as int, (#[trigger] r@[k])@),
        forall|p: Seq<usize>| #[trigger] is_path(squares@, i as int, j as int, p)
            ==> exists|k: int| 0 <= k < r@.len() && (#[trigger] r@[k])@ == p,
        forall|k1: int, k2: int| 0 <= k1 < k2 < r@.len() ==> (#[trigger] r@[k1])@ != (#[trigger] r@[k2])@,
    decreases squares@.len() - i,
{
    let ghost g = squares@;
    let rows = squares.len();
    let cols = squares[0].len();
    if i == rows - 1 {
        let mut one: Vec<usize> = Vec::new();
        one.push(j);
        let mut r: Vec<Vec<usize>> = Vec::new();
        r.push(one);
        proof {
            assert(r@[0]@ =~= seq![j]);
            assert(is_path(g, i as int, j as int, r@[0]@));
            assert forall|p: Seq<usize>| #[trigger] is_path(g, i as int, j as int, p)
                implies exists|k: int| 0 <= k < r@.len() && (#[trigger] r@[k])@ == p by {
                assert(p =~= r@[0]@);
            }
        }
        return r;
    }
    let below = &squares[i + 1][j];
    let is_split = matches!(below.square_type, SquareType::Splitter);
    if !is_split {
        let sub = paths_from_cell(squares, i + 1, j);
        let ghost subv = sub@;
        let r = prepend_all(j, sub);
        proof {
            lemma_prepended_paths(g, i as int, j, j as int, subv, r@);
            lemma_straight_paths(g, i as int, j as int, r@);
        }
        return r;
    }
    let mut r: Vec<Vec<usize>> = Vec::new();
    if j + 1 < cols {
        let sub = paths_from_cell(squares, i + 1, j + 1);
        let ghost subv = sub@;
        r = prepend_all(j, sub);
        proof {
            lemma_prepended_paths(g, i as int, j, j as int + 1, subv, r@);
        }
    }
    let ghost right = r@;
    if j > 0 {
        let sub = paths_from_cell(squares, i + 1, j - 1);
        let ghost subv = sub@;
        let mut left = prepend_all(j, sub);
        proof {
            lemma_prepended_paths(g, i as int, j, j as int - 1, subv, left@);
        }
        let ghost leftv = left@;
        r.append(&mut left);
        proof {
            lemma_splitter_union(g, i as int, j as int, right, leftv, r@);
        }
    } else {
        proof {
            lemma_splitter_union(g, i as int, j as int, right, Seq::<Vec<usize>>::empty(), r@);
            assert(right + Seq::<Vec<usize>>::empty() =~= right);
        }
    }
    r
}

/// p is a beam path of some source square of the grid.
pub open spec fn from_some_source(g: Seq<Vec<Square>>, p: Seq<usize>) -> bool {
    exists|a: int, b: int| 0 <= a < g.len() && 0 <= b < g[0]@.len()
        && sq(g, a, b) is Source && #[trigger] is_path(g, a, b, p)
}

/// p is a beam path of a source square before (a, b) in row-major order.
spec fn from_source_before(g: Seq<Vec<Square>>, p: Seq<usize>, a: int, b: int) -> bool {
    exists|a2: int, b2: int| 0 <= a2 < g.len() && 0 <= b2 < g[0]@.len()
        && (a2 < a || (a2 == a && b2 < b))
        && sq(g, a2, b2) is Source && #[trigger] is_path(g, a2, b2, p)
}

impl Grid {
    /// Every beam path from every source square down to the bottom row, as
    /// column traces, each path exactly once.
    #[verifier::spinoff_prover]
    pub fn trace_all_paths(&self) -> (r: Vec<Vec<usize>>)
        requires
            rect(self.squares@),
            self.squares@.len() >= 1,
        ensures
            forall|k: int| 0 <= k < r@.len()
                ==> from_some_source(self.squares@, (#[trigger] r@[k])@),
            forall|a: int, b: int, p: Seq<usize>| 0 <= a < self.squares@.len()
                && 0 <= b < self.squares@[0]@.len() && sq(self.squares@, a, b) is Source
                && #[trigger] is_path(self.squares@, a, b, p)
                ==> exists|k: int| 0 <= k < r@.len() && (#[trigger] r@[k])@ == p,
            forall|k1: int, k2: int| 0 <= k1 < k2 < r@.len()
                ==> (#[trigger] r@[k1])@ != (#[trigger] r@[k2])@,
    {
        let ghost g = self.squares@;
        let rows = self.squares.len();
        let cols = self.squares[0].len();
        let mut r: Vec<Vec<usize>> = Vec::new();
        let mut a: usize = 0;
        while a < rows
            invariant
                rect(g),
                g == self.squares@,
                rows == g.len(),
                rows >= 1,
                cols == g[0]@.len(),
                a <= rows,
                forall|k: int| 0 <= k < r@.len()
                    ==> from_source_before(g, (#[trigger] r@[k])@, a as int, 0),
                forall|a2: int, b2: int, p: Seq<usize>| 0 <= a2 < a
                    && 0 <= b2 < cols && sq(g, a2, b2) is Source
                    && #[trigger] is_path(g, a2, b2, p)
                    ==> exists|k: int| 0 <= k < r@.len() && (#[trigger] r@[k])@ == p,
                forall|k1: int, k2: int| 0 <= k1 < k2 < r@.len()
                    ==> (#[trigger] r@[k1])@ != (#[trigger] r@[k2])@,
            decreases rows - a,
        {
            let mut b: usize = 0;
            while b < cols
                invariant
                    rect(g),
                    g == self.squares@,
                    rows == g.len(),
                    rows >= 1,
                    cols == g[0]@.len(),
                    a < rows,
                    b <= cols,
                    forall|k: int| 0 <= k < r@.len()
                        ==> from_source_before(g, (#[trigger] r@[k])@, a as int, b as int),
                    forall|a2: int, b2: int, p: Seq<usize>| 0 <= a2 < rows
                        && 0 <= b2 < cols && (a2 < a || (a2 == a && b2 < b))
                        && sq(g, a2, b2) is Source
                        && #[trigger] is_path(g, a2, b2, p)
                        ==> exists|k: int| 0 <= k < r@.len() && (#[trigger] r@[k])@ == p,
                    forall|k1: int, k2: int| 0 <= k1 < k2 < r@.len()
                        ==> (#[trigger] r@[k1])@ != (#[trigger] r@[k2])@,
                decreases cols - b,
            {
                let is_source = matches!(self.squares[a][b].square_type, SquareType::Source);
                if is_source {
                    let ghost old_r = r@;
                    let mut block = paths_from_cell(&self.squares, a, b);
                    let ghost blockv = block@;
                    r.append(&mut block);
                    proof {
                        assert(r@ == old_r + blockv);
                        assert forall|k1: int, k2: int| 0 <= k1 < k2 < r@.len()
                            implies (#[trigger] r@[k1])@ != (#[trigger] r@[k2])@ by {
                            if k1 < old_r.len() && k2 >= old_r.len() {
                                assert(r@[k1] == old_r[k1]);
                                assert(r@[k2] == blockv[k2 - old_r.len()]);
                                let p1 = old_r[k1]@;
                                let p2 = blockv[k2 - old_r.len()]@;
                                assert(from_source_before(g, p1, a as int, b as int));
                                let (a2, b2) = choose|a2: int, b2: int|
                                    0 <= a2 < g.len() && 0 <= b2 < g[0]@.len()
                                    && (a2 < a || (a2 == a && b2 < b))
                                    && sq(g, a2, b2) is Source
                                    && #[trigger] is_path(g, a2, b2, p1);
                                lemma_path_shape(g, a2, b2, p1);
                                lemma_path_shape(g, a as int, b as int, p2);
                            } else if k1 < old_r.len() {
                                assert(r@[k1] == old_r[k1] && r@[k2] == old_r[k2]);
                            } else {
                                assert(r@[k1] == blockv[k1 - old_r.len()]
                                    && r@[k2] == blockv[k2 - old_r.len()]);
                            }
                        }
                        assert forall|k: int| 0 <= k < r@.len() implies
                            from_source_before(g, (#[trigger] r@[k])@, a as int, b + 1) by {
                            if k < old_r.len() {
                                assert(r@[k] == old_r[k]);
                                assert(from_source_before(g, old_r[k]@, a as int, b as int));
                            } else {
                                assert(r@[k] == blockv[k - old_r.len()]);
                                assert(is_path(g, a as int, b as int, r@[k]@));
                            }
                        }
                        assert forall|a2: int, b2: int, p: Seq<usize>| 0 <= a2 < rows
                            && 0 <= b2 < cols && (a2 < a || (a2 == a && b2 < b + 1))
                            && sq(g, a2, b2) is Source
                            && #[trigger] is_path(g, a2, b2, p)
                            implies exists|k: int| 0 <= k < r@.len()
                                && (#[trigger] r@[k])@ == p by {
                            if a2 == a && b2 == b {
                                let k = choose|k: int| 0 <= k < blockv.len()
                                    && (#[trigger] blockv[k])@ == p;
                                assert(r@[old_r.len() + k] == blockv[k]);
                            } else {
                                let k = choose|k: int| 0 <= k < old_r.len()
                                    && (#[trigger] old_r[k])@ == p;
                                assert(r@[k] == old_r[k]);
                            }
                        }
                    }
                } else {
                    proof {
                        assert forall|k: int| 0 <= k < r@.len() implies
                            from_source_before(g, (#[trigger] r@[k])@, a as int, b + 1) by {
                            assert(from_source_before(g, r@[k]@, a as int, b as int));
                            let (a2, b2) = choose|a2: int, b2: int|
                                0 <= a2 < g.len() && 0 <= b2 < g[0]@.len()
                                && (a2 < a || (a2 == a && b2 < b))
                                && sq(g, a2, b2) is Source
                                && #[trigger] is_path(g, a2, b2, r@[k]@);
                        }
                    }
                }
                b += 1;
            }
            proof {
                assert forall|k: int| 0 <= k < r@.len() implies
                    from_source_before(g, (#[trigger] r@[k])@, a + 1, 0) by {
                    assert(from_source_before(g, r@[k]@, a as int, cols as int));
                }
            }
            a += 1;
        }
        proof {
            assert forall|k: int| 0 <= k < r@.len() implies
                from_some_source(g, (#[trigger] r@[k])@) by {
                assert(from_source_before(g, r@[k]@, rows as int, 0));
            }
        }
        r
    }
}

} // verus!
