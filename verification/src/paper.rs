//! The paper-roll floor: a grid of rolls and empty space. A roll is
//! accessible when fewer than four of its eight neighbours are occupied;
//! accessible rolls can be marked and removed round by round.

use vstd::prelude::*;
use vstd::string::StringSliceAdditionalSpecFns;

verus! {

/// One floor tile.
#[derive(Debug, Clone, Copy, PartialEq, Eq)]
pub enum Tile {
    EmptySpace,
    PaperRoll { accessible: Option<bool> },
}

/// The floor: its tiles and the accessible rolls found by the last scan.
#[derive(Debug, Clone, PartialEq, Eq, Default)]
pub struct Floor {
    pub tiles: Vec<Vec<Tile>>,
    pub accessible_slots: Vec<(usize, usize)>,
}

/// The neighbour entry at (r, c), when that position is on the floor.
pub open spec fn nb1(tiles: Seq<Vec<Tile>>, r: int, c: int) -> Seq<((usize, usize), Tile)> {
    if 0 <= r < tiles.len() && 0 <= c < tiles[r]@.len() {
        seq![((r as usize, c as usize), tiles[r]@[c])]
    } else {
        Seq::empty()
    }
}

/// The neighbours of (row, col), clockwise from the upper left, skipping
/// positions off the floor.
pub open spec fn spec_neighbours(tiles: Seq<Vec<Tile>>, row: int, col: int)
    -> Seq<((usize, usize), Tile)> {
    nb1(tiles, row - 1, col - 1) + nb1(tiles, row - 1, col) + nb1(tiles, row - 1, col + 1)
        + nb1(tiles, row, col - 1) + nb1(tiles, row, col + 1)
        + nb1(tiles, row + 1, col - 1) + nb1(tiles, row + 1, col) + nb1(tiles, row + 1, col + 1)
}

/// How many listed neighbours are not empty space.
pub open spec fn count_non_empty(s: Seq<((usize, usize), Tile)>) -> int
    decreases s.len(),
{
    if s.len() == 0 {
        0
    } else {
        count_non_empty(s.drop_last()) + if s.last().1 is EmptySpace { 0int } else { 1int }
    }
}

/// A roll at (row, col) counts as accessible: fewer than four occupied
/// neighbours.
pub open spec fn roll_accessible(tiles: Seq<Vec<Tile>>, row: int, col: int) -> bool {
    count_non_empty(spec_neighbours(tiles, row, col)) < 4
}

/// What one tile becomes after a scan.
pub open spec fn scanned_tile(tiles: Seq<Vec<Tile>>, row: int, col: int) -> Tile {
    if tiles[row]@[col] is PaperRoll {
        Tile::PaperRoll { accessible: Some(roll_accessible(tiles, row, col)) }
    } else {
        tiles[row]@[col]
    }
}

/// The accessible-roll positions of row `row` among the first c columns,
/// in column order.
pub open spec fn row_slots(tiles: Seq<Vec<Tile>>, row: int, c: int) -> Seq<(usize, usize)>
    decreases c,
{
    if c <= 0 {
        Seq::empty()
    } else {
        row_slots(tiles, row, c - 1)
            + if tiles[row]@[c - 1] is PaperRoll && roll_accessible(tiles, row, c - 1) {
                seq![(row as usize, (c - 1) as usize)]
            } else {
                Seq::empty()
            }
    }
}

/// The accessible-roll positions of the first r rows, in row-major order.
pub open spec fn all_slots(tiles: Seq<Vec<Tile>>, r: int) -> Seq<(usize, usize)>
    decreases r,
{
    if r <= 0 {
        Seq::empty()
    } else {
        all_slots(tiles, r - 1) + row_slots(tiles, r - 1, tiles[r - 1]@.len() as int)
    }
}

/// Two floors have the same shape and the same occupied positions.
pub open spec fn same_occupancy(t1: Seq<Vec<Tile>>, t2: Seq<Vec<Tile>>) -> bool {
    &&& t1.len() == t2.len()
    &&& forall|r: int| 0 <= r < t1.len() ==> (#[trigger] t1[r])@.len() == t2[r]@.len()
    &&& forall|r: int, c: int| 0 <= r < t1.len() && 0 <= c < t1[r]@.len()
        ==> ((#[trigger] t1[r]@[c]) is EmptySpace <==> t2[r]@[c] is EmptySpace)
}

/// Neighbour occupancy counts agree on floors with the same occupancy.
proof fn lemma_count_same_occupancy(t1: Seq<Vec<Tile>>, t2: Seq<Vec<Tile>>, row: int, col: int)
    requires
        same_occupancy(t1, t2),
    ensures
        count_non_empty(spec_neighbours(t1, row, col))
            == count_non_empty(spec_neighbours(t2, row, col)),
{
    let pairs: Seq<(int, int)> = seq![
        (row - 1, col - 1), (row - 1, col), (row - 1, col + 1),
        (row, col - 1), (row, col + 1),
        (row + 1, col - 1), (row + 1, col), (row + 1, col + 1),
    ];
    assert forall|m: int| 0 <= m < pairs.len() implies
        count_non_empty(nb1(t1, pairs[m].0, pairs[m].1))
            == count_non_empty(nb1(t2, pairs[m].0, pairs[m].1)) by {
        let (r, c) = pairs[m];
        if 0 <= r < t1.len() && 0 <= c < t1[r]@.len() {
            assert(nb1(t1, r, c).drop_last() =~= Seq::empty());
            assert(nb1(t2, r, c).drop_last() =~= Seq::empty());
        }
    }
    lemma_count_concat_all(t1, row, col);
    lemma_count_concat_all(t2, row, col);
}

/// count_non_empty splits over concatenation.
proof fn lemma_count_concat(a: Seq<((usize, usize), Tile)>, b: Seq<((usize, usize), Tile)>)
    ensures
        count_non_empty(a + b) == count_non_empty(a) + count_non_empty(b),
    decreases b.len(),
{
    if b.len() == 0 {
        assert(a + b =~= a);
    } else {
        lemma_count_concat(a, b.drop_last());
        assert((a + b).drop_last() =~= a + b.drop_last());
        assert((a + b).last() == b.last());
    }
}

/// The neighbour count is the sum over the eight neighbour entries.
proof fn lemma_count_concat_all(t: Seq<Vec<Tile>>, row: int, col: int)
    ensures
        count_non_empty(spec_neighbours(t, row, col))
            == count_non_empty(nb1(t, row - 1, col - 1))
            + count_non_empty(nb1(t, row - 1, col))
            + count_non_empty(nb1(t, row - 1, col + 1))
            + count_non_empty(nb1(t, row, col - 1))
            + count_non_empty(nb1(t, row, col + 1))
            + count_non_empty(nb1(t, row + 1, col - 1))
            + count_non_empty(nb1(t, row + 1, col))
            + count_non_empty(nb1(t, row + 1, col + 1)),
{
    let s1 = nb1(t, row - 1, col - 1);
    let s2 = nb1(t, row - 1, col);
    let s3 = nb1(t, row - 1, col + 1);
    let s4 = nb1(t, row, col - 1);
    let s5 = nb1(t, row, col + 1);
    let s6 = nb1(t, row + 1, col - 1);
    let s7 = nb1(t, row + 1, col);
    let s8 = nb1(t, row + 1, col + 1);
    lemma_count_concat(s1, s2);
    lemma_count_concat(s1 + s2, s3);
    lemma_count_concat(s1 + s2 + s3, s4);
    lemma_count_concat(s1 + s2 + s3 + s4, s5);
    lemma_count_concat(s1 + s2 + s3 + s4 + s5, s6);
    lemma_count_concat(s1 + s2 + s3 + s4 + s5 + s6, s7);
    lemma_count_concat(s1 + s2 + s3 + s4 + s5 + s6 + s7, s8);
}

impl Floor {
    /// The tile at (row, col), when that position is on the floor.
    pub fn get(&self, row: usize, col: usize) -> (r: Option<&Tile>)
        ensures
            r is Some <==> row < self.tiles@.len() && col < self.tiles@[row as int]@.len(),
            r matches Some(t) ==> *t == self.tiles@[row as int]@[col as int],
    {
        if row < self.tiles.len() {
            let rr = &self.tiles[row];
            if col < rr.len() {
                Some(&rr[col])
            } else {
                None
            }
        } else {
            None
        }
    }

    /// The neighbours of (row, col): position and tile, clockwise from the
    /// upper left, skipping positions off the floor.
    #[verifier::rlimit(100)]
    pub fn iter_neighbours(&self, row: usize, col: usize) -> (r: Vec<((usize, usize), Tile)>)
        requires
            row < usize::MAX,
            col < usize::MAX,
        ensures
            r@ == spec_neighbours(self.tiles@, row as int, col as int),
    {
        let ghost ri = row as int;
        let ghost ci = col as int;
        let ghost tl = self.tiles@;
        let mut out: Vec<((usize, usize), Tile)> = Vec::new();
        if row >= 1 && col >= 1 {
            if let Some(tile) = self.get(row - 1, col - 1) {
                out.push(((row - 1, col - 1), *tile));
            }
        }
        proof {
            assert(out@ =~= nb1(tl, ri - 1, ci - 1));
        }
        if row >= 1 {
            if let Some(tile) = self.get(row - 1, col) {
                out.push(((row - 1, col), *tile));
            }
        }
        proof {
            assert(out@ =~= nb1(tl, ri - 1, ci - 1) + nb1(tl, ri - 1, ci));
        }
        if row >= 1 {
            if let Some(tile) = self.get(row - 1, col + 1) {
                out.push(((row - 1, col + 1), *tile));
            }
        }
        proof {
            assert(out@ =~= nb1(tl, ri - 1, ci - 1) + nb1(tl, ri - 1, ci) + nb1(tl, ri - 1, ci + 1));
        }
        if col >= 1 {
            if let Some(tile) = self.get(row, col - 1) {
                out.push(((row, col - 1), *tile));
            }
        }
        proof {
            assert(out@ =~= nb1(tl, ri - 1, ci - 1) + nb1(tl, ri - 1, ci) + nb1(tl, ri - 1, ci + 1)
                + nb1(tl, ri, ci - 1));
        }
        {
            if let Some(tile) = self.get(row, col + 1) {
                out.push(((row, col + 1), *tile));
            }
        }
        proof {
            assert(out@ =~= nb1(tl, ri - 1, ci - 1) + nb1(tl, ri - 1, ci) + nb1(tl, ri - 1, ci + 1)
                + nb1(tl, ri, ci - 1) + nb1(tl, ri, ci + 1));
        }
        if col >= 1 {
            if let Some(tile) = self.get(row + 1, col - 1) {
                out.push(((row + 1, col - 1), *tile));
            }
        }
        proof {
            assert(out@ =~= nb1(tl, ri - 1, ci - 1) + nb1(tl, ri - 1, ci) + nb1(tl, ri - 1, ci + 1)
                + nb1(tl, ri, ci - 1) + nb1(tl, ri, ci + 1) + nb1(tl, ri + 1, ci - 1));
        }
        {
            if let Some(tile) = self.get(row + 1, col) {
                out.push(((row + 1, col), *tile));
            }
        }
        proof {
            assert(out@ =~= nb1(tl, ri - 1, ci - 1) + nb1(tl, ri - 1, ci) + nb1(tl, ri - 1, ci + 1)
                + nb1(tl, ri, ci - 1) + nb1(tl, ri, ci + 1) + nb1(tl, ri + 1, ci - 1)
                + nb1(tl, ri + 1, ci));
        }
        {
            if let Some(tile) = self.get(row + 1, col + 1) {
                out.push(((row + 1, col + 1), *tile));
            }
        }
        proof {
            assert(out@ =~= nb1(tl, ri - 1, ci - 1) + nb1(tl, ri - 1, ci) + nb1(tl, ri - 1, ci + 1)
                + nb1(tl, ri, ci - 1) + nb1(tl, ri, ci + 1) + nb1(tl, ri + 1, ci - 1)
                + nb1(tl, ri + 1, ci) + nb1(tl, ri + 1, ci + 1));
        }
        out
    }
}

/// One floor row read from text: '.' empty, '@' a roll, 'x' a roll already
/// marked accessible. Any other character is a parse failure, and an empty
/// line is rejected.
pub fn parse_floor_line(input: &str) -> (r: Option<Vec<Tile>>)
    ensures
        r is Some <==> input.spec_bytes().len() >= 1 && forall|i: int|
            0 <= i < input.spec_bytes().len()
            ==> (#[trigger] input.spec_bytes()[i]) == 46
                || input.spec_bytes()[i] == 64
                || input.spec_bytes()[i] == 120,
        r matches Some(v) ==> {
            &&& v@.len() == input.spec_bytes().len()
            &&& forall|i: int| 0 <= i < v@.len() ==> (#[trigger] v@[i]) == (
                if input.spec_bytes()[i] == 46 {
                    Tile::EmptySpace
                } else if input.spec_bytes()[i] == 64 {
                    Tile::PaperRoll { accessible: None }
                } else {
                    Tile::PaperRoll { accessible: Some(true) }
                })
        },
{
    let bs = input.as_bytes();
    if bs.len() == 0 {
        return None;
    }
    let mut v: Vec<Tile> = Vec::new();
    let mut i: usize = 0;
    while i < bs.len()
        invariant
            bs@ == input.spec_bytes(),
            i <= bs@.len(),
            v@.len() == i,
            forall|j: int| 0 <= j < i
                ==> (#[trigger] bs@[j]) == 46 || bs@[j] == 64 || bs@[j] == 120,
            forall|j: int| 0 <= j < i ==> (#[trigger] v@[j]) == (
                if bs@[j] == 46 {
                    Tile::EmptySpace
                } else if bs@[j] == 64 {
                    Tile::PaperRoll { accessible: None }
                } else {
                    Tile::PaperRoll { accessible: Some(true) }
                }),
        decreases bs@.len() - i,
    {
        let b = bs[i];
        if b == 46 {
            v.push(Tile::EmptySpace);
        } else if b == 64 {
            v.push(Tile::PaperRoll { accessible: None });
        } else if b == 120 {
            v.push(Tile::PaperRoll { accessible: Some(true) });
        } else {
            proof {
                assert(input.spec_bytes() == bs@);
                assert(0 <= i < input.spec_bytes().len()
                    && !((input.spec_bytes()[i as int]) == 46
                        || input.spec_bytes()[i as int] == 64
                        || input.spec_bytes()[i as int] == 120));
            }
            return None;
        }
        i += 1;
    }
    Some(v)
}

/// How many listed neighbours are occupied.
fn count_occupied(nbs: &Vec<((usize, usize), Tile)>) -> (r: usize)
    ensures
        r == count_non_empty(nbs@),
{
    let mut cnt: usize = 0;
    let mut k: usize = 0;
    while k < nbs.len()
        invariant
            k <= nbs@.len(),
            cnt <= k,
            cnt == count_non_empty(nbs@.take(k as int)),
        decreases nbs@.len() - k,
    {
        proof {
            assert(nbs@.take(k + 1).drop_last() =~= nbs@.take(k as int));
            assert(nbs@.take(k + 1).last() == nbs@[k as int]);
        }
        let keep = match nbs[k].1 {
            Tile::EmptySpace => false,
            Tile::PaperRoll { .. } => true,
        };
        if keep {
            cnt += 1;
        }
        k += 1;
    }
    proof {
        assert(nbs@.take(nbs@.len() as int) =~= nbs@);
    }
    cnt
}

proof fn lemma_row_slots_len(tiles: Seq<Vec<Tile>>, row: int, c: int)
    requires
        c >= 0,
    ensures
        0 <= row_slots(tiles, row, c).len() <= c,
    decreases c,
{
    if c > 0 {
        lemma_row_slots_len(tiles, row, c - 1);
    }
}

proof fn lemma_all_slots_len(tiles: Seq<Vec<Tile>>, r: int)
    requires
        r >= 0,
        forall|i: int| 0 <= i < tiles.len() ==> (#[trigger] tiles[i])@.len() < 0xFFFF,
        r <= tiles.len(),
    ensures
        0 <= all_slots(tiles, r).len() <= r * 0xFFFF,
    decreases r,
{
    if r > 0 {
        lemma_all_slots_len(tiles, r - 1);
        lemma_row_slots_len(tiles, r - 1, tiles[r - 1]@.len() as int);
        assert((r - 1) * 0xFFFF + 0xFFFF == r * 0xFFFF) by (nonlinear_arith);
    }
}

impl Floor {
    /// Scan the whole floor: every roll learns whether it is accessible
    /// (fewer than four occupied neighbours), the accessible ones are
    /// listed in row-major order, and their number is returned.
    pub fn process_accessible(&mut self) -> (r: u32)
        requires
            old(self).tiles@.len() < 0xFFFF,
            forall|i: int| 0 <= i < old(self).tiles@.len()
                ==> (#[trigger] old(self).tiles@[i])@.len() < 0xFFFF,
        ensures
            final(self).tiles@.len() == old(self).tiles@.len(),
            forall|i: int| 0 <= i < final(self).tiles@.len()
                ==> (#[trigger] final(self).tiles@[i])@.len() == old(self).tiles@[i]@.len(),
            forall|i: int, j: int| 0 <= i < final(self).tiles@.len()
                && 0 <= j < final(self).tiles@[i]@.len()
                ==> (#[trigger] final(self).tiles@[i]@[j]) == scanned_tile(old(self).tiles@, i, j),
            final(self).accessible_slots@
                == all_slots(old(self).tiles@, old(self).tiles@.len() as int),
            r == final(self).accessible_slots@.len(),
    {
        let ghost t0 = self.tiles@;
        self.accessible_slots = Vec::new();
        let rows = self.tiles.len();
        let mut row: usize = 0;
        while row < rows
            invariant
                rows == t0.len(),
                rows < 0xFFFF,
                forall|i: int| 0 <= i < t0.len() ==> (#[trigger] t0[i])@.len() < 0xFFFF,
                row <= rows,
                self.tiles@.len() == rows,
                forall|i: int| 0 <= i < rows
                    ==> (#[trigger] self.tiles@[i])@.len() == t0[i]@.len(),
                forall|i: int, j: int| 0 <= i < row && 0 <= j < self.tiles@[i]@.len()
                    ==> (#[trigger] self.tiles@[i]@[j]) == scanned_tile(t0, i, j),
                forall|i: int, j: int| row <= i < rows && 0 <= j < self.tiles@[i]@.len()
                    ==> (#[trigger] self.tiles@[i]@[j]) == t0[i]@[j],
                same_occupancy(t0, self.tiles@),
                self.accessible_slots@ == all_slots(t0, row as int),
            decreases rows - row,
        {
            let cols = self.tiles[row].len();
            let mut new_row: Vec<Tile> = Vec::new();
            let mut col: usize = 0;
            while col < cols
                invariant
                    rows == t0.len(),
                    rows < 0xFFFF,
                    forall|i: int| 0 <= i < t0.len() ==> (#[trigger] t0[i])@.len() < 0xFFFF,
                    row < rows,
                    cols == t0[row as int]@.len(),
                    col <= cols,
                    self.tiles@.len() == rows,
                    forall|i: int| 0 <= i < rows
                        ==> (#[trigger] self.tiles@[i])@.len() == t0[i]@.len(),
                    forall|i: int, j: int| 0 <= i < row && 0 <= j < self.tiles@[i]@.len()
                        ==> (#[trigger] self.tiles@[i]@[j]) == scanned_tile(t0, i, j),
                    forall|i: int, j: int| row <= i < rows && 0 <= j < self.tiles@[i]@.len()
                        ==> (#[trigger] self.tiles@[i]@[j]) == t0[i]@[j],
                    same_occupancy(t0, self.tiles@),
                    new_row@.len() == col,
                    forall|j: int| 0 <= j < col
                        ==> (#[trigger] new_row@[j]) == scanned_tile(t0, row as int, j),
                    self.accessible_slots@
                        == all_slots(t0, row as int) + row_slots(t0, row as int, col as int),
                decreases cols - col,
            {
                let tile = self.tiles[row][col];
                let is_roll = match tile {
                    Tile::PaperRoll { .. } => true,
                    Tile::EmptySpace => false,
                };
                if is_roll {
                    let nbs = self.iter_neighbours(row, col);
                    let cnt = count_occupied(&nbs);
                    proof {
                        lemma_count_same_occupancy(t0, self.tiles@, row as int, col as int);
                    }
                    let accessible = cnt < 4;
                    new_row.push(Tile::PaperRoll { accessible: Some(accessible) });
                    if accessible {
                        self.accessible_slots.push((row, col));
                    }
                    proof {
                        assert(t0[row as int]@[col as int] is PaperRoll);
                        assert(roll_accessible(t0, row as int, col as int) == accessible);
                        assert(self.accessible_slots@
                            =~= all_slots(t0, row as int) + row_slots(t0, row as int, col + 1));
                    }
                } else {
                    new_row.push(tile);
                    proof {
                        assert(self.accessible_slots@
                            =~= all_slots(t0, row as int) + row_slots(t0, row as int, col + 1));
                    }
                }
                col += 1;
            }
            let ghost pre = self.tiles@;
            self.tiles.set(row, new_row);
            proof {
                assert(forall|i: int| 0 <= i < rows && i != row
                    ==> #[trigger] self.tiles@[i] == pre[i]);
                assert forall|i: int, j: int| 0 <= i < row + 1
                    && 0 <= j < self.tiles@[i]@.len()
                    implies (#[trigger] self.tiles@[i]@[j]) == scanned_tile(t0, i, j) by {
                    if i < row {
                        assert(self.tiles@[i] == pre[i]);
                    }
                }
                assert forall|i: int, j: int| 0 <= i < t0.len() && 0 <= j < t0[i]@.len()
                    implies ((#[trigger] t0[i]@[j]) is EmptySpace
                        <==> self.tiles@[i]@[j] is EmptySpace) by {
                    if i == row {
                        assert(self.tiles@[i]@[j] == scanned_tile(t0, i, j));
                    } else if i < row {
                        assert(self.tiles@[i] == pre[i]);
                    } else {
                        assert(self.tiles@[i] == pre[i]);
                    }
                }
                assert(self.accessible_slots@ =~= all_slots(t0, row + 1));
            }
            row += 1;
        }
        proof {
            lemma_all_slots_len(t0, rows as int);
            assert((rows as int) * 0xFFFF < 0xFFFF_FFFF) by (nonlinear_arith)
                requires rows < 0xFFFF;
        }
        self.accessible_slots.len() as u32
    }

    /// Empty every tile listed by the last scan and clear the list.
    pub fn clear_acessible(&mut self)
        requires
            forall|k: int| 0 <= k < old(self).accessible_slots@.len() ==> {
                let (r2, c2) = #[trigger] old(self).accessible_slots@[k];
                r2 < old(self).tiles@.len() && c2 < old(self).tiles@[r2 as int]@.len()
            },
        ensures
            final(self).tiles@.len() == old(self).tiles@.len(),
            forall|i: int| 0 <= i < final(self).tiles@.len()
                ==> (#[trigger] final(self).tiles@[i])@.len() == old(self).tiles@[i]@.len(),
            forall|i: int, j: int| 0 <= i < final(self).tiles@.len()
                && 0 <= j < final(self).tiles@[i]@.len()
                ==> (#[trigger] final(self).tiles@[i]@[j]) == (
                    if old(self).accessible_slots@.contains((i as usize, j as usize)) {
                        Tile::EmptySpace
                    } else {
                        old(self).tiles@[i]@[j]
                    }),
            final(self).accessible_slots@.len() == 0,
    {
        let ghost t0 = self.tiles@;
        let ghost slots0 = self.accessible_slots@;
        let nrows = self.tiles.len();
        let n = self.accessible_slots.len();
        let mut k: usize = 0;
        while k < n
            invariant
                slots0 == self.accessible_slots@,
                t0.len() <= usize::MAX,
                n == slots0.len(),
                k <= n,
                forall|m: int| 0 <= m < slots0.len() ==> {
                    let (r2, c2) = #[trigger] slots0[m];
                    r2 < t0.len() && c2 < t0[r2 as int]@.len()
                },
                self.tiles@.len() == t0.len(),
                forall|i: int| 0 <= i < t0.len()
                    ==> (#[trigger] self.tiles@[i])@.len() == t0[i]@.len(),
                forall|i: int, j: int| 0 <= i < t0.len() && 0 <= j < self.tiles@[i]@.len()
                    ==> (#[trigger] self.tiles@[i]@[j]) == (
                        if exists|m: int| 0 <= m < k && #[trigger] slots0[m] == (i as usize, j as usize) {
                            Tile::EmptySpace
                        } else {
                            t0[i]@[j]
                        }),
            decreases n - k,
        {
            let (r, c) = self.accessible_slots[k];
            let width = self.tiles[r].len();
            let mut new_row: Vec<Tile> = Vec::new();
            let mut j: usize = 0;
            while j < width
                invariant
                    r < self.tiles@.len(),
                    width == self.tiles@[r as int]@.len(),
                    j <= width,
                    new_row@.len() == j,
                    forall|j2: int| 0 <= j2 < j ==> (#[trigger] new_row@[j2]) == (
                        if j2 == c as int {
                            Tile::EmptySpace
                        } else {
                            self.tiles@[r as int]@[j2]
                        }),
                decreases width - j,
            {
                if j == c {
                    new_row.push(Tile::EmptySpace);
                } else {
                    new_row.push(self.tiles[r][j]);
                }
                j += 1;
            }
            let ghost pre = self.tiles@;
            self.tiles.set(r, new_row);
            proof {
                assert(forall|i: int| 0 <= i < t0.len() && i != r
                    ==> #[trigger] self.tiles@[i] == pre[i]);
                assert(slots0[k as int] == (r, c));
                assert forall|i: int, j2: int| 0 <= i < t0.len()
                    && 0 <= j2 < self.tiles@[i]@.len()
                    implies (#[trigger] self.tiles@[i]@[j2]) == (
                        if exists|m: int| 0 <= m < k + 1
                            && #[trigger] slots0[m] == (i as usize, j2 as usize) {
                            Tile::EmptySpace
                        } else {
                            t0[i]@[j2]
                        }) by {
                    assert(self.tiles@[i].len() == self.tiles@[i]@.len());
                    if i == r && j2 == c as int {
                        assert(slots0[k as int] == (i as usize, j2 as usize));
                    } else {
                        if i != r {
                            assert(self.tiles@[i] == pre[i]);
                        }
                        if exists|m: int| 0 <= m < k + 1
                            && #[trigger] slots0[m] == (i as usize, j2 as usize) {
                            let m = choose|m: int| 0 <= m < k + 1
                                && #[trigger] slots0[m] == (i as usize, j2 as usize);
                            assert(m < k) by {
                                if m == k {
                                    assert(slots0[k as int] == (r, c));
                                    assert((i as usize) == r && (j2 as usize) == c);
                                    assert(i < t0.len());
                                    assert(i == r as int);
                                    assert(j2 < self.tiles@[i]@.len());
                                    assert(j2 == c as int);
                                }
                            }
                        } else {
                            if exists|m: int| 0 <= m < k
                                && #[trigger] slots0[m] == (i as usize, j2 as usize) {
                                let m = choose|m: int| 0 <= m < k
                                    && #[trigger] slots0[m] == (i as usize, j2 as usize);
                            }
                        }
                    }
                }
            }
            k += 1;
        }
        self.accessible_slots = Vec::new();
        proof {
            assert forall|i: int, j: int| 0 <= i < t0.len()
                && 0 <= j < self.tiles@[i]@.len()
                implies (#[trigger] self.tiles@[i]@[j]) == (
                    if slots0.contains((i as usize, j as usize)) {
                        Tile::EmptySpace
                    } else {
                        t0[i]@[j]
                    }) by {
                assert(self.tiles@[i].len() == self.tiles@[i]@.len());
                if slots0.contains((i as usize, j as usize)) {
                    let m = choose|m: int| 0 <= m < slots0.len()
                        && slots0[m] == (i as usize, j as usize);
                    assert(exists|m2: int| 0 <= m2 < n
                        && #[trigger] slots0[m2] == (i as usize, j as usize));
                }
            }
        }
    }
}

} // verus!
