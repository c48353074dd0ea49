//! The 4x4 grid and the transform that applies one direction to it.
use vstd::prelude::*;

use crate::line::{
    is_pow2, is_settled, lemma_line_ok, lemma_no_merge_conserves, lemma_reduce_keeps_tile_values,
    lemma_reduced_is_settled, lemma_reduced_parts, lemma_settled_line_unchanged, line_seq, nonzeros,
    pad, reduce_line, reduced,
};

verus! {

/// A requested movement of the tiles.
#[derive(Clone, Copy, Debug, PartialEq, Eq, Structural)]
pub enum Direction {
    Left,
    Right,
    Up,
    Down,
}

/// The grid, indexed `grid[y][x]`, row `y` from the top and column `x` from
/// the left. `0` is an empty cell.
pub struct GameState {
    pub grid: [[i32; 4]; 4],
}

pub open spec fn in_grid(y: int, x: int) -> bool {
    0 <= y < 4 && 0 <= x < 4
}

pub open spec fn cell(g: [[i32; 4]; 4], y: int, x: int) -> int {
    g[y][x] as int
}

/// Grid coordinates `(y, x)` of position `j` of line `i`, where a line is
/// oriented so that its tiles slide toward position 3.
pub open spec fn coord(dir: Direction, i: int, j: int) -> (int, int) {
    match dir {
        Direction::Right => (i, j),
        Direction::Left => (i, 3 - j),
        Direction::Down => (j, i),
        Direction::Up => (3 - j, i),
    }
}

/// The line that cell `(y, x)` belongs to.
pub open spec fn line_index(dir: Direction, y: int, x: int) -> int {
    match dir {
        Direction::Right | Direction::Left => y,
        Direction::Down | Direction::Up => x,
    }
}

/// The position of cell `(y, x)` within its line.
pub open spec fn line_pos(dir: Direction, y: int, x: int) -> int {
    match dir {
        Direction::Right => x,
        Direction::Left => 3 - x,
        Direction::Down => y,
        Direction::Up => 3 - y,
    }
}

/// Line `i` of the grid for a move in direction `dir`.
pub open spec fn line_of(g: [[i32; 4]; 4], dir: Direction, i: int) -> Seq<int> {
    Seq::new(4, |j: int| cell(g, coord(dir, i, j).0, coord(dir, i, j).1))
}

/// The value of cell `(y, x)` after the grid is moved in direction `dir`.
pub open spec fn shifted_cell(g: [[i32; 4]; 4], dir: Direction, y: int, x: int) -> int {
    reduced(line_of(g, dir, line_index(dir, y, x)))[line_pos(dir, y, x)]
}

/// `new` is `old` moved in direction `dir`.
pub open spec fn is_shift_of(old: [[i32; 4]; 4], dir: Direction, new: [[i32; 4]; 4]) -> bool {
    forall|y: int, x: int| in_grid(y, x) ==> #[trigger] cell(new, y, x) == shifted_cell(old, dir, y, x)
}

/// The two grids differ in at least one cell.
pub open spec fn differs(a: [[i32; 4]; 4], b: [[i32; 4]; 4]) -> bool {
    exists|y: int, x: int| in_grid(y, x) && #[trigger] cell(a, y, x) != cell(b, y, x)
}

/// Sum of the cells of line `i` along `dir`.
pub open spec fn line_total(g: [[i32; 4]; 4], dir: Direction, i: int) -> int {
    cell(g, coord(dir, i, 0).0, coord(dir, i, 0).1) + cell(g, coord(dir, i, 1).0, coord(dir, i, 1).1)
        + cell(g, coord(dir, i, 2).0, coord(dir, i, 2).1) + cell(
        g,
        coord(dir, i, 3).0,
        coord(dir, i, 3).1,
    )
}

/// Line `i` along `dir` holds non-negative values whose sum fits in an
/// `i32`, so that no merge in it can overflow.
pub open spec fn line_fits(g: [[i32; 4]; 4], dir: Direction, i: int) -> bool {
    &&& forall|j: int| 0 <= j < 4 ==> #[trigger] line_of(g, dir, i)[j] >= 0
    &&& line_total(g, dir, i) <= i32::MAX
}

/// No cell is negative, and every line along `dir` has a sum that fits in
/// an `i32`: a move in direction `dir` cannot overflow.
pub open spec fn move_fits(g: [[i32; 4]; 4], dir: Direction) -> bool {
    &&& forall|y: int, x: int| in_grid(y, x) ==> #[trigger] cell(g, y, x) >= 0
    &&& line_total(g, dir, 0) <= i32::MAX
    &&& line_total(g, dir, 1) <= i32::MAX
    &&& line_total(g, dir, 2) <= i32::MAX
    &&& line_total(g, dir, 3) <= i32::MAX
}

proof fn lemma_lines_fit_move(g: [[i32; 4]; 4], dir: Direction)
    requires
        forall|i: int| 0 <= i < 4 ==> #[trigger] line_fits(g, dir, i),
    ensures
        move_fits(g, dir),
{
    assert(line_fits(g, dir, 0) && line_fits(g, dir, 1) && line_fits(g, dir, 2) && line_fits(
        g,
        dir,
        3,
    ));
    assert forall|y: int, x: int| in_grid(y, x) implies #[trigger] cell(g, y, x) >= 0 by {
        let i = line_index(dir, y, x);
        assert(line_fits(g, dir, i));
        assert(line_of(g, dir, i)[line_pos(dir, y, x)] >= 0);
    }
}

proof fn lemma_move_fits_line(g: [[i32; 4]; 4], dir: Direction, i: int)
    requires
        move_fits(g, dir),
        0 <= i < 4,
    ensures
        line_fits(g, dir, i),
{
    assert forall|j: int| 0 <= j < 4 implies #[trigger] line_of(g, dir, i)[j] >= 0 by {
        lemma_coord(dir, i, j);
    }
}

/// Every cell is empty or holds a power of two.
pub open spec fn tiles_ok(g: [[i32; 4]; 4]) -> bool {
    forall|y: int, x: int| in_grid(y, x) ==> cell(g, y, x) == 0 || is_pow2(#[trigger] cell(g, y, x))
}

proof fn lemma_coord(dir: Direction, i: int, j: int)
    requires
        0 <= i < 4,
        0 <= j < 4,
    ensures
        in_grid(coord(dir, i, j).0, coord(dir, i, j).1),
        line_index(dir, coord(dir, i, j).0, coord(dir, i, j).1) == i,
        line_pos(dir, coord(dir, i, j).0, coord(dir, i, j).1) == j,
{
}

proof fn lemma_line_of_shift(old: [[i32; 4]; 4], dir: Direction, new: [[i32; 4]; 4], i: int)
    requires
        is_shift_of(old, dir, new),
        0 <= i < 4,
    ensures
        line_of(new, dir, i) == reduced(line_of(old, dir, i)),
{
    lemma_reduced_parts(line_of(old, dir, i));
    assert forall|j: int| 0 <= j < 4 implies line_of(new, dir, i)[j] == reduced(
        line_of(old, dir, i),
    )[j] by {
        lemma_coord(dir, i, j);
    }
    assert(line_of(new, dir, i) =~= reduced(line_of(old, dir, i)));
}

/// After a move, every line in the direction of the move is settled: no two
/// neighbouring non-empty cells of it hold equal values.
pub proof fn lemma_move_settles_lines(old: [[i32; 4]; 4], dir: Direction, new: [[i32; 4]; 4])
    requires
        is_shift_of(old, dir, new),
    ensures
        forall|i: int| 0 <= i < 4 ==> is_settled(#[trigger] line_of(new, dir, i)),
        forall|i: int, j: int|
            0 <= i < 4 && 0 <= j < 3 && #[trigger] line_of(new, dir, i)[j] != 0 ==> line_of(
                new,
                dir,
                i,
            )[j] != line_of(new, dir, i)[j + 1],
{
    assert forall|i: int| 0 <= i < 4 implies is_settled(#[trigger] line_of(new, dir, i)) && (
    forall|j: int|
        0 <= j < 3 && #[trigger] line_of(new, dir, i)[j] != 0 ==> line_of(new, dir, i)[j]
            != line_of(new, dir, i)[j + 1]) by {
        lemma_line_of_shift(old, dir, new, i);
        lemma_reduced_is_settled(line_of(old, dir, i));
    }
}

/// In a move, a line in which no two tiles merge keeps the same multiset of
/// non-empty values, only moved.
pub proof fn lemma_move_conserves_unmerged_lines(
    old: [[i32; 4]; 4],
    dir: Direction,
    new: [[i32; 4]; 4],
    i: int,
)
    requires
        is_shift_of(old, dir, new),
        0 <= i < 4,
        nonzeros(line_of(new, dir, i)).len() == nonzeros(line_of(old, dir, i)).len(),
    ensures
        nonzeros(line_of(new, dir, i)).to_multiset() == nonzeros(line_of(old, dir, i)).to_multiset(),
{
    lemma_line_of_shift(old, dir, new, i);
    lemma_no_merge_conserves(line_of(old, dir, i));
}

pub proof fn lemma_shifted_cell_tile(g: [[i32; 4]; 4], dir: Direction, y: int, x: int)
    requires
        tiles_ok(g),
        in_grid(y, x),
    ensures
        shifted_cell(g, dir, y, x) == 0 || is_pow2(shifted_cell(g, dir, y, x)),
{
    let i = line_index(dir, y, x);
    let l = line_of(g, dir, i);
    assert forall|j: int| 0 <= j < l.len() implies l[j] == 0 || is_pow2(#[trigger] l[j]) by {
        lemma_coord(dir, i, j);
    }
    lemma_reduce_keeps_tile_values(l);
    lemma_reduced_parts(l);
}

/// Moving a grid whose cells are empty or powers of two gives a grid of the
/// same kind.
pub proof fn lemma_move_keeps_tile_values(old: [[i32; 4]; 4], dir: Direction, new: [[i32; 4]; 4])
    requires
        is_shift_of(old, dir, new),
        tiles_ok(old),
    ensures
        tiles_ok(new),
{
    assert forall|y: int, x: int| in_grid(y, x) implies cell(new, y, x) == 0 || is_pow2(
        #[trigger] cell(new, y, x),
    ) by {
        lemma_shifted_cell_tile(old, dir, y, x);
    }
}

fn line_coord(dir: Direction, i: usize, j: usize) -> (r: (usize, usize))
    requires
        i < 4,
        j < 4,
    ensures
        r.0 == coord(dir, i as int, j as int).0,
        r.1 == coord(dir, i as int, j as int).1,
        r.0 < 4,
        r.1 < 4,
{
    match dir {
        Direction::Right => (i, j),
        Direction::Left => (i, 3 - j),
        Direction::Down => (j, i),
        Direction::Up => (3 - j, i),
    }
}

impl GameState {
    pub fn new(grid: [[i32; 4]; 4]) -> (r: Self)
        ensures
            r.grid == grid,
    {
        Self { grid }
    }

    /// Whether every line along `dir` holds non-negative values whose sum
    /// fits in an `i32`: what a move in direction `dir` needs so that no
    /// merge can overflow.
    pub fn is_valid(&self, dir: Direction) -> (r: bool)
        ensures
            r == move_fits(self.grid, dir),
    {
        let mut i: usize = 0;
        while i < 4
            invariant
                i <= 4,
                forall|ii: int| 0 <= ii < i ==> #[trigger] line_fits(self.grid, dir, ii),
            decreases 4 - i,
        {
            let l = self.read_line(dir, i);
            proof {
                assert(forall|j: int| 0 <= j < 4 ==> line_seq(l)[j] == l[j] as int);
                assert(line_of(self.grid, dir, i as int)[0] == l[0]);
                assert(line_of(self.grid, dir, i as int)[1] == l[1]);
                assert(line_of(self.grid, dir, i as int)[2] == l[2]);
                assert(line_of(self.grid, dir, i as int)[3] == l[3]);
            }
            if l[0] < 0 || l[1] < 0 || l[2] < 0 || l[3] < 0 {
                proof {
                    assert(!line_fits(self.grid, dir, i as int));
                    if move_fits(self.grid, dir) {
                        lemma_move_fits_line(self.grid, dir, i as int);
                    }
                }
                return false;
            }
            let total: i64 = l[0] as i64 + l[1] as i64 + l[2] as i64 + l[3] as i64;
            if total > i32::MAX as i64 {
                proof {
                    assert(!line_fits(self.grid, dir, i as int));
                    if move_fits(self.grid, dir) {
                        lemma_move_fits_line(self.grid, dir, i as int);
                    }
                }
                return false;
            }
            i = i + 1;
        }
        proof {
            lemma_lines_fit_move(self.grid, dir);
        }
        true
    }

    /// Moves every tile as far as it goes in direction `dir`, merging equal
    /// tiles that meet; returns whether any cell changed.
    pub fn shift_tiles(&mut self, dir: Direction) -> (changed: bool)
        requires
            move_fits(old(self).grid, dir),
        ensures
            is_shift_of(old(self).grid, dir, final(self).grid),
            changed == differs(old(self).grid, final(self).grid),
    {
        let ghost g0 = self.grid;
        let mut changed = false;
        let mut i: usize = 0;
        while i < 4
            invariant
                i <= 4,
                move_fits(g0, dir),
                forall|y: int, x: int|
                    in_grid(y, x) ==> #[trigger] cell(self.grid, y, x) == if line_index(dir, y, x) < i {
                        shifted_cell(g0, dir, y, x)
                    } else {
                        cell(g0, y, x)
                    },
                changed == exists|y: int, x: int|
                    in_grid(y, x) && line_index(dir, y, x) < i && #[trigger] cell(self.grid, y, x)
                        != cell(g0, y, x),
            decreases 4 - i,
        {
            let ghost before = self.grid;
            proof {
                assert(line_of(before, dir, i as int) =~= line_of(g0, dir, i as int)) by {
                    assert forall|j: int| 0 <= j < 4 implies line_of(before, dir, i as int)[j]
                        == line_of(g0, dir, i as int)[j] by {
                        lemma_coord(dir, i as int, j);
                    }
                }
            }
            proof {
                lemma_move_fits_line(g0, dir, i as int);
            }
            let line_changed = self.shift_line(dir, i);
            proof {
                assert forall|y: int, x: int| in_grid(y, x) implies #[trigger] cell(self.grid, y, x)
                    == if line_index(dir, y, x) < i + 1 {
                    shifted_cell(g0, dir, y, x)
                } else {
                    cell(g0, y, x)
                } by {
                    assert(cell(before, y, x) == if line_index(dir, y, x) < i {
                        shifted_cell(g0, dir, y, x)
                    } else {
                        cell(g0, y, x)
                    });
                }
                if line_changed {
                    let (y, x) = choose|y: int, x: int|
                        in_grid(y, x) && line_index(dir, y, x) == i && #[trigger] cell(self.grid, y, x)
                            != cell(before, y, x);
                    assert(cell(self.grid, y, x) != cell(g0, y, x));
                }
                if changed {
                    let (y, x) = choose|y: int, x: int|
                        in_grid(y, x) && line_index(dir, y, x) < i && #[trigger] cell(before, y, x)
                            != cell(g0, y, x);
                    assert(cell(self.grid, y, x) == cell(before, y, x));
                }
                if !changed && !line_changed {
                    assert forall|y: int, x: int|
                        in_grid(y, x) && line_index(dir, y, x) < i + 1 implies #[trigger] cell(
                        self.grid,
                        y,
                        x,
                    ) == cell(g0, y, x) by {
                        assert(cell(before, y, x) == cell(g0, y, x));
                    }
                }
            }
            changed = changed || line_changed;
            i = i + 1;
        }
        proof {
            if changed {
                let (y, x) = choose|y: int, x: int|
                    in_grid(y, x) && line_index(dir, y, x) < 4 && #[trigger] cell(self.grid, y, x)
                        != cell(g0, y, x);
                assert(cell(g0, y, x) != cell(self.grid, y, x));
            }
            if differs(g0, self.grid) {
                let (y, x) = choose|y: int, x: int|
                    in_grid(y, x) && #[trigger] cell(g0, y, x) != cell(self.grid, y, x);
                assert(line_index(dir, y, x) < 4);
            }
        }
        changed
    }

    /// Moves the tiles of line `i` in direction `dir`; returns whether a cell
    /// of it changed.
    fn shift_line(&mut self, dir: Direction, i: usize) -> (changed: bool)
        requires
            i < 4,
            line_fits(old(self).grid, dir, i as int),
        ensures
            forall|y: int, x: int|
                in_grid(y, x) ==> #[trigger] cell(final(self).grid, y, x) == if line_index(dir, y, x)
                    == i {
                    reduced(line_of(old(self).grid, dir, i as int))[line_pos(dir, y, x)]
                } else {
                    cell(old(self).grid, y, x)
                },
            changed == exists|y: int, x: int|
                in_grid(y, x) && line_index(dir, y, x) == i && #[trigger] cell(final(self).grid, y, x)
                    != cell(old(self).grid, y, x),
    {
        let ghost g0 = self.grid;
        let line = self.read_line(dir, i);
        let ghost s = line_seq(line);
        proof {
            assert(forall|j: int| 0 <= j < 4 ==> line_seq(line)[j] == line[j] as int);
        }
        if line[0] == 0 && line[1] == 0 && line[2] == 0 && line[3] == 0 {
            proof {
                reveal_with_fuel(nonzeros, 5);
                assert(s =~= seq![0int, 0, 0, 0]);
                assert(s.drop_first() =~= seq![0int, 0, 0]);
                assert(s.drop_first().drop_first() =~= seq![0int, 0]);
                assert(s.drop_first().drop_first().drop_first() =~= seq![0int]);
                assert(s.drop_first().drop_first().drop_first().drop_first() =~= Seq::<
                    int,
                >::empty());
                assert(nonzeros(s) =~= Seq::<int>::empty());
                assert(s =~= pad(nonzeros(s), 4));
                assert(is_settled(s));
                lemma_settled_line_unchanged(s);
                assert forall|y: int, x: int| in_grid(y, x) && line_index(dir, y, x) == i implies
                    #[trigger] cell(self.grid, y, x) == reduced(s)[line_pos(dir, y, x)] by {
                    assert(coord(dir, i as int, line_pos(dir, y, x)) == (y, x));
                }
            }
            return false;
        }
        proof {
            lemma_line_ok(line);
        }
        let (r, line_changed) = reduce_line(line);
        self.write_line(dir, i, r);
        proof {
            assert(forall|j: int| 0 <= j < 4 ==> line_seq(r)[j] == r[j] as int);
            assert(line_of(self.grid, dir, i as int) =~= line_seq(r)) by {
                assert forall|j: int| 0 <= j < 4 implies line_of(self.grid, dir, i as int)[j]
                    == line_seq(r)[j] by {
                    lemma_coord(dir, i as int, j);
                }
            }
            if line_changed {
                if forall|j: int| 0 <= j < 4 ==> #[trigger] line_seq(r)[j] == s[j] {
                    assert(line_seq(r) =~= s);
                }
                let j = choose|j: int| 0 <= j < 4 && #[trigger] line_seq(r)[j] != s[j];
                lemma_coord(dir, i as int, j);
                let (y, x) = coord(dir, i as int, j);
                assert(cell(self.grid, y, x) != cell(g0, y, x));
            } else {
                assert forall|y: int, x: int| in_grid(y, x) && line_index(dir, y, x) == i implies
                    #[trigger] cell(self.grid, y, x) == cell(g0, y, x) by {
                    assert(coord(dir, i as int, line_pos(dir, y, x)) == (y, x));
                    assert(s[line_pos(dir, y, x)] == cell(g0, y, x));
                }
            }
        }
        line_changed
    }

    /// Line `i` for a move in direction `dir`, oriented toward position 3.
    fn read_line(&self, dir: Direction, i: usize) -> (r: [i32; 4])
        requires
            i < 4,
        ensures
            line_seq(r) == line_of(self.grid, dir, i as int),
    {
        let (y0, x0) = line_coord(dir, i, 0);
        let (y1, x1) = line_coord(dir, i, 1);
        let (y2, x2) = line_coord(dir, i, 2);
        let (y3, x3) = line_coord(dir, i, 3);
        let r: [i32; 4] = [self.grid[y0][x0], self.grid[y1][x1], self.grid[y2][x2], self.grid[y3][x3]];
        proof {
            assert(line_seq(r) =~= line_of(self.grid, dir, i as int));
        }
        r
    }

    /// Writes `vals` back into line `i`, leaving the other lines as they are.
    fn write_line(&mut self, dir: Direction, i: usize, vals: [i32; 4])
        requires
            i < 4,
        ensures
            forall|y: int, x: int|
                in_grid(y, x) ==> #[trigger] cell(final(self).grid, y, x) == if line_index(dir, y, x)
                    == i {
                    vals[line_pos(dir, y, x)] as int
                } else {
                    cell(old(self).grid, y, x)
                },
    {
        let (y0, x0) = line_coord(dir, i, 0);
        let (y1, x1) = line_coord(dir, i, 1);
        let (y2, x2) = line_coord(dir, i, 2);
        let (y3, x3) = line_coord(dir, i, 3);
        self.grid[y0][x0] = vals[0];
        self.grid[y1][x1] = vals[1];
        self.grid[y2][x2] = vals[2];
        self.grid[y3][x3] = vals[3];
    }
}

} // verus!
