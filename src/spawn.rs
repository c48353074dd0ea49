//! Placing new tiles: the spawner, a whole move, and the starting grid.
use vstd::prelude::*;

use crate::grid::{
    cell, in_grid, lemma_shifted_cell_tile, move_fits, shifted_cell, tiles_ok, Direction,
    GameState,
};
use crate::line::is_pow2;

verus! {

/// The value of the `f`-th cell in row-major order.
pub open spec fn flat_cell(g: [[i32; 4]; 4], f: int) -> int {
    cell(g, f / 4, f % 4)
}

/// The number of empty cells among the first `f` in row-major order.
pub open spec fn empties_before(g: [[i32; 4]; 4], f: int) -> nat
    decreases f,
{
    if f <= 0 {
        0
    } else {
        empties_before(g, f - 1) + if flat_cell(g, f - 1) == 0 {
            1nat
        } else {
            0nat
        }
    }
}

pub open spec fn empty_count(g: [[i32; 4]; 4]) -> nat {
    empties_before(g, 16)
}

/// No cell of the grid is empty.
pub open spec fn is_full(g: [[i32; 4]; 4]) -> bool {
    forall|y: int, x: int| in_grid(y, x) ==> #[trigger] cell(g, y, x) != 0
}

/// `new` is `old` with a tile of value 2 written at `(y, x)`.
pub open spec fn placed(old: [[i32; 4]; 4], new: [[i32; 4]; 4], y: int, x: int) -> bool {
    &&& in_grid(y, x)
    &&& forall|yy: int, xx: int|
        in_grid(yy, xx) ==> #[trigger] cell(new, yy, xx) == if yy == y && xx == x {
            2
        } else {
            cell(old, yy, xx)
        }
}

/// What a spawn may do: on a full grid nothing; otherwise it fills one cell
/// that was empty with a 2 and leaves every other cell as it was.
pub open spec fn spawn_outcome(
    old: [[i32; 4]; 4],
    new: [[i32; 4]; 4],
    r: Option<(usize, usize)>,
) -> bool {
    match r {
        None => is_full(old) && new == old,
        Some((y, x)) => cell(old, y as int, x as int) == 0 && placed(old, new, y as int, x as int),
    }
}

/// What one whole move may do: the grid is moved in direction `dir`; if
/// that changed it, one empty cell of the moved grid (if there is one)
/// receives a 2.
pub open spec fn move_outcome(
    old: [[i32; 4]; 4],
    dir: Direction,
    new: [[i32; 4]; 4],
    r: MoveOutcome,
) -> bool {
    &&& r.changed == exists|y: int, x: int|
        in_grid(y, x) && #[trigger] shifted_cell(old, dir, y, x) != cell(old, y, x)
    &&& !r.changed ==> new == old && r.spawned is None
    &&& r.changed ==> match r.spawned {
        None => forall|y: int, x: int|
            in_grid(y, x) ==> #[trigger] cell(new, y, x) == shifted_cell(old, dir, y, x) && cell(
                new,
                y,
                x,
            ) != 0,
        Some((sy, sx)) => {
            &&& in_grid(sy as int, sx as int)
            &&& shifted_cell(old, dir, sy as int, sx as int) == 0
            &&& forall|y: int, x: int|
                in_grid(y, x) ==> #[trigger] cell(new, y, x) == if y == sy && x == sx {
                    2
                } else {
                    shifted_cell(old, dir, y, x)
                }
        },
    }
}

/// The result of one move: whether the move changed the grid, and where a
/// new tile was placed.
pub struct MoveOutcome {
    pub changed: bool,
    pub spawned: Option<(usize, usize)>,
}

proof fn lemma_empties_before(g: [[i32; 4]; 4], a: int, b: int)
    requires
        0 <= a <= b,
    ensures
        empties_before(g, a) <= empties_before(g, b),
        empties_before(g, b) == 0 ==> forall|f: int| 0 <= f < b ==> #[trigger] flat_cell(g, f) != 0,
        empties_before(g, b) <= b,
    decreases b,
{
    if b > 0 {
        if a < b {
            lemma_empties_before(g, a, b - 1);
        } else {
            lemma_empties_before(g, a - 1, b - 1);
        }
    }
}

proof fn lemma_full_iff_no_empties(g: [[i32; 4]; 4])
    ensures
        is_full(g) <==> empty_count(g) == 0,
{
    lemma_empties_before(g, 0, 16);
    if !is_full(g) {
        let (y, x) = choose|y: int, x: int| in_grid(y, x) && #[trigger] cell(g, y, x) == 0;
        assert(flat_cell(g, 4 * y + x) == 0);
    }
    if is_full(g) {
        lemma_no_empty_counted(g, 16);
    }
}

proof fn lemma_no_empty_counted(g: [[i32; 4]; 4], f: int)
    requires
        0 <= f <= 16,
        is_full(g),
    ensures
        empties_before(g, f) == 0,
    decreases f,
{
    if f > 0 {
        lemma_no_empty_counted(g, f - 1);
        assert(cell(g, (f - 1) / 4, (f - 1) % 4) != 0);
    }
}

/// Relies on `rand::rng` and `rand::Rng::random_range`: a number drawn from
/// `0..n` by the thread's random generator (`random_range` panics on an
/// empty range).
#[verifier::external_body]
fn random_below(n: usize) -> (r: usize)
    requires
        n > 0,
    ensures
        r < n,
{
    rand::Rng::random_range(&mut rand::rng(), 0..n)
}

impl GameState {
    /// The number of empty cells.
    pub fn count_empty(&self) -> (r: usize)
        ensures
            r == empty_count(self.grid),
    {
        let mut c: usize = 0;
        let mut f: usize = 0;
        while f < 16
            invariant
                f <= 16,
                c == empties_before(self.grid, f as int),
                c <= f,
            decreases 16 - f,
        {
            if self.grid[f / 4][f % 4] == 0 {
                c = c + 1;
            }
            f = f + 1;
        }
        c
    }

    /// Writes a 2 into the `k`-th empty cell in row-major order and returns
    /// its coordinates `(y, x)`; returns `None`, changing nothing, when there
    /// are no more than `k` empty cells.
    pub fn spawn_at(&mut self, k: usize) -> (r: Option<(usize, usize)>)
        ensures
            r is Some <==> k < empty_count(old(self).grid),
            r is None ==> final(self).grid == old(self).grid,
            r matches Some((y, x)) ==> {
                &&& cell(old(self).grid, y as int, x as int) == 0
                &&& empties_before(old(self).grid, 4 * y + x) == k
                &&& placed(old(self).grid, final(self).grid, y as int, x as int)
            },
    {
        let ghost g0 = self.grid;
        let mut c: usize = 0;
        let mut f: usize = 0;
        while f < 16
            invariant
                f <= 16,
                self.grid == g0,
                old(self).grid == g0,
                c == empties_before(g0, f as int),
                c <= k,
            decreases 16 - f,
        {
            let y = f / 4;
            let x = f % 4;
            if self.grid[y][x] == 0 {
                if c == k {
                    self.grid[y][x] = 2;
                    proof {
                        assert(f as int == 4 * (y as int) + (x as int));
                        assert(flat_cell(g0, f as int) == 0);
                        assert(empties_before(g0, f + 1) == k + 1);
                        lemma_empties_before(g0, f + 1, 16);
                    }
                    return Some((y, x));
                }
                c = c + 1;
            }
            f = f + 1;
        }
        None
    }

    /// Adds one tile of value 2 in an empty cell chosen uniformly at random
    /// and returns its coordinates `(y, x)`; on a full grid returns `None`
    /// and changes nothing.
    pub fn spawn_tile(&mut self) -> (r: Option<(usize, usize)>)
        ensures
            spawn_outcome(old(self).grid, final(self).grid, r),
    {
        proof {
            lemma_full_iff_no_empties(self.grid);
        }
        let n = self.count_empty();
        if n == 0 {
            return None;
        }
        let k = random_below(n);
        self.spawn_at(k)
    }
    /// One whole move: moves the tiles in direction `dir` and, if that
    /// changed the grid, adds a tile of value 2 in a random empty cell.
    pub fn apply_move(&mut self, dir: Direction) -> (r: MoveOutcome)
        requires
            move_fits(old(self).grid, dir),
        ensures
            move_outcome(old(self).grid, dir, final(self).grid, r),
    {
        let ghost g0 = self.grid;
        let changed = self.shift_tiles(dir);
        let ghost g1 = self.grid;
        proof {
            if changed {
                let (y, x) = choose|y: int, x: int|
                    in_grid(y, x) && #[trigger] cell(g0, y, x) != cell(g1, y, x);
                assert(shifted_cell(g0, dir, y, x) != cell(g0, y, x));
            } else {
                assert forall|y: int, x: int| in_grid(y, x) implies #[trigger] shifted_cell(
                    g0,
                    dir,
                    y,
                    x,
                ) == cell(g0, y, x) by {
                    assert(cell(g1, y, x) == cell(g0, y, x));
                }
                assert forall|y: int| 0 <= y < 4 implies #[trigger] g1[y] =~= g0[y] by {
                    assert forall|x: int| 0 <= x < 4 implies g1[y][x] == g0[y][x] by {
                        assert(cell(g1, y, x) == cell(g0, y, x));
                    }
                }
                assert(g1 =~= g0);
            }
        }
        if !changed {
            return MoveOutcome { changed: false, spawned: None };
        }
        let spawned = self.spawn_tile();
        MoveOutcome { changed: true, spawned }
    }

    /// A new game: an empty grid with two tiles of value 2 placed in two
    /// distinct random cells.
    pub fn init_game() -> (r: GameState)
        ensures
            exists|a: (int, int), b: (int, int)|
                a != b && in_grid(a.0, a.1) && in_grid(b.0, b.1) && forall|y: int, x: int|
                    in_grid(y, x) ==> #[trigger] cell(r.grid, y, x) == if (y, x) == a || (y, x)
                        == b {
                        2int
                    } else {
                        0int
                    },
    {
        let mut g = GameState::default();
        let ghost g0 = g.grid;
        proof {
            assert(!is_full(g0)) by {
                assert(cell(g0, 0, 0) == 0);
            }
        }
        let first = g.spawn_tile();
        let ghost g1 = g.grid;
        let ghost (ay, ax) = match first {
            Some((y, x)) => (y as int, x as int),
            None => (0, 0),
        };
        proof {
            assert(!is_full(g1)) by {
                if ay == 0 && ax == 0 {
                    assert(cell(g1, 0, 1) == 0);
                } else {
                    assert(cell(g1, 0, 0) == 0);
                }
            }
        }
        let second = g.spawn_tile();
        proof {
            let (by, bx) = match second {
                Some((y, x)) => (y as int, x as int),
                None => (0, 0),
            };
            assert((ay, ax) != (by, bx));
            assert forall|y: int, x: int| in_grid(y, x) implies #[trigger] cell(g.grid, y, x) == if (
            y,
            x,
            ) == (ay, ax) || (y, x) == (by, bx) {
                2int
            } else {
                0int
            } by {
                assert(cell(g1, y, x) == if (y, x) == (ay, ax) {
                    2int
                } else {
                    0int
                });
            }
        }
        g
    }
}

impl Default for GameState {
    /// The empty grid.
    fn default() -> (r: GameState)
        ensures
            forall|y: int, x: int| in_grid(y, x) ==> #[trigger] cell(r.grid, y, x) == 0,
    {
        GameState { grid: [[0, 0, 0, 0], [0, 0, 0, 0], [0, 0, 0, 0], [0, 0, 0, 0]] }
    }
}

/// On a grid with exactly one empty cell, every outcome of a spawn fills
/// that very cell with a 2 and leaves every other cell as it was.
pub proof fn lemma_spawn_fills_only_gap(
    old: [[i32; 4]; 4],
    new: [[i32; 4]; 4],
    r: Option<(usize, usize)>,
    y: int,
    x: int,
)
    requires
        in_grid(y, x),
        cell(old, y, x) == 0,
        forall|yy: int, xx: int| in_grid(yy, xx) && (yy, xx) != (y, x) ==> #[trigger] cell(old, yy, xx) != 0,
        spawn_outcome(old, new, r),
    ensures
        r == Some((y as usize, x as usize)),
        placed(old, new, y, x),
{
    assert(!is_full(old));
}

/// A whole move on a grid whose cells are empty or powers of two, the new
/// tile included, gives a grid of the same kind.
pub proof fn lemma_whole_move_keeps_tile_values(
    old: [[i32; 4]; 4],
    dir: Direction,
    new: [[i32; 4]; 4],
    r: MoveOutcome,
)
    requires
        tiles_ok(old),
        move_outcome(old, dir, new, r),
    ensures
        tiles_ok(new),
{
    reveal_with_fuel(is_pow2, 2);
    assert forall|y: int, x: int| in_grid(y, x) implies cell(new, y, x) == 0 || is_pow2(
        #[trigger] cell(new, y, x),
    ) by {
        lemma_shifted_cell_tile(old, dir, y, x);
    }
}

} // verus!
