use tfe_grid::grid::{Direction, GameState};
use tfe_grid::line::{combine_dupes, reduce_line};
use tfe_grid::tile::Position;

fn nonzero_values(line: &[i32; 4]) -> Vec<i32> {
    line.iter().copied().filter(|v| *v != 0).collect()
}

fn count_value(g: &GameState, v: i32) -> usize {
    g.grid.iter().flatten().filter(|c| **c == v).count()
}

#[test]
fn merge_two_equal_tiles() {
    assert_eq!(reduce_line([2, 2, 0, 0]), ([0, 0, 0, 4], true));
}

#[test]
fn four_equal_tiles_settle_fully() {
    // merging repeats until no two neighbouring tiles are equal
    assert_eq!(reduce_line([2, 2, 2, 2]), ([0, 0, 0, 8], true));
}

#[test]
fn merged_tile_merges_again_until_settled() {
    assert_eq!(reduce_line([4, 2, 2, 0]), ([0, 0, 0, 8], true));
}

#[test]
fn two_pairs_without_further_match() {
    assert_eq!(reduce_line([2, 2, 4, 8]), ([0, 0, 0, 16], true));
    assert_eq!(reduce_line([8, 2, 2, 4]), ([0, 0, 0, 16], true));
    assert_eq!(reduce_line([2, 4, 8, 8]), ([0, 2, 4, 16], true));
    assert_eq!(reduce_line([4, 4, 2, 2]), ([0, 0, 8, 4], true));
}

#[test]
fn no_spurious_merge() {
    assert_eq!(reduce_line([2, 4, 2, 0]), ([0, 2, 4, 2], true));
}

#[test]
fn pure_slide_counts_as_change() {
    assert_eq!(reduce_line([0, 2, 0, 0]), ([0, 0, 0, 2], true));
}

#[test]
fn settled_line_is_unchanged() {
    assert_eq!(reduce_line([0, 2, 4, 8]), ([0, 2, 4, 8], false));
    assert_eq!(reduce_line([2, 4, 2, 4]), ([2, 4, 2, 4], false));
    assert_eq!(reduce_line([0, 0, 0, 0]), ([0, 0, 0, 0], false));
    let (once, _) = reduce_line([2, 0, 2, 4]);
    assert_eq!(reduce_line(once), (once, false));
}

#[test]
fn equal_tiles_across_a_gap_merge() {
    assert_eq!(reduce_line([2, 0, 0, 2]), ([0, 0, 0, 4], true));
}

#[test]
fn slide_without_merge_keeps_values() {
    let line = [4, 0, 2, 0];
    let (r, changed) = reduce_line(line);
    assert_eq!(r, [0, 0, 4, 2]);
    assert!(changed);
    assert_eq!(nonzero_values(&r), nonzero_values(&line));
}

#[test]
fn single_tile_moves_right() {
    let mut g = GameState::new([[2, 0, 0, 0], [0; 4], [0; 4], [0; 4]]);
    assert!(g.shift_tiles(Direction::Right));
    assert_eq!(g.grid, [[0, 0, 0, 2], [0; 4], [0; 4], [0; 4]]);
}

#[test]
fn single_tile_move_spawns_one_tile() {
    let mut g = GameState::new([[2, 0, 0, 0], [0; 4], [0; 4], [0; 4]]);
    let out = g.apply_move(Direction::Right);
    assert!(out.changed);
    assert_eq!(g.grid[0][3], 2);
    let (y, x) = out.spawned.expect("a tile is spawned");
    assert!((y, x) != (0, 3));
    assert_eq!(g.grid[y][x], 2);
    assert_eq!(count_value(&g, 2), 2);
    assert_eq!(count_value(&g, 0), 14);
}

#[test]
fn move_left() {
    let mut g = GameState::new([[0, 2, 0, 2], [4, 4, 4, 0], [2, 4, 8, 16], [0, 0, 0, 8]]);
    assert!(g.shift_tiles(Direction::Left));
    assert_eq!(g.grid, [[4, 0, 0, 0], [8, 4, 0, 0], [2, 4, 8, 16], [8, 0, 0, 0]]);
}

#[test]
fn move_up() {
    let mut g = GameState::new([[0, 2, 0, 0], [2, 2, 0, 0], [2, 0, 4, 0], [4, 2, 4, 0]]);
    assert!(g.shift_tiles(Direction::Up));
    assert_eq!(g.grid, [[8, 4, 8, 0], [0, 2, 0, 0], [0, 0, 0, 0], [0, 0, 0, 0]]);
}

#[test]
fn move_down() {
    let mut g = GameState::new([[2, 0, 0, 0], [4, 0, 2, 0], [0, 0, 0, 0], [4, 0, 2, 0]]);
    assert!(g.shift_tiles(Direction::Down));
    assert_eq!(g.grid, [[0, 0, 0, 0], [0, 0, 0, 0], [2, 0, 0, 0], [8, 0, 4, 0]]);
}

#[test]
fn blocked_move_changes_nothing() {
    let start = [[2, 4, 2, 4], [4, 2, 4, 2], [2, 4, 2, 4], [4, 2, 4, 2]];
    let mut g = GameState::new(start);
    let out = g.apply_move(Direction::Left);
    assert!(!out.changed);
    assert_eq!(out.spawned, None);
    assert_eq!(g.grid, start);
}

#[test]
fn empty_grid_does_not_change() {
    let mut g = GameState::default();
    assert!(!g.shift_tiles(Direction::Up));
    assert_eq!(g.grid, [[0; 4]; 4]);
}

#[test]
fn lines_are_settled_after_every_direction() {
    let start = [[2, 2, 4, 8], [0, 4, 4, 4], [16, 0, 16, 2], [2, 2, 2, 2]];
    for dir in [Direction::Left, Direction::Right, Direction::Up, Direction::Down] {
        let mut g = GameState::new(start);
        g.shift_tiles(dir);
        for i in 0..4 {
            let line: Vec<i32> = (0..4)
                .map(|j| match dir {
                    Direction::Left | Direction::Right => g.grid[i][j],
                    Direction::Up | Direction::Down => g.grid[j][i],
                })
                .collect();
            for j in 0..3 {
                assert!(line[j] == 0 || line[j] != line[j + 1], "{:?} {:?}", dir, line);
            }
        }
    }
}

#[test]
fn spawn_fills_the_only_empty_cell() {
    let start = [[2, 4, 8, 16], [32, 64, 128, 256], [512, 1024, 0, 4], [8, 16, 32, 64]];
    for _ in 0..10_000 {
        let mut g = GameState::new(start);
        assert_eq!(g.spawn_tile(), Some((2, 2)));
        let mut expected = start;
        expected[2][2] = 2;
        assert_eq!(g.grid, expected);
    }
}

#[test]
fn spawn_on_full_grid_declines() {
    let start = [[2, 4, 2, 4], [4, 2, 4, 2], [2, 4, 2, 4], [4, 2, 4, 2]];
    let mut g = GameState::new(start);
    assert_eq!(g.spawn_tile(), None);
    assert_eq!(g.grid, start);
}

#[test]
fn spawn_on_empty_grid_places_one_tile() {
    let mut g = GameState::default();
    let (y, x) = g.spawn_tile().expect("room for a tile");
    assert!(y < 4 && x < 4);
    assert_eq!(g.grid[y][x], 2);
    assert_eq!(count_value(&g, 2), 1);
    assert_eq!(count_value(&g, 0), 15);
}

#[test]
fn spawn_at_picks_kth_empty_cell() {
    let start = [[2, 0, 4, 0], [0; 4], [8, 8, 8, 8], [0, 0, 0, 2]];
    let mut g = GameState::new(start);
    assert_eq!(g.count_empty(), 9);
    assert_eq!(g.spawn_at(0), Some((0, 1)));
    let mut g = GameState::new(start);
    assert_eq!(g.spawn_at(2), Some((1, 0)));
    let mut g = GameState::new(start);
    assert_eq!(g.spawn_at(8), Some((3, 2)));
    assert_eq!(g.grid[3][2], 2);
    let mut g = GameState::new(start);
    assert_eq!(g.spawn_at(9), None);
    assert_eq!(g.grid, start);
}

#[test]
fn new_game_has_two_tiles() {
    for _ in 0..200 {
        let g = GameState::init_game();
        assert_eq!(count_value(&g, 2), 2);
        assert_eq!(count_value(&g, 0), 14);
    }
}

#[test]
fn tile_value_reads_one_based_position() {
    let g = GameState::new([[0, 2, 0, 0], [0; 4], [0; 4], [0, 0, 0, 64]]);
    assert_eq!(g.tile_value(&Position { x: 2, y: 1 }).map(|t| t.val), Some(2));
    assert_eq!(g.tile_value(&Position { x: 4, y: 4 }).map(|t| t.val), Some(64));
    assert_eq!(g.tile_value(&Position { x: 1, y: 1 }).map(|t| t.val), Some(0));
    assert!(g.tile_value(&Position { x: 0, y: 1 }).is_none());
    assert!(g.tile_value(&Position { x: 5, y: 2 }).is_none());
}

#[test]
fn validity_of_grids() {
    assert!(GameState::default().is_valid(Direction::Left));
    assert!(GameState::new([[2, 4, 8, 16], [0; 4], [0; 4], [0; 4]]).is_valid(Direction::Up));
    assert!(!GameState::new([[-2, 0, 0, 0], [0; 4], [0; 4], [0; 4]]).is_valid(Direction::Down));
    let big = [[i32::MAX, 1, 0, 0], [0; 4], [0; 4], [0; 4]];
    assert!(!GameState::new(big).is_valid(Direction::Right));
    assert!(GameState::new(big).is_valid(Direction::Up));
    let rows = [[1 << 28; 4]; 4];
    assert!(GameState::new(rows).is_valid(Direction::Left));
    assert!(GameState::new(rows).is_valid(Direction::Down));
}

#[test]
fn large_rows_merge_without_overflow() {
    let mut g = GameState::new([[1 << 28; 4]; 4]);
    assert!(g.shift_tiles(Direction::Right));
    assert_eq!(g.grid, [[0, 0, 0, 1 << 30]; 4]);
}

fn combine(mut line: [i32; 4]) -> [i32; 4] {
    combine_dupes(&mut line);
    line
}

#[test]
fn combine_pass_keeps_cells_in_place() {
    assert_eq!(combine([2, 2, 2, 2]), [0, 4, 0, 4]);
    assert_eq!(combine([0, 0, 2, 2]), [0, 0, 0, 4]);
    assert_eq!(combine([0, 2, 2, 2]), [0, 2, 0, 4]);
    assert_eq!(combine([2, 0, 2, 0]), [2, 0, 2, 0]);
    assert_eq!(combine([4, 4, 2, 8]), [0, 8, 2, 8]);
    assert_eq!(combine([0, 0, 0, 0]), [0, 0, 0, 0]);
}
