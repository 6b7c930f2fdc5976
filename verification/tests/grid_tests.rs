use tilepop::Grid;
use tilepop::MoveDir;
use tilepop::Tile;

const RED: u32 = 1;
const BLUE: u32 = 2;

fn row_grid(tiles: &[Tile], steps: usize) -> Grid {
    let mut g = Grid::new(1, tiles.len(), steps);
    let mut x = 0;
    while x < tiles.len() {
        assert!(g.set(0, x, tiles[x]));
        x += 1;
    }
    g
}

#[test]
fn new_grid_is_empty_and_idle() {
    let g = Grid::new(3, 4, 7);
    assert_eq!(g.get_height(), 3);
    assert_eq!(g.get_width(), 4);
    assert_eq!(g.get_steps(), 7);
    assert!(g.is_anim_completed());
    for y in 0..3 {
        for x in 0..4 {
            assert_eq!(g.get(y, x), Some(Tile::Empty));
        }
    }
    assert_eq!(g.get(3, 0), None);
    assert_eq!(g.get(0, 4), None);
}

#[test]
fn set_rejects_out_of_bounds() {
    let mut g = Grid::new(2, 2, 0);
    assert!(g.set(1, 1, Tile::Blocker));
    assert!(!g.set(2, 0, Tile::Blocker));
    assert!(!g.set(0, 2, Tile::Blocker));
    assert_eq!(g.get(1, 1), Some(Tile::Blocker));
}

#[test]
fn cascade_shift_left_consumes_one_step() {
    // a 1x4 row [Empty, R, R, R]: one Left input cascades all three tiles
    let mut g = row_grid(
        &[Tile::Empty, Tile::Regular(RED), Tile::Regular(RED), Tile::Regular(RED)],
        5,
    );
    let moved = g.move_grid(MoveDir::Left, 1_000);
    assert!(moved);
    assert_eq!(g.get_steps(), 4);
    assert_eq!(g.get(0, 0), Some(Tile::Regular(RED)));
    assert_eq!(g.get(0, 1), Some(Tile::Regular(RED)));
    assert_eq!(g.get(0, 2), Some(Tile::Regular(RED)));
    assert_eq!(g.get(0, 3), Some(Tile::Empty));
    // one moving animation per shifted tile
    assert_eq!(g.get_anims_slice().len(), 3);
    assert!(!g.is_anim_completed());
    // after the moving animations drain, the clearing pass finds a
    // 3-run, below the threshold: nothing pops
    g.update_anim_state(1_400);
    assert!(g.is_anim_completed());
    assert_eq!(g.get(0, 0), Some(Tile::Regular(RED)));
    assert_eq!(g.get(0, 1), Some(Tile::Regular(RED)));
    assert_eq!(g.get(0, 2), Some(Tile::Regular(RED)));
    assert_eq!(g.get(0, 3), Some(Tile::Empty));
}

#[test]
fn component_of_four_pops_after_tick() {
    // [Empty, R, R, R, R] shifts into a 4-run and then clears
    let mut g = row_grid(
        &[
            Tile::Empty,
            Tile::Regular(RED),
            Tile::Regular(RED),
            Tile::Regular(RED),
            Tile::Regular(RED),
        ],
        3,
    );
    assert!(g.move_grid(MoveDir::Left, 1_000));
    assert_eq!(g.get_steps(), 2);
    // the tick after the moving animations drain runs exactly one
    // clearing pass
    g.update_anim_state(1_301);
    for x in 0..5 {
        assert_eq!(g.get(0, x), Some(Tile::Empty));
    }
    // four clearing animations, one per popped cell
    assert_eq!(g.get_anims_slice().len(), 4);
    // once they drain the grid is idle, and no further pass runs
    g.update_anim_state(1_600);
    assert!(g.is_anim_completed());
    g.update_anim_state(1_700);
    assert!(g.is_anim_completed());
    for x in 0..5 {
        assert_eq!(g.get(0, x), Some(Tile::Empty));
    }
}

#[test]
fn single_blocked_tile_does_not_move() {
    // a single tile against the left wall: Left is a wall hit
    let mut g = row_grid(&[Tile::Regular(RED), Tile::Empty, Tile::Empty], 5);
    let moved = g.move_grid(MoveDir::Left, 0);
    assert!(!moved);
    assert_eq!(g.get_steps(), 5);
    assert_eq!(g.get(0, 0), Some(Tile::Regular(RED)));
    assert_eq!(g.get(0, 1), Some(Tile::Empty));
    assert!(g.is_anim_completed());
}

#[test]
fn no_budget_means_no_move() {
    let mut g = row_grid(&[Tile::Empty, Tile::Regular(RED)], 0);
    let moved = g.move_grid(MoveDir::Left, 0);
    assert!(!moved);
    assert_eq!(g.get_steps(), 0);
    assert_eq!(g.get(0, 1), Some(Tile::Regular(RED)));
}

#[test]
fn blockers_never_move_and_block_shifts() {
    // [Empty, Blocker, R, Empty]: Left shifts nothing, the blocker
    // pins the regular tile
    let mut g = row_grid(
        &[Tile::Empty, Tile::Blocker, Tile::Regular(RED), Tile::Empty],
        5,
    );
    let moved = g.move_grid(MoveDir::Left, 0);
    assert!(!moved);
    assert_eq!(g.get(0, 0), Some(Tile::Empty));
    assert_eq!(g.get(0, 1), Some(Tile::Blocker));
    assert_eq!(g.get(0, 2), Some(Tile::Regular(RED)));
    assert_eq!(g.get_steps(), 5);
}

#[test]
fn blockers_split_components() {
    // [Empty, R, R, Blocker, R, R]: after the shift the two pairs stay
    // separate components of two, so nothing clears
    let mut g = row_grid(
        &[
            Tile::Empty,
            Tile::Regular(RED),
            Tile::Regular(RED),
            Tile::Blocker,
            Tile::Regular(RED),
            Tile::Regular(RED),
        ],
        5,
    );
    assert!(g.move_grid(MoveDir::Left, 0));
    g.update_anim_state(301);
    assert_eq!(g.get(0, 0), Some(Tile::Regular(RED)));
    assert_eq!(g.get(0, 1), Some(Tile::Regular(RED)));
    assert_eq!(g.get(0, 2), Some(Tile::Empty));
    assert_eq!(g.get(0, 3), Some(Tile::Blocker));
    assert_eq!(g.get(0, 4), Some(Tile::Regular(RED)));
    assert_eq!(g.get(0, 5), Some(Tile::Regular(RED)));
}

#[test]
fn full_block_with_no_move_never_pops() {
    // a 2x2 block of blue fills the grid: no shift is possible, so no
    // clearing pass is ever owed, and the size-4 block survives
    let mut g = Grid::new(2, 2, 9);
    for y in 0..2 {
        for x in 0..2 {
            assert!(g.set(y, x, Tile::Regular(BLUE)));
        }
    }
    for dir in [MoveDir::Up, MoveDir::Down, MoveDir::Left, MoveDir::Right] {
        assert!(!g.move_grid(dir, 0));
    }
    assert_eq!(g.get_steps(), 9);
    g.update_anim_state(10_000);
    for y in 0..2 {
        for x in 0..2 {
            assert_eq!(g.get(y, x), Some(Tile::Regular(BLUE)));
        }
    }
}

#[test]
fn square_block_pops_when_moved() {
    // a 2x2 blue block with room below: Down shifts it, the tick pops
    // all four cells
    let mut g = Grid::new(3, 2, 4);
    for y in 0..2 {
        for x in 0..2 {
            assert!(g.set(y, x, Tile::Regular(BLUE)));
        }
    }
    assert!(g.move_grid(MoveDir::Down, 2_000));
    assert_eq!(g.get(0, 0), Some(Tile::Empty));
    assert_eq!(g.get(0, 1), Some(Tile::Empty));
    g.update_anim_state(2_500);
    for y in 0..3 {
        for x in 0..2 {
            assert_eq!(g.get(y, x), Some(Tile::Empty));
        }
    }
}

#[test]
fn vertical_moves_follow_direction_order() {
    // a single tile in a 3x1 column walks down one cell per input
    let mut g = Grid::new(3, 1, 10);
    assert!(g.set(0, 0, Tile::Regular(RED)));
    assert!(g.move_grid(MoveDir::Down, 0));
    assert_eq!(g.get(0, 0), Some(Tile::Empty));
    assert_eq!(g.get(1, 0), Some(Tile::Regular(RED)));
    assert!(g.move_grid(MoveDir::Down, 400));
    assert_eq!(g.get(2, 0), Some(Tile::Regular(RED)));
    assert!(g.move_grid(MoveDir::Up, 800));
    assert_eq!(g.get(1, 0), Some(Tile::Regular(RED)));
    assert_eq!(g.get(2, 0), Some(Tile::Empty));
    assert_eq!(g.get_steps(), 7);
}

#[test]
fn tiles_view_mirrors_the_matrix() {
    let mut g = Grid::new(2, 3, 1);
    assert!(g.set(1, 2, Tile::Regular(4)));
    let rows = g.get_tiles_view();
    assert_eq!(rows.len(), 2);
    assert_eq!(rows[0].len(), 3);
    assert_eq!(rows[1][2], Tile::Regular(4));
    assert_eq!(rows[0][0], Tile::Empty);
}
