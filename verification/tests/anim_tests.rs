use tilepop::Animation;
use tilepop::MoveDir;
use tilepop::Tile;

fn moving(y: usize, x: usize, d: MoveDir, start: u64) -> Animation {
    Animation::Moving { tile: Tile::Regular(1), from_y: y, from_x: x, direction: d, start_ms: start }
}

fn clearing(y: usize, x: usize, start: u64) -> Animation {
    Animation::Clearing { tile: Tile::Regular(1), at_y: y, at_x: x, start_ms: start }
}

#[test]
fn durations_per_variant() {
    assert_eq!(moving(0, 0, MoveDir::Left, 0).duration(), 300);
    assert_eq!(clearing(0, 0, 0).duration(), 150);
}

#[test]
fn active_strictly_before_duration_elapses() {
    let a = moving(0, 0, MoveDir::Up, 1_000);
    assert!(a.is_active(1_000));
    assert!(a.is_active(1_299));
    assert!(!a.is_active(1_300));
    let c = clearing(0, 0, 1_000);
    assert!(c.is_active(1_149));
    assert!(!c.is_active(1_150));
}

#[test]
fn target_one_step_along_direction() {
    assert_eq!(moving(2, 3, MoveDir::Up, 0).get_target(), Some((1, 3)));
    assert_eq!(moving(2, 3, MoveDir::Down, 0).get_target(), Some((3, 3)));
    assert_eq!(moving(2, 3, MoveDir::Left, 0).get_target(), Some((2, 2)));
    assert_eq!(moving(2, 3, MoveDir::Right, 0).get_target(), Some((2, 4)));
    // the arithmetic clamps at the coordinate range
    assert_eq!(moving(0, 0, MoveDir::Up, 0).get_target(), Some((0, 0)));
    assert_eq!(clearing(2, 3, 0).get_target(), None);
}

#[test]
fn coords_cover_origin_and_target() {
    let a = moving(1, 1, MoveDir::Right, 0);
    assert_eq!(a.get_coords(), vec![(1, 1), (1, 2)]);
    // a clamped target collapsing onto the origin is not repeated
    let w = moving(0, 0, MoveDir::Up, 0);
    assert_eq!(w.get_coords(), vec![(0, 0)]);
    let c = clearing(2, 0, 0);
    assert_eq!(c.get_coords(), vec![(2, 0)]);
}

#[test]
fn progress_clamps_and_scales() {
    let a = moving(0, 0, MoveDir::Left, 1_000);
    assert_eq!(a.get_progress_permille(900), 0);
    assert_eq!(a.get_progress_permille(1_000), 0);
    assert_eq!(a.get_progress_permille(1_150), 500);
    assert_eq!(a.get_progress_permille(1_300), 1_000);
    assert_eq!(a.get_progress_permille(9_999), 1_000);
    let c = clearing(0, 0, 1_000);
    assert_eq!(c.get_progress_permille(1_075), 500);
}

#[test]
fn eased_progress_values() {
    let a = moving(0, 0, MoveDir::Left, 1_000);
    // halfway: quartic out is 1 - 0.5^4 = 0.9375, quadratic out is 0.75
    assert_eq!(a.get_quartic_out_permille(1_150), 938);
    assert_eq!(a.get_quadratic_out_permille(1_150), 750);
    assert_eq!(a.get_quartic_out_permille(1_300), 1_000);
    assert_eq!(a.get_quadratic_out_permille(1_000), 0);
}

#[test]
fn start_time_is_remembered() {
    assert_eq!(moving(0, 0, MoveDir::Down, 42).get_start_time(), 42);
    assert_eq!(clearing(0, 0, 77).get_start_time(), 77);
}
