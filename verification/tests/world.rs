use magog::geom::{ivec2, ivec3, Cube};
use magog::location::{SECTOR_HEIGHT, SECTOR_WIDTH};
use magog::time::Instant;

#[test]
fn fold_undoes_unfold() {
    for loc in [ivec3(0, 0, 0), ivec3(5, -3, 2), ivec3(-7, 32767, -32768), ivec3(1, -32768, 32767)] {
        assert_eq!(magog::geom::IVec3::fold(loc.unfold()), loc);
    }
}

#[test]
fn unfold_stacks_levels_vertically() {
    assert_eq!(ivec3(3, 0, 0).unfold(), ivec2(3, 0x8000));
    assert_eq!(ivec3(3, 0, 1).unfold(), ivec2(3, 0x1_8000));
    assert_eq!(ivec3(3, -0x8000, -0x8000).unfold(), ivec2(3, i32::MIN));
}

#[test]
fn fold_wide_skips_gaps() {
    assert_eq!(magog::geom::IVec3::fold_wide(ivec2(4, 0x8000)), Some(ivec3(2, 0, 0)));
    assert_eq!(magog::geom::IVec3::fold_wide(ivec2(5, 0x8000)), None);
    let (a, b) = magog::geom::IVec3::fold_wide_sides(ivec2(5, 0x8000));
    assert_eq!(a, ivec3(2, 0, 0));
    assert_eq!(b, ivec3(3, 0, 0));
}

#[test]
fn sector_snaps_to_origin() {
    assert_eq!(ivec3(50, 41, 3).sector_snap_2d(), ivec3(SECTOR_WIDTH, SECTOR_HEIGHT, 3));
    assert_eq!(ivec3(-1, -1, 0).sector_snap_2d(), ivec3(-SECTOR_WIDTH, -SECTOR_HEIGHT, 0));
    assert_eq!(ivec3(0, 0, 0).sector_snap_2d(), ivec3(0, 0, 0));
}

#[test]
fn sector_dist_counts_transitions() {
    assert_eq!(ivec3(0, 0, 0).sector_dist(ivec3(47, 39, 0)), 0);
    assert_eq!(ivec3(0, 0, 0).sector_dist(ivec3(48, 0, 0)), 1);
    assert_eq!(ivec3(0, 0, 0).sector_dist(ivec3(-1, -1, 0)), 2);
    assert_eq!(ivec3(0, 0, 0).sector_dist(ivec3(0, 0, 3)), 3);
}

#[test]
fn action_frames_follow_speed() {
    // Speed 0 never acts.
    for t in 0..24 {
        assert!(!Instant(t).is_action_frame(0));
    }
    // Within any twelve consecutive ticks a mob acts `speed` times, up to
    // every tick.
    for speed in [1i8, 3, 6, 12, 20, -5] {
        for start in [-13i64, 0, 7] {
            let n = (start..start + 12).filter(|&t| Instant(t).is_action_frame(speed)).count();
            let want = (speed as i64).unsigned_abs().min(12) as usize;
            assert_eq!(n, want, "speed {speed} from {start}");
        }
    }
}

#[test]
fn instant_arithmetic() {
    let a = Instant(10);
    assert_eq!(a.add(5), Instant(15));
    assert_eq!(a.sub(15), Instant(-5));
    assert_eq!(Instant(15).since(a), 5);
    assert!(a.is_before(Instant(11)));
    assert_eq!(Instant::default(), Instant(0));
}

#[test]
fn level_cube_holds_its_point() {
    let c = Cube::level_at(ivec3(1, 1, -2));
    assert!(c.contains(ivec3(50, 41, -3)));
    assert!(c.contains(ivec3(48, 40, -4)));
    assert!(!c.contains(ivec3(50, 41 + SECTOR_HEIGHT, -3)));
    assert!(!c.contains(ivec3(50, 41, -2)));
    let s = Cube::sector_from(ivec3(50, 41, -3));
    assert!(s.contains(ivec3(50, 41, -3)));
    assert!(s.contains(ivec3(95, 79, -3)));
    assert!(!s.contains(ivec3(96, 79, -3)));
}
