//! Tests of the score and lives bookkeeping, and of the geometry helpers.

use asteroid::{
    Area, PlayerLifes, Score, Vec2, PLAYER_LIFES_MAX, SCORE_BIG_ASTEROID, SCORE_SAUCER,
    SCORE_SMALL_ASTEROID, SCORE_TINY_ASTEROID,
};

#[test]
fn score_starts_at_zero() {
    let score = Score::default();
    assert_eq!(score.current, 0);
    assert_eq!(score.highest, 0);
    assert!(score.is_highest());
}

#[test]
fn score_add_tracks_highest() {
    let mut score = Score::default();
    assert!(score.add(SCORE_BIG_ASTEROID));
    assert_eq!(score.current, 5);
    assert_eq!(score.highest, 5);
    assert!(score.add(SCORE_SAUCER));
    assert_eq!(score.current, 105);
    assert_eq!(score.highest, 105);
    assert!(score.is_highest());
}

#[test]
fn score_add_below_previous_highest() {
    let mut score = Score { current: 0, highest: 50 };
    // 10 + 15 = 25 stays below the highest of 50.
    assert!(!score.add(SCORE_SMALL_ASTEROID));
    assert!(!score.add(SCORE_TINY_ASTEROID));
    assert_eq!(score.current, 25);
    assert_eq!(score.highest, 50);
    assert!(!score.is_highest());
    // Passing it flips the flag.
    assert!(score.add(26));
    assert_eq!(score.current, 51);
    assert_eq!(score.highest, 51);
    assert!(score.is_highest());
}

#[test]
fn player_lifes_default() {
    assert_eq!(PLAYER_LIFES_MAX, 3);
    assert_eq!(PlayerLifes::default().0, 3);
}

#[test]
fn area_distance_from_point() {
    let area = Area { left: -400, right: 400, top: 300, bottom: -300 };
    // A point 100 to the right of the area: doubled-axis distance 200,
    // squared 40000 (four times the squared distance of 100).
    assert_eq!(area.dist2_scaled(Vec2 { x: 500, y: 0 }), 40000);
    // A point inside the area has distance zero.
    assert_eq!(area.dist2_scaled(Vec2 { x: 100, y: -200 }), 0);
    // A corner point combines both axes: 100 beyond right, 50 beyond top.
    assert_eq!(area.dist2_scaled(Vec2 { x: 500, y: 350 }), 40000 + 10000);
}

#[test]
fn area_inside_outside_overlap() {
    let vp = Area { left: -400, right: 400, top: 300, bottom: -300 };
    let inner = Area { left: -10, right: 10, top: 10, bottom: -10 };
    let straddling = Area { left: 390, right: 410, top: 10, bottom: -10 };
    let outside = Area { left: 500, right: 520, top: 10, bottom: -10 };
    let touching = Area { left: 400, right: 420, top: 10, bottom: -10 };
    assert!(inner.inside(&vp));
    assert!(!straddling.inside(&vp));
    assert!(!straddling.outside(&vp));
    assert!(outside.outside(&vp));
    assert!(inner.overlap(&vp));
    assert!(straddling.overlap(&vp));
    assert!(!outside.overlap(&vp));
    // Areas sharing only an edge count as overlapping, not outside.
    assert!(!touching.outside(&vp));
}
