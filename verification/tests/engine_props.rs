//! Edge cases and cross-cutting behavior of the detection engine: degenerate
//! inputs, the distance gate, intensity bounds, clique coverage of detected
//! pentagrams, and recomputation on an unchanged snapshot.

use leyline::flags::Flag;
use leyline::geometry::Pos;
use leyline::ley_lines::{compute_ley_state, LeyLineKind};

fn flag_at(x: i64, y: i64) -> Flag {
    Flag { pos: Pos { x, y } }
}

fn ring_flag(radius: f32, k: u32) -> Flag {
    let angle = k as f32 * std::f32::consts::TAU / 5.0;
    flag_at(
        (angle.cos() * radius).round() as i64,
        (angle.sin() * radius).round() as i64,
    )
}

#[test]
fn single_marker_yields_empty_state() {
    let flags = vec![flag_at(3, 4)];
    let state = compute_ley_state(&flags, 50);
    assert!(state.lines.is_empty());
    assert!(state.pentagram_centers.is_empty());
}

#[test]
fn nonpositive_threshold_yields_empty_state() {
    let flags = vec![flag_at(0, 0), flag_at(1, 0)];
    let zero = compute_ley_state(&flags, 0);
    assert!(zero.lines.is_empty());
    assert!(zero.pentagram_centers.is_empty());
    let negative = compute_ley_state(&flags, -5);
    assert!(negative.lines.is_empty());
    assert!(negative.pentagram_centers.is_empty());
}

#[test]
fn distance_gate_is_inclusive_at_the_threshold() {
    let at_threshold = vec![flag_at(0, 0), flag_at(50, 0)];
    assert_eq!(compute_ley_state(&at_threshold, 50).lines.len(), 1);
    let beyond = vec![flag_at(0, 0), flag_at(51, 0)];
    assert!(compute_ley_state(&beyond, 50).lines.is_empty());
}

#[test]
fn intensity_saturates_at_zero_distance_and_at_the_threshold() {
    let coincident = vec![flag_at(7, 7), flag_at(7, 7)];
    let bright = compute_ley_state(&coincident, 10);
    assert_eq!(bright.lines[0].intensity, 1_000_000);
    let at_threshold = vec![flag_at(0, 0), flag_at(10, 0)];
    let dark = compute_ley_state(&at_threshold, 10);
    assert_eq!(dark.lines[0].intensity, 0);
}

#[test]
fn intensities_stay_within_unit_range() {
    let flags = vec![
        flag_at(0, 0),
        flag_at(3, 14),
        flag_at(-25, 8),
        flag_at(40, -39),
        flag_at(-17, -28),
    ];
    let state = compute_ley_state(&flags, 60);
    assert!(!state.lines.is_empty());
    for line in &state.lines {
        assert!(line.intensity <= 1_000_000);
    }
}

#[test]
fn detected_pentagram_markers_are_pairwise_close() {
    let flags: Vec<Flag> = (0..5).map(|k| ring_flag(40.0, k)).collect();
    let md: i64 = 80;
    let state = compute_ley_state(&flags, md);
    assert_eq!(state.pentagram_centers.len(), 1);
    for i in 0..flags.len() {
        for j in (i + 1)..flags.len() {
            let dx = flags[i].pos.x - flags[j].pos.x;
            let dy = flags[i].pos.y - flags[j].pos.y;
            assert!(dx * dx + dy * dy <= md * md);
        }
    }
}

#[test]
fn recomputing_an_unchanged_snapshot_agrees() {
    let mut flags = Vec::new();
    for i in 0..40i64 {
        flags.push(flag_at(1000 + i * 300, -2000 + (i % 3) * 500));
    }
    for k in 0..5u32 {
        flags.push(ring_flag(42.0, k));
    }
    let first = compute_ley_state(&flags, 90);
    let second = compute_ley_state(&flags, 90);
    assert_eq!(first, second);
}

#[test]
fn lines_index_into_the_snapshot_in_ascending_order() {
    let mut flags = vec![flag_at(0, 0), flag_at(10, 0), flag_at(0, 10), flag_at(10, 10)];
    flags.push(flag_at(5, 5));
    let state = compute_ley_state(&flags, 20);
    for line in &state.lines {
        assert!(line.a < line.b);
        assert!(line.b < flags.len());
    }
    for pair in state.lines.windows(2) {
        assert!(pair[0].a < pair[1].a || (pair[0].a == pair[1].a && pair[0].b < pair[1].b));
    }
}

#[test]
fn four_markers_never_form_a_pentagram() {
    let flags = vec![flag_at(0, 10), flag_at(10, 0), flag_at(0, -10), flag_at(-10, 0)];
    let state = compute_ley_state(&flags, 40);
    assert_eq!(state.lines.len(), 6);
    assert!(state.pentagram_centers.is_empty());
    assert!(state.lines.iter().all(|l| l.kind == LeyLineKind::Normal));
}
