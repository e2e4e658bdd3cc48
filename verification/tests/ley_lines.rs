//! The detection engine on whole scenarios: proximity pairs, intensities,
//! pentagram detection and classification.

use leyline::flags::Flag;
use leyline::geometry::Pos;
use leyline::ley_lines::{compute_ley_lines, compute_ley_state, pentagram_centers, LeyLineKind};

fn flag_at(x: i64, y: i64) -> Flag {
    Flag { pos: Pos { x, y } }
}

fn ring_flag(radius: f32, k: u32) -> Flag {
    let angle = k as f32 * std::f32::consts::TAU / 5.0;
    flag_at(
        (angle.cos() * radius).round() as i64,
        (angle.sin() * radius).round() as i64,
    )
}

#[test]
fn no_lines_with_few_flags() {
    let flags: Vec<Flag> = Vec::new();
    let lines = compute_ley_lines(&flags, 100);
    assert!(lines.is_empty());
}

#[test]
fn builds_pairs_within_radius() {
    let flags = vec![flag_at(0, 0), flag_at(10, 0), flag_at(300, 0)];
    let lines = compute_ley_lines(&flags, 50);
    assert_eq!(lines.len(), 1);
    // (1 - 10/50)^2 = 0.64, in parts per million
    assert_eq!(lines[0].intensity, 640_000);
    assert_eq!(lines[0].kind, LeyLineKind::Normal);
}

#[test]
fn intensity_closer_is_brighter() {
    let flags = vec![flag_at(0, 0), flag_at(10, 0), flag_at(30, 0)];
    let lines = compute_ley_lines(&flags, 40);
    let mut intensities: Vec<u32> = lines.iter().map(|l| l.intensity).collect();
    intensities.sort();
    assert!(intensities[0] < intensities[1]);
    assert!(intensities[1] < intensities[2]);
}

#[test]
fn pentagram_marks_lines() {
    let flags: Vec<Flag> = (0..5).map(|k| ring_flag(40.0, k)).collect();
    let lines = compute_ley_lines(&flags, 80);
    assert_eq!(lines.len(), 10);
    assert!(lines.iter().all(|line| line.kind == LeyLineKind::Pentagram));
}

#[test]
fn compute_ley_state_returns_lines_and_centers() {
    let flags: Vec<Flag> = (0..5).map(|k| ring_flag(45.0, k)).collect();
    let state = compute_ley_state(&flags, 90);
    assert_eq!(state.pentagram_centers.len(), 1);
    assert_eq!(state.lines.len(), 10);
    assert!(state
        .lines
        .iter()
        .all(|line| line.kind == LeyLineKind::Pentagram));
}

#[test]
fn pentagram_with_jittered_radius_is_detected() {
    let base_radius = 60.0_f32;
    let mut flags = Vec::new();
    for k in 0..5u32 {
        let jitter = if k % 2 == 0 { 1.15 } else { 0.85 };
        flags.push(ring_flag(base_radius * jitter, k));
    }
    let lines = compute_ley_lines(&flags, 150);
    assert_eq!(lines.len(), 10);
    assert!(lines.iter().all(|line| line.kind == LeyLineKind::Pentagram));
}

#[test]
fn pentagram_centers_returns_centroid() {
    let flags: Vec<Flag> = (0..5).map(|k| ring_flag(50.0, k)).collect();
    let centers = pentagram_centers(&flags, 100);
    assert_eq!(centers.len(), 1);
    assert_eq!(centers[0].x5, 0);
    assert_eq!(centers[0].y5, 0);
}

#[test]
fn non_pentagram_does_not_mark_lines() {
    let flags = vec![
        flag_at(0, 0),
        flag_at(10, 0),
        flag_at(20, 0),
        flag_at(30, 0),
        flag_at(40, 0),
    ];
    let lines = compute_ley_lines(&flags, 100);
    assert!(lines.iter().all(|line| line.kind == LeyLineKind::Normal));
}

#[test]
fn pentagram_centers_empty_for_non_pentagram() {
    let flags = vec![
        flag_at(0, 0),
        flag_at(10, 0),
        flag_at(20, 0),
        flag_at(30, 0),
        flag_at(40, 0),
    ];
    let centers = pentagram_centers(&flags, 100);
    assert!(centers.is_empty());
}

#[test]
fn pentagram_detected_with_many_distant_noise_flags() {
    let mut flags = Vec::new();
    for i in 0..40i64 {
        flags.push(flag_at(1000 + i * 300, -2000 + (i % 3) * 500));
    }
    for k in 0..5u32 {
        flags.push(ring_flag(42.0, k));
    }
    let state = compute_ley_state(&flags, 90);
    assert_eq!(state.pentagram_centers.len(), 1);
    assert_eq!(state.lines.len(), 10);
    assert_eq!(
        state
            .lines
            .iter()
            .filter(|line| line.kind == LeyLineKind::Pentagram)
            .count(),
        10
    );
}
