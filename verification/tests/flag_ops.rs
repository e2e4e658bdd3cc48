//! The ground-flag operations: placing from an inventory into a field and
//! picking up the nearest flag within reach.

use leyline::flags::{try_pickup_flag, try_place_flag, Flag};
use leyline::geometry::{FieldRect, Pos};
use leyline::movement::{movement_direction, InputState};

fn flag_at(x: i64, y: i64) -> Flag {
    Flag { pos: Pos { x, y } }
}

#[test]
fn try_pickup_flag_removes_nearest() {
    let mut flags = vec![flag_at(10, 10), flag_at(30, 10)];
    let picked = try_pickup_flag(&mut flags, Pos { x: 12, y: 10 }, 10);
    assert!(picked);
    assert_eq!(flags.len(), 1);
    assert_eq!(flags[0].pos, Pos { x: 30, y: 10 });
}

#[test]
fn try_pickup_flag_fails_when_out_of_range() {
    let mut flags = vec![flag_at(100, 100)];
    let picked = try_pickup_flag(&mut flags, Pos { x: 0, y: 0 }, 10);
    assert!(!picked);
    assert_eq!(flags.len(), 1);
}

#[test]
fn try_pickup_flag_tie_takes_latest() {
    let mut flags = vec![flag_at(-10, 0), flag_at(10, 0)];
    let picked = try_pickup_flag(&mut flags, Pos { x: 0, y: 0 }, 20);
    assert!(picked);
    assert_eq!(flags.len(), 1);
    assert_eq!(flags[0].pos, Pos { x: -10, y: 0 });
}

#[test]
fn try_place_flag_consumes_inventory() {
    let mut flags = Vec::new();
    let mut inventory = 1;
    let field = FieldRect { x: 0, y: 0, w: 200, h: 200 };
    let placed = try_place_flag(
        &mut flags,
        &mut inventory,
        Pos { x: 50, y: 50 },
        Pos { x: 10, y: 0 },
        field,
    );
    assert!(placed);
    assert_eq!(inventory, 0);
    assert_eq!(flags.len(), 1);
}

#[test]
fn try_place_flag_fails_without_inventory() {
    let mut flags = Vec::new();
    let mut inventory = 0;
    let field = FieldRect { x: 0, y: 0, w: 200, h: 200 };
    let placed = try_place_flag(
        &mut flags,
        &mut inventory,
        Pos { x: 50, y: 50 },
        Pos { x: 10, y: 0 },
        field,
    );
    assert!(!placed);
    assert_eq!(flags.len(), 0);
}

#[test]
fn try_place_flag_clamps_into_the_field() {
    let mut flags = Vec::new();
    let mut inventory = 1;
    let field = FieldRect { x: 0, y: 0, w: 100, h: 100 };
    let placed = try_place_flag(
        &mut flags,
        &mut inventory,
        Pos { x: 90, y: 50 },
        Pos { x: 40, y: -70 },
        field,
    );
    assert!(placed);
    assert_eq!(flags[0].pos, Pos { x: 100, y: 0 });
}

#[test]
fn movement_direction_cancels_opposite_keys() {
    let all = InputState { up: true, down: true, left: true, right: true };
    assert_eq!(movement_direction(all), (0, 0));
    let down_right = InputState { up: false, down: true, left: false, right: true };
    assert_eq!(movement_direction(down_right), (1, 1));
}
