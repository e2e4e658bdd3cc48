//! The flag inventory: placing, picking up, and the moves between the
//! player, the ground, and the thieves.

use leyline::flag_state::FlagState;
use leyline::flags::{make_flag, Flag};
use leyline::geometry::{FieldRect, Pos};

fn pos(x: i64, y: i64) -> Pos {
    Pos { x, y }
}

#[test]
fn place_from_player_moves_flag_to_ground() {
    let mut state = FlagState::new(Vec::new(), 1, 1);
    let field = FieldRect { x: 0, y: 0, w: 100, h: 100 };
    let placed = state.try_place_from_player(pos(10, 10), pos(0, 0), field);
    assert!(placed);
    assert_eq!(state.player_inventory(), 0);
    assert_eq!(state.ground_flags().len(), 1);
}

#[test]
fn pickup_to_player_moves_flag_from_ground() {
    let mut state = FlagState::new(vec![make_flag(pos(5, 5))], 0, 1);
    let picked = state.try_pickup_to_player(pos(5, 5), 10);
    assert!(picked);
    assert_eq!(state.player_inventory(), 1);
    assert_eq!(state.ground_flags().len(), 0);
}

#[test]
fn steal_from_hippie_transfers_to_player() {
    let mut state = FlagState::new(Vec::new(), 0, 1);
    let mut hippie_flags = 1;
    let stolen = state.steal_from_hippie(&mut hippie_flags);
    assert!(stolen);
    assert_eq!(state.player_inventory(), 1);
    assert_eq!(hippie_flags, 0);
}

#[test]
fn steal_from_player_overflow_drops_to_ground() {
    let mut state = FlagState::new(Vec::new(), 2, 4);
    let mut hippie_flags = 2;
    let stolen = state.steal_from_player_to_hippie(&mut hippie_flags, 2, pos(1, 1), 2);
    assert_eq!(stolen, 2);
    assert_eq!(state.player_inventory(), 0);
    assert_eq!(hippie_flags, 2);
    assert_eq!(state.ground_flags().len(), 2);
}

#[test]
fn transfer_ground_to_hippie_picks_multiple() {
    let mut state = FlagState::new(
        vec![
            make_flag(pos(0, 0)),
            make_flag(pos(1, 0)),
            make_flag(pos(100, 100)),
        ],
        0,
        3,
    );
    let mut hippie_flags = 0;
    let picked = state.transfer_ground_to_hippie(&mut hippie_flags, 2, pos(0, 0), 5);
    assert!(picked);
    assert_eq!(hippie_flags, 2);
    assert_eq!(state.ground_flags().len(), 1);
}

#[test]
fn drop_from_hippie_spawns_ground_flags() {
    let mut state = FlagState::new(Vec::new(), 0, 2);
    let mut hippie_flags = 2;
    let dropped = state.drop_from_hippie(&mut hippie_flags, 1, pos(2, 2));
    assert_eq!(dropped, 1);
    assert_eq!(hippie_flags, 1);
    assert_eq!(state.ground_flags().len(), 1);
}

#[test]
fn current_total_counts_all_pools() {
    let state = FlagState::new(vec![make_flag(pos(0, 0))], 2, 7);
    assert_eq!(state.current_total(4), 7);
    state.debug_assert_invariant(4);
}

#[test]
fn flag_books_balance_through_a_round_of_moves() {
    let mut state = FlagState::new(vec![make_flag(pos(0, 0)), make_flag(pos(3, 0))], 1, 5);
    let mut hippie_flags: u8 = 2;
    assert_eq!(state.current_total(hippie_flags as u32), 5);
    assert!(state.try_pickup_to_player(pos(0, 0), 10));
    assert_eq!(state.current_total(hippie_flags as u32), 5);
    assert!(state.steal_from_hippie(&mut hippie_flags));
    assert_eq!(state.current_total(hippie_flags as u32), 5);
    let dropped = state.drop_from_hippie(&mut hippie_flags, 1, pos(4, 4));
    assert_eq!(dropped, 1);
    assert_eq!(state.current_total(hippie_flags as u32), 5);
    state.debug_assert_invariant(hippie_flags as u32);
}
