use marauder::game_state::{GameState, Unit};
use marauder::types::{MapPos, UnitId};

fn unit(id: i32, x: i32, y: i32) -> Unit {
    Unit { id: UnitId { id }, pos: MapPos { x, y }, move_points: 3 }
}

#[test]
fn no_units_on_an_empty_map() {
    let state = GameState::new();
    assert!(state.units.is_empty());
    assert_eq!(state.units_at(MapPos { x: 0, y: 0 }), 0);
}

#[test]
fn units_at_counts_the_units_on_a_tile() {
    let mut state = GameState::new();
    state.add_unit(unit(0, 1, 2));
    state.add_unit(unit(1, 2, 1));
    state.add_unit(unit(2, 1, 2));
    assert_eq!(state.units.len(), 3);
    assert_eq!(state.units_at(MapPos { x: 1, y: 2 }), 2);
    assert_eq!(state.units_at(MapPos { x: 2, y: 1 }), 1);
    assert_eq!(state.units_at(MapPos { x: 2, y: 2 }), 0);
    assert_eq!(state.units_at(MapPos { x: -1, y: 2 }), 0);
}

#[test]
fn add_unit_keeps_the_order_of_arrival() {
    let mut state = GameState::new();
    state.add_unit(unit(7, 0, 0));
    state.add_unit(unit(3, 0, 1));
    assert_eq!(state.units[0], unit(7, 0, 0));
    assert_eq!(state.units[1], unit(3, 0, 1));
}
