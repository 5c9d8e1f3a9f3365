use marauder::cost_map::MAX_COST;
use marauder::game_state::{GameState, Unit};
use marauder::pathfinder::{PathError, Pathfinder};
use marauder::types::{MapPos, Size2, UnitId};

fn pos(x: i32, y: i32) -> MapPos {
    MapPos { x, y }
}

fn unit(x: i32, y: i32, move_points: i32) -> Unit {
    Unit { id: UnitId { id: 0 }, pos: pos(x, y), move_points }
}

#[test]
fn a_fill_from_a_tile_off_the_board_is_refused() {
    let mut pathfinder = Pathfinder::new(Size2 { w: 3, h: 3 });
    let state = GameState::new();
    assert_eq!(pathfinder.try_fill_map(&state, &unit(1, 1, 1)), Ok(()));
    for (x, y) in [(3, 0), (0, 3), (-1, 1), (1, -1)] {
        assert_eq!(pathfinder.try_fill_map(&state, &unit(x, y, 2)), Err(PathError::OutOfBounds));
        assert_eq!(pathfinder.get_map().tile(pos(1, 1)).cost, 0);
        assert_eq!(pathfinder.get_map().tile(pos(1, 0)).cost, 1);
        assert_eq!(pathfinder.get_map().tile(pos(2, 0)).cost, MAX_COST);
    }
}

#[test]
fn a_fill_from_a_tile_of_the_board_is_done() {
    let mut pathfinder = Pathfinder::new(Size2 { w: 3, h: 3 });
    let state = GameState::new();
    assert_eq!(pathfinder.try_fill_map(&state, &unit(0, 0, 2)), Ok(()));
    assert_eq!(pathfinder.get_map().tile(pos(0, 0)).cost, 0);
    assert_eq!(pathfinder.get_map().tile(pos(2, 0)).cost, 2);
    assert_eq!(pathfinder.get_map().tile(pos(2, 2)).cost, MAX_COST);
}

#[test]
fn no_path_leads_off_the_board() {
    let mut pathfinder = Pathfinder::new(Size2 { w: 3, h: 3 });
    let state = GameState::new();
    pathfinder.fill_map(&state, &unit(1, 1, 5));
    for (x, y) in [(3, 0), (0, 3), (-1, 1), (1, -1)] {
        assert_eq!(pathfinder.try_get_path(pos(x, y)), Err(PathError::OutOfBounds));
    }
}

#[test]
fn no_path_leads_to_a_tile_that_was_not_reached() {
    let mut pathfinder = Pathfinder::new(Size2 { w: 3, h: 3 });
    let state = GameState::new();
    pathfinder.fill_map(&state, &unit(1, 1, 1));
    assert_eq!(pathfinder.try_get_path(pos(2, 0)), Err(PathError::UnreachableDestination));
    assert_eq!(pathfinder.try_get_path(pos(2, 2)), Err(PathError::UnreachableDestination));
}

#[test]
fn no_path_leads_anywhere_before_the_first_fill() {
    let pathfinder = Pathfinder::new(Size2 { w: 3, h: 3 });
    for y in 0..3 {
        for x in 0..3 {
            assert_eq!(
                pathfinder.try_get_path(pos(x, y)),
                Err(PathError::UnreachableDestination)
            );
        }
    }
    assert_eq!(pathfinder.try_get_path(pos(3, 3)), Err(PathError::OutOfBounds));
}

#[test]
fn the_path_to_a_reached_tile_is_handed_out() {
    let mut pathfinder = Pathfinder::new(Size2 { w: 3, h: 3 });
    let state = GameState::new();
    pathfinder.fill_map(&state, &unit(1, 1, 1));
    assert_eq!(pathfinder.try_get_path(pos(1, 1)), Ok(vec![pos(1, 1)]));
    assert_eq!(pathfinder.try_get_path(pos(0, 2)), Ok(vec![pos(1, 1), pos(0, 2)]));
}
