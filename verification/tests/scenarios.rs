use marauder::cost_map::{Tile, MAX_COST};
use marauder::dir::Dir;
use marauder::game_state::{GameState, Unit};
use marauder::pathfinder::{max_cost, Pathfinder};
use marauder::types::{MapPos, Size2, UnitId};

fn pos(x: i32, y: i32) -> MapPos {
    MapPos { x, y }
}

fn unit(id: i32, x: i32, y: i32, move_points: i32) -> Unit {
    Unit { id: UnitId { id }, pos: pos(x, y), move_points }
}

fn costs(pathfinder: &Pathfinder) -> Vec<Vec<i32>> {
    let map = pathfinder.get_map();
    let size = map.get_size();
    (0..size.h).map(|y| (0..size.w).map(|x| map.tile(pos(x, y)).cost).collect()).collect()
}

#[test]
fn the_cost_of_a_tile_not_reached_is_thirty_thousand() {
    assert_eq!(max_cost(), 30000);
    assert_eq!(MAX_COST, 30000);
}

#[test]
fn a_new_pathfinder_has_reached_no_tile() {
    let pathfinder = Pathfinder::new(Size2 { w: 2, h: 3 });
    let map = pathfinder.get_map();
    assert_eq!(map.get_size(), Size2 { w: 2, h: 3 });
    for y in 0..3 {
        for x in 0..2 {
            assert_eq!(*map.tile(pos(x, y)), Tile { cost: 30000, parent: None });
        }
    }
}

#[test]
fn is_inboard_tells_the_board_from_what_lies_around_it() {
    let pathfinder = Pathfinder::new(Size2 { w: 2, h: 3 });
    let map = pathfinder.get_map();
    assert!(map.is_inboard(pos(0, 0)));
    assert!(map.is_inboard(pos(1, 2)));
    assert!(!map.is_inboard(pos(2, 0)));
    assert!(!map.is_inboard(pos(0, 3)));
    assert!(!map.is_inboard(pos(-1, 0)));
    assert!(!map.is_inboard(pos(0, -1)));
}

#[test]
fn a_board_without_tiles_has_no_position() {
    let pathfinder = Pathfinder::new(Size2 { w: 0, h: 4 });
    assert!(!pathfinder.get_map().is_inboard(pos(0, 0)));
    assert_eq!(pathfinder.get_map().get_size(), Size2 { w: 0, h: 4 });
}

#[test]
fn budget_one_reaches_the_six_neighbours() {
    let mut pathfinder = Pathfinder::new(Size2 { w: 3, h: 3 });
    let state = GameState::new();
    pathfinder.fill_map(&state, &unit(0, 1, 1, 1));
    assert_eq!(costs(&pathfinder), vec![vec![1, 1, MAX_COST], vec![1, 0, 1], vec![1, 1, MAX_COST]]);
    assert_eq!(pathfinder.get_path(pos(1, 1)), vec![pos(1, 1)]);
}

#[test]
fn a_unit_on_the_only_route_cuts_the_far_tile_off() {
    let mut pathfinder = Pathfinder::new(Size2 { w: 3, h: 3 });
    let mut state = GameState::new();
    pathfinder.fill_map(&state, &unit(0, 0, 0, 2));
    assert_eq!(pathfinder.get_map().tile(pos(2, 0)).cost, 2);
    assert_eq!(pathfinder.get_path(pos(2, 0)), vec![pos(0, 0), pos(1, 0), pos(2, 0)]);

    state.add_unit(unit(1, 1, 0, 0));
    pathfinder.fill_map(&state, &unit(0, 0, 0, 2));
    assert_eq!(pathfinder.get_map().tile(pos(1, 0)).cost, MAX_COST);
    assert_eq!(pathfinder.get_map().tile(pos(2, 0)).cost, MAX_COST);
    assert_eq!(costs(&pathfinder), vec![
        vec![0, MAX_COST, MAX_COST],
        vec![1, 1, 2],
        vec![2, 2, MAX_COST],
    ]);
}

#[test]
fn one_more_move_point_leads_round_the_unit() {
    let mut pathfinder = Pathfinder::new(Size2 { w: 3, h: 3 });
    let mut state = GameState::new();
    state.add_unit(unit(1, 1, 0, 0));
    pathfinder.fill_map(&state, &unit(0, 0, 0, 3));
    assert_eq!(pathfinder.get_map().tile(pos(2, 0)).cost, 3);
    assert_eq!(pathfinder.get_path(pos(2, 0)), vec![pos(0, 0), pos(1, 1), pos(2, 1), pos(2, 0)]);
}

#[test]
fn the_tile_of_the_moving_unit_costs_nothing_though_it_is_occupied() {
    let mut pathfinder = Pathfinder::new(Size2 { w: 3, h: 3 });
    let mut state = GameState::new();
    let mover = unit(0, 1, 1, 2);
    state.add_unit(mover);
    pathfinder.fill_map(&state, &mover);
    assert_eq!(costs(&pathfinder), vec![vec![1, 1, 2], vec![1, 0, 1], vec![1, 1, 2]]);
    assert_eq!(*pathfinder.get_map().tile(pos(1, 1)), Tile { cost: 0, parent: None });
}

#[test]
fn without_move_points_only_the_start_is_reached() {
    let mut pathfinder = Pathfinder::new(Size2 { w: 3, h: 2 });
    let state = GameState::new();
    for move_points in [0, -1, i32::MIN] {
        pathfinder.fill_map(&state, &unit(0, 2, 1, move_points));
        assert_eq!(costs(&pathfinder), vec![
            vec![MAX_COST, MAX_COST, MAX_COST],
            vec![MAX_COST, MAX_COST, 0],
        ]);
    }
}

#[test]
fn a_board_of_one_tile() {
    let mut pathfinder = Pathfinder::new(Size2 { w: 1, h: 1 });
    let state = GameState::new();
    pathfinder.fill_map(&state, &unit(0, 0, 0, 5));
    assert_eq!(costs(&pathfinder), vec![vec![0]]);
    assert_eq!(pathfinder.get_path(pos(0, 0)), vec![pos(0, 0)]);
}

#[test]
fn tiles_are_stored_row_by_row() {
    let mut pathfinder = Pathfinder::new(Size2 { w: 4, h: 2 });
    let state = GameState::new();
    pathfinder.fill_map(&state, &unit(0, 3, 0, 10));
    assert_eq!(costs(&pathfinder), vec![vec![3, 2, 1, 0], vec![4, 3, 2, 1]]);
    pathfinder.fill_map(&state, &unit(0, 0, 1, 10));
    assert_eq!(costs(&pathfinder), vec![vec![1, 2, 3, 4], vec![0, 1, 2, 3]]);
}

#[test]
fn the_parent_direction_points_to_the_tile_before() {
    let mut pathfinder = Pathfinder::new(Size2 { w: 3, h: 3 });
    let state = GameState::new();
    pathfinder.fill_map(&state, &unit(0, 1, 1, 2));
    let map = pathfinder.get_map();
    assert_eq!(*map.tile(pos(1, 0)), Tile { cost: 1, parent: Some(Dir::NorthWest) });
    assert_eq!(*map.tile(pos(2, 1)), Tile { cost: 1, parent: Some(Dir::West) });
    assert_eq!(*map.tile(pos(0, 0)), Tile { cost: 1, parent: Some(Dir::NorthEast) });
    assert_eq!(*map.tile(pos(2, 0)), Tile { cost: 2, parent: Some(Dir::West) });
    assert_eq!(*map.tile(pos(2, 2)), Tile { cost: 2, parent: Some(Dir::SouthWest) });
}

#[test]
fn of_two_shortest_routes_the_one_in_the_earlier_direction_is_recorded() {
    let mut pathfinder = Pathfinder::new(Size2 { w: 3, h: 3 });
    let state = GameState::new();
    pathfinder.fill_map(&state, &unit(0, 1, 1, 2));
    assert_eq!(pathfinder.get_path(pos(2, 0)), vec![pos(1, 1), pos(1, 0), pos(2, 0)]);
    assert_eq!(pathfinder.get_path(pos(2, 2)), vec![pos(1, 1), pos(2, 1), pos(2, 2)]);
}

#[test]
fn no_tile_is_reached_at_the_cost_of_a_tile_not_reached() {
    let mut pathfinder = Pathfinder::new(Size2 { w: 30010, h: 1 });
    let state = GameState::new();
    for move_points in [30000, 30005, i32::MAX] {
        pathfinder.fill_map(&state, &unit(0, 0, 0, move_points));
        let map = pathfinder.get_map();
        assert_eq!(map.tile(pos(29999, 0)).cost, 29999);
        assert_eq!(map.tile(pos(30000, 0)).cost, MAX_COST);
        assert_eq!(map.tile(pos(30000, 0)).parent, None);
        assert_eq!(map.tile(pos(30009, 0)).cost, MAX_COST);
    }
    pathfinder.fill_map(&state, &unit(0, 0, 0, 29998));
    let map = pathfinder.get_map();
    assert_eq!(map.tile(pos(29998, 0)).cost, 29998);
    assert_eq!(map.tile(pos(29999, 0)).cost, MAX_COST);
    assert_eq!(pathfinder.get_path(pos(29998, 0)).len(), 29999);
}
