use marauder::cost_map::{Tile, MAX_COST};
use marauder::dir::Dir;
use marauder::game_state::{GameState, Unit};
use marauder::pathfinder::Pathfinder;
use marauder::types::{MapPos, Size2, UnitId};

const DIRS: [Dir; 6] =
    [Dir::SouthEast, Dir::East, Dir::NorthEast, Dir::NorthWest, Dir::West, Dir::SouthWest];

const EVEN_ROW: [(i32, i32); 6] = [(1, -1), (1, 0), (1, 1), (0, 1), (-1, 0), (0, -1)];

const ODD_ROW: [(i32, i32); 6] = [(0, -1), (1, 0), (0, 1), (-1, 1), (-1, 0), (-1, -1)];

fn pos(x: i32, y: i32) -> MapPos {
    MapPos { x, y }
}

fn unit(id: i32, at: MapPos, move_points: i32) -> Unit {
    Unit { id: UnitId { id }, pos: at, move_points }
}

fn step(from: MapPos, n: usize) -> MapPos {
    let (dx, dy) = if from.y % 2 == 0 { EVEN_ROW[n] } else { ODD_ROW[n] };
    pos(from.x + dx, from.y + dy)
}

fn on_board(size: Size2<i32>, at: MapPos) -> bool {
    0 <= at.x && at.x < size.w && 0 <= at.y && at.y < size.h
}

fn positions(size: Size2<i32>) -> Vec<MapPos> {
    (0..size.h).flat_map(|y| (0..size.w).map(move |x| pos(x, y))).collect()
}

fn tiles(pathfinder: &Pathfinder) -> Vec<Tile> {
    let map = pathfinder.get_map();
    positions(map.get_size()).into_iter().map(|at| *map.tile(at)).collect()
}

/// The distance between two tiles of a board without bounds.
fn hex_distance(a: MapPos, b: MapPos) -> i32 {
    let column = |at: MapPos| at.x - (at.y + (at.y & 1)) / 2;
    let dq = column(a) - column(b);
    let dr = a.y - b.y;
    (dq.abs() + (dq + dr).abs() + dr.abs()) / 2
}

/// Distances from `start` found by spreading one step at a time.
fn distances(size: Size2<i32>, blocked: &[MapPos], start: MapPos, budget: i32) -> Vec<Vec<i32>> {
    let mut dist = vec![vec![MAX_COST; size.w as usize]; size.h as usize];
    dist[start.y as usize][start.x as usize] = 0;
    for round in 0..budget.min(MAX_COST - 1) {
        for at in positions(size) {
            if dist[at.y as usize][at.x as usize] != round {
                continue;
            }
            for n in 0..6 {
                let next = step(at, n);
                if on_board(size, next) && !blocked.contains(&next)
                    && dist[next.y as usize][next.x as usize] == MAX_COST
                {
                    dist[next.y as usize][next.x as usize] = round + 1;
                }
            }
        }
    }
    dist
}

/// The first route, in the order of the directions, that leads from `at` to
/// `dest` over tiles whose distance grows by one with each step.
fn first_route(
    size: Size2<i32>,
    dist: &[Vec<i32>],
    at: MapPos,
    dest: MapPos,
) -> Option<Vec<MapPos>> {
    if at == dest {
        return Some(vec![at]);
    }
    let here = dist[at.y as usize][at.x as usize];
    for n in 0..6 {
        let next = step(at, n);
        if on_board(size, next) && dist[next.y as usize][next.x as usize] == here + 1
            && here + 1 <= dist[dest.y as usize][dest.x as usize]
        {
            if let Some(mut rest) = first_route(size, dist, next, dest) {
                rest.insert(0, at);
                return Some(rest);
            }
        }
    }
    None
}

struct Dice(u64);

impl Dice {
    fn roll(&mut self, sides: u64) -> u64 {
        self.0 = self.0.wrapping_mul(6364136223846793005).wrapping_add(1442695040888963407);
        (self.0 >> 33) % sides
    }
}

fn scatter(dice: &mut Dice, size: Size2<i32>, one_in: u64) -> Vec<MapPos> {
    positions(size).into_iter().filter(|_| dice.roll(one_in) == 0).collect()
}

fn state_with(units: &[MapPos]) -> GameState {
    let mut state = GameState::new();
    for (n, at) in units.iter().enumerate() {
        state.add_unit(unit(100 + n as i32, *at, 0));
    }
    state
}

#[test]
fn on_a_free_board_the_cost_is_the_hex_distance() {
    let state = GameState::new();
    for (w, h) in [(1, 1), (1, 6), (6, 1), (2, 2), (3, 3), (4, 5), (5, 4), (7, 3)] {
        let size = Size2 { w, h };
        let mut pathfinder = Pathfinder::new(size);
        for start in positions(size) {
            for budget in 0..9 {
                pathfinder.fill_map(&state, &unit(0, start, budget));
                for at in positions(size) {
                    let distance = hex_distance(start, at);
                    let expected = if distance <= budget { distance } else { MAX_COST };
                    assert_eq!(pathfinder.get_map().tile(at).cost, expected);
                }
            }
        }
    }
}

#[test]
fn the_cost_is_the_distance_round_the_units() {
    let mut dice = Dice(1);
    for (w, h) in [(3, 3), (4, 4), (5, 3), (6, 6)] {
        let size = Size2 { w, h };
        let mut pathfinder = Pathfinder::new(size);
        for _ in 0..40 {
            let blocked = scatter(&mut dice, size, 4);
            let state = state_with(&blocked);
            let start = pos(dice.roll(w as u64) as i32, dice.roll(h as u64) as i32);
            let budget = dice.roll(8) as i32;
            pathfinder.fill_map(&state, &unit(0, start, budget));
            let expected = distances(size, &blocked, start, budget);
            for at in positions(size) {
                assert_eq!(
                    pathfinder.get_map().tile(at).cost,
                    expected[at.y as usize][at.x as usize]
                );
            }
        }
    }
}

#[test]
fn an_occupied_tile_is_not_reached_and_no_path_crosses_one() {
    let mut dice = Dice(2);
    let size = Size2 { w: 6, h: 5 };
    let mut pathfinder = Pathfinder::new(size);
    for _ in 0..60 {
        let blocked = scatter(&mut dice, size, 3);
        let state = state_with(&blocked);
        let start = pos(dice.roll(6) as i32, dice.roll(5) as i32);
        pathfinder.fill_map(&state, &unit(0, start, 12));
        for at in positions(size) {
            let tile = *pathfinder.get_map().tile(at);
            if at == start {
                assert_eq!(tile, Tile { cost: 0, parent: None });
            } else if blocked.contains(&at) {
                assert_eq!(tile, Tile { cost: MAX_COST, parent: None });
            }
            if tile.cost != MAX_COST {
                let path = pathfinder.get_path(at);
                assert_eq!(path[0], start);
                assert!(path[1..].iter().all(|on| !blocked.contains(on)));
            }
        }
    }
}

#[test]
fn more_move_points_keep_what_was_reached() {
    let mut dice = Dice(3);
    let size = Size2 { w: 5, h: 5 };
    let mut small = Pathfinder::new(size);
    let mut large = Pathfinder::new(size);
    for _ in 0..40 {
        let blocked = scatter(&mut dice, size, 4);
        let state = state_with(&blocked);
        let start = pos(dice.roll(5) as i32, dice.roll(5) as i32);
        let budget = dice.roll(6) as i32;
        let more = budget + dice.roll(4) as i32;
        small.fill_map(&state, &unit(0, start, budget));
        large.fill_map(&state, &unit(0, start, more));
        for at in positions(size) {
            let before = *small.get_map().tile(at);
            if before.cost != MAX_COST {
                assert_eq!(*large.get_map().tile(at), before);
                assert_eq!(large.get_path(at), small.get_path(at));
            }
        }
    }
}

#[test]
fn the_path_to_the_start_is_the_start() {
    let size = Size2 { w: 4, h: 3 };
    let mut pathfinder = Pathfinder::new(size);
    let state = state_with(&[pos(1, 1), pos(2, 2)]);
    for start in positions(size) {
        pathfinder.fill_map(&state, &unit(0, start, 4));
        assert_eq!(pathfinder.get_path(start), vec![start]);
    }
}

#[test]
fn a_path_has_one_tile_more_than_its_cost_and_steps_between_neighbours() {
    let mut dice = Dice(5);
    let size = Size2 { w: 6, h: 6 };
    let mut pathfinder = Pathfinder::new(size);
    for _ in 0..40 {
        let blocked = scatter(&mut dice, size, 4);
        let state = state_with(&blocked);
        let start = pos(dice.roll(6) as i32, dice.roll(6) as i32);
        pathfinder.fill_map(&state, &unit(0, start, 9));
        for at in positions(size) {
            let tile = *pathfinder.get_map().tile(at);
            if tile.cost == MAX_COST {
                continue;
            }
            let path = pathfinder.get_path(at);
            assert_eq!(path.len() as i32, tile.cost + 1);
            assert_eq!(path[0], start);
            assert_eq!(path[path.len() - 1], at);
            for (n, pair) in path.windows(2).enumerate() {
                assert!(DIRS.iter().any(|dir| Dir::get_neighbour_pos(pair[0], *dir) == pair[1]));
                assert_eq!(pathfinder.get_map().tile(pair[1]).cost, n as i32 + 1);
                let back = pathfinder.get_map().tile(pair[1]).parent.unwrap();
                assert_eq!(Dir::get_neighbour_pos(pair[1], back), pair[0]);
            }
        }
    }
}

#[test]
fn the_recorded_path_is_the_first_of_the_shortest() {
    let mut dice = Dice(6);
    for (w, h) in [(3, 3), (5, 4), (6, 6)] {
        let size = Size2 { w, h };
        let mut pathfinder = Pathfinder::new(size);
        for _ in 0..30 {
            let blocked = scatter(&mut dice, size, 5);
            let state = state_with(&blocked);
            let start = pos(dice.roll(w as u64) as i32, dice.roll(h as u64) as i32);
            let budget = 2 + dice.roll(6) as i32;
            pathfinder.fill_map(&state, &unit(0, start, budget));
            let dist = distances(size, &blocked, start, budget);
            for at in positions(size) {
                if pathfinder.get_map().tile(at).cost != MAX_COST {
                    let expected = first_route(size, &dist, start, at).unwrap();
                    assert_eq!(pathfinder.get_path(at), expected);
                }
            }
        }
    }
}

#[test]
fn equal_inputs_give_equal_maps_and_paths() {
    let size = Size2 { w: 5, h: 4 };
    let blocked = [pos(1, 1), pos(3, 2), pos(2, 0)];
    let mover = unit(0, pos(0, 3), 6);
    let mut first = Pathfinder::new(size);
    let mut second = Pathfinder::new(size);
    first.fill_map(&state_with(&blocked), &mover);
    second.fill_map(&state_with(&blocked), &mover);
    assert_eq!(tiles(&first), tiles(&second));
    first.fill_map(&state_with(&blocked), &mover);
    assert_eq!(tiles(&first), tiles(&second));
    for at in positions(size) {
        assert_eq!(first.try_get_path(at), second.try_get_path(at));
    }
}

#[test]
fn only_the_occupied_tiles_count_not_who_stands_there() {
    let size = Size2 { w: 4, h: 4 };
    let mover = unit(0, pos(1, 2), 5);
    let mut first = Pathfinder::new(size);
    let mut second = Pathfinder::new(size);
    first.fill_map(&state_with(&[pos(2, 2), pos(0, 1)]), &mover);
    second.fill_map(&state_with(&[pos(0, 1), pos(2, 2), pos(0, 1), pos(9, 9)]), &mover);
    assert_eq!(tiles(&first), tiles(&second));
}

#[test]
fn an_earlier_fill_leaves_no_trace() {
    let mut dice = Dice(7);
    let size = Size2 { w: 5, h: 5 };
    let mut used = Pathfinder::new(size);
    for _ in 0..30 {
        let blocked = scatter(&mut dice, size, 4);
        let state = state_with(&blocked);
        let start = pos(dice.roll(5) as i32, dice.roll(5) as i32);
        let mover = unit(0, start, dice.roll(7) as i32);
        let mut fresh = Pathfinder::new(size);
        fresh.fill_map(&state, &mover);
        used.fill_map(&state, &mover);
        assert_eq!(tiles(&used), tiles(&fresh));
    }
}
