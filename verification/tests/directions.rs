use marauder::dir::Dir;
use marauder::types::MapPos;

const DIRS: [Dir; 6] =
    [Dir::SouthEast, Dir::East, Dir::NorthEast, Dir::NorthWest, Dir::West, Dir::SouthWest];

fn pos(x: i32, y: i32) -> MapPos {
    MapPos { x, y }
}

#[test]
fn neighbours_of_a_tile_in_an_even_row() {
    let expected = [(3, 1), (3, 2), (3, 3), (2, 3), (1, 2), (2, 1)];
    for (dir, (x, y)) in DIRS.iter().zip(expected) {
        assert_eq!(Dir::get_neighbour_pos(pos(2, 2), *dir), pos(x, y));
    }
}

#[test]
fn neighbours_of_a_tile_in_an_odd_row() {
    let expected = [(2, 2), (3, 3), (2, 4), (1, 4), (1, 3), (1, 2)];
    for (dir, (x, y)) in DIRS.iter().zip(expected) {
        assert_eq!(Dir::get_neighbour_pos(pos(2, 3), *dir), pos(x, y));
    }
}

#[test]
fn neighbour_may_lie_off_the_board() {
    assert_eq!(Dir::get_neighbour_pos(pos(0, 0), Dir::West), pos(-1, 0));
    assert_eq!(Dir::get_neighbour_pos(pos(0, 0), Dir::SouthWest), pos(0, -1));
    assert_eq!(Dir::get_neighbour_pos(pos(0, 0), Dir::SouthEast), pos(1, -1));
}

#[test]
fn rows_below_zero_alternate_too() {
    assert_eq!(Dir::get_neighbour_pos(pos(0, -1), Dir::SouthEast), pos(0, -2));
    assert_eq!(Dir::get_neighbour_pos(pos(0, -1), Dir::NorthWest), pos(-1, 0));
    assert_eq!(Dir::get_neighbour_pos(pos(0, -2), Dir::SouthEast), pos(1, -3));
    assert_eq!(Dir::get_neighbour_pos(pos(0, -2), Dir::NorthWest), pos(0, -1));
}

#[test]
fn directions_are_numbered_in_visiting_order() {
    for (n, dir) in DIRS.iter().enumerate() {
        assert_eq!(dir.to_int(), n as i32);
        assert_eq!(Dir::from_int(n as i32), *dir);
    }
}

#[test]
fn inverse_pairs() {
    assert_eq!(Dir::SouthEast.inverse(), Dir::NorthWest);
    assert_eq!(Dir::East.inverse(), Dir::West);
    assert_eq!(Dir::NorthEast.inverse(), Dir::SouthWest);
    assert_eq!(Dir::NorthWest.inverse(), Dir::SouthEast);
    assert_eq!(Dir::West.inverse(), Dir::East);
    assert_eq!(Dir::SouthWest.inverse(), Dir::NorthEast);
}

#[test]
fn inverse_direction_leads_back() {
    for y in -3..4 {
        for x in -3..4 {
            for dir in DIRS {
                let there = Dir::get_neighbour_pos(pos(x, y), dir);
                assert_ne!(there, pos(x, y));
                assert_eq!(Dir::get_neighbour_pos(there, dir.inverse()), pos(x, y));
            }
        }
    }
}

#[test]
fn six_directions_lead_to_six_tiles() {
    for y in 0..2 {
        let mut seen = Vec::new();
        for dir in DIRS {
            let there = Dir::get_neighbour_pos(pos(5, y), dir);
            assert!(!seen.contains(&there));
            seen.push(there);
        }
        assert_eq!(seen.len(), 6);
    }
}

#[test]
fn direction_between_neighbours() {
    for y in -2..3 {
        for x in -2..3 {
            for dir in DIRS {
                let there = Dir::get_neighbour_pos(pos(x, y), dir);
                assert_eq!(Dir::get_dir_from_to(pos(x, y), there), dir);
                assert_eq!(Dir::get_dir_from_to(there, pos(x, y)), dir.inverse());
            }
        }
    }
}

#[test]
fn direction_from_an_odd_row_to_the_row_above() {
    assert_eq!(Dir::get_dir_from_to(pos(1, 1), pos(0, 2)), Dir::NorthWest);
    assert_eq!(Dir::get_dir_from_to(pos(1, 1), pos(1, 2)), Dir::NorthEast);
    assert_eq!(Dir::get_dir_from_to(pos(1, 2), pos(2, 3)), Dir::NorthEast);
}
