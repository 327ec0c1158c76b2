use the_phoenicians_are_coming::parse::parse_map;
use the_phoenicians_are_coming::search::shortest_distances;
use the_phoenicians_are_coming::{Direction, Pos};

#[test]
fn source_distance_is_zero() {
    let (map, first) = parse_map("1..\n...\n..2").unwrap();
    let sd = shortest_distances(&map, first);
    assert_eq!(sd.distance(Pos(0, 0)), Some(0));
    assert_eq!(sd.distance(Pos(1, 0)), Some(1));
    assert_eq!(sd.distance(Pos(2, 2)), Some(4));
}

#[test]
fn land_detours_lengthen_distances() {
    let (map, first) = parse_map("1.*\n.*.\n..2").unwrap();
    let sd = shortest_distances(&map, first);
    assert_eq!(sd.distance(Pos(2, 2)), Some(4));
    assert_eq!(sd.distance(Pos(2, 0)), None);
    assert_eq!(sd.distance(Pos(1, 1)), None);
}

#[test]
fn enclosed_cell_is_absent() {
    // the water cell at (3, 1) is walled in on all four sides
    let (map, first) = parse_map("1.***\n..*.*\n..***").unwrap();
    let sd = shortest_distances(&map, first);
    assert_eq!(sd.distance(Pos(3, 1)), None);
    assert_eq!(sd.distance(Pos(1, 1)), Some(2));
}

#[test]
fn searching_twice_gives_identical_results() {
    let (map, first) = parse_map("1.*.2\n..*..\n.....").unwrap();
    let a = shortest_distances(&map, first);
    let b = shortest_distances(&map, first);
    for y in -1..4 {
        for x in -1..6 {
            assert_eq!(a.distance(Pos(x, y)), b.distance(Pos(x, y)));
        }
    }
}

#[test]
fn out_of_bounds_distance_is_none() {
    let (map, first) = parse_map("12").unwrap();
    let sd = shortest_distances(&map, first);
    assert_eq!(sd.distance(Pos(2, 0)), None);
    assert_eq!(sd.distance(Pos(-1, 0)), None);
}

#[test]
fn direction_steps_one_cell() {
    let p = Pos(3, 5);
    assert_eq!(Direction::North.to_pos(&p), Pos(3, 6));
    assert_eq!(Direction::South.to_pos(&p), Pos(3, 4));
    assert_eq!(Direction::East.to_pos(&p), Pos(4, 5));
    assert_eq!(Direction::West.to_pos(&p), Pos(2, 5));
}

#[test]
fn flat_index_is_row_major() {
    assert_eq!(Pos(0, 0).to_index((5, 3)), 0);
    assert_eq!(Pos(2, 1).to_index((5, 3)), 7);
    assert_eq!(Pos(4, 2).to_index((5, 3)), 14);
}
