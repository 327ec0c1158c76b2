use the_phoenicians_are_coming::trader::PhoenicianTrader;
use the_phoenicians_are_coming::{ParseError, Pos};

/// An 80 x 15 open-water grid: port 1 at column 79 of the top row, port 3
/// at column 45 of the top row, port 2 at column 1 of the bottom row.
fn open_sea_fixture() -> String {
    let mut text = String::from("80 15\n");
    for y in 0..15 {
        let mut row = String::new();
        for x in 0..80 {
            let ch = match (x, y) {
                (79, 0) => '1',
                (45, 0) => '3',
                (1, 14) => '2',
                _ => '.',
            };
            row.push(ch);
        }
        text.push_str(&row);
        text.push('\n');
    }
    text
}

#[test]
fn test_go_to_next_port() {
    let input = open_sea_fixture();
    let mut phoenicians: PhoenicianTrader = input.parse().unwrap();

    phoenicians.next();

    assert_eq!(phoenicians.current_port(), Pos(1, 14));
    assert_eq!(phoenicians.fuel_cost(), 126);
}

#[test]
fn separated_ports_terminate_immediately() {
    // a solid land row walls port 2 off from port 1
    let mut phoenicians = PhoenicianTrader::parse("1....\n*****\n....2").unwrap();
    assert_eq!(phoenicians.current_port(), Pos(0, 0));
    assert_eq!(phoenicians.next(), None);
    assert_eq!(phoenicians.fuel_cost(), 0);
    assert_eq!(phoenicians.current_port(), Pos(0, 0));
}

#[test]
fn single_port_terminates_immediately() {
    let mut phoenicians = PhoenicianTrader::parse("1").unwrap();
    assert_eq!(phoenicians.current_port(), Pos(0, 0));
    assert_eq!(phoenicians.next(), None);
    assert_eq!(phoenicians.fuel_cost(), 0);
}

#[test]
fn visits_ports_in_increasing_order() {
    // three ports in a row, open water: 1 -> 2 -> 3, with the return leg
    // to port 3 charged when leaving port 1
    let mut phoenicians = PhoenicianTrader::parse("123").unwrap();
    assert_eq!(phoenicians.next(), Some(3));
    assert_eq!(phoenicians.current_port(), Pos(1, 0));
    assert_eq!(phoenicians.next(), Some(4));
    assert_eq!(phoenicians.current_port(), Pos(2, 0));
    assert_eq!(phoenicians.next(), None);
    assert_eq!(phoenicians.fuel_cost(), 4);
}

#[test]
fn full_lap_count_matches_port_count() {
    // ports 1..=4 on open water: exactly three costed steps, then the end
    let mut phoenicians = PhoenicianTrader::parse("1.2\n..4\n3..").unwrap();
    let mut steps = 0;
    let mut last = 0;
    while let Some(cost) = phoenicians.next() {
        assert!(cost >= last);
        last = cost;
        steps += 1;
    }
    assert_eq!(steps, 3);
}

#[test]
fn reparse_gives_identical_run() {
    let text = "3 3\n1.2\n.*.\n4.3";
    let mut a = PhoenicianTrader::parse(text).unwrap();
    let mut b = PhoenicianTrader::parse(text).unwrap();
    loop {
        let ra = a.next();
        let rb = b.next();
        assert_eq!(ra, rb);
        if ra.is_none() {
            break;
        }
    }
    assert_eq!(a.fuel_cost(), b.fuel_cost());
    assert_eq!(a.current_port(), b.current_port());
}

#[test]
fn unreachable_higher_port_ends_lap_early() {
    // port 2 is reachable, port 3 is walled off: one step, then the end
    let mut phoenicians = PhoenicianTrader::parse("12*\n**3").unwrap();
    assert_eq!(phoenicians.next(), Some(2));
    assert_eq!(phoenicians.current_port(), Pos(1, 0));
    assert_eq!(phoenicians.next(), None);
}

#[test]
fn lowest_port_is_the_start() {
    let phoenicians = PhoenicianTrader::parse("9.3\n...\n2.7").unwrap();
    assert_eq!(phoenicians.current_port(), Pos(0, 2));
    assert_eq!(phoenicians.first_port(), Pos(0, 2));
    assert_eq!(phoenicians.fuel_cost(), 0);
}

#[test]
fn no_port_at_all_is_an_error() {
    assert_eq!(
        PhoenicianTrader::parse("...\n.*.").unwrap_err(),
        ParseError::NoStartingPort
    );
}
