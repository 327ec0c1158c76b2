use the_phoenicians_are_coming::parse::parse_map;
use the_phoenicians_are_coming::trader::PhoenicianTrader;
use the_phoenicians_are_coming::{ParseError, Pos, WorldMapNode, MAX_CELLS};

#[test]
fn header_is_width_then_height() {
    let (map, first) = parse_map("3 2\n123\n...").unwrap();
    assert_eq!(map.width(), 3);
    assert_eq!(map.height(), 2);
    assert_eq!(first, Pos(0, 0));
    assert_eq!(map.cell_at(Pos(1, 0)), Some(WorldMapNode::Port(2)));
    assert_eq!(map.cell_at(Pos(2, 1)), Some(WorldMapNode::Water));
}

#[test]
fn dimensions_are_inferred_without_header() {
    let (map, _) = parse_map("1....\n*****\n....2").unwrap();
    assert_eq!(map.width(), 5);
    assert_eq!(map.height(), 3);
    assert_eq!(map.cell_at(Pos(0, 1)), Some(WorldMapNode::Land));
    assert_eq!(map.cell_at(Pos(4, 2)), Some(WorldMapNode::Port(2)));
}

#[test]
fn out_of_bounds_lookup_is_none() {
    let (map, _) = parse_map("1.").unwrap();
    assert_eq!(map.cell_at(Pos(-1, 0)), None);
    assert_eq!(map.cell_at(Pos(0, -1)), None);
    assert_eq!(map.cell_at(Pos(2, 0)), None);
    assert_eq!(map.cell_at(Pos(0, 1)), None);
}

#[test]
fn short_rows_are_padded_with_land() {
    let (map, _) = parse_map("3 2\n1.\n.").unwrap();
    assert_eq!(map.cell_at(Pos(2, 0)), Some(WorldMapNode::Land));
    assert_eq!(map.cell_at(Pos(1, 1)), Some(WorldMapNode::Land));
    assert_eq!(map.cell_at(Pos(0, 1)), Some(WorldMapNode::Water));
}

#[test]
fn blank_lines_and_indentation_are_trimmed() {
    let (map, first) = parse_map("\n  2 1  \n   1. \n\n").unwrap();
    assert_eq!(map.width(), 2);
    assert_eq!(map.height(), 1);
    assert_eq!(first, Pos(0, 0));
}

#[test]
fn invalid_character_is_fatal() {
    assert_eq!(parse_map("1.,\n...").unwrap_err(), ParseError::InvalidCharacter);
    assert_eq!(parse_map("1x").unwrap_err(), ParseError::InvalidCharacter);
    assert_eq!(parse_map("1é").unwrap_err(), ParseError::InvalidCharacter);
}

#[test]
fn unparsable_header_is_fatal() {
    assert_eq!(parse_map("a b\n1.").unwrap_err(), ParseError::MalformedHeader);
    assert_eq!(parse_map("3 x\n1..").unwrap_err(), ParseError::MalformedHeader);
    assert_eq!(parse_map("0 2\n1.").unwrap_err(), ParseError::MalformedHeader);
    assert_eq!(parse_map("2 2 2\n1.").unwrap_err(), ParseError::MalformedHeader);
}

#[test]
fn missing_port_is_fatal() {
    assert_eq!(parse_map("....").unwrap_err(), ParseError::NoStartingPort);
    assert_eq!(parse_map("").unwrap_err(), ParseError::NoStartingPort);
    assert_eq!(parse_map("2 2\n....").unwrap_err(), ParseError::NoStartingPort);
}

#[test]
fn oversized_grid_is_fatal() {
    assert_eq!(
        parse_map("99999999 99999999\n1.").unwrap_err(),
        ParseError::MapTooLarge
    );
    assert_eq!(parse_map(&format!("{} 2\n1.", MAX_CELLS)).unwrap_err(), ParseError::MapTooLarge);
}

#[test]
fn rows_beyond_declared_height_are_ignored() {
    let (map, _) = parse_map("2 1\n1.\n22").unwrap();
    assert_eq!(map.height(), 1);
    assert_eq!(map.cell_at(Pos(0, 1)), None);
}

#[test]
fn trader_parse_rejects_what_map_parse_rejects() {
    assert_eq!(
        PhoenicianTrader::parse("1.,").unwrap_err(),
        ParseError::InvalidCharacter
    );
    assert_eq!(
        PhoenicianTrader::parse("a b\n1.").unwrap_err(),
        ParseError::MalformedHeader
    );
}
