use advent_puzzles::almanac::{Almanac, Interval, Mapping, MappingTable, ParseError, Seeds};

const EXAMPLE: &str = "seeds: 79 14 55 13

seed-to-soil map:
50 98 2
52 50 48

soil-to-fertilizer map:
0 15 37
37 52 2
39 0 15

fertilizer-to-water map:
49 53 8
0 11 42
42 0 7
57 7 4

water-to-light map:
88 18 7
18 25 70

light-to-temperature map:
45 77 23
81 45 19
68 64 13

temperature-to-humidity map:
0 69 1
1 0 69

humidity-to-location map:
60 56 37
56 93 4
";

const SEED_TO_SOIL: &str = "seed-to-soil map:\n50 98 2\n52 50 48";

#[test]
fn it_parses_mapping() {
    assert_eq!(
        Mapping::from_str("2 4 2"),
        Ok(Mapping {
            dest: Interval { start: 2, end: 4 },
            src: Interval { start: 4, end: 6 }
        })
    )
}

#[test]
fn it_maps_correctly() {
    let cases: [((u64, u64, u64), u64, Option<u64>); 5] = [
        ((50, 98, 2), 98, Some(50)),
        ((50, 98, 2), 99, Some(51)),
        ((50, 98, 2), 100, None),
        ((50, 98, 2), 17, None),
        ((50, 98, 0), 98, None),
    ];
    for ((dst, src, len), from, to) in cases {
        let mapping = Mapping::new(dst, src, len);
        assert_eq!(mapping.map(from), to);
    }
}

#[test]
fn it_constructs_mapping_table() {
    let table = MappingTable {
        from_label: String::from("seed"),
        to_label: String::from("soil"),
        mappings: vec![Mapping::new(50, 98, 2), Mapping::new(52, 50, 48)],
    };

    assert_eq!(MappingTable::from_str(SEED_TO_SOIL), Ok(table));
}

#[test]
fn it_maps_with_table() {
    let table = MappingTable::from_str(SEED_TO_SOIL).unwrap();
    assert_eq!(table.map(98), 50);
    assert_eq!(table.map(56), 58);
    assert_eq!(table.map(17), 17);
}

#[test]
fn it_solves_part_1_example() {
    let almanac = Almanac::from_str(EXAMPLE).unwrap();
    let locations = almanac.get_mapped_seeds();

    assert_eq!(*locations.iter().min().unwrap(), 35);
}

#[test]
fn seed_to_soil_scenario() {
    let table = MappingTable::from_str(SEED_TO_SOIL).unwrap();
    assert_eq!(table.map(98), 50);
    assert_eq!(table.map(99), 51);
    assert_eq!(table.map(53), 55);
    assert_eq!(table.map(10), 10);
}

#[test]
fn example_locations_in_seed_order() {
    let almanac = Almanac::from_str(EXAMPLE).unwrap();
    assert_eq!(almanac.seeds, Seeds(vec![79, 14, 55, 13]));
    assert_eq!(almanac.mapping_tables.len(), 7);
    assert_eq!(almanac.mapping_tables[6].from_label, "humidity");
    assert_eq!(almanac.mapping_tables[6].to_label, "location");
    assert_eq!(almanac.get_mapped_seeds(), vec![82, 43, 86, 35]);
    assert_eq!(almanac.lowest_location(), Ok(35));
}

#[test]
fn carriage_returns_and_trailing_blank_lines_are_tolerated() {
    let text = EXAMPLE.replace('\n', "\r\n") + "\r\n\r\n";
    let almanac = Almanac::from_str(&text).unwrap();
    assert_eq!(almanac.get_mapped_seeds(), vec![82, 43, 86, 35]);
}

#[test]
fn mapping_edges_are_exact() {
    let m = Mapping::new(10, 20, 5);
    assert_eq!(m.map(20), Some(10));
    assert_eq!(m.map(24), Some(14));
    assert_eq!(m.map(19), None);
    assert_eq!(m.map(25), None);
}

#[test]
fn mapping_reaches_the_top_of_u64() {
    let m = Mapping::new(u64::MAX - 1, 0, 1);
    assert_eq!(m.map(0), Some(u64::MAX - 1));
    assert_eq!(Mapping::from_str("18446744073709551615 0 1"), Err(ParseError::MalformedMapping { table: 0, row: 0 }));
    assert_eq!(Mapping::from_str("0 18446744073709551615 0"), Ok(Mapping::new(0, u64::MAX, 0)));
}

#[test]
fn unmatched_values_pass_through() {
    let table = MappingTable::from_str("a-to-b map:\n100 0 10\n200 50 10").unwrap();
    for v in [10u64, 49, 60, 1000, u64::MAX] {
        assert_eq!(table.map(v), v);
    }
    let empty = MappingTable::from_str("a-to-b map:").unwrap();
    assert!(empty.mappings.is_empty());
    assert_eq!(empty.map(7), 7);
}

#[test]
fn first_declared_range_wins() {
    let table = MappingTable::from_str("a-to-b map:\n100 0 10\n200 5 10").unwrap();
    assert_eq!(table.map(7), 107);
    assert_eq!(table.map(12), 207);
}

#[test]
fn tables_apply_in_document_order() {
    let text = "seeds: 1 5\n\na-to-b map:\n10 0 3\n\nb-to-c map:\n0 10 1\n";
    let almanac = Almanac::from_str(text).unwrap();
    let t0 = &almanac.mapping_tables[0];
    let t1 = &almanac.mapping_tables[1];
    assert_eq!(almanac.get_mapped_seeds(), vec![t1.map(t0.map(1)), t1.map(t0.map(5))]);
    assert_eq!(almanac.get_mapped_seeds(), vec![11, 5]);
    let swapped = "seeds: 1 5\n\nb-to-c map:\n0 10 1\n\na-to-b map:\n10 0 3\n";
    assert_eq!(Almanac::from_str(swapped).unwrap().get_mapped_seeds(), vec![11, 5]);
    let other = "seeds: 0\n\na-to-b map:\n10 0 3\n\nb-to-c map:\n0 10 1\n";
    assert_eq!(Almanac::from_str(other).unwrap().get_mapped_seeds(), vec![0]);
    let other_swapped = "seeds: 0\n\nb-to-c map:\n0 10 1\n\na-to-b map:\n10 0 3\n";
    assert_eq!(Almanac::from_str(other_swapped).unwrap().get_mapped_seeds(), vec![10]);
}

#[test]
fn rendered_table_parses_back() {
    let direct = MappingTable {
        from_label: String::from("water"),
        to_label: String::from("light"),
        mappings: vec![Mapping::new(88, 18, 7), Mapping::new(18, 25, 70)],
    };
    let text = direct.to_text();
    assert_eq!(text, "water-to-light map:\n88 18 7\n18 25 70");
    let parsed = MappingTable::from_str(&text).unwrap();
    assert_eq!(parsed, direct);
    for v in [0u64, 17, 18, 24, 25, 81, 94, 95, 100] {
        assert_eq!(parsed.map(v), direct.map(v));
    }
}

#[test]
fn lowest_location_of_no_seed_is_empty_input() {
    let almanac = Almanac::from_str("seeds:\n\na-to-b map:\n1 2 3\n").unwrap();
    assert_eq!(almanac.lowest_location(), Err(ParseError::EmptyInput));
}

#[test]
fn lowest_location_of_one_seed_is_its_location() {
    let almanac = Almanac::from_str("seeds: 3\n\na-to-b map:\n10 2 3\n").unwrap();
    assert_eq!(almanac.lowest_location(), Ok(11));
}

#[test]
fn parse_errors() {
    assert_eq!(Almanac::from_str(""), Err(ParseError::EmptyInput));
    assert_eq!(Almanac::from_str("\n\n\n"), Err(ParseError::EmptyInput));
    assert_eq!(Almanac::from_str("seeds 1 2"), Err(ParseError::MalformedSeeds { token: None }));
    assert_eq!(Almanac::from_str("seeds: 1 x"), Err(ParseError::MalformedSeeds { token: Some(1) }));
    assert_eq!(
        Almanac::from_str("seeds: 1\n\nseed soil map:\n1 2 3"),
        Err(ParseError::MalformedHeader { table: 0 })
    );
    assert_eq!(
        Almanac::from_str("seeds: 1\n\na-to-b map:\n1 2\n\nbad header\n"),
        Err(ParseError::MalformedMapping { table: 0, row: 1 })
    );
    assert_eq!(
        Almanac::from_str("seeds: 1\n\na-to-b map:\n1 2 3\n\nb-to-c map:\n1 2 3\n4 5\n"),
        Err(ParseError::MalformedMapping { table: 1, row: 2 })
    );
    assert_eq!(Mapping::from_str("1 2 3 4"), Err(ParseError::MalformedMapping { table: 0, row: 0 }));
    assert_eq!(Mapping::from_str("1 -2 3"), Err(ParseError::MalformedMapping { table: 0, row: 0 }));
    assert_eq!(MappingTable::from_str("a-to-b map:\n1 2 x"), Err(ParseError::MalformedMapping { table: 0, row: 1 }));
    assert_eq!(Seeds::from_str("seeds: 4 5 6"), Ok(Seeds(vec![4, 5, 6])));
    assert_eq!(Seeds::from_str("seeds 4"), Err(ParseError::MalformedSeeds { token: None }));
}

#[test]
fn header_labels_are_split_at_the_separator() {
    let t = MappingTable::from_str("light-to-temperature map:\n1 2 3").unwrap();
    assert_eq!(t.from_label, "light");
    assert_eq!(t.to_label, "temperature");
    let bare = MappingTable::from_str("x-to-y").unwrap();
    assert_eq!(bare.to_label, "y");
}

#[test]
fn numbers_may_carry_a_plus_sign() {
    assert_eq!(Mapping::from_str("+1 2 +3"), Ok(Mapping::new(1, 2, 3)));
    assert_eq!(Mapping::from_str("+ 1 2 3"), Err(ParseError::MalformedMapping { table: 0, row: 0 }));
    assert_eq!(Mapping::from_str("++1 2 3"), Err(ParseError::MalformedMapping { table: 0, row: 0 }));
    assert_eq!(Seeds::from_str(":+5 6"), Ok(Seeds(vec![5, 6])));
    let almanac = Almanac::from_str("seeds: +79\n\na-to-b map:\n+1 +79 +1\n").unwrap();
    assert_eq!(almanac.get_mapped_seeds(), vec![1]);
}

#[test]
fn each_blank_line_ends_a_section() {
    assert_eq!(Almanac::from_str(":\n\n\n-to-"), Err(ParseError::MalformedHeader { table: 0 }));
    assert_eq!(
        Almanac::from_str("seeds: 1\n\n\na-to-b map:\n1 2 3"),
        Err(ParseError::MalformedHeader { table: 0 })
    );
    assert_eq!(
        Almanac::from_str("\nseeds: 1\n\na-to-b map:\n1 2 3"),
        Err(ParseError::MalformedSeeds { token: None })
    );
    let ok = Almanac::from_str("seeds: 1\n\na-to-b map:\n1 2 3\n\n\n\n").unwrap();
    assert_eq!(ok.mapping_tables.len(), 1);
}
