use advent_puzzles::schematic::{part_1, Location, Number, ParseSchematicError, Schematic};

fn symbols(items: &[(usize, usize, &str)]) -> Vec<(Location, String)> {
    items.iter().map(|(l, i, s)| (Location::new(*l, *i), String::from(*s))).collect()
}

#[test]
fn it_parses_numbers() {
    const INPUT: &str = "...123..34..5..78";

    let schm = Schematic::from_str(INPUT).unwrap();

    let expect = vec![
        Number::new(123, 0, 3),
        Number::new(34, 0, 8),
        Number::new(5, 0, 12),
        Number::new(78, 0, 15),
    ];

    assert_eq!(schm.numbers, expect);
}

#[test]
fn it_parses_symbols() {
    const INPUT: &str = "...*123..#.4$";

    let schm = Schematic::from_str(INPUT).unwrap();

    let expect = symbols(&[(0, 3, "*"), (0, 9, "#"), (0, 12, "$")]);

    assert_eq!(schm.symbols, expect);
}

#[test]
fn it_parses_both() {
    const INPUT: &str = "...*123..#.4$";

    let schm = Schematic::from_str(INPUT).unwrap();

    let expect_num = vec![Number::new(123, 0, 4), Number::new(4, 0, 11)];
    let expect_sym = symbols(&[(0, 3, "*"), (0, 9, "#"), (0, 12, "$")]);

    let expect = Schematic { numbers: expect_num, symbols: expect_sym };

    assert_eq!(schm, expect);
}

#[test]
fn it_solves_part_1() {
    const INPUT: &str = "467..114..\n...*......\n..35..633.\n......#...\n617*......\n.....+.58.\n..592.....\n......755.\n...$.*....\n.664.598..";

    assert_eq!(part_1(INPUT).unwrap(), 4361);
}

#[test]
fn adjacent_cells_of_a_number() {
    let n = Number::new(35, 2, 2);
    let cells = n.get_adjacent_locations();
    let mut expect: Vec<Location> = (1..=4).map(|i| Location::new(1, i)).collect();
    expect.push(Location::new(2, 1));
    expect.push(Location::new(2, 4));
    expect.extend((1..=4).map(|i| Location::new(3, i)));
    assert_eq!(cells, expect);
    let corner = Number::new(7, 0, 0).get_adjacent_locations();
    assert_eq!(corner, vec![Location::new(0, 1), Location::new(1, 0), Location::new(1, 1)]);
}

#[test]
fn part_numbers_on_later_lines() {
    let schm = Schematic::from_str("1.2\n.*.\n..5\n9..").unwrap();
    assert_eq!(schm.numbers.len(), 4);
    assert_eq!(schm.find_part_numbers(), vec![1, 2, 5]);
}

#[test]
fn oversized_number_is_an_error() {
    assert_eq!(Schematic::from_str("99999999999*"), Err(ParseSchematicError));
    assert_eq!(part_1("4294967295*"), Ok(4294967295));
    assert_eq!(part_1("4294967295*1"), Err(ParseSchematicError));
}
