use advent_puzzles::cube_game::{CubeSet, Game, ParseGameErr};

const EXAMPLE: &str = "Game 1: 3 blue, 4 red; 1 red, 2 green, 6 blue; 2 green
Game 2: 1 blue, 2 green; 3 green, 4 blue, 1 red; 1 green, 1 blue
Game 3: 8 green, 6 blue, 20 red; 5 blue, 4 red, 13 green; 5 green, 1 red
Game 4: 1 green, 3 red, 6 blue; 3 green, 6 red; 3 green, 15 blue, 14 red
Game 5: 6 red, 1 blue, 3 green; 2 blue, 1 red, 2 green
";

#[test]
fn parses_a_game() {
    let g = Game::from_str("Game 7: 3 blue, 4 red; 2 green").unwrap();
    assert_eq!(g.id, 7);
    assert_eq!(
        g.sets,
        vec![CubeSet { red: 4, green: 0, blue: 3 }, CubeSet { red: 0, green: 2, blue: 0 }]
    );
}

#[test]
fn rejects_malformed_games() {
    assert_eq!(Game::from_str("Game 1 3 blue"), Err(ParseGameErr));
    assert_eq!(Game::from_str("Round 1: 3 blue"), Err(ParseGameErr));
    assert_eq!(Game::from_str("Game 1: 3 purple"), Err(ParseGameErr));
    assert_eq!(CubeSet::from_str("3"), Err(ParseGameErr));
    assert_eq!(CubeSet::from_str(" 2 red , 5 blue"), Ok(CubeSet { red: 2, green: 0, blue: 5 }));
}

#[test]
fn solves_the_example() {
    let games = Game::parse_all(EXAMPLE).unwrap();
    assert_eq!(games.len(), 5);
    let bag = CubeSet { red: 12, green: 13, blue: 14 };
    let viable = Game::find_viable_for_set(&games, &bag);
    assert_eq!(viable.iter().map(|g| g.id).collect::<Vec<u32>>(), vec![1, 2, 5]);
    assert_eq!(Game::sum_ids(&viable), 8);
    let powers: u32 = games.iter().map(|g| g.find_min_set().get_power()).sum();
    assert_eq!(powers, 2286);
}

#[test]
fn min_set_of_game_one() {
    let g = Game::from_str("Game 1: 3 blue, 4 red; 1 red, 2 green, 6 blue; 2 green").unwrap();
    let m = g.find_min_set();
    assert_eq!(m, CubeSet { red: 4, green: 2, blue: 6 });
    assert_eq!(m.get_power(), 48);
    assert!(g.is_viable_with_set(&m));
    assert!(!g.is_viable_with_set(&CubeSet { red: 3, green: 2, blue: 6 }));
}

#[test]
fn title_must_be_game_and_id() {
    assert_eq!(Game::from_str("Game  5: 3 red"), Err(ParseGameErr));
    assert_eq!(Game::from_str("Game\t5: 3 red"), Err(ParseGameErr));
    assert_eq!(Game::from_str("Game 5 : 3 red"), Err(ParseGameErr));
    let g = Game::from_str("  Game 5: 3 red").unwrap();
    assert_eq!(g.id, 5);
    assert_eq!(g.sets, vec![CubeSet { red: 3, green: 0, blue: 0 }]);
}

#[test]
fn counts_and_ids_may_carry_a_plus_sign() {
    assert_eq!(CubeSet::from_str("+3 red"), Ok(CubeSet { red: 3, green: 0, blue: 0 }));
    let g = Game::from_str("Game +1: +2 blue").unwrap();
    assert_eq!(g.id, 1);
    assert_eq!(g.sets, vec![CubeSet { red: 0, green: 0, blue: 2 }]);
}
