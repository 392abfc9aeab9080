use advent_puzzles::scratchcard::{calculate_won_cards, Card, CardNumber, ParseCardError};

const EXAMPLE_INPUT: &str = "Card 1: 41 48 83 86 17 | 83 86  6 31 17  9 48 53
Card 2: 13 32 20 16 61 | 61 30 68 82 17 32 24 19
Card 3:  1 21 53 59 44 | 69 82 63 72 16 21 14  1
Card 4: 41 92 73 84 69 | 59 84 76 51 58  5 54 83
Card 5: 87 83 26 28 32 | 88 30 70 12 93 22 82 36
Card 6: 31 18 13 56 72 | 74 77 10 23 35 67 36 11
";

fn example_cards() -> Vec<Card> {
    EXAMPLE_INPUT
        .lines()
        .map(Card::from_str)
        .collect::<Result<Vec<Card>, ParseCardError>>()
        .unwrap()
}

fn card_of(winning: &[u32], nums: &[u32]) -> Card {
    Card {
        number: 0,
        winning_numbers: winning.iter().enumerate().map(|(i, n)| CardNumber::new(*n, i)).collect(),
        card_numbers: nums.iter().enumerate().map(|(i, n)| CardNumber::new(*n, i)).collect(),
    }
}

#[test]
fn it_parses_line() {
    const INPUT: &str = "Card 1: 1 2 3 | 3 4 5";

    let expect = Card {
        number: 1,
        winning_numbers: vec![CardNumber::new(1, 0), CardNumber::new(2, 1), CardNumber::new(3, 2)],
        card_numbers: vec![CardNumber::new(3, 0), CardNumber::new(4, 1), CardNumber::new(5, 2)],
    };

    assert_eq!(Card::from_str(INPUT).unwrap(), expect);
}

#[test]
fn it_parses_line_with_multiple_whitespaces() {
    const INPUT: &str = "Card 1: 1 2 3 | 12 13  4";

    let expect = Card {
        number: 1,
        winning_numbers: vec![CardNumber::new(1, 0), CardNumber::new(2, 1), CardNumber::new(3, 2)],
        card_numbers: vec![
            CardNumber::new(12, 0),
            CardNumber::new(13, 1),
            CardNumber::new(4, 2),
        ],
    };

    assert_eq!(Card::from_str(INPUT), Ok(expect));
}

#[test]
fn it_calculates_points() {
    let cases: [(&[u32], &[u32], u32); 7] = [
        (&[1, 2], &[0], 0),
        (&[1, 2], &[1, 3, 4, 5], 1),
        (&[1, 2], &[1, 2], 2),
        (&[1, 2], &[1, 2, 2, 2, 3], 8),
        (&[41, 48, 83, 86, 17], &[83, 86, 6, 31, 17, 9, 48, 53], 8),
        (&[13, 32, 20, 16, 61], &[61, 30, 68, 82, 17, 32, 24, 19], 2),
        (&[87, 83, 26, 28, 32], &[88, 30, 70, 12, 93, 22, 82, 36], 0),
    ];
    for (winning, nums, points) in cases {
        assert_eq!(card_of(winning, nums).get_points(), points);
    }
}

#[test]
fn it_passes_part_1_example() {
    let cards = example_cards();
    assert_eq!(cards.iter().map(Card::get_points).sum::<u32>(), 13);
}

#[test]
fn it_passes_part_2_example() {
    let cards = example_cards();
    assert_eq!(calculate_won_cards(cards), Some(30));
}

#[test]
fn matching_numbers_keep_held_order() {
    let card = card_of(&[41, 48, 83, 86, 17], &[83, 86, 6, 31, 17, 9, 48, 53]);
    assert_eq!(card.get_matching_numbers(), vec![83, 86, 17, 48]);
}

#[test]
fn card_number_lists() {
    assert_eq!(
        CardNumber::vec_from_str(" 7  8 9 "),
        Ok(vec![CardNumber::new(7, 0), CardNumber::new(8, 1), CardNumber::new(9, 2)])
    );
    assert_eq!(CardNumber::vec_from_str(""), Ok(vec![]));
    assert_eq!(CardNumber::vec_from_str("1 x"), Err(ParseCardError));
}

#[test]
fn malformed_cards() {
    assert_eq!(Card::from_str("Card 1 1 2 | 3"), Err(ParseCardError));
    assert_eq!(Card::from_str("Card 1: 1 2 3"), Err(ParseCardError));
    assert_eq!(Card::from_str("Card: 1 | 2"), Err(ParseCardError));
    assert_eq!(Card::from_str("Card 1: 1 a | 2"), Err(ParseCardError));
}

#[test]
fn won_cards_overflow_is_reported() {
    let cards = vec![Card {
        number: u32::MAX,
        winning_numbers: vec![CardNumber::new(1, 0)],
        card_numbers: vec![CardNumber::new(1, 0)],
    }];
    assert_eq!(calculate_won_cards(cards), None);
    assert_eq!(calculate_won_cards(vec![]), Some(0));
}

#[test]
fn card_numbers_may_carry_a_plus_sign() {
    assert_eq!(CardNumber::vec_from_str("+1 2"), Ok(vec![CardNumber::new(1, 0), CardNumber::new(2, 1)]));
    assert_eq!(Card::from_str("Card +3: +1 | 1").unwrap().number, 3);
}
