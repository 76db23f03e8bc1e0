use bb_gamebot_rs::game_types::Suite::{Paper, Rock, Scissors};
use bb_gamebot_rs::game_types::{Card, Game, SolveError, Suite};
use bb_gamebot_rs::solver::{choose_card, solve};

fn card(id: &str, suite: Suite, power: isize) -> Card {
    Card { id: id.into(), suite, power }
}

#[test]
fn choose_card_takes_last_response_and_lowest_power() {
    // responses to [Rock, Paper, Scissors] from [Rock, Paper, Scissors]
    // are [Paper, Scissors, Rock]: the last one is Rock
    let ai = vec![card("r8", Rock, 8), card("p1", Paper, 1), card("s1", Scissors, 1), card("r2", Rock, 2)];
    let human = vec![card("h1", Rock, 1), card("h2", Paper, 1), card("h3", Scissors, 1), card("h4", Paper, 1)];
    // responses to [Rock, Paper, Scissors, Paper] from [Rock, Paper, Scissors, Rock]
    // are [Paper, Scissors, Rock, Rock]
    assert_eq!(choose_card(&ai, &human), Ok(card("r2", Rock, 2)));
}

#[test]
fn choose_card_errors() {
    assert_eq!(choose_card(&vec![], &vec![]), Err(SolveError::NoResponse));
    assert_eq!(
        choose_card(&vec![card("a", Rock, 1)], &vec![]),
        Err(SolveError::UnequalLength)
    );
}

#[test]
fn solve_errors() {
    let empty = Game { id: "g".into(), ai_cards: vec![], human_cards: vec![] };
    assert_eq!(solve(&empty), Err(SolveError::NoResponse));
    let unequal = Game {
        id: "g".into(),
        ai_cards: vec![card("a", Rock, 1), card("b", Paper, 1)],
        human_cards: vec![card("c", Rock, 1)],
    };
    assert_eq!(solve(&unequal), Err(SolveError::UnequalLength));
}

#[test]
fn solve_twice_gives_cards_of_the_ai_deck() {
    let game = Game {
        id: "g".into(),
        ai_cards: vec![card("a1", Rock, 1), card("a2", Paper, 4), card("a3", Scissors, 8), card("a4", Paper, 2)],
        human_cards: vec![card("h1", Paper, 1), card("h2", Paper, 2), card("h3", Rock, 8), card("h4", Scissors, 1)],
    };
    for _ in 0..2 {
        let c = solve(&game).unwrap();
        assert!(game.ai_cards.contains(&c));
    }
}

#[test]
fn solve_single_cards() {
    let game = Game {
        id: "g".into(),
        ai_cards: vec![card("mine", Scissors, 4)],
        human_cards: vec![card("theirs", Rock, 1)],
    };
    assert_eq!(solve(&game).map(|c| c.id), Ok("mine".to_string()));
}
