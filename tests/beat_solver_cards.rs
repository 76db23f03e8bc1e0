use bb_gamebot_rs::game_types::Suite::{Paper, Rock, Scissors};
use bb_gamebot_rs::beat_solver_cards::{card_suites, lowest_power_card, shuffle_respecting_power};
use bb_gamebot_rs::game_types::{Card, Suite};

fn card(id: &str, suite: Suite, power: isize) -> Card {
    Card { id: id.into(), suite, power }
}

fn sorted_keys(cc: &[Card]) -> Vec<(String, isize, String)> {
    let mut v: Vec<(String, isize, String)> =
        cc.iter().map(|c| (format!("{:?}", c.suite), c.power, c.id.clone())).collect();
    v.sort();
    v
}

#[test]
fn test_shuffle_respecting_power() {
    let cc = vec![
        Card { id: "1".into(), suite: Paper, power: 1 },
        Card { id: "2".into(), suite: Paper, power: 2 },
        Card { id: "3".into(), suite: Scissors, power: 1 },
        Card { id: "4".into(), suite: Rock, power: 8 },
    ];
    let cc1 = shuffle_respecting_power(&cc);
    assert_eq!(cc1[0], Card { id: "4".into(), suite: Rock, power: 8 });
    assert_ne!(cc1, cc);
}

#[test]
fn test_lowest_power_card() {
    let cc = vec![
        Card { id: "4".into(), suite: Paper, power: 5 },
        Card { id: "2".into(), suite: Paper, power: 2 },
        Card { id: "4".into(), suite: Paper, power: 2 },
        Card { id: "1".into(), suite: Paper, power: 1 },
    ];
    assert_eq!(
        lowest_power_card(&cc, Paper),
        Some(Card { id: "1".into(), suite: Paper, power: 1 })
    );
    assert_eq!(lowest_power_card(&cc, Scissors), None);
}

#[test]
fn lowest_power_card_ties_go_to_first() {
    let cc = vec![
        card("a", Rock, 4),
        card("b", Paper, 2),
        card("c", Rock, 2),
        card("d", Rock, 2),
        card("e", Paper, 1),
    ];
    assert_eq!(lowest_power_card(&cc, Rock), Some(card("c", Rock, 2)));
    assert_eq!(lowest_power_card(&cc, Paper), Some(card("e", Paper, 1)));
    assert_eq!(lowest_power_card(&vec![], Rock), None);
}

#[test]
fn card_suites_in_order() {
    let cc = vec![card("1", Scissors, 1), card("2", Rock, 8), card("3", Scissors, 2)];
    assert_eq!(card_suites(&cc), vec![Scissors, Rock, Scissors]);
    assert_eq!(card_suites(&vec![]), vec![]);
}

#[test]
fn shuffle_is_a_permutation_in_tier_order() {
    let cc = vec![
        card("1", Rock, 1),
        card("2", Paper, 5),
        card("3", Scissors, 8),
        card("4", Rock, 2),
        card("5", Paper, 4),
        card("6", Scissors, 1),
        card("7", Rock, 8),
        card("8", Paper, 3),
    ];
    let tier = |p: isize| match p {
        8 => 3,
        4 => 2,
        1 => 0,
        _ => 1,
    };
    for _ in 0..20 {
        let out = shuffle_respecting_power(&cc);
        assert_eq!(sorted_keys(&out), sorted_keys(&cc));
        for w in out.windows(2) {
            assert!(tier(w[0].power) >= tier(w[1].power));
        }
        assert_eq!(out[0].power, 8);
        assert_eq!(out[1].power, 8);
        assert_eq!(out[2].power, 4);
        assert_eq!(out[6].power, 1);
        assert_eq!(out[7].power, 1);
    }
}

#[test]
fn shuffle_of_empty_is_empty() {
    assert_eq!(shuffle_respecting_power(&vec![]), vec![]);
}

#[test]
fn shuffle_reorders_within_a_tier() {
    let cc: Vec<Card> = (0..12).map(|i| card(&format!("{}", i), Rock, 2)).collect();
    let mut moved = false;
    for _ in 0..5 {
        if shuffle_respecting_power(&cc) != cc {
            moved = true;
        }
    }
    assert!(moved);
}
