use crate::beat_solver::{beaters, lemma_responses_from_pool, responses};
use crate::beat_solver_cards::{
    card_suites, has_suite, lowest_card, lowest_power_card, shuffle_respecting_power, suites_of,
    tiers_descending,
};
use crate::game_types::{Card, Game, SolveError, Suite};
use vstd::prelude::*;

verus! {

broadcast use vstd::seq_lib::group_to_multiset_ensures;

/// The answer to two prepared decks: the responses of the AI deck to the
/// human deck are computed, and the last of them is the suite to play now;
/// the card played is the lowest-power AI card of that suite.
pub open spec fn solve_result(ai: Seq<Card>, human: Seq<Card>) -> Result<Card, SolveError> {
    if human.len() != ai.len() {
        Err(SolveError::UnequalLength)
    } else {
        let rs = responses(suites_of(human), suites_of(ai));
        if rs.len() == 0 {
            Err(SolveError::NoResponse)
        } else {
            match lowest_card(ai, rs.last()) {
                Some(c) => Ok(c),
                None => Err(SolveError::NoCardOfSuite(rs.last())),
            }
        }
    }
}

/// The card to play, given the two decks already in the order in which
/// they are matched. It is found exactly when the decks have the same,
/// non-zero length.
pub fn choose_card(ai_cards: &Vec<Card>, human_cards: &Vec<Card>) -> (r: Result<Card, SolveError>)
    ensures
        r == solve_result(ai_cards@, human_cards@),
        human_cards@.len() != ai_cards@.len() <==> r == Err::<Card, SolveError>(
            SolveError::UnequalLength,
        ),
        human_cards@.len() == ai_cards@.len() && ai_cards@.len() == 0 <==> r == Err::<
            Card,
            SolveError,
        >(SolveError::NoResponse),
        human_cards@.len() == ai_cards@.len() && ai_cards@.len() > 0 ==> r is Ok,
        r is Ok ==> ai_cards@.contains(r->Ok_0),
{
    let human_suites = card_suites(human_cards);
    let ai_suites = card_suites(ai_cards);
    let beater_suites = match beaters(&human_suites, &ai_suites) {
        Ok(v) => v,
        Err(e) => {
            return Err(e);
        },
    };
    proof {
        lemma_responses_from_pool(human_suites@, ai_suites@);
    }
    if beater_suites.len() == 0 {
        return Err(SolveError::NoResponse);
    }
    // the last response is the move to commit to now
    let beater_suite: Suite = beater_suites[beater_suites.len() - 1];
    proof {
        let k = beater_suites@.len() - 1;
        assert(beater_suites@.last() == beater_suites@[k]);
        assert(ai_suites@.contains(beater_suites@[k]));
        let j = choose|j: int| 0 <= j < ai_suites@.len() && ai_suites@[j] == beater_suite;
        assert(ai_cards@[j].suite == beater_suite);
        assert(has_suite(ai_cards@, beater_suite));
    }
    match lowest_power_card(ai_cards, beater_suite) {
        None => Err(SolveError::NoCardOfSuite(beater_suite)),
        Some(card) => {
            proof {
                let i = choose|i: int|
                    crate::beat_solver_cards::is_lowest_index(ai_cards@, beater_suite, i)
                        && ai_cards@[i] == card;
                assert(ai_cards@[i] == card);
            }
            Ok(card)
        },
    }
}

/// The card that the AI side plays against the human side: both decks are
/// shuffled within their power tiers, and the card is then chosen from them
/// as `choose_card` does. Which card comes out depends on the shuffles; it
/// is always one of the AI deck, and one is found exactly when the decks
/// have the same, non-zero length.
pub fn solve(game: &Game) -> (r: Result<Card, SolveError>)
    ensures
        exists|ai: Seq<Card>, human: Seq<Card>|
            {
                &&& ai.to_multiset() == game.ai_cards@.to_multiset()
                &&& human.to_multiset() == game.human_cards@.to_multiset()
                &&& tiers_descending(ai)
                &&& tiers_descending(human)
                &&& r == #[trigger] solve_result(ai, human)
            },
        game.human_cards@.len() != game.ai_cards@.len() <==> r == Err::<Card, SolveError>(
            SolveError::UnequalLength,
        ),
        game.human_cards@.len() == game.ai_cards@.len() && game.ai_cards@.len() == 0 <==> r
            == Err::<Card, SolveError>(SolveError::NoResponse),
        game.human_cards@.len() == game.ai_cards@.len() && game.ai_cards@.len() > 0 ==> r is Ok,
        r is Ok ==> game.ai_cards@.contains(r->Ok_0),
{
    let ai_cards = shuffle_respecting_power(&game.ai_cards);
    let human_cards = shuffle_respecting_power(&game.human_cards);
    let r = choose_card(&ai_cards, &human_cards);
    proof {
        assert(ai_cards@.len() == game.ai_cards@.len()) by {
            assert(ai_cards@.to_multiset().len() == game.ai_cards@.to_multiset().len());
        }
        assert(human_cards@.len() == game.human_cards@.len()) by {
            assert(human_cards@.to_multiset().len() == game.human_cards@.to_multiset().len());
        }
        if r is Ok {
            let c = r->Ok_0;
            assert(ai_cards@.contains(c));
            assert(ai_cards@.to_multiset().count(c) > 0);
            assert(game.ai_cards@.to_multiset().count(c) > 0);
        }
        assert(r == solve_result(ai_cards@, human_cards@));
    }
    r
}

} // verus!
