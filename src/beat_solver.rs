use crate::game_types::{SolveError, Suite};
use vstd::prelude::*;

verus! {

/// The suite that defeats `s`: Paper beats Rock, Scissors beats Paper,
/// Rock beats Scissors.
pub open spec fn beater_of(s: Suite) -> Suite {
    match s {
        Suite::Paper => Suite::Scissors,
        Suite::Rock => Suite::Paper,
        Suite::Scissors => Suite::Rock,
    }
}

/// `i` is the position of the first `s` in `d`.
pub open spec fn is_first_index(d: Seq<Suite>, s: Suite, i: int) -> bool {
    &&& 0 <= i < d.len()
    &&& d[i] == s
    &&& forall|j: int| 0 <= j < i ==> d[j] != s
}

/// The position of the first `s` in `d` (meaningful when `d` contains `s`).
pub open spec fn first_index(d: Seq<Suite>, s: Suite) -> int {
    choose|i: int| is_first_index(d, s, i)
}

/// `d` without its first occurrence of `s`, the rest in the same order.
pub open spec fn remove_first(d: Seq<Suite>, s: Suite) -> Seq<Suite> {
    d.remove(first_index(d, s))
}

/// One step of the match engine against the opponent suite `o`: the response
/// and the pool that is left. A direct counter comes first, then the same
/// suite, and otherwise the front of the pool is discarded.
pub open spec fn respond_step(o: Suite, pool: Seq<Suite>) -> (Suite, Seq<Suite>) {
    let b = beater_of(o);
    if pool.contains(b) {
        (b, remove_first(pool, b))
    } else if pool.contains(o) {
        (o, remove_first(pool, o))
    } else {
        (pool[0], pool.drop_first())
    }
}

/// The responses to the opponent suites `opp`, in order, each one consuming
/// one suite of `pool`.
pub open spec fn responses(opp: Seq<Suite>, pool: Seq<Suite>) -> Seq<Suite>
    decreases opp.len(),
{
    if opp.len() == 0 {
        Seq::empty()
    } else {
        let (r, rest) = respond_step(opp[0], pool);
        seq![r] + responses(opp.drop_first(), rest)
    }
}

/// The first-index characterisation pins down `first_index`.
pub proof fn lemma_first_index(d: Seq<Suite>, s: Suite, i: int)
    requires
        is_first_index(d, s, i),
    ensures
        first_index(d, s) == i,
{
    let k = first_index(d, s);
    assert(is_first_index(d, s, k));
    if k < i {
        assert(d[k] == s);
    } else if k > i {
        assert(d[i] == s);
    }
}

/// A suite that occurs in `d` has a first occurrence.
pub proof fn lemma_first_exists(d: Seq<Suite>, s: Suite)
    requires
        d.contains(s),
    ensures
        is_first_index(d, s, first_index(d, s)),
    decreases d.len(),
{
    if d[0] == s {
        assert(is_first_index(d, s, 0));
    } else {
        let j = choose|j: int| 0 <= j < d.len() && d[j] == s;
        let t = d.drop_first();
        assert(t[j - 1] == s);
        lemma_first_exists(t, s);
        let k = first_index(t, s);
        assert forall|m: int| 0 <= m < k + 1 implies d[m] != s by {
            if m > 0 {
                assert(d[m] == t[m - 1]);
            }
        }
        assert(is_first_index(d, s, k + 1));
    }
}

/// The suites removed from a pool while responding come from the pool:
/// each response is a suite that the pool held.
pub proof fn lemma_responses_from_pool(opp: Seq<Suite>, pool: Seq<Suite>)
    requires
        opp.len() <= pool.len(),
    ensures
        responses(opp, pool).len() == opp.len(),
        forall|k: int|
            0 <= k < opp.len() ==> pool.contains(#[trigger] responses(opp, pool)[k]),
    decreases opp.len(),
{
    if opp.len() > 0 {
        let o = opp[0];
        let b = beater_of(o);
        let (r, rest) = respond_step(o, pool);
        assert(pool.contains(r) && rest.len() == pool.len() - 1
            && forall|x: Suite| rest.contains(x) ==> pool.contains(x)) by {
            if pool.contains(b) {
                lemma_first_exists(pool, b);
            } else if pool.contains(o) {
                lemma_first_exists(pool, o);
            } else {
                assert(pool.contains(pool[0]));
            }
            let s = if pool.contains(b) { b } else { o };
            assert forall|x: Suite| rest.contains(x) implies pool.contains(x) by {
                let j = choose|j: int| 0 <= j < rest.len() && rest[j] == x;
                if pool.contains(b) || pool.contains(o) {
                    let f = first_index(pool, s);
                    if j < f {
                        assert(pool[j] == x);
                    } else {
                        assert(pool[j + 1] == x);
                    }
                } else {
                    assert(pool[j + 1] == x);
                }
            }
        }
        lemma_responses_from_pool(opp.drop_first(), rest);
        let tail = responses(opp.drop_first(), rest);
        assert forall|k: int| 0 <= k < opp.len() implies pool.contains(
            #[trigger] responses(opp, pool)[k],
        ) by {
            if k > 0 {
                assert(responses(opp, pool)[k] == tail[k - 1]);
                assert(rest.contains(tail[k - 1]));
            }
        }
    }
}

/// The dominance relation is a bijection of period three without fixed
/// points: every suite is beaten by exactly one suite, and beats another.
pub proof fn lemma_beater_cycle(x: Suite, y: Suite)
    ensures
        beater_of(beater_of(beater_of(x))) == x,
        beater_of(x) != x,
        beater_of(x) == beater_of(y) ==> x == y,
        exists|z: Suite| beater_of(z) == x,
{
    assert(beater_of(beater_of(beater_of(x))) == x);
}

/// The suite that defeats `suite`.
pub fn beater(suite: Suite) -> (r: Suite)
    ensures
        r == beater_of(suite),
{
    match suite {
        Suite::Paper => Suite::Scissors,
        Suite::Rock => Suite::Paper,
        Suite::Scissors => Suite::Rock,
    }
}

/// Takes the first `suite` out of `deck`: returns it with the deck that is
/// left, or `None` with the deck unchanged where there is none.
pub fn peek_card(suite: Suite, deck: &[Suite]) -> (r: (Option<Suite>, Vec<Suite>))
    ensures
        deck@.contains(suite) ==> r.0 == Some(suite) && r.1@ == remove_first(deck@, suite)
            && r.1@.len() == deck@.len() - 1,
        !deck@.contains(suite) ==> r.0 == None::<Suite> && r.1@ == deck@,
{
    let mut deck1: Vec<Suite> = Vec::new();
    let mut i: usize = 0;
    while i < deck.len()
        invariant
            i <= deck@.len(),
            deck1@ == deck@.subrange(0, i as int),
        decreases deck@.len() - i,
    {
        deck1.push(deck[i]);
        i += 1;
    }
    assert(deck1@ =~= deck@);
    let mut ix: usize = 0;
    while ix < deck.len()
        invariant
            ix <= deck@.len(),
            deck1@ == deck@,
            forall|j: int| 0 <= j < ix ==> deck@[j] != suite,
        decreases deck@.len() - ix,
    {
        if deck[ix] == suite {
            proof {
                lemma_first_index(deck@, suite, ix as int);
            }
            deck1.remove(ix);
            return (Some(suite), deck1);
        }
        ix += 1;
    }
    (None, deck1)
}

/// For each opponent suite, in order, the response suite taken from `my`
/// (see `respond_step`). The two sequences must have equal lengths.
pub fn beaters(opponent: &Vec<Suite>, my: &Vec<Suite>) -> (r: Result<Vec<Suite>, SolveError>)
    ensures
        match r {
            Ok(v) => opponent@.len() == my@.len() && v@ == responses(opponent@, my@)
                && v@.len() == opponent@.len(),
            Err(e) => opponent@.len() != my@.len() && e == SolveError::UnequalLength,
        },
{
    if opponent.len() != my.len() {
        return Err(SolveError::UnequalLength);
    }
    let n = opponent.len();
    let mut ret: Vec<Suite> = Vec::with_capacity(n);
    let mut pool: Vec<Suite> = Vec::new();
    let mut k: usize = 0;
    while k < n
        invariant
            n == my@.len(),
            k <= n,
            pool@ == my@.subrange(0, k as int),
        decreases n - k,
    {
        pool.push(my[k]);
        k += 1;
    }
    assert(pool@ =~= my@);
    assert(opponent@.subrange(0, n as int) =~= opponent@);
    assert(ret@ + responses(opponent@, my@) =~= responses(opponent@, my@));
    let mut i: usize = 0;
    while i < n
        invariant
            n == opponent@.len(),
            i <= n,
            pool@.len() == n - i,
            ret@ + responses(opponent@.subrange(i as int, n as int), pool@) == responses(
                opponent@,
                my@,
            ),
        decreases n - i,
    {
        let op_card = opponent[i];
        let ghost old_ret = ret@;
        let ghost old_pool = pool@;
        let ghost rest_opp = opponent@.subrange(i as int, n as int);
        assert(rest_opp[0] == op_card);
        assert(rest_opp.drop_first() =~= opponent@.subrange(i + 1, n as int));
        let (found, pool1) = peek_card(beater(op_card), pool.as_slice());
        match found {
            Some(s) => {
                ret.push(s);
                pool = pool1;
            },
            None => {
                let (found2, pool2) = peek_card(op_card, pool.as_slice());
                match found2 {
                    Some(s) => {
                        ret.push(s);
                        pool = pool2;
                    },
                    None => {
                        // no counter and no mirror: discard the front of the pool
                        let s = pool.remove(0);
                        assert(pool@ =~= old_pool.drop_first());
                        ret.push(s);
                    },
                }
            },
        }
        let ghost step = respond_step(op_card, old_pool);
        assert(ret@ == old_ret.push(step.0));
        assert(pool@ == step.1);
        assert(ret@ + responses(opponent@.subrange(i + 1, n as int), pool@) =~= old_ret + (seq![
            step.0,
        ] + responses(opponent@.subrange(i + 1, n as int), pool@)));
        i += 1;
    }
    assert(ret@ + responses(opponent@.subrange(n as int, n as int), pool@) =~= ret@);
    proof {
        lemma_responses_from_pool(opponent@, my@);
    }
    Ok(ret)
}

} // verus!
