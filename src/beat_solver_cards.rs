use crate::game_types::{Card, Suite};
use rand::seq::SliceRandom;
use vstd::prelude::*;

verus! {

broadcast use vstd::seq_lib::group_to_multiset_ensures;

/// The suites of `cc`, in the same order.
pub open spec fn suites_of(cc: Seq<Card>) -> Seq<Suite> {
    cc.map_values(|c: Card| c.suite)
}

/// `cc` holds a card of suite `s`.
pub open spec fn has_suite(cc: Seq<Card>, s: Suite) -> bool {
    exists|j: int| 0 <= j < cc.len() && #[trigger] cc[j].suite == s
}

/// `i` is the first card of suite `s` whose power is the least among the
/// cards of suite `s`.
pub open spec fn is_lowest_index(cc: Seq<Card>, s: Suite, i: int) -> bool {
    &&& 0 <= i < cc.len()
    &&& cc[i].suite == s
    &&& forall|j: int| 0 <= j < cc.len() && #[trigger] cc[j].suite == s ==> cc[i].power <= cc[j].power
    &&& forall|j: int| 0 <= j < i && #[trigger] cc[j].suite == s ==> cc[i].power < cc[j].power
}

/// The first card of suite `s` with the least power, if `cc` holds one.
pub open spec fn lowest_card(cc: Seq<Card>, s: Suite) -> Option<Card> {
    if exists|i: int| is_lowest_index(cc, s, i) {
        Some(cc[choose|i: int| is_lowest_index(cc, s, i)])
    } else {
        None
    }
}

/// The tier of a power: 8 is the top tier, then 4, then 2, and 1 is the
/// common tier; any other power counts as 2.
pub open spec fn tier_of(power: isize) -> int {
    if power == 8 {
        3
    } else if power == 4 {
        2
    } else if power == 1 {
        0
    } else {
        1
    }
}

/// Every card of `cc` is in tier `t`.
pub open spec fn all_in_tier(cc: Seq<Card>, t: int) -> bool {
    forall|k: int| 0 <= k < cc.len() ==> tier_of(#[trigger] cc[k].power) == t
}

/// No card of `cc` is in tier below `t`.
pub open spec fn all_at_least_tier(cc: Seq<Card>, t: int) -> bool {
    forall|k: int| 0 <= k < cc.len() ==> tier_of(#[trigger] cc[k].power) >= t
}

/// The cards of `cc` come in tiers from the top one down.
pub open spec fn tiers_descending(cc: Seq<Card>) -> bool {
    forall|i: int, j: int|
        0 <= i < j < cc.len() ==> tier_of(#[trigger] cc[i].power) >= tier_of(#[trigger] cc[j].power)
}

/// At most one index satisfies `is_lowest_index`.
pub proof fn lemma_lowest_unique(cc: Seq<Card>, s: Suite, i: int, k: int)
    requires
        is_lowest_index(cc, s, i),
        is_lowest_index(cc, s, k),
    ensures
        i == k,
{
    if i < k {
        assert(cc[i].suite == s);
    } else if k < i {
        assert(cc[k].suite == s);
    }
}

/// A permutation keeps the tier of every card.
pub proof fn lemma_tier_kept(a: Seq<Card>, b: Seq<Card>, t: int)
    requires
        a.to_multiset() == b.to_multiset(),
        all_in_tier(a, t),
    ensures
        all_in_tier(b, t),
{
    assert forall|k: int| 0 <= k < b.len() implies tier_of(#[trigger] b[k].power) == t by {
        assert(b.contains(b[k]));
        assert(b.to_multiset().count(b[k]) > 0);
        assert(a.to_multiset().count(b[k]) > 0);
        assert(a.contains(b[k]));
        let j = choose|j: int| 0 <= j < a.len() && a[j] == b[k];
        assert(tier_of(a[j].power) == t);
    }
}

/// Appending a tier below the tiers already placed keeps them descending.
pub proof fn lemma_append_tier(a: Seq<Card>, b: Seq<Card>, t: int)
    requires
        tiers_descending(a),
        all_at_least_tier(a, t),
        all_in_tier(b, t),
    ensures
        tiers_descending(a + b),
        all_at_least_tier(a + b, t),
{
    let c = a + b;
    assert forall|i: int, j: int| 0 <= i < j < c.len() implies tier_of(#[trigger] c[i].power)
        >= tier_of(#[trigger] c[j].power) by {
        if j < a.len() {
            assert(c[i] == a[i] && c[j] == a[j]);
        } else if i < a.len() {
            assert(c[i] == a[i] && c[j] == b[j - a.len()]);
        } else {
            assert(c[i] == b[i - a.len()] && c[j] == b[j - a.len()]);
        }
    }
    assert forall|k: int| 0 <= k < c.len() implies tier_of(#[trigger] c[k].power) >= t by {
        if k < a.len() {
            assert(c[k] == a[k]);
        } else {
            assert(c[k] == b[k - a.len()]);
        }
    }
}

/// Relies on rand's `SliceRandom::shuffle` with `thread_rng`: it reorders the
/// elements in place by swaps, so the result is a permutation of the input.
#[verifier::external_body]
fn shuffle_cards(v: &mut Vec<Card>)
    ensures
        final(v)@.to_multiset() == old(v)@.to_multiset(),
{
    v.as_mut_slice().shuffle(&mut rand::thread_rng());
}

/// The suites of the cards, in the same order.
pub fn card_suites(cc: &Vec<Card>) -> (r: Vec<Suite>)
    ensures
        r@ == suites_of(cc@),
{
    let mut r: Vec<Suite> = Vec::with_capacity(cc.len());
    let mut i: usize = 0;
    while i < cc.len()
        invariant
            i <= cc@.len(),
            r@ == suites_of(cc@.subrange(0, i as int)),
        decreases cc@.len() - i,
    {
        r.push(cc[i].suite);
        i += 1;
        assert(r@ =~= suites_of(cc@.subrange(0, i as int)));
    }
    assert(cc@.subrange(0, i as int) =~= cc@);
    r
}

/// The card of suite `s` with the least power, the first such in `cc` where
/// several tie; `None` where `cc` holds no card of suite `s`.
pub fn lowest_power_card(cc: &Vec<Card>, s: Suite) -> (r: Option<Card>)
    ensures
        r == lowest_card(cc@, s),
        r is None <==> !has_suite(cc@, s),
        match r {
            Some(c) => exists|i: int| is_lowest_index(cc@, s, i) && cc@[i] == c,
            None => forall|j: int| 0 <= j < cc@.len() ==> cc@[j].suite != s,
        },
{
    let mut best: Option<usize> = None;
    let mut i: usize = 0;
    while i < cc.len()
        invariant
            i <= cc@.len(),
            match best {
                None => forall|j: int| 0 <= j < i ==> #[trigger] cc@[j].suite != s,
                Some(b) => {
                    &&& b < i
                    &&& cc@[b as int].suite == s
                    &&& forall|j: int|
                        0 <= j < i && #[trigger] cc@[j].suite == s ==> cc@[b as int].power
                            <= cc@[j].power
                    &&& forall|j: int|
                        0 <= j < b && #[trigger] cc@[j].suite == s ==> cc@[b as int].power
                            < cc@[j].power
                },
            },
        decreases cc@.len() - i,
    {
        if cc[i].suite == s {
            match best {
                None => {
                    best = Some(i);
                },
                Some(b) => {
                    if cc[i].power < cc[b].power {
                        best = Some(i);
                    }
                },
            }
        }
        i += 1;
    }
    match best {
        None => None,
        Some(b) => {
            proof {
                assert(is_lowest_index(cc@, s, b as int));
                let k = choose|k: int| is_lowest_index(cc@, s, k);
                lemma_lowest_unique(cc@, s, b as int, k);
            }
            Some(cc[b].clone())
        },
    }
}

/// A random reordering of `cc` that keeps the tiers apart: the cards of
/// power 8 first, then those of power 4, then those of power 2 or of a power
/// outside 1, 2, 4, 8, then those of power 1, each tier shuffled on its own.
pub fn shuffle_respecting_power(cc: &Vec<Card>) -> (r: Vec<Card>)
    ensures
        r@.to_multiset() == cc@.to_multiset(),
        tiers_descending(r@),
{
    let mut rare8: Vec<Card> = Vec::new();
    let mut rare4: Vec<Card> = Vec::new();
    let mut rare2: Vec<Card> = Vec::new();
    let mut common: Vec<Card> = Vec::new();
    let mut i: usize = 0;
    while i < cc.len()
        invariant
            i <= cc@.len(),
            rare8@.to_multiset().add(rare4@.to_multiset()).add(rare2@.to_multiset()).add(
                common@.to_multiset(),
            ) == cc@.subrange(0, i as int).to_multiset(),
            all_in_tier(rare8@, 3),
            all_in_tier(rare4@, 2),
            all_in_tier(rare2@, 1),
            all_in_tier(common@, 0),
        decreases cc@.len() - i,
    {
        let c = cc[i].clone();
        assert(cc@.subrange(0, i + 1) =~= cc@.subrange(0, i as int).push(c));
        match c.power {
            1 => common.push(c),
            2 => rare2.push(c),
            4 => rare4.push(c),
            8 => rare8.push(c),
            _ => rare2.push(c),
        }
        i += 1;
        assert(rare8@.to_multiset().add(rare4@.to_multiset()).add(rare2@.to_multiset()).add(
            common@.to_multiset(),
        ) =~= cc@.subrange(0, i as int).to_multiset());
    }
    assert(cc@.subrange(0, i as int) =~= cc@);
    let ghost m8 = rare8@;
    let ghost m4 = rare4@;
    let ghost m2 = rare2@;
    let ghost m1 = common@;
    shuffle_cards(&mut rare8);
    shuffle_cards(&mut rare4);
    shuffle_cards(&mut rare2);
    shuffle_cards(&mut common);
    proof {
        lemma_tier_kept(m8, rare8@, 3);
        lemma_tier_kept(m4, rare4@, 2);
        lemma_tier_kept(m2, rare2@, 1);
        lemma_tier_kept(m1, common@, 0);
    }
    let ghost s8 = rare8@;
    let ghost s4 = rare4@;
    let ghost s2 = rare2@;
    let ghost s1 = common@;
    let mut ret: Vec<Card> = Vec::new();
    ret.append(&mut rare8);
    assert(ret@ =~= s8);
    proof {
        lemma_append_tier(Seq::empty(), s8, 3);
        assert(Seq::<Card>::empty() + s8 =~= s8);
    }
    ret.append(&mut rare4);
    proof {
        lemma_append_tier(s8, s4, 2);
    }
    ret.append(&mut rare2);
    proof {
        lemma_append_tier(s8 + s4, s2, 1);
    }
    ret.append(&mut common);
    proof {
        lemma_append_tier(s8 + s4 + s2, s1, 0);
        vstd::seq_lib::lemma_multiset_commutative(s8, s4);
        vstd::seq_lib::lemma_multiset_commutative(s8 + s4, s2);
        vstd::seq_lib::lemma_multiset_commutative(s8 + s4 + s2, s1);
    }
    ret
}

} // verus!
