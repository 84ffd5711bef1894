//! Buy-policy representation: the purchasable piece kinds, priority-table
//! entries, and the choice of which card in a hand can pay a given cost.

use vstd::prelude::*;
use crate::cards::{Card, CardList};

verus! {

/// A purchasable upgrade: Jacks and Queens are tracked per player, Kings
/// globally.
#[derive(Debug, Clone, Copy, PartialEq, Eq, Structural)]
#[allow(non_camel_case_types)]
pub enum BuyablePiece {
    JACK,
    QUEEN,
    KING,
}

/// One priority entry: buy the `piece_num`-th instance of `piece_type` if the
/// card spent costs at most `budget`.
#[derive(Debug, Clone, Copy, PartialEq, Eq, Structural)]
pub struct BuyPolicyItem {
    pub piece_type: BuyablePiece,
    pub piece_num: i64,
    pub budget: i64,
}

/// An ordered priority table; the first matching, affordable entry wins.
#[derive(Debug, Clone, PartialEq, Eq)]
pub struct BuyPolicyConfig {
    pub priorities: Vec<BuyPolicyItem>,
}

impl BuyPolicyConfig {
    /// An explicit copy with a proved relation to the original, since nothing
    /// is known of the derived `clone`.
    pub fn duplicate(&self) -> (r: BuyPolicyConfig)
        ensures
            r.priorities@ == self.priorities@,
    {
        let mut items: Vec<BuyPolicyItem> = Vec::new();
        let mut i: usize = 0;
        while i < self.priorities.len()
            invariant
                0 <= i <= self.priorities@.len(),
                items@ == self.priorities@.take(i as int),
            decreases self.priorities@.len() - i,
        {
            items.push(self.priorities[i]);
            proof {
                assert(self.priorities@.take(i + 1) =~= self.priorities@.take(i as int).push(
                    self.priorities@[i as int],
                ));
            }
            i += 1;
        }
        proof {
            assert(self.priorities@.take(self.priorities@.len() as int) =~= self.priorities@);
        }
        BuyPolicyConfig { priorities: items }
    }
}

/// A purchase action: which piece to buy, and the card spent on it.
#[derive(Debug, Clone, Copy, PartialEq, Eq, Structural)]
pub enum Buy {
    JackWith(Card),
    QueenWith(Card),
    KingWith(Card),
}

/// A player's buy policy: one of the fixed heuristics, or a costed priority
/// table (a `base` table while Kings remain unbought, an `all_kings` table
/// afterwards).
#[derive(Debug, Clone)]
pub enum BuyPolicy {
    Idle,
    KingBuyer,
    JackBuyer,
    OneQueenThenIdle,
    Costed { base: BuyPolicyConfig, all_kings: BuyPolicyConfig },
}

/// Two policies that make the same decisions: the same variant, and for the
/// costed variant the same priority tables entry for entry.
pub open spec fn policy_equiv(a: BuyPolicy, b: BuyPolicy) -> bool {
    match (a, b) {
        (BuyPolicy::Idle, BuyPolicy::Idle) => true,
        (BuyPolicy::KingBuyer, BuyPolicy::KingBuyer) => true,
        (BuyPolicy::JackBuyer, BuyPolicy::JackBuyer) => true,
        (BuyPolicy::OneQueenThenIdle, BuyPolicy::OneQueenThenIdle) => true,
        (
            BuyPolicy::Costed { base: b1, all_kings: k1 },
            BuyPolicy::Costed { base: b2, all_kings: k2 },
        ) => b1.priorities@ == b2.priorities@ && k1.priorities@ == k2.priorities@,
        _ => false,
    }
}

impl BuyPolicy {
    pub fn duplicate(&self) -> (r: BuyPolicy)
        ensures
            policy_equiv(r, *self),
    {
        match self {
            BuyPolicy::Idle => BuyPolicy::Idle,
            BuyPolicy::KingBuyer => BuyPolicy::KingBuyer,
            BuyPolicy::JackBuyer => BuyPolicy::JackBuyer,
            BuyPolicy::OneQueenThenIdle => BuyPolicy::OneQueenThenIdle,
            BuyPolicy::Costed { base, all_kings } => BuyPolicy::Costed {
                base: base.duplicate(),
                all_kings: all_kings.duplicate(),
            },
        }
    }
}

/// The cheapest card of `s` whose value is at least `cost`; `None` if no card
/// can pay.
pub open spec fn cheapest_spec(s: Seq<Card>, cost: int) -> Option<Card>
    decreases s.len(),
{
    if s.len() == 0 {
        None
    } else {
        let rest = cheapest_spec(s.drop_last(), cost);
        let c = s.last();
        if c.value_spec() >= cost {
            match rest {
                Option::None => Some(c),
                Option::Some(b) => if c.value_spec() < b.value_spec() {
                    Some(c)
                } else {
                    rest
                },
            }
        } else {
            rest
        }
    }
}

/// What `cheapest_spec` returns: `None` exactly when no card can pay, and
/// otherwise a card of the list that can pay and has the least value among
/// those that can.
pub proof fn lemma_cheapest_props(s: Seq<Card>, cost: int)
    ensures
        match cheapest_spec(s, cost) {
            Option::None => forall|i: int| 0 <= i < s.len() ==> (#[trigger] s[i]).value_spec()
                < cost,
            Option::Some(c) => s.contains(c) && c.value_spec() >= cost && forall|i: int|
                0 <= i < s.len() && (#[trigger] s[i]).value_spec() >= cost ==> c.value_spec()
                <= s[i].value_spec(),
        },
    decreases s.len(),
{
    if s.len() > 0 {
        lemma_cheapest_props(s.drop_last(), cost);
        let c = s.last();
        assert(s[s.len() - 1] == c);
        match cheapest_spec(s.drop_last(), cost) {
            Option::None => {},
            Option::Some(b) => {
                let j = choose|j: int|
                    0 <= j < s.drop_last().len() && s.drop_last()[j] == b;
                assert(s[j] == s.drop_last()[j]);
                assert(s.contains(b));
            },
        }
        match cheapest_spec(s, cost) {
            Option::None => {
                assert forall|i: int|
                    0 <= i < s.len() implies (#[trigger] s[i]).value_spec() < cost by {
                    if i < s.len() - 1 {
                        assert(s.drop_last()[i] == s[i]);
                    }
                }
            },
            Option::Some(w) => {
                assert(s.contains(w));
                assert forall|i: int|
                    0 <= i < s.len() && (#[trigger] s[i]).value_spec() >= cost implies w.value_spec()
                    <= s[i].value_spec() by {
                    if i < s.len() - 1 {
                        assert(s.drop_last()[i] == s[i]);
                    }
                }
            },
        }
    }
}

/// The lowest-valued card of `cards` whose value is at least `cost`, if any;
/// a card of exactly the required value is preferred over any dearer one.
pub fn cheapest_card_that_can_pay_x(cards: &CardList, cost: i64) -> (r: Option<Card>)
    ensures
        r == cheapest_spec(cards@, cost as int),
        r matches Some(c) ==> cards@.contains(c) && c.value_spec() >= cost,
{
    let mut best: Option<Card> = None;
    let mut i: usize = 0;
    while i < cards.len()
        invariant
            0 <= i <= cards@.len(),
            best == cheapest_spec(cards@.take(i as int), cost as int),
        decreases cards@.len() - i,
    {
        let c = cards.get(i);
        proof {
            assert(cards@.take(i + 1).drop_last() =~= cards@.take(i as int));
            assert(cards@.take(i + 1).last() == cards@[i as int]);
        }
        if c.value() >= cost {
            match best {
                Option::Some(old_best) => {
                    if c.value() < old_best.value() {
                        best = Some(c);
                    }
                },
                Option::None => {
                    best = Some(c);
                },
            }
        }
        i += 1;
    }
    proof {
        assert(cards@.take(cards@.len() as int) =~= cards@);
        lemma_cheapest_props(cards@, cost as int);
    }
    best
}

} // verus!
