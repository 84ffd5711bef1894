//! The buy-policy evaluators: piece costs, the fixed heuristics, and the
//! costed priority-table evaluator. Evaluation is a pure function of the game
//! state, the acting player's index, and the configuration.

use vstd::prelude::*;
use crate::cards::Card;
use crate::game::{
    Game, game_wf, lemma_sum_jacks_member, lemma_sum_jacks_take, lemma_sum_queens_member,
    lemma_sum_queens_take, sum_jacks, sum_queens,
};
use crate::policy::{
    cheapest_card_that_can_pay_x, cheapest_spec, lemma_cheapest_props, Buy, BuyPolicy,
    BuyPolicyConfig, BuyPolicyItem, BuyablePiece,
};

verus! {

/// An unattainable sentinel cost, larger than any card value, used once all
/// four of a piece have been bought.
pub open spec fn unattainable() -> int {
    1000
}

/// Cost of the next Jack: one more than the Jacks bought so far, or the
/// sentinel once all four are gone.
pub open spec fn next_jack_cost_spec(g: Game) -> int {
    if sum_jacks(g.players@) == 4 {
        unattainable()
    } else {
        sum_jacks(g.players@) + 1
    }
}

/// Cost of the next Queen, as for Jacks.
pub open spec fn next_queen_cost_spec(g: Game) -> int {
    if sum_queens(g.players@) == 4 {
        unattainable()
    } else {
        sum_queens(g.players@) + 1
    }
}

/// Cost of the next King: one more than the Kings bought so far, or the
/// sentinel once all four are gone.
pub open spec fn next_king_cost_spec(g: Game) -> int {
    if 4 - g.unbought_kings == 4 {
        unattainable()
    } else {
        (4 - g.unbought_kings) + 1
    }
}

/// Total Jacks bought across all players.
pub fn total_jacks(game: &Game) -> (r: i64)
    requires
        game_wf(*game),
    ensures
        r == sum_jacks(game.players@),
        0 <= r <= 4,
{
    let ghost s = game.players@;
    let mut acc: i64 = 0;
    let mut i: usize = 0;
    while i < game.players.len()
        invariant
            game_wf(*game),
            s == game.players@,
            0 <= i <= s.len(),
            acc == sum_jacks(s.take(i as int)),
            0 <= acc <= 4,
        decreases s.len() - i,
    {
        proof {
            lemma_sum_jacks_take(s, i + 1);
            assert(s.take(i + 1).drop_last() =~= s.take(i as int));
            assert(s.take(i + 1).last() == s[i as int]);
        }
        acc = acc + game.players[i].jacks;
        i += 1;
    }
    proof {
        assert(s.take(s.len() as int) =~= s);
    }
    acc
}

/// Total Queens bought across all players.
pub fn total_queens(game: &Game) -> (r: i64)
    requires
        game_wf(*game),
    ensures
        r == sum_queens(game.players@),
        0 <= r <= 4,
{
    let ghost s = game.players@;
    let mut acc: i64 = 0;
    let mut i: usize = 0;
    while i < game.players.len()
        invariant
            game_wf(*game),
            s == game.players@,
            0 <= i <= s.len(),
            acc == sum_queens(s.take(i as int)),
            0 <= acc <= 4,
        decreases s.len() - i,
    {
        proof {
            lemma_sum_queens_take(s, i + 1);
            assert(s.take(i + 1).drop_last() =~= s.take(i as int));
            assert(s.take(i + 1).last() == s[i as int]);
        }
        acc = acc + game.players[i].queens;
        i += 1;
    }
    proof {
        assert(s.take(s.len() as int) =~= s);
    }
    acc
}

pub fn next_jack_cost(game: &Game) -> (r: i64)
    requires
        game_wf(*game),
    ensures
        r == next_jack_cost_spec(*game),
{
    let jacks_bought = total_jacks(game);
    if jacks_bought == 4 {
        1000
    } else {
        jacks_bought + 1
    }
}

pub fn next_queen_cost(game: &Game) -> (r: i64)
    requires
        game_wf(*game),
    ensures
        r == next_queen_cost_spec(*game),
{
    let queens_bought = total_queens(game);
    if queens_bought == 4 {
        1000
    } else {
        queens_bought + 1
    }
}

pub fn next_king_cost(game: &Game) -> (r: i64)
    requires
        game_wf(*game),
    ensures
        r == next_king_cost_spec(*game),
{
    let kings_bought = 4 - game.unbought_kings;
    if kings_bought == 4 {
        1000
    } else {
        kings_bought + 1
    }
}

/// A returned action can actually be applied: the spent card is in the acting
/// player's hand, and the piece bought still exists.
pub open spec fn buy_action_ok(g: Game, idx: int, a: Option<Buy>) -> bool {
    match a {
        Option::None => true,
        Option::Some(Buy::JackWith(c)) => g.players@[idx].hand@.contains(c) && sum_jacks(
            g.players@,
        ) < 4,
        Option::Some(Buy::QueenWith(c)) => g.players@[idx].hand@.contains(c) && sum_queens(
            g.players@,
        ) < 4,
        Option::Some(Buy::KingWith(c)) => g.players@[idx].hand@.contains(c)
            && g.unbought_kings > 0,
    }
}

/// The always-idle heuristic: never buys.
#[allow(non_snake_case)]
pub fn IDLE_POLICY(game: &Game, current_player_idx: usize) -> (r: Option<Buy>)
    ensures
        r is None,
{
    None
}

/// What the greedy King buyer chooses.
pub open spec fn king_buyer_choice(g: Game, idx: int) -> Option<Buy> {
    if g.unbought_kings == 0 {
        Option::<Buy>::None
    } else {
        match cheapest_spec(g.players@[idx].hand@, 5 - g.unbought_kings) {
            Option::None => None,
            Option::Some(c) => Some(Buy::KingWith(c)),
        }
    }
}

/// Greedy King buyer: buys the next King whenever some card can pay for it.
#[allow(non_snake_case)]
pub fn KING_BUYER_POLICY(game: &Game, current_player_idx: usize) -> (r: Option<Buy>)
    requires
        game_wf(*game),
        current_player_idx < game.players@.len(),
    ensures
        r == king_buyer_choice(*game, current_player_idx as int),
        buy_action_ok(*game, current_player_idx as int, r),
{
    let current_player = &game.players[current_player_idx];
    if game.unbought_kings == 0 {
        return None;
    }
    let next_king_cost = 5 - game.unbought_kings;
    match cheapest_card_that_can_pay_x(&current_player.hand, next_king_cost) {
        Option::None => None,
        Option::Some(card) => Some(Buy::KingWith(card)),
    }
}

/// What the greedy Jack buyer chooses.
pub open spec fn jack_buyer_choice(g: Game, idx: int) -> Option<Buy> {
    let jacks_bought = sum_jacks(g.players@);
    if jacks_bought == 4 {
        Option::<Buy>::None
    } else {
        match cheapest_spec(g.players@[idx].hand@, jacks_bought + 1) {
            Option::None => None,
            Option::Some(c) => Some(Buy::JackWith(c)),
        }
    }
}

/// Greedy Jack buyer: buys the next Jack whenever some card can pay for it.
#[allow(non_snake_case)]
pub fn JACK_BUYER_POLICY(game: &Game, current_player_idx: usize) -> (r: Option<Buy>)
    requires
        game_wf(*game),
        current_player_idx < game.players@.len(),
    ensures
        r == jack_buyer_choice(*game, current_player_idx as int),
        buy_action_ok(*game, current_player_idx as int, r),
{
    let jacks_bought = total_jacks(game);
    let current_player = &game.players[current_player_idx];
    if jacks_bought == 4 {
        return None;
    }
    let next_jack_cost = jacks_bought + 1;
    match cheapest_card_that_can_pay_x(&current_player.hand, next_jack_cost) {
        Option::None => None,
        Option::Some(card) => Some(Buy::JackWith(card)),
    }
}

/// What the one-Queen-then-idle heuristic chooses.
pub open spec fn one_queen_choice(g: Game, idx: int) -> Option<Buy> {
    let queens_bought = sum_queens(g.players@);
    if g.players@[idx].queens > 0 {
        Option::<Buy>::None
    } else if queens_bought == 4 {
        Option::<Buy>::None
    } else {
        match cheapest_spec(g.players@[idx].hand@, queens_bought + 1) {
            Option::None => None,
            Option::Some(c) => Some(Buy::QueenWith(c)),
        }
    }
}

/// Buys one Queen, then idles for the rest of the match.
#[allow(non_snake_case)]
pub fn ONE_QUEEN_THEN_IDLE(game: &Game, current_player_idx: usize) -> (r: Option<Buy>)
    requires
        game_wf(*game),
        current_player_idx < game.players@.len(),
    ensures
        r == one_queen_choice(*game, current_player_idx as int),
        buy_action_ok(*game, current_player_idx as int, r),
{
    let queens_bought = total_queens(game);
    let current_player = &game.players[current_player_idx];
    if current_player.queens > 0 {
        return None;
    }
    if queens_bought == 4 {
        return None;
    }
    let next_queen_cost = queens_bought + 1;
    match cheapest_card_that_can_pay_x(&current_player.hand, next_queen_cost) {
        Option::None => None,
        Option::Some(card) => Some(Buy::QueenWith(card)),
    }
}

/// The value of the cheapest card that can pay `cost`, or the sentinel if no
/// card can.
pub open spec fn effective_cost(hand: Seq<Card>, cost: int) -> int {
    match cheapest_spec(hand, cost) {
        Option::None => unattainable(),
        Option::Some(c) => c.value_spec(),
    }
}

/// What the costed priority-table evaluator chooses: scan the priorities in
/// order; the first entry whose ordinal is the acting player's next instance
/// of that piece and whose budget covers the cheapest affordable card decides
/// the outcome.
pub open spec fn costed_choice(g: Game, idx: int, prios: Seq<BuyPolicyItem>) -> Option<Buy>
    decreases prios.len(),
{
    if prios.len() == 0 {
        Option::<Buy>::None
    } else {
        let p = prios.first();
        let hand = g.players@[idx].hand@;
        let matched = match p.piece_type {
            BuyablePiece::JACK => p.piece_num == g.players@[idx].jacks + 1 && p.budget
                >= effective_cost(hand, next_jack_cost_spec(g)),
            BuyablePiece::QUEEN => p.piece_num == g.players@[idx].queens + 1 && p.budget
                >= effective_cost(hand, next_queen_cost_spec(g)),
            BuyablePiece::KING => p.piece_num == (4 - g.unbought_kings) + 1 && p.budget
                >= effective_cost(hand, next_king_cost_spec(g)),
        };
        if matched {
            match p.piece_type {
                BuyablePiece::JACK => match cheapest_spec(hand, next_jack_cost_spec(g)) {
                    Option::None => None,
                    Option::Some(c) => Some(Buy::JackWith(c)),
                },
                BuyablePiece::QUEEN => match cheapest_spec(hand, next_queen_cost_spec(g)) {
                    Option::None => None,
                    Option::Some(c) => Some(Buy::QueenWith(c)),
                },
                BuyablePiece::KING => match cheapest_spec(hand, next_king_cost_spec(g)) {
                    Option::None => None,
                    Option::Some(c) => Some(Buy::KingWith(c)),
                },
            }
        } else {
            costed_choice(g, idx, prios.drop_first())
        }
    }
}

/// The costed priority-table evaluator.
#[allow(non_snake_case)]
pub fn COSTED_POLICY(game: &Game, current_player_idx: usize, policy: &BuyPolicyConfig) -> (r:
    Option<Buy>)
    requires
        game_wf(*game),
        current_player_idx < game.players@.len(),
    ensures
        r == costed_choice(*game, current_player_idx as int, policy.priorities@),
        buy_action_ok(*game, current_player_idx as int, r),
{
    let ghost g = *game;
    let ghost idx = current_player_idx as int;
    let ghost prios = policy.priorities@;
    let j_cost = next_jack_cost(game);
    let q_cost = next_queen_cost(game);
    let k_cost = next_king_cost(game);
    let kings_bought = 4 - game.unbought_kings;
    let current_player = &game.players[current_player_idx];
    let ghost hand = current_player.hand@;

    proof {
        lemma_sum_jacks_member(g.players@, idx);
        lemma_sum_queens_member(g.players@, idx);
        lemma_cheapest_props(hand, next_jack_cost_spec(g));
        lemma_cheapest_props(hand, next_queen_cost_spec(g));
        lemma_cheapest_props(hand, next_king_cost_spec(g));
    }

    let (jack_cost, jack_opt) = match cheapest_card_that_can_pay_x(&current_player.hand, j_cost) {
        Option::None => (1000i64, Option::<Buy>::None),
        Option::Some(card) => (card.value(), Some(Buy::JackWith(card))),
    };
    let (queen_cost, queen_opt) = match cheapest_card_that_can_pay_x(&current_player.hand, q_cost) {
        Option::None => (1000i64, Option::<Buy>::None),
        Option::Some(card) => (card.value(), Some(Buy::QueenWith(card))),
    };
    let (king_cost, king_opt) = match cheapest_card_that_can_pay_x(&current_player.hand, k_cost) {
        Option::None => (1000i64, Option::<Buy>::None),
        Option::Some(card) => (card.value(), Some(Buy::KingWith(card))),
    };

    proof {
        assert(jack_cost == effective_cost(hand, next_jack_cost_spec(g)));
        assert(queen_cost == effective_cost(hand, next_queen_cost_spec(g)));
        assert(king_cost == effective_cost(hand, next_king_cost_spec(g)));
        assert(buy_action_ok(g, idx, jack_opt));
        assert(buy_action_ok(g, idx, queen_opt));
        assert(buy_action_ok(g, idx, king_opt));
    }

    let my_jacks = current_player.jacks;
    let my_queens = current_player.queens;
    proof {
        assert(prios.skip(0) =~= prios);
    }
    let mut i: usize = 0;
    while i < policy.priorities.len()
        invariant
            0 <= i <= prios.len(),
            prios == policy.priorities@,
            costed_choice(g, idx, prios) == costed_choice(g, idx, prios.skip(i as int)),
            my_jacks == g.players@[idx].jacks,
            my_queens == g.players@[idx].queens,
            kings_bought == 4 - g.unbought_kings,
            0 <= kings_bought <= 4,
            0 <= my_jacks <= 4,
            0 <= my_queens <= 4,
            g == *game,
            idx == current_player_idx as int,
            hand == g.players@[idx].hand@,
            game_wf(g),
            0 <= idx < g.players@.len(),
            jack_cost == effective_cost(hand, next_jack_cost_spec(g)),
            queen_cost == effective_cost(hand, next_queen_cost_spec(g)),
            king_cost == effective_cost(hand, next_king_cost_spec(g)),
            jack_opt == (match cheapest_spec(hand, next_jack_cost_spec(g)) {
                Option::None => Option::<Buy>::None,
                Option::Some(c) => Some(Buy::JackWith(c)),
            }),
            queen_opt == (match cheapest_spec(hand, next_queen_cost_spec(g)) {
                Option::None => Option::<Buy>::None,
                Option::Some(c) => Some(Buy::QueenWith(c)),
            }),
            king_opt == (match cheapest_spec(hand, next_king_cost_spec(g)) {
                Option::None => Option::<Buy>::None,
                Option::Some(c) => Some(Buy::KingWith(c)),
            }),
            buy_action_ok(g, idx, jack_opt),
            buy_action_ok(g, idx, queen_opt),
            buy_action_ok(g, idx, king_opt),
            g.players@[idx].jacks <= 4,
            g.players@[idx].queens <= 4,
        decreases prios.len() - i,
    {
        let p = policy.priorities[i];
        proof {
            assert(prios.skip(i as int).first() == prios[i as int]);
            assert(prios.skip(i as int).drop_first() =~= prios.skip(i + 1));
        }
        match p.piece_type {
            BuyablePiece::JACK => {
                if p.piece_num != my_jacks + 1 {
                } else if p.budget < jack_cost {
                } else {
                    proof {
                        assert(costed_choice(g, idx, prios.skip(i as int)) == jack_opt);
                    }
                    return jack_opt;
                }
            },
            BuyablePiece::QUEEN => {
                if p.piece_num != my_queens + 1 {
                } else if p.budget < queen_cost {
                } else {
                    proof {
                        assert(costed_choice(g, idx, prios.skip(i as int)) == queen_opt);
                    }
                    return queen_opt;
                }
            },
            BuyablePiece::KING => {
                if p.piece_num != kings_bought + 1 {
                } else if p.budget < king_cost {
                } else {
                    proof {
                        assert(costed_choice(g, idx, prios.skip(i as int)) == king_opt);
                    }
                    return king_opt;
                }
            },
        }
        i += 1;
    }
    proof {
        assert(prios.skip(prios.len() as int) =~= Seq::<BuyPolicyItem>::empty());
    }
    None
}

/// What a player's policy chooses in the given state: the costed variant uses
/// its `all_kings` table once every King is bought, its `base` table before.
pub open spec fn buy_choice_spec(g: Game, idx: int) -> Option<Buy> {
    match g.players@[idx].buy_policy {
        BuyPolicy::Idle => Option::<Buy>::None,
        BuyPolicy::KingBuyer => king_buyer_choice(g, idx),
        BuyPolicy::JackBuyer => jack_buyer_choice(g, idx),
        BuyPolicy::OneQueenThenIdle => one_queen_choice(g, idx),
        BuyPolicy::Costed { base, all_kings } => if g.unbought_kings == 0 {
            costed_choice(g, idx, all_kings.priorities@)
        } else {
            costed_choice(g, idx, base.priorities@)
        },
    }
}

/// Consults the acting player's buy policy.
pub fn evaluate_buy_policy(game: &Game, current_player_idx: usize) -> (r: Option<Buy>)
    requires
        game_wf(*game),
        current_player_idx < game.players@.len(),
    ensures
        r == buy_choice_spec(*game, current_player_idx as int),
        buy_action_ok(*game, current_player_idx as int, r),
{
    match &game.players[current_player_idx].buy_policy {
        BuyPolicy::Idle => IDLE_POLICY(game, current_player_idx),
        BuyPolicy::KingBuyer => KING_BUYER_POLICY(game, current_player_idx),
        BuyPolicy::JackBuyer => JACK_BUYER_POLICY(game, current_player_idx),
        BuyPolicy::OneQueenThenIdle => ONE_QUEEN_THEN_IDLE(game, current_player_idx),
        BuyPolicy::Costed { base, all_kings } => {
            if game.unbought_kings == 0 {
                COSTED_POLICY(game, current_player_idx, all_kings)
            } else {
                COSTED_POLICY(game, current_player_idx, base)
            }
        },
    }
}

} // verus!
