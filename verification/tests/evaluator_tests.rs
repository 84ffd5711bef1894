use policy_search::cards::{Card, CardList};
use policy_search::evaluator::{
    next_jack_cost, next_king_cost, next_queen_cost, COSTED_POLICY, IDLE_POLICY,
    JACK_BUYER_POLICY, KING_BUYER_POLICY, ONE_QUEEN_THEN_IDLE,
};
use policy_search::game::{Game, Player};
use policy_search::policy::{
    cheapest_card_that_can_pay_x, Buy, BuyPolicy, BuyPolicyConfig, BuyPolicyItem, BuyablePiece,
};

fn two_player_game(hand0: Vec<Card>, unbought_kings: i64) -> Game {
    let mut p0 = Player::new("p0".to_owned(), BuyPolicy::Idle);
    p0.hand = CardList::from_vec(hand0);
    let p1 = Player::new("p1".to_owned(), BuyPolicy::Idle);
    Game {
        players: vec![p0, p1],
        unbought_kings,
        remaining_cards: CardList::from_vec(vec![Card::JOKER]),
    }
}

#[test]
fn cheapest_card_prefers_exact_cover_over_cheaper_ineligible() {
    // a hand of {3, 7} and a cost of 5: the 3 cannot pay, so the 7 is chosen
    let cards = CardList::from_vec(vec![Card::THREE, Card::SEVEN]);
    assert_eq!(cheapest_card_that_can_pay_x(&cards, 5), Some(Card::SEVEN));
}

#[test]
fn cheapest_card_picks_lowest_affordable() {
    let cards = CardList::from_vec(vec![Card::NINE, Card::FIVE, Card::SEVEN]);
    assert_eq!(cheapest_card_that_can_pay_x(&cards, 5), Some(Card::FIVE));
    assert_eq!(cheapest_card_that_can_pay_x(&cards, 10), None);
}

#[test]
fn next_costs_follow_bought_counts() {
    let mut game = two_player_game(vec![], 4);
    assert_eq!(next_jack_cost(&game), 1);
    assert_eq!(next_queen_cost(&game), 1);
    assert_eq!(next_king_cost(&game), 1);
    game.players[0].jacks = 2;
    game.players[1].jacks = 2;
    game.players[0].queens = 1;
    game.unbought_kings = 1;
    assert_eq!(next_jack_cost(&game), 1000);
    assert_eq!(next_queen_cost(&game), 2);
    assert_eq!(next_king_cost(&game), 4);
    game.unbought_kings = 0;
    assert_eq!(next_king_cost(&game), 1000);
}

#[test]
fn idle_policy_never_buys() {
    let game = two_player_game(vec![Card::TEN], 4);
    assert!(IDLE_POLICY(&game, 0).is_none());
}

#[test]
fn king_buyer_buys_cheapest_that_pays() {
    // one King bought already: the next costs 2
    let game = two_player_game(vec![Card::ACE, Card::TWO, Card::NINE], 3);
    assert!(matches!(KING_BUYER_POLICY(&game, 0), Some(Buy::KingWith(Card::TWO))));
    let broke = two_player_game(vec![Card::ACE], 3);
    assert!(KING_BUYER_POLICY(&broke, 0).is_none());
    let done = two_player_game(vec![Card::TEN], 0);
    assert!(KING_BUYER_POLICY(&done, 0).is_none());
}

#[test]
fn jack_buyer_stops_at_four_jacks() {
    let mut game = two_player_game(vec![Card::FIVE], 4);
    assert!(matches!(JACK_BUYER_POLICY(&game, 0), Some(Buy::JackWith(Card::FIVE))));
    game.players[1].jacks = 4;
    assert!(JACK_BUYER_POLICY(&game, 0).is_none());
}

#[test]
fn one_queen_then_idle_buys_only_once() {
    let mut game = two_player_game(vec![Card::FOUR], 4);
    assert!(matches!(ONE_QUEEN_THEN_IDLE(&game, 0), Some(Buy::QueenWith(Card::FOUR))));
    game.players[0].queens = 1;
    assert!(ONE_QUEEN_THEN_IDLE(&game, 0).is_none());
}

#[test]
fn costed_policy_first_matching_affordable_entry_wins() {
    // hand {3, 7}; nothing bought, so every next piece costs 1 and the
    // cheapest card that can pay is the 3
    let game = two_player_game(vec![Card::THREE, Card::SEVEN], 4);
    let config = BuyPolicyConfig {
        priorities: vec![
            // ordinal mismatch: looking for the second Jack when none is bought
            BuyPolicyItem { piece_type: BuyablePiece::JACK, piece_num: 2, budget: 10 },
            // budget below the cheapest affordable card's value
            BuyPolicyItem { piece_type: BuyablePiece::QUEEN, piece_num: 1, budget: 2 },
            // first entry that matches and can afford the 3
            BuyPolicyItem { piece_type: BuyablePiece::KING, piece_num: 1, budget: 3 },
        ],
    };
    assert!(matches!(COSTED_POLICY(&game, 0, &config), Some(Buy::KingWith(Card::THREE))));
}

#[test]
fn costed_policy_no_entry_matches() {
    let game = two_player_game(vec![Card::THREE], 4);
    let config = BuyPolicyConfig {
        priorities: vec![
            BuyPolicyItem { piece_type: BuyablePiece::JACK, piece_num: 1, budget: 2 },
        ],
    };
    assert!(COSTED_POLICY(&game, 0, &config).is_none());
}

#[test]
fn costed_policy_budget_equal_to_card_value_buys() {
    let game = two_player_game(vec![Card::SEVEN], 4);
    let config = BuyPolicyConfig {
        priorities: vec![
            BuyPolicyItem { piece_type: BuyablePiece::JACK, piece_num: 1, budget: 7 },
        ],
    };
    assert!(matches!(COSTED_POLICY(&game, 0, &config), Some(Buy::JackWith(Card::SEVEN))));
}
