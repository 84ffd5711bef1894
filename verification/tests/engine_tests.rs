use policy_search::cards::{Card, CardList};
use policy_search::engine::{verbose_play_game, GameResult, DEFAULT_REORDER_POLICY};
use policy_search::game::{Game, Player};
use policy_search::policy::BuyPolicy;
use policy_search::rng::seed_rng;
use policy_search::engine::init_deck;

fn finished_game(hand0: Vec<Card>, hand1: Vec<Card>, unbought_kings: i64) -> Game {
    // the pile holds only the Joker, so the match ends on the very first draw
    // with both hands untouched
    let mut p0 = Player::new("alice".to_owned(), BuyPolicy::Idle);
    p0.hand = CardList::from_vec(hand0);
    let mut p1 = Player::new("bob".to_owned(), BuyPolicy::Idle);
    p1.hand = CardList::from_vec(hand1);
    Game {
        players: vec![p0, p1],
        unbought_kings,
        remaining_cards: CardList::from_vec(vec![Card::JOKER]),
    }
}

#[test]
fn paperclips_when_kings_remain() {
    let mut game = finished_game(vec![Card::TEN], vec![Card::TWO], 3);
    assert_eq!(verbose_play_game(&mut game), GameResult::Paperclips);
}

#[test]
fn unique_top_scorer_wins_by_name() {
    let mut game = finished_game(vec![Card::TEN, Card::TEN], vec![Card::NINE], 0);
    assert_eq!(verbose_play_game(&mut game), GameResult::WinnerNamed("alice".to_owned()));
    let mut game2 = finished_game(vec![Card::NINE], vec![Card::TEN, Card::TEN], 0);
    assert_eq!(verbose_play_game(&mut game2), GameResult::WinnerNamed("bob".to_owned()));
}

#[test]
fn tie_for_top_score_is_a_draw() {
    let mut game = finished_game(vec![Card::FIVE, Card::FIVE], vec![Card::TEN], 0);
    assert_eq!(verbose_play_game(&mut game), GameResult::Draw);
}

#[test]
fn reorder_puts_lowest_on_top_for_queen_holder() {
    // top of the pile is the end of the list; the player owns one Queen, so
    // the top two cards are rearranged with the lowest drawn first
    let mut p0 = Player::new("q".to_owned(), BuyPolicy::Idle);
    p0.queens = 1;
    let p1 = Player::new("r".to_owned(), BuyPolicy::Idle);
    let mut game = Game {
        players: vec![p0, p1],
        unbought_kings: 4,
        remaining_cards: CardList::from_vec(vec![Card::JOKER, Card::THREE, Card::NINE]),
    };
    DEFAULT_REORDER_POLICY(&mut game, 0);
    assert_eq!(game.remaining_cards.len(), 3);
    assert_eq!(game.remaining_cards.get(0), Card::JOKER);
    // next draw is the lower of the two peeked cards
    assert_eq!(game.remaining_cards.get(2), Card::THREE);
    assert_eq!(game.remaining_cards.get(1), Card::NINE);
}

#[test]
fn reorder_is_a_no_op_without_queens() {
    let p0 = Player::new("q".to_owned(), BuyPolicy::Idle);
    let p1 = Player::new("r".to_owned(), BuyPolicy::Idle);
    let mut game = Game {
        players: vec![p0, p1],
        unbought_kings: 4,
        remaining_cards: CardList::from_vec(vec![Card::JOKER, Card::NINE, Card::THREE]),
    };
    DEFAULT_REORDER_POLICY(&mut game, 0);
    assert_eq!(game.remaining_cards.get(1), Card::NINE);
    assert_eq!(game.remaining_cards.get(2), Card::THREE);
}

#[test]
fn ace_discards_hand_while_kings_remain() {
    // the first player draws the Ace and must lose the Ten already held;
    // the next draw is the Joker, ending the match, so the final hand is
    // exactly the kept Ace
    let mut p0 = Player::new("a".to_owned(), BuyPolicy::Idle);
    p0.hand = CardList::from_vec(vec![Card::TEN]);
    let p1 = Player::new("b".to_owned(), BuyPolicy::Idle);
    let mut game = Game {
        players: vec![p0, p1],
        unbought_kings: 4,
        remaining_cards: CardList::from_vec(vec![Card::JOKER, Card::ACE]),
    };
    let result = verbose_play_game(&mut game);
    assert_eq!(result, GameResult::Paperclips);
    assert_eq!(game.players[0].hand.len(), 1);
    assert_eq!(game.players[0].hand.get(0), Card::ACE);
}

#[test]
fn match_invariants_over_random_decks() {
    // kings never go negative, and no cards are created: at most the 41
    // dealt cards remain across hands and pile
    for seed in [3u64, 11, 29, 123] {
        let mut rng = seed_rng(seed);
        let p0 = Player::new("x".to_owned(), BuyPolicy::KingBuyer);
        let p1 = Player::new("y".to_owned(), BuyPolicy::JackBuyer);
        let mut game = Game {
            players: vec![p0, p1],
            unbought_kings: 4,
            remaining_cards: init_deck(&mut rng),
        };
        let _ = verbose_play_game(&mut game);
        assert!(game.unbought_kings >= 0);
        assert!(game.unbought_kings <= 4);
        let total = game.players[0].hand.len() + game.players[1].hand.len()
            + game.remaining_cards.len();
        assert!(total <= 41);
    }
}
