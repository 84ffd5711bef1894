use policy_search::cards::{Card, CardList};
use policy_search::engine::init_deck;
use policy_search::rng::seed_rng;

#[test]
fn card_values() {
    assert_eq!(Card::ACE.value(), 1);
    assert_eq!(Card::FIVE.value(), 5);
    assert_eq!(Card::TEN.value(), 10);
    assert_eq!(Card::JOKER.value(), 0);
}

#[test]
fn card_symbols() {
    assert_eq!(Card::ACE.symbol(), "A");
    assert_eq!(Card::TEN.symbol(), "0");
    assert_eq!(Card::JOKER.symbol(), "J");
}

#[test]
fn card_list_draw_and_place() {
    let mut list = CardList::new();
    assert!(list.is_empty());
    list.place_card_on_top(Card::TWO);
    list.place_card_on_top(Card::NINE);
    assert_eq!(list.len(), 2);
    assert_eq!(list.draw_top_card(), Card::NINE);
    assert_eq!(list.draw_top_card(), Card::TWO);
    assert!(list.is_empty());
}

#[test]
fn card_list_remove_first_occurrence() {
    let mut list = CardList::from_vec(vec![Card::TWO, Card::FIVE, Card::TWO, Card::SEVEN]);
    list.remove_card_of_type(Card::TWO);
    assert_eq!(list.len(), 3);
    assert_eq!(list.get(0), Card::FIVE);
    assert_eq!(list.get(1), Card::TWO);
    assert_eq!(list.get(2), Card::SEVEN);
}

#[test]
fn score_hand_sums_values() {
    let list = CardList::from_vec(vec![Card::THREE, Card::SEVEN, Card::TEN]);
    assert_eq!(list.score_hand(), 20);
    assert_eq!(CardList::new().score_hand(), 0);
}

#[test]
fn deck_composition_and_joker_guard() {
    for seed in [1u64, 7, 42, 99, 12345] {
        let mut rng = seed_rng(seed);
        let deck = init_deck(&mut rng);
        assert_eq!(deck.len(), 41);
        let mut jokers = 0;
        let mut aces = 0;
        let mut tens = 0;
        for i in 0..deck.len() {
            match deck.get(i) {
                Card::JOKER => jokers += 1,
                Card::ACE => aces += 1,
                Card::TEN => tens += 1,
                _ => {}
            }
        }
        assert_eq!(jokers, 1);
        assert_eq!(aces, 4);
        assert_eq!(tens, 4);
        // the last fourteen positions are the first fourteen draws
        for i in deck.len() - 14..deck.len() {
            assert!(deck.get(i) != Card::JOKER);
        }
    }
}
