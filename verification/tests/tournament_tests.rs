use policy_search::engine::{init_deck, verbose_play_game, GameResult};
use policy_search::game::{Game, Player};
use policy_search::policy::{BuyPolicy, BuyPolicyConfig, BuyPolicyItem, BuyablePiece};
use policy_search::rng::seed_rng;
use policy_search::stats::ScoreHistogram;
use policy_search::tournament::{
    combined_score_mil, eval_against_policy_set, eval_policy_against_random_policy,
    evaluate_candidate, make_random_costed_policy, mk_player_from_config, mk_random_player,
    mk_random_player_all_kings, per_mille, play_policies_against_each_other,
    run_profiling_scores,
};

fn aggressive_table() -> BuyPolicyConfig {
    let mut priorities = Vec::new();
    for num in 1..5i64 {
        priorities.push(BuyPolicyItem {
            piece_type: BuyablePiece::KING,
            piece_num: num,
            budget: 10,
        });
        priorities.push(BuyPolicyItem {
            piece_type: BuyablePiece::JACK,
            piece_num: num,
            budget: 10,
        });
        priorities.push(BuyPolicyItem {
            piece_type: BuyablePiece::QUEEN,
            piece_num: num,
            budget: 10,
        });
    }
    BuyPolicyConfig { priorities }
}

#[test]
fn random_table_has_twelve_bounded_entries() {
    let mut rng = seed_rng(5);
    let table = make_random_costed_policy(&mut rng);
    assert_eq!(table.len(), 12);
    for it in &table {
        assert!(it.piece_num >= 1 && it.piece_num <= 4);
        assert!(it.budget >= 0 && it.budget <= 10);
    }
}

#[test]
fn random_players_carry_their_tables() {
    let mut rng = seed_rng(6);
    let (policy, config) = mk_random_player(&mut rng);
    match policy {
        BuyPolicy::Costed { base, all_kings } => {
            assert_eq!(base, config);
            assert_eq!(all_kings, config);
        }
        _ => panic!("a random player plays a costed table"),
    }
    let (policy2, base_cfg, kings_cfg) = mk_random_player_all_kings(&mut rng);
    match policy2 {
        BuyPolicy::Costed { base, all_kings } => {
            assert_eq!(base, base_cfg);
            assert_eq!(all_kings, kings_cfg);
        }
        _ => panic!("a random player plays a costed table"),
    }
}

#[test]
fn head_to_head_score_is_at_most_two_half_points() {
    let mut rng = seed_rng(7);
    let a = mk_player_from_config(aggressive_table(), aggressive_table());
    let b = BuyPolicy::KingBuyer;
    for _ in 0..20 {
        let s = play_policies_against_each_other(&mut rng, &a, &b);
        assert!(s <= 2);
    }
}

#[test]
fn identical_policies_show_no_seat_bias() {
    // with both seats playing the same policy, decisive matches split evenly
    // between the seats over many trials: neither seat is favored
    let mut rng = seed_rng(8);
    let a = mk_player_from_config(aggressive_table(), aggressive_table());
    let b = mk_player_from_config(aggressive_table(), aggressive_table());
    let mut first_wins = 0u64;
    let mut second_wins = 0u64;
    for _ in 0..400 {
        let p0 = Player::new("first".to_owned(), a.duplicate());
        let p1 = Player::new("second".to_owned(), b.duplicate());
        let mut game = Game {
            players: vec![p0, p1],
            unbought_kings: 4,
            remaining_cards: init_deck(&mut rng),
        };
        match verbose_play_game(&mut game) {
            GameResult::WinnerNamed(n) if n == "first" => first_wins += 1,
            GameResult::WinnerNamed(_) => second_wins += 1,
            _ => {}
        }
    }
    let decisive = first_wins + second_wins;
    assert!(decisive > 0);
    assert!(first_wins * 10 > decisive * 3, "first seat won {first_wins} of {decisive}");
    assert!(second_wins * 10 > decisive * 3, "second seat won {second_wins} of {decisive}");
}

#[test]
fn king_buyer_reaches_the_objective_where_idlers_never_do() {
    // Player1 idles and Player2 buys Kings: some matches end with every King
    // bought; with both players idle the counter never moves
    let mut rng = seed_rng(9);
    let mut with_buyer = 0u64;
    let mut idle_pair = 0u64;
    for _ in 0..40 {
        let p0 = Player::new("one".to_owned(), BuyPolicy::Idle);
        let p1 = Player::new("two".to_owned(), BuyPolicy::KingBuyer);
        let mut game = Game {
            players: vec![p0, p1],
            unbought_kings: 4,
            remaining_cards: init_deck(&mut rng),
        };
        let _ = verbose_play_game(&mut game);
        if game.unbought_kings == 0 {
            with_buyer += 1;
        }
        let q0 = Player::new("one".to_owned(), BuyPolicy::Idle);
        let q1 = Player::new("two".to_owned(), BuyPolicy::Idle);
        let mut game2 = Game {
            players: vec![q0, q1],
            unbought_kings: 4,
            remaining_cards: init_deck(&mut rng),
        };
        let _ = verbose_play_game(&mut game2);
        if game2.unbought_kings == 0 {
            idle_pair += 1;
        }
    }
    assert_eq!(idle_pair, 0);
    assert!(with_buyer > 0);
}

#[test]
fn win_count_is_bounded_by_trials() {
    let mut rng = seed_rng(10);
    let wins = eval_policy_against_random_policy(&mut rng, 30, &BuyPolicy::KingBuyer);
    assert!(wins <= 30);
}

#[test]
fn corpus_points_are_bounded() {
    let mut rng = seed_rng(11);
    let corpus = vec![aggressive_table(), aggressive_table()];
    let points = eval_against_policy_set(&mut rng, &BuyPolicy::KingBuyer, &corpus);
    assert!(points <= 4);
}

#[test]
fn per_mille_and_blend_formulas() {
    assert_eq!(per_mille(1, 4), 250);
    assert_eq!(per_mille(0, 9), 0);
    assert_eq!(per_mille(9, 9), 1000);
    assert_eq!(combined_score_mil(1000, 500, 200), 340);
    assert_eq!(combined_score_mil(0, 0, 0), 0);
    assert_eq!(combined_score_mil(1000, 1000, 1000), 1000);
}

#[test]
fn candidate_record_is_complete_and_bounded() {
    let mut rng = seed_rng(12);
    let corpus30 = vec![aggressive_table()];
    let corpus50: Vec<BuyPolicyConfig> = vec![];
    let rec = evaluate_candidate(&mut rng, 20, &corpus30, &corpus50);
    assert!(rec.score <= 1000);
    assert_eq!(rec.times, 0);
    assert_eq!(rec.policy.priorities.len(), 12);
    assert!(rec.all_kings_policy.is_some());
}

#[test]
fn profiling_scores_are_bounded() {
    let total = run_profiling_scores(2, 10);
    assert!(total <= 2000);
}

#[test]
fn histogram_percentiles_are_exact() {
    let mut h = ScoreHistogram::new();
    h.increment(100);
    h.increment(200);
    h.increment(200);
    h.increment(200);
    // one of four observations is at or below 100: the 25th percentile
    assert_eq!(h.percentile(250), 100);
    assert_eq!(h.percentile(500), 200);
    assert_eq!(h.percentile(1000), 200);
    assert_eq!(h.percentile(0), 0);
}
