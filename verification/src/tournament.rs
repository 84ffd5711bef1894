//! The tournament layer: random candidate generation, head-to-head pairing
//! with seat swapping, win-rate estimation against fresh random opponents,
//! and scoring against a corpus of stored policies. Scores are integers:
//! head-to-head results in half-points, rates in thousandths of the unit
//! interval.

use vstd::prelude::*;
use crate::cards::CardList;
use crate::codec::{record_ser_wf, PolicyEvalResult};
use crate::engine::{init_deck, lemma_count_two_positions, play_match, MatchOutcome};
use crate::game::{game_wf, joker_in_pile, sum_jacks, sum_queens, hands_len, Game, Player};
use crate::policy::{policy_equiv, BuyPolicy, BuyPolicyConfig, BuyPolicyItem, BuyablePiece};
use crate::rng::{random_bool, random_budget, shuffle_vec};

verus! {

broadcast use vstd::seq_lib::group_to_multiset_ensures;

/// Every entry names an ordinal between one and four and a budget between
/// zero and ten.
pub open spec fn items_wf(s: Seq<BuyPolicyItem>) -> bool {
    forall|i: int|
        0 <= i < s.len() ==> 1 <= (#[trigger] s[i]).piece_num <= 4 && 0 <= s[i].budget <= 10
}

/// Some entry names this piece and ordinal.
pub open spec fn has_entry(s: Seq<BuyPolicyItem>, pt: BuyablePiece, n: int) -> bool {
    exists|i: int| 0 <= i < s.len() && (#[trigger] s[i]).piece_type == pt && s[i].piece_num == n
}

/// No two entries name the same piece and ordinal.
pub open spec fn items_distinct(s: Seq<BuyPolicyItem>) -> bool {
    forall|i: int, j: int|
        0 <= i < j < s.len() ==> !((#[trigger] s[i]).piece_type == (#[trigger] s[j]).piece_type
            && s[i].piece_num == s[j].piece_num)
}

/// The piece kind that the fixed generation order puts at a given offset.
pub open spec fn slot_piece(k: int) -> BuyablePiece {
    if k % 3 == 0 {
        BuyablePiece::JACK
    } else if k % 3 == 1 {
        BuyablePiece::QUEEN
    } else {
        BuyablePiece::KING
    }
}

/// In a list whose entries never repeat a piece-and-ordinal pair, any one
/// entry occurs at most once.
proof fn lemma_distinct_count_le_one(s: Seq<BuyPolicyItem>, x: BuyPolicyItem)
    requires
        items_distinct(s),
    ensures
        s.to_multiset().count(x) <= 1,
    decreases s.len(),
{
    broadcast use vstd::seq_lib::group_to_multiset_ensures;

    if s.len() == 0 {
        assert(!s.contains(x));
        assert(s.to_multiset().count(x) == 0);
    } else {
        let dl = s.drop_last();
        assert(s =~= dl.push(s.last()));
        assert(s.to_multiset() == dl.to_multiset().insert(s.last()));
        assert forall|i: int, j: int|
            0 <= i < j < dl.len() implies !((#[trigger] dl[i]).piece_type
            == (#[trigger] dl[j]).piece_type && dl[i].piece_num == dl[j].piece_num) by {
            assert(dl[i] == s[i]);
            assert(dl[j] == s[j]);
        }
        lemma_distinct_count_le_one(dl, x);
        if s.last() == x {
            if dl.contains(x) {
                let i = choose|i: int| 0 <= i < dl.len() && dl[i] == x;
                assert(s[i] == x);
                assert(s[s.len() - 1] == x);
                assert(false);
            }
            assert(dl.to_multiset().count(x) == 0);
        }
    }
}

/// One random priority table: an entry for each piece kind and each ordinal
/// one to four, each with a budget drawn uniformly from zero to ten, the
/// twelve entries in a uniformly shuffled priority order.
pub fn make_random_costed_policy(rng: &mut rand::rngs::StdRng) -> (r: Vec<BuyPolicyItem>)
    ensures
        r@.len() == 12,
        items_wf(r@),
        items_distinct(r@),
        forall|pt: BuyablePiece, n: int| 1 <= n <= 4 ==> #[trigger] has_entry(r@, pt, n),
{
    let mut policy: Vec<BuyPolicyItem> = Vec::new();
    let mut i: i64 = 1;
    while i < 5
        invariant
            1 <= i <= 5,
            policy@.len() == 3 * (i - 1),
            forall|k: int|
                0 <= k < policy@.len() ==> (#[trigger] policy@[k]).piece_type == slot_piece(k)
                    && policy@[k].piece_num == k / 3 + 1 && 0 <= policy@[k].budget <= 10,
        decreases 5 - i,
    {
        let b1 = random_budget(rng);
        policy.push(BuyPolicyItem { piece_type: BuyablePiece::JACK, piece_num: i, budget: b1 });
        let b2 = random_budget(rng);
        policy.push(BuyPolicyItem { piece_type: BuyablePiece::QUEEN, piece_num: i, budget: b2 });
        let b3 = random_budget(rng);
        policy.push(BuyPolicyItem { piece_type: BuyablePiece::KING, piece_num: i, budget: b3 });
        i += 1;
    }
    let ghost built = policy@;
    proof {
        assert forall|k: int, l: int|
            0 <= k < l < built.len() implies !((#[trigger] built[k]).piece_type
            == (#[trigger] built[l]).piece_type && built[k].piece_num == built[l].piece_num) by {
            if built[k].piece_num == built[l].piece_num {
                assert(k / 3 == l / 3);
                assert(k % 3 != l % 3);
            }
        }
        assert(items_distinct(built));
    }
    shuffle_vec(rng, &mut policy);
    proof {
        assert forall|k: int|
            0 <= k < policy@.len() implies 1 <= (#[trigger] policy@[k]).piece_num <= 4 && 0
            <= policy@[k].budget <= 10 by {
            assert(policy@.to_multiset().count(policy@[k]) > 0);
            assert(built.to_multiset().count(policy@[k]) > 0);
            assert(built.contains(policy@[k]));
            let j = choose|j: int| 0 <= j < built.len() && built[j] == policy@[k];
            assert(1 <= built[j].piece_num <= 4 && 0 <= built[j].budget <= 10);
        }
        assert forall|k: int, l: int|
            0 <= k < l < policy@.len() implies !((#[trigger] policy@[k]).piece_type
            == (#[trigger] policy@[l]).piece_type && policy@[k].piece_num
            == policy@[l].piece_num) by {
            if policy@[k].piece_type == policy@[l].piece_type && policy@[k].piece_num
                == policy@[l].piece_num {
                if policy@[k] == policy@[l] {
                    lemma_count_two_positions(policy@, k, l);
                    assert(built.to_multiset().count(policy@[k]) >= 2);
                    lemma_distinct_count_le_one(built, policy@[k]);
                    assert(false);
                } else {
                    assert(policy@.to_multiset().count(policy@[k]) > 0);
                    assert(built.to_multiset().count(policy@[k]) > 0);
                    assert(built.contains(policy@[k]));
                    assert(policy@.to_multiset().count(policy@[l]) > 0);
                    assert(built.to_multiset().count(policy@[l]) > 0);
                    assert(built.contains(policy@[l]));
                    let a = choose|a: int| 0 <= a < built.len() && built[a] == policy@[k];
                    let b = choose|b: int| 0 <= b < built.len() && built[b] == policy@[l];
                    assert(a != b);
                    assert(false);
                }
            }
        }
        assert forall|pt: BuyablePiece, n: int| 1 <= n <= 4 implies #[trigger] has_entry(
            policy@,
            pt,
            n,
        ) by {
            let k = 3 * (n - 1) + (match pt {
                BuyablePiece::JACK => 0int,
                BuyablePiece::QUEEN => 1int,
                BuyablePiece::KING => 2int,
            });
            assert(built[k].piece_type == pt && built[k].piece_num == n);
            assert(built.to_multiset().count(built[k]) > 0);
            assert(policy@.to_multiset().count(built[k]) > 0);
            assert(policy@.contains(built[k]));
            let i = choose|i: int| 0 <= i < policy@.len() && policy@[i] == built[k];
            assert(policy@[i].piece_type == pt && policy@[i].piece_num == n);
        }
    }
    policy
}

/// A player policy that uses `base_config` while any King is unbought and
/// `all_kings_config` afterwards.
pub fn mk_player_from_config(
    base_config: BuyPolicyConfig,
    all_kings_config: BuyPolicyConfig,
) -> (r: BuyPolicy)
    ensures
        r == (BuyPolicy::Costed { base: base_config, all_kings: all_kings_config }),
{
    BuyPolicy::Costed { base: base_config, all_kings: all_kings_config }
}

/// A random policy that plays the same table before and after the Kings run
/// out, together with that table.
pub fn mk_random_player(rng: &mut rand::rngs::StdRng) -> (r: (BuyPolicy, BuyPolicyConfig))
    ensures
        policy_equiv(r.0, BuyPolicy::Costed { base: r.1, all_kings: r.1 }),
        r.1.priorities@.len() == 12,
        items_wf(r.1.priorities@),
        items_distinct(r.1.priorities@),
        forall|pt: BuyablePiece, n: int| 1 <= n <= 4 ==> #[trigger] has_entry(r.1.priorities@, pt, n),
{
    let config = BuyPolicyConfig { priorities: make_random_costed_policy(rng) };
    let player = mk_player_from_config(config.duplicate(), config.duplicate());
    (player, config)
}

/// A random policy with two independent tables, before and after all Kings
/// are bought, together with both tables.
pub fn mk_random_player_all_kings(rng: &mut rand::rngs::StdRng) -> (r: (
    BuyPolicy,
    BuyPolicyConfig,
    BuyPolicyConfig,
))
    ensures
        policy_equiv(r.0, BuyPolicy::Costed { base: r.1, all_kings: r.2 }),
        r.1.priorities@.len() == 12,
        items_wf(r.1.priorities@),
        items_distinct(r.1.priorities@),
        forall|pt: BuyablePiece, n: int| 1 <= n <= 4 ==> #[trigger] has_entry(r.1.priorities@, pt, n),
        r.2.priorities@.len() == 12,
        items_wf(r.2.priorities@),
        items_distinct(r.2.priorities@),
        forall|pt: BuyablePiece, n: int| 1 <= n <= 4 ==> #[trigger] has_entry(r.2.priorities@, pt, n),
{
    let base_policy = BuyPolicyConfig { priorities: make_random_costed_policy(rng) };
    let kings_policy = BuyPolicyConfig { priorities: make_random_costed_policy(rng) };
    let player = mk_player_from_config(base_policy.duplicate(), kings_policy.duplicate());
    (player, base_policy, kings_policy)
}

/// Seats two policies at a fresh two-player game over a fresh deck and plays
/// it out.
fn play_single_match(
    rng: &mut rand::rngs::StdRng,
    first: &BuyPolicy,
    second: &BuyPolicy,
) -> MatchOutcome {
    let mut players: Vec<Player> = Vec::new();
    players.push(Player::new("first".to_owned(), first.duplicate()));
    players.push(Player::new("second".to_owned(), second.duplicate()));
    let deck = init_deck(rng);
    let mut game = Game { players, unbought_kings: 4, remaining_cards: deck };
    proof {
        let s = game.players@;
        assert(s.drop_last().drop_last() =~= Seq::<Player>::empty());
        assert(s.drop_last().last() == s[0]);
        assert(s.last() == s[1]);
        assert(sum_jacks(Seq::<Player>::empty()) == 0);
        assert(sum_queens(Seq::<Player>::empty()) == 0);
        assert(hands_len(Seq::<Player>::empty()) == 0);
        assert(sum_jacks(s.drop_last()) == s[0].jacks);
        assert(sum_queens(s.drop_last()) == s[0].queens);
        assert(hands_len(s.drop_last()) == s[0].hand@.len());
        assert(sum_jacks(s) == 0);
        assert(sum_queens(s) == 0);
        assert(hands_len(s) == 0);
        assert(game_wf(game));
        assert(joker_in_pile(game));
    }
    play_match(&mut game)
}

/// The half-point a seat earns from one match outcome: one exactly when
/// that seat won, nothing for a loss, a tie, or a shared failure.
pub fn half_point(outcome: MatchOutcome, seat: usize) -> (r: u64)
    ensures
        r == (if outcome == MatchOutcome::Winner(seat) {
            1int
        } else {
            0int
        }),
{
    match outcome {
        MatchOutcome::Winner(i) => if i == seat {
            1
        } else {
            0
        },
        _ => 0,
    }
}

/// Plays two matches between `a` and `b`, swapping which policy sits in the
/// first seat, and returns `a`'s score in half-points: one for winning the
/// first match from the first seat, one for winning the second match from
/// the second seat, so a sweep is worth two, a split one, and draws and
/// losses nothing.
pub fn play_policies_against_each_other(
    rng: &mut rand::rngs::StdRng,
    a: &BuyPolicy,
    b: &BuyPolicy,
) -> (score: u64)
    ensures
        score <= 2,
{
    let first_outcome = play_single_match(rng, a, b);
    let first_points = half_point(first_outcome, 0);
    let second_outcome = play_single_match(rng, b, a);
    let second_points = half_point(second_outcome, 1);
    first_points + second_points
}

/// Plays `times` independent matches against freshly generated random
/// opponents, with random seat assignment, and returns how many the policy
/// under test won outright; draws and shared failures count as non-wins.
pub fn eval_policy_against_random_policy(
    rng: &mut rand::rngs::StdRng,
    times: u64,
    policy: &BuyPolicy,
) -> (wins: u64)
    ensures
        wins <= times,
{
    let mut wins: u64 = 0;
    let mut t: u64 = 0;
    while t < times
        invariant
            wins <= t <= times,
        decreases times - t,
    {
        let (random_policy, _config) = mk_random_player(rng);
        let policy_first = random_bool(rng);
        let outcome = if policy_first {
            play_single_match(rng, policy, &random_policy)
        } else {
            play_single_match(rng, &random_policy, policy)
        };
        let seat: usize = if policy_first {
            0
        } else {
            1
        };
        wins = wins + half_point(outcome, seat);
        t += 1;
    }
    wins
}

/// Plays `x` head-to-head against every stored table in `tests` and returns
/// the total half-points earned, at most two per opponent.
pub fn eval_against_policy_set(
    rng: &mut rand::rngs::StdRng,
    x: &BuyPolicy,
    tests: &Vec<BuyPolicyConfig>,
) -> (points: u64)
    requires
        tests@.len() <= 1000000000,
    ensures
        points <= 2 * tests@.len(),
{
    let mut points: u64 = 0;
    let mut t: usize = 0;
    while t < tests.len()
        invariant
            tests@.len() <= 1000000000,
            0 <= t <= tests@.len(),
            points <= 2 * t,
        decreases tests@.len() - t,
    {
        let opponent = mk_player_from_config(tests[t].duplicate(), tests[t].duplicate());
        let s = play_policies_against_each_other(rng, x, &opponent);
        points = points + s;
        t += 1;
    }
    points
}

/// `points` out of `max_points`, scaled to thousandths and rounded down.
pub fn per_mille(points: u64, max_points: u64) -> (r: u64)
    requires
        max_points > 0,
        points <= max_points,
    ensures
        r == points * 1000 / (max_points as int),
        r <= 1000,
{
    let wide: u128 = (points as u128) * 1000 / (max_points as u128);
    proof {
        assert(points * 1000 / (max_points as int) <= 1000) by (nonlinear_arith)
            requires
                0 < max_points,
                points <= max_points,
        ;
    }
    wide as u64
}

/// The weighted blend that ranks a candidate: ten percent of its rate against
/// random opponents, twenty percent of its rate against the thirty-percent
/// corpus, seventy percent of its rate against the fifty-percent corpus, all
/// in thousandths.
pub fn combined_score_mil(random_mil: u64, thirty_mil: u64, fifty_mil: u64) -> (r: u64)
    requires
        random_mil <= 1000,
        thirty_mil <= 1000,
        fifty_mil <= 1000,
    ensures
        r == (random_mil * 100 + thirty_mil * 200 + fifty_mil * 700) / 1000,
        r <= 1000,
{
    (random_mil * 100 + thirty_mil * 200 + fifty_mil * 700) / 1000
}

/// One step of the policy search: draw a random candidate with independent
/// base and all-Kings tables, score it against `random_trials` random
/// opponents and head-to-head against both corpus tiers, blend the three
/// rates, and return the candidate's record. The record stream has always
/// carried a trial count of zero for searched candidates.
pub fn evaluate_candidate(
    rng: &mut rand::rngs::StdRng,
    random_trials: u64,
    corpus30: &Vec<BuyPolicyConfig>,
    corpus50: &Vec<BuyPolicyConfig>,
) -> (r: PolicyEvalResult)
    requires
        1 <= random_trials <= 1000000000,
        corpus30@.len() <= 1000000000,
        corpus50@.len() <= 1000000000,
    ensures
        r.score <= 1000,
        r.times == 0,
        record_ser_wf(r),
        r.policy.priorities@.len() == 12,
        items_wf(r.policy.priorities@),
        items_distinct(r.policy.priorities@),
        forall|pt: BuyablePiece, n: int| 1 <= n <= 4 ==> #[trigger] has_entry(
            r.policy.priorities@,
            pt,
            n,
        ),
        r.all_kings_policy matches Some(k) && k.priorities@.len() == 12 && items_wf(k.priorities@)
            && items_distinct(k.priorities@) && (forall|pt: BuyablePiece, n: int|
            1 <= n <= 4 ==> #[trigger] has_entry(k.priorities@, pt, n)),
        crate::codec::in_parse_range(r.policy.priorities@),
        (r.all_kings_policy matches Some(k) ==> crate::codec::in_parse_range(k.priorities@)),
{
    let (candidate, base_config, kings_config) = mk_random_player_all_kings(rng);
    let wins = eval_policy_against_random_policy(rng, random_trials, &candidate);
    let random_mil = per_mille(wins, random_trials);
    let p30 = eval_against_policy_set(rng, &candidate, corpus30);
    let thirty_mil = if corpus30.len() == 0 {
        0
    } else {
        per_mille(p30, 2 * (corpus30.len() as u64))
    };
    let p50 = eval_against_policy_set(rng, &candidate, corpus50);
    let fifty_mil = if corpus50.len() == 0 {
        0
    } else {
        per_mille(p50, 2 * (corpus50.len() as u64))
    };
    let score = combined_score_mil(random_mil, thirty_mil, fifty_mil);
    PolicyEvalResult {
        policy: base_config,
        all_kings_policy: Some(kings_config),
        score,
        times: 0,
    }
}

/// The profiling batch: from a fixed seed, draw `policies` random candidates
/// and score each against `times` random opponents; the result is the sum of
/// their win rates in thousandths.
pub fn run_profiling_scores(policies: u64, times: u64) -> (total_mil: u64)
    requires
        1 <= times <= 1000000000,
        policies <= 1000000,
    ensures
        total_mil <= 1000 * policies,
{
    let mut rng = crate::rng::seed_rng(123);
    let mut total: u64 = 0;
    let mut i: u64 = 0;
    while i < policies
        invariant
            0 <= i <= policies <= 1000000,
            1 <= times <= 1000000000,
            total <= 1000 * i,
        decreases policies - i,
    {
        let (candidate, _base, _kings) = mk_random_player_all_kings(&mut rng);
        let wins = eval_policy_against_random_policy(&mut rng, times, &candidate);
        let mil = per_mille(wins, times);
        total = total + mil;
        i += 1;
    }
    total
}

} // verus!
