//! The match engine: the Queen-driven reorder phase, the draw phase with its
//! terminal Joker and Ace-discard rules, the buy phase, the turn loop, and
//! terminal scoring.

use vstd::prelude::*;
use vstd::multiset::Multiset;
use vstd::seq_lib::lemma_multiset_commutative;
use crate::cards::{lemma_score_bounds, score_spec, Card, CardList};
use crate::evaluator::{buy_action_ok, buy_choice_spec, evaluate_buy_policy};
use crate::game::{
    all_cards, game_wf, hands_cards, hands_len, joker_in_pile, lemma_hands_len_member,
    lemma_hands_len_nonneg, lemma_players_insert, lemma_players_remove, lemma_sum_jacks_member,
    lemma_sum_queens_member, sum_jacks, sum_queens, Game, Player,
};
use crate::policy::Buy;
use crate::rng::shuffle_vec;

verus! {

broadcast use
    vstd::seq_lib::group_to_multiset_ensures,
    vstd::multiset::group_multiset_axioms;

/// Values never rise along the sequence: the lowest-valued card sits at the
/// end, where the next draw pops.
pub open spec fn sorted_desc_by_value(s: Seq<Card>) -> bool {
    forall|a: int, b: int|
        0 <= a < b < s.len() ==> (#[trigger] s[a]).value_spec() >= (#[trigger] s[b]).value_spec()
}

/// Insertion sort by descending card value.
fn sort_cards_descending(v: &mut Vec<Card>)
    ensures
        final(v)@.len() == old(v)@.len(),
        final(v)@.to_multiset() == old(v)@.to_multiset(),
        sorted_desc_by_value(final(v)@),
{
    let mut i: usize = 0;
    while i < v.len()
        invariant
            0 <= i <= v@.len(),
            v@.len() == old(v)@.len(),
            v@.to_multiset() == old(v)@.to_multiset(),
            sorted_desc_by_value(v@.take(i as int)),
        decreases v@.len() - i,
    {
        proof {
            assert forall|a: int, b: int|
                0 <= a < b <= i && a != i && b != i implies (#[trigger] v@[a]).value_spec()
                >= (#[trigger] v@[b]).value_spec() by {
                assert(v@.take(i as int)[a] == v@[a]);
                assert(v@.take(i as int)[b] == v@[b]);
            }
        }
        let mut j: usize = i;
        while j > 0 && v[j - 1].value() < v[j].value()
            invariant
                0 <= j <= i < v@.len(),
                v@.len() == old(v)@.len(),
                v@.to_multiset() == old(v)@.to_multiset(),
                forall|a: int, b: int|
                    0 <= a < b <= i && a != j && b != j ==> (#[trigger] v@[a]).value_spec()
                        >= (#[trigger] v@[b]).value_spec(),
                forall|b: int|
                    j < b <= i ==> v@[j as int].value_spec() >= (#[trigger] v@[b]).value_spec(),
            decreases j,
        {
            let ghost before = v@;
            let hi = v[j - 1];
            let lo = v[j];
            v[j - 1] = lo;
            v[j] = hi;
            proof {
                assert(v@ =~= before.update(j - 1, before[j as int]).update(
                    j as int,
                    before[j - 1],
                ));
                assert(v@.to_multiset() =~= before.to_multiset());
            }
            j -= 1;
        }
        proof {
            assert forall|a: int, b: int|
                0 <= a < b <= i implies (#[trigger] v@[a]).value_spec()
                >= (#[trigger] v@[b]).value_spec() by {
                if b == j {
                    assert(j > 0 ==> v@[j - 1].value_spec() >= v@[j as int].value_spec());
                }
            }
            assert(sorted_desc_by_value(v@.take(i + 1)));
        }
        i += 1;
    }
    proof {
        assert(v@.take(v@.len() as int) =~= v@);
    }
}

/// Executes the reorder phase for the player with `queens` Queens: the top
/// `queens + 1` cards (fewer if the pile is smaller) are removed and put back
/// sorted, lowest value on top, so the lowest card becomes the very next
/// draw. The rest of the pile is untouched.
fn reorder_pile(pile: &mut CardList, queens: i64)
    requires
        1 <= queens <= 4,
        old(pile)@.len() <= 1000000,
    ensures
        final(pile)@.len() == old(pile)@.len(),
        final(pile)@.to_multiset() == old(pile)@.to_multiset(),
        ({
            let n = old(pile)@.len() as int;
            let k = if queens + 1 <= n { queens + 1 } else { n };
            &&& final(pile)@.take(n - k) == old(pile)@.take(n - k)
            &&& final(pile)@.skip(n - k).to_multiset() == old(pile)@.skip(n - k).to_multiset()
            &&& sorted_desc_by_value(final(pile)@.skip(n - k))
        }),
{
    let ghost p_start = old(pile)@;
    let ghost n = old(pile)@.len() as int;
    let ghost k = if queens + 1 <= n { queens + 1 } else { n };

    let mut cards: Vec<Card> = Vec::new();
    let mut t: i64 = 0;
    while t < queens + 1
        invariant
            1 <= queens <= 4,
            0 <= t <= queens + 1,
            n == p_start.len(),
            k == (if queens + 1 <= n { queens + 1 } else { n }),
            cards@.len() == (if t <= n { t as int } else { n }),
            pile@ == p_start.take(n - cards@.len()),
            cards@.to_multiset() == p_start.skip(n - cards@.len()).to_multiset(),
        decreases queens + 1 - t,
    {
        if !pile.is_empty() {
            let ghost taken = cards@.len() as int;
            let c = pile.draw_top_card();
            proof {
                let m = n - taken;
                assert(p_start.take(m).drop_last() =~= p_start.take(m - 1));
                assert(p_start.take(m).last() == p_start[m - 1]);
                assert(p_start.skip(m - 1) =~= seq![p_start[m - 1]] + p_start.skip(m));
                lemma_multiset_commutative(seq![p_start[m - 1]], p_start.skip(m));
                assert(seq![p_start[m - 1]] =~= Seq::<Card>::empty().push(p_start[m - 1]));
                assert(Seq::<Card>::empty().to_multiset() =~= Multiset::<Card>::empty());
                assert(p_start.skip(m - 1).to_multiset() =~= p_start.skip(m).to_multiset().insert(
                    p_start[m - 1],
                ));
            }
            cards.push(c);
            proof {
                assert(cards@.to_multiset() =~= p_start.skip(n - cards@.len()).to_multiset());
            }
        }
        t += 1;
    }
    proof {
        assert(cards@.len() == k);
    }

    sort_cards_descending(&mut cards);

    let mut j: usize = 0;
    while j < cards.len()
        invariant
            0 <= j <= cards@.len(),
            cards@.len() == k,
            n == p_start.len(),
            0 <= k <= n,
            pile@ == p_start.take(n - k) + cards@.take(j as int),
            cards@.to_multiset() == p_start.skip(n - k).to_multiset(),
            sorted_desc_by_value(cards@),
        decreases cards@.len() - j,
    {
        let c = cards[j];
        pile.place_card_on_top(c);
        proof {
            assert(pile@ =~= p_start.take(n - k) + cards@.take(j + 1));
        }
        j += 1;
    }
    proof {
        assert(cards@.take(cards@.len() as int) =~= cards@);
        assert(pile@ == p_start.take(n - k) + cards@);
        lemma_multiset_commutative(p_start.take(n - k), cards@);
        lemma_multiset_commutative(p_start.take(n - k), p_start.skip(n - k));
        assert(p_start.take(n - k) + p_start.skip(n - k) =~= p_start);
        assert(pile@.to_multiset() =~= p_start.to_multiset());
        assert(pile@.take(n - k) =~= p_start.take(n - k));
        assert(pile@.skip(n - k) =~= cards@);
    }
}

/// The default reorder policy: a no-op for players without Queens; otherwise
/// the acting player peeks at the top `queens + 1` cards of the pile and puts
/// them back sorted so the lowest value is drawn first. Hands, piece counts
/// and the rest of the pile are untouched.
#[allow(non_snake_case)]
pub fn DEFAULT_REORDER_POLICY(game: &mut Game, current_player_idx: usize)
    requires
        game_wf(*old(game)),
        current_player_idx < old(game).players@.len(),
    ensures
        final(game).players == old(game).players,
        final(game).unbought_kings == old(game).unbought_kings,
        final(game).remaining_cards@.len() == old(game).remaining_cards@.len(),
        final(game).remaining_cards@.to_multiset() == old(game).remaining_cards@.to_multiset(),
        game_wf(*final(game)),
        joker_in_pile(*old(game)) ==> joker_in_pile(*final(game)),
        ({
            let n = old(game).remaining_cards@.len() as int;
            let q = old(game).players@[current_player_idx as int].queens;
            let k = if q == 0 {
                0
            } else if q + 1 <= n {
                q + 1
            } else {
                n
            };
            &&& final(game).remaining_cards@.take(n - k) == old(game).remaining_cards@.take(n - k)
            &&& sorted_desc_by_value(final(game).remaining_cards@.skip(n - k))
        }),
{
    let queens = game.players[current_player_idx].queens;
    proof {
        lemma_sum_queens_member(game.players@, current_player_idx as int);
        lemma_hands_len_nonneg(game.players@);
        if queens == 0 {
            let n = game.remaining_cards@.len() as int;
            assert(game.remaining_cards@.take(n - 0) =~= game.remaining_cards@);
            assert(game.remaining_cards@.skip(n - 0) =~= Seq::<Card>::empty());
        }
    }
    if queens == 0 {
        return;
    }
    reorder_pile(&mut game.remaining_cards, queens);
    proof {
        if joker_in_pile(*old(game)) {
            assert(game.remaining_cards@.to_multiset().contains(Card::JOKER));
        }
    }
}

/// The turn loop never renames a player, never swaps a policy, and never
/// takes a bought piece away.
/// Every player idles: nobody ever buys anything.
pub open spec fn all_idle(s: Seq<Player>) -> bool {
    forall|i: int| 0 <= i < s.len() ==> (#[trigger] s[i]).buy_policy is Idle
}

pub open spec fn players_frame(s0: Seq<Player>, s1: Seq<Player>) -> bool {
    &&& s1.len() == s0.len()
    &&& forall|i: int|
        0 <= i < s0.len() ==> (#[trigger] s1[i]).name == s0[i].name && s1[i].buy_policy
            == s0[i].buy_policy && s1[i].jacks >= s0[i].jacks && s1[i].queens >= s0[i].queens
}

/// The draw phase for one player: draw `1 + jacks` cards one at a time.
/// A drawn Joker ends the match at once, without entering any hand. A drawn
/// Ace while Kings remain unbought discards the whole hand first; the Ace
/// itself is kept. No card is created: the pile and hand together only lose
/// cards, and the pile always shrinks by at least the one card drawn.
fn draw_cards(pile: &mut CardList, p: &mut Player, unbought_kings: i64) -> (terminal: bool)
    requires
        old(pile)@.contains(Card::JOKER),
        0 <= old(p).jacks <= 4,
        old(pile)@.len() + old(p).hand@.len() <= 1000000,
    ensures
        final(p).name == old(p).name,
        final(p).jacks == old(p).jacks,
        final(p).queens == old(p).queens,
        final(p).buy_policy == old(p).buy_policy,
        final(pile)@.len() + final(p).hand@.len() <= old(pile)@.len() + old(p).hand@.len(),
        final(pile)@.to_multiset().add(final(p).hand@.to_multiset()) <= old(
            pile,
        )@.to_multiset().add(old(p).hand@.to_multiset()),
        !terminal ==> final(pile)@.contains(Card::JOKER),
        !terminal ==> final(pile)@.to_multiset().count(Card::JOKER) == old(
            pile,
        )@.to_multiset().count(Card::JOKER),
        terminal ==> final(pile)@.to_multiset().count(Card::JOKER) == old(
            pile,
        )@.to_multiset().count(Card::JOKER) - 1,
        final(pile)@.len() < old(pile)@.len(),
{
    let cards_to_draw = 1 + p.jacks;
    let mut d: i64 = 0;
    while d < cards_to_draw
        invariant
            0 <= d <= cards_to_draw == 1 + p.jacks,
            p.name == old(p).name,
            p.jacks == old(p).jacks,
            p.queens == old(p).queens,
            p.buy_policy == old(p).buy_policy,
            pile@.contains(Card::JOKER),
            pile@.to_multiset().count(Card::JOKER) == old(pile)@.to_multiset().count(Card::JOKER),
            pile@.len() == old(pile)@.len() - d,
            pile@.len() + p.hand@.len() <= old(pile)@.len() + old(p).hand@.len(),
            pile@.to_multiset().add(p.hand@.to_multiset()) <= old(pile)@.to_multiset().add(
                old(p).hand@.to_multiset(),
            ),
        decreases cards_to_draw - d,
    {
        let ghost pile_before = pile@;
        let ghost hand_before = p.hand@;
        let draw = pile.draw_top_card();
        proof {
            assert(pile@.push(draw) =~= pile_before);
            assert(pile_before.to_multiset() == pile@.to_multiset().insert(draw));
        }
        if draw == Card::JOKER {
            return true;
        }
        proof {
            assert(pile_before.to_multiset().count(Card::JOKER) == pile@.to_multiset().count(
                Card::JOKER,
            ) + if draw == Card::JOKER {
                1int
            } else {
                0int
            });
            assert(pile@.to_multiset().contains(Card::JOKER));
        }
        if draw == Card::ACE && unbought_kings > 0 {
            p.hand = CardList::new();
        }
        let ghost base = p.hand@;
        p.hand.place_card_on_top(draw);
        proof {
            assert(Seq::<Card>::empty().to_multiset() =~= Multiset::<Card>::empty());
            assert(p.hand@ == base.push(draw));
            assert(base.push(draw).to_multiset() == base.to_multiset().insert(draw));
            assert(base.to_multiset() <= hand_before.to_multiset());
            assert(pile@.to_multiset().add(p.hand@.to_multiset()) <= pile_before.to_multiset().add(
                hand_before.to_multiset(),
            ));
        }
        d += 1;
    }
    false
}

/// The card a purchase action spends.
pub open spec fn spent_card(b: Buy) -> Card {
    match b {
        Buy::JackWith(c) => c,
        Buy::QueenWith(c) => c,
        Buy::KingWith(c) => c,
    }
}

/// Applies an evaluator's action: the spent card leaves the acting player's
/// Exactly how an accepted action changes the state: the spent card leaves
/// the acting player's hand, the bought piece is credited to the player or
/// taken off the King counter, and nothing else moves; no action leaves the
/// state untouched.
pub open spec fn buy_applied(g0: Game, idx: int, action: Option<Buy>, g1: Game) -> bool {
    match action {
        Option::None => g1 == g0,
        Option::Some(b) => {
            let c = spent_card(b);
            &&& g1.remaining_cards == g0.remaining_cards
            &&& g1.players@.len() == g0.players@.len()
            &&& g1.players@[idx].hand@.to_multiset() == g0.players@[idx].hand@.to_multiset().remove(
                c,
            )
            &&& forall|j: int|
                0 <= j < g0.players@.len() && j != idx ==> g1.players@[j] == #[trigger] g0.players@[j]
            &&& g1.players@[idx].name == g0.players@[idx].name
            &&& g1.players@[idx].buy_policy == g0.players@[idx].buy_policy
            &&& g1.unbought_kings == g0.unbought_kings - (if b is KingWith {
                1int
            } else {
                0int
            })
            &&& g1.players@[idx].jacks == g0.players@[idx].jacks + (if b is JackWith {
                1int
            } else {
                0int
            })
            &&& g1.players@[idx].queens == g0.players@[idx].queens + (if b is QueenWith {
                1int
            } else {
                0int
            })
        },
    }
}

/// Applies an evaluator's action, exactly as `buy_applied` states.
fn apply_buy(game: &mut Game, idx: usize, action: Option<Buy>)
    requires
        game_wf(*old(game)),
        idx < old(game).players@.len(),
        buy_action_ok(*old(game), idx as int, action),
    ensures
        game_wf(*final(game)),
        final(game).remaining_cards == old(game).remaining_cards,
        players_frame(old(game).players@, final(game).players@),
        0 <= final(game).unbought_kings <= old(game).unbought_kings,
        all_cards(*final(game)) <= all_cards(*old(game)),
        buy_applied(*old(game), idx as int, action, *final(game)),
{
    let ghost s0 = old(game).players@;
    match action {
        Option::None => {},
        Option::Some(b) => {
            proof {
                lemma_players_remove(s0, idx as int);
                lemma_sum_jacks_member(s0, idx as int);
                lemma_sum_queens_member(s0, idx as int);
            }
            let mut p = game.players.remove(idx);
            let ghost hand0 = p.hand@;
            match b {
                Buy::KingWith(card) => {
                    p.hand.remove_card_of_type(card);
                    game.unbought_kings = game.unbought_kings - 1;
                },
                Buy::JackWith(card) => {
                    p.hand.remove_card_of_type(card);
                    p.jacks = p.jacks + 1;
                },
                Buy::QueenWith(card) => {
                    p.hand.remove_card_of_type(card);
                    p.queens = p.queens + 1;
                },
            }
            proof {
                lemma_players_insert(s0.remove(idx as int), idx as int, p);
            }
            game.players.insert(idx, p);
            proof {
                assert(game.players@ == s0.remove(idx as int).insert(idx as int, p));
                assert(game.players@ =~= s0.update(idx as int, p));
                assert forall|j: int|
                    0 <= j < s0.len() && j != idx implies game.players@[j] == #[trigger] s0[j] by {}
                assert(hands_cards(game.players@).add(s0[idx as int].hand@.to_multiset())
                    == hands_cards(s0.remove(idx as int)).add(s0[idx as int].hand@.to_multiset()).add(
                    p.hand@.to_multiset(),
                ));
                assert(all_cards(*game) <= all_cards(*old(game)));
            }
        },
    }
}

/// How a finished match ended: the shared objective was missed entirely, the
/// top hand values tied, or one player won outright.
#[derive(Debug, Eq, PartialEq, Hash, Clone)]
pub enum GameResult {
    Paperclips,
    Draw,
    WinnerNamed(String),
}

/// As `GameResult`, but naming the winner by seat index.
#[derive(Debug, Clone, Copy, PartialEq, Eq, Structural)]
pub enum MatchOutcome {
    Paperclips,
    Draw,
    Winner(usize),
}

/// The highest hand value among the players (a sentinel below every real
/// score when there are none).
pub open spec fn max_score(s: Seq<Player>) -> int
    decreases s.len(),
{
    if s.len() == 0 {
        -1000
    } else {
        let rest = max_score(s.drop_last());
        let sc = score_spec(s.last().hand@);
        if sc > rest {
            sc
        } else {
            rest
        }
    }
}

/// How many players' hand values equal `m`.
pub open spec fn count_max(s: Seq<Player>, m: int) -> int
    decreases s.len(),
{
    if s.len() == 0 {
        0
    } else {
        count_max(s.drop_last(), m) + (if score_spec(s.last().hand@) == m {
            1int
        } else {
            0int
        })
    }
}

/// No hand value exceeds the maximum.
pub proof fn lemma_count_above_max(s: Seq<Player>, m: int)
    requires
        m > max_score(s),
    ensures
        count_max(s, m) == 0,
    decreases s.len(),
{
    if s.len() > 0 {
        lemma_count_above_max(s.drop_last(), m);
    }
}

/// What the terminal state is worth: `Paperclips` whenever a King was left
/// unbought; otherwise `Draw` when two or more players tie for the highest
/// hand value, and the unique top scorer wins when there is exactly one.
pub open spec fn outcome_matches(g: Game, r: MatchOutcome) -> bool {
    if g.unbought_kings > 0 {
        r == MatchOutcome::Paperclips
    } else {
        let m = max_score(g.players@);
        if count_max(g.players@, m) >= 2 {
            r == MatchOutcome::Draw
        } else {
            r matches MatchOutcome::Winner(i) && 0 <= (i as int) < g.players@.len() && score_spec(
                g.players@[i as int].hand@,
            ) == m
        }
    }
}

/// Scores a finished match.
pub fn resolve_outcome(game: &Game) -> (r: MatchOutcome)
    requires
        game_wf(*game),
    ensures
        outcome_matches(*game, r),
{
    if game.unbought_kings > 0 {
        return MatchOutcome::Paperclips;
    }
    let ghost s = game.players@;
    let mut highest: i64 = -1000;
    let mut num: i64 = -1;
    let mut i: usize = 0;
    while i < game.players.len()
        invariant
            s == game.players@,
            game_wf(*game),
            game.unbought_kings <= 0,
            0 <= i <= s.len(),
            i == 0 ==> highest == -1000 && num == -1,
            i > 0 ==> highest == max_score(s.take(i as int)) && 0 <= highest <= 10000000,
            i > 0 ==> num == count_max(s.take(i as int), highest as int) && 1 <= num <= i,
        decreases s.len() - i,
    {
        proof {
            lemma_hands_len_member(s, i as int);
            lemma_score_bounds(s[i as int].hand@);
            assert(s.take(i + 1).drop_last() =~= s.take(i as int));
            assert(s.take(i + 1).last() == s[i as int]);
        }
        let sc = game.players[i].hand.score_hand();
        if sc > highest {
            proof {
                lemma_count_above_max(s.take(i as int), sc as int);
            }
            highest = sc;
            num = 0;
        }
        if sc == highest {
            num = num + 1;
        }
        i += 1;
    }
    proof {
        assert(s.take(s.len() as int) =~= s);
    }
    if num >= 2 {
        return MatchOutcome::Draw;
    }
    let mut j: usize = 0;
    while j < game.players.len()
        invariant
            s == game.players@,
            game_wf(*game),
            game.unbought_kings <= 0,
            0 <= j <= s.len(),
            highest == max_score(s),
            count_max(s, highest as int) == 1,
            count_max(s.take(j as int), highest as int) == 0,
        decreases s.len() - j,
    {
        proof {
            lemma_hands_len_member(s, j as int);
            assert(s.take(j + 1).drop_last() =~= s.take(j as int));
            assert(s.take(j + 1).last() == s[j as int]);
        }
        let sc = game.players[j].hand.score_hand();
        if sc == highest {
            return MatchOutcome::Winner(j);
        }
        j += 1;
    }
    proof {
        assert(s.take(s.len() as int) =~= s);
        assert(false);
    }
    MatchOutcome::Draw
}

/// Plays a match to its end: each turn reorders, draws, and buys, then play
/// passes to the next seat; a drawn Joker ends the match. Within the match
/// the unbought-King count never rises and never goes negative, no card is
/// ever created, and players keep their names, policies and bought pieces.
/// The reorder-then-draw half of a turn: only the pile and the acting
/// player's hand change; the counters and every other player stand still,
/// no card is created, the pile strictly shrinks, and the Joker leaves the
/// pile exactly when the turn is terminal.
pub open spec fn draw_phase_rel(g0: Game, idx: int, gd: Game, terminal: bool) -> bool {
    &&& gd.unbought_kings == g0.unbought_kings
    &&& gd.players@.len() == g0.players@.len()
    &&& forall|j: int|
        0 <= j < g0.players@.len() && j != idx ==> gd.players@[j] == #[trigger] g0.players@[j]
    &&& gd.players@[idx].name == g0.players@[idx].name
    &&& gd.players@[idx].jacks == g0.players@[idx].jacks
    &&& gd.players@[idx].queens == g0.players@[idx].queens
    &&& gd.players@[idx].buy_policy == g0.players@[idx].buy_policy
    &&& all_cards(gd) <= all_cards(g0)
    &&& gd.remaining_cards@.len() < g0.remaining_cards@.len()
    &&& (terminal ==> gd.remaining_cards@.to_multiset().count(Card::JOKER)
        == g0.remaining_cards@.to_multiset().count(Card::JOKER) - 1)
    &&& (!terminal ==> gd.remaining_cards@.to_multiset().count(Card::JOKER)
        == g0.remaining_cards@.to_multiset().count(Card::JOKER)
        && gd.remaining_cards@.contains(Card::JOKER))
}

/// One full turn for the acting player: the reorder phase, then the draw
/// phase, then — unless the Joker ended the match — the buy phase, which
/// applies exactly what the player's own policy chooses in the post-draw
/// state: there is a post-draw state `gd` reached by reordering and drawing
/// from which the final state follows by `buy_applied` on
/// `buy_choice_spec(gd)`.
pub fn play_turn(game: &mut Game, current_player_idx: usize) -> (terminal: bool)
    requires
        game_wf(*old(game)),
        joker_in_pile(*old(game)),
        current_player_idx < old(game).players@.len(),
    ensures
        game_wf(*final(game)),
        players_frame(old(game).players@, final(game).players@),
        0 <= final(game).unbought_kings <= old(game).unbought_kings,
        all_cards(*final(game)) <= all_cards(*old(game)),
        final(game).remaining_cards@.len() < old(game).remaining_cards@.len(),
        !terminal ==> joker_in_pile(*final(game)),
        !terminal ==> final(game).remaining_cards@.to_multiset().count(Card::JOKER) == old(
            game,
        ).remaining_cards@.to_multiset().count(Card::JOKER),
        terminal ==> final(game).remaining_cards@.to_multiset().count(Card::JOKER) == old(
            game,
        ).remaining_cards@.to_multiset().count(Card::JOKER) - 1,
        all_idle(old(game).players@) ==> final(game).unbought_kings == old(game).unbought_kings,
        exists|gd: Game|
            #[trigger] draw_phase_rel(*old(game), current_player_idx as int, gd, terminal) && (
            if terminal {
                *final(game) == gd
            } else {
                buy_applied(
                    gd,
                    current_player_idx as int,
                    buy_choice_spec(gd, current_player_idx as int),
                    *final(game),
                )
            }),
{
    {
        let ghost g_turn = *game;
        DEFAULT_REORDER_POLICY(game, current_player_idx);
        proof {
            assert(hands_cards(game.players@) == hands_cards(g_turn.players@));
            assert(all_cards(*game) <= all_cards(*old(game)));
        }
        let ghost g_reordered = *game;
        let ghost s_pre = game.players@;
        let ghost idx = current_player_idx as int;
        proof {
            lemma_players_remove(s_pre, idx);
            lemma_sum_jacks_member(s_pre, idx);
            lemma_hands_len_member(s_pre, idx);
        }
        let mut p = game.players.remove(current_player_idx);
        let t = draw_cards(&mut game.remaining_cards, &mut p, game.unbought_kings);
        proof {
            lemma_players_insert(s_pre.remove(idx), idx, p);
        }
        game.players.insert(current_player_idx, p);
        proof {
            assert(game.players@ == s_pre.remove(idx).insert(idx, p));
            assert(game.players@ =~= s_pre.update(idx, p));
            assert forall|j: int|
                0 <= j < s_pre.len() && j != idx implies game.players@[j] == #[trigger] s_pre[j] by {}
            assert(game.players@[idx] == p);
            assert(players_frame(s_pre, game.players@));
            assert(players_frame(old(game).players@, game.players@));
            assert(sum_jacks(game.players@) == sum_jacks(s_pre));
            assert(sum_queens(game.players@) == sum_queens(s_pre));
            assert(hands_len(game.players@) + game.remaining_cards@.len() <= hands_len(s_pre)
                + g_reordered.remaining_cards@.len());
            assert(game_wf(*game));
            assert(hands_cards(game.players@) == hands_cards(s_pre.remove(idx)).add(
                p.hand@.to_multiset(),
            ));
            assert(hands_cards(s_pre.remove(idx)).add(s_pre[idx].hand@.to_multiset())
                == hands_cards(s_pre));
            assert forall|v: Card|
                hands_cards(game.players@).add(game.remaining_cards@.to_multiset()).count(v)
                    <= hands_cards(s_pre).add(g_reordered.remaining_cards@.to_multiset()).count(
                    v,
                ) by {
                assert(game.remaining_cards@.to_multiset().add(p.hand@.to_multiset()).count(v)
                    <= g_reordered.remaining_cards@.to_multiset().add(
                    s_pre[idx].hand@.to_multiset(),
                ).count(v));
            }
            assert(all_cards(*game) <= all_cards(g_reordered));
            assert(all_cards(*game) <= all_cards(*old(game)));
        }
        let ghost gd = *game;
        proof {
            assert(s_pre == old(game).players@);
            assert(draw_phase_rel(*old(game), idx, gd, t));
        }
        if t {
            proof {
                assert(*game == gd);
            }
            return true;
        }
        let action = evaluate_buy_policy(game, current_player_idx);
        proof {
            assert(action == buy_choice_spec(gd, idx));
            if all_idle(old(game).players@) {
                assert(game.players@[idx].buy_policy == old(game).players@[idx].buy_policy);
                assert(action is None);
            }
        }
        apply_buy(game, current_player_idx, action);
        proof {
            assert(buy_applied(gd, idx, buy_choice_spec(gd, idx), *game));
            assert(players_frame(gd.players@, game.players@));
            assert(players_frame(old(game).players@, game.players@));
            assert(all_cards(*game) <= all_cards(*old(game)));
            assert(game.remaining_cards@.contains(Card::JOKER));
            assert(draw_phase_rel(*old(game), idx, gd, false));
        }
        false
    }
}

/// Plays a match to its end: `play_turn` for each player in order, wrapping
/// to the first seat, until a turn draws the Joker. Within the match the
/// unbought-King count never rises and never goes negative, no card is ever
/// created, and players keep their names, policies and bought pieces.
pub fn play_match(game: &mut Game) -> (r: MatchOutcome)
    requires
        game_wf(*old(game)),
        joker_in_pile(*old(game)),
    ensures
        game_wf(*final(game)),
        players_frame(old(game).players@, final(game).players@),
        0 <= final(game).unbought_kings <= old(game).unbought_kings,
        all_cards(*final(game)) <= all_cards(*old(game)),
        final(game).remaining_cards@.to_multiset().count(Card::JOKER) == old(
            game,
        ).remaining_cards@.to_multiset().count(Card::JOKER) - 1,
        all_idle(old(game).players@) ==> final(game).unbought_kings == old(game).unbought_kings,
        outcome_matches(*final(game), r),
{
    let mut current_player_idx: usize = 0;
    let mut terminal = false;
    while !terminal
        invariant
            game_wf(*game),
            all_idle(old(game).players@) ==> game.unbought_kings == old(game).unbought_kings,
            !terminal ==> joker_in_pile(*game),
            !terminal ==> game.remaining_cards@.to_multiset().count(Card::JOKER) == old(
                game,
            ).remaining_cards@.to_multiset().count(Card::JOKER),
            terminal ==> game.remaining_cards@.to_multiset().count(Card::JOKER) == old(
                game,
            ).remaining_cards@.to_multiset().count(Card::JOKER) - 1,
            current_player_idx < game.players@.len(),
            players_frame(old(game).players@, game.players@),
            0 <= game.unbought_kings <= old(game).unbought_kings,
            all_cards(*game) <= all_cards(*old(game)),
        decreases game.remaining_cards@.len(),
    {
        let ghost g_entry = *game;
        proof {
            if all_idle(old(game).players@) {
                assert forall|i: int| 0 <= i < g_entry.players@.len() implies (
                #[trigger] g_entry.players@[i]).buy_policy is Idle by {
                    assert(g_entry.players@[i].buy_policy == old(game).players@[i].buy_policy);
                }
            }
        }
        let t = play_turn(game, current_player_idx);
        proof {
            assert(players_frame(old(game).players@, game.players@));
            assert(all_cards(*game) <= all_cards(*old(game)));
        }
        if t {
            terminal = true;
        } else {
            current_player_idx += 1;
            if current_player_idx == game.players.len() {
                current_player_idx = 0;
            }
        }
    }
    resolve_outcome(&*game)
}

/// Plays a match and names the result: `Paperclips` exactly when the match
/// ended with a King unbought; otherwise `Draw` on a tie for the top hand
/// value, and the unique top scorer's name when there is one.
pub fn verbose_play_game(game: &mut Game) -> (r: GameResult)
    requires
        game_wf(*old(game)),
        joker_in_pile(*old(game)),
    ensures
        game_wf(*final(game)),
        players_frame(old(game).players@, final(game).players@),
        0 <= final(game).unbought_kings <= old(game).unbought_kings,
        all_cards(*final(game)) <= all_cards(*old(game)),
        final(game).remaining_cards@.to_multiset().count(Card::JOKER) == old(
            game,
        ).remaining_cards@.to_multiset().count(Card::JOKER) - 1,
        all_idle(old(game).players@) ==> final(game).unbought_kings == old(game).unbought_kings,
        (r == GameResult::Paperclips <==> final(game).unbought_kings > 0),
        final(game).unbought_kings == 0 ==> ({
            let m = max_score(final(game).players@);
            &&& (r == GameResult::Draw <==> count_max(final(game).players@, m) >= 2)
            &&& (count_max(final(game).players@, m) < 2 ==> (r matches GameResult::WinnerNamed(n)
                && exists|i: int|
                    0 <= i < final(game).players@.len() && score_spec(
                        #[trigger] final(game).players@[i].hand@,
                    ) == m && n@ == final(game).players@[i].name@))
        }),
{
    let outcome = play_match(game);
    match outcome {
        MatchOutcome::Paperclips => GameResult::Paperclips,
        MatchOutcome::Draw => GameResult::Draw,
        MatchOutcome::Winner(i) => {
            let name = game.players[i].name.clone();
            proof {
                let m = max_score(game.players@);
                assert(score_spec(game.players@[i as int].hand@) == m && name@
                    == game.players@[i as int].name@);
            }
            GameResult::WinnerNamed(name)
        },
    }
}

/// The ten ranked cards of one suit, Ace up to Ten.
pub open spec fn suit_seq() -> Seq<Card> {
    seq![
        Card::ACE,
        Card::TWO,
        Card::THREE,
        Card::FOUR,
        Card::FIVE,
        Card::SIX,
        Card::SEVEN,
        Card::EIGHT,
        Card::NINE,
        Card::TEN,
    ]
}

proof fn lemma_suit_counts(c: Card)
    ensures
        suit_seq().to_multiset().count(c) == if c == Card::JOKER {
            0int
        } else {
            1int
        },
{
    let s = suit_seq();
    assert(s =~= Seq::<Card>::empty().push(Card::ACE).push(Card::TWO).push(Card::THREE).push(
        Card::FOUR,
    ).push(Card::FIVE).push(Card::SIX).push(Card::SEVEN).push(Card::EIGHT).push(Card::NINE).push(
        Card::TEN,
    ));
    assert(Seq::<Card>::empty().to_multiset() =~= Multiset::<Card>::empty());
}

/// Appends one full suit.
fn push_suit(cards: &mut Vec<Card>)
    ensures
        final(cards)@ == old(cards)@ + suit_seq(),
{
    cards.push(Card::ACE);
    cards.push(Card::TWO);
    cards.push(Card::THREE);
    cards.push(Card::FOUR);
    cards.push(Card::FIVE);
    cards.push(Card::SIX);
    cards.push(Card::SEVEN);
    cards.push(Card::EIGHT);
    cards.push(Card::NINE);
    cards.push(Card::TEN);
    proof {
        assert(cards@ =~= old(cards)@ + suit_seq());
    }
}

/// The index of the first Joker.
fn joker_position(cards: &Vec<Card>) -> (r: usize)
    requires
        cards@.contains(Card::JOKER),
    ensures
        r < cards@.len(),
        cards@[r as int] == Card::JOKER,
{
    proof {
        cards@.index_of_first_ensures(Card::JOKER);
    }
    let ghost target = cards@.index_of_first(Card::JOKER)->Some_0;
    let mut i: usize = 0;
    while i < cards.len()
        invariant
            0 <= i <= target < cards@.len(),
            cards@[target] == Card::JOKER,
            forall|j: int| 0 <= j < target ==> cards@[j] != Card::JOKER,
            forall|j: int| 0 <= j < i ==> cards@[j] != Card::JOKER,
        decreases cards@.len() - i,
    {
        if cards[i] == Card::JOKER {
            return i;
        }
        i += 1;
    }
    proof {
        assert(false);
    }
    0
}

/// A value sitting at two distinct positions occurs at least twice.
pub proof fn lemma_count_two_positions<T>(s: Seq<T>, i: int, j: int)
    requires
        0 <= i < j < s.len(),
        s[i] == s[j],
    ensures
        s.to_multiset().count(s[i]) >= 2,
{
    let t = s.remove(i);
    assert(t[j - 1] == s[j]);
    assert(t.contains(s[j]));
    assert(t.to_multiset().count(s[i]) > 0);
    assert(t.to_multiset() == s.to_multiset().remove(s[i]));
}

/// Builds and shuffles the 41-card deck: one Joker plus four full suits,
/// reshuffled until the Joker cannot appear among the first fourteen draws,
/// then reversed so that drawing pops cards in deal order.
pub fn init_deck(rng: &mut rand::rngs::StdRng) -> (deck: CardList)
    ensures
        deck@.len() == 41,
        deck@.to_multiset().count(Card::JOKER) == 1,
        forall|c: Card| c != Card::JOKER ==> deck@.to_multiset().count(c) == 4,
        forall|i: int| deck@.len() - 14 <= i < deck@.len() ==> deck@[i] != Card::JOKER,
        deck@.contains(Card::JOKER),
{
    let mut cards: Vec<Card> = Vec::new();
    cards.push(Card::JOKER);
    proof {
        assert(cards@ =~= Seq::<Card>::empty().push(Card::JOKER));
        assert(Seq::<Card>::empty().to_multiset() =~= Multiset::<Card>::empty());
    }
    let mut s: i64 = 0;
    while s < 4
        invariant
            0 <= s <= 4,
            cards@.len() == 1 + 10 * s,
            cards@.to_multiset().count(Card::JOKER) == 1,
            forall|c: Card| c != Card::JOKER ==> cards@.to_multiset().count(c) == s,
        decreases 4 - s,
    {
        let ghost before = cards@;
        push_suit(&mut cards);
        proof {
            lemma_multiset_commutative(before, suit_seq());
            lemma_suit_counts(Card::JOKER);
            assert forall|c: Card| c != Card::JOKER implies cards@.to_multiset().count(c) == s
                + 1 by {
                lemma_suit_counts(c);
            }
        }
        s += 1;
    }
    proof {
        assert(cards@.to_multiset().contains(Card::JOKER));
    }
    let mut tries: u64 = 0;
    let mut pos = joker_position(&cards);
    while pos <= 13 && tries < 4000000000
        invariant
            cards@.len() == 41,
            cards@.to_multiset().count(Card::JOKER) == 1,
            forall|c: Card| c != Card::JOKER ==> cards@.to_multiset().count(c) == 4,
            pos < 41,
            cards@[pos as int] == Card::JOKER,
            tries <= 4000000000,
        decreases 4000000000 - tries,
    {
        shuffle_vec(rng, &mut cards);
        proof {
            assert(cards@.to_multiset().contains(Card::JOKER));
        }
        pos = joker_position(&cards);
        tries += 1;
    }
    if pos <= 13 {
        // The retry budget ran out, which a uniform shuffle reaches with
        // vanishing probability; move the Joker past the protected prefix by
        // hand, which permutes the deck like any other shuffle outcome.
        let ghost before = cards@;
        let j = cards[pos];
        let other = cards[pos + 14];
        cards[pos] = other;
        cards[pos + 14] = j;
        pos = pos + 14;
        proof {
            assert(cards@ =~= before.update(pos - 14, before[pos as int]).update(
                pos as int,
                before[pos - 14],
            ));
            assert(cards@.to_multiset() =~= before.to_multiset());
        }
    }
    let ghost full = cards@;
    let mut rev: Vec<Card> = Vec::new();
    while cards.len() > 0
        invariant
            rev@.len() + cards@.len() == full.len(),
            cards@ == full.take(cards@.len() as int),
            forall|i: int| 0 <= i < rev@.len() ==> rev@[i] == full[full.len() - 1 - i],
        decreases cards@.len(),
    {
        let ghost m = cards@.len() as int;
        let c = cards.pop().unwrap();
        proof {
            assert(full.take(m).last() == full[m - 1]);
            assert(full.take(m).drop_last() =~= full.take(m - 1));
        }
        rev.push(c);
    }
    proof {
        assert(rev@ =~= full.reverse());
        full.lemma_reverse_to_multiset();
        assert(rev@.to_multiset() =~= full.to_multiset());
        assert(rev@[40 - pos] == Card::JOKER);
        assert forall|i: int| rev@.len() - 14 <= i < rev@.len() implies rev@[i] != Card::JOKER by {
            if rev@[i] == Card::JOKER {
                assert(40 - pos < 27 <= i);
                lemma_count_two_positions(rev@, 40 - pos as int, i);
            }
        }
        assert(rev@.to_multiset().contains(Card::JOKER));
    }
    CardList::from_vec(rev)
}

} // verus!
