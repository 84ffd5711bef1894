//! Players, the shared game state for one match, and its well-formedness
//! invariant: bounded piece counts and a bounded total of cards in play.

use vstd::prelude::*;
use vstd::multiset::Multiset;
use crate::cards::{Card, CardList};
use crate::policy::BuyPolicy;

verus! {

broadcast use
    vstd::seq_lib::group_to_multiset_ensures,
    vstd::multiset::group_multiset_axioms;

/// One player: a hand, the Jacks and Queens bought so far, and the buy policy
/// consulted each turn. Jacks and Queens only grow within a match.
pub struct Player {
    pub name: String,
    pub hand: CardList,
    pub jacks: i64,
    pub queens: i64,
    pub buy_policy: BuyPolicy,
}

impl Player {
    pub fn new(name: String, buy_policy: BuyPolicy) -> (r: Player)
        ensures
            r.name == name,
            r.hand@ == Seq::<Card>::empty(),
            r.jacks == 0,
            r.queens == 0,
            r.buy_policy == buy_policy,
    {
        Player { name, hand: CardList::new(), jacks: 0, queens: 0, buy_policy }
    }
}

/// The whole mutable state of one match: the players in turn order, the count
/// of Kings nobody has bought yet, and the shared draw pile.
pub struct Game {
    pub players: Vec<Player>,
    pub unbought_kings: i64,
    pub remaining_cards: CardList,
}

pub open spec fn sum_jacks(s: Seq<Player>) -> int
    decreases s.len(),
{
    if s.len() == 0 {
        0
    } else {
        sum_jacks(s.drop_last()) + s.last().jacks
    }
}

pub open spec fn sum_queens(s: Seq<Player>) -> int
    decreases s.len(),
{
    if s.len() == 0 {
        0
    } else {
        sum_queens(s.drop_last()) + s.last().queens
    }
}

/// Total number of cards held in hands.
pub open spec fn hands_len(s: Seq<Player>) -> int
    decreases s.len(),
{
    if s.len() == 0 {
        0
    } else {
        hands_len(s.drop_last()) + s.last().hand@.len()
    }
}

/// The multiset of all cards held in hands.
pub open spec fn hands_cards(s: Seq<Player>) -> Multiset<Card>
    decreases s.len(),
{
    if s.len() == 0 {
        Multiset::empty()
    } else {
        hands_cards(s.drop_last()).add(s.last().hand@.to_multiset())
    }
}

/// The multiset of every card still in play: all hands plus the draw pile.
pub open spec fn all_cards(g: Game) -> Multiset<Card> {
    hands_cards(g.players@).add(g.remaining_cards@.to_multiset())
}

/// Well-formedness of a game state: piece counts are non-negative, at most
/// four of each piece kind exist, and the cards in play are bounded.
pub open spec fn game_wf(g: Game) -> bool {
    &&& 1 <= g.players@.len() <= 1000000
    &&& forall|i: int|
        0 <= i < g.players@.len() ==> (#[trigger] g.players@[i]).jacks >= 0
            && g.players@[i].queens >= 0
    &&& sum_jacks(g.players@) <= 4
    &&& sum_queens(g.players@) <= 4
    &&& 0 <= g.unbought_kings <= 4
    &&& hands_len(g.players@) + g.remaining_cards@.len() <= 1000000
}

/// The terminal Joker has not been drawn yet.
pub open spec fn joker_in_pile(g: Game) -> bool {
    g.remaining_cards@.contains(Card::JOKER)
}

/// Any prefix sum of Jacks lies between zero and the full sum.
pub proof fn lemma_sum_jacks_take(s: Seq<Player>, i: int)
    requires
        forall|j: int| 0 <= j < s.len() ==> (#[trigger] s[j]).jacks >= 0,
        0 <= i <= s.len(),
    ensures
        0 <= sum_jacks(s.take(i)) <= sum_jacks(s),
    decreases s.len(),
{
    if s.len() == 0 {
        assert(s.take(i) =~= s);
    } else {
        assert forall|j: int|
            0 <= j < s.drop_last().len() implies (#[trigger] s.drop_last()[j]).jacks >= 0 by {
            assert(s.drop_last()[j] == s[j]);
        }
        assert(s[s.len() - 1] == s.last());
        if i == s.len() {
            assert(s.take(i) =~= s);
            lemma_sum_jacks_take(s.drop_last(), s.len() - 1);
            assert(s.drop_last().take(s.len() - 1) =~= s.drop_last());
        } else {
            lemma_sum_jacks_take(s.drop_last(), i);
            assert(s.drop_last().take(i) =~= s.take(i));
        }
    }
}

/// Any prefix sum of Queens lies between zero and the full sum.
pub proof fn lemma_sum_queens_take(s: Seq<Player>, i: int)
    requires
        forall|j: int| 0 <= j < s.len() ==> (#[trigger] s[j]).queens >= 0,
        0 <= i <= s.len(),
    ensures
        0 <= sum_queens(s.take(i)) <= sum_queens(s),
    decreases s.len(),
{
    if s.len() == 0 {
        assert(s.take(i) =~= s);
    } else {
        assert forall|j: int|
            0 <= j < s.drop_last().len() implies (#[trigger] s.drop_last()[j]).queens >= 0 by {
            assert(s.drop_last()[j] == s[j]);
        }
        assert(s[s.len() - 1] == s.last());
        if i == s.len() {
            assert(s.take(i) =~= s);
            lemma_sum_queens_take(s.drop_last(), s.len() - 1);
            assert(s.drop_last().take(s.len() - 1) =~= s.drop_last());
        } else {
            lemma_sum_queens_take(s.drop_last(), i);
            assert(s.drop_last().take(i) =~= s.take(i));
        }
    }
}

/// Each player's Jack count is at most the sum over all players.
pub proof fn lemma_sum_jacks_member(s: Seq<Player>, i: int)
    requires
        forall|j: int| 0 <= j < s.len() ==> (#[trigger] s[j]).jacks >= 0,
        0 <= i < s.len(),
    ensures
        s[i].jacks <= sum_jacks(s),
{
    lemma_sum_jacks_take(s, i);
    lemma_sum_jacks_take(s, i + 1);
    assert(s.take(i + 1).drop_last() =~= s.take(i));
    assert(s.take(i + 1).last() == s[i]);
}

/// Each player's Queen count is at most the sum over all players.
pub proof fn lemma_sum_queens_member(s: Seq<Player>, i: int)
    requires
        forall|j: int| 0 <= j < s.len() ==> (#[trigger] s[j]).queens >= 0,
        0 <= i < s.len(),
    ensures
        s[i].queens <= sum_queens(s),
{
    lemma_sum_queens_take(s, i);
    lemma_sum_queens_take(s, i + 1);
    assert(s.take(i + 1).drop_last() =~= s.take(i));
    assert(s.take(i + 1).last() == s[i]);
}

/// Each player's hand is no larger than the total of all hands.
pub proof fn lemma_hands_len_member(s: Seq<Player>, i: int)
    requires
        0 <= i < s.len(),
    ensures
        hands_len(s) >= 0,
        s[i].hand@.len() <= hands_len(s),
    decreases s.len(),
{
    lemma_hands_len_nonneg(s);
    if i == s.len() - 1 {
        lemma_hands_len_nonneg(s.drop_last());
    } else {
        lemma_hands_len_member(s.drop_last(), i);
    }
}

pub proof fn lemma_hands_len_nonneg(s: Seq<Player>)
    ensures
        hands_len(s) >= 0,
    decreases s.len(),
{
    if s.len() > 0 {
        lemma_hands_len_nonneg(s.drop_last());
    }
}

/// How the per-player sums and the pooled hand multiset change when one
/// player is taken out.
pub proof fn lemma_players_remove(s: Seq<Player>, i: int)
    requires
        0 <= i < s.len(),
    ensures
        sum_jacks(s.remove(i)) == sum_jacks(s) - s[i].jacks,
        sum_queens(s.remove(i)) == sum_queens(s) - s[i].queens,
        hands_len(s.remove(i)) == hands_len(s) - s[i].hand@.len(),
        hands_cards(s.remove(i)).add(s[i].hand@.to_multiset()) == hands_cards(s),
    decreases s.len(),
{
    let t = s.remove(i);
    if i == s.len() - 1 {
        assert(t =~= s.drop_last());
        assert(s.last() == s[i]);
        assert(hands_cards(t).add(s[i].hand@.to_multiset()) =~= hands_cards(s));
    } else {
        assert(t.drop_last() =~= s.drop_last().remove(i));
        assert(t.last() == s.last());
        assert(s.drop_last()[i] == s[i]);
        lemma_players_remove(s.drop_last(), i);
        assert(hands_cards(t) == hands_cards(s.drop_last().remove(i)).add(
            s.last().hand@.to_multiset(),
        ));
        assert(hands_cards(s) == hands_cards(s.drop_last()).add(s.last().hand@.to_multiset()));
        assert(hands_cards(t).add(s[i].hand@.to_multiset()) =~= hands_cards(s));
    }
}

/// How the per-player sums and the pooled hand multiset change when a player
/// is put in.
pub proof fn lemma_players_insert(s: Seq<Player>, i: int, p: Player)
    requires
        0 <= i <= s.len(),
    ensures
        sum_jacks(s.insert(i, p)) == sum_jacks(s) + p.jacks,
        sum_queens(s.insert(i, p)) == sum_queens(s) + p.queens,
        hands_len(s.insert(i, p)) == hands_len(s) + p.hand@.len(),
        hands_cards(s.insert(i, p)) == hands_cards(s).add(p.hand@.to_multiset()),
    decreases s.len(),
{
    let t = s.insert(i, p);
    if i == s.len() {
        assert(t.drop_last() =~= s);
        assert(t.last() == p);
    } else {
        assert(t.drop_last() =~= s.drop_last().insert(i, p));
        assert(t.last() == s.last());
        lemma_players_insert(s.drop_last(), i, p);
        assert(hands_cards(t) == hands_cards(s.drop_last().insert(i, p)).add(
            s.last().hand@.to_multiset(),
        ));
        assert(hands_cards(s) == hands_cards(s.drop_last()).add(s.last().hand@.to_multiset()));
        assert(hands_cards(t) =~= hands_cards(s).add(p.hand@.to_multiset()));
    }
}

} // verus!
