//! Card ranks, their scoring values, and ordered lists of cards used both as
//! hands and as the shared draw pile.

use vstd::prelude::*;

verus! {

broadcast use vstd::seq_lib::group_to_multiset_ensures;

/// A card rank. `JOKER` is the zero-valued terminal rank: drawing it ends the
/// match at once.
#[derive(Debug, Clone, Copy, PartialEq, Eq, Structural)]
#[allow(non_camel_case_types)]
pub enum Card {
    ACE,
    TWO,
    THREE,
    FOUR,
    FIVE,
    SIX,
    SEVEN,
    EIGHT,
    NINE,
    TEN,
    JOKER,
}

impl Card {
    /// The scoring value of this rank: Ace = 1 up to Ten = 10, Joker = 0.
    pub open spec fn value_spec(self) -> int {
        match self {
            Card::ACE => 1,
            Card::TWO => 2,
            Card::THREE => 3,
            Card::FOUR => 4,
            Card::FIVE => 5,
            Card::SIX => 6,
            Card::SEVEN => 7,
            Card::EIGHT => 8,
            Card::NINE => 9,
            Card::TEN => 10,
            Card::JOKER => 0,
        }
    }

    pub fn value(&self) -> (r: i64)
        ensures
            r == self.value_spec(),
            0 <= r <= 10,
    {
        match self {
            Card::ACE => 1,
            Card::TWO => 2,
            Card::THREE => 3,
            Card::FOUR => 4,
            Card::FIVE => 5,
            Card::SIX => 6,
            Card::SEVEN => 7,
            Card::EIGHT => 8,
            Card::NINE => 9,
            Card::TEN => 10,
            Card::JOKER => 0,
        }
    }

    /// The one-character display symbol of this rank (Ten prints as `0`).
    pub open spec fn symbol_spec(self) -> Seq<char> {
        match self {
            Card::ACE => seq!['A'],
            Card::TWO => seq!['2'],
            Card::THREE => seq!['3'],
            Card::FOUR => seq!['4'],
            Card::FIVE => seq!['5'],
            Card::SIX => seq!['6'],
            Card::SEVEN => seq!['7'],
            Card::EIGHT => seq!['8'],
            Card::NINE => seq!['9'],
            Card::TEN => seq!['0'],
            Card::JOKER => seq!['J'],
        }
    }

    pub fn symbol(&self) -> (r: &'static str)
        ensures
            r@ == self.symbol_spec(),
    {
        proof {
            reveal_strlit("A");
            reveal_strlit("2");
            reveal_strlit("3");
            reveal_strlit("4");
            reveal_strlit("5");
            reveal_strlit("6");
            reveal_strlit("7");
            reveal_strlit("8");
            reveal_strlit("9");
            reveal_strlit("0");
            reveal_strlit("J");
        }
        match self {
            Card::ACE => "A",
            Card::TWO => "2",
            Card::THREE => "3",
            Card::FOUR => "4",
            Card::FIVE => "5",
            Card::SIX => "6",
            Card::SEVEN => "7",
            Card::EIGHT => "8",
            Card::NINE => "9",
            Card::TEN => "0",
            Card::JOKER => "J",
        }
    }
}

/// The sum of the values of the cards in `s`.
pub open spec fn score_spec(s: Seq<Card>) -> int
    decreases s.len(),
{
    if s.len() == 0 {
        0
    } else {
        score_spec(s.drop_last()) + s.last().value_spec()
    }
}

pub proof fn lemma_score_bounds(s: Seq<Card>)
    ensures
        0 <= score_spec(s) <= 10 * s.len(),
    decreases s.len(),
{
    if s.len() > 0 {
        lemma_score_bounds(s.drop_last());
    }
}

/// An ordered list of cards. The end of the underlying sequence is the "top":
/// drawing pops from the end, placing pushes onto the end.
pub struct CardList {
    ccards: Vec<Card>,
}

impl View for CardList {
    type V = Seq<Card>;

    closed spec fn view(&self) -> Seq<Card> {
        self.ccards@
    }
}

impl CardList {
    pub fn new() -> (r: CardList)
        ensures
            r@ == Seq::<Card>::empty(),
    {
        CardList { ccards: Vec::new() }
    }

    /// Builds a list holding exactly the given cards, in the given order.
    pub fn from_vec(cards: Vec<Card>) -> (r: CardList)
        ensures
            r@ == cards@,
    {
        CardList { ccards: cards }
    }

    /// Removes and returns the top card.
    pub fn draw_top_card(&mut self) -> (r: Card)
        requires
            old(self)@.len() > 0,
        ensures
            r == old(self)@.last(),
            final(self)@ == old(self)@.drop_last(),
    {
        self.ccards.pop().unwrap()
    }

    /// Places a card on top of the list.
    pub fn place_card_on_top(&mut self, c: Card)
        ensures
            final(self)@ == old(self)@.push(c),
    {
        self.ccards.push(c)
    }

    /// Removes the first occurrence of the given rank.
    pub fn remove_card_of_type(&mut self, c: Card)
        requires
            old(self)@.contains(c),
        ensures
            old(self)@.index_of_first(c) matches Some(i)
                && final(self)@ == old(self)@.remove(i),
            final(self)@.to_multiset() == old(self)@.to_multiset().remove(c),
            final(self)@.len() == old(self)@.len() - 1,
    {
        proof {
            old(self)@.index_of_first_ensures(c);
        }
        let ghost target = old(self)@.index_of_first(c)->Some_0;
        let mut i: usize = 0;
        while i < self.ccards.len()
            invariant
                *self == *old(self),
                0 <= i <= target < self@.len(),
                old(self)@.index_of_first(c) == Some(target),
                old(self)@[target] == c,
                forall|j: int| 0 <= j < target ==> old(self)@[j] != c,
                forall|j: int| 0 <= j < i ==> self@[j] != c,
            decreases self@.len() - i,
        {
            if self.ccards[i] == c {
                proof {
                    assert(i == target);
                }
                self.ccards.remove(i);
                proof {
                    assert(old(self)@.remove(target).to_multiset()
                        =~= old(self)@.to_multiset().remove(c));
                }
                return;
            }
            i += 1;
        }
        proof {
            assert(false);
        }
    }

    pub fn len(&self) -> (r: usize)
        ensures
            r == self@.len(),
    {
        self.ccards.len()
    }

    pub fn get(&self, i: usize) -> (r: Card)
        requires
            i < self@.len(),
        ensures
            r == self@[i as int],
    {
        self.ccards[i]
    }

    pub fn is_empty(&self) -> (r: bool)
        ensures
            r == (self@.len() == 0),
    {
        self.ccards.len() == 0
    }

    /// The sum of the values of the cards held.
    pub fn score_hand(&self) -> (r: i64)
        requires
            self@.len() <= 1000000,
        ensures
            r == score_spec(self@),
    {
        let mut acc: i64 = 0;
        let mut i: usize = 0;
        while i < self.ccards.len()
            invariant
                0 <= i <= self@.len() <= 1000000,
                acc == score_spec(self@.take(i as int)),
                0 <= acc <= 10 * i,
            decreases self@.len() - i,
        {
            proof {
                assert(self@.take(i + 1).drop_last() =~= self@.take(i as int));
                assert(self@.take(i + 1).last() == self@[i as int]);
            }
            acc = acc + self.ccards[i].value();
            i += 1;
        }
        proof {
            assert(self@.take(self@.len() as int) =~= self@);
        }
        acc
    }
}

} // verus!
