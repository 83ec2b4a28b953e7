//! Camel-card hands: classifying five cards by the multiset shape of
//! their values, from a lone high card up to five of a kind.

use vstd::prelude::*;

verus! {

/// A card value, weakest first.
#[derive(Debug, Copy, Clone, PartialEq, Eq, Structural)]
pub enum Card {
    Two,
    Three,
    Four,
    Five,
    Six,
    Seven,
    Eight,
    Nine,
    T,
    J,
    Q,
    K,
    A,
}

/// A hand's type, weakest first; hands compare by type before card
/// order.
#[derive(Debug, Copy, Clone, PartialEq, Eq, Structural)]
pub enum RowType {
    HighCard,
    OnePair,
    TwoPair,
    ThreeOfAKind,
    FullHouse,
    FourOfAKind,
    FiveOfAKind,
}

/// How many of the hand's cards show the value `card`.
pub open spec fn spec_card_count(cards: Seq<Card>, card: Card) -> int
    decreases cards.len(),
{
    if cards.len() == 0 {
        0
    } else {
        spec_card_count(cards.drop_last(), card) + if cards.last() == card {
            1int
        } else {
            0int
        }
    }
}

/// One when the hand shows exactly `k` cards of the value `card`, else
/// zero.
pub open spec fn spec_kind_indicator(cards: Seq<Card>, card: Card, k: int) -> int {
    if spec_card_count(cards, card) == k {
        1int
    } else {
        0int
    }
}

/// How many distinct card values appear exactly `k` times in the hand.
pub open spec fn spec_kind_count(cards: Seq<Card>, k: int) -> int {
    spec_kind_indicator(cards, Card::Two, k) + spec_kind_indicator(cards, Card::Three, k)
        + spec_kind_indicator(cards, Card::Four, k) + spec_kind_indicator(cards, Card::Five, k)
        + spec_kind_indicator(cards, Card::Six, k) + spec_kind_indicator(cards, Card::Seven, k)
        + spec_kind_indicator(cards, Card::Eight, k) + spec_kind_indicator(cards, Card::Nine, k)
        + spec_kind_indicator(cards, Card::T, k) + spec_kind_indicator(cards, Card::J, k)
        + spec_kind_indicator(cards, Card::Q, k) + spec_kind_indicator(cards, Card::K, k)
        + spec_kind_indicator(cards, Card::A, k)
}

/// The type the multiset shape of the hand's values gives it.
pub open spec fn spec_row_type(cards: Seq<Card>) -> RowType {
    if spec_kind_count(cards, 5) == 1 {
        RowType::FiveOfAKind
    } else if spec_kind_count(cards, 4) == 1 {
        RowType::FourOfAKind
    } else if spec_kind_count(cards, 3) == 1 && spec_kind_count(cards, 2) == 1 {
        RowType::FullHouse
    } else if spec_kind_count(cards, 3) == 1 {
        RowType::ThreeOfAKind
    } else if spec_kind_count(cards, 2) == 2 {
        RowType::TwoPair
    } else if spec_kind_count(cards, 2) == 1 {
        RowType::OnePair
    } else {
        RowType::HighCard
    }
}

/// How many of the hand's cards show the value `card`.
fn card_count(cards: &[Card; 5], card: Card) -> (r: u32)
    ensures
        r as int == spec_card_count(cards@, card),
        r <= 5,
{
    let mut count: u32 = 0;
    let mut i: usize = 0;
    while i < 5
        invariant
            i <= 5,
            cards@.len() == 5,
            count as int == spec_card_count(cards@.take(i as int), card),
            count <= i,
        decreases 5 - i,
    {
        proof {
            assert(cards@.take(i as int + 1).drop_last() =~= cards@.take(i as int));
            assert(cards@.take(i as int + 1).last() == cards@[i as int]);
        }
        if cards[i] == card {
            count = count + 1;
        }
        i = i + 1;
    }
    proof {
        assert(cards@.take(5) =~= cards@);
    }
    count
}

/// A hand of five cards.
#[derive(Debug, Copy, Clone, PartialEq, Eq)]
pub struct Row {
    pub cards: [Card; 5],
}

impl Row {
    /// The hand's type, read off the multiset shape of its values.
    pub fn row_type(&self) -> (r: RowType)
        ensures
            r == spec_row_type(self.cards@),
    {
        let values = [
            Card::Two,
            Card::Three,
            Card::Four,
            Card::Five,
            Card::Six,
            Card::Seven,
            Card::Eight,
            Card::Nine,
            Card::T,
            Card::J,
            Card::Q,
            Card::K,
            Card::A,
        ];
        let mut five: u32 = 0;
        let mut four: u32 = 0;
        let mut three: u32 = 0;
        let mut two: u32 = 0;
        let mut one: u32 = 0;
        let mut v: usize = 0;
        while v < 13
            invariant
                v <= 13,
                values@.len() == 13,
                values@[0] == Card::Two,
                values@[1] == Card::Three,
                values@[2] == Card::Four,
                values@[3] == Card::Five,
                values@[4] == Card::Six,
                values@[5] == Card::Seven,
                values@[6] == Card::Eight,
                values@[7] == Card::Nine,
                values@[8] == Card::T,
                values@[9] == Card::J,
                values@[10] == Card::Q,
                values@[11] == Card::K,
                values@[12] == Card::A,
                five as int == partial_kind_count(self.cards@, 5, v as int),
                four as int == partial_kind_count(self.cards@, 4, v as int),
                three as int == partial_kind_count(self.cards@, 3, v as int),
                two as int == partial_kind_count(self.cards@, 2, v as int),
                one as int == partial_kind_count(self.cards@, 1, v as int),
                five <= v && four <= v && three <= v && two <= v && one <= v,
            decreases 13 - v,
        {
            let count = card_count(&self.cards, values[v]);
            match count {
                5 => five = five + 1,
                4 => four = four + 1,
                3 => three = three + 1,
                2 => two = two + 1,
                1 => one = one + 1,
                _ => (),
            }
            v = v + 1;
        }
        proof {
            assert(partial_kind_count(self.cards@, 5, 13) == spec_kind_count(self.cards@, 5));
            assert(partial_kind_count(self.cards@, 4, 13) == spec_kind_count(self.cards@, 4));
            assert(partial_kind_count(self.cards@, 3, 13) == spec_kind_count(self.cards@, 3));
            assert(partial_kind_count(self.cards@, 2, 13) == spec_kind_count(self.cards@, 2));
            assert(partial_kind_count(self.cards@, 1, 13) == spec_kind_count(self.cards@, 1));
        }
        if five == 1 {
            RowType::FiveOfAKind
        } else if four == 1 {
            RowType::FourOfAKind
        } else if three == 1 && two == 1 {
            RowType::FullHouse
        } else if three == 1 {
            RowType::ThreeOfAKind
        } else if two == 2 {
            RowType::TwoPair
        } else if two == 1 {
            RowType::OnePair
        } else {
            RowType::HighCard
        }
    }
}

/// The distinct-value count restricted to the first `v` of the thirteen
/// card values, in their listed order.
pub open spec fn partial_kind_count(cards: Seq<Card>, k: int, v: int) -> int {
    (if v >= 1 {
        spec_kind_indicator(cards, Card::Two, k)
    } else {
        0int
    }) + (if v >= 2 {
        spec_kind_indicator(cards, Card::Three, k)
    } else {
        0int
    }) + (if v >= 3 {
        spec_kind_indicator(cards, Card::Four, k)
    } else {
        0int
    }) + (if v >= 4 {
        spec_kind_indicator(cards, Card::Five, k)
    } else {
        0int
    }) + (if v >= 5 {
        spec_kind_indicator(cards, Card::Six, k)
    } else {
        0int
    }) + (if v >= 6 {
        spec_kind_indicator(cards, Card::Seven, k)
    } else {
        0int
    }) + (if v >= 7 {
        spec_kind_indicator(cards, Card::Eight, k)
    } else {
        0int
    }) + (if v >= 8 {
        spec_kind_indicator(cards, Card::Nine, k)
    } else {
        0int
    }) + (if v >= 9 {
        spec_kind_indicator(cards, Card::T, k)
    } else {
        0int
    }) + (if v >= 10 {
        spec_kind_indicator(cards, Card::J, k)
    } else {
        0int
    }) + (if v >= 11 {
        spec_kind_indicator(cards, Card::Q, k)
    } else {
        0int
    }) + (if v >= 12 {
        spec_kind_indicator(cards, Card::K, k)
    } else {
        0int
    }) + (if v >= 13 {
        spec_kind_indicator(cards, Card::A, k)
    } else {
        0int
    })
}

} // verus!
