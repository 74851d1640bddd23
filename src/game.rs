use vstd::prelude::*;
use crate::card::PlayingCard;
use crate::decision::{Choice, DiscreteDecision, Pick, UNIT};
use crate::solver::{best_ev, lemma_unseen_draw, leads_on, new_pot, outcome_value, unseen};

verus! {

/// Guess the colour of the next card: doubles the pot.
#[derive(Debug, Clone, Copy, PartialEq, Eq, Structural)]
pub enum PickColor {
    Red,
    Black,
}

/// Guess whether the next card ranks at least as high as the last one: the
/// pot goes from 2x to 3x.
#[derive(Debug, Clone, Copy, PartialEq, Eq, Structural)]
pub enum PickLatitude {
    Higher,
    Lower,
}

/// Guess whether the next card's rank lies between the ranks of the last two
/// cards, bounds included: the pot goes from 3x to 4x.
#[derive(Debug, Clone, Copy, PartialEq, Eq, Structural)]
pub enum PickContained {
    Inside,
    Outside,
}

/// Guess the suit of the next card: the pot goes from 4x to 10x.
#[derive(Debug, Clone, Copy, PartialEq, Eq, Structural)]
pub enum PickSuit {
    Hearts,
    Diamonds,
    Spades,
    Clubs,
}

/// The stages of Ride the Bus, played in this order.
#[derive(Debug, Clone, Copy, PartialEq, Eq, Structural)]
pub enum RideTheBus {
    Color(PickColor),
    Latitude(PickLatitude),
    Contained(PickContained),
    Suit(PickSuit),
}

/// The multiplier of a won colour guess: 2.
pub const COLOR_WIN: u64 = 64_974_000_000;

/// The multiplier of a won higher-or-lower guess: 3/2.
pub const LATITUDE_WIN: u64 = 48_730_500_000;

/// The multiplier of a won inside-or-outside guess: 4/3.
pub const CONTAINED_WIN: u64 = 43_316_000_000;

/// The multiplier of a won suit guess: 10/4.
pub const SUIT_WIN: u64 = 81_217_500_000;

/// Whether a guess wins on `history`, most recent card first. A guess that
/// compares with earlier cards loses when there are not enough of them.
pub open spec fn wins(choice: RideTheBus, history: Seq<PlayingCard>) -> bool {
    match choice {
        RideTheBus::Color(c) => history.len() >= 1 && history[0].color_spec() == match c {
            PickColor::Red => 0nat,
            PickColor::Black => 1nat,
        },
        RideTheBus::Latitude(l) => history.len() >= 2 && (history[0].rank_spec()
            >= history[1].rank_spec() <==> l == PickLatitude::Higher),
        RideTheBus::Contained(k) => history.len() >= 3 && ({
            let r = history[0].rank_spec();
            let a = history[1].rank_spec();
            let b = history[2].rank_spec();
            (a <= r <= b || b <= r <= a) <==> k == PickContained::Inside
        }),
        RideTheBus::Suit(s) => history.len() >= 1 && history[0].suit_spec() == match s {
            PickSuit::Hearts => 0nat,
            PickSuit::Diamonds => 1nat,
            PickSuit::Spades => 2nat,
            PickSuit::Clubs => 3nat,
        },
    }
}

/// The multiplier of a won guess at each stage.
pub open spec fn win_multiplier(choice: RideTheBus) -> u64 {
    match choice {
        RideTheBus::Color(_) => COLOR_WIN,
        RideTheBus::Latitude(_) => LATITUDE_WIN,
        RideTheBus::Contained(_) => CONTAINED_WIN,
        RideTheBus::Suit(_) => SUIT_WIN,
    }
}

/// The first decision of the game: red, black, or cash out.
pub open spec fn first_stage() -> Seq<Pick<RideTheBus>> {
    seq![
        Pick::Rule(RideTheBus::Color(PickColor::Red)),
        Pick::Rule(RideTheBus::Color(PickColor::Black)),
        Pick::Cashout,
    ]
}

impl Choice for RideTheBus {
    open spec fn score_spec(&self, history: Seq<PlayingCard>) -> u64 {
        if wins(*self, history) {
            win_multiplier(*self)
        } else {
            0
        }
    }

    open spec fn next_spec(&self) -> Seq<Pick<RideTheBus>> {
        match self {
            RideTheBus::Color(_) => seq![
                Pick::Rule(RideTheBus::Latitude(PickLatitude::Higher)),
                Pick::Rule(RideTheBus::Latitude(PickLatitude::Lower)),
                Pick::Cashout,
            ],
            RideTheBus::Latitude(_) => seq![
                Pick::Rule(RideTheBus::Contained(PickContained::Inside)),
                Pick::Rule(RideTheBus::Contained(PickContained::Outside)),
                Pick::Cashout,
            ],
            RideTheBus::Contained(_) => seq![
                Pick::Rule(RideTheBus::Suit(PickSuit::Hearts)),
                Pick::Rule(RideTheBus::Suit(PickSuit::Diamonds)),
                Pick::Rule(RideTheBus::Suit(PickSuit::Spades)),
                Pick::Rule(RideTheBus::Suit(PickSuit::Clubs)),
                Pick::Cashout,
            ],
            RideTheBus::Suit(_) => Seq::empty(),
        }
    }

    fn score(&self, history: &[PlayingCard]) -> (r: u64) {
        let n = history.len();
        let won = match *self {
            RideTheBus::Color(c) => n >= 1 && history[0].color() == match c {
                PickColor::Red => 0u8,
                PickColor::Black => 1u8,
            },
            RideTheBus::Latitude(l) => n >= 2 && ((history[0].rank() >= history[1].rank()) == (
            l == PickLatitude::Higher)),
            RideTheBus::Contained(k) => n >= 3 && ({
                let r = history[0].rank();
                let a = history[1].rank();
                let b = history[2].rank();
                let inside = (a <= r && r <= b) || (b <= r && r <= a);
                inside == (k == PickContained::Inside)
            }),
            RideTheBus::Suit(s) => n >= 1 && history[0].suit() == match s {
                PickSuit::Hearts => 0u8,
                PickSuit::Diamonds => 1u8,
                PickSuit::Spades => 2u8,
                PickSuit::Clubs => 3u8,
            },
        };
        if won {
            match *self {
                RideTheBus::Color(_) => COLOR_WIN,
                RideTheBus::Latitude(_) => LATITUDE_WIN,
                RideTheBus::Contained(_) => CONTAINED_WIN,
                RideTheBus::Suit(_) => SUIT_WIN,
            }
        } else {
            0
        }
    }

    fn next_decision(&self) -> (r: DiscreteDecision<RideTheBus>) {
        let r = match *self {
            RideTheBus::Color(_) => DiscreteDecision::new_with_cashout(
                vec![
                    RideTheBus::Latitude(PickLatitude::Higher),
                    RideTheBus::Latitude(PickLatitude::Lower),
                ],
            ),
            RideTheBus::Latitude(_) => DiscreteDecision::new_with_cashout(
                vec![
                    RideTheBus::Contained(PickContained::Inside),
                    RideTheBus::Contained(PickContained::Outside),
                ],
            ),
            RideTheBus::Contained(_) => DiscreteDecision::new_with_cashout(
                vec![
                    RideTheBus::Suit(PickSuit::Hearts),
                    RideTheBus::Suit(PickSuit::Diamonds),
                    RideTheBus::Suit(PickSuit::Spades),
                    RideTheBus::Suit(PickSuit::Clubs),
                ],
            ),
            RideTheBus::Suit(_) => DiscreteDecision::empty(),
        };
        assert(r@ =~= self.next_spec());
        r
    }
}

/// Guessing red from a pot of 1.0: a black card loses the pot, with value 0
/// and no further decision; a red card doubles the pot and goes on to the
/// higher-or-lower decision, whose best expected value from the doubled pot
/// is the card's value.
pub proof fn lemma_red_outcomes(history: Seq<PlayingCard>, j: int)
    requires
        0 <= j < unseen(history).len(),
    ensures
        ({
            let card = unseen(history)[j];
            let red = Pick::Rule(RideTheBus::Color(PickColor::Red));
            let h = seq![card] + history;
            &&& card.color_spec() != 0 ==> outcome_value(red, UNIT, history, card) == 0 && !leads_on(
                red,
                UNIT,
                history,
                card,
            )
            &&& card.color_spec() == 0 ==> leads_on(red, UNIT, history, card) && new_pot(
                UNIT,
                red.score_spec(h),
            ) == 2 * UNIT && outcome_value(red, UNIT, history, card) == best_ev(
                red.next_spec(),
                COLOR_WIN,
                h,
                3,
            )
        }),
{
    let card = unseen(history)[j];
    let h = seq![card] + history;
    assert(h[0] == card);
    lemma_unseen_draw(history, j);
    assert(new_pot(UNIT, COLOR_WIN) == COLOR_WIN);
    assert(new_pot(UNIT, 0) == 0);
}

/// The first decision of Ride the Bus: red, black, or cash out.
pub fn first_decision() -> (r: DiscreteDecision<RideTheBus>)
    ensures
        r@ == first_stage(),
{
    let r = DiscreteDecision::new_with_cashout(
        vec![RideTheBus::Color(PickColor::Red), RideTheBus::Color(PickColor::Black)],
    );
    assert(r@ =~= first_stage());
    r
}

} // verus!
