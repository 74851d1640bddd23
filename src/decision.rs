use vstd::prelude::*;
use crate::card::PlayingCard;

verus! {

/// The multiplier that leaves the pot unchanged.
///
/// Pots, multipliers and expected values are fixed-point numbers: `UNIT`
/// stands for 1.0 and `2 * UNIT` for 2.0. `UNIT` is a multiple of 12, of
/// 1_000_000 and of 52 * 51 * 50 * 49: halves, thirds, quarters and
/// millionths are exact, and so are the means over the cards left to draw
/// in a game of up to four draws, as long as each pot is a multiple of
/// `UNIT`. Where a mean is not exact it is rounded down to a unit.
pub const UNIT: u64 = 32_487_000_000;

/// An option offered at a decision, given by its rule.
///
/// The history handed to a choice lists the revealed cards most recent
/// first: index 0 is the card just drawn, index 1 the card before it, and so
/// on, the oldest last.
pub trait Choice: Sized {
    /// The factor, in units of `1 / UNIT`, by which the pot changes when `history`
    /// has been revealed: 0 loses the pot, `UNIT` keeps it.
    spec fn score_spec(&self, history: Seq<PlayingCard>) -> u64;

    /// The choices offered once this choice has not lost; none ends the game.
    spec fn next_spec(&self) -> Seq<Pick<Self>>;

    fn score(&self, history: &[PlayingCard]) -> (r: u64)
        ensures
            r == self.score_spec(history@),
    ;

    fn next_decision(&self) -> (r: DiscreteDecision<Self>)
        ensures
            r@ == self.next_spec(),
    ;
}

/// An entry of a decision: a rule of the game, or cashing out the pot.
pub enum Pick<C> {
    Rule(C),
    /// Keeps the pot whatever card comes, and ends the game.
    Cashout,
}

impl<C: Choice> Pick<C> {
    pub open spec fn score_spec(&self, history: Seq<PlayingCard>) -> u64 {
        match self {
            Pick::Rule(c) => c.score_spec(history),
            Pick::Cashout => UNIT,
        }
    }

    pub open spec fn next_spec(&self) -> Seq<Pick<C>> {
        match self {
            Pick::Rule(c) => c.next_spec(),
            Pick::Cashout => Seq::empty(),
        }
    }

    pub fn score(&self, history: &[PlayingCard]) -> (r: u64)
        ensures
            r == self.score_spec(history@),
    {
        match self {
            Pick::Rule(c) => c.score(history),
            Pick::Cashout => UNIT,
        }
    }

    pub fn next_decision(&self) -> (r: DiscreteDecision<C>)
        ensures
            r@ == self.next_spec(),
    {
        match self {
            Pick::Rule(c) => c.next_decision(),
            Pick::Cashout => DiscreteDecision::empty(),
        }
    }
}

/// The choices available at one decision point, in display order.
pub struct DiscreteDecision<C> {
    choices: Vec<Pick<C>>,
}

impl<C> View for DiscreteDecision<C> {
    type V = Seq<Pick<C>>;

    closed spec fn view(&self) -> Seq<Pick<C>> {
        self.choices@
    }
}

impl<C> DiscreteDecision<C> {
    /// A decision offering the given rules, in order.
    pub fn new(choices: Vec<C>) -> (r: Self)
        ensures
            r@.len() == choices@.len(),
            forall|i: int| 0 <= i < choices@.len() ==> r@[i] == Pick::Rule(choices@[i]),
    {
        let mut choices = choices;
        let ghost given = choices@;
        let mut picks: Vec<Pick<C>> = Vec::new();
        while choices.len() > 0
            invariant
                picks@.len() + choices@.len() == given.len(),
                choices@ == given.subrange(picks@.len() as int, given.len() as int),
                forall|i: int| 0 <= i < picks@.len() ==> picks@[i] == Pick::Rule(given[i]),
            decreases choices@.len(),
        {
            let c = choices.remove(0);
            picks.push(Pick::Rule(c));
            assert(choices@ =~= given.subrange(picks@.len() as int, given.len() as int));
        }
        DiscreteDecision { choices: picks }
    }

    /// A decision offering the given rules, in order, then cashing out.
    pub fn new_with_cashout(choices: Vec<C>) -> (r: Self)
        ensures
            r@.len() == choices@.len() + 1,
            forall|i: int| 0 <= i < choices@.len() ==> r@[i] == Pick::Rule(choices@[i]),
            r@.last() == Pick::<C>::Cashout,
    {
        let mut dd = Self::new(choices);
        dd.choices.push(Pick::Cashout);
        dd
    }

    /// A decision with no choices: the game is over.
    pub fn empty() -> (r: Self)
        ensures
            r@ == Seq::<Pick<C>>::empty(),
    {
        DiscreteDecision { choices: Vec::new() }
    }

    /// The number of choices.
    pub fn len(&self) -> (r: usize)
        ensures
            r == self@.len(),
    {
        self.choices.len()
    }

    /// The choices, in order.
    pub fn into_choices(self) -> (r: Vec<Pick<C>>)
        ensures
            r@ == self@,
    {
        self.choices
    }
}

} // verus!
