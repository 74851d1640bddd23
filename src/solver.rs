use vstd::prelude::*;
use crate::card::{deck, lemma_deck_index, lemma_id_injective, PlayingCard};
use crate::decision::{Choice, DiscreteDecision, Pick, UNIT};

verus! {

/// A pot below 1e-6, this many units of `1 / UNIT`, counts as lost.
pub const LOST_BELOW: u64 = 32_487;

/// The first `n` cards of the deck that `history` does not hold, in deck order.
pub open spec fn unseen_upto(history: Seq<PlayingCard>, n: nat) -> Seq<PlayingCard>
    decreases n,
{
    if n == 0 {
        Seq::empty()
    } else {
        let prev = unseen_upto(history, (n - 1) as nat);
        let c = deck()[n - 1];
        if history.contains(c) {
            prev
        } else {
            prev.push(c)
        }
    }
}

/// The cards that can still be drawn after `history`, in deck order.
pub open spec fn unseen(history: Seq<PlayingCard>) -> Seq<PlayingCard> {
    unseen_upto(history, 52)
}

/// The pot after a multiplier, rounded down, capped at the largest `u64`.
pub open spec fn new_pot(pot: u64, score: u64) -> u64 {
    let p = pot as int * score as int / UNIT as int;
    if p > u64::MAX {
        u64::MAX
    } else {
        p as u64
    }
}

/// Whether drawing `card` after `history` leads to a further decision: the
/// pot is not lost and the choice is followed by one. The last condition,
/// one card fewer left to draw, holds of every unseen card (see
/// `lemma_unseen_draw`) and bounds the recursion.
pub open spec fn leads_on<C: Choice>(
    pick: Pick<C>,
    pot: u64,
    history: Seq<PlayingCard>,
    card: PlayingCard,
) -> bool {
    let h = seq![card] + history;
    &&& new_pot(pot, pick.score_spec(h)) >= LOST_BELOW
    &&& pick.next_spec().len() > 0
    &&& unseen(h).len() < unseen(history).len()
}

/// The realized value of drawing `card` after `history` under `pick`: 0 when
/// the pot is lost, the new pot when the game ends, and otherwise the value
/// of the decision that follows.
pub open spec fn outcome_value<C: Choice>(
    pick: Pick<C>,
    pot: u64,
    history: Seq<PlayingCard>,
    card: PlayingCard,
) -> u64
    decreases unseen(history).len(), 0nat, 0nat,
{
    let h = seq![card] + history;
    let p = new_pot(pot, pick.score_spec(h));
    if p < LOST_BELOW {
        0
    } else if leads_on(pick, pot, history, card) {
        best_ev(pick.next_spec(), p, h, pick.next_spec().len())
    } else {
        p
    }
}

/// The sum of the realized values of the first `n` unseen cards.
pub open spec fn sum_values<C: Choice>(
    pick: Pick<C>,
    pot: u64,
    history: Seq<PlayingCard>,
    n: nat,
) -> nat
    decreases unseen(history).len(), 1nat, n,
{
    if n == 0 || n > unseen(history).len() {
        0
    } else {
        sum_values(pick, pot, history, (n - 1) as nat) + outcome_value(
            pick,
            pot,
            history,
            unseen(history)[n - 1],
        ) as nat
    }
}

/// The expected value of a choice: the mean, rounded down, of the realized
/// values over every unseen card, each equally likely; 0 when no card is left.
///
/// Where the mean is not exact it is rounded down to a unit of `1 / UNIT`;
/// then a value is not exactly linear in the pot (see `UNIT`).
pub open spec fn choice_ev<C: Choice>(pick: Pick<C>, pot: u64, history: Seq<PlayingCard>) -> u64
    decreases unseen(history).len(), 2nat, 0nat,
{
    let m = unseen(history).len();
    if m == 0 {
        0
    } else {
        (sum_values(pick, pot, history, m) / m) as u64
    }
}

/// The largest expected value among the first `n` choices; 0 for none.
pub open spec fn best_ev<C: Choice>(
    picks: Seq<Pick<C>>,
    pot: u64,
    history: Seq<PlayingCard>,
    n: nat,
) -> u64
    decreases unseen(history).len(), 3nat, n,
{
    if n == 0 || n > picks.len() {
        0
    } else {
        let prev = best_ev(picks, pot, history, (n - 1) as nat);
        let e = choice_ev(picks[n - 1], pot, history);
        if e > prev {
            e
        } else {
            prev
        }
    }
}

/// The number of outcomes of drawing `card`: 1 for a lost pot or an ended
/// game, otherwise the outcomes of the decision that follows.
pub open spec fn outcome_count<C: Choice>(
    pick: Pick<C>,
    pot: u64,
    history: Seq<PlayingCard>,
    card: PlayingCard,
) -> nat
    decreases unseen(history).len(), 0nat, 0nat,
{
    let h = seq![card] + history;
    if leads_on(pick, pot, history, card) {
        picks_count(pick.next_spec(), new_pot(pot, pick.score_spec(h)), h, pick.next_spec().len())
    } else {
        1
    }
}

/// The outcomes of the first `n` unseen cards under one choice.
pub open spec fn cards_count<C: Choice>(
    pick: Pick<C>,
    pot: u64,
    history: Seq<PlayingCard>,
    n: nat,
) -> nat
    decreases unseen(history).len(), 1nat, n,
{
    if n == 0 || n > unseen(history).len() {
        0
    } else {
        cards_count(pick, pot, history, (n - 1) as nat) + outcome_count(
            pick,
            pot,
            history,
            unseen(history)[n - 1],
        )
    }
}

/// The outcomes of the first `n` choices of a decision.
pub open spec fn picks_count<C: Choice>(
    picks: Seq<Pick<C>>,
    pot: u64,
    history: Seq<PlayingCard>,
    n: nat,
) -> nat
    decreases unseen(history).len(), 2nat, n,
{
    if n == 0 || n > picks.len() {
        0
    } else {
        picks_count(picks, pot, history, (n - 1) as nat) + cards_count(
            picks[n - 1],
            pot,
            history,
            unseen(history).len(),
        )
    }
}

/// The number of outcomes of a whole decision.
pub open spec fn decision_count<C: Choice>(
    picks: Seq<Pick<C>>,
    pot: u64,
    history: Seq<PlayingCard>,
) -> nat {
    picks_count(picks, pot, history, picks.len())
}

/// A count stored in a `usize`, which holds the largest value when it overflows.
pub open spec fn capped(n: nat) -> usize {
    if n > usize::MAX {
        usize::MAX
    } else {
        n as usize
    }
}

/// The largest of the first `n` values; 0 for none.
pub open spec fn max_ev(evs: Seq<u64>, n: nat) -> u64
    decreases n,
{
    if n == 0 || n > evs.len() {
        0
    } else {
        let prev = max_ev(evs, (n - 1) as nat);
        if evs[n - 1] > prev {
            evs[n - 1]
        } else {
            prev
        }
    }
}

/// The position of the first largest of the first `n` values.
pub open spec fn first_max_index(evs: Seq<u64>, n: nat) -> nat
    decreases n,
{
    if n <= 1 || n > evs.len() {
        0
    } else {
        let i = first_max_index(evs, (n - 1) as nat);
        if evs[n - 1] > evs[i as int] {
            (n - 1) as nat
        } else {
            i
        }
    }
}

/// The position of the last largest of the first `n` values.
pub open spec fn last_max_index(vals: Seq<u64>, n: nat) -> nat
    decreases n,
{
    if n <= 1 || n > vals.len() {
        0
    } else {
        let i = last_max_index(vals, (n - 1) as nat);
        if vals[n - 1] >= vals[i as int] {
            (n - 1) as nat
        } else {
            i
        }
    }
}

/// The realized value of the first outcome for `card` at position `i` or
/// later, or 0 when there is none.
pub open spec fn value_for<C: Choice>(
    events: Seq<RandomEventOutcome<C>>,
    card: PlayingCard,
    i: nat,
) -> u64
    decreases events.len() - i,
{
    if i >= events.len() {
        0
    } else if events[i as int].event_view() == card {
        events[i as int].value_view()
    } else {
        value_for(events, card, i + 1)
    }
}

/// A solved decision: for each choice, its expected value and its outcome
/// for every card that can be drawn.
#[verifier::reject_recursive_types(C)]
pub struct DiscreteDecisionTree<C> {
    choices: Vec<ChoiceEval<C>>,
    outcomes: usize,
}

/// A choice with its expected value and its outcome for each card.
#[verifier::reject_recursive_types(C)]
pub struct ChoiceEval<C> {
    pub choice: Pick<C>,
    pub expected_value: u64,
    random_events: Vec<RandomEventOutcome<C>>,
}

/// The outcome of drawing one card after a choice: lost (value 0, no
/// subtree), ended (value is the new pot, no subtree), or continued (value is
/// the best expected value of the subtree).
#[verifier::reject_recursive_types(C)]
pub struct RandomEventOutcome<C> {
    pub event: PlayingCard,
    pub value: u64,
    next_decision_tree: Option<DiscreteDecisionTree<C>>,
}

impl<C: Choice> DiscreteDecisionTree<C> {
    /// The evaluated choices, in the decision's order.
    pub closed spec fn choices_view(&self) -> Seq<ChoiceEval<C>> {
        self.choices@
    }

    /// The expected values of the choices, in order.
    pub open spec fn evs(&self) -> Seq<u64> {
        self.choices_view().map_values(|e: ChoiceEval<C>| e.ev_view())
    }

    /// The stored number of outcomes.
    pub closed spec fn outcomes_view(&self) -> usize {
        self.outcomes
    }

    /// This tree is the solution of `picks` from `pot` after `history`: one
    /// evaluation per choice, in order, and the outcome count of the whole
    /// decision.
    pub open spec fn solves(&self, picks: Seq<Pick<C>>, pot: u64, history: Seq<PlayingCard>) -> bool
        decreases unseen(history).len(), 2nat,
    {
        &&& self.choices_view().len() == picks.len()
        &&& self.outcomes_view() == capped(decision_count(picks, pot, history))
        &&& forall|i: int|
            0 <= i < picks.len() ==> (#[trigger] self.choices_view()[i]).evaluates(
                picks[i],
                pot,
                history,
            )
    }
}

impl<C: Choice> ChoiceEval<C> {
    /// The choice that was evaluated.
    pub closed spec fn pick_view(&self) -> Pick<C> {
        self.choice
    }

    /// Its expected value.
    pub closed spec fn ev_view(&self) -> u64 {
        self.expected_value
    }

    /// The outcomes, one for each card that can be drawn, in deck order.
    pub closed spec fn events_view(&self) -> Seq<RandomEventOutcome<C>> {
        self.random_events@
    }

    /// This is the evaluation of `pick` from `pot` after `history`: its
    /// expected value, and one outcome for each unseen card, in deck order.
    pub open spec fn evaluates(&self, pick: Pick<C>, pot: u64, history: Seq<PlayingCard>) -> bool
        decreases unseen(history).len(), 1nat,
    {
        &&& self.pick_view() == pick
        &&& self.ev_view() == choice_ev(pick, pot, history)
        &&& self.events_view().len() == unseen(history).len()
        &&& forall|j: int|
            0 <= j < unseen(history).len() ==> (#[trigger] self.events_view()[j]).resolves(
                pick,
                pot,
                history,
                unseen(history)[j],
            )
    }
}

impl<C: Choice> RandomEventOutcome<C> {
    /// The card drawn.
    pub closed spec fn event_view(&self) -> PlayingCard {
        self.event
    }

    /// The realized value.
    pub closed spec fn value_view(&self) -> u64 {
        self.value
    }

    /// The subtree that follows this outcome, if any.
    pub closed spec fn next_view(&self) -> Option<DiscreteDecisionTree<C>> {
        self.next_decision_tree
    }

    /// This is the outcome of drawing `card` after `history` under `pick`
    /// from `pot`: its realized value, and the solved decision that follows
    /// exactly when the game goes on.
    pub open spec fn resolves(
        &self,
        pick: Pick<C>,
        pot: u64,
        history: Seq<PlayingCard>,
        card: PlayingCard,
    ) -> bool
        decreases unseen(history).len(), 0nat,
    {
        &&& self.event_view() == card
        &&& self.value_view() == outcome_value(pick, pot, history, card)
        &&& if leads_on(pick, pot, history, card) {
            match self.next_view() {
                Some(t) => t.solves(
                    pick.next_spec(),
                    new_pot(pot, pick.score_spec(seq![card] + history)),
                    seq![card] + history,
                ),
                None => false,
            }
        } else {
            self.next_view().is_none()
        }
    }
}

/// Whether `history` holds `card`.
fn holds(history: &Vec<PlayingCard>, card: PlayingCard) -> (r: bool)
    ensures
        r == history@.contains(card),
{
    let mut i: usize = 0;
    while i < history.len()
        invariant
            i <= history@.len(),
            forall|k: int| 0 <= k < i ==> history@[k] != card,
        decreases history@.len() - i,
    {
        if history[i] == card {
            return true;
        }
        i = i + 1;
    }
    false
}

/// The cards that can still be drawn after `history`, in deck order.
fn unseen_cards(history: &Vec<PlayingCard>) -> (r: Vec<PlayingCard>)
    ensures
        r@ == unseen(history@),
{
    let cards = PlayingCard::deck_iter();
    let mut r: Vec<PlayingCard> = Vec::with_capacity(52);
    let mut i: usize = 0;
    proof {
        lemma_deck_index(0);
    }
    while i < cards.len()
        invariant
            cards@ == deck(),
            cards@.len() == 52,
            i <= cards@.len(),
            r@ == unseen_upto(history@, i as nat),
        decreases cards@.len() - i,
    {
        proof {
            lemma_deck_index(i as int);
        }
        let c = cards[i];
        if !holds(history, c) {
            r.push(c);
        }
        i = i + 1;
    }
    r
}

/// The sum of two counts, holding the largest `usize` when it overflows.
fn add_capped(a: usize, b: usize) -> (r: usize)
    ensures
        r == capped((a + b) as nat),
{
    match a.checked_add(b) {
        Some(x) => x,
        None => usize::MAX,
    }
}

impl<C: Choice> DiscreteDecisionTree<C> {
    /// Solves a game from its first decision, a pot of 1.0 and no card seen.
    pub fn solve(first_decision: DiscreteDecision<C>) -> (r: Self)
        ensures
            r.solves(first_decision@, UNIT, Seq::empty()),
    {
        let history: Vec<PlayingCard> = Vec::new();
        Self::compute(first_decision, UNIT, &history)
    }

    /// Evaluates every choice of `decision` from `pot` after `history`,
    /// the cards already revealed on this path, most recent first. Each card
    /// not in `history` is drawn in turn, equally likely.
    pub fn compute(decision: DiscreteDecision<C>, pot: u64, history: &Vec<PlayingCard>) -> (r: Self)
        ensures
            r.solves(decision@, pot, history@),
        decreases unseen(history@).len(), 2nat,
    {
        let ghost picks = decision@;
        let mut rest = decision.into_choices();
        let cards = unseen_cards(history);
        let mut choices: Vec<ChoiceEval<C>> = Vec::new();
        let mut outcomes: usize = 0;
        while rest.len() > 0
            invariant
                cards@ == unseen(history@),
                choices@.len() + rest@.len() == picks.len(),
                rest@ == picks.subrange(choices@.len() as int, picks.len() as int),
                forall|i: int|
                    0 <= i < choices@.len() ==> (#[trigger] choices@[i]).evaluates(
                        picks[i],
                        pot,
                        history@,
                    ),
                outcomes == capped(picks_count(picks, pot, history@, choices@.len() as nat)),
            decreases rest@.len(),
        {
            let ghost i = choices@.len();
            let ghost before = choices@;
            let pick = rest.remove(0);
            assert(pick == picks[i as int]);
            let e = ChoiceEval::evaluate(pick, pot, history, &cards);
            let n = e.count_outcomes(Ghost(pot), Ghost(history@));
            outcomes = add_capped(outcomes, n);
            choices.push(e);
            assert(rest@ =~= picks.subrange(choices@.len() as int, picks.len() as int));
            assert forall|k: int| 0 <= k < choices@.len() implies (#[trigger] choices@[k]).evaluates(
                picks[k],
                pot,
                history@,
            ) by {
                if k < i {
                    assert(choices@[k] == before[k]);
                }
            }
        }
        DiscreteDecisionTree { choices, outcomes }
    }

    /// The first choice with the largest expected value, or none when the
    /// decision offers no choice.
    pub fn optimal(&self) -> (r: Option<&ChoiceEval<C>>)
        ensures
            r.is_none() <==> self.choices_view().len() == 0,
            r matches Some(e) ==> *e == self.choices_view()[first_max_index(
                self.evs(),
                self.evs().len(),
            ) as int] && e.ev_view() == max_ev(self.evs(), self.evs().len()),
            r matches Some(e) ==> forall|i: int|
                0 <= i < self.evs().len() ==> #[trigger] self.evs()[i] <= e.ev_view(),
            r matches Some(e) ==> forall|i: int|
                0 <= i < first_max_index(self.evs(), self.evs().len()) ==> #[trigger] self.evs()[i]
                    < e.ev_view(),
    {
        let n = self.choices.len();
        if n == 0 {
            return None;
        }
        let ghost evs = self.evs();
        assert(evs[0] == self.choices@[0].expected_value);
        assert(max_ev(evs, 0) == 0);
        assert(max_ev(evs, 1) == evs[0]);
        let mut best: usize = 0;
        let mut i: usize = 1;
        while i < n
            invariant
                n == self.choices@.len(),
                evs == self.evs(),
                evs.len() == n,
                1 <= i <= n,
                best < i,
                best == first_max_index(evs, i as nat),
                evs[best as int] == max_ev(evs, i as nat),
            decreases n - i,
        {
            if self.choices[i].expected_value > self.choices[best].expected_value {
                best = i;
            }
            i = i + 1;
        }
        proof {
            lemma_first_max(evs, n as nat);
        }
        Some(&self.choices[best])
    }

    /// The evaluated choices, in the decision's order.
    pub fn iter(&self) -> (r: &[ChoiceEval<C>])
        ensures
            r@ == self.choices_view(),
    {
        self.choices.as_slice()
    }

    /// What each choice realizes when `card` is drawn, in order.
    pub open spec fn card_values(&self, card: PlayingCard) -> Seq<u64> {
        self.choices_view().map_values(|e: ChoiceEval<C>| value_for(e.events_view(), card, 0))
    }

    /// The choice a player took, told from the card that was drawn: the one
    /// that realizes most on it, the last of those that tie. None when the
    /// decision offers no choice.
    pub fn chosen_by(&self, card: PlayingCard) -> (r: Option<&ChoiceEval<C>>)
        ensures
            r.is_none() <==> self.choices_view().len() == 0,
            r matches Some(e) ==> *e == self.choices_view()[last_max_index(
                self.card_values(card),
                self.choices_view().len(),
            ) as int],
            r matches Some(e) ==> forall|i: int|
                0 <= i < self.choices_view().len() ==> #[trigger] self.card_values(card)[i]
                    <= value_for(e.events_view(), card, 0),
    {
        let n = self.choices.len();
        if n == 0 {
            return None;
        }
        let ghost vals = self.card_values(card);
        let mut best: usize = 0;
        let mut best_value = self.choices[0].value_of(card);
        let mut i: usize = 1;
        while i < n
            invariant
                n == self.choices@.len(),
                vals == self.card_values(card),
                vals.len() == n,
                1 <= i <= n,
                best < i,
                best == last_max_index(vals, i as nat),
                best_value == vals[best as int],
            decreases n - i,
        {
            let v = self.choices[i].value_of(card);
            if v >= best_value {
                best = i;
                best_value = v;
            }
            i = i + 1;
        }
        proof {
            lemma_last_max(vals, n as nat);
        }
        Some(&self.choices[best])
    }

    /// The number of outcomes in the tree: the number of its leaves.
    pub fn outcome_count(&self) -> (r: usize)
        ensures
            r == self.outcomes_view(),
    {
        self.outcomes
    }
}

impl<C: Choice> ChoiceEval<C> {
    /// Evaluates `pick` from `pot` after `history`, drawing each card of
    /// `cards`, the cards not yet seen.
    fn evaluate(pick: Pick<C>, pot: u64, history: &Vec<PlayingCard>, cards: &Vec<PlayingCard>) -> (r: Self)
        requires
            cards@ == unseen(history@),
        ensures
            r.evaluates(pick, pot, history@),
        decreases unseen(history@).len(), 1nat,
    {
        let m = cards.len();
        proof {
            lemma_unseen_len(history@, 52);
        }
        let mut ev_sum: u128 = 0;
        let mut random_events: Vec<RandomEventOutcome<C>> = Vec::with_capacity(52);
        let mut j: usize = 0;
        while j < m
            invariant
                m == cards@.len(),
                cards@ == unseen(history@),
                m <= 52,
                j <= m,
                random_events@.len() == j,
                ev_sum == sum_values(pick, pot, history@, j as nat),
                ev_sum <= j * (u64::MAX as int),
                forall|k: int|
                    0 <= k < j ==> (#[trigger] random_events@[k]).resolves(
                        pick,
                        pot,
                        history@,
                        unseen(history@)[k],
                    ),
            decreases m - j,
        {
            let ghost before = random_events@;
            let o = RandomEventOutcome::evaluate(cards[j], &pick, pot, history, Ghost(j as int));
            ev_sum = ev_sum + o.value as u128;
            random_events.push(o);
            j = j + 1;
            assert forall|k: int| 0 <= k < j implies (#[trigger] random_events@[k]).resolves(
                pick,
                pot,
                history@,
                unseen(history@)[k],
            ) by {
                if k < j - 1 {
                    assert(random_events@[k] == before[k]);
                }
            }
        }
        let expected_value = if m == 0 {
            0
        } else {
            proof {
                assert((ev_sum as int) / (m as int) <= u64::MAX) by (nonlinear_arith)
                    requires
                        ev_sum <= m * (u64::MAX as int),
                        m > 0,
                ;
            }
            (ev_sum / (m as u128)) as u64
        };
        ChoiceEval { choice: pick, expected_value, random_events }
    }

    /// The number of outcomes of this choice, over all cards.
    fn count_outcomes(&self, pot: Ghost<u64>, history: Ghost<Seq<PlayingCard>>) -> (r: usize)
        requires
            self.evaluates(self.choice, pot@, history@),
        ensures
            r == capped(cards_count(self.choice, pot@, history@, unseen(history@).len())),
    {
        let mut total: usize = 0;
        let mut j: usize = 0;
        while j < self.random_events.len()
            invariant
                self.evaluates(self.choice, pot@, history@),
                j <= self.random_events@.len(),
                total == capped(cards_count(self.choice, pot@, history@, j as nat)),
            decreases self.random_events@.len() - j,
        {
            let o = &self.random_events[j];
            assert(o.resolves(self.choice, pot@, history@, unseen(history@)[j as int]));
            let n = o.count();
            proof {
                let card = unseen(history@)[j as int];
                let ghost a = cards_count(self.choice, pot@, history@, j as nat);
                let ghost b = outcome_count(self.choice, pot@, history@, card);
                assert(cards_count(self.choice, pot@, history@, (j + 1) as nat) == a + b);
                if leads_on(self.choice, pot@, history@, card) {
                    let h = seq![card] + history@;
                    let t = o.next_view()->Some_0;
                    assert(t.solves(
                        self.choice.next_spec(),
                        new_pot(pot@, self.choice.score_spec(h)),
                        h,
                    ));
                    assert(n == capped(b));
                } else {
                    assert(n == 1);
                    assert(b == 1);
                }
            }
            total = add_capped(total, n);
            j = j + 1;
        }
        total
    }

    /// The choice that was evaluated.
    pub fn choice(&self) -> (r: &Pick<C>)
        ensures
            *r == self.pick_view(),
    {
        &self.choice
    }

    /// The expected value of the choice.
    pub fn expected_value(&self) -> (r: u64)
        ensures
            r == self.ev_view(),
    {
        self.expected_value
    }

    /// The realized value of drawing `event`, or 0 when it cannot be drawn.
    pub fn value_of(&self, event: PlayingCard) -> (r: u64)
        ensures
            r == value_for(self.events_view(), event, 0),
    {
        let mut j: usize = 0;
        while j < self.random_events.len()
            invariant
                j <= self.random_events@.len(),
                value_for(self.events_view(), event, 0) == value_for(self.events_view(), event, j as nat),
            decreases self.random_events@.len() - j,
        {
            if self.random_events[j].event == event {
                return self.random_events[j].value;
            }
            j = j + 1;
        }
        0
    }

    /// The outcomes, one for each card that could be drawn, in deck order.
    pub fn iter(&self) -> (r: &[RandomEventOutcome<C>])
        ensures
            r@ == self.events_view(),
    {
        self.random_events.as_slice()
    }

    /// The outcome of drawing `event`, or none when that card could not be drawn.
    pub fn get(&self, event: PlayingCard) -> (r: Option<&RandomEventOutcome<C>>)
        ensures
            match r {
                Some(o) => exists|j: int|
                    0 <= j < self.events_view().len() && *o == self.events_view()[j]
                        && o.event_view() == event && forall|k: int|
                        0 <= k < j ==> (#[trigger] self.events_view()[k]).event_view() != event,
                None => forall|k: int|
                    0 <= k < self.events_view().len() ==> (
                    #[trigger] self.events_view()[k]).event_view() != event,
            },
    {
        let mut j: usize = 0;
        while j < self.random_events.len()
            invariant
                j <= self.random_events@.len(),
                forall|k: int| 0 <= k < j ==> (#[trigger] self.random_events@[k]).event != event,
            decreases self.random_events@.len() - j,
        {
            if self.random_events[j].event == event {
                assert(self.events_view()[j as int].event_view() == event);
                return Some(&self.random_events[j]);
            }
            j = j + 1;
        }
        None
    }
}

impl<C: Choice> RandomEventOutcome<C> {
    /// Draws `event`, the `j`-th unseen card, after `history` under `choice`
    /// from `pot`.
    fn evaluate(
        event: PlayingCard,
        choice: &Pick<C>,
        pot: u64,
        history: &Vec<PlayingCard>,
        j: Ghost<int>,
    ) -> (r: Self)
        requires
            0 <= j@ < unseen(history@).len(),
            event == unseen(history@)[j@],
        ensures
            r.resolves(*choice, pot, history@, event),
        decreases unseen(history@).len(), 0nat,
    {
        let mut new_history: Vec<PlayingCard> = Vec::new();
        new_history.push(event);
        let mut i: usize = 0;
        while i < history.len()
            invariant
                i <= history@.len(),
                new_history@ == seq![event] + history@.subrange(0, i as int),
            decreases history@.len() - i,
        {
            new_history.push(history[i]);
            i = i + 1;
            assert(new_history@ =~= seq![event] + history@.subrange(0, i as int));
        }
        assert(new_history@ =~= seq![event] + history@);
        proof {
            lemma_unseen_draw(history@, j@);
        }
        let score = choice.score(new_history.as_slice());
        proof {
            assert(pot as int * score as int <= (u64::MAX as int) * (u64::MAX as int))
                by (nonlinear_arith)
                requires
                    pot <= u64::MAX,
                    score <= u64::MAX,
            ;
        }
        let product: u128 = (pot as u128) * (score as u128) / (UNIT as u128);
        let new_pot_value: u64 = if product > u64::MAX as u128 {
            u64::MAX
        } else {
            product as u64
        };
        assert(new_pot_value == new_pot(pot, choice.score_spec(new_history@)));
        if new_pot_value < LOST_BELOW {
            return RandomEventOutcome { event, value: 0, next_decision_tree: None };
        }
        let next = choice.next_decision();
        if next.len() == 0 {
            return RandomEventOutcome { event, value: new_pot_value, next_decision_tree: None };
        }
        let tree = DiscreteDecisionTree::compute(next, new_pot_value, &new_history);
        let value = match tree.optimal() {
            Some(e) => e.expected_value,
            None => new_pot_value,
        };
        proof {
            lemma_max_ev_matches(tree, choice.next_spec(), new_pot_value, new_history@, tree.evs().len());
        }
        RandomEventOutcome { event, value, next_decision_tree: Some(tree) }
    }

    /// The card drawn.
    pub fn event(&self) -> (r: PlayingCard)
        ensures
            r == self.event_view(),
    {
        self.event
    }

    /// The realized value of the outcome.
    pub fn value(&self) -> (r: u64)
        ensures
            r == self.value_view(),
    {
        self.value
    }

    /// The subtree that follows this outcome, if the game goes on.
    pub fn next_decision(&self) -> (r: Option<&DiscreteDecisionTree<C>>)
        ensures
            match r {
                Some(t) => self.next_view() == Some(*t),
                None => self.next_view().is_none(),
            },
    {
        self.next_decision_tree.as_ref()
    }

    /// The number of outcomes below this one: 1 when the game ends here,
    /// otherwise the outcome count of the subtree.
    pub fn count(&self) -> (r: usize)
        ensures
            r == match self.next_view() {
                Some(t) => t.outcomes_view(),
                None => 1,
            },
    {
        match &self.next_decision_tree {
            Some(t) => t.outcomes,
            None => 1,
        }
    }
}

/// The last largest of the first `n` values is at least each of them.
pub proof fn lemma_last_max(vals: Seq<u64>, n: nat)
    requires
        0 < n <= vals.len(),
    ensures
        last_max_index(vals, n) < n,
        forall|i: int| 0 <= i < n ==> #[trigger] vals[i] <= vals[last_max_index(vals, n) as int],
    decreases n,
{
    if n > 1 {
        lemma_last_max(vals, (n - 1) as nat);
    }
}

/// The first largest of the first `n` values is at least each of them and
/// larger than each before it.
pub proof fn lemma_first_max(evs: Seq<u64>, n: nat)
    requires
        0 < n <= evs.len(),
    ensures
        first_max_index(evs, n) < n,
        evs[first_max_index(evs, n) as int] == max_ev(evs, n),
        forall|i: int| 0 <= i < n ==> #[trigger] evs[i] <= max_ev(evs, n),
        forall|i: int| 0 <= i < first_max_index(evs, n) ==> #[trigger] evs[i] < max_ev(evs, n),
    decreases n,
{
    if n > 1 {
        lemma_first_max(evs, (n - 1) as nat);
    } else {
        assert(max_ev(evs, 0) == 0);
    }
}

proof fn lemma_max_ev_matches<C: Choice>(
    t: DiscreteDecisionTree<C>,
    picks: Seq<Pick<C>>,
    pot: u64,
    history: Seq<PlayingCard>,
    n: nat,
)
    requires
        t.solves(picks, pot, history),
        n <= picks.len(),
    ensures
        max_ev(t.evs(), n) == best_ev(picks, pot, history, n),
    decreases n,
{
    if n > 0 {
        lemma_max_ev_matches(t, picks, pot, history, (n - 1) as nat);
        assert(t.choices_view()[n - 1].evaluates(picks[n - 1], pot, history));
    }
}

/// Solving is deterministic: two trees that solve the same decision from
/// the same pot and history hold the same expected values, the same outcome
/// count, and for each choice and card the same outcome value; where one
/// goes on to a subtree so does the other, and both subtrees solve the same
/// decision from the same pot and history, so this applies to them in turn.
pub proof fn lemma_solve_deterministic<C: Choice>(
    t1: DiscreteDecisionTree<C>,
    t2: DiscreteDecisionTree<C>,
    picks: Seq<Pick<C>>,
    pot: u64,
    history: Seq<PlayingCard>,
)
    requires
        t1.solves(picks, pot, history),
        t2.solves(picks, pot, history),
    ensures
        t1.evs() == t2.evs(),
        t1.outcomes_view() == t2.outcomes_view(),
        t1.choices_view().len() == t2.choices_view().len(),
        forall|i: int, j: int|
            0 <= i < picks.len() && 0 <= j < unseen(history).len() ==> {
                let o1 = (#[trigger] t1.choices_view()[i].events_view()[j]);
                let o2 = t2.choices_view()[i].events_view()[j];
                &&& o1.event_view() == o2.event_view()
                &&& o1.value_view() == o2.value_view()
                &&& o1.next_view().is_some() == o2.next_view().is_some()
                &&& o1.next_view() matches Some(c1) ==> (o2.next_view() matches Some(c2)
                    && c1.solves(
                    picks[i].next_spec(),
                    new_pot(pot, picks[i].score_spec(seq![unseen(history)[j]] + history)),
                    seq![unseen(history)[j]] + history,
                ) && c2.solves(
                    picks[i].next_spec(),
                    new_pot(pot, picks[i].score_spec(seq![unseen(history)[j]] + history)),
                    seq![unseen(history)[j]] + history,
                ))
            },
{
    assert forall|i: int| 0 <= i < t1.evs().len() implies t1.evs()[i] == t2.evs()[i] by {
        assert(t1.choices_view()[i].evaluates(picks[i], pot, history));
        assert(t2.choices_view()[i].evaluates(picks[i], pot, history));
    }
    assert(t1.evs() =~= t2.evs());
    assert forall|i: int, j: int|
        0 <= i < picks.len() && 0 <= j < unseen(history).len() implies {
            let o1 = (#[trigger] t1.choices_view()[i].events_view()[j]);
            let o2 = t2.choices_view()[i].events_view()[j];
            &&& o1.event_view() == o2.event_view()
            &&& o1.value_view() == o2.value_view()
            &&& o1.next_view().is_some() == o2.next_view().is_some()
            &&& o1.next_view() matches Some(c1) ==> (o2.next_view() matches Some(c2)
                && c1.solves(
                picks[i].next_spec(),
                new_pot(pot, picks[i].score_spec(seq![unseen(history)[j]] + history)),
                seq![unseen(history)[j]] + history,
            ) && c2.solves(
                picks[i].next_spec(),
                new_pot(pot, picks[i].score_spec(seq![unseen(history)[j]] + history)),
                seq![unseen(history)[j]] + history,
            ))
        } by {
        let e1 = t1.choices_view()[i];
        let e2 = t2.choices_view()[i];
        assert(e1.evaluates(picks[i], pot, history));
        assert(e2.evaluates(picks[i], pot, history));
        assert(e1.events_view()[j].resolves(picks[i], pot, history, unseen(history)[j]));
        assert(e2.events_view()[j].resolves(picks[i], pot, history, unseen(history)[j]));
    }
}

/// A tree's outcome count is the sum, over all choices and cards, of 1 for
/// an outcome that ends the game and of the subtree's outcome count for one
/// that goes on; each outcome's own count agrees with that sum. Counts that
/// overflow a `usize` hold its largest value.
pub proof fn lemma_outcome_count_consistent<C: Choice>(
    t: DiscreteDecisionTree<C>,
    picks: Seq<Pick<C>>,
    pot: u64,
    history: Seq<PlayingCard>,
    i: int,
    j: int,
)
    requires
        t.solves(picks, pot, history),
        0 <= i < picks.len(),
        0 <= j < unseen(history).len(),
    ensures
        t.outcomes_view() == capped(decision_count(picks, pot, history)),
        decision_count(picks, pot, history) == picks_count(picks, pot, history, picks.len()),
        match t.choices_view()[i].events_view()[j].next_view() {
            Some(c) => c.outcomes_view(),
            None => 1,
        } == capped(outcome_count(picks[i], pot, history, unseen(history)[j])),
{
    let e = t.choices_view()[i];
    assert(e.evaluates(picks[i], pot, history));
    let o = e.events_view()[j];
    assert(o.resolves(picks[i], pot, history, unseen(history)[j]));
}

/// The count an outcome reports: its subtree's outcome count, or 1.
pub open spec fn reported_count<C: Choice>(o: RandomEventOutcome<C>) -> nat {
    match o.next_view() {
        Some(c) => c.outcomes_view() as nat,
        None => 1,
    }
}

/// The sum of the counts reported by the first `n` outcomes.
pub open spec fn events_sum<C: Choice>(events: Seq<RandomEventOutcome<C>>, n: nat) -> nat
    decreases n,
{
    if n == 0 || n > events.len() {
        0
    } else {
        events_sum(events, (n - 1) as nat) + reported_count(events[n - 1])
    }
}

/// The sum, over the first `n` choices, of the counts their outcomes report.
pub open spec fn choices_sum<C: Choice>(choices: Seq<ChoiceEval<C>>, n: nat) -> nat
    decreases n,
{
    if n == 0 || n > choices.len() {
        0
    } else {
        choices_sum(choices, (n - 1) as nat) + events_sum(
            choices[n - 1].events_view(),
            choices[n - 1].events_view().len(),
        )
    }
}

/// When it fits in a `usize`, a tree's outcome count is the sum, over its
/// choices and their outcomes, of the count each outcome reports: 1 for a
/// lost or ended game, the subtree's count otherwise.
pub proof fn lemma_outcome_count_sum<C: Choice>(
    t: DiscreteDecisionTree<C>,
    picks: Seq<Pick<C>>,
    pot: u64,
    history: Seq<PlayingCard>,
)
    requires
        t.solves(picks, pot, history),
        decision_count(picks, pot, history) <= usize::MAX,
    ensures
        t.outcomes_view() == choices_sum(t.choices_view(), t.choices_view().len()),
{
    lemma_choices_sum(t, picks, pot, history, picks.len());
}

proof fn lemma_choices_sum<C: Choice>(
    t: DiscreteDecisionTree<C>,
    picks: Seq<Pick<C>>,
    pot: u64,
    history: Seq<PlayingCard>,
    n: nat,
)
    requires
        t.solves(picks, pot, history),
        n <= picks.len(),
        picks_count(picks, pot, history, n) <= usize::MAX,
    ensures
        choices_sum(t.choices_view(), n) == picks_count(picks, pot, history, n),
    decreases n,
{
    if n > 0 {
        let k = (n - 1) as nat;
        let e = t.choices_view()[k as int];
        assert(e.evaluates(picks[k as int], pot, history));
        assert(picks_count(picks, pot, history, n) == picks_count(picks, pot, history, k)
            + cards_count(picks[k as int], pot, history, unseen(history).len()));
        lemma_choices_sum(t, picks, pot, history, k);
        lemma_events_sum(e, picks[k as int], pot, history, unseen(history).len());
    }
}

proof fn lemma_events_sum<C: Choice>(
    e: ChoiceEval<C>,
    pick: Pick<C>,
    pot: u64,
    history: Seq<PlayingCard>,
    n: nat,
)
    requires
        e.evaluates(pick, pot, history),
        n <= unseen(history).len(),
        cards_count(pick, pot, history, n) <= usize::MAX,
    ensures
        events_sum(e.events_view(), n) == cards_count(pick, pot, history, n),
    decreases n,
{
    if n > 0 {
        let k = (n - 1) as nat;
        let card = unseen(history)[k as int];
        let o = e.events_view()[k as int];
        assert(o.resolves(pick, pot, history, card));
        assert(cards_count(pick, pot, history, n) == cards_count(pick, pot, history, k)
            + outcome_count(pick, pot, history, card));
        lemma_events_sum(e, pick, pot, history, k);
        if leads_on(pick, pot, history, card) {
            let h = seq![card] + history;
            let c = o.next_view()->Some_0;
            assert(c.solves(pick.next_spec(), new_pot(pot, pick.score_spec(h)), h));
        }
        assert(reported_count(o) == outcome_count(pick, pot, history, card));
    }
}

/// With `k` choices that all end the game, and `m` cards left to draw, a
/// decision has `k * m` outcomes.
pub proof fn lemma_single_level_count<C: Choice>(
    picks: Seq<Pick<C>>,
    pot: u64,
    history: Seq<PlayingCard>,
)
    requires
        forall|i: int| 0 <= i < picks.len() ==> (#[trigger] picks[i]).next_spec().len() == 0,
    ensures
        decision_count(picks, pot, history) == picks.len() * unseen(history).len(),
{
    lemma_picks_count_terminal(picks, pot, history, picks.len());
}

proof fn lemma_picks_count_terminal<C: Choice>(
    picks: Seq<Pick<C>>,
    pot: u64,
    history: Seq<PlayingCard>,
    n: nat,
)
    requires
        n <= picks.len(),
        forall|i: int| 0 <= i < picks.len() ==> (#[trigger] picks[i]).next_spec().len() == 0,
    ensures
        picks_count(picks, pot, history, n) == n * unseen(history).len(),
    decreases n,
{
    if n > 0 {
        let m = unseen(history).len();
        lemma_picks_count_terminal(picks, pot, history, (n - 1) as nat);
        assert(picks[n - 1].next_spec().len() == 0);
        lemma_cards_count_terminal(picks[n - 1], pot, history, m);
        assert(picks_count(picks, pot, history, n) == picks_count(picks, pot, history, (n - 1) as nat)
            + cards_count(picks[n - 1], pot, history, m));
        let k = (n - 1) as nat;
        assert(k * m + m == n * m) by (nonlinear_arith)
            requires
                k + 1 == n,
        ;
        assert(picks_count(picks, pot, history, k) == k * m);
        assert(cards_count(picks[n - 1], pot, history, m) == m);
        assert(picks_count(picks, pot, history, n) == n * m);
    } else {
        assert(picks_count(picks, pot, history, n) == 0);
    }
}

proof fn lemma_cards_count_terminal<C: Choice>(
    pick: Pick<C>,
    pot: u64,
    history: Seq<PlayingCard>,
    n: nat,
)
    requires
        n <= unseen(history).len(),
        pick.next_spec().len() == 0,
    ensures
        cards_count(pick, pot, history, n) == n,
    decreases n,
{
    if n > 0 {
        lemma_cards_count_terminal(pick, pot, history, (n - 1) as nat);
        let card = unseen(history)[n - 1];
        assert(!leads_on(pick, pot, history, card));
        assert(outcome_count(pick, pot, history, card) == 1);
        assert(cards_count(pick, pot, history, n) == cards_count(pick, pot, history, (n - 1) as nat)
            + 1);
    }
}

/// From an empty history every card of the deck can be drawn.
pub proof fn lemma_unseen_empty()
    ensures
        unseen(Seq::empty()) == deck(),
        unseen(Seq::empty()).len() == 52,
{
    lemma_unseen_empty_upto(52);
    lemma_deck_index(0);
    assert(deck().subrange(0, 52) =~= deck());
}

proof fn lemma_unseen_empty_upto(n: nat)
    requires
        n <= 52,
    ensures
        unseen_upto(Seq::empty(), n) == deck().subrange(0, n as int),
    decreases n,
{
    lemma_deck_index(0);
    if n > 0 {
        lemma_unseen_empty_upto((n - 1) as nat);
        assert(unseen_upto(Seq::empty(), n) =~= deck().subrange(0, n as int));
    }
}

/// A choice that keeps the pot whatever card comes and ends the game, as
/// cashing out does, is worth exactly the pot, whatever was seen before, as
/// long as a card is left to draw and the pot is not lost.
pub proof fn lemma_keeping_choice_value<C: Choice>(
    pick: Pick<C>,
    pot: u64,
    history: Seq<PlayingCard>,
)
    requires
        forall|h: Seq<PlayingCard>| #[trigger] pick.score_spec(h) == UNIT,
        pick.next_spec().len() == 0,
        pot >= LOST_BELOW,
        unseen(history).len() > 0,
    ensures
        choice_ev(pick, pot, history) == pot,
{
    let m = unseen(history).len();
    lemma_sum_values_keeping(pick, pot, history, m);
    assert((m * pot) / (m as int) == pot) by (nonlinear_arith)
        requires
            m > 0,
    ;
}

proof fn lemma_sum_values_keeping<C: Choice>(
    pick: Pick<C>,
    pot: u64,
    history: Seq<PlayingCard>,
    n: nat,
)
    requires
        forall|h: Seq<PlayingCard>| #[trigger] pick.score_spec(h) == UNIT,
        pick.next_spec().len() == 0,
        pot >= LOST_BELOW,
        n <= unseen(history).len(),
    ensures
        sum_values(pick, pot, history, n) == n * pot,
    decreases n,
{
    if n > 0 {
        lemma_sum_values_keeping(pick, pot, history, (n - 1) as nat);
        let card = unseen(history)[n - 1];
        let h = seq![card] + history;
        assert(pick.score_spec(h) == UNIT);
        assert(pot as int * UNIT as int / UNIT as int == pot) by (nonlinear_arith);
        assert(new_pot(pot, UNIT) == pot);
        assert(!leads_on(pick, pot, history, card));
        assert(outcome_value(pick, pot, history, card) == pot);
        assert(sum_values(pick, pot, history, n) == sum_values(pick, pot, history, (n - 1) as nat)
            + pot);
        let k = (n - 1) as nat;
        assert(k * pot + pot == n * pot) by (nonlinear_arith)
            requires
                k + 1 == n,
        ;
        assert(sum_values(pick, pot, history, k) == k * pot);
        assert(sum_values(pick, pot, history, n) == n * pot);
    } else {
        assert(sum_values(pick, pot, history, n) == 0);
    }
}

/// From a history of distinct deck cards, `52 - history.len()` cards are
/// left to draw.
pub proof fn lemma_unseen_count(history: Seq<PlayingCard>)
    requires
        history.no_duplicates(),
        forall|i: int| 0 <= i < history.len() ==> (#[trigger] history[i]).wf(),
    ensures
        unseen(history).len() + history.len() == 52,
    decreases history.len(),
{
    if history.len() == 0 {
        lemma_unseen_empty();
        assert(history =~= Seq::<PlayingCard>::empty());
    } else {
        let card = history[0];
        let rest = history.subrange(1, history.len() as int);
        assert(forall|i: int| 0 <= i < rest.len() ==> rest[i] == history[i + 1]);
        lemma_unseen_count(rest);
        assert(!rest.contains(card)) by {
            if rest.contains(card) {
                let k = choose|k: int| 0 <= k < rest.len() && rest[k] == card;
                assert(history[k + 1] == history[0]);
            }
        }
        assert(seq![card] + rest =~= history);
        lemma_unseen_upto(rest, card, 52);
    }
}

/// In a solved tree, a choice that keeps the pot whatever card comes and
/// ends the game, as cashing out does, is worth exactly the pot, as long as
/// a card is left to draw and the pot is not lost.
pub proof fn lemma_keeping_choice_in_tree<C: Choice>(
    t: DiscreteDecisionTree<C>,
    picks: Seq<Pick<C>>,
    pot: u64,
    history: Seq<PlayingCard>,
    i: int,
)
    requires
        t.solves(picks, pot, history),
        0 <= i < picks.len(),
        forall|h: Seq<PlayingCard>| #[trigger] picks[i].score_spec(h) == UNIT,
        picks[i].next_spec().len() == 0,
        pot >= LOST_BELOW,
        unseen(history).len() > 0,
    ensures
        t.choices_view()[i].ev_view() == pot,
        t.evs()[i] == pot,
        forall|j: int|
            0 <= j < t.choices_view()[i].events_view().len() ==> (
            #[trigger] t.choices_view()[i].events_view()[j]).value_view() == pot
                && t.choices_view()[i].events_view()[j].next_view().is_none(),
{
    lemma_keeping_choice_value(picks[i], pot, history);
    let e = t.choices_view()[i];
    assert(e.evaluates(picks[i], pot, history));
    assert forall|j: int| 0 <= j < e.events_view().len() implies (
    #[trigger] e.events_view()[j]).value_view() == pot && e.events_view()[j].next_view().is_none() by {
        let card = unseen(history)[j];
        assert(e.events_view()[j].resolves(picks[i], pot, history, card));
        assert(picks[i].score_spec(seq![card] + history) == UNIT);
        assert(pot as int * UNIT as int / UNIT as int == pot) by (nonlinear_arith);
        assert(new_pot(pot, UNIT) == pot);
    }
}

/// A solved decision whose `k` choices all end the game, with `m` cards
/// left to draw, has `k * m` outcomes, when that fits in a `usize`.
pub proof fn lemma_single_level_tree<C: Choice>(
    t: DiscreteDecisionTree<C>,
    picks: Seq<Pick<C>>,
    pot: u64,
    history: Seq<PlayingCard>,
)
    requires
        t.solves(picks, pot, history),
        forall|i: int| 0 <= i < picks.len() ==> (#[trigger] picks[i]).next_spec().len() == 0,
        picks.len() * unseen(history).len() <= usize::MAX,
    ensures
        t.outcomes_view() == picks.len() * unseen(history).len(),
{
    lemma_single_level_count(picks, pot, history);
}

/// A decision with no choices is solved by a tree with no choices and no
/// outcomes, whose optimal choice is none.
pub proof fn lemma_empty_decision<C: Choice>(
    t: DiscreteDecisionTree<C>,
    pot: u64,
    history: Seq<PlayingCard>,
)
    requires
        t.solves(Seq::empty(), pot, history),
    ensures
        t.choices_view().len() == 0,
        t.outcomes_view() == 0,
{
}

proof fn lemma_unseen_len(history: Seq<PlayingCard>, n: nat)
    ensures
        unseen_upto(history, n).len() <= n,
    decreases n,
{
    if n > 0 {
        lemma_unseen_len(history, (n - 1) as nat);
    }
}

proof fn lemma_unseen_upto(history: Seq<PlayingCard>, card: PlayingCard, n: nat)
    requires
        n <= 52,
    ensures
        unseen_upto(seq![card] + history, n).len() + (if card.id() < n && !history.contains(card) {
            1int
        } else {
            0int
        }) == unseen_upto(history, n).len(),
        forall|x: PlayingCard| #[trigger] unseen_upto(history, n).contains(x) ==> x.wf() && x.id() < n,
    decreases n,
{
    if n > 0 {
        lemma_unseen_upto(history, card, (n - 1) as nat);
        let c = deck()[n - 1];
        lemma_deck_index(n - 1);
        lemma_id_injective(c, card);
        let h = seq![card] + history;
        assert(h.contains(c) <==> c == card || history.contains(c)) by {
            if history.contains(c) {
                let k = choose|k: int| 0 <= k < history.len() && history[k] == c;
                assert(h[k + 1] == c);
            }
            if h.contains(c) && c != card {
                let k = choose|k: int| 0 <= k < h.len() && h[k] == c;
                assert(history[k - 1] == c);
            }
            if c == card {
                assert(h[0] == c);
            }
        }
        let prev = unseen_upto(history, (n - 1) as nat);
        assert forall|x: PlayingCard| #[trigger] unseen_upto(history, n).contains(x) implies x.wf()
            && x.id() < n by {
            if !history.contains(c) && x == c {
            } else {
                assert(prev.contains(x)) by {
                    if !history.contains(c) {
                        let k = choose|k: int| 0 <= k < unseen_upto(history, n).len() && unseen_upto(history, n)[k] == x;
                        assert(prev[k] == x);
                    }
                }
            }
        }
    }
}

/// Drawing an unseen card leaves one card fewer to draw.
pub proof fn lemma_unseen_draw(history: Seq<PlayingCard>, j: int)
    requires
        0 <= j < unseen(history).len(),
    ensures
        unseen(seq![unseen(history)[j]] + history).len() + 1 == unseen(history).len(),
{
    let card = unseen(history)[j];
    lemma_unseen_upto(history, card, 52);
    assert(unseen(history).contains(card));
    assert(!history.contains(card)) by {
        lemma_unseen_not_in_history(history, card, 52);
    }
}

proof fn lemma_unseen_not_in_history(history: Seq<PlayingCard>, card: PlayingCard, n: nat)
    requires
        n <= 52,
        unseen_upto(history, n).contains(card),
    ensures
        !history.contains(card),
    decreases n,
{
    if n > 0 {
        let prev = unseen_upto(history, (n - 1) as nat);
        let c = deck()[n - 1];
        if !history.contains(c) && card == c {
        } else {
            let k = choose|k: int| 0 <= k < unseen_upto(history, n).len() && unseen_upto(history, n)[k] == card;
            assert(prev[k] == card);
            lemma_unseen_not_in_history(history, card, (n - 1) as nat);
        }
    }
}

} // verus!
