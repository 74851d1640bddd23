use bus_solver::{
    Choice, DiscreteDecision, DiscreteDecisionTree, Pick, PickColor, PickContained, PickLatitude,
    PickSuit, PlayingCard, RideTheBus, UNIT,
};

fn card(label: &str) -> PlayingCard {
    PlayingCard::parse(label).ok().unwrap()
}

fn suits() -> DiscreteDecision<RideTheBus> {
    DiscreteDecision::new_with_cashout(vec![
        RideTheBus::Suit(PickSuit::Hearts),
        RideTheBus::Suit(PickSuit::Diamonds),
        RideTheBus::Suit(PickSuit::Spades),
        RideTheBus::Suit(PickSuit::Clubs),
    ])
}

fn colors() -> DiscreteDecision<RideTheBus> {
    DiscreteDecision::new_with_cashout(vec![
        RideTheBus::Color(PickColor::Red),
        RideTheBus::Color(PickColor::Black),
    ])
}

fn latitudes() -> DiscreteDecision<RideTheBus> {
    DiscreteDecision::new_with_cashout(vec![
        RideTheBus::Latitude(PickLatitude::Higher),
        RideTheBus::Latitude(PickLatitude::Lower),
    ])
}

/// Every card of rank 4 and up: the eight twos and threes are left to draw.
fn high_history() -> Vec<PlayingCard> {
    PlayingCard::deck_iter()[8..].to_vec()
}

#[test]
fn scores_of_each_stage() {
    let red = RideTheBus::Color(PickColor::Red);
    let black = RideTheBus::Color(PickColor::Black);
    assert_eq!(red.score(&[card("2H")]), 2 * UNIT);
    assert_eq!(red.score(&[card("2S")]), 0);
    assert_eq!(black.score(&[card("2S")]), 2 * UNIT);
    assert_eq!(red.score(&[]), 0);
    let higher = RideTheBus::Latitude(PickLatitude::Higher);
    let lower = RideTheBus::Latitude(PickLatitude::Lower);
    assert_eq!(higher.score(&[card("5H"), card("5S")]), UNIT * 3 / 2);
    assert_eq!(lower.score(&[card("5H"), card("5S")]), 0);
    assert_eq!(lower.score(&[card("4H"), card("5S")]), UNIT * 3 / 2);
    assert_eq!(higher.score(&[card("4H")]), 0);
    let inside = RideTheBus::Contained(PickContained::Inside);
    let outside = RideTheBus::Contained(PickContained::Outside);
    assert_eq!(inside.score(&[card("7H"), card("9S"), card("2C")]), UNIT * 4 / 3);
    assert_eq!(inside.score(&[card("9H"), card("9S"), card("2C")]), UNIT * 4 / 3);
    assert_eq!(outside.score(&[card("10H"), card("9S"), card("2C")]), UNIT * 4 / 3);
    assert_eq!(outside.score(&[card("7H"), card("9S"), card("2C")]), 0);
    let clubs = RideTheBus::Suit(PickSuit::Clubs);
    assert_eq!(clubs.score(&[card("KC")]), UNIT * 5 / 2);
    assert_eq!(clubs.score(&[card("KD")]), 0);
}

#[test]
fn next_decisions_follow_the_stages() {
    let red = RideTheBus::Color(PickColor::Red);
    let next = red.next_decision().into_choices();
    assert_eq!(next.len(), 3);
    assert!(matches!(next[0], Pick::Rule(RideTheBus::Latitude(PickLatitude::Higher))));
    assert!(matches!(next[2], Pick::Cashout));
    let last = RideTheBus::Suit(PickSuit::Hearts).next_decision();
    assert_eq!(last.len(), 0);
    assert_eq!(bus_solver::game::first_decision().len(), 3);
}

#[test]
fn single_level_suit_guess_values() {
    let tree = DiscreteDecisionTree::solve(suits());
    let choices = tree.iter();
    assert_eq!(choices.len(), 5);
    for e in &choices[..4] {
        // 13 winning cards of 52, each worth 2.5
        assert_eq!(e.expected_value, UNIT * 5 / 8);
    }
    assert_eq!(choices[4].expected_value, UNIT);
    assert!(matches!(tree.optimal().unwrap().choice, Pick::Cashout));
    assert_eq!(tree.outcome_count(), 5 * 52);
}

#[test]
fn suit_guess_after_one_card_seen() {
    let history = vec![card("2H")];
    let tree = DiscreteDecisionTree::compute(suits(), UNIT, &history);
    let choices = tree.iter();
    // 12 hearts left of 51 cards
    assert_eq!(choices[0].expected_value, UNIT / 51 * 30);
    // 13 diamonds left of 51 cards
    assert_eq!(choices[1].expected_value, UNIT / 102 * 65);
    assert_eq!(choices[0].iter().len(), 51);
    assert!(choices[0].get(card("2H")).is_none());
    assert_eq!(tree.outcome_count(), 5 * 51);
}

#[test]
fn outcome_values_of_a_suit_guess() {
    let tree = DiscreteDecisionTree::solve(suits());
    let hearts = &tree.iter()[0];
    let win = hearts.get(card("QH")).unwrap();
    assert_eq!(win.value, UNIT * 5 / 2);
    assert!(win.next_decision().is_none());
    assert_eq!(win.count(), 1);
    let loss = hearts.get(card("QS")).unwrap();
    assert_eq!(loss.value, 0);
    assert!(loss.next_decision().is_none());
    assert_eq!(loss.event, card("QS"));
}

#[test]
fn empty_decision_has_no_optimal_choice() {
    let tree = DiscreteDecisionTree::<RideTheBus>::solve(DiscreteDecision::empty());
    assert!(tree.optimal().is_none());
    assert_eq!(tree.outcome_count(), 0);
    assert_eq!(tree.iter().len(), 0);
}

#[test]
fn solving_twice_gives_identical_results() {
    let history = high_history();
    let a = DiscreteDecisionTree::compute(colors(), UNIT, &history);
    let b = DiscreteDecisionTree::compute(colors(), UNIT, &history);
    assert_eq!(a.outcome_count(), b.outcome_count());
    for (x, y) in a.iter().iter().zip(b.iter().iter()) {
        assert_eq!(x.expected_value, y.expected_value);
    }
}

#[test]
fn red_and_black_are_symmetric() {
    let tree = DiscreteDecisionTree::compute(colors(), UNIT, &high_history());
    let choices = tree.iter();
    assert_eq!(choices.len(), 3);
    assert_eq!(choices[0].expected_value, choices[1].expected_value);
    assert_eq!(choices[2].expected_value, UNIT);
    assert!(choices[0].expected_value > 0);
}

#[test]
fn red_outcomes_per_card() {
    let tree = DiscreteDecisionTree::compute(colors(), UNIT, &high_history());
    let red = &tree.iter()[0];
    assert_eq!(red.iter().len(), 8);
    for o in red.iter() {
        if o.event.color() == 0 {
            let child = o.next_decision().unwrap();
            assert_eq!(o.value, child.optimal().unwrap().expected_value);
            // cashing out right after the win keeps the doubled pot
            assert_eq!(child.iter()[2].expected_value, 2 * UNIT);
            assert!(o.value >= 2 * UNIT);
            assert_eq!(o.count(), child.outcome_count());
            let mut seen = vec![o.event];
            seen.extend(high_history());
            let from_one = DiscreteDecisionTree::compute(latitudes(), UNIT, &seen);
            assert_eq!(o.value, 2 * from_one.optimal().unwrap().expected_value);
        } else {
            assert_eq!(o.value, 0);
            assert!(o.next_decision().is_none());
            assert_eq!(o.count(), 1);
        }
    }
}

#[test]
fn outcome_count_sums_over_choices_and_cards() {
    let tree = DiscreteDecisionTree::compute(colors(), UNIT, &high_history());
    let mut total = 0;
    for e in tree.iter() {
        for o in e.iter() {
            total += o.count();
        }
    }
    assert_eq!(tree.outcome_count(), total);
}

#[test]
fn cashout_is_worth_the_pot() {
    let only_cashout = || DiscreteDecision::<RideTheBus>::new_with_cashout(vec![]);
    let tree = DiscreteDecisionTree::solve(only_cashout());
    assert_eq!(tree.optimal().unwrap().expected_value, UNIT);
    let tree = DiscreteDecisionTree::compute(only_cashout(), UNIT, &high_history());
    assert_eq!(tree.optimal().unwrap().expected_value, UNIT);
    let tree = DiscreteDecisionTree::compute(only_cashout(), 32_487, &vec![]);
    assert_eq!(tree.iter()[0].expected_value, 32_487);
}

#[test]
fn pot_below_threshold_is_lost() {
    let tree = DiscreteDecisionTree::compute(
        DiscreteDecision::<RideTheBus>::new_with_cashout(vec![]),
        32_486,
        &vec![],
    );
    let cashout = &tree.iter()[0];
    assert_eq!(cashout.expected_value, 0);
    for o in cashout.iter() {
        assert_eq!(o.value, 0);
    }
    assert_eq!(tree.outcome_count(), 52);
}

#[test]
fn exhausted_deck_gives_zero() {
    let tree = DiscreteDecisionTree::compute(suits(), UNIT, &PlayingCard::deck_iter());
    assert_eq!(tree.outcome_count(), 0);
    for e in tree.iter() {
        assert_eq!(e.expected_value, 0);
        assert_eq!(e.iter().len(), 0);
    }
}

#[test]
fn huge_pot_is_capped() {
    let tree = DiscreteDecisionTree::compute(
        DiscreteDecision::new(vec![RideTheBus::Suit(PickSuit::Hearts)]),
        u64::MAX,
        &vec![],
    );
    let hearts = &tree.iter()[0];
    assert_eq!(hearts.get(card("2H")).unwrap().value, u64::MAX);
    assert_eq!(hearts.expected_value, u64::MAX / 4);
}

#[test]
fn first_tie_is_optimal() {
    let tree = DiscreteDecisionTree::solve(suits());
    // the four suit guesses tie below cashing out; without cashing out the first wins
    let no_cashout = DiscreteDecision::new(vec![
        RideTheBus::Suit(PickSuit::Spades),
        RideTheBus::Suit(PickSuit::Hearts),
    ]);
    let t2 = DiscreteDecisionTree::solve(no_cashout);
    assert!(matches!(
        t2.optimal().unwrap().choice,
        Pick::Rule(RideTheBus::Suit(PickSuit::Spades))
    ));
    assert_eq!(tree.iter().len(), 5);
}

#[test]
fn drawn_card_tells_the_choice_taken() {
    let tree = DiscreteDecisionTree::solve(suits());
    let taken = tree.chosen_by(card("7D")).unwrap();
    assert!(matches!(taken.choice, Pick::Rule(RideTheBus::Suit(PickSuit::Diamonds))));
    assert_eq!(taken.value_of(card("7D")), UNIT * 5 / 2);
    assert_eq!(taken.value_of(card("7S")), 0);
    // a club pays most under the clubs guess
    let taken = tree.chosen_by(card("7C")).unwrap();
    assert!(matches!(taken.choice, Pick::Rule(RideTheBus::Suit(PickSuit::Clubs))));
    let empty = DiscreteDecisionTree::<RideTheBus>::solve(DiscreteDecision::empty());
    assert!(empty.chosen_by(card("7C")).is_none());
}

#[test]
fn chosen_by_prefers_the_last_tie() {
    let history = vec![card("2H")];
    let tree = DiscreteDecisionTree::compute(
        DiscreteDecision::new_with_cashout(vec![RideTheBus::Suit(PickSuit::Hearts)]),
        UNIT,
        &history,
    );
    // 2H was seen: neither outcome exists, both count 0, the last one wins
    assert!(matches!(tree.chosen_by(card("2H")).unwrap().choice, Pick::Cashout));
    assert_eq!(tree.iter()[0].value_of(card("2H")), 0);
    // a spade loses the hearts guess but keeps the pot when cashing out
    assert!(matches!(tree.chosen_by(card("3S")).unwrap().choice, Pick::Cashout));
    assert!(matches!(
        tree.chosen_by(card("3H")).unwrap().choice,
        Pick::Rule(RideTheBus::Suit(PickSuit::Hearts))
    ));
}

#[test]
fn stage_pots_are_exact() {
    // last card 9S, the one before 2C; the pot stands at 3 after two wins
    let history = vec![card("9S"), card("2C")];
    let tree = DiscreteDecisionTree::compute(
        DiscreteDecision::new_with_cashout(vec![RideTheBus::Contained(PickContained::Inside)]),
        3 * UNIT,
        &history,
    );
    let inside = &tree.iter()[0];
    let win = inside.get(card("5H")).unwrap();
    let suits = win.next_decision().unwrap();
    assert_eq!(suits.iter()[4].expected_value, 4 * UNIT);
    let hearts = &suits.iter()[0];
    assert_eq!(hearts.get(card("KH")).unwrap().value, 10 * UNIT);
    let loss = inside.get(card("KH")).unwrap();
    assert_eq!(loss.value, 0);
    assert!(loss.next_decision().is_none());
}

#[test]
fn getters_agree_with_fields() {
    let tree = DiscreteDecisionTree::solve(suits());
    for e in tree.iter() {
        assert_eq!(e.expected_value(), e.expected_value);
        assert_eq!(e.iter().len(), 52);
        for o in e.iter() {
            assert_eq!(o.event(), o.event);
            assert_eq!(o.value(), o.value);
            assert_eq!(e.value_of(o.event()), o.value());
        }
    }
    assert!(matches!(tree.iter()[4].choice(), Pick::Cashout));
}

#[test]
fn red_card_value_is_twice_the_next_value() {
    // after a red first card from the full deck, the rest of the game from a
    // pot of 2.0 is worth exactly twice the same game from a pot of 1.0
    let seen = vec![card("2H")];
    let doubled = DiscreteDecisionTree::compute(latitudes(), 2 * UNIT, &seen);
    let single = DiscreteDecisionTree::compute(latitudes(), UNIT, &seen);
    let best_doubled = doubled.optimal().unwrap().expected_value;
    let best_single = single.optimal().unwrap().expected_value;
    assert_eq!(best_doubled, 2 * best_single);
    assert!(best_single > UNIT);
}
