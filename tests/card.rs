use bus_solver::{InvalidCardError, PlayingCard};

fn card(label: &str) -> PlayingCard {
    PlayingCard::parse(label).ok().unwrap()
}

#[test]
fn deck_has_52_distinct_cards_in_order() {
    let deck = PlayingCard::deck_iter();
    assert_eq!(deck.len(), 52);
    for i in 0..52 {
        for j in 0..52 {
            assert_eq!(i == j, deck[i] == deck[j]);
        }
    }
    assert_eq!(deck[0].label(), "2H");
    assert_eq!(deck[51].label(), "AC");
}

#[test]
fn projections_of_first_and_last_card() {
    let deck = PlayingCard::deck_iter();
    assert_eq!(deck[0].rank(), 2);
    assert_eq!(deck[0].suit(), 0);
    assert_eq!(deck[0].color(), 0);
    assert_eq!(deck[51].rank(), 14);
    assert_eq!(deck[51].suit(), 3);
    assert_eq!(deck[51].color(), 1);
}

#[test]
fn color_follows_suit() {
    assert_eq!(card("5H").color(), 0);
    assert_eq!(card("5D").color(), 0);
    assert_eq!(card("5S").color(), 1);
    assert_eq!(card("5C").color(), 1);
    assert_eq!(card("5D").suit(), 1);
    assert_eq!(card("5S").suit(), 2);
}

#[test]
fn face_card_ranks() {
    assert_eq!(card("JH").rank(), 11);
    assert_eq!(card("QD").rank(), 12);
    assert_eq!(card("KS").rank(), 13);
    assert_eq!(card("AC").rank(), 14);
    assert_eq!(card("10C").rank(), 10);
}

#[test]
fn labels_of_named_cards() {
    let deck = PlayingCard::deck_iter();
    assert_eq!(deck[35].label(), "10C");
    assert_eq!(deck[41].label(), "QD");
    assert_eq!(deck[50].label(), "AS");
    assert_eq!(deck[1].label(), "2D");
}

#[test]
fn parse_is_case_insensitive() {
    let deck = PlayingCard::deck_iter();
    assert_eq!(card("qd"), deck[41]);
    assert_eq!(card("Qd"), deck[41]);
    assert_eq!(card("10c"), deck[35]);
    assert_eq!(card("as"), deck[50]);
}

#[test]
fn parse_rejects_unknown_text() {
    for text in ["", "1H", "11H", "XX", "2X", "10", "H", "2HH", " 2H", "2h "] {
        assert!(matches!(PlayingCard::parse(text), Err(InvalidCardError)), "{}", text);
    }
}

#[test]
fn label_round_trips_for_every_card() {
    for c in PlayingCard::deck_iter() {
        let label = c.label();
        assert_eq!(card(&label), c);
        assert_eq!(card(&label.to_lowercase()), c);
    }
}

#[test]
fn long_s_upper_cases_to_spades() {
    let deck = PlayingCard::deck_iter();
    assert_eq!(card("2\u{17f}"), deck[2]);
    assert_eq!(card("10\u{17f}"), card("10S"));
    assert!(PlayingCard::parse("\u{17f}2").is_err());
    assert!(PlayingCard::parse("2\u{17f}\u{17f}").is_err());
}

#[test]
fn parse_agrees_with_upper_cased_text() {
    for text in ["2\u{17f}", "qd", "Qd", "10c", "a\u{17f}", "2\u{df}", "jh", "1h", "", "x", "kk"] {
        let upper = text.to_uppercase();
        assert_eq!(PlayingCard::parse(text).ok(), PlayingCard::parse(&upper).ok(), "{}", text);
    }
}

#[test]
fn from_str_parses_like_parse() {
    let deck = PlayingCard::deck_iter();
    assert_eq!("2H".parse::<PlayingCard>().ok(), Some(deck[0]));
    assert_eq!("10c".parse::<PlayingCard>().ok(), Some(deck[35]));
    assert_eq!("qd".parse::<PlayingCard>().ok(), Some(deck[41]));
    assert_eq!("As".parse::<PlayingCard>().ok(), Some(deck[50]));
    for text in ["1H", "11S", "AX", "", " 2H", "2HH"] {
        assert!(text.parse::<PlayingCard>().is_err(), "{}", text);
    }
}

#[test]
fn cards_order_by_deck_index() {
    let deck = PlayingCard::deck_iter();
    assert!(deck[0] < deck[1]);
    assert!(deck[51] > deck[35]);
}
