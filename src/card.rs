use vstd::prelude::*;

verus! {

/// A card of a standard 52-card deck, stored as its index in the deck.
///
/// The two low bits give the suit, the remaining bits give the rank.
#[derive(Debug, Clone, Copy, PartialEq, Eq, Structural, PartialOrd, Ord)]
pub struct PlayingCard(u8);

/// The number of cards in the deck.
pub const DECK_SIZE: usize = 52;

/// The deck, in its canonical order: card `i` has index `i`.
pub closed spec fn deck() -> Seq<PlayingCard> {
    Seq::new(52, |i: int| PlayingCard(i as u8))
}

impl PlayingCard {
    /// The card's position in the canonical deck order.
    pub closed spec fn id(self) -> nat {
        self.0 as nat
    }

    /// The card is a member of the deck.
    pub open spec fn wf(self) -> bool {
        self.id() < 52
    }

    /// * hearts == 0
    /// * diamonds == 1
    /// * spades == 2
    /// * clubs == 3
    pub open spec fn suit_spec(self) -> nat {
        self.id() % 4
    }

    /// * red == 0
    /// * black == 1
    pub open spec fn color_spec(self) -> nat {
        self.suit_spec() / 2
    }

    /// 2 to 14, where 11 is a jack, 12 a queen, 13 a king and 14 an ace.
    pub open spec fn rank_spec(self) -> nat {
        self.id() / 4 + 2
    }

    pub fn suit(self) -> (r: u8)
        ensures
            r == self.suit_spec(),
    {
        let x = self.0;
        assert(x & 3 == x % 4) by (bit_vector);
        x & 3
    }

    pub fn color(self) -> (r: u8)
        ensures
            r == self.color_spec(),
    {
        let x = self.0;
        assert((x & 2) >> 1 == (x % 4) / 2) by (bit_vector);
        (x & 2) >> 1
    }

    pub fn rank(self) -> (r: u8)
        ensures
            r == self.rank_spec(),
    {
        let x = self.0;
        assert(x >> 2 == x / 4) by (bit_vector);
        (x >> 2) + 2
    }

    /// The label of this card's rank.
    fn rank_text(self) -> (r: &'static str)
        ensures
            r@ == rank_label(self.rank_spec()),
    {
        let rank = self.rank();
        proof {
            reveal_strlit("2");
            reveal_strlit("3");
            reveal_strlit("4");
            reveal_strlit("5");
            reveal_strlit("6");
            reveal_strlit("7");
            reveal_strlit("8");
            reveal_strlit("9");
            reveal_strlit("10");
            reveal_strlit("J");
            reveal_strlit("Q");
            reveal_strlit("K");
            reveal_strlit("A");
        }
        let r = if rank == 2 {
            "2"
        } else if rank == 3 {
            "3"
        } else if rank == 4 {
            "4"
        } else if rank == 5 {
            "5"
        } else if rank == 6 {
            "6"
        } else if rank == 7 {
            "7"
        } else if rank == 8 {
            "8"
        } else if rank == 9 {
            "9"
        } else if rank == 10 {
            "10"
        } else if rank == 11 {
            "J"
        } else if rank == 12 {
            "Q"
        } else if rank == 13 {
            "K"
        } else if rank == 14 {
            "A"
        } else {
            ""
        };
        proof {
            reveal_strlit("");
            assert(r@ =~= rank_label(self.rank_spec()));
        }
        r
    }

    /// The letter of this card's suit.
    fn suit_text(self) -> (r: &'static str)
        ensures
            r@ == seq![suit_label(self.suit_spec())],
    {
        let suit = self.suit();
        proof {
            reveal_strlit("H");
            reveal_strlit("D");
            reveal_strlit("S");
            reveal_strlit("C");
        }
        let r = if suit == 0 {
            "H"
        } else if suit == 1 {
            "D"
        } else if suit == 2 {
            "S"
        } else {
            "C"
        };
        assert(r@ =~= seq![suit_label(self.suit_spec())]);
        r
    }

    /// The canonical label of the card, such as `10C` or `QD`.
    pub fn label(self) -> (r: String)
        ensures
            r@ == label_spec(self),
    {
        let mut r = String::from_str(self.rank_text());
        r.append(self.suit_text());
        assert(r@ =~= label_spec(self));
        r
    }

    /// The deck card whose label the text spells once upper-cased, so
    /// ignoring case.
    pub fn parse(text: &str) -> (r: Result<PlayingCard, InvalidCardError>)
        ensures
            match r {
                Ok(c) => c.wf() && text_matches(text@, label_spec(c)),
                Err(_) => forall|c: PlayingCard| c.wf() ==> !text_matches(text@, label_spec(c)),
            },
    {
        let n = text.unicode_len();
        let cards = PlayingCard::deck_iter();
        let mut k: usize = 0;
        while k < cards.len()
            invariant
                cards@ == deck(),
                n == text@.len(),
                k <= cards@.len(),
                forall|j: int| 0 <= j < k ==> !text_matches(text@, label_spec(#[trigger] cards@[j])),
            decreases cards@.len() - k,
        {
            let card = cards[k];
            let l = card.label();
            let ls = l.as_str();
            let m = ls.unicode_len();
            if m == n {
                let mut i: usize = 0;
                let mut same = true;
                while i < n
                    invariant
                        n == text@.len(),
                        m == ls@.len(),
                        m == n,
                        i <= n,
                        same == forall|j: int| 0 <= j < i ==> char_matches(#[trigger] text@[j], ls@[j]),
                    decreases n - i,
                {
                    let t = text.get_char(i);
                    let c = ls.get_char(i);
                    if !(t == c || t == lower_char(c) || (c == 'S' && t == LONG_S)) {
                        same = false;
                    }
                    i = i + 1;
                }
                if same {
                    proof {
                        lemma_deck_index(k as int);
                    }
                    return Ok(card);
                }
            }
            k = k + 1;
        }
        proof {
            assert forall|c: PlayingCard| c.wf() implies !text_matches(text@, label_spec(c)) by {
                lemma_deck_index(c.id() as int);
                lemma_id_injective(c, deck()[c.id() as int]);
            }
        }
        Err(InvalidCardError)
    }

    /// Every card of the deck, in canonical order.
    pub fn deck_iter() -> (r: Vec<PlayingCard>)
        ensures
            r@ == deck(),
    {
        let mut r: Vec<PlayingCard> = Vec::new();
        let mut i: u8 = 0;
        while i < 52
            invariant
                i <= 52,
                r@ == deck().subrange(0, i as int),
            decreases 52 - i,
        {
            r.push(PlayingCard(i));
            i = i + 1;
            assert(r@ =~= deck().subrange(0, i as int));
        }
        assert(r@ =~= deck());
        r
    }
}

/// The deck holds 52 cards, card `i` having index `i`.
pub broadcast proof fn lemma_deck_index(i: int)
    requires
        0 <= i < 52,
    ensures
        deck().len() == 52,
        #[trigger] deck()[i].id() == i,
{
}

/// Two cards are equal exactly when their indices are.
pub broadcast proof fn lemma_id_injective(a: PlayingCard, b: PlayingCard)
    ensures
        #[trigger] a.id() == #[trigger] b.id() <==> a == b,
{
}

/// The label of a rank: its number, or the initial of a face card or ace.
pub open spec fn rank_label(rank: nat) -> Seq<char> {
    if rank == 10 {
        seq!['1', '0']
    } else if rank == 11 {
        seq!['J']
    } else if rank == 12 {
        seq!['Q']
    } else if rank == 13 {
        seq!['K']
    } else if rank == 14 {
        seq!['A']
    } else if 2 <= rank <= 9 {
        seq![digit(rank)]
    } else {
        seq![]
    }
}

/// The character of a decimal digit.
pub open spec fn digit(d: nat) -> char {
    if d == 2 {
        '2'
    } else if d == 3 {
        '3'
    } else if d == 4 {
        '4'
    } else if d == 5 {
        '5'
    } else if d == 6 {
        '6'
    } else if d == 7 {
        '7'
    } else if d == 8 {
        '8'
    } else {
        '9'
    }
}

/// The letter of a suit: hearts, diamonds, spades, clubs.
pub open spec fn suit_label(suit: nat) -> char {
    if suit == 0 {
        'H'
    } else if suit == 1 {
        'D'
    } else if suit == 2 {
        'S'
    } else {
        'C'
    }
}

/// The canonical label of a card: its rank's label followed by its suit's letter.
pub open spec fn label_spec(c: PlayingCard) -> Seq<char> {
    rank_label(c.rank_spec()).push(suit_label(c.suit_spec()))
}

/// The lower-case form of a letter that appears in labels.
pub open spec fn lower_letter(c: char) -> char {
    if c == 'J' {
        'j'
    } else if c == 'Q' {
        'q'
    } else if c == 'K' {
        'k'
    } else if c == 'A' {
        'a'
    } else if c == 'H' {
        'h'
    } else if c == 'D' {
        'd'
    } else if c == 'S' {
        's'
    } else if c == 'C' {
        'c'
    } else {
        c
    }
}

/// The long s, whose upper case is `S`.
pub const LONG_S: char = '\u{17f}';

/// A typed character matches a label character once upper-cased: it is the
/// character itself, the lower case of a letter, or the long s for `S`.
/// These are all the characters whose upper case is a label character.
pub open spec fn char_matches(typed: char, l: char) -> bool {
    typed == l || typed == lower_letter(l) || (l == 'S' && typed == LONG_S)
}

/// A text spells a label once upper-cased.
pub open spec fn text_matches(text: Seq<char>, l: Seq<char>) -> bool {
    &&& text.len() == l.len()
    &&& forall|i: int| 0 <= i < l.len() ==> char_matches(#[trigger] text[i], l[i])
}

/// Every character of a label is a digit or an upper-case letter.
pub open spec fn label_char(l: char) -> bool {
    l == '0' || l == '1' || l == '2' || l == '3' || l == '4' || l == '5' || l == '6' || l == '7'
        || l == '8' || l == '9' || l == 'J' || l == 'Q' || l == 'K' || l == 'A' || l == 'H'
        || l == 'D' || l == 'S' || l == 'C'
}

proof fn lemma_label_chars(c: PlayingCard)
    requires
        c.wf(),
    ensures
        2 <= label_spec(c).len() <= 3,
        forall|i: int| 0 <= i < label_spec(c).len() ==> label_char(#[trigger] label_spec(c)[i]),
{
}

proof fn lemma_rank_label_injective(a: nat, b: nat)
    requires
        2 <= a <= 14,
        2 <= b <= 14,
        rank_label(a) == rank_label(b),
    ensures
        a == b,
{
    let la = rank_label(a);
    let lb = rank_label(b);
    assert(la.len() == lb.len());
    assert(la[0] == lb[0]);
    if a != 10 && b != 10 {
        assert(la.len() == 1);
    }
}

/// Two deck cards with the same label are the same card.
proof fn lemma_label_injective(c: PlayingCard, d: PlayingCard)
    requires
        c.wf(),
        d.wf(),
        label_spec(c) == label_spec(d),
    ensures
        c == d,
{
    let lc = label_spec(c);
    let ld = label_spec(d);
    assert(lc.last() == ld.last());
    assert(c.suit_spec() == d.suit_spec());
    assert(lc.drop_last() =~= rank_label(c.rank_spec()));
    assert(ld.drop_last() =~= rank_label(d.rank_spec()));
    lemma_rank_label_injective(c.rank_spec(), d.rank_spec());
    assert(c.id() == d.id());
    lemma_id_injective(c, d);
}

/// Formatting a deck card and parsing the label back gives the card again,
/// and so does any text whose upper case is the label: the label matches
/// itself, and a text that matches the labels of two deck cards matches the
/// label of one card only.
pub proof fn lemma_label_round_trip(c: PlayingCard, d: PlayingCard, text: Seq<char>)
    requires
        c.wf(),
        d.wf(),
    ensures
        text_matches(label_spec(c), label_spec(c)),
        text_matches(text, label_spec(c)) && text_matches(text, label_spec(d)) ==> c == d,
{
    if text_matches(text, label_spec(c)) && text_matches(text, label_spec(d)) {
        lemma_label_chars(c);
        lemma_label_chars(d);
        assert forall|i: int| 0 <= i < label_spec(c).len() implies label_spec(c)[i]
            == label_spec(d)[i] by {
            assert(char_matches(text[i], label_spec(c)[i]));
            assert(char_matches(text[i], label_spec(d)[i]));
            assert(label_char(label_spec(c)[i]));
            assert(label_char(label_spec(d)[i]));
        }
        assert(label_spec(c) =~= label_spec(d));
        lemma_label_injective(c, d);
    }
}

/// The lower-case form of a letter that appears in labels.
fn lower_char(c: char) -> (r: char)
    ensures
        r == lower_letter(c),
{
    if c == 'J' {
        'j'
    } else if c == 'Q' {
        'q'
    } else if c == 'K' {
        'k'
    } else if c == 'A' {
        'a'
    } else if c == 'H' {
        'h'
    } else if c == 'D' {
        'd'
    } else if c == 'S' {
        's'
    } else if c == 'C' {
        'c'
    } else {
        c
    }
}

/// The error of parsing a text that names no card.
#[derive(Debug, Clone, Copy, PartialEq, Eq, Structural)]
pub struct InvalidCardError;

impl std::str::FromStr for PlayingCard {
    type Err = InvalidCardError;

    fn from_str(s: &str) -> (r: Result<PlayingCard, InvalidCardError>)
        ensures
            match r {
                Ok(c) => c.wf() && text_matches(s@, label_spec(c)),
                Err(_) => forall|c: PlayingCard| c.wf() ==> !text_matches(s@, label_spec(c)),
            },
    {
        PlayingCard::parse(s)
    }
}

} // verus!
