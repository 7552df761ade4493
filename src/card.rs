use vstd::prelude::*;

verus! {

/// Number of cards in a full deck.
pub const NUMBER_OF_CARDS: usize = 52;

/// Card rank, Two lowest and Ace highest.
#[derive(PartialEq, Eq, Structural, PartialOrd, Ord, Hash, Clone, Copy, Debug)]
pub enum CardRank {
    Two,
    Three,
    Four,
    Five,
    Six,
    Seven,
    Eight,
    Nine,
    Ten,
    Jack,
    Queen,
    King,
    Ace,
}

/// Card suit.
#[derive(PartialEq, Eq, Structural, Hash, Clone, Copy, Debug)]
pub enum CardSuit {
    Spades,
    Clubs,
    Diamonds,
    Hearts,
}

/// A playing card.
#[derive(PartialEq, Eq, Structural, Hash, Clone, Copy, Debug)]
pub struct Card {
    pub rank: CardRank,
    pub suit: CardSuit,
}

impl CardRank {
    /// Position of the rank in the ascending order, Two = 0 .. Ace = 12.
    pub open spec fn pos(self) -> int {
        match self {
            CardRank::Two => 0,
            CardRank::Three => 1,
            CardRank::Four => 2,
            CardRank::Five => 3,
            CardRank::Six => 4,
            CardRank::Seven => 5,
            CardRank::Eight => 6,
            CardRank::Nine => 7,
            CardRank::Ten => 8,
            CardRank::Jack => 9,
            CardRank::Queen => 10,
            CardRank::King => 11,
            CardRank::Ace => 12,
        }
    }

    pub fn position(&self) -> (r: usize)
        ensures
            r == self.pos(),
    {
        match self {
            CardRank::Two => 0,
            CardRank::Three => 1,
            CardRank::Four => 2,
            CardRank::Five => 3,
            CardRank::Six => 4,
            CardRank::Seven => 5,
            CardRank::Eight => 6,
            CardRank::Nine => 7,
            CardRank::Ten => 8,
            CardRank::Jack => 9,
            CardRank::Queen => 10,
            CardRank::King => 11,
            CardRank::Ace => 12,
        }
    }

    /// The rank at position `i` (0 = Two .. 12 = Ace).
    pub open spec fn at_spec(i: int) -> CardRank {
        if i <= 0 {
            CardRank::Two
        } else if i == 1 {
            CardRank::Three
        } else if i == 2 {
            CardRank::Four
        } else if i == 3 {
            CardRank::Five
        } else if i == 4 {
            CardRank::Six
        } else if i == 5 {
            CardRank::Seven
        } else if i == 6 {
            CardRank::Eight
        } else if i == 7 {
            CardRank::Nine
        } else if i == 8 {
            CardRank::Ten
        } else if i == 9 {
            CardRank::Jack
        } else if i == 10 {
            CardRank::Queen
        } else if i == 11 {
            CardRank::King
        } else {
            CardRank::Ace
        }
    }

    pub fn at(i: usize) -> (r: CardRank)
        requires
            i < 13,
        ensures
            r == CardRank::at_spec(i as int),
            r.pos() == i,
    {
        if i == 0 {
            CardRank::Two
        } else if i == 1 {
            CardRank::Three
        } else if i == 2 {
            CardRank::Four
        } else if i == 3 {
            CardRank::Five
        } else if i == 4 {
            CardRank::Six
        } else if i == 5 {
            CardRank::Seven
        } else if i == 6 {
            CardRank::Eight
        } else if i == 7 {
            CardRank::Nine
        } else if i == 8 {
            CardRank::Ten
        } else if i == 9 {
            CardRank::Jack
        } else if i == 10 {
            CardRank::Queen
        } else if i == 11 {
            CardRank::King
        } else {
            CardRank::Ace
        }
    }
}

/// Positions and ranks correspond one to one.
pub proof fn lemma_rank_pos(r: CardRank)
    ensures
        0 <= r.pos() < 13,
        CardRank::at_spec(r.pos()) == r,
{
}

/// Positions and ranks correspond one to one.
pub proof fn lemma_pos_rank(i: int)
    requires
        0 <= i < 13,
    ensures
        CardRank::at_spec(i).pos() == i,
{
}

/// Cards are compared by rank alone; the suit never breaks a tie.
impl PartialOrd for Card {
    fn partial_cmp(&self, other: &Card) -> (r: Option<std::cmp::Ordering>) {
        let a = self.rank.position();
        let b = other.rank.position();
        if a < b {
            Some(std::cmp::Ordering::Less)
        } else if a > b {
            Some(std::cmp::Ordering::Greater)
        } else {
            Some(std::cmp::Ordering::Equal)
        }
    }
}

impl vstd::std_specs::cmp::PartialOrdSpecImpl for Card {
    open spec fn obeys_partial_cmp_spec() -> bool {
        true
    }

    open spec fn partial_cmp_spec(&self, other: &Card) -> Option<std::cmp::Ordering> {
        if self.rank.pos() < other.rank.pos() {
            Some(std::cmp::Ordering::Less)
        } else if self.rank.pos() > other.rank.pos() {
            Some(std::cmp::Ordering::Greater)
        } else {
            Some(std::cmp::Ordering::Equal)
        }
    }
}

impl CardSuit {
    /// Position of the suit in the order Spades, Clubs, Diamonds, Hearts.
    pub open spec fn pos(self) -> int {
        match self {
            CardSuit::Spades => 0,
            CardSuit::Clubs => 1,
            CardSuit::Diamonds => 2,
            CardSuit::Hearts => 3,
        }
    }
}

/// The wire symbol of a rank: "2" .. "10", "J", "Q", "K", "A".
pub open spec fn rank_symbol(r: CardRank) -> Seq<char> {
    match r {
        CardRank::Two => seq!['2'],
        CardRank::Three => seq!['3'],
        CardRank::Four => seq!['4'],
        CardRank::Five => seq!['5'],
        CardRank::Six => seq!['6'],
        CardRank::Seven => seq!['7'],
        CardRank::Eight => seq!['8'],
        CardRank::Nine => seq!['9'],
        CardRank::Ten => seq!['1', '0'],
        CardRank::Jack => seq!['J'],
        CardRank::Queen => seq!['Q'],
        CardRank::King => seq!['K'],
        CardRank::Ace => seq!['A'],
    }
}

/// The wire symbol of a suit.
pub open spec fn suit_symbol(s: CardSuit) -> Seq<char> {
    match s {
        CardSuit::Spades => seq!['♠'],
        CardSuit::Clubs => seq!['♣'],
        CardSuit::Diamonds => seq!['♦'],
        CardSuit::Hearts => seq!['♥'],
    }
}

/// The rank whose wire symbol is `s`, if any.
pub open spec fn rank_of_symbol(s: Seq<char>) -> Option<CardRank> {
    if exists|r: CardRank| rank_symbol(r) == s {
        Some(choose|r: CardRank| rank_symbol(r) == s)
    } else {
        None
    }
}

/// The suit whose wire symbol is `s`, if any.
pub open spec fn suit_of_symbol(s: Seq<char>) -> Option<CardSuit> {
    if exists|x: CardSuit| suit_symbol(x) == s {
        Some(choose|x: CardSuit| suit_symbol(x) == s)
    } else {
        None
    }
}

/// The first three characters of `s`, as far as it has them.
fn first_chars(s: &str) -> (r: (Option<char>, Option<char>, Option<char>))
    ensures
        r.0 == (if s@.len() > 0 { Some(s@[0]) } else { None }),
        r.1 == (if s@.len() > 1 { Some(s@[1]) } else { None }),
        r.2 == (if s@.len() > 2 { Some(s@[2]) } else { None }),
{
    broadcast use vstd::string::group_string_axioms;

    let mut it = s.chars();
    let a = it.next();
    let b = it.next();
    let c = it.next();
    (a, b, c)
}

impl CardRank {
    /// The wire symbol of the rank.
    pub fn symbol(&self) -> (r: &'static str)
        ensures
            r@ == rank_symbol(*self),
    {
        match self {
            CardRank::Two => {
                proof {
                    reveal_strlit("2");
                }
                "2"
            },
            CardRank::Three => {
                proof {
                    reveal_strlit("3");
                }
                "3"
            },
            CardRank::Four => {
                proof {
                    reveal_strlit("4");
                }
                "4"
            },
            CardRank::Five => {
                proof {
                    reveal_strlit("5");
                }
                "5"
            },
            CardRank::Six => {
                proof {
                    reveal_strlit("6");
                }
                "6"
            },
            CardRank::Seven => {
                proof {
                    reveal_strlit("7");
                }
                "7"
            },
            CardRank::Eight => {
                proof {
                    reveal_strlit("8");
                }
                "8"
            },
            CardRank::Nine => {
                proof {
                    reveal_strlit("9");
                }
                "9"
            },
            CardRank::Ten => {
                proof {
                    reveal_strlit("10");
                }
                "10"
            },
            CardRank::Jack => {
                proof {
                    reveal_strlit("J");
                }
                "J"
            },
            CardRank::Queen => {
                proof {
                    reveal_strlit("Q");
                }
                "Q"
            },
            CardRank::King => {
                proof {
                    reveal_strlit("K");
                }
                "K"
            },
            CardRank::Ace => {
                proof {
                    reveal_strlit("A");
                }
                "A"
            },
        }
    }

    /// The rank written `s` on the wire, if any.
    pub fn from_symbol(s: &str) -> (r: Option<CardRank>)
        ensures
            r == rank_of_symbol(s@),
    {
        let (a, b, c) = first_chars(s);
        let r = match (a, b, c) {
            (Some('1'), Some('0'), None) => Some(CardRank::Ten),
            (Some(x), None, None) => match x {
                '2' => Some(CardRank::Two),
                '3' => Some(CardRank::Three),
                '4' => Some(CardRank::Four),
                '5' => Some(CardRank::Five),
                '6' => Some(CardRank::Six),
                '7' => Some(CardRank::Seven),
                '8' => Some(CardRank::Eight),
                '9' => Some(CardRank::Nine),
                'J' => Some(CardRank::Jack),
                'Q' => Some(CardRank::Queen),
                'K' => Some(CardRank::King),
                'A' => Some(CardRank::Ace),
                _ => None,
            },
            _ => None,
        };
        proof {
            match r {
                Some(k) => {
                    assert(s@ =~= rank_symbol(k));
                    lemma_rank_symbol_injective(k);
                },
                None => {
                    assert forall|k: CardRank| rank_symbol(k) != s@ by {
                        if rank_symbol(k) == s@ {
                            assert(rank_symbol(k).len() == s@.len());
                        }
                    }
                },
            }
        }
        r
    }
}

impl CardSuit {
    /// The wire symbol of the suit.
    pub fn symbol(&self) -> (r: &'static str)
        ensures
            r@ == suit_symbol(*self),
    {
        match self {
            CardSuit::Spades => {
                proof {
                    reveal_strlit("♠");
                }
                "♠"
            },
            CardSuit::Clubs => {
                proof {
                    reveal_strlit("♣");
                }
                "♣"
            },
            CardSuit::Diamonds => {
                proof {
                    reveal_strlit("♦");
                }
                "♦"
            },
            CardSuit::Hearts => {
                proof {
                    reveal_strlit("♥");
                }
                "♥"
            },
        }
    }

    /// The suit written `s` on the wire, if any.
    pub fn from_symbol(s: &str) -> (r: Option<CardSuit>)
        ensures
            r == suit_of_symbol(s@),
    {
        let (a, b, _) = first_chars(s);
        let r = match (a, b) {
            (Some(x), None) => match x {
                '♠' => Some(CardSuit::Spades),
                '♣' => Some(CardSuit::Clubs),
                '♦' => Some(CardSuit::Diamonds),
                '♥' => Some(CardSuit::Hearts),
                _ => None,
            },
            _ => None,
        };
        proof {
            match r {
                Some(k) => {
                    assert(s@ =~= suit_symbol(k));
                    lemma_suit_symbol_injective(k);
                },
                None => {
                    assert forall|k: CardSuit| suit_symbol(k) != s@ by {
                        if suit_symbol(k) == s@ {
                            assert(suit_symbol(k).len() == s@.len());
                        }
                    }
                },
            }
        }
        r
    }
}

proof fn lemma_rank_symbol_injective(r: CardRank)
    ensures
        forall|k: CardRank| rank_symbol(k) == rank_symbol(r) ==> k == r,
{
    assert forall|k: CardRank| rank_symbol(k) == rank_symbol(r) implies k == r by {
        if k != r {
            if rank_symbol(k).len() == rank_symbol(r).len() {
                assert(rank_symbol(k)[0] != rank_symbol(r)[0]);
            }
        }
    }
}

proof fn lemma_suit_symbol_injective(x: CardSuit)
    ensures
        forall|k: CardSuit| suit_symbol(k) == suit_symbol(x) ==> k == x,
{
    assert forall|k: CardSuit| suit_symbol(k) == suit_symbol(x) implies k == x by {
        if k != x {
            assert(suit_symbol(k)[0] != suit_symbol(x)[0]);
        }
    }
}

/// Writing a card's rank and suit as wire symbols and reading them back
/// gives the same card.
pub proof fn lemma_card_symbols_round_trip(c: Card)
    ensures
        rank_of_symbol(rank_symbol(c.rank)) == Some(c.rank),
        suit_of_symbol(suit_symbol(c.suit)) == Some(c.suit),
{
    lemma_rank_symbol_injective(c.rank);
    lemma_suit_symbol_injective(c.suit);
}

} // verus!
