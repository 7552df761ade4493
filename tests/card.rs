use poker_durak::card::{Card, CardRank, CardSuit};

const RANKS: [CardRank; 13] = [
    CardRank::Two,
    CardRank::Three,
    CardRank::Four,
    CardRank::Five,
    CardRank::Six,
    CardRank::Seven,
    CardRank::Eight,
    CardRank::Nine,
    CardRank::Ten,
    CardRank::Jack,
    CardRank::Queen,
    CardRank::King,
    CardRank::Ace,
];

const SUITS: [CardSuit; 4] = [CardSuit::Spades, CardSuit::Clubs, CardSuit::Diamonds, CardSuit::Hearts];

#[test]
fn card_symbols_round_trip() {
    for rank in RANKS {
        for suit in SUITS {
            let card = Card { rank, suit };
            let back = Card {
                rank: CardRank::from_symbol(card.rank.symbol()).unwrap(),
                suit: CardSuit::from_symbol(card.suit.symbol()).unwrap(),
            };
            assert_eq!(back, card);
        }
    }
}

#[test]
fn card_symbols_on_the_wire() {
    assert_eq!(CardRank::Ten.symbol(), "10");
    assert_eq!(CardRank::Queen.symbol(), "Q");
    assert_eq!(CardRank::Two.symbol(), "2");
    assert_eq!(CardSuit::Spades.symbol(), "♠");
    assert_eq!(CardSuit::Hearts.symbol(), "♥");
    assert_eq!(CardRank::from_symbol("10"), Some(CardRank::Ten));
    assert_eq!(CardRank::from_symbol("A"), Some(CardRank::Ace));
    assert_eq!(CardRank::from_symbol("1"), None);
    assert_eq!(CardRank::from_symbol("100"), None);
    assert_eq!(CardRank::from_symbol(""), None);
    assert_eq!(CardRank::from_symbol("a"), None);
    assert_eq!(CardSuit::from_symbol("♦"), Some(CardSuit::Diamonds));
    assert_eq!(CardSuit::from_symbol("♣"), Some(CardSuit::Clubs));
    assert_eq!(CardSuit::from_symbol("S"), None);
    assert_eq!(CardSuit::from_symbol("♠♠"), None);
}

#[test]
fn rank_positions() {
    for (i, rank) in RANKS.iter().enumerate() {
        assert_eq!(rank.position(), i);
        assert_eq!(CardRank::at(i), *rank);
    }
}

#[test]
fn cards_compare_by_rank_only() {
    let qs = Card { rank: CardRank::Queen, suit: CardSuit::Spades };
    let kc = Card { rank: CardRank::King, suit: CardSuit::Clubs };
    let qh = Card { rank: CardRank::Queen, suit: CardSuit::Hearts };
    assert!(qs < kc);
    assert!(kc > qh);
    assert_eq!(qs.partial_cmp(&qh), Some(std::cmp::Ordering::Equal));
}
