use poker_durak::card::{Card, CardRank, CardSuit};
use poker_durak::cardset::CardSet;
use poker_durak::comb::{Comb, CombRank};

fn card(rank: CardRank, suit: CardSuit) -> Card {
    Card { rank, suit }
}

fn set(cards: Vec<Card>) -> CardSet {
    CardSet::from_vec(cards)
}

fn rank_of(cards: Vec<Card>) -> CombRank {
    Comb::new(set(cards)).unwrap().rank()
}

#[test]
fn comb_test_straight_flush() {
    assert_eq!(
        Comb::new(set(vec![
            Card { rank: CardRank::Ten, suit: CardSuit::Hearts },
            Card { rank: CardRank::Jack, suit: CardSuit::Hearts },
            Card { rank: CardRank::Queen, suit: CardSuit::Hearts },
            Card { rank: CardRank::King, suit: CardSuit::Hearts },
            Card { rank: CardRank::Ace, suit: CardSuit::Hearts },
        ]))
        .unwrap()
        .rank(),
        CombRank::StraightFlush(CardRank::Ace)
    );
    assert_eq!(
        Comb::new(set(vec![
            Card { rank: CardRank::Two, suit: CardSuit::Hearts },
            Card { rank: CardRank::Three, suit: CardSuit::Hearts },
            Card { rank: CardRank::Four, suit: CardSuit::Hearts },
            Card { rank: CardRank::Five, suit: CardSuit::Hearts },
            Card { rank: CardRank::Ace, suit: CardSuit::Hearts },
        ]))
        .unwrap()
        .rank(),
        CombRank::StraightFlush(CardRank::Five)
    );
}

#[test]
fn comb_test_four_of_a_kind() {
    assert_eq!(
        Comb::new(set(vec![
            Card { rank: CardRank::Ace, suit: CardSuit::Spades },
            Card { rank: CardRank::Ace, suit: CardSuit::Clubs },
            Card { rank: CardRank::Ace, suit: CardSuit::Diamonds },
            Card { rank: CardRank::Ace, suit: CardSuit::Hearts },
        ]))
        .unwrap()
        .rank(),
        CombRank::FourOfAKind(CardRank::Ace)
    );
}

#[test]
fn comb_test_full_house() {
    assert_eq!(
        Comb::new(set(vec![
            Card { rank: CardRank::Ace, suit: CardSuit::Spades },
            Card { rank: CardRank::Ace, suit: CardSuit::Clubs },
            Card { rank: CardRank::Ace, suit: CardSuit::Diamonds },
            Card { rank: CardRank::King, suit: CardSuit::Hearts },
            Card { rank: CardRank::King, suit: CardSuit::Diamonds },
        ]))
        .unwrap()
        .rank(),
        CombRank::FullHouse(CardRank::Ace, CardRank::King)
    );
    assert_eq!(
        Comb::new(set(vec![
            Card { rank: CardRank::Ace, suit: CardSuit::Spades },
            Card { rank: CardRank::Ace, suit: CardSuit::Clubs },
            Card { rank: CardRank::King, suit: CardSuit::Spades },
            Card { rank: CardRank::King, suit: CardSuit::Hearts },
            Card { rank: CardRank::King, suit: CardSuit::Diamonds },
        ]))
        .unwrap()
        .rank(),
        CombRank::FullHouse(CardRank::King, CardRank::Ace)
    );
}

#[test]
fn comb_test_flush() {
    assert_eq!(
        Comb::new(set(vec![
            Card { rank: CardRank::Nine, suit: CardSuit::Hearts },
            Card { rank: CardRank::Jack, suit: CardSuit::Hearts },
            Card { rank: CardRank::Queen, suit: CardSuit::Hearts },
            Card { rank: CardRank::King, suit: CardSuit::Hearts },
            Card { rank: CardRank::Ace, suit: CardSuit::Hearts },
        ]))
        .unwrap()
        .rank(),
        CombRank::Flush(
            CardRank::Ace,
            CardRank::King,
            CardRank::Queen,
            CardRank::Jack,
            CardRank::Nine
        )
    );
}

#[test]
fn comb_test_straight() {
    assert_eq!(
        Comb::new(set(vec![
            Card { rank: CardRank::Ten, suit: CardSuit::Hearts },
            Card { rank: CardRank::Jack, suit: CardSuit::Spades },
            Card { rank: CardRank::Queen, suit: CardSuit::Diamonds },
            Card { rank: CardRank::King, suit: CardSuit::Clubs },
            Card { rank: CardRank::Ace, suit: CardSuit::Hearts },
        ]))
        .unwrap()
        .rank(),
        CombRank::Straight(CardRank::Ace)
    );
    assert_eq!(
        Comb::new(set(vec![
            Card { rank: CardRank::Two, suit: CardSuit::Hearts },
            Card { rank: CardRank::Three, suit: CardSuit::Spades },
            Card { rank: CardRank::Four, suit: CardSuit::Diamonds },
            Card { rank: CardRank::Five, suit: CardSuit::Clubs },
            Card { rank: CardRank::Ace, suit: CardSuit::Hearts },
        ]))
        .unwrap()
        .rank(),
        CombRank::Straight(CardRank::Five)
    );
}

#[test]
fn comb_test_set() {
    assert_eq!(
        Comb::new(set(vec![
            Card { rank: CardRank::Ace, suit: CardSuit::Spades },
            Card { rank: CardRank::Ace, suit: CardSuit::Clubs },
            Card { rank: CardRank::Ace, suit: CardSuit::Diamonds },
        ]))
        .unwrap()
        .rank(),
        CombRank::ThreeOfAKind(CardRank::Ace)
    );
}

#[test]
fn comb_test_two_pairs() {
    assert_eq!(
        Comb::new(set(vec![
            Card { rank: CardRank::Ace, suit: CardSuit::Spades },
            Card { rank: CardRank::Ace, suit: CardSuit::Clubs },
            Card { rank: CardRank::King, suit: CardSuit::Hearts },
            Card { rank: CardRank::King, suit: CardSuit::Diamonds },
        ]))
        .unwrap()
        .rank(),
        CombRank::TwoPairs(CardRank::Ace, CardRank::King)
    );
}

#[test]
fn comb_test_pair() {
    assert_eq!(
        Comb::new(set(vec![
            Card { rank: CardRank::Ace, suit: CardSuit::Spades },
            Card { rank: CardRank::Ace, suit: CardSuit::Clubs },
        ]))
        .unwrap()
        .rank(),
        CombRank::Pair(CardRank::Ace)
    );
}

#[test]
fn comb_test_highest_card() {
    assert_eq!(
        Comb::new(set(vec![Card { rank: CardRank::Ace, suit: CardSuit::Spades }]))
            .unwrap()
            .rank(),
        CombRank::HighestCard(CardRank::Ace)
    );
}

#[test]
fn comb_test_nothing() {
    assert_eq!(
        Comb::new(set(vec![
            Card { rank: CardRank::Ace, suit: CardSuit::Spades },
            Card { rank: CardRank::King, suit: CardSuit::Hearts },
        ]))
        .is_none(),
        true
    );
}

#[test]
fn wheel_straight_is_five_high() {
    let r = rank_of(vec![
        card(CardRank::Ace, CardSuit::Spades),
        card(CardRank::Two, CardSuit::Hearts),
        card(CardRank::Three, CardSuit::Clubs),
        card(CardRank::Four, CardSuit::Diamonds),
        card(CardRank::Five, CardSuit::Spades),
    ]);
    assert_eq!(r, CombRank::Straight(CardRank::Five));
    assert_ne!(r, CombRank::Straight(CardRank::Ace));
    let six_high = rank_of(vec![
        card(CardRank::Six, CardSuit::Spades),
        card(CardRank::Two, CardSuit::Hearts),
        card(CardRank::Three, CardSuit::Clubs),
        card(CardRank::Four, CardSuit::Diamonds),
        card(CardRank::Five, CardSuit::Spades),
    ]);
    assert!(r.is_weaker(&six_high));
}

#[test]
fn straight_flush_wheel_scenario() {
    let r = rank_of(vec![
        card(CardRank::Ace, CardSuit::Hearts),
        card(CardRank::Two, CardSuit::Hearts),
        card(CardRank::Three, CardSuit::Hearts),
        card(CardRank::Four, CardSuit::Hearts),
        card(CardRank::Five, CardSuit::Hearts),
    ]);
    assert_eq!(r, CombRank::StraightFlush(CardRank::Five));
}

#[test]
fn flush_tie_break_uses_all_five_ranks() {
    let a = Comb::new(set(vec![
        card(CardRank::Ace, CardSuit::Clubs),
        card(CardRank::King, CardSuit::Clubs),
        card(CardRank::Nine, CardSuit::Clubs),
        card(CardRank::Seven, CardSuit::Clubs),
        card(CardRank::Three, CardSuit::Clubs),
    ]))
    .unwrap();
    let b = Comb::new(set(vec![
        card(CardRank::Ace, CardSuit::Spades),
        card(CardRank::King, CardSuit::Spades),
        card(CardRank::Nine, CardSuit::Spades),
        card(CardRank::Seven, CardSuit::Spades),
        card(CardRank::Two, CardSuit::Spades),
    ]))
    .unwrap();
    assert!(a.beats(&b));
    assert!(!b.beats(&a));
    assert!(!a.beats(&a));
}

#[test]
fn two_pairs_ordering() {
    let kk55 = Comb::new(set(vec![
        card(CardRank::King, CardSuit::Spades),
        card(CardRank::King, CardSuit::Hearts),
        card(CardRank::Five, CardSuit::Clubs),
        card(CardRank::Five, CardSuit::Diamonds),
    ]))
    .unwrap();
    let qqjj = Comb::new(set(vec![
        card(CardRank::Queen, CardSuit::Spades),
        card(CardRank::Queen, CardSuit::Hearts),
        card(CardRank::Jack, CardSuit::Clubs),
        card(CardRank::Jack, CardSuit::Diamonds),
    ]))
    .unwrap();
    let kk44 = Comb::new(set(vec![
        card(CardRank::King, CardSuit::Clubs),
        card(CardRank::King, CardSuit::Diamonds),
        card(CardRank::Four, CardSuit::Clubs),
        card(CardRank::Four, CardSuit::Diamonds),
    ]))
    .unwrap();
    assert!(kk55.beats(&qqjj));
    assert!(kk55.beats(&kk44));
    assert!(!kk44.beats(&kk55));
}

#[test]
fn full_house_ordering() {
    let aaakk = Comb::new(set(vec![
        card(CardRank::Ace, CardSuit::Spades),
        card(CardRank::Ace, CardSuit::Clubs),
        card(CardRank::Ace, CardSuit::Diamonds),
        card(CardRank::King, CardSuit::Hearts),
        card(CardRank::King, CardSuit::Diamonds),
    ]))
    .unwrap();
    let kkkaa = Comb::new(set(vec![
        card(CardRank::King, CardSuit::Spades),
        card(CardRank::King, CardSuit::Clubs),
        card(CardRank::King, CardSuit::Hearts),
        card(CardRank::Ace, CardSuit::Hearts),
        card(CardRank::Ace, CardSuit::Clubs),
    ]))
    .unwrap();
    assert!(aaakk.beats(&kkkaa));
    assert!(!kkkaa.beats(&aaakk));
}

#[test]
fn categories_are_ordered() {
    let ranks = vec![
        CombRank::HighestCard(CardRank::Ace),
        CombRank::Pair(CardRank::Two),
        CombRank::TwoPairs(CardRank::Three, CardRank::Two),
        CombRank::ThreeOfAKind(CardRank::Two),
        CombRank::Straight(CardRank::Five),
        CombRank::Flush(
            CardRank::Seven,
            CardRank::Five,
            CardRank::Four,
            CardRank::Three,
            CardRank::Two,
        ),
        CombRank::FullHouse(CardRank::Two, CardRank::Three),
        CombRank::FourOfAKind(CardRank::Two),
        CombRank::StraightFlush(CardRank::Five),
    ];
    for i in 0..ranks.len() {
        assert!(!ranks[i].is_weaker(&ranks[i]));
        for j in (i + 1)..ranks.len() {
            assert!(ranks[i].is_weaker(&ranks[j]));
            assert!(!ranks[j].is_weaker(&ranks[i]));
        }
    }
}

#[test]
fn recognised_rank_round_trip() {
    let c = Comb::new(set(vec![
        card(CardRank::Nine, CardSuit::Spades),
        card(CardRank::Nine, CardSuit::Clubs),
        card(CardRank::Nine, CardSuit::Hearts),
    ]))
    .unwrap();
    assert_eq!(Comb::get_rank(c.cards()), Some(c.rank()));
}

#[test]
fn invalid_sets_are_rejected() {
    assert!(Comb::new(set(vec![])).is_none());
    assert!(Comb::new(set(vec![
        card(CardRank::Ace, CardSuit::Spades),
        card(CardRank::Ace, CardSuit::Clubs),
        card(CardRank::King, CardSuit::Hearts),
        card(CardRank::Queen, CardSuit::Diamonds),
    ]))
    .is_none());
    assert!(Comb::new(set(vec![
        card(CardRank::Ace, CardSuit::Spades),
        card(CardRank::Ace, CardSuit::Clubs),
        card(CardRank::King, CardSuit::Hearts),
        card(CardRank::Queen, CardSuit::Diamonds),
        card(CardRank::Two, CardSuit::Diamonds),
    ]))
    .is_none());
    let four_and_kicker = rank_of(vec![
        card(CardRank::Seven, CardSuit::Spades),
        card(CardRank::Seven, CardSuit::Clubs),
        card(CardRank::Seven, CardSuit::Hearts),
        card(CardRank::Seven, CardSuit::Diamonds),
        card(CardRank::Two, CardSuit::Diamonds),
    ]);
    assert_eq!(four_and_kicker, CombRank::FourOfAKind(CardRank::Seven));
}

#[test]
fn card_set_operations() {
    let a = set(vec![
        card(CardRank::Ace, CardSuit::Spades),
        card(CardRank::Ace, CardSuit::Spades),
        card(CardRank::Two, CardSuit::Clubs),
    ]);
    assert_eq!(a.len(), 2);
    let b = set(vec![card(CardRank::Two, CardSuit::Clubs), card(CardRank::Ten, CardSuit::Hearts)]);
    assert_eq!(a.union(&b).len(), 3);
    assert_eq!(a.intersection(&b).len(), 1);
    let d = a.difference(&b);
    assert_eq!(d.len(), 1);
    assert!(d.contains(&card(CardRank::Ace, CardSuit::Spades)));
    assert!(!a.is_subset(&b));
    assert!(d.is_subset(&a));
    let mut e = a.clone_set();
    e.remove(&card(CardRank::Ace, CardSuit::Spades));
    assert_eq!(e.len(), 1);
    assert!(CardSet::new().is_empty());
}
