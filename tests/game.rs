use poker_durak::card::{Card, CardRank, CardSuit};
use poker_durak::cardset::CardSet;
use poker_durak::game::{Deck, Game, State, Step, StepError};

fn card(rank: CardRank, suit: CardSuit) -> Card {
    Card { rank, suit }
}

/// A two-seat table over a deck holding exactly the two hands: seat 0
/// (id `a`) is dealt `first`, seat 1 (id `b`) is dealt `second`.
fn table(a: usize, b: usize, first: Vec<Card>, second: Vec<Card>, extra: Vec<Card>) -> Game {
    let mut cards = extra;
    cards.extend(second);
    cards.extend(first);
    Game::with_seating(vec![a, b], Deck::from_cards(cards))
}

fn kings_vs_queens() -> Game {
    table(
        10,
        20,
        vec![
            card(CardRank::King, CardSuit::Spades),
            card(CardRank::King, CardSuit::Clubs),
            card(CardRank::Two, CardSuit::Spades),
            card(CardRank::Three, CardSuit::Spades),
            card(CardRank::Four, CardSuit::Clubs),
        ],
        vec![
            card(CardRank::Queen, CardSuit::Diamonds),
            card(CardRank::Queen, CardSuit::Hearts),
            card(CardRank::Jack, CardSuit::Spades),
            card(CardRank::Nine, CardSuit::Clubs),
            card(CardRank::Eight, CardSuit::Diamonds),
        ],
        vec![],
    )
}

#[test]
fn illegal_transfer_scenario() {
    let mut g = kings_vs_queens();
    assert_eq!(g.get_stepping_player(), 10);
    assert_eq!(g.get_deck_size(), 0);
    let kings = CardSet::from_vec(vec![
        card(CardRank::King, CardSuit::Spades),
        card(CardRank::King, CardSuit::Clubs),
    ]);
    assert_eq!(g.make_step(10, Step::GiveComb(kings)), Ok(()));
    assert_eq!(g.get_stepping_player(), 20);
    assert_eq!(g.get_player_cards(10).len(), 3);
    match g.get_state_cards() {
        State::Active(board) => {
            assert_eq!(board.cards.len(), 2);
            assert_eq!(board.comb.rank(), poker_durak::comb::CombRank::Pair(CardRank::King));
        }
        State::Passive => panic!("board should be active"),
    }
    let queens = CardSet::from_vec(vec![
        card(CardRank::Queen, CardSuit::Diamonds),
        card(CardRank::Queen, CardSuit::Hearts),
    ]);
    assert_eq!(g.make_step(20, Step::TransComb(queens)), Err(StepError::WeakComb));
    let aces = CardSet::from_vec(vec![
        card(CardRank::Ace, CardSuit::Spades),
        card(CardRank::Ace, CardSuit::Hearts),
    ]);
    assert_eq!(g.make_step(20, Step::TransComb(aces)), Err(StepError::InvalidCards));
    assert_eq!(g.get_player_cards(20).len(), 5);
    assert_eq!(g.get_stepping_player(), 20);
}

#[test]
fn only_the_stepping_player_may_step() {
    let mut g = kings_vs_queens();
    assert_eq!(g.make_step(20, Step::GetCard), Err(StepError::InvalidPID));
    assert_eq!(g.make_step(99, Step::GetCard), Err(StepError::InvalidPID));
}

#[test]
fn get_card_on_empty_deck_is_refused() {
    let mut g = kings_vs_queens();
    assert_eq!(g.make_step(10, Step::GetCard), Err(StepError::InvalidStepType));
    assert_eq!(g.get_player_cards(10).len(), 5);
}

#[test]
fn passive_board_refuses_pick_up_and_transfer() {
    let mut g = kings_vs_queens();
    assert_eq!(g.make_step(10, Step::GetComb), Err(StepError::InvalidStepType));
    let kings = CardSet::from_vec(vec![card(CardRank::King, CardSuit::Spades)]);
    assert_eq!(g.make_step(10, Step::TransComb(kings)), Err(StepError::InvalidStepType));
    assert_eq!(g.get_stepping_player(), 10);
}

#[test]
fn give_comb_errors() {
    let mut g = kings_vs_queens();
    let not_held = CardSet::from_vec(vec![card(CardRank::Ace, CardSuit::Spades)]);
    assert_eq!(g.make_step(10, Step::GiveComb(not_held)), Err(StepError::InvalidCards));
    let no_comb = CardSet::from_vec(vec![
        card(CardRank::King, CardSuit::Spades),
        card(CardRank::Two, CardSuit::Spades),
    ]);
    assert_eq!(g.make_step(10, Step::GiveComb(no_comb)), Err(StepError::InvalidComb));
}

#[test]
fn transfer_beats_and_pick_up() {
    let mut g = kings_vs_queens();
    let kings = CardSet::from_vec(vec![
        card(CardRank::King, CardSuit::Spades),
        card(CardRank::King, CardSuit::Clubs),
    ]);
    assert_eq!(g.make_step(10, Step::GiveComb(kings)), Ok(()));
    assert_eq!(g.make_step(20, Step::GetCard), Err(StepError::InvalidStepType));
    assert_eq!(g.make_step(20, Step::GetComb), Ok(()));
    assert_eq!(g.get_player_cards(20).len(), 7);
    assert_eq!(g.get_stepping_player(), 10);
    assert!(matches!(g.get_state_cards(), State::Passive));
}

#[test]
fn transfer_with_board_cards() {
    let mut g = kings_vs_queens();
    let kings = CardSet::from_vec(vec![
        card(CardRank::King, CardSuit::Spades),
        card(CardRank::King, CardSuit::Clubs),
    ]);
    assert_eq!(g.make_step(10, Step::GiveComb(kings)), Ok(()));
    let two_pairs = CardSet::from_vec(vec![
        card(CardRank::King, CardSuit::Spades),
        card(CardRank::King, CardSuit::Clubs),
        card(CardRank::Queen, CardSuit::Diamonds),
        card(CardRank::Queen, CardSuit::Hearts),
    ]);
    assert_eq!(g.make_step(20, Step::TransComb(two_pairs)), Ok(()));
    assert_eq!(g.get_player_cards(20).len(), 3);
    match g.get_state_cards() {
        State::Active(board) => {
            assert_eq!(board.cards.len(), 4);
            assert_eq!(
                board.comb.rank(),
                poker_durak::comb::CombRank::TwoPairs(CardRank::King, CardRank::Queen)
            );
        }
        State::Passive => panic!("board should be active"),
    }
    assert_eq!(g.get_stepping_player(), 10);
}

#[test]
fn get_comb_tops_up_and_gives_bonus() {
    let mut g = table(
        10,
        20,
        vec![
            card(CardRank::King, CardSuit::Spades),
            card(CardRank::King, CardSuit::Clubs),
            card(CardRank::Two, CardSuit::Spades),
            card(CardRank::Three, CardSuit::Spades),
            card(CardRank::Four, CardSuit::Clubs),
        ],
        vec![
            card(CardRank::Queen, CardSuit::Diamonds),
            card(CardRank::Queen, CardSuit::Hearts),
            card(CardRank::Jack, CardSuit::Spades),
            card(CardRank::Nine, CardSuit::Clubs),
            card(CardRank::Eight, CardSuit::Diamonds),
        ],
        vec![
            card(CardRank::Ace, CardSuit::Hearts),
            card(CardRank::Ace, CardSuit::Diamonds),
            card(CardRank::Ace, CardSuit::Clubs),
        ],
    );
    assert_eq!(g.get_deck_size(), 3);
    let kings = CardSet::from_vec(vec![
        card(CardRank::King, CardSuit::Spades),
        card(CardRank::King, CardSuit::Clubs),
    ]);
    assert_eq!(g.make_step(10, Step::GiveComb(kings)), Ok(()));
    assert_eq!(g.make_step(20, Step::GetComb), Ok(()));
    // Seat 10 is topped up from 3 to 5 cards, then draws one bonus card.
    assert_eq!(g.get_player_cards(10).len(), 6);
    assert_eq!(g.get_player_cards(20).len(), 7);
    assert_eq!(g.get_deck_size(), 0);
    assert_eq!(g.players_decks(), vec![7]);
}

#[test]
fn get_card_draws_the_top_card() {
    let mut g = table(
        1,
        2,
        vec![
            card(CardRank::Two, CardSuit::Spades),
            card(CardRank::Three, CardSuit::Spades),
            card(CardRank::Four, CardSuit::Spades),
            card(CardRank::Five, CardSuit::Spades),
            card(CardRank::Seven, CardSuit::Clubs),
        ],
        vec![
            card(CardRank::Ace, CardSuit::Spades),
            card(CardRank::Ace, CardSuit::Hearts),
            card(CardRank::King, CardSuit::Clubs),
            card(CardRank::King, CardSuit::Diamonds),
            card(CardRank::Queen, CardSuit::Spades),
        ],
        vec![card(CardRank::Ten, CardSuit::Hearts), card(CardRank::Nine, CardSuit::Hearts)],
    );
    assert_eq!(g.get_stepping_player(), 1);
    assert_eq!(g.make_step(1, Step::GetCard), Ok(()));
    assert!(g.get_player_cards(1).contains(&card(CardRank::Nine, CardSuit::Hearts)));
    assert_eq!(g.get_deck_size(), 1);
    assert_eq!(g.get_stepping_player(), 2);
    assert_eq!(g.players_decks(), vec![6]);
}

#[test]
fn winner_cascade_two_players() {
    let mut g = table(
        1,
        2,
        vec![
            card(CardRank::Two, CardSuit::Spades),
            card(CardRank::Three, CardSuit::Hearts),
            card(CardRank::Four, CardSuit::Clubs),
            card(CardRank::Five, CardSuit::Diamonds),
            card(CardRank::Six, CardSuit::Spades),
        ],
        vec![
            card(CardRank::Ace, CardSuit::Spades),
            card(CardRank::Ace, CardSuit::Hearts),
            card(CardRank::King, CardSuit::Clubs),
            card(CardRank::King, CardSuit::Diamonds),
            card(CardRank::Queen, CardSuit::Spades),
        ],
        vec![],
    );
    assert_eq!(g.game_winner(), None);
    let all = g.get_player_cards(1);
    assert_eq!(g.make_step(1, Step::GiveComb(all)), Ok(()));
    assert_eq!(g.game_winner(), Some(1));
    assert!(g.is_player_kicked(1));
    assert_eq!(g.get_stepping_player(), 2);
    g.kick_player(2);
    assert_eq!(g.game_winner(), Some(1));
    g.kick_player(2);
    assert_eq!(g.game_winner(), Some(1));
}

#[test]
fn last_survivor_wins_when_others_are_kicked() {
    let mut g = kings_vs_queens();
    assert!(!g.is_player_kicked(10));
    g.kick_player(10);
    assert!(g.is_player_kicked(10));
    assert_eq!(g.game_winner(), Some(20));
    assert_eq!(g.get_stepping_player(), 20);
    assert!(g.is_player_kicked(77));
}

#[test]
fn new_accepts_two_to_nine_players() {
    assert!(Game::new(vec![]).is_none());
    assert!(Game::new(vec![1]).is_none());
    for n in 2..10usize {
        let g = Game::new((0..n).collect()).unwrap();
        assert_eq!(g.get_deck_size(), 52 - 5 * n);
        for pid in 0..n {
            assert_eq!(g.get_player_cards(pid).len(), 5);
            assert!(!g.is_player_kicked(pid));
        }
        assert_eq!(g.players_decks().len(), n - 1);
    }
    assert!(Game::new((0..10).collect()).is_none());
    assert!(Game::new((0..11).collect()).is_none());
}

#[test]
fn new_deals_disjoint_hands() {
    let g = Game::new(vec![5, 6, 7]).unwrap();
    let h5 = g.get_player_cards(5);
    let h6 = g.get_player_cards(6);
    let h7 = g.get_player_cards(7);
    assert_eq!(h5.union(&h6).union(&h7).len(), 15);
}

#[test]
fn stepping_player_has_smallest_hand() {
    let g = table(
        3,
        4,
        vec![
            card(CardRank::Ace, CardSuit::Spades),
            card(CardRank::Ace, CardSuit::Hearts),
            card(CardRank::King, CardSuit::Clubs),
            card(CardRank::King, CardSuit::Diamonds),
            card(CardRank::Queen, CardSuit::Spades),
        ],
        vec![
            card(CardRank::Two, CardSuit::Spades),
            card(CardRank::Three, CardSuit::Hearts),
            card(CardRank::Four, CardSuit::Clubs),
            card(CardRank::Five, CardSuit::Diamonds),
            card(CardRank::Six, CardSuit::Spades),
        ],
        vec![],
    );
    assert_eq!(g.get_stepping_player(), 4);
}

#[test]
fn deck_operations() {
    let mut d = Deck::from_cards(vec![
        card(CardRank::Two, CardSuit::Spades),
        card(CardRank::Three, CardSuit::Spades),
        card(CardRank::Four, CardSuit::Spades),
    ]);
    assert_eq!(d.size(), 3);
    assert_eq!(d.get_card(), Some(card(CardRank::Four, CardSuit::Spades)));
    let taken = d.get_cards(5);
    assert_eq!(taken.len(), 2);
    assert_eq!(d.size(), 0);
    assert_eq!(d.get_card(), None);
    let full = Deck::new();
    assert_eq!(full.size(), 52);
}

#[test]
fn new_deck_is_a_shuffled_full_deck() {
    let mut d = Deck::new();
    let mut drawn = Vec::new();
    while let Some(c) = d.get_card() {
        drawn.push(c);
    }
    assert_eq!(drawn.len(), 52);
    assert_eq!(CardSet::from_vec(drawn.clone()).len(), 52);
    // Rank-major order, as the deck is built before shuffling; popping
    // yields it reversed.
    let mut unshuffled = Vec::new();
    for r in 0..13 {
        for suit in [CardSuit::Spades, CardSuit::Clubs, CardSuit::Diamonds, CardSuit::Hearts] {
            unshuffled.push(card(CardRank::at(r), suit));
        }
    }
    unshuffled.reverse();
    assert_ne!(drawn, unshuffled);
}

#[test]
fn players_decks_skips_kicked_seats() {
    let mut g = Game::new(vec![1, 2, 3]).unwrap();
    assert_eq!(g.players_decks(), vec![5, 5]);
    let stepping = g.get_stepping_player();
    let other = if stepping == 1 { 2 } else { 1 };
    g.kick_player(other);
    assert_eq!(g.players_decks(), vec![5]);
    assert_eq!(g.get_stepping_player(), stepping);
}
