use vstd::prelude::*;

use crate::card::{Card, CardRank, CardSuit};
use crate::cardset::CardSet;
use crate::comb::{comb_lt, recognise, Comb, CombRank};

verus! {

/// Number of cards dealt to, and topped up in, each hand.
pub const PLAYERS_CARDS: usize = 5;

/// A player's identifier.
pub type PID = usize;

/// The 52 cards in rank-major order: all suits of the Two, then of the Three, ...
pub open spec fn standard_deck() -> Seq<Card> {
    Seq::new(52, |i: int| Card { rank: CardRank::at_spec(i / 4), suit: suit_at(i % 4) })
}

pub open spec fn suit_at(i: int) -> CardSuit {
    if i == 0 {
        CardSuit::Spades
    } else if i == 1 {
        CardSuit::Clubs
    } else if i == 2 {
        CardSuit::Diamonds
    } else {
        CardSuit::Hearts
    }
}

/// Relies on rand's `SliceRandom::shuffle` with the thread-local generator:
/// the slice is permuted in place by swaps.
#[verifier::external_body]
fn shuffle_cards(v: &mut Vec<Card>)
    ensures
        final(v)@.to_multiset() == old(v)@.to_multiset(),
{
    rand::seq::SliceRandom::shuffle(v.as_mut_slice(), &mut rand::thread_rng());
}

/// Relies on rand's `SliceRandom::shuffle` with the thread-local generator:
/// the slice is permuted in place by swaps.
#[verifier::external_body]
fn shuffle_ids(v: &mut Vec<PID>)
    ensures
        final(v)@.to_multiset() == old(v)@.to_multiset(),
{
    rand::seq::SliceRandom::shuffle(v.as_mut_slice(), &mut rand::thread_rng());
}

/// A stack of cards; cards are taken from the end.
#[derive(Debug)]
pub struct Deck {
    cards: Vec<Card>,
}

impl View for Deck {
    type V = Seq<Card>;

    closed spec fn view(&self) -> Seq<Card> {
        self.cards@
    }
}

/// The number of cards that taking `n` from a deck of `len` cards yields.
pub open spec fn taken(len: int, n: int) -> int {
    if n < len {
        n
    } else {
        len
    }
}

impl Deck {
    /// The 52 cards, shuffled.
    pub fn new() -> (r: Deck)
        ensures
            r@.to_multiset() == standard_deck().to_multiset(),
            r@.len() == 52,
            r@.no_duplicates(),
            forall|c: Card| r@.contains(c),
    {
        let mut cards: Vec<Card> = Vec::new();
        let mut i: usize = 0;
        while i < 52
            invariant
                0 <= i <= 52,
                cards@ == standard_deck().subrange(0, i as int),
            decreases 52 - i,
        {
            let suit = if i % 4 == 0 {
                CardSuit::Spades
            } else if i % 4 == 1 {
                CardSuit::Clubs
            } else if i % 4 == 2 {
                CardSuit::Diamonds
            } else {
                CardSuit::Hearts
            };
            cards.push(Card { rank: CardRank::at(i / 4), suit });
            assert(cards@ =~= standard_deck().subrange(0, i + 1));
            i = i + 1;
        }
        assert(cards@ =~= standard_deck());
        shuffle_cards(&mut cards);
        proof {
            cards@.to_multiset_ensures();
            standard_deck().to_multiset_ensures();
            lemma_standard_deck();
            standard_deck().lemma_multiset_has_no_duplicates();
            cards@.lemma_multiset_has_no_duplicates_conv();
            assert forall|c: Card| cards@.contains(c) by {
                assert(standard_deck().contains(c));
                assert(standard_deck().to_multiset().count(c) > 0);
            }
        }
        Deck { cards }
    }

    /// A deck holding exactly `cards`; the last one is taken first.
    pub fn from_cards(cards: Vec<Card>) -> (r: Deck)
        ensures
            r@ == cards@,
    {
        Deck { cards }
    }

    /// Takes the top card, if any.
    pub fn get_card(&mut self) -> (r: Option<Card>)
        ensures
            old(self)@.len() == 0 ==> r is None && final(self)@ == old(self)@,
            old(self)@.len() > 0 ==> r == Some(old(self)@.last()) && final(self)@ == old(
                self,
            )@.drop_last(),
    {
        self.cards.pop()
    }

    /// Takes up to `n` cards from the top.
    pub fn get_cards(&mut self, n: usize) -> (r: CardSet)
        ensures
            r.wf(),
            r@ == old(self)@.subrange(
                old(self)@.len() - taken(old(self)@.len() as int, n as int),
                old(self)@.len() as int,
            ).to_set(),
            final(self)@ == old(self)@.subrange(
                0,
                old(self)@.len() - taken(old(self)@.len() as int, n as int),
            ),
    {
        let ghost d = self.cards@;
        let mut r = CardSet::new();
        let mut i: usize = 0;
        while i < n && self.cards.len() > 0
            invariant
                i <= n,
                i + self.cards@.len() == d.len(),
                self.cards@ == d.subrange(0, d.len() - i),
                r.wf(),
                r@ == d.subrange(d.len() - i, d.len() as int).to_set(),
            decreases n - i,
        {
            let c = self.cards.pop().unwrap();
            r.insert(c);
            proof {
                let t = d.subrange(d.len() - i, d.len() as int);
                let s = d.subrange(d.len() - (i + 1), d.len() as int);
                assert(s =~= seq![c] + t);
                assert forall|x: Card| s.to_set().contains(x) implies t.to_set().insert(c).contains(
                    x,
                ) by {
                    let k = choose|k: int| 0 <= k < s.len() && s[k] == x;
                    if k > 0 {
                        assert(t[k - 1] == x);
                    }
                }
                assert forall|x: Card| t.to_set().insert(c).contains(x) implies s.to_set().contains(
                    x,
                ) by {
                    if x == c {
                        assert(s[0] == x);
                    } else {
                        let k = choose|k: int| 0 <= k < t.len() && #[trigger] t[k] == x;
                        assert(s[k + 1] == x);
                    }
                }
                assert(s.to_set() =~= t.to_set().insert(c));
                assert(self.cards@ =~= d.subrange(0, d.len() - (i + 1)));
            }
            i = i + 1;
        }
        r
    }

    pub fn size(&self) -> (r: usize)
        ensures
            r == self@.len(),
    {
        self.cards.len()
    }
}

#[derive(Debug)]
struct Player {
    id: PID,
    cards: CardSet,
}

/// The cards on the table: every card laid during the current active phase,
/// and the strongest combination among them.
#[derive(Debug)]
pub struct Board {
    pub comb: Comb,
    pub cards: CardSet,
}

/// What the stepping player faces: an empty table, or a combination to beat.
#[derive(Debug)]
pub enum State {
    Active(Board),
    Passive,
}

/// A move of the stepping player.
#[derive(Debug)]
pub enum Step {
    GetCard,
    GiveComb(CardSet),
    TransComb(CardSet),
    GetComb,
}

/// Why a step was refused; the game is left unchanged.
#[derive(PartialEq, Eq, Structural, Clone, Copy, Debug)]
pub enum StepError {
    InvalidPID,
    InvalidStepType,
    InvalidCards,
    InvalidComb,
    WeakComb,
}

/// Mathematical model of a board.
pub struct BoardView {
    pub cards: Set<Card>,
    pub comb_cards: Set<Card>,
    pub rank: CombRank,
}

/// Mathematical model of a table.  Seats are indices into `ids`; the live
/// seats form a circular list through `next` and `prev`, and a seat `i` is
/// out of the rotation when `next[i] == i`.
pub struct GameView {
    pub ids: Seq<PID>,
    pub hands: Seq<Set<Card>>,
    pub next: Seq<usize>,
    pub prev: Seq<usize>,
    pub stepping: usize,
    pub winner: Option<usize>,
    pub deck: Seq<Card>,
    pub board: Option<BoardView>,
}

impl State {
    pub open spec fn board_view(&self) -> Option<BoardView> {
        match self {
            State::Active(b) => Some(
                BoardView { cards: b.cards@, comb_cards: b.comb.cards_view(), rank: b.comb.rank_view() },
            ),
            State::Passive => None,
        }
    }

    pub open spec fn wf(&self) -> bool {
        match self {
            State::Active(b) => b.comb.wf() && b.cards.wf(),
            State::Passive => true,
        }
    }

    /// A copy of the state.
    pub fn clone_state(&self) -> (r: State)
        requires
            self.wf(),
        ensures
            r.wf(),
            r.board_view() == self.board_view(),
    {
        match self {
            State::Active(b) => State::Active(
                Board { comb: b.comb.clone_comb(), cards: b.cards.clone_set() },
            ),
            State::Passive => State::Passive,
        }
    }
}

impl Step {
    pub open spec fn wf(&self) -> bool {
        match self {
            Step::GiveComb(c) => c.wf(),
            Step::TransComb(c) => c.wf(),
            _ => true,
        }
    }
}

/// The seat of player `pid`, if seated.
pub open spec fn seat_of(ids: Seq<PID>, pid: PID) -> Option<int> {
    if exists|i: int| 0 <= i < ids.len() && ids[i] == pid {
        Some(choose|i: int| 0 <= i < ids.len() && ids[i] == pid)
    } else {
        None
    }
}

/// Is seat `i` out of the rotation?
pub open spec fn kicked(v: GameView, i: int) -> bool {
    v.next[i] == i
}

/// Seat `p` leaves the rotation.  When it leaves exactly one other seat
/// behind and nobody has won yet, that seat wins.  If `p` was stepping, the
/// turn passes to the seat after it.  Kicking a seat out of the rotation
/// changes nothing.
pub open spec fn kick(v: GameView, p: int) -> GameView {
    if v.next[p] == p {
        v
    } else {
        let a = v.prev[p];
        let b = v.next[p];
        GameView {
            winner: if a == b && v.winner is None {
                Some(b)
            } else {
                v.winner
            },
            next: v.next.update(a as int, b).update(p, p as usize),
            prev: v.prev.update(b as int, a),
            stepping: if v.stepping == p {
                b
            } else {
                v.stepping
            },
            ..v
        }
    }
}

/// The turn passes to the next seat of the rotation.
pub open spec fn advance(v: GameView) -> GameView {
    GameView { stepping: v.next[v.stepping as int], ..v }
}

/// After seat `p` laid cards: if its hand and the deck are both empty it
/// wins (unless someone won before) and leaves the rotation; otherwise the
/// turn passes on.
pub open spec fn after_play(v: GameView, p: int) -> GameView {
    if v.deck.len() == 0 && v.hands[p] == Set::<Card>::empty() {
        kick(
            GameView {
                winner: if v.winner is None {
                    Some(p as usize)
                } else {
                    v.winner
                },
                ..v
            },
            p,
        )
    } else {
        advance(v)
    }
}

/// The seats met walking the rotation from `from` (included) to `to`
/// (excluded), at most `fuel` of them.
pub open spec fn walk(next: Seq<usize>, from: int, to: int, fuel: nat) -> Seq<int>
    decreases fuel,
{
    if fuel == 0 || from == to {
        Seq::empty()
    } else {
        seq![from] + walk(next, next[from] as int, to, (fuel - 1) as nat)
    }
}

/// Seat `s` draws from the deck until it holds five cards or the deck is empty.
pub open spec fn top_up(hands: Seq<Set<Card>>, deck: Seq<Card>, s: int) -> (
    Seq<Set<Card>>,
    Seq<Card>,
) {
    let k = if hands[s].len() < PLAYERS_CARDS {
        taken(deck.len() as int, PLAYERS_CARDS - hands[s].len())
    } else {
        0
    };
    (
        hands.update(s, hands[s].union(deck.subrange(deck.len() - k, deck.len() as int).to_set())),
        deck.subrange(0, deck.len() - k),
    )
}

pub open spec fn top_up_all(hands: Seq<Set<Card>>, deck: Seq<Card>, seats: Seq<int>) -> (
    Seq<Set<Card>>,
    Seq<Card>,
)
    decreases seats.len(),
{
    if seats.len() == 0 {
        (hands, deck)
    } else {
        let (h, d) = top_up(hands, deck, seats[0]);
        top_up_all(h, d, seats.drop_first())
    }
}

/// Seat `s` draws one card, if the deck has one.
pub open spec fn bonus(hands: Seq<Set<Card>>, deck: Seq<Card>, s: int) -> (
    Seq<Set<Card>>,
    Seq<Card>,
) {
    if deck.len() > 0 {
        (hands.update(s, hands[s].insert(deck.last())), deck.drop_last())
    } else {
        (hands, deck)
    }
}

pub open spec fn bonus_all(hands: Seq<Set<Card>>, deck: Seq<Card>, seats: Seq<int>) -> (
    Seq<Set<Card>>,
    Seq<Card>,
)
    decreases seats.len(),
{
    if seats.len() == 0 {
        (hands, deck)
    } else {
        let (h, d) = bonus(hands, deck, seats[0]);
        bonus_all(h, d, seats.drop_first())
    }
}

/// The seats after `p` in the rotation, up to `p` excluded.
pub open spec fn others_of(v: GameView, p: int) -> Seq<int> {
    walk(v.next, v.next[p] as int, p, v.ids.len())
}

/// Seat `p` picks up the cards of the board's combination; then every seat,
/// from the one after `p` round to `p`, is topped up to five cards; then every
/// other seat draws one more card while the deck lasts; the board is cleared
/// and the turn passes on.
pub open spec fn get_comb(v: GameView, p: int, b: BoardView) -> GameView {
    let others = others_of(v, p);
    let h1 = v.hands.update(p, v.hands[p].union(b.comb_cards));
    let (h2, d2) = top_up_all(h1, v.deck, others.push(p));
    let (h3, d3) = bonus_all(h2, d2, others);
    GameView { hands: h3, deck: d3, board: None, stepping: v.next[p], ..v }
}

/// What a step of player `pid` returns, and the table after it.
pub open spec fn step_outcome(v: GameView, pid: PID, step: Step) -> (
    Result<(), StepError>,
    GameView,
) {
    match seat_of(v.ids, pid) {
        None => (Err(StepError::InvalidPID), v),
        Some(p) => if p != v.stepping {
            (Err(StepError::InvalidPID), v)
        } else {
            match v.board {
                None => match step {
                    Step::GetComb => (Err(StepError::InvalidStepType), v),
                    Step::TransComb(_) => (Err(StepError::InvalidStepType), v),
                    Step::GetCard => if v.deck.len() == 0 {
                        (Err(StepError::InvalidStepType), v)
                    } else {
                        (
                            Ok(()),
                            advance(
                                GameView {
                                    hands: v.hands.update(p, v.hands[p].insert(v.deck.last())),
                                    deck: v.deck.drop_last(),
                                    ..v
                                },
                            ),
                        )
                    },
                    Step::GiveComb(cards) => if !cards@.subset_of(v.hands[p]) {
                        (Err(StepError::InvalidCards), v)
                    } else {
                        match recognise(cards@) {
                            None => (Err(StepError::InvalidComb), v),
                            Some(rank) => (
                                Ok(()),
                                after_play(
                                    GameView {
                                        hands: v.hands.update(p, v.hands[p].difference(cards@)),
                                        board: Some(
                                            BoardView {
                                                cards: cards@,
                                                comb_cards: cards@,
                                                rank,
                                            },
                                        ),
                                        ..v
                                    },
                                    p,
                                ),
                            ),
                        }
                    },
                },
                Some(b) => match step {
                    Step::GetCard => (Err(StepError::InvalidStepType), v),
                    Step::GiveComb(_) => (Err(StepError::InvalidStepType), v),
                    Step::GetComb => (Ok(()), get_comb(v, p, b)),
                    Step::TransComb(cards) => {
                        let a = cards@.intersect(v.hands[p]).len();
                        if a == 0 {
                            (Err(StepError::InvalidCards), v)
                        } else if a + cards@.intersect(b.cards).len() < cards@.len() {
                            (Err(StepError::InvalidCards), v)
                        } else {
                            match recognise(cards@) {
                                None => (Err(StepError::InvalidComb), v),
                                Some(rank) => if !comb_lt(b.rank, rank) {
                                    (Err(StepError::WeakComb), v)
                                } else {
                                    (
                                        Ok(()),
                                        after_play(
                                            GameView {
                                                hands: v.hands.update(
                                                    p,
                                                    v.hands[p].difference(cards@),
                                                ),
                                                board: Some(
                                                    BoardView {
                                                        cards: b.cards.union(cards@),
                                                        comb_cards: cards@,
                                                        rank,
                                                    },
                                                ),
                                                ..v
                                            },
                                            p,
                                        ),
                                    )
                                },
                            }
                        }
                    },
                },
            }
        },
    }
}

/// The shape every table keeps: seat arrays of one length, links and marks
/// that point at seats, distinct ids, finite hands.
pub open spec fn valid(v: GameView) -> bool {
    let n = v.ids.len();
    &&& 2 <= n <= 9
    &&& v.hands.len() == n
    &&& v.next.len() == n
    &&& v.prev.len() == n
    &&& forall|i: int| 0 <= i < n ==> v.next[i] < n && v.prev[i] < n
    &&& v.stepping < n
    &&& v.winner matches Some(w) ==> w < n
    &&& v.ids.no_duplicates()
    &&& forall|i: int| 0 <= i < n ==> v.hands[i].finite()
    &&& v.board matches Some(b) ==> recognise(b.comb_cards) == Some(b.rank)
}

/// One table: seats, the rotation, the deck, the board and the winner.
#[derive(Debug)]
pub struct Game {
    players: Vec<Player>,
    players_prev: Vec<usize>,
    players_next: Vec<usize>,
    stepping_player: usize,
    winner: Option<usize>,
    deck: Deck,
    state: State,
}

impl View for Game {
    type V = GameView;

    closed spec fn view(&self) -> GameView {
        GameView {
            ids: self.players@.map_values(|pl: Player| pl.id),
            hands: self.players@.map_values(|pl: Player| pl.cards@),
            next: self.players_next@,
            prev: self.players_prev@,
            stepping: self.stepping_player,
            winner: self.winner,
            deck: self.deck@,
            board: self.state.board_view(),
        }
    }
}

impl Game {
    /// The shape of a table: `valid`, with well-formed hands and board.
    pub closed spec fn shaped(&self) -> bool {
        &&& valid(self@)
        &&& forall|i: int| 0 <= i < self.players@.len() ==> #[trigger] self.players@[i].cards.wf()
        &&& self.state.wf()
    }

    /// A well-formed table: shaped, its live seats a circle with the turn
    /// at a live seat while nobody has won, and every card in one place.
    pub closed spec fn wf(&self) -> bool {
        &&& self.shaped()
        &&& ring(self@)
        &&& turn_live(self@)
        &&& cards_apart(self@)
    }

    /// What a well-formed table guarantees of its model.
    pub proof fn lemma_wf_valid(&self)
        requires
            self.wf(),
        ensures
            self.shaped(),
            valid(self@),
            ring(self@),
            turn_live(self@),
            cards_apart(self@),
    {
    }

    pub(crate) fn seat(&self, pid: PID) -> (r: Option<usize>)
        requires
            self.shaped(),
        ensures
            opt_seat(r) == seat_of(self@.ids, pid),
            r matches Some(i) ==> i < self@.ids.len(),
    {
        let ghost ids = self@.ids;
        let mut i: usize = 0;
        while i < self.players.len()
            invariant
                0 <= i <= self.players@.len(),
                self.shaped(),
                ids == self@.ids,
                ids.len() == self.players@.len(),
                forall|j: int| 0 <= j < i ==> ids[j] != pid,
            decreases self.players.len() - i,
        {
            if self.players[i].id == pid {
                proof {
                    assert(ids[i as int] == pid);
                    let c = choose|j: int| 0 <= j < ids.len() && ids[j] == pid;
                    assert(ids.no_duplicates());
                    assert(c == i);
                }
                return Some(i);
            }
            i = i + 1;
        }
        None
    }

    fn next_player(&mut self)
        requires
            old(self).shaped(),
        ensures
            final(self).shaped(),
            final(self)@ == advance(old(self)@),
    {
        let player = self.stepping_player;
        self.stepping_player = self.players_next[player];
    }

    fn set_hand(&mut self, p: usize, cards: CardSet)
        requires
            old(self).shaped(),
            p < old(self)@.ids.len(),
            cards.wf(),
        ensures
            final(self).shaped(),
            final(self)@ == (GameView { hands: old(self)@.hands.update(p as int, cards@), ..old(self)@ }),
    {
        let id = self.players[p].id;
        let ghost cs = cards@;
        self.players.set(p, Player { id, cards });
        proof {
            crate::cardset::lemma_finite(&self.players@[p as int].cards);
            assert(self@.ids =~= old(self)@.ids);
            assert(self@.hands =~= old(self)@.hands.update(p as int, cs));
        }
    }

    fn kick_seat(&mut self, p: usize)
        requires
            old(self).shaped(),
            p < old(self)@.ids.len(),
        ensures
            final(self).shaped(),
            final(self)@ == kick(old(self)@, p as int),
    {
        if self.players_next[p] == p {
            return;
        }
        let a = self.players_prev[p];
        let b = self.players_next[p];
        if a == b && self.winner.is_none() {
            self.winner = Some(b);
        }
        self.players_next.set(a, b);
        self.players_prev.set(b, a);
        self.players_next.set(p, p);
        if self.stepping_player == p {
            self.stepping_player = b;
        }
    }

    fn win_player(&mut self, p: usize)
        requires
            old(self).shaped(),
            p < old(self)@.ids.len(),
        ensures
            final(self).shaped(),
            final(self)@ == kick(
                GameView {
                    winner: if old(self)@.winner is None {
                        Some(p)
                    } else {
                        old(self)@.winner
                    },
                    ..old(self)@
                },
                p as int,
            ),
    {
        if self.winner.is_none() {
            self.winner = Some(p);
        }
        self.kick_seat(p);
    }

    /// Removes player `pid` from the rotation (see `kick`); an unknown id
    /// changes nothing.
    pub fn kick_player(&mut self, pid: PID)
        requires
            old(self).wf(),
        ensures
            final(self).wf(),
            seat_of(old(self)@.ids, pid) matches Some(p) ==> final(self)@ == kick(old(self)@, p),
            seat_of(old(self)@.ids, pid) is None ==> final(self)@ == old(self)@,
    {
        if let Some(p) = self.seat(pid) {
            self.kick_seat(p);
            proof {
                crate::laws::lemma_kick_keeps_ring(old(self)@, p as int);
            }
        }
    }

    /// The id of the player whose turn it is.
    pub fn get_stepping_player(&self) -> (r: PID)
        requires
            self.wf(),
        ensures
            r == self@.ids[self@.stepping as int],
    {
        self.players[self.stepping_player].id
    }

    /// The hand of player `pid`; empty for an unknown id.
    pub fn get_player_cards(&self, pid: PID) -> (r: CardSet)
        requires
            self.wf(),
        ensures
            r.wf(),
            seat_of(self@.ids, pid) matches Some(p) ==> r@ == self@.hands[p],
            seat_of(self@.ids, pid) is None ==> r@ == Set::<Card>::empty(),
    {
        match self.seat(pid) {
            Some(p) => self.players[p].cards.clone_set(),
            None => CardSet::new(),
        }
    }

    pub fn get_deck_size(&self) -> (r: usize)
        ensures
            r == self@.deck.len(),
    {
        self.deck.size()
    }

    /// Is player `pid` out of the rotation?  An unknown id is.
    pub fn is_player_kicked(&self, pid: PID) -> (r: bool)
        requires
            self.wf(),
        ensures
            seat_of(self@.ids, pid) matches Some(p) ==> r == kicked(self@, p),
            seat_of(self@.ids, pid) is None ==> r,
    {
        match self.seat(pid) {
            Some(p) => self.players_next[p] == p,
            None => true,
        }
    }

    /// The id of the winner, once there is one.
    pub fn game_winner(&self) -> (r: Option<PID>)
        requires
            self.wf(),
        ensures
            self@.winner matches Some(w) ==> r == Some(self@.ids[w as int]),
            self@.winner is None ==> r is None,
    {
        match self.winner {
            None => None,
            Some(winner) => Some(self.players[winner].id),
        }
    }

    /// A copy of the board state.
    pub fn get_state_cards(&self) -> (r: State)
        requires
            self.wf(),
        ensures
            r.wf(),
            r.board_view() == self@.board,
    {
        self.state.clone_state()
    }

    /// The hand sizes of the other seats in the rotation, starting with the
    /// seat after the stepping one.
    pub fn players_decks(&self) -> (r: Vec<usize>)
        requires
            self.wf(),
        ensures
            r@.len() == others_of(self@, self@.stepping as int).len(),
            forall|i: int|
                0 <= i < r@.len() ==> r@[i] == self@.hands[others_of(self@, self@.stepping as int)[i]].len(),
    {
        let seats = self.others(self.stepping_player);
        assert(self@.ids.len() == self.players@.len());
        let ghost order = others_of(self@, self@.stepping as int);
        let mut r: Vec<usize> = Vec::new();
        let mut i: usize = 0;
        while i < seats.len()
            invariant
                0 <= i <= seats@.len(),
                self.shaped(),
                seats@.len() == order.len(),
                self@.ids.len() == self.players@.len(),
                forall|j: int| 0 <= j < seats@.len() ==> seats@[j] as int == order[j],
                forall|j: int| 0 <= j < seats@.len() ==> seats@[j] < self@.ids.len(),
                r@.len() == i,
                forall|j: int| 0 <= j < i ==> r@[j] == self@.hands[order[j]].len(),
            decreases seats@.len() - i,
        {
            let k = seats[i];
            let c = self.players[k].cards.len();
            assert(self@.hands[k as int] == self.players@[k as int].cards@);
            r.push(c);
            i = i + 1;
        }
        r
    }
}

impl Game {
    fn after_play(&mut self, p: usize)
        requires
            old(self).shaped(),
            p < old(self)@.ids.len(),
        ensures
            final(self).shaped(),
            final(self)@ == after_play(old(self)@, p as int),
    {
        assert(self@.hands[p as int] == self.players@[p as int].cards@);
        if self.deck.size() == 0 && self.players[p].cards.is_empty() {
            self.win_player(p);
        } else {
            self.next_player();
        }
    }

    /// The seats after `p` in the rotation, up to `p` itself excluded.
    fn others(&self, p: usize) -> (r: Vec<usize>)
        requires
            self.shaped(),
            p < self@.ids.len(),
        ensures
            r@.len() == others_of(self@, p as int).len(),
            forall|i: int| 0 <= i < r@.len() ==> r@[i] as int == others_of(self@, p as int)[i],
            forall|i: int| 0 <= i < r@.len() ==> r@[i] < self@.ids.len(),
    {
        let ghost w = others_of(self@, p as int);
        let n = self.players.len();
        let mut r: Vec<usize> = Vec::new();
        let mut cur = self.players_next[p];
        let mut fuel: usize = n;
        let ghost done: Seq<int> = Seq::empty();
        while fuel > 0 && cur != p
            invariant
                self.shaped(),
                n == self@.ids.len(),
                cur < n,
                r@.len() == done.len(),
                forall|i: int| 0 <= i < r@.len() ==> r@[i] as int == done[i],
                forall|i: int| 0 <= i < r@.len() ==> r@[i] < n,
                done + walk(self@.next, cur as int, p as int, fuel as nat) == w,
            decreases fuel,
        {
            proof {
                let rest = walk(self@.next, self@.next[cur as int] as int, p as int, (fuel - 1) as nat);
                assert(walk(self@.next, cur as int, p as int, fuel as nat) == seq![cur as int] + rest);
                assert(done.push(cur as int) + rest =~= done + (seq![cur as int] + rest));
                done = done.push(cur as int);
            }
            r.push(cur);
            cur = self.players_next[cur];
            fuel = fuel - 1;
        }
        assert(walk(self@.next, cur as int, p as int, fuel as nat) =~= Seq::<int>::empty());
        assert(done =~= w);

        r
    }

    /// Seat `s` draws up to five cards.
    fn top_up_seat(&mut self, s: usize)
        requires
            old(self).shaped(),
            s < old(self)@.ids.len(),
        ensures
            final(self).shaped(),
            (final(self)@.hands, final(self)@.deck) == top_up(old(self)@.hands, old(self)@.deck, s as int),
            final(self)@ == (GameView { hands: final(self)@.hands, deck: final(self)@.deck, ..old(self)@ }),
    {
        assert(self@.hands[s as int] == self.players@[s as int].cards@);
        let ghost h0 = self@.hands;
        let ghost d0 = self@.deck;
        let number_of_cards = self.players[s].cards.len();
        if number_of_cards < PLAYERS_CARDS {
            let drawn = self.deck.get_cards(PLAYERS_CARDS - number_of_cards);
            assert(self@.ids =~= old(self)@.ids);
            assert(self@.hands =~= old(self)@.hands);
            let hand = self.players[s].cards.union(&drawn);
            self.set_hand(s, hand);
            assert(top_up(h0, d0, s as int).0 == self@.hands);
        } else {
            assert(d0.subrange(d0.len() - 0, d0.len() as int) =~= Seq::<Card>::empty());
            assert(h0[s as int].union(Seq::<Card>::empty().to_set()) =~= h0[s as int]);
            assert(h0.update(s as int, h0[s as int]) =~= h0);
            assert(d0.subrange(0, d0.len() - 0) =~= d0);
        }
    }

    /// Every seat of `seats`, in turn, draws up to five cards.
    fn get_cards_for_players(&mut self, seats: &Vec<usize>, Ghost(order): Ghost<Seq<int>>)
        requires
            old(self).shaped(),
            seats@.len() == order.len(),
            forall|i: int| 0 <= i < order.len() ==> seats@[i] == order[i] && order[i] < old(self)@.ids.len(),
        ensures
            final(self).shaped(),
            (final(self)@.hands, final(self)@.deck) == top_up_all(old(self)@.hands, old(self)@.deck, order),
            final(self)@ == (GameView { hands: final(self)@.hands, deck: final(self)@.deck, ..old(self)@ }),
    {
        let mut i: usize = 0;
        assert(order.skip(0) =~= order);
        while i < seats.len()
            invariant
                0 <= i <= seats@.len(),
                self.shaped(),
                seats@.len() == order.len(),
                forall|j: int| 0 <= j < order.len() ==> seats@[j] == order[j] && order[j] < self@.ids.len(),
                top_up_all(self@.hands, self@.deck, order.skip(i as int)) == top_up_all(old(self)@.hands, old(self)@.deck, order),
                self@ == (GameView { hands: self@.hands, deck: self@.deck, ..old(self)@ }),
            decreases seats@.len() - i,
        {
            assert(order.skip(i as int).drop_first() =~= order.skip(i + 1));
            assert(order.skip(i as int)[0] == order[i as int]);
            self.top_up_seat(seats[i]);
            i = i + 1;
        }
        assert(order.skip(i as int) =~= Seq::<int>::empty());
    }

    /// Seat `s` draws one card, if the deck has one.
    fn bonus_seat(&mut self, s: usize)
        requires
            old(self).shaped(),
            s < old(self)@.ids.len(),
        ensures
            final(self).shaped(),
            (final(self)@.hands, final(self)@.deck) == bonus(old(self)@.hands, old(self)@.deck, s as int),
            final(self)@ == (GameView { hands: final(self)@.hands, deck: final(self)@.deck, ..old(self)@ }),
    {
        assert(self@.hands[s as int] == self.players@[s as int].cards@);
        if let Some(card) = self.deck.get_card() {
            assert(self@.ids =~= old(self)@.ids);
            assert(self@.hands =~= old(self)@.hands);
            let mut hand = self.players[s].cards.clone_set();
            hand.insert(card);
            self.set_hand(s, hand);
        }
    }

    /// Every seat of `seats`, in turn, draws one card while the deck lasts.
    fn cards_for_winners(&mut self, seats: &Vec<usize>, Ghost(order): Ghost<Seq<int>>)
        requires
            old(self).shaped(),
            seats@.len() == order.len(),
            forall|i: int| 0 <= i < order.len() ==> seats@[i] == order[i] && order[i] < old(self)@.ids.len(),
        ensures
            final(self).shaped(),
            (final(self)@.hands, final(self)@.deck) == bonus_all(old(self)@.hands, old(self)@.deck, order),
            final(self)@ == (GameView { hands: final(self)@.hands, deck: final(self)@.deck, ..old(self)@ }),
    {
        let mut i: usize = 0;
        assert(order.skip(0) =~= order);
        while i < seats.len()
            invariant
                0 <= i <= seats@.len(),
                self.shaped(),
                seats@.len() == order.len(),
                forall|j: int| 0 <= j < order.len() ==> seats@[j] == order[j] && order[j] < self@.ids.len(),
                bonus_all(self@.hands, self@.deck, order.skip(i as int)) == bonus_all(old(self)@.hands, old(self)@.deck, order),
                self@ == (GameView { hands: self@.hands, deck: self@.deck, ..old(self)@ }),
            decreases seats@.len() - i,
        {
            assert(order.skip(i as int).drop_first() =~= order.skip(i + 1));
            assert(order.skip(i as int)[0] == order[i as int]);
            self.bonus_seat(seats[i]);
            i = i + 1;
        }
        assert(order.skip(i as int) =~= Seq::<int>::empty());
    }
}

impl Game {
    /// Applies a step of player `pid`: the result and the new table are
    /// those of `step_outcome`; on an error the table is unchanged.
    pub fn make_step(&mut self, pid: PID, step: Step) -> (r: Result<(), StepError>)
        requires
            old(self).wf(),
            step.wf(),
        ensures
            final(self).wf(),
            (r, final(self)@) == step_outcome(old(self)@, pid, step),
    {
        let ghost st = step;
        let r = self.apply_step(pid, step);
        proof {
            crate::laws::lemma_step_keeps_ring(old(self)@, pid, st);
            crate::laws::lemma_step_conserves_cards(old(self)@, pid, st);
        }
        r
    }

    fn apply_step(&mut self, pid: PID, step: Step) -> (r: Result<(), StepError>)
        requires
            old(self).shaped(),
            step.wf(),
        ensures
            final(self).shaped(),
            (r, final(self)@) == step_outcome(old(self)@, pid, step),
    {
        let player = match self.seat(pid) {
            Some(p) => p,
            None => return Err(StepError::InvalidPID),
        };
        if player != self.stepping_player {
            return Err(StepError::InvalidPID);
        }
        assert(self@.hands[player as int] == self.players@[player as int].cards@);
        match self.state.clone_state() {
            State::Passive => match step {
                Step::GetComb => Err(StepError::InvalidStepType),
                Step::TransComb(_) => Err(StepError::InvalidStepType),
                Step::GetCard => {
                    if self.deck.size() > 0 {
                        let card = self.deck.get_card().unwrap();
                        assert(self@.ids =~= old(self)@.ids);
                        assert(self@.hands =~= old(self)@.hands);
                        let mut hand = self.players[player].cards.clone_set();
                        hand.insert(card);
                        self.set_hand(player, hand);
                        self.next_player();
                        Ok(())
                    } else {
                        Err(StepError::InvalidStepType)
                    }
                },
                Step::GiveComb(cards) => {
                    if cards.is_subset(&self.players[player].cards) {
                        match Comb::new(cards.clone_set()) {
                            Some(comb) => {
                                let rest = self.players[player].cards.difference(&cards);
                                self.set_hand(player, rest);
                                self.state = State::Active(Board { cards, comb });
                                self.after_play(player);
                                Ok(())
                            },
                            None => Err(StepError::InvalidComb),
                        }
                    } else {
                        Err(StepError::InvalidCards)
                    }
                },
            },
            State::Active(board) => match step {
                Step::GetCard => Err(StepError::InvalidStepType),
                Step::GiveComb(_) => Err(StepError::InvalidStepType),
                Step::TransComb(cards) => {
                    let a = cards.intersection(&self.players[player].cards).len();
                    if a == 0 {
                        return Err(StepError::InvalidCards);
                    }
                    let on_board = cards.intersection(&board.cards).len();
                    let need = cards.len();
                    if a < need && on_board < need - a {
                        return Err(StepError::InvalidCards);
                    }
                    match Comb::new(cards.clone_set()) {
                        None => Err(StepError::InvalidComb),
                        Some(new_comb) => {
                            if new_comb.beats(&board.comb) {
                                let rest = self.players[player].cards.difference(&cards);
                                self.set_hand(player, rest);
                                let new_board = Board { cards: board.cards.union(&cards), comb: new_comb };
                                self.state = State::Active(new_board);
                                self.after_play(player);
                                Ok(())
                            } else {
                                Err(StepError::WeakComb)
                            }
                        },
                    }
                },
                Step::GetComb => {
                    let hand = self.players[player].cards.union(board.comb.cards());
                    self.set_hand(player, hand);
                    let others = self.others(player);
                    let ghost order = others_of(self@, player as int);
                    let ghost all = order.push(player as int);
                    let seats = followed_by(&others, player);
                    proof {
                        assert(all.len() == seats@.len());
                        assert forall|i: int| 0 <= i < all.len() implies seats@[i] == all[i] && all[i] < self@.ids.len() by {
                            if i < order.len() {
                                assert(seats@[i] == others@[i]);
                                assert(all[i] == order[i]);
                            } else {
                                assert(i == order.len());
                                assert(seats@[i] == player);
                                assert(all[i] == player as int);
                            }
                        }
                    }
                    self.get_cards_for_players(&seats, Ghost(all));
                    self.cards_for_winners(&others, Ghost(order));
                    self.state = State::Passive;
                    self.stepping_player = self.players_next[player];
                    Ok(())
                },
            },
        }
    }
}

/// The rank positions of the cards of `h` at positions `<= upto`, in
/// ascending order, each as often as it occurs.
pub open spec fn asc_ranks(h: Set<Card>, upto: int) -> Seq<int>
    decreases upto + 1,
{
    if upto < 0 {
        Seq::empty()
    } else {
        asc_ranks(h, upto - 1) + Seq::new(crate::comb::rank_count(h, upto) as nat, |k: int| upto)
    }
}

/// The sorted ranks of a hand, lowest first.
pub open spec fn hand_key(h: Set<Card>) -> Seq<int> {
    asc_ranks(h, 12)
}

/// Lexicographic `a < b`, a proper prefix being smaller.
pub open spec fn seq_less(a: Seq<int>, b: Seq<int>) -> bool
    decreases a.len(),
{
    if a.len() == 0 {
        b.len() > 0
    } else if b.len() == 0 {
        false
    } else if a[0] != b[0] {
        a[0] < b[0]
    } else {
        seq_less(a.drop_first(), b.drop_first())
    }
}

/// Seat `m` holds the smallest sorted hand, and no earlier seat holds an
/// equal one.
pub open spec fn first_min(hands: Seq<Set<Card>>, m: int) -> bool {
    &&& 0 <= m < hands.len()
    &&& forall|j: int| 0 <= j < hands.len() ==> !seq_less(hand_key(hands[j]), hand_key(hands[m]))
    &&& forall|j: int| 0 <= j < m ==> hand_key(hands[j]) != hand_key(hands[m])
}

/// The cards dealt to seat `i` from deck `d`, five per seat from the top.
pub open spec fn dealt(d: Seq<Card>, i: int) -> Set<Card> {
    d.subrange(
        d.len() - taken(d.len() as int, PLAYERS_CARDS * (i + 1)),
        d.len() - taken(d.len() as int, PLAYERS_CARDS * i),
    ).to_set()
}

proof fn lemma_seq_less_transitive(a: Seq<int>, b: Seq<int>, c: Seq<int>)
    ensures
        seq_less(a, b) && seq_less(b, c) ==> seq_less(a, c),
    decreases a.len(),
{
    if a.len() > 0 && b.len() > 0 && c.len() > 0 {
        lemma_seq_less_transitive(a.drop_first(), b.drop_first(), c.drop_first());
    }
}

proof fn lemma_seq_less_irreflexive(a: Seq<int>)
    ensures
        !seq_less(a, a),
    decreases a.len(),
{
    if a.len() > 0 {
        lemma_seq_less_irreflexive(a.drop_first());
    }
}

fn sorted_ranks(cards: &CardSet) -> (r: Vec<usize>)
    ensures
        r@.len() == hand_key(cards@).len(),
        forall|i: int| 0 <= i < r@.len() ==> r@[i] as int == hand_key(cards@)[i],
{
    let mut v: Vec<usize> = Vec::new();
    let ghost g: Seq<int> = Seq::empty();
    let mut rank: usize = 0;
    while rank < 13
        invariant
            0 <= rank <= 13,
            g == asc_ranks(cards@, rank - 1),
            v@.len() == g.len(),
            forall|i: int| 0 <= i < v@.len() ==> v@[i] as int == g[i],
        decreases 13 - rank,
    {
        let count = Comb::count_rank(cards, rank);
        let mut k: usize = 0;
        let ghost g0 = g;
        while k < count
            invariant
                0 <= k <= count,
                rank < 13,
                count == crate::comb::rank_count(cards@, rank as int),
                g == g0 + Seq::new(k as nat, |j: int| rank as int),
                v@.len() == g.len(),
                forall|i: int| 0 <= i < v@.len() ==> v@[i] as int == g[i],
            decreases count - k,
        {
            v.push(rank);
            proof {
                g = g.push(rank as int);
                assert(g =~= g0 + Seq::new((k + 1) as nat, |j: int| rank as int));
            }
            k = k + 1;
        }
        rank = rank + 1;
    }
    v
}

/// `seq_less` on two sorted hands.
fn key_less(a: &Vec<usize>, b: &Vec<usize>, Ghost(ka): Ghost<Seq<int>>, Ghost(kb): Ghost<Seq<int>>) -> (r: bool)
    requires
        a@.len() == ka.len(),
        b@.len() == kb.len(),
        forall|i: int| 0 <= i < a@.len() ==> a@[i] as int == ka[i],
        forall|i: int| 0 <= i < b@.len() ==> b@[i] as int == kb[i],
    ensures
        r == seq_less(ka, kb),
{
    let mut i: usize = 0;
    assert(ka.skip(0) =~= ka);
    assert(kb.skip(0) =~= kb);
    while i < a.len() && i < b.len()
        invariant
            0 <= i <= a@.len(),
            i <= b@.len(),
            a@.len() == ka.len(),
            b@.len() == kb.len(),
            forall|j: int| 0 <= j < a@.len() ==> a@[j] as int == ka[j],
            forall|j: int| 0 <= j < b@.len() ==> b@[j] as int == kb[j],
            seq_less(ka, kb) == seq_less(ka.skip(i as int), kb.skip(i as int)),
        decreases a@.len() - i,
    {
        assert(ka.skip(i as int)[0] == ka[i as int]);
        assert(kb.skip(i as int)[0] == kb[i as int]);
        if a[i] != b[i] {
            return a[i] < b[i];
        }
        assert(ka.skip(i as int).drop_first() =~= ka.skip(i + 1));
        assert(kb.skip(i as int).drop_first() =~= kb.skip(i + 1));
        i = i + 1;
    }
    i < b.len()
}

impl Game {
    /// The seat with the smallest sorted hand, the earliest on a tie.
    fn player_min(players: &Vec<Player>) -> (r: usize)
        requires
            players@.len() >= 1,
        ensures
            first_min(players@.map_values(|pl: Player| pl.cards@), r as int),
    {
        let ghost hands = players@.map_values(|pl: Player| pl.cards@);
        let mut best: usize = 0;
        let mut best_key = sorted_ranks(&players[0].cards);
        let mut j: usize = 1;
        proof {
            lemma_seq_less_irreflexive(hand_key(hands[0]));
        }
        while j < players.len()
            invariant
                1 <= j <= players@.len(),
                best < j,
                hands == players@.map_values(|pl: Player| pl.cards@),
                best_key@.len() == hand_key(hands[best as int]).len(),
                forall|i: int| 0 <= i < best_key@.len() ==> best_key@[i] as int == hand_key(hands[best as int])[i],
                forall|k: int| 0 <= k < j ==> !seq_less(hand_key(hands[k]), hand_key(hands[best as int])),
                forall|k: int| 0 <= k < best ==> hand_key(hands[k]) != hand_key(hands[best as int]),
            decreases players@.len() - j,
        {
            let key = sorted_ranks(&players[j].cards);
            assert(hands[j as int] == players@[j as int].cards@);
            if key_less(&key, &best_key, Ghost(hand_key(hands[j as int])), Ghost(hand_key(hands[best as int]))) {
                proof {
                    let kj = hand_key(hands[j as int]);
                    let kb = hand_key(hands[best as int]);
                    assert forall|k: int| 0 <= k < j implies !seq_less(hand_key(hands[k]), kj) by {
                        lemma_seq_less_transitive(hand_key(hands[k]), kj, kb);
                    }
                    assert forall|k: int| 0 <= k < j implies hand_key(hands[k]) != kj by {
                        if hand_key(hands[k]) == kj {
                            assert(seq_less(hand_key(hands[k]), kb));
                        }
                    }
                    lemma_seq_less_irreflexive(kj);
                }
                best = j;
                best_key = key;
            }
            j = j + 1;
        }
        best
    }

    /// Seats the players in the order of `seating`, links them in a circle
    /// in that order, deals five cards to each seat from the top of `deck`
    /// and gives the turn to the seat with the smallest sorted hand.
    pub fn with_seating(seating: Vec<PID>, deck: Deck) -> (r: Game)
        requires
            2 <= seating@.len() <= 9,
            seating@.no_duplicates(),
            deck@.no_duplicates(),
        ensures
            r.wf(),
            r@.ids == seating@,
            forall|i: int| 0 <= i < seating@.len() ==> r@.hands[i] == dealt(deck@, i),
            forall|i: int|
                0 <= i < seating@.len() ==> r@.next[i] == (i + 1) % (seating@.len() as int)
                    && r@.prev[i] == (i + seating@.len() - 1) % (seating@.len() as int),
            r@.deck == deck@.subrange(0, deck@.len() - taken(deck@.len() as int, PLAYERS_CARDS * seating@.len())),
            r@.board is None,
            r@.winner is None,
            first_min(r@.hands, r@.stepping as int),
            ring(r@),
            turn_live(r@),
            deck@.no_duplicates() ==> cards_apart(r@) && forall|c: Card| in_play(r@, c) <==> deck@.contains(c),
            deck@.no_duplicates() && deck@.len() >= PLAYERS_CARDS * seating@.len() ==> forall|i: int|
                0 <= i < seating@.len() ==> #[trigger] r@.hands[i].len() == PLAYERS_CARDS,
    {
        let n = seating.len();
        let mut deck = deck;
        let ghost d = deck@;
        let mut players: Vec<Player> = Vec::new();
        let mut players_next: Vec<usize> = Vec::new();
        let mut players_prev: Vec<usize> = Vec::new();
        let mut i: usize = 0;
        while i < n
            invariant
                0 <= i <= n,
                n == seating@.len(),
                2 <= n <= 9,
                players@.len() == i,
                players_next@.len() == i,
                players_prev@.len() == i,
                forall|k: int| 0 <= k < i ==> (#[trigger] players@[k]).id == seating@[k] && players@[k].cards.wf()
                    && players@[k].cards@ == dealt(d, k),
                forall|k: int| 0 <= k < i ==> players_next@[k] == (k + 1) % (n as int) && players_prev@[k] == (k + n - 1) % (n as int),
                deck@ == d.subrange(0, d.len() - taken(d.len() as int, PLAYERS_CARDS * i)),
            decreases n - i,
        {
            let cards = deck.get_cards(PLAYERS_CARDS);
            proof {
                let l = d.len() as int;
                let t0 = taken(l, PLAYERS_CARDS * i);
                let t1 = taken(l, PLAYERS_CARDS * (i + 1));
                let m = l - t0;
                assert(taken(m, PLAYERS_CARDS as int) == t1 - t0);
                assert(d.subrange(0, l - t0).subrange(m - (t1 - t0), m) =~= d.subrange(l - t1, l - t0));
                assert(d.subrange(0, l - t0).subrange(0, m - (t1 - t0)) =~= d.subrange(0, l - t1));
            }
            players.push(Player { id: seating[i], cards });
            players_next.push((i + 1) % n);
            players_prev.push((i + n - 1) % n);
            i = i + 1;
        }
        let stepping_player = Game::player_min(&players);
        let g = Game {
            players,
            players_prev,
            players_next,
            stepping_player,
            winner: None,
            deck,
            state: State::Passive,
        };
        proof {
            assert(g@.ids =~= seating@);
            assert forall|k: int| 0 <= k < n implies g@.hands[k].finite() by {
                crate::cardset::lemma_finite(&g.players@[k].cards);
            }
            assert forall|k: int| 0 <= k < n implies !kicked(g@, k) by {
                lemma_circle(k, n as int);
            }
            assert forall|k: int| 0 <= k < n && !kicked(g@, k) implies {
                &&& !kicked(g@, g@.next[k] as int)
                &&& !kicked(g@, g@.prev[k] as int)
                &&& g@.prev[g@.next[k] as int] == k
                &&& g@.next[g@.prev[k] as int] == k
            } by {
                lemma_circle(k, n as int);
                lemma_circle((k + 1) % (n as int), n as int);
                lemma_circle((k + n - 1) % (n as int), n as int);
            }
            if d.no_duplicates() {
                lemma_dealt_apart(d, n as int);
                assert(g@.hands =~= Seq::new(n as nat, |i: int| dealt(d, i)));
                if d.len() >= PLAYERS_CARDS * n {
                    assert forall|i: int| 0 <= i < n implies #[trigger] g@.hands[i].len() == PLAYERS_CARDS by {
                        let q = d.subrange(d.len() - PLAYERS_CARDS * (i + 1), d.len() - PLAYERS_CARDS * i);
                        assert(q.no_duplicates()) by {
                            assert forall|x: int, y: int| 0 <= x < q.len() && 0 <= y < q.len() && x != y implies q[x] != q[y] by {
                                assert(q[x] == d[d.len() - PLAYERS_CARDS * (i + 1) + x]);
                                assert(q[y] == d[d.len() - PLAYERS_CARDS * (i + 1) + y]);
                            }
                        }
                        q.unique_seq_to_set();
                        assert(g@.hands[i] == q.to_set());
                    }
                }
            }
        }
        g
    }

    /// A new table for the given players, seated in random order over a
    /// shuffled deck; there is none for fewer than two players or for more
    /// than fit the deal (`52 / 5 - 1 = 9`).
    pub fn new(players_ids: Vec<PID>) -> (r: Option<Game>)
        requires
            players_ids@.no_duplicates(),
        ensures
            r is Some <==> 2 <= players_ids@.len() <= 9,
            r matches Some(g) ==> {
                &&& g.wf()
                &&& ring(g@)
                &&& turn_live(g@)
                &&& cards_apart(g@)
                &&& forall|c: Card| in_play(g@, c)
                &&& forall|i: int| 0 <= i < players_ids@.len() ==> #[trigger] g@.hands[i].len() == PLAYERS_CARDS
                &&& forall|i: int| 0 <= i < players_ids@.len() ==> !#[trigger] kicked(g@, i)
                &&& forall|i: int|
                    0 <= i < players_ids@.len() ==> #[trigger] g@.next[i] == (i + 1) % (players_ids@.len() as int)
                        && g@.prev[i] == (i + players_ids@.len() - 1) % (players_ids@.len() as int)
                &&& g@.ids.to_multiset() == players_ids@.to_multiset()
                &&& g@.deck.len() == 52 - 5 * players_ids@.len()
                &&& g@.board is None
                &&& g@.winner is None
                &&& first_min(g@.hands, g@.stepping as int)
            },
    {
        let n = players_ids.len();
        if n < 2 || n >= crate::card::NUMBER_OF_CARDS / PLAYERS_CARDS {
            return None;
        }
        let mut seating = players_ids;
        shuffle_ids(&mut seating);
        proof {
            seating@.to_multiset_ensures();
            players_ids@.to_multiset_ensures();
            players_ids@.lemma_multiset_has_no_duplicates();
            seating@.lemma_multiset_has_no_duplicates_conv();
        }
        let deck = Deck::new();
        let ghost dv = deck@;
        let g = Game::with_seating(seating, deck);
        proof {
            assert forall|i: int| 0 <= i < players_ids@.len() implies !#[trigger] kicked(g@, i) by {
                lemma_circle(i, players_ids@.len() as int);
            }
            assert forall|c: Card| in_play(g@, c) by {
                assert(dv.contains(c));
            }
        }
        Some(g)
    }
}

impl Game {
    /// The number of seats.
    pub fn players_count(&self) -> (r: usize)
        ensures
            r == self@.ids.len(),
    {
        self.players.len()
    }

    /// The id of the player at seat `i`.
    pub fn id_at(&self, i: usize) -> (r: PID)
        requires
            i < self@.ids.len(),
        ensures
            r == self@.ids[i as int],
    {
        self.players[i].id
    }
}

/// The seats of `seats`, then `p`.
fn followed_by(seats: &Vec<usize>, p: usize) -> (r: Vec<usize>)
    ensures
        r@ == seats@.push(p),
{
    let mut r: Vec<usize> = Vec::new();
    let mut i: usize = 0;
    while i < seats.len()
        invariant
            0 <= i <= seats@.len(),
            r@ == seats@.subrange(0, i as int),
        decreases seats@.len() - i,
    {
        r.push(seats[i]);
        assert(r@ =~= seats@.subrange(0, i + 1));
        i = i + 1;
    }
    r.push(p);
    assert(r@ =~= seats@.push(p));
    r
}

pub open spec fn opt_seat(r: Option<usize>) -> Option<int> {
    match r {
        Some(i) => Some(i as int),
        None => None,
    }
}

pub(crate) proof fn lemma_walk_in_range(next: Seq<usize>, from: int, to: int, fuel: nat)
    requires
        0 <= from < next.len(),
        forall|i: int| 0 <= i < next.len() ==> next[i] < next.len(),
    ensures
        forall|k: int| 0 <= k < walk(next, from, to, fuel).len() ==> 0 <= #[trigger] walk(next, from, to, fuel)[k] < next.len(),
    decreases fuel,
{
    if fuel > 0 && from != to {
        lemma_walk_in_range(next, next[from] as int, to, (fuel - 1) as nat);
        let w = walk(next, from, to, fuel);
        let rest = walk(next, next[from] as int, to, (fuel - 1) as nat);
        assert forall|k: int| 0 <= k < w.len() implies 0 <= #[trigger] w[k] < next.len() by {
            if k > 0 {
                assert(w[k] == rest[k - 1]);
            }
        }
    }
}

/// The live seats form a circle: the neighbours of a live seat are live
/// and point back to it.
pub open spec fn ring(v: GameView) -> bool {
    forall|i: int|
        #![trigger v.next[i]]
        0 <= i < v.ids.len() && !kicked(v, i) ==> {
            &&& !kicked(v, v.next[i] as int)
            &&& !kicked(v, v.prev[i] as int)
            &&& v.prev[v.next[i] as int] == i
            &&& v.next[v.prev[i] as int] == i
        }
}

/// While nobody has won, the turn is at a live seat.
pub open spec fn turn_live(v: GameView) -> bool {
    v.winner is None ==> !kicked(v, v.stepping as int)
}

proof fn lemma_circle(k: int, n: int)
    requires
        2 <= n <= 9,
        0 <= k < n,
    ensures
        (k + 1) % n != k,
        0 <= (k + 1) % n < n,
        0 <= (k + n - 1) % n < n,
        ((k + 1) % n + n - 1) % n == k,
        ((k + n - 1) % n + 1) % n == k,
{
    vstd::arithmetic::div_mod::lemma_small_mod(k as nat, n as nat);
    vstd::arithmetic::div_mod::lemma_small_mod((n - 1) as nat, n as nat);
    vstd::arithmetic::div_mod::lemma_mod_self_0(n);
    vstd::arithmetic::div_mod::lemma_mod_add_multiples_vanish(k, n);
    assert((k + n) % n == k);
    if k + 1 < n {
        vstd::arithmetic::div_mod::lemma_small_mod((k + 1) as nat, n as nat);
    }
    if k > 0 {
        vstd::arithmetic::div_mod::lemma_small_mod((k - 1) as nat, n as nat);
        vstd::arithmetic::div_mod::lemma_mod_add_multiples_vanish(k - 1, n);
        assert((k + n - 1) % n == k - 1);
    }
}

/// The cards on the board, none when it is empty.
pub open spec fn board_cards(v: GameView) -> Set<Card> {
    match v.board {
        Some(b) => b.cards,
        None => Set::empty(),
    }
}

/// No card is in two places: the hands are pairwise apart and apart from
/// the deck and the board, the deck holds no card twice, and no deck card
/// is on the board.
pub open spec fn apart(hands: Seq<Set<Card>>, deck: Seq<Card>, board: Set<Card>) -> bool {
    &&& forall|i: int, j: int, c: Card|
        0 <= i < hands.len() && 0 <= j < hands.len() && i != j && #[trigger] hands[i].contains(c)
            ==> !#[trigger] hands[j].contains(c)
    &&& forall|i: int, c: Card|
        0 <= i < hands.len() && #[trigger] hands[i].contains(c) ==> !deck.contains(c)
            && !board.contains(c)
    &&& deck.no_duplicates()
    &&& forall|c: Card| #[trigger] deck.contains(c) ==> !board.contains(c)
}

/// Some hand holds `c`.
pub open spec fn held(hands: Seq<Set<Card>>, c: Card) -> bool {
    exists|i: int| 0 <= i < hands.len() && #[trigger] hands[i].contains(c)
}

/// Card `c` is in a hand, in the deck or on the board.
pub open spec fn in_play(v: GameView, c: Card) -> bool {
    held(v.hands, c) || v.deck.contains(c) || board_cards(v).contains(c)
}

/// The cards a step takes out of play: on a successful pick-up, the board's
/// cards outside its combination; otherwise none.
pub open spec fn discarded(v: GameView, pid: PID, step: Step) -> Set<Card> {
    match (v.board, step) {
        (Some(b), Step::GetComb) => if step_outcome(v, pid, step).0 is Ok {
            b.cards.difference(b.comb_cards)
        } else {
            Set::empty()
        },
        _ => Set::empty(),
    }
}

/// The cards of a table are apart, and the board's combination is among
/// the board's cards.
pub open spec fn cards_apart(v: GameView) -> bool {
    &&& apart(v.hands, v.deck, board_cards(v))
    &&& v.board matches Some(b) ==> b.comb_cards.subset_of(b.cards)
}

/// The standard deck holds every card exactly once.
pub proof fn lemma_standard_deck()
    ensures
        standard_deck().no_duplicates(),
        forall|c: Card| standard_deck().contains(c),
        standard_deck().len() == 52,
{
    let d = standard_deck();
    assert forall|x: int, y: int| 0 <= x < 52 && 0 <= y < 52 && x != y implies d[x] != d[y] by {
        crate::card::lemma_pos_rank(x / 4);
        crate::card::lemma_pos_rank(y / 4);
        if d[x] == d[y] {
            assert(x / 4 == y / 4);
            assert(x % 4 == y % 4);
        }
    }
    assert forall|c: Card| d.contains(c) by {
        crate::card::lemma_rank_pos(c.rank);
        let k = c.rank.pos() * 4 + c.suit.pos();
        assert(k / 4 == c.rank.pos());
        assert(k % 4 == c.suit.pos());
        assert(d[k] == c);
    }
}

/// Dealing from a deck without repeats puts no card in two places, and
/// every card of the deck ends up in a hand or stays in the deck.
proof fn lemma_dealt_apart(d: Seq<Card>, n: int)
    requires
        d.no_duplicates(),
        2 <= n <= 9,
    ensures
        ({
            let hands = Seq::new(n as nat, |i: int| dealt(d, i));
            let rest = d.subrange(0, d.len() - taken(d.len() as int, PLAYERS_CARDS * n));
            &&& apart(hands, rest, Set::empty())
            &&& forall|c: Card| held(hands, c) || rest.contains(c) <==> d.contains(c)
        }),
{
    let l = d.len() as int;
    let hands = Seq::new(n as nat, |i: int| dealt(d, i));
    let rest = d.subrange(0, l - taken(l, PLAYERS_CARDS * n));
    assert forall|i: int, c: Card| 0 <= i < n && #[trigger] hands[i].contains(c) implies exists|x: int|
        l - taken(l, PLAYERS_CARDS * (i + 1)) <= x < l - taken(l, PLAYERS_CARDS * i) && d[x] == c by {
        let lo = l - taken(l, PLAYERS_CARDS * (i + 1));
        let hi = l - taken(l, PLAYERS_CARDS * i);
        let q = d.subrange(lo, hi);
        let y = choose|y: int| 0 <= y < q.len() && q[y] == c;
        assert(d[lo + y] == c);
    }
    assert forall|i: int, j: int, c: Card|
        0 <= i < hands.len() && 0 <= j < hands.len() && i != j && #[trigger] hands[i].contains(c)
            implies !#[trigger] hands[j].contains(c) by {
        if hands[j].contains(c) {
            let x = choose|x: int| l - taken(l, PLAYERS_CARDS * (i + 1)) <= x < l - taken(l, PLAYERS_CARDS * i) && d[x] == c;
            let y = choose|y: int| l - taken(l, PLAYERS_CARDS * (j + 1)) <= y < l - taken(l, PLAYERS_CARDS * j) && d[y] == c;
            assert(x != y);
        }
    }
    assert forall|i: int, c: Card| 0 <= i < hands.len() && #[trigger] hands[i].contains(c) implies !rest.contains(c) by {
        if rest.contains(c) {
            let x = choose|x: int| l - taken(l, PLAYERS_CARDS * (i + 1)) <= x < l - taken(l, PLAYERS_CARDS * i) && d[x] == c;
            let y = choose|y: int| 0 <= y < rest.len() && rest[y] == c;
            assert(d[y] == c);
            assert(x != y);
        }
    }
    assert forall|c: Card| held(hands, c) || rest.contains(c) <==> d.contains(c) by {
        if held(hands, c) {
            let i = choose|i: int| 0 <= i < hands.len() && #[trigger] hands[i].contains(c);
            let x = choose|x: int| l - taken(l, PLAYERS_CARDS * (i + 1)) <= x < l - taken(l, PLAYERS_CARDS * i) && d[x] == c;
        }
        if rest.contains(c) {
            let y = choose|y: int| 0 <= y < rest.len() && rest[y] == c;
            assert(d[y] == c);
        }
        if d.contains(c) {
            let y = choose|y: int| 0 <= y < l && d[y] == c;
            if y < l - taken(l, PLAYERS_CARDS * n) {
                assert(rest[y] == c);
            } else {
                let t = l - 1 - y;
                let i = t / 5;
                assert(0 <= i < n);
                let lo = l - taken(l, PLAYERS_CARDS * (i + 1));
                let hi = l - taken(l, PLAYERS_CARDS * i);
                assert(lo <= y < hi);
                assert(d.subrange(lo, hi)[y - lo] == c);
                assert(hands[i].contains(c));
            }
        }
    }
}

} // verus!
