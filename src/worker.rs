use vstd::prelude::*;

use std::collections::VecDeque;

use crate::cardset::CardSet;
use crate::game::{
    kick, kicked, others_of, seat_of, step_outcome, valid, Game, GameView, State, Step, StepError, PID,
};

verus! {

/// A request of one player to the worker that owns their table.
#[derive(Debug)]
pub enum GameRequest {
    MakeStep(Step),
    GetPlayersDecks,
    KickPlayer,
    GetSteppingPlayer,
    GetPlayerCards(PID),
    GetDeckSize,
    IsPlayerKicked,
    GetGameWinner,
    GetState,
    SendMessage(String),
    GetMessage,
    Exit,
}

/// The worker's reply to a request.
#[derive(Debug)]
pub enum GameResponse {
    YouMadeStep(Result<(), StepError>),
    PlayersDecks(Vec<usize>),
    SteppingPlayer(PID),
    YourCards(CardSet),
    DeckSize(usize),
    PlayerKicked(bool),
    GameWinner(Option<PID>),
    GameState(State),
    YourMessages(VecDeque<String>),
    Exited(bool),
}

impl GameRequest {
    pub open spec fn wf(&self) -> bool {
        match self {
            GameRequest::MakeStep(step) => step.wf(),
            _ => true,
        }
    }
}

/// The state a table's worker keeps: the table, which seats are still
/// connected, how many are, and each seat's queue of chat messages.
pub struct GameWorker {
    game: Game,
    playing: Vec<bool>,
    count: usize,
    messages: Vec<VecDeque<String>>,
}

/// Mathematical model of a worker.
pub struct WorkerView {
    pub game: GameView,
    pub playing: Seq<bool>,
    pub count: nat,
    pub mailboxes: Seq<Seq<Seq<char>>>,
}

impl View for GameWorker {
    type V = WorkerView;

    closed spec fn view(&self) -> WorkerView {
        WorkerView {
            game: self.game@,
            playing: self.playing@,
            count: self.count as nat,
            mailboxes: Seq::new(
                self.messages@.len(),
                |j: int| self.messages@[j]@.map_values(|s: String| s@),
            ),
        }
    }
}

/// The table after `pid` is kicked; an unknown id changes nothing.
pub open spec fn kicked_view(g: GameView, pid: PID) -> GameView {
    match seat_of(g.ids, pid) {
        Some(p) => kick(g, p),
        None => g,
    }
}

/// The worker after `pid` leaves: they are kicked and, if they were still
/// playing, no longer are and the count of players drops by one.  The
/// mailboxes stay as they are.
pub open spec fn exited_view(w: WorkerView, pid: PID) -> WorkerView {
    match seat_of(w.game.ids, pid) {
        Some(p) => if w.playing[p] {
            WorkerView {
                game: kick(w.game, p),
                playing: w.playing.update(p, false),
                count: (w.count - 1) as nat,
                ..w
            }
        } else {
            WorkerView { game: kick(w.game, p), ..w }
        },
        None => w,
    }
}

/// The number of seats still connected.
pub open spec fn count_playing(p: Seq<bool>) -> nat
    decreases p.len(),
{
    if p.len() == 0 {
        0
    } else {
        count_playing(p.drop_last()) + if p.last() {
            1nat
        } else {
            0nat
        }
    }
}

proof fn lemma_count_playing_update(p: Seq<bool>, i: int)
    requires
        0 <= i < p.len(),
        p[i],
    ensures
        count_playing(p.update(i, false)) + 1 == count_playing(p),
    decreases p.len(),
{
    if i < p.len() - 1 {
        assert(p.update(i, false).drop_last() =~= p.drop_last().update(i, false));
        lemma_count_playing_update(p.drop_last(), i);
    } else {
        assert(p.update(i, false).drop_last() =~= p.drop_last());
    }
}

proof fn lemma_count_playing_all(n: nat)
    ensures
        count_playing(Seq::new(n, |j: int| true)) == n,
    decreases n,
{
    if n > 0 {
        assert(Seq::new(n, |j: int| true).drop_last() =~= Seq::new((n - 1) as nat, |j: int| true));
        lemma_count_playing_all((n - 1) as nat);
    }
}

impl GameWorker {
    pub closed spec fn wf(&self) -> bool {
        &&& self.game.wf()
        &&& self.playing@.len() == self.game@.ids.len()
        &&& self.messages@.len() == self.game@.ids.len()
        &&& self.count == count_playing(self.playing@)
    }

    /// A well-formed worker has one mailbox and one `playing` flag per seat
    /// of a valid table, and counts exactly the seats still playing.
    pub proof fn lemma_wf_parts(&self)
        requires
            self.wf(),
        ensures
            valid(self@.game),
            self@.mailboxes.len() == self@.game.ids.len(),
            self@.playing.len() == self@.game.ids.len(),
            self@.count == count_playing(self@.playing),
    {
        self.game.lemma_wf_valid();
    }

    /// A worker over a new table for the given players, none of whom has
    /// left yet and all of whose queues are empty; none when `Game::new`
    /// gives no table.
    pub fn new(players: Vec<PID>) -> (r: Option<GameWorker>)
        requires
            players@.no_duplicates(),
        ensures
            r is Some <==> 2 <= players@.len() <= 9,
            r matches Some(w) ==> {
                &&& w.wf()
                &&& w@.count == players@.len()
                &&& w@.mailboxes.len() == players@.len()
                &&& w@.playing.len() == players@.len()
                &&& forall|j: int| 0 <= j < players@.len() ==> w@.playing[j] && w@.mailboxes[j].len() == 0
            },
    {
        let game = match Game::new(players) {
            Some(g) => g,
            None => return None,
        };
        let ghost n = game@.ids.len();
        proof {
            game.lemma_wf_valid();
            game@.ids.to_multiset_ensures();
            players@.to_multiset_ensures();
        }
        let mut playing: Vec<bool> = Vec::new();
        let mut messages: Vec<VecDeque<String>> = Vec::new();
        let mut i: usize = 0;
        let count = game.players_count();
        while i < count
            invariant
                0 <= i <= count,
                count == n,
                playing@ == Seq::new(i as nat, |j: int| true),
                messages@.len() == i,
                forall|j: int| 0 <= j < i ==> messages@[j]@.len() == 0,
            decreases count - i,
        {
            playing.push(true);
            messages.push(VecDeque::new());
            assert(playing@ =~= Seq::new((i + 1) as nat, |j: int| true));
            i = i + 1;
        }
        proof {
            lemma_count_playing_all(n);
        }
        Some(GameWorker { game, playing, count, messages })
    }

    /// Handles one request of player `pid`.  Returns the reply to send back,
    /// if the request has one, and whether the worker stops after it (the
    /// last connected player has left).
    pub fn handle_request(&mut self, pid: PID, req: GameRequest) -> (r: (Option<GameResponse>, bool))
        requires
            old(self).wf(),
            req.wf(),
        ensures
            final(self).wf(),
            r.1 ==> req is Exit && final(self)@.count == 0,
            match req {
                GameRequest::MakeStep(step) => {
                    let (res, g) = step_outcome(old(self)@.game, pid, step);
                    &&& r == (Some(GameResponse::YouMadeStep(res)), false)
                    &&& final(self)@ == (WorkerView { game: g, ..old(self)@ })
                },
                GameRequest::KickPlayer => {
                    &&& r == (None::<GameResponse>, false)
                    &&& final(self)@ == (WorkerView { game: kicked_view(old(self)@.game, pid), ..old(self)@ })
                },
                GameRequest::GetSteppingPlayer => {
                    &&& r == (Some(GameResponse::SteppingPlayer(old(self)@.game.ids[old(self)@.game.stepping as int])), false)
                    &&& final(self)@ == old(self)@
                },
                GameRequest::GetDeckSize => {
                    &&& r == (Some(GameResponse::DeckSize(old(self)@.game.deck.len() as usize)), false)
                    &&& final(self)@ == old(self)@
                },
                GameRequest::IsPlayerKicked => {
                    &&& r.1 == false
                    &&& final(self)@ == old(self)@
                    &&& r.0 matches Some(GameResponse::PlayerKicked(k))
                    &&& seat_of(old(self)@.game.ids, pid) matches Some(p) ==> k == kicked(old(self)@.game, p)
                    &&& seat_of(old(self)@.game.ids, pid) is None ==> k
                },
                GameRequest::GetGameWinner => {
                    &&& r.1 == false
                    &&& final(self)@ == old(self)@
                    &&& r.0 matches Some(GameResponse::GameWinner(w))
                    &&& old(self)@.game.winner matches Some(s) ==> w == Some(old(self)@.game.ids[s as int])
                    &&& old(self)@.game.winner is None ==> w is None
                },
                GameRequest::GetPlayerCards(q) => {
                    &&& r.1 == false
                    &&& final(self)@ == old(self)@
                    &&& r.0 matches Some(GameResponse::YourCards(c))
                    &&& seat_of(old(self)@.game.ids, q) matches Some(p) ==> c@ == old(self)@.game.hands[p]
                    &&& seat_of(old(self)@.game.ids, q) is None ==> c@ == Set::<crate::card::Card>::empty()
                },
                GameRequest::GetState => {
                    &&& r.1 == false
                    &&& final(self)@ == old(self)@
                    &&& r.0 matches Some(GameResponse::GameState(s))
                    &&& s.board_view() == old(self)@.game.board
                },
                GameRequest::GetPlayersDecks => {
                    &&& r.1 == false
                    &&& final(self)@ == old(self)@
                    &&& r.0 matches Some(GameResponse::PlayersDecks(v))
                    &&& v@.len() == others_of(old(self)@.game, old(self)@.game.stepping as int).len()
                    &&& forall|i: int| 0 <= i < v@.len() ==> v@[i] == old(self)@.game.hands[others_of(old(self)@.game, old(self)@.game.stepping as int)[i]].len()
                },
                GameRequest::SendMessage(text) => {
                    &&& r == (None::<GameResponse>, false)
                    &&& final(self)@ == (WorkerView { mailboxes: final(self)@.mailboxes, ..old(self)@ })
                    &&& final(self)@.mailboxes.len() == old(self)@.mailboxes.len()
                    &&& forall|j: int| 0 <= j < old(self)@.mailboxes.len() ==> final(self)@.mailboxes[j] == if old(self)@.game.ids[j] != pid {
                        old(self)@.mailboxes[j].push(text@)
                    } else {
                        old(self)@.mailboxes[j]
                    }
                },
                GameRequest::GetMessage => {
                    &&& r.1 == false
                    &&& r.0 matches Some(GameResponse::YourMessages(q))
                    &&& seat_of(old(self)@.game.ids, pid) matches Some(p) ==> {
                        &&& q@.map_values(|s: String| s@) == old(self)@.mailboxes[p]
                        &&& final(self)@ == (WorkerView { mailboxes: old(self)@.mailboxes.update(p, Seq::empty()), ..old(self)@ })
                    }
                    &&& seat_of(old(self)@.game.ids, pid) is None ==> q@.len() == 0 && final(self)@ == old(self)@
                },
                GameRequest::Exit => {
                    &&& final(self)@ == exited_view(old(self)@, pid)
                    &&& r.0 == Some(GameResponse::Exited(final(self)@.count == 0))
                    &&& r.1 == (final(self)@.count == 0)
                },
            },
    {
        match req {
            GameRequest::MakeStep(step) => {
                let res = self.game.make_step(pid, step);
                (Some(GameResponse::YouMadeStep(res)), false)
            },
            GameRequest::GetPlayersDecks => {
                (Some(GameResponse::PlayersDecks(self.game.players_decks())), false)
            },
            GameRequest::KickPlayer => {
                self.game.kick_player(pid);
                (None, false)
            },
            GameRequest::GetSteppingPlayer => {
                (Some(GameResponse::SteppingPlayer(self.game.get_stepping_player())), false)
            },
            GameRequest::GetPlayerCards(q) => {
                (Some(GameResponse::YourCards(self.game.get_player_cards(q))), false)
            },
            GameRequest::GetDeckSize => {
                (Some(GameResponse::DeckSize(self.game.get_deck_size())), false)
            },
            GameRequest::IsPlayerKicked => {
                (Some(GameResponse::PlayerKicked(self.game.is_player_kicked(pid))), false)
            },
            GameRequest::GetGameWinner => {
                (Some(GameResponse::GameWinner(self.game.game_winner())), false)
            },
            GameRequest::GetState => {
                (Some(GameResponse::GameState(self.game.get_state_cards())), false)
            },
            GameRequest::Exit => {
                self.game.kick_player(pid);
                proof {
                    self.game.lemma_wf_valid();
                }
                if let Some(p) = self.game.seat(pid) {
                    if self.playing[p] {
                        proof {
                            lemma_count_playing_update(self.playing@, p as int);
                        }
                        self.playing.set(p, false);
                        self.count = self.count - 1;
                    }
                }
                let last = self.count == 0;
                (Some(GameResponse::Exited(last)), last)
            },
            GameRequest::SendMessage(text) => {
                let ghost before = self@.mailboxes;
                let n = self.messages.len();
                let mut j: usize = 0;
                while j < n
                    invariant
                        0 <= j <= n,
                        n == self.messages@.len(),
                        self.wf(),
                        self.game@ == old(self)@.game,
                        self.playing@ == old(self)@.playing,
                        self.count == old(self)@.count,
                        before == old(self)@.mailboxes,
                        self@.mailboxes.len() == before.len(),
                        forall|k: int| 0 <= k < j ==> self@.mailboxes[k] == if self.game@.ids[k] != pid {
                            before[k].push(text@)
                        } else {
                            before[k]
                        },
                        forall|k: int| j <= k < n ==> self@.mailboxes[k] == before[k],
                    decreases n - j,
                {
                    let ghost m0 = self.messages@;
                    let ghost mb0 = self@.mailboxes;
                    if self.game.id_at(j) != pid {
                        let mut q = VecDeque::new();
                        self.messages.set_and_swap(j, &mut q);
                        q.push_back(text.clone());
                        self.messages.set_and_swap(j, &mut q);
                        assert(self@.mailboxes[j as int] =~= before[j as int].push(text@));
                        assert forall|k: int| 0 <= k < n && k != j implies self@.mailboxes[k] == mb0[k] by {
                            assert(self.messages@[k] == m0[k]);
                        }
                    } else {
                        assert(self@.mailboxes == mb0);
                    }
                    assert forall|k: int| 0 <= k < j + 1 implies self@.mailboxes[k] == if self.game@.ids[k] != pid {
                        before[k].push(text@)
                    } else {
                        before[k]
                    } by {
                        if k < j {
                            assert(self@.mailboxes[k] == mb0[k]);
                        }
                    }
                    j = j + 1;
                }
                (None, false)
            },
            GameRequest::GetMessage => {
                proof {
                    self.game.lemma_wf_valid();
                }
                match self.game.seat(pid) {
                    Some(p) => {
                        let mut q = VecDeque::new();
                        self.messages.set_and_swap(p, &mut q);
                        assert forall|k: int| 0 <= k < self.messages@.len() && k != p implies self@.mailboxes[k] == old(self)@.mailboxes[k] by {
                            assert(self.messages@[k] == old(self).messages@[k]);
                        }
                        assert(self@.mailboxes[p as int] =~= Seq::<Seq<char>>::empty());
                        assert(self@.mailboxes =~= old(self)@.mailboxes.update(p as int, Seq::empty()));
                        (Some(GameResponse::YourMessages(q)), false)
                    },
                    None => (Some(GameResponse::YourMessages(VecDeque::new())), false),
                }
            },
        }
    }
}

} // verus!
