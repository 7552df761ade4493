use vstd::prelude::*;

use std::collections::VecDeque;
use std::sync::mpsc::{Receiver, Sender};

use crate::cardset::CardSet;
use crate::game::{State, Step, StepError, PID};
use crate::worker::{GameRequest, GameResponse};

verus! {

#[verifier::external_type_specification]
#[verifier::external_body]
#[verifier::reject_recursive_types(T)]
pub struct ExSender<T>(Sender<T>);

#[verifier::external_type_specification]
#[verifier::external_body]
#[verifier::reject_recursive_types(T)]
pub struct ExReceiver<T>(Receiver<T>);

/// Relies on std's `mpsc::Sender::send`: queues the message on the
/// worker's channel; false when the worker has hung up.
#[verifier::external_body]
fn send_request(tx: &Sender<(PID, GameRequest)>, msg: (PID, GameRequest)) -> bool {
    tx.send(msg).is_ok()
}

/// Relies on std's `mpsc::Receiver::recv`: waits for the next reply; none
/// when the worker has hung up.
#[verifier::external_body]
fn recv_response(rx: &Receiver<GameResponse>) -> Option<GameResponse> {
    rx.recv().ok()
}

// The messages a player sends to the worker.

pub fn exit_request(pid: PID) -> (r: (PID, GameRequest))
    ensures
        r == (pid, GameRequest::Exit),
{
    (pid, GameRequest::Exit)
}

pub fn step_request(pid: PID, step: Step) -> (r: (PID, GameRequest))
    ensures
        r == (pid, GameRequest::MakeStep(step)),
{
    (pid, GameRequest::MakeStep(step))
}

pub fn decks_request(pid: PID) -> (r: (PID, GameRequest))
    ensures
        r == (pid, GameRequest::GetPlayersDecks),
{
    (pid, GameRequest::GetPlayersDecks)
}

pub fn kick_request(pid: PID) -> (r: (PID, GameRequest))
    ensures
        r == (pid, GameRequest::KickPlayer),
{
    (pid, GameRequest::KickPlayer)
}

pub fn stepping_request(pid: PID) -> (r: (PID, GameRequest))
    ensures
        r == (pid, GameRequest::GetSteppingPlayer),
{
    (pid, GameRequest::GetSteppingPlayer)
}

/// Player `pid` asks for the hand of player `of`.
pub fn cards_request(pid: PID, of: PID) -> (r: (PID, GameRequest))
    ensures
        r == (pid, GameRequest::GetPlayerCards(of)),
{
    (pid, GameRequest::GetPlayerCards(of))
}

pub fn deck_size_request(pid: PID) -> (r: (PID, GameRequest))
    ensures
        r == (pid, GameRequest::GetDeckSize),
{
    (pid, GameRequest::GetDeckSize)
}

pub fn kicked_request(pid: PID) -> (r: (PID, GameRequest))
    ensures
        r == (pid, GameRequest::IsPlayerKicked),
{
    (pid, GameRequest::IsPlayerKicked)
}

pub fn winner_request(pid: PID) -> (r: (PID, GameRequest))
    ensures
        r == (pid, GameRequest::GetGameWinner),
{
    (pid, GameRequest::GetGameWinner)
}

pub fn state_request(pid: PID) -> (r: (PID, GameRequest))
    ensures
        r == (pid, GameRequest::GetState),
{
    (pid, GameRequest::GetState)
}

pub fn messages_request(pid: PID) -> (r: (PID, GameRequest))
    ensures
        r == (pid, GameRequest::GetMessage),
{
    (pid, GameRequest::GetMessage)
}

pub fn chat_request(pid: PID, text: String) -> (r: (PID, GameRequest))
    ensures
        r == (pid, GameRequest::SendMessage(text)),
{
    (pid, GameRequest::SendMessage(text))
}

// What a player takes from the worker's reply: the payload of the expected
// variant, none for any other reply or for no reply at all.

pub fn exited_reply(resp: Option<GameResponse>) -> (r: Option<bool>)
    ensures
        resp matches Some(GameResponse::Exited(f)) ==> r == Some(f),
        !(resp matches Some(GameResponse::Exited(_))) ==> r is None,
{
    match resp {
        Some(GameResponse::Exited(f)) => Some(f),
        _ => None,
    }
}

pub fn step_reply(resp: Option<GameResponse>) -> (r: Option<Result<(), StepError>>)
    ensures
        resp matches Some(GameResponse::YouMadeStep(x)) ==> r == Some(x),
        !(resp matches Some(GameResponse::YouMadeStep(_))) ==> r is None,
{
    match resp {
        Some(GameResponse::YouMadeStep(x)) => Some(x),
        _ => None,
    }
}

pub fn decks_reply(resp: Option<GameResponse>) -> (r: Option<Vec<usize>>)
    ensures
        resp matches Some(GameResponse::PlayersDecks(v)) ==> r == Some(v),
        !(resp matches Some(GameResponse::PlayersDecks(_))) ==> r is None,
{
    match resp {
        Some(GameResponse::PlayersDecks(v)) => Some(v),
        _ => None,
    }
}

pub fn stepping_reply(resp: Option<GameResponse>) -> (r: Option<PID>)
    ensures
        resp matches Some(GameResponse::SteppingPlayer(p)) ==> r == Some(p),
        !(resp matches Some(GameResponse::SteppingPlayer(_))) ==> r is None,
{
    match resp {
        Some(GameResponse::SteppingPlayer(p)) => Some(p),
        _ => None,
    }
}

pub fn cards_reply(resp: Option<GameResponse>) -> (r: Option<CardSet>)
    ensures
        resp matches Some(GameResponse::YourCards(c)) ==> r == Some(c),
        !(resp matches Some(GameResponse::YourCards(_))) ==> r is None,
{
    match resp {
        Some(GameResponse::YourCards(c)) => Some(c),
        _ => None,
    }
}

/// The number of cards in a `YourCards` reply.
pub fn card_count_reply(resp: Option<GameResponse>) -> (r: Option<usize>)
    ensures
        resp matches Some(GameResponse::YourCards(c)) ==> r is Some && (c.wf() ==> r == Some(
            c@.len() as usize,
        )),
        !(resp matches Some(GameResponse::YourCards(_))) ==> r is None,
{
    match resp {
        Some(GameResponse::YourCards(c)) => Some(c.len()),
        _ => None,
    }
}

pub fn deck_size_reply(resp: Option<GameResponse>) -> (r: Option<usize>)
    ensures
        resp matches Some(GameResponse::DeckSize(n)) ==> r == Some(n),
        !(resp matches Some(GameResponse::DeckSize(_))) ==> r is None,
{
    match resp {
        Some(GameResponse::DeckSize(n)) => Some(n),
        _ => None,
    }
}

pub fn kicked_reply(resp: Option<GameResponse>) -> (r: Option<bool>)
    ensures
        resp matches Some(GameResponse::PlayerKicked(f)) ==> r == Some(f),
        !(resp matches Some(GameResponse::PlayerKicked(_))) ==> r is None,
{
    match resp {
        Some(GameResponse::PlayerKicked(f)) => Some(f),
        _ => None,
    }
}

pub fn winner_reply(resp: Option<GameResponse>) -> (r: Option<Option<PID>>)
    ensures
        resp matches Some(GameResponse::GameWinner(w)) ==> r == Some(w),
        !(resp matches Some(GameResponse::GameWinner(_))) ==> r is None,
{
    match resp {
        Some(GameResponse::GameWinner(w)) => Some(w),
        _ => None,
    }
}

pub fn state_reply(resp: Option<GameResponse>) -> (r: Option<State>)
    ensures
        resp matches Some(GameResponse::GameState(st)) ==> r == Some(st),
        !(resp matches Some(GameResponse::GameState(_))) ==> r is None,
{
    match resp {
        Some(GameResponse::GameState(st)) => Some(st),
        _ => None,
    }
}

pub fn messages_reply(resp: Option<GameResponse>) -> (r: Option<VecDeque<String>>)
    ensures
        resp matches Some(GameResponse::YourMessages(q)) ==> r == Some(q),
        !(resp matches Some(GameResponse::YourMessages(_))) ==> r is None,
{
    match resp {
        Some(GameResponse::YourMessages(q)) => Some(q),
        _ => None,
    }
}

/// One player's handle on a table's worker: the worker's request channel,
/// this player's reply channel, and the player's id.  Each method sends one
/// message, built by the matching `*_request` function for this player;
/// those with a reply wait for it and return what the matching `*_reply`
/// function takes from it (none when the worker is gone or answers out of
/// protocol).
pub struct GameChannelClient(pub Sender<(PID, GameRequest)>, pub Receiver<GameResponse>, pub PID);

impl GameChannelClient {
    /// Sends `msg` and waits for the reply, if the message could be sent.
    fn exchange(&self, msg: (PID, GameRequest)) -> Option<GameResponse> {
        if send_request(&self.0, msg) {
            recv_response(&self.1)
        } else {
            None
        }
    }

    /// Leaves the table; `Some(true)` when this was the last player.
    pub fn exit(self) -> Option<bool> {
        let resp = self.exchange(exit_request(self.2));
        exited_reply(resp)
    }

    pub fn make_step(&mut self, step: Step) -> Option<Result<(), StepError>> {
        let resp = self.exchange(step_request(self.2, step));
        step_reply(resp)
    }

    pub fn players_decks(&self) -> Option<Vec<usize>> {
        let resp = self.exchange(decks_request(self.2));
        decks_reply(resp)
    }

    /// Asks to be removed from the rotation; there is no reply.
    pub fn kick_me(&mut self) {
        send_request(&self.0, kick_request(self.2));
    }

    pub fn get_stepping_player(&self) -> Option<PID> {
        let resp = self.exchange(stepping_request(self.2));
        stepping_reply(resp)
    }

    pub fn get_my_cards(&self) -> Option<CardSet> {
        let resp = self.exchange(cards_request(self.2, self.2));
        cards_reply(resp)
    }

    pub fn get_another_number_of_cards(&self, pid: PID) -> Option<usize> {
        let resp = self.exchange(cards_request(self.2, pid));
        card_count_reply(resp)
    }

    pub fn get_deck_size(&self) -> Option<usize> {
        let resp = self.exchange(deck_size_request(self.2));
        deck_size_reply(resp)
    }

    pub fn is_me_kicked(&self) -> Option<bool> {
        let resp = self.exchange(kicked_request(self.2));
        kicked_reply(resp)
    }

    pub fn game_winner(&self) -> Option<Option<PID>> {
        let resp = self.exchange(winner_request(self.2));
        winner_reply(resp)
    }

    pub fn get_state_cards(&self) -> Option<State> {
        let resp = self.exchange(state_request(self.2));
        state_reply(resp)
    }

    pub fn get_messages(&self) -> Option<VecDeque<String>> {
        let resp = self.exchange(messages_request(self.2));
        messages_reply(resp)
    }

    /// Posts a chat message to the other players; there is no reply.
    pub fn send_message(&self, msg: String) {
        send_request(&self.0, chat_request(self.2, msg));
    }
}

} // verus!
