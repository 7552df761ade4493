use std::collections::VecDeque;
use std::sync::mpsc;

use poker_durak::client::GameChannelClient;
use poker_durak::worker::{GameRequest, GameResponse, GameWorker};
use poker_durak::client::{
    chat_request, exited_reply, kick_request, messages_reply, step_reply, step_request,
};
use poker_durak::game::{Step, StepError};

#[test]
fn chat_goes_to_the_other_players() {
    let mut w = GameWorker::new(vec![1, 2, 3]).unwrap();
    let (reply, stop) = w.handle_request(1, GameRequest::SendMessage("hi".to_string()));
    assert!(reply.is_none());
    assert!(!stop);
    match w.handle_request(2, GameRequest::GetMessage) {
        (Some(GameResponse::YourMessages(q)), false) => {
            assert_eq!(q, VecDeque::from(vec!["hi".to_string()]));
        }
        _ => panic!("unexpected reply"),
    }
    match w.handle_request(2, GameRequest::GetMessage) {
        (Some(GameResponse::YourMessages(q)), false) => assert!(q.is_empty()),
        _ => panic!("unexpected reply"),
    }
    match w.handle_request(1, GameRequest::GetMessage) {
        (Some(GameResponse::YourMessages(q)), false) => assert!(q.is_empty()),
        _ => panic!("unexpected reply"),
    }
}

#[test]
fn exit_counts_down_to_the_last_player() {
    let mut w = GameWorker::new(vec![1, 2]).unwrap();
    match w.handle_request(1, GameRequest::GetDeckSize) {
        (Some(GameResponse::DeckSize(n)), false) => assert_eq!(n, 42),
        _ => panic!("unexpected reply"),
    }
    match w.handle_request(1, GameRequest::Exit) {
        (Some(GameResponse::Exited(false)), false) => {}
        _ => panic!("unexpected reply"),
    }
    match w.handle_request(1, GameRequest::Exit) {
        (Some(GameResponse::Exited(false)), false) => {}
        _ => panic!("unexpected reply"),
    }
    match w.handle_request(2, GameRequest::IsPlayerKicked) {
        (Some(GameResponse::PlayerKicked(true)), false) => {}
        _ => panic!("unexpected reply"),
    }
    match w.handle_request(2, GameRequest::GetGameWinner) {
        (Some(GameResponse::GameWinner(Some(2))), false) => {}
        _ => panic!("unexpected reply"),
    }
    match w.handle_request(2, GameRequest::Exit) {
        (Some(GameResponse::Exited(true)), true) => {}
        _ => panic!("unexpected reply"),
    }
}

#[test]
fn worker_needs_two_to_nine_players() {
    assert!(GameWorker::new(vec![1]).is_none());
    assert!(GameWorker::new((0..10).collect()).is_none());
    assert!(GameWorker::new((0..9).collect()).is_some());
}

#[test]
fn client_sends_its_request_and_reads_the_reply() {
    let (req_tx, req_rx) = mpsc::channel();
    let (resp_tx, resp_rx) = mpsc::channel();
    let client = GameChannelClient(req_tx, resp_rx, 7);
    resp_tx.send(GameResponse::DeckSize(31)).unwrap();
    assert_eq!(client.get_deck_size(), Some(31));
    match req_rx.recv().unwrap() {
        (7, GameRequest::GetDeckSize) => {}
        _ => panic!("unexpected request"),
    }
    resp_tx.send(GameResponse::PlayerKicked(true)).unwrap();
    assert_eq!(client.get_deck_size(), None);
    client.send_message("hello".to_string());
    let _ = req_rx.recv().unwrap();
    match req_rx.recv().unwrap() {
        (7, GameRequest::SendMessage(m)) => assert_eq!(m, "hello"),
        _ => panic!("unexpected request"),
    }
    resp_tx.send(GameResponse::Exited(true)).unwrap();
    assert_eq!(client.exit(), Some(true));
}

#[test]
fn client_reports_a_gone_worker() {
    let (req_tx, req_rx) = mpsc::channel();
    let (_resp_tx, resp_rx) = mpsc::channel::<GameResponse>();
    drop(req_rx);
    let client = GameChannelClient(req_tx, resp_rx, 1);
    assert_eq!(client.get_stepping_player(), None);
}

#[test]
fn mailbox_keeps_arrival_order() {
    let mut w = GameWorker::new(vec![1, 2, 3]).unwrap();
    w.handle_request(1, GameRequest::SendMessage("a".to_string()));
    w.handle_request(2, GameRequest::SendMessage("b".to_string()));
    w.handle_request(3, GameRequest::SendMessage("c".to_string()));
    w.handle_request(1, GameRequest::KickPlayer);
    w.handle_request(1, GameRequest::SendMessage("d".to_string()));
    match w.handle_request(2, GameRequest::GetMessage) {
        (Some(GameResponse::YourMessages(q)), false) => {
            let got: Vec<String> = q.into_iter().collect();
            assert_eq!(got, vec!["a".to_string(), "c".to_string(), "d".to_string()]);
        }
        _ => panic!("unexpected reply"),
    }
    match w.handle_request(3, GameRequest::GetMessage) {
        (Some(GameResponse::YourMessages(q)), false) => {
            let got: Vec<String> = q.into_iter().collect();
            assert_eq!(got, vec!["a".to_string(), "b".to_string(), "d".to_string()]);
        }
        _ => panic!("unexpected reply"),
    }
}

#[test]
fn kth_exit_answers_whether_it_was_the_last() {
    let mut w = GameWorker::new(vec![1, 2, 3]).unwrap();
    w.handle_request(2, GameRequest::KickPlayer);
    assert!(matches!(w.handle_request(2, GameRequest::Exit), (Some(GameResponse::Exited(false)), false)));
    w.handle_request(1, GameRequest::SendMessage("x".to_string()));
    w.handle_request(3, GameRequest::GetMessage);
    assert!(matches!(w.handle_request(3, GameRequest::Exit), (Some(GameResponse::Exited(false)), false)));
    assert!(matches!(w.handle_request(1, GameRequest::Exit), (Some(GameResponse::Exited(true)), true)));
}

#[test]
fn client_messages_name_the_player_and_request() {
    assert!(matches!(kick_request(4), (4, GameRequest::KickPlayer)));
    match chat_request(4, "hey".to_string()) {
        (4, GameRequest::SendMessage(t)) => assert_eq!(t, "hey"),
        _ => panic!("wrong message"),
    }
    assert!(matches!(step_request(9, Step::GetCard), (9, GameRequest::MakeStep(Step::GetCard))));
}

#[test]
fn client_replies_take_only_the_expected_variant() {
    assert_eq!(exited_reply(Some(GameResponse::Exited(true))), Some(true));
    assert_eq!(exited_reply(Some(GameResponse::DeckSize(3))), None);
    assert_eq!(exited_reply(None), None);
    assert_eq!(
        step_reply(Some(GameResponse::YouMadeStep(Err(StepError::WeakComb)))),
        Some(Err(StepError::WeakComb))
    );
    assert_eq!(step_reply(Some(GameResponse::Exited(false))), None);
    let q = VecDeque::from(vec!["a".to_string(), "b".to_string()]);
    assert_eq!(messages_reply(Some(GameResponse::YourMessages(q.clone()))), Some(q));
    assert_eq!(messages_reply(Some(GameResponse::PlayerKicked(true))), None);
}

#[test]
fn client_kick_and_chat_send_their_requests() {
    let (req_tx, req_rx) = mpsc::channel();
    let (_resp_tx, resp_rx) = mpsc::channel::<GameResponse>();
    let mut client = GameChannelClient(req_tx, resp_rx, 5);
    client.kick_me();
    assert!(matches!(req_rx.recv().unwrap(), (5, GameRequest::KickPlayer)));
    client.send_message("yo".to_string());
    match req_rx.recv().unwrap() {
        (5, GameRequest::SendMessage(t)) => assert_eq!(t, "yo"),
        _ => panic!("unexpected request"),
    }
}
