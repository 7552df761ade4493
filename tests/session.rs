use poker_durak::session::{
    announces_winner, chat_length_ok, Arrival, Departure, GamePool, Refresh, TurnTimer,
};
use poker_durak::game::StepError;
use poker_durak::session::StepAnswer;

#[test]
fn chat_length_limit() {
    assert!(chat_length_ok(0));
    assert!(chat_length_ok(4096));
    assert!(!chat_length_ok(4097));
}

#[test]
fn turn_timeout_after_301_seconds() {
    let mut timer = TurnTimer::new(None);
    assert_eq!(timer.refresh(true, 1_000, false), Refresh::YourTurn(300));
    assert_eq!(timer.stepping_time, Some(1_000));
    assert!(!timer.your_turn_new);
    assert_eq!(timer.refresh(true, 200_000, false), Refresh::Nothing);
    assert_eq!(timer.refresh(true, 1_000 + 301_000, false), Refresh::Finish);
}

#[test]
fn reconnect_keeps_the_turn_clock() {
    let t0 = 50_000;
    let mut timer = TurnTimer::new(Some(t0));
    assert_eq!(timer.refresh(true, t0 + 3_500, false), Refresh::YourTurn(297));
    assert_eq!(timer.stepping_time, Some(t0));
}

#[test]
fn winner_ends_the_session_and_steps_reset_the_clock() {
    let mut timer = TurnTimer::new(None);
    assert_eq!(timer.refresh(false, 10, false), Refresh::Nothing);
    assert_eq!(timer.refresh(false, 10, true), Refresh::Finish);
    assert_eq!(timer.refresh(true, 10, false), Refresh::YourTurn(300));
    assert!(!timer.step_accepted(false));
    assert!(timer.your_turn_new);
    assert_eq!(timer.stepping_time, None);
    assert_eq!(timer.refresh(true, 400_000, true), Refresh::YourTurn(300));
    assert_eq!(timer.refresh(true, 1_000_000, false), Refresh::Finish);
}

#[test]
fn pool_matchmaking_and_reconnect() {
    let mut pool: GamePool<&'static str> = GamePool::new();
    assert!(matches!(pool.arrive(1), Arrival::Waiting));
    assert!(matches!(pool.arrive(1), Arrival::Waiting));
    assert_eq!(pool.waiting_count(), 1);
    assert!(matches!(pool.arrive(2), Arrival::Waiting));
    assert_eq!(pool.waiting_count(), 2);
    let (gid, players) = pool.create_game();
    assert_eq!(gid, 1);
    assert_eq!(players, vec![1, 2]);
    assert_eq!(pool.waiting_count(), 0);
    assert!(pool.is_playing(1) && pool.is_playing(2));
    assert_eq!(pool.stats(), (1, 1));
    pool.add_handle(1, "h1");
    assert!(matches!(pool.arrive(1), Arrival::AlreadyPlaying));
    assert_eq!(pool.take_handle(1), Some("h1"));
    assert_eq!(pool.take_handle(1), None);
    assert_eq!(pool.take_time(1), None);
    pool.session_closed(1, true, Some(99));
    assert_eq!(pool.take_time(1), None);
    pool.session_closed(1, false, Some(1234));
    pool.park(1, Some("h1"));
    match pool.arrive(1) {
        Arrival::Restore(Some(h)) => assert_eq!(h, "h1"),
        _ => panic!("expected the parked handle"),
    }
    assert_eq!(pool.take_time(1), Some(1234));
    pool.park(2, None);
    assert!(matches!(pool.end_grace(2, Some(false)), Departure::Forgotten));
    assert!(matches!(pool.end_grace(2, Some(false)), Departure::Reclaimed));
    assert!(!pool.is_playing(2));
    pool.park(1, Some("h1"));
    match pool.end_grace(1, Some(true)) {
        Departure::Settle(h) => assert_eq!(h, "h1"),
        _ => panic!("expected the handle to settle"),
    }
    assert!(!pool.is_playing(1));
    pool.table_exited(Some(false));
    assert_eq!(pool.stats(), (1, 1));
    pool.table_exited(Some(true));
    pool.table_exited(Some(true));
    assert_eq!(pool.stats(), (1, 0));
}

#[test]
fn pool_stop_waiting() {
    let mut pool: GamePool<u8> = GamePool::new();
    pool.arrive(5);
    pool.arrive(6);
    pool.stop_waiting(5);
    assert_eq!(pool.waiting_count(), 1);
    let (_, players) = pool.create_game();
    assert_eq!(players, vec![6]);
}

#[test]
fn departure_of_a_waiting_player_keeps_the_pool() {
    let mut pool: GamePool<u8> = GamePool::new();
    pool.arrive(4);
    pool.arrive(5);
    let _ = pool.create_game();
    pool.park(9, Some(3));
    assert!(matches!(pool.end_grace(9, None), Departure::Forgotten));
    assert!(pool.is_playing(4));
}

#[test]
fn winner_announcement() {
    assert!(announces_winner(Some(3), 3));
    assert!(!announces_winner(Some(4), 3));
    assert!(!announces_winner(None, 3));
}

#[test]
fn step_accepted_ends_session_when_kicked() {
    let mut timer = TurnTimer::new(Some(5));
    assert!(timer.step_accepted(true));
    assert!(timer.your_turn_new);
    assert_eq!(timer.stepping_time, None);
}

#[test]
fn answering_a_step() {
    let mut timer = TurnTimer::new(None);
    timer.refresh(true, 0, false);
    assert_eq!(timer.answer_step(Err(StepError::WeakComb), false), StepAnswer::Refused(StepError::WeakComb));
    assert_eq!(timer.stepping_time, Some(0));
    assert_eq!(timer.answer_step(Ok(()), false), StepAnswer::Made);
    assert!(timer.your_turn_new);
    assert_eq!(timer.answer_step(Ok(()), true), StepAnswer::Ended);
    let mut pool: GamePool<u8> = GamePool::new();
    pool.arrive(1);
    assert!(!pool.ready_to_match());
    pool.arrive(2);
    assert!(pool.ready_to_match());
}
