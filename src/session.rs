use vstd::prelude::*;

use std::collections::{HashMap, HashSet};

use crate::game::{StepError, PID};

verus! {

broadcast use vstd::std_specs::hash::group_hash_axioms;

/// Seconds a player has for one turn.
pub const TIMEOUT_SECS: u64 = 300;

/// The same budget in milliseconds.
pub const TIMEOUT_MS: u64 = 300000;

/// Longest chat message accepted, in bytes.
pub const MAX_MESSAGE_LENGTH: usize = 4096;

/// Is a chat message of `byte_len` bytes short enough to forward?
pub fn chat_length_ok(byte_len: usize) -> (r: bool)
    ensures
        r == (byte_len <= MAX_MESSAGE_LENGTH),
{
    byte_len <= MAX_MESSAGE_LENGTH
}

/// What a session should do after looking at the clock.
#[derive(PartialEq, Eq, Structural, Clone, Copy, Debug)]
pub enum Refresh {
    /// Tell the player it is their turn, with this many seconds left.
    YourTurn(u64),
    /// End the session: the turn timed out or the game has a winner.
    Finish,
    Nothing,
}

/// Per-connection turn bookkeeping: whether the player still has to be told
/// that it is their turn, and when (milliseconds on a monotonic clock) the
/// current turn began.
#[derive(PartialEq, Eq, Structural, Clone, Copy, Debug)]
pub struct TurnTimer {
    pub your_turn_new: bool,
    pub stepping_time: Option<u64>,
}

/// Milliseconds from `start` to `now`; 0 when the clock reads earlier.
pub open spec fn elapsed_ms(start: u64, now: u64) -> int {
    if now >= start {
        now - start
    } else {
        0
    }
}

/// Whole seconds left of the turn budget after `ms` milliseconds.
pub open spec fn seconds_left(ms: int) -> int {
    if ms / 1000 >= TIMEOUT_SECS {
        0
    } else {
        TIMEOUT_SECS - ms / 1000
    }
}

impl TurnTimer {
    /// A timer that will announce the next turn and has no turn running.
    pub fn new(stepping_time: Option<u64>) -> (r: TurnTimer)
        ensures
            r.your_turn_new,
            r.stepping_time == stepping_time,
    {
        TurnTimer { your_turn_new: true, stepping_time }
    }

    /// Looks at the clock `now`.  On the player's turn, the first look
    /// starts the turn's clock (unless it already runs) and announces the
    /// seconds left; later looks end the session once more than the budget
    /// has passed.  Otherwise the session ends when the game has a winner.
    pub fn refresh(&mut self, my_turn: bool, now: u64, has_winner: bool) -> (r: Refresh)
        ensures
            my_turn && old(self).your_turn_new ==> {
                let start = match old(self).stepping_time {
                    Some(t) => t,
                    None => now,
                };
                &&& final(self).stepping_time == Some(start)
                &&& !final(self).your_turn_new
                &&& r == Refresh::YourTurn(seconds_left(elapsed_ms(start, now)) as u64)
            },
            !(my_turn && old(self).your_turn_new) ==> {
                &&& *final(self) == *old(self)
                &&& r == if my_turn && timed_out(old(self).stepping_time, now) {
                    Refresh::Finish
                } else if has_winner {
                    Refresh::Finish
                } else {
                    Refresh::Nothing
                }
            },
    {
        if my_turn && self.your_turn_new {
            let start = match self.stepping_time {
                Some(t) => t,
                None => now,
            };
            self.stepping_time = Some(start);
            self.your_turn_new = false;
            let ms = if now >= start {
                now - start
            } else {
                0
            };
            let secs = ms / 1000;
            let left = if secs >= TIMEOUT_SECS {
                0
            } else {
                TIMEOUT_SECS - secs
            };
            return Refresh::YourTurn(left);
        }
        if my_turn {
            if let Some(t) = self.stepping_time {
                let ms = if now >= t {
                    now - t
                } else {
                    0
                };
                if ms > TIMEOUT_MS {
                    return Refresh::Finish;
                }
            }
        }
        if has_winner {
            Refresh::Finish
        } else {
            Refresh::Nothing
        }
    }

    /// The table's answer `res` to a step; `kicked` tells, after an accepted
    /// step, whether the player is now out of the rotation.  A refused step
    /// leaves the timer alone; an accepted one resets it.
    pub fn answer_step(&mut self, res: Result<(), StepError>, kicked: bool) -> (a: StepAnswer)
        ensures
            res matches Err(e) ==> a == StepAnswer::Refused(e) && *final(self) == *old(self),
            res is Ok ==> {
                &&& final(self).your_turn_new
                &&& final(self).stepping_time is None
                &&& a == if kicked {
                    StepAnswer::Ended
                } else {
                    StepAnswer::Made
                }
            },
    {
        match res {
            Err(e) => StepAnswer::Refused(e),
            Ok(()) => if self.step_accepted(kicked) {
                StepAnswer::Ended
            } else {
                StepAnswer::Made
            },
        }
    }

    /// A step was accepted: the next turn is announced afresh and no turn
    /// clock runs.  Returns whether the session ends, which it does when
    /// the step took the player out of the rotation.
    pub fn step_accepted(&mut self, kicked: bool) -> (end: bool)
        ensures
            final(self).your_turn_new,
            final(self).stepping_time is None,
            end == kicked,
    {
        self.your_turn_new = true;
        self.stepping_time = None;
        kicked
    }
}

/// How a session answers a step request.
#[derive(PartialEq, Eq, Structural, Clone, Copy, Debug)]
pub enum StepAnswer {
    /// The step was accepted: report the new table.
    Made,
    /// The step was refused for this reason.
    Refused(StepError),
    /// The step took the player out of the rotation: the session ends.
    Ended,
}

/// Does a departing `pid` leave as the winner of their table?
pub fn announces_winner(winner: Option<PID>, pid: PID) -> (r: bool)
    ensures
        r == (winner == Some(pid)),
{
    match winner {
        Some(w) => w == pid,
        None => false,
    }
}

/// What to do for a player whose grace window has ended.
pub enum Departure<H> {
    /// A reconnect took the handle back: nothing to do.
    Reclaimed,
    /// Nothing left to settle.
    Forgotten,
    /// Leave the table through this handle.
    Settle(H),
}

/// How an arriving connection is dispatched.
pub enum Arrival<H> {
    /// The player was parked after a disconnect: here is their handle back.
    Restore(Option<H>),
    /// The player is already playing from another connection.
    AlreadyPlaying,
    /// The player now waits to be matched.
    Waiting,
}

/// The server's registry of players: who plays, each player's handle on
/// their table, the turn clock saved at a disconnect, who waits for a
/// table, who is parked in the grace window after leaving, and the numbers
/// of tables created and still running.
pub struct GamePool<H> {
    players: HashSet<PID>,
    players_channels: HashMap<PID, H>,
    players_time: HashMap<PID, Option<u64>>,
    waiting_players: Vec<PID>,
    on_delete: HashMap<PID, Option<H>>,
    counter: usize,
    playing: usize,
}

/// Mathematical model of the registry.
pub struct PoolView<H> {
    pub players: Set<PID>,
    pub channels: Map<PID, H>,
    pub times: Map<PID, Option<u64>>,
    pub waiting: Seq<PID>,
    pub on_delete: Map<PID, Option<H>>,
    pub counter: nat,
    pub playing: nat,
}

impl<H> View for GamePool<H> {
    type V = PoolView<H>;

    closed spec fn view(&self) -> PoolView<H> {
        PoolView {
            players: self.players@,
            channels: self.players_channels@,
            times: self.players_time@,
            waiting: self.waiting_players@,
            on_delete: self.on_delete@,
            counter: self.counter as nat,
            playing: self.playing as nat,
        }
    }
}

impl<H> GamePool<H> {
    /// An empty registry.
    pub fn new() -> (r: GamePool<H>)
        ensures
            r@.players == Set::<PID>::empty(),
            r@.channels == Map::<PID, H>::empty(),
            r@.times == Map::<PID, Option<u64>>::empty(),
            r@.waiting == Seq::<PID>::empty(),
            r@.on_delete == Map::<PID, Option<H>>::empty(),
            r@.counter == 0,
            r@.playing == 0,
    {
        GamePool {
            players: HashSet::new(),
            players_channels: HashMap::new(),
            players_time: HashMap::new(),
            waiting_players: Vec::new(),
            on_delete: HashMap::new(),
            counter: 0,
            playing: 0,
        }
    }

    /// Dispatches an arriving connection of `pid`: a parked player gets
    /// their handle back; an active one is refused; anyone else waits (once).
    pub fn arrive(&mut self, pid: PID) -> (r: Arrival<H>)
        ensures
            old(self)@.on_delete.contains_key(pid) ==> {
                &&& r matches Arrival::Restore(h) && h == old(self)@.on_delete[pid]
                &&& final(self)@ == (PoolView { on_delete: old(self)@.on_delete.remove(pid), ..old(self)@ })
            },
            !old(self)@.on_delete.contains_key(pid) && old(self)@.players.contains(pid) ==> {
                &&& r is AlreadyPlaying
                &&& final(self)@ == old(self)@
            },
            !old(self)@.on_delete.contains_key(pid) && !old(self)@.players.contains(pid) ==> {
                &&& r is Waiting
                &&& final(self)@.waiting.contains(pid)
                &&& final(self)@ == (PoolView { waiting: final(self)@.waiting, ..old(self)@ })
                &&& final(self)@.waiting == if old(self)@.waiting.contains(pid) {
                    old(self)@.waiting
                } else {
                    old(self)@.waiting.push(pid)
                }
            },
            old(self)@.waiting.no_duplicates() ==> final(self)@.waiting.no_duplicates(),
    {
        if let Some(h) = self.on_delete.remove(&pid) {
            return Arrival::Restore(h);
        }
        assert(self.on_delete@ =~= old(self).on_delete@);
        if self.players.contains(&pid) {
            return Arrival::AlreadyPlaying;
        }
        if !vec_contains(&self.waiting_players, pid) {
            let ghost w0 = self.waiting_players@;
            self.waiting_players.push(pid);
            assert(self.waiting_players@[self.waiting_players@.len() - 1] == pid);
            assert forall|x: int, y: int| w0.no_duplicates() && 0 <= x < y < self.waiting_players@.len()
                implies self.waiting_players@[x] != self.waiting_players@[y] by {
                if y == w0.len() {
                    assert(w0[x] == self.waiting_players@[x]);
                }
            }
        }
        Arrival::Waiting
    }

    /// How many players wait for a table.
    pub fn waiting_count(&self) -> (r: usize)
        ensures
            r == self@.waiting.len(),
    {
        self.waiting_players.len()
    }

    /// Are enough players waiting to start a table?
    pub fn ready_to_match(&self) -> (r: bool)
        ensures
            r == (self@.waiting.len() >= 2),
    {
        self.waiting_players.len() >= 2
    }

    /// Is `pid` registered as playing?
    pub fn is_playing(&self, pid: PID) -> (r: bool)
        ensures
            r == self@.players.contains(pid),
    {
        self.players.contains(&pid)
    }

    /// Starts a table for everyone waiting: they become players with no
    /// saved turn clock, nobody waits any more, and both table counters go
    /// up (saturating).  Returns the new table's number and its players.
    pub fn create_game(&mut self) -> (r: (usize, Vec<PID>))
        ensures
            r.1@ == old(self)@.waiting,
            final(self)@.waiting == Seq::<PID>::empty(),
            final(self)@.players == old(self)@.players.union(old(self)@.waiting.to_set()),
            forall|p: PID| #[trigger] final(self)@.times.contains_key(p) <==> (old(self)@.times.contains_key(p) || old(self)@.waiting.contains(p)),
            forall|p: PID| old(self)@.waiting.contains(p) ==> #[trigger] final(self)@.times[p] is None,
            final(self)@.channels == old(self)@.channels,
            final(self)@.on_delete == old(self)@.on_delete,
            final(self)@.counter == final_counter(old(self)@.counter),
            final(self)@.playing == final_counter(old(self)@.playing),
            r.0 == final(self)@.counter,
    {
        if self.counter < usize::MAX {
            self.counter = self.counter + 1;
        }
        if self.playing < usize::MAX {
            self.playing = self.playing + 1;
        }
        let mut drained: Vec<PID> = Vec::new();
        std::mem::swap(&mut drained, &mut self.waiting_players);
        let ghost old_times = self.players_time@;
        let ghost old_players = self.players@;
        let mut i: usize = 0;
        while i < drained.len()
            invariant
                0 <= i <= drained@.len(),
                drained@ == old(self)@.waiting,
                self.waiting_players@ == Seq::<PID>::empty(),
                self.players@ == old_players.union(drained@.subrange(0, i as int).to_set()),
                forall|p: PID| #[trigger] self.players_time@.contains_key(p) <==> (old_times.contains_key(p) || drained@.subrange(0, i as int).contains(p)),
                forall|p: PID| drained@.subrange(0, i as int).contains(p) ==> #[trigger] self.players_time@[p] is None,
                self.players_channels@ == old(self)@.channels,
                self.on_delete@ == old(self)@.on_delete,
                old_players == old(self)@.players,
                old_times == old(self)@.times,
                self.counter == final_counter(old(self)@.counter),
                self.playing == final_counter(old(self)@.playing),
            decreases drained@.len() - i,
        {
            let p = drained[i];
            let ghost before = drained@.subrange(0, i as int);
            assert(drained@.subrange(0, i + 1) =~= before.push(p));
            proof {
                before.lemma_push_to_set_commute(p);
            }
            self.players.insert(p);
            self.players_time.insert(p, None);
            proof {
                assert forall|q: PID| before.push(p).contains(q) <==> (before.contains(q) || q == p) by {
                    if before.push(p).contains(q) {
                        let k = choose|k: int| 0 <= k < before.push(p).len() && before.push(p)[k] == q;
                        if k < before.len() {
                            assert(before[k] == q);
                        }
                    }
                    if before.contains(q) {
                        let k = choose|k: int| 0 <= k < before.len() && before[k] == q;
                        assert(before.push(p)[k] == q);
                    }
                    if q == p {
                        assert(before.push(p)[before.len() as int] == q);
                    }
                }
                assert(self.players@ =~= old_players.union(before.push(p).to_set()));
            }
            i = i + 1;
        }
        assert(drained@.subrange(0, drained@.len() as int) =~= drained@);
        (self.counter, drained)
    }

    /// Records the handle of `pid` on their table.
    pub fn add_handle(&mut self, pid: PID, handle: H)
        ensures
            final(self)@ == (PoolView { channels: old(self)@.channels.insert(pid, handle), ..old(self)@ }),
    {
        self.players_channels.insert(pid, handle);
    }

    /// Takes out the handle of `pid`, if any.
    pub fn take_handle(&mut self, pid: PID) -> (r: Option<H>)
        ensures
            old(self)@.channels.contains_key(pid) ==> r == Some(old(self)@.channels[pid]),
            !old(self)@.channels.contains_key(pid) ==> r is None,
            final(self)@ == (PoolView { channels: old(self)@.channels.remove(pid), ..old(self)@ }),
    {
        self.players_channels.remove(&pid)
    }

    /// Takes out the turn clock saved for `pid`, if any.
    pub fn take_time(&mut self, pid: PID) -> (r: Option<u64>)
        ensures
            old(self)@.times.contains_key(pid) ==> r == old(self)@.times[pid],
            !old(self)@.times.contains_key(pid) ==> r is None,
            final(self)@ == (PoolView { times: old(self)@.times.remove(pid), ..old(self)@ }),
    {
        match self.players_time.remove(&pid) {
            Some(t) => t,
            None => None,
        }
    }

    /// Parks the handle of a departing `pid` for the grace window.
    pub fn park(&mut self, pid: PID, handle: Option<H>)
        ensures
            final(self)@ == (PoolView { on_delete: old(self)@.on_delete.insert(pid, handle), ..old(self)@ }),
    {
        self.on_delete.insert(pid, handle);
    }

    /// A waiting `pid` gave up before being matched.
    pub fn stop_waiting(&mut self, pid: PID)
        ensures
            !final(self)@.waiting.contains(pid),
            forall|p: PID| p != pid ==> (#[trigger] final(self)@.waiting.contains(p) <==> old(self)@.waiting.contains(p)),
            final(self)@ == (PoolView { waiting: final(self)@.waiting, ..old(self)@ }),
            old(self)@.waiting.no_duplicates() ==> final(self)@.waiting.no_duplicates(),
    {
        let mut kept: Vec<PID> = Vec::new();
        let mut i: usize = 0;
        while i < self.waiting_players.len()
            invariant
                0 <= i <= self.waiting_players@.len(),
                self.waiting_players@ == old(self)@.waiting,
                forall|p: PID| #[trigger] kept@.contains(p) <==> (p != pid && self.waiting_players@.subrange(0, i as int).contains(p)),
                self.waiting_players@.no_duplicates() ==> kept@.no_duplicates(),
            decreases self.waiting_players@.len() - i,
        {
            let p = self.waiting_players[i];
            let ghost before = self.waiting_players@.subrange(0, i as int);
            let ghost kept0 = kept@;
            assert(self.waiting_players@.subrange(0, i + 1) =~= before.push(p));
            if p != pid {
                proof {
                    if self.waiting_players@.no_duplicates() && kept0.contains(p) {
                        assert(before.contains(p));
                        let j = choose|j: int| 0 <= j < before.len() && before[j] == p;
                        assert(self.waiting_players@[j] == self.waiting_players@[i as int]);
                    }
                }
                kept.push(p);
                proof {
                    assert forall|x: int, y: int| self.waiting_players@.no_duplicates() && 0 <= x < y < kept@.len()
                        implies kept@[x] != kept@[y] by {
                        if y == kept0.len() {
                            assert(kept0[x] == kept@[x]);
                            assert(kept0.contains(kept@[x]));
                        } else {
                            assert(kept0[x] == kept@[x] && kept0[y] == kept@[y]);
                        }
                    }
                }
            }
            proof {
                assert forall|q: PID| #[trigger] kept@.contains(q) <==> (q != pid && before.push(p).contains(q)) by {
                    if kept@.contains(q) {
                        let k = choose|k: int| 0 <= k < kept@.len() && kept@[k] == q;
                        if k < kept0.len() {
                            assert(kept0[k] == q);
                            assert(kept0.contains(q));
                            assert(before.contains(q));
                            let j = choose|j: int| 0 <= j < before.len() && before[j] == q;
                            assert(before.push(p)[j] == q);
                        } else {
                            assert(before.push(p)[before.len() as int] == q);
                        }
                    }
                    if q != pid && before.push(p).contains(q) {
                        let k = choose|k: int| 0 <= k < before.push(p).len() && before.push(p)[k] == q;
                        if k < before.len() {
                            assert(before[k] == q);
                            assert(kept0.contains(q));
                            let j = choose|j: int| 0 <= j < kept0.len() && kept0[j] == q;
                            assert(kept@[j] == q);
                        } else {
                            assert(kept@[kept@.len() - 1] == q);
                        }
                    }
                }
            }
            i = i + 1;
        }
        assert(self.waiting_players@.subrange(0, self.waiting_players@.len() as int) =~= self.waiting_players@);
        self.waiting_players = kept;
    }

    /// Ends the grace window of a departed `pid`; `ended` says how their
    /// session ended (none: before they were matched; `Some(true)`: on
    /// purpose; `Some(false)`: the socket was lost).  If a reconnect took the
    /// parked handle back, nothing changes.  Otherwise the parking slot is
    /// freed; a player who had been matched is also forgotten, and their
    /// handle, if any, is handed out so that their table can be settled.
    pub fn end_grace(&mut self, pid: PID, ended: Option<bool>) -> (r: Departure<H>)
        ensures
            !old(self)@.on_delete.contains_key(pid) ==> r is Reclaimed && final(self)@ == old(self)@,
            old(self)@.on_delete.contains_key(pid) && ended is None ==> r is Forgotten
                && final(self)@ == (PoolView { on_delete: old(self)@.on_delete.remove(pid), ..old(self)@ }),
            old(self)@.on_delete.contains_key(pid) && ended is Some ==> {
                &&& match old(self)@.on_delete[pid] {
                    Some(h) => r == Departure::Settle(h),
                    None => r is Forgotten,
                }
                &&& final(self)@ == (PoolView {
                    on_delete: old(self)@.on_delete.remove(pid),
                    players: old(self)@.players.remove(pid),
                    channels: old(self)@.channels.remove(pid),
                    times: old(self)@.times.remove(pid),
                    ..old(self)@
                })
            },
    {
        match self.on_delete.remove(&pid) {
            None => {
                assert(self.on_delete@ =~= old(self).on_delete@);
                Departure::Reclaimed
            },
            Some(handle) => match ended {
                None => Departure::Forgotten,
                Some(_) => {
                    self.players.remove(&pid);
                    self.players_channels.remove(&pid);
                    self.players_time.remove(&pid);
                    match handle {
                        Some(h) => Departure::Settle(h),
                        None => Departure::Forgotten,
                    }
                },
            },
        }
    }

    /// A departed player left their table; `last` is the table's answer to
    /// the leave request.  When they were its last player the table has
    /// stopped running.
    pub fn table_exited(&mut self, last: Option<bool>)
        ensures
            final(self)@ == (PoolView {
                playing: if last == Some(true) && old(self)@.playing > 0 {
                    (old(self)@.playing - 1) as nat
                } else {
                    old(self)@.playing
                },
                ..old(self)@
            }),
    {
        if last == Some(true) && self.playing > 0 {
            self.playing = self.playing - 1;
        }
    }

    /// A session has closed.  Only when the socket was lost (not ended on
    /// purpose) is the turn clock kept for a reconnect.
    pub fn session_closed(&mut self, pid: PID, ended_on_purpose: bool, stepping_time: Option<u64>)
        ensures
            ended_on_purpose ==> final(self)@ == old(self)@,
            !ended_on_purpose ==> final(self)@ == (PoolView { times: old(self)@.times.insert(pid, stepping_time), ..old(self)@ }),
    {
        if !ended_on_purpose {
            self.players_time.insert(pid, stepping_time);
        }
    }

    /// The numbers of tables created so far and still running.
    pub fn stats(&self) -> (r: (usize, usize))
        ensures
            r.0 == self@.counter,
            r.1 == self@.playing,
    {
        (self.counter, self.playing)
    }
}

/// Has a turn that began at `start` run over the budget at `now`?
pub open spec fn timed_out(start: Option<u64>, now: u64) -> bool {
    match start {
        Some(t) => elapsed_ms(t, now) > TIMEOUT_MS,
        None => false,
    }
}

pub open spec fn final_counter(c: nat) -> nat {
    if c < usize::MAX {
        c + 1
    } else {
        c
    }
}

fn vec_contains(v: &Vec<PID>, pid: PID) -> (r: bool)
    ensures
        r == v@.contains(pid),
{
    let mut i: usize = 0;
    while i < v.len()
        invariant
            0 <= i <= v@.len(),
            forall|j: int| 0 <= j < i ==> v@[j] != pid,
        decreases v@.len() - i,
    {
        if v[i] == pid {
            assert(v@[i as int] == pid);
            return true;
        }
        i = i + 1;
    }
    false
}

} // verus!
