//! Laws of the table: what every step and every kick keeps true.

use vstd::prelude::*;

use crate::card::Card;
use crate::comb::recognise;
use crate::game::{
    apart, board_cards, bonus, bonus_all, cards_apart, get_comb, held, in_play, kick,
    kicked, lemma_walk_in_range, others_of, ring, seat_of, step_outcome, top_up, top_up_all,
    turn_live, valid, discarded, BoardView, GameView, Step, StepError, PID, PLAYERS_CARDS, taken,
};

verus! {

/// With an empty board the stepping player may only draw a card or lay a
/// combination: picking up or transferring is refused and changes nothing.
pub proof fn lemma_passive_board_steps(v: GameView, pid: PID, step: Step)
    requires
        v.board is None,
        step is GetComb || step is TransComb,
    ensures
        step_outcome(v, pid, step).0 is Err,
        step_outcome(v, pid, step).1 == v,
{
}

/// Drawing from an empty deck is refused as a step of the wrong kind.
pub proof fn lemma_get_card_empty_deck(v: GameView, pid: PID)
    requires
        seat_of(v.ids, pid) == Some(v.stepping as int),
        v.deck.len() == 0,
    ensures
        step_outcome(v, pid, Step::GetCard) == (Err::<(), StepError>(StepError::InvalidStepType), v),
{
}

proof fn lemma_top_up_all_grows(hands: Seq<Set<Card>>, deck: Seq<Card>, seats: Seq<int>, s: int)
    requires
        0 <= s < hands.len(),
        forall|k: int| 0 <= k < seats.len() ==> 0 <= #[trigger] seats[k] < hands.len(),
    ensures
        hands[s].subset_of(top_up_all(hands, deck, seats).0[s]),
        top_up_all(hands, deck, seats).0.len() == hands.len(),
    decreases seats.len(),
{
    if seats.len() > 0 {
        let (h, d) = top_up(hands, deck, seats[0]);
        assert(h[s] == if s == seats[0] { h[s] } else { hands[s] });
        lemma_top_up_all_grows(h, d, seats.drop_first(), s);
    }
}

proof fn lemma_bonus_all_grows(hands: Seq<Set<Card>>, deck: Seq<Card>, seats: Seq<int>, s: int)
    requires
        0 <= s < hands.len(),
        forall|k: int| 0 <= k < seats.len() ==> 0 <= #[trigger] seats[k] < hands.len(),
    ensures
        hands[s].subset_of(bonus_all(hands, deck, seats).0[s]),
        bonus_all(hands, deck, seats).0.len() == hands.len(),
    decreases seats.len(),
{
    if seats.len() > 0 {
        let (h, d) = bonus(hands, deck, seats[0]);
        lemma_bonus_all_grows(h, d, seats.drop_first(), s);
    }
}

/// A player whose hand and the deck are both empty after a step of theirs
/// is out of the rotation once that step is done.
pub proof fn lemma_empty_hand_kicked(v: GameView, pid: PID, step: Step)
    requires
        valid(v),
        step_outcome(v, pid, step).0 is Ok,
    ensures
        ({
            let w = step_outcome(v, pid, step).1;
            let p = seat_of(v.ids, pid)->0;
            w.deck.len() == 0 && w.hands[p] == Set::<Card>::empty() ==> kicked(w, p)
        }),
{
    let p = seat_of(v.ids, pid)->0;
    let w = step_outcome(v, pid, step).1;
    match (v.board, step) {
        (None, Step::GetCard) => {
            assert(w.hands[p].contains(v.deck.last()));
        },
        (Some(b), Step::GetComb) => {
            let others = others_of(v, p);
            let h1 = v.hands.update(p, v.hands[p].union(b.comb_cards));
            let (h2, d2) = top_up_all(h1, v.deck, others.push(p));
            lemma_walk_in_range(v.next, v.next[p] as int, p, v.ids.len());
            assert forall|k: int| 0 <= k < others.push(p).len() implies 0 <= #[trigger] others.push(p)[k] < h1.len() by {
                if k < others.len() {
                    assert(others.push(p)[k] == others[k]);
                }
            }
            lemma_top_up_all_grows(h1, v.deck, others.push(p), p);
            lemma_bonus_all_grows(h2, d2, others, p);
            let c = b.comb_cards.choose();
            if b.comb_cards.len() == 0 {
                assert(b.comb_cards =~= Set::<Card>::empty());
            }
            if !b.comb_cards.contains(c) {
                assert(b.comb_cards =~= Set::<Card>::empty());
                assert(b.comb_cards.len() == 0);
            }
            assert(w.hands[p].contains(c));
        },
        _ => {},
    }
}

/// Kicking a seat keeps the live seats a circle, and keeps the turn at a
/// live seat while nobody has won.
pub proof fn lemma_kick_keeps_ring(v: GameView, p: int)
    requires
        valid(v),
        ring(v),
        turn_live(v),
        0 <= p < v.ids.len(),
    ensures
        ring(kick(v, p)),
        turn_live(kick(v, p)),
        valid(kick(v, p)),
{
    if v.next[p] != p {
        let a = v.prev[p] as int;
        let b = v.next[p] as int;
        let w = kick(v, p);
        assert(v.prev[b] == p);
        assert(v.next[a] == p);
        assert(a != p);
        assert(b != p);
        assert forall|i: int| 0 <= i < w.ids.len() && !kicked(w, i) implies {
            &&& !kicked(w, w.next[i] as int)
            &&& !kicked(w, w.prev[i] as int)
            &&& w.prev[w.next[i] as int] == i
            &&& w.next[w.prev[i] as int] == i
        } by {
            assert(i != p);
            if a == b {
                assert(i != a);
                assert(!kicked(v, i));
                let ni = v.next[i] as int;
                let pi = v.prev[i] as int;
                assert(ni != p && ni != a);
                assert(pi != p && pi != a);
            } else if i == a {
                let pa = v.prev[a] as int;
                assert(!kicked(v, a));
                assert(pa != p && pa != a);
            } else if i == b {
                let nb = v.next[b] as int;
                assert(!kicked(v, b));
                assert(nb != p && nb != b);
            } else {
                assert(!kicked(v, i));
                let ni = v.next[i] as int;
                let pi = v.prev[i] as int;
                assert(ni != p && ni != b);
                assert(pi != p && pi != a);
            }
        }
        if w.winner is None {
            assert(v.winner is None);
            assert(a != b);
            if v.stepping == p {
                assert(!kicked(v, b));
            } else {
                assert(!kicked(v, v.stepping as int));
            }
        }
    }
}

proof fn lemma_get_comb_keeps_rotation(v: GameView, p: int)
    requires
        valid(v),
        0 <= p < v.ids.len(),
    ensures
        ({
            let w = get_comb(v, p, v.board->0);
            w.next == v.next && w.prev == v.prev && w.ids == v.ids && w.winner == v.winner
        }),
{
}

/// Every step keeps the live seats a circle and, while nobody has won,
/// leaves the turn at a live seat.
pub proof fn lemma_step_keeps_ring(v: GameView, pid: PID, step: Step)
    requires
        valid(v),
        ring(v),
        turn_live(v),
    ensures
        ring(step_outcome(v, pid, step).1),
        turn_live(step_outcome(v, pid, step).1),
{
    let w = step_outcome(v, pid, step).1;
    if step_outcome(v, pid, step).0 is Ok {
        let p = seat_of(v.ids, pid)->0;
        match (v.board, step) {
            (None, Step::GiveComb(cards)) => {
                let u = GameView {
                    hands: v.hands.update(p, v.hands[p].difference(cards@)),
                    board: Some(BoardView { cards: cards@, comb_cards: cards@, rank: recognise(cards@)->0 }),
                    ..v
                };
                if u.deck.len() == 0 && u.hands[p] == Set::<Card>::empty() {
                    let u2 = GameView { winner: if u.winner is None { Some(p as usize) } else { u.winner }, ..u };
                    lemma_kick_keeps_ring(u2, p);
                }
            },
            (Some(b), Step::TransComb(cards)) => {
                let u = GameView {
                    hands: v.hands.update(p, v.hands[p].difference(cards@)),
                    board: Some(BoardView { cards: b.cards.union(cards@), comb_cards: cards@, rank: recognise(cards@)->0 }),
                    ..v
                };
                if u.deck.len() == 0 && u.hands[p] == Set::<Card>::empty() {
                    let u2 = GameView { winner: if u.winner is None { Some(p as usize) } else { u.winner }, ..u };
                    lemma_kick_keeps_ring(u2, p);
                }
            },
            (Some(b), Step::GetComb) => {
                lemma_get_comb_keeps_rotation(v, p);
            },
            _ => {},
        }
    }
}

proof fn lemma_top_up_apart(h: Seq<Set<Card>>, d: Seq<Card>, s: int, b: Set<Card>)
    requires
        apart(h, d, b),
        0 <= s < h.len(),
    ensures
        apart(top_up(h, d, s).0, top_up(h, d, s).1, b),
        top_up(h, d, s).0.len() == h.len(),
        forall|c: Card| held(top_up(h, d, s).0, c) || top_up(h, d, s).1.contains(c) <==> held(h, c) || d.contains(c),
{
    let (h2, d2) = top_up(h, d, s);
    let k = if h[s].len() < PLAYERS_CARDS { taken(d.len() as int, PLAYERS_CARDS - h[s].len()) } else { 0 };
    let suffix = d.subrange(d.len() - k, d.len() as int);
    assert(d2 == d.subrange(0, d.len() - k));
    assert(h2 == h.update(s, h[s].union(suffix.to_set())));
    assert forall|c: Card| #[trigger] suffix.contains(c) implies d.contains(c) && !d2.contains(c) by {
        let x = choose|x: int| 0 <= x < suffix.len() && suffix[x] == c;
        assert(d[d.len() - k + x] == c);
        if d2.contains(c) {
            let y = choose|y: int| 0 <= y < d2.len() && d2[y] == c;
            assert(d[y] == c);
        }
    }
    assert forall|c: Card| #[trigger] d2.contains(c) implies d.contains(c) by {
        let y = choose|y: int| 0 <= y < d2.len() && d2[y] == c;
        assert(d[y] == c);
    }
    assert forall|c: Card| #[trigger] d.contains(c) implies d2.contains(c) || suffix.contains(c) by {
        let y = choose|y: int| 0 <= y < d.len() && d[y] == c;
        if y < d.len() - k {
            assert(d2[y] == c);
        } else {
            assert(suffix[y - (d.len() - k)] == c);
        }
    }
    assert forall|i: int, j: int, c: Card|
        0 <= i < h2.len() && 0 <= j < h2.len() && i != j && #[trigger] h2[i].contains(c)
            implies !#[trigger] h2[j].contains(c) by {
        if i == s {
            if suffix.contains(c) {
                assert(!h[j].contains(c));
            }
        } else if j == s {
            assert(h[i].contains(c));
            if suffix.contains(c) {
                assert(d.contains(c));
            }
        }
    }
    assert forall|i: int, c: Card| 0 <= i < h2.len() && #[trigger] h2[i].contains(c) implies !d2.contains(c) && !b.contains(c) by {
        if i == s && suffix.contains(c) {
            assert(d.contains(c));
        }
    }
    assert forall|c: Card| held(h2, c) || d2.contains(c) <==> held(h, c) || d.contains(c) by {
        if held(h2, c) {
            let i = choose|i: int| 0 <= i < h2.len() && #[trigger] h2[i].contains(c);
            if i == s && suffix.contains(c) {
            } else {
                assert(h[i].contains(c));
            }
        }
        if held(h, c) {
            let i = choose|i: int| 0 <= i < h.len() && #[trigger] h[i].contains(c);
            assert(h2[i].contains(c));
        }
        if d.contains(c) && !d2.contains(c) {
            assert(suffix.contains(c));
            assert(h2[s].contains(c));
        }
    }
}

proof fn lemma_top_up_all_apart(h: Seq<Set<Card>>, d: Seq<Card>, seats: Seq<int>, b: Set<Card>)
    requires
        apart(h, d, b),
        forall|k: int| 0 <= k < seats.len() ==> 0 <= #[trigger] seats[k] < h.len(),
    ensures
        apart(top_up_all(h, d, seats).0, top_up_all(h, d, seats).1, b),
        top_up_all(h, d, seats).0.len() == h.len(),
        forall|c: Card| held(top_up_all(h, d, seats).0, c) || top_up_all(h, d, seats).1.contains(c) <==> held(h, c) || d.contains(c),
    decreases seats.len(),
{
    if seats.len() > 0 {
        lemma_top_up_apart(h, d, seats[0], b);
        let (h1, d1) = top_up(h, d, seats[0]);
        assert forall|k: int| 0 <= k < seats.drop_first().len() implies 0 <= #[trigger] seats.drop_first()[k] < h1.len() by {
            assert(seats.drop_first()[k] == seats[k + 1]);
        }
        lemma_top_up_all_apart(h1, d1, seats.drop_first(), b);
    }
}

proof fn lemma_bonus_apart(h: Seq<Set<Card>>, d: Seq<Card>, s: int, b: Set<Card>)
    requires
        apart(h, d, b),
        0 <= s < h.len(),
    ensures
        apart(bonus(h, d, s).0, bonus(h, d, s).1, b),
        bonus(h, d, s).0.len() == h.len(),
        forall|c: Card| held(bonus(h, d, s).0, c) || bonus(h, d, s).1.contains(c) <==> held(h, c) || d.contains(c),
{
    if d.len() > 0 {
        let (h2, d2) = bonus(h, d, s);
        let top = d.last();
        assert(d.contains(top));
        assert(!d2.contains(top)) by {
            if d2.contains(top) {
                let y = choose|y: int| 0 <= y < d2.len() && d2[y] == top;
                assert(d[y] == top);
            }
        }
        assert forall|c: Card| #[trigger] d2.contains(c) implies d.contains(c) by {
            let y = choose|y: int| 0 <= y < d2.len() && d2[y] == c;
            assert(d[y] == c);
        }
        assert forall|c: Card| #[trigger] d.contains(c) implies d2.contains(c) || c == top by {
            let y = choose|y: int| 0 <= y < d.len() && d[y] == c;
            if y < d.len() - 1 {
                assert(d2[y] == c);
            }
        }
        assert forall|i: int, j: int, c: Card|
            0 <= i < h2.len() && 0 <= j < h2.len() && i != j && #[trigger] h2[i].contains(c)
                implies !#[trigger] h2[j].contains(c) by {
            if i == s && c == top {
                assert(!h[j].contains(c));
            } else if j == s {
                assert(h[i].contains(c));
            }
        }
        assert forall|c: Card| held(h2, c) || d2.contains(c) <==> held(h, c) || d.contains(c) by {
            if held(h2, c) {
                let i = choose|i: int| 0 <= i < h2.len() && #[trigger] h2[i].contains(c);
                if !(i == s && c == top) {
                    assert(h[i].contains(c));
                }
            }
            if held(h, c) {
                let i = choose|i: int| 0 <= i < h.len() && #[trigger] h[i].contains(c);
                assert(h2[i].contains(c));
            }
            if d.contains(c) && !d2.contains(c) {
                assert(h2[s].contains(c));
            }
        }
    }
}

proof fn lemma_bonus_all_apart(h: Seq<Set<Card>>, d: Seq<Card>, seats: Seq<int>, b: Set<Card>)
    requires
        apart(h, d, b),
        forall|k: int| 0 <= k < seats.len() ==> 0 <= #[trigger] seats[k] < h.len(),
    ensures
        apart(bonus_all(h, d, seats).0, bonus_all(h, d, seats).1, b),
        bonus_all(h, d, seats).0.len() == h.len(),
        forall|c: Card| held(bonus_all(h, d, seats).0, c) || bonus_all(h, d, seats).1.contains(c) <==> held(h, c) || d.contains(c),
    decreases seats.len(),
{
    if seats.len() > 0 {
        lemma_bonus_apart(h, d, seats[0], b);
        let (h1, d1) = bonus(h, d, seats[0]);
        assert forall|k: int| 0 <= k < seats.drop_first().len() implies 0 <= #[trigger] seats.drop_first()[k] < h1.len() by {
            assert(seats.drop_first()[k] == seats[k + 1]);
        }
        lemma_bonus_all_apart(h1, d1, seats.drop_first(), b);
    }
}

proof fn lemma_lay_cards(v: GameView, p: int, cards: Set<Card>, old_board: Set<Card>, comb_cards: Set<Card>)
    requires
        valid(v),
        apart(v.hands, v.deck, old_board),
        0 <= p < v.ids.len(),
        cards.subset_of(v.hands[p].union(old_board)),
    ensures
        apart(v.hands.update(p, v.hands[p].difference(cards)), v.deck, old_board.union(cards)),
        forall|c: Card|
            held(v.hands.update(p, v.hands[p].difference(cards)), c) || v.deck.contains(c) || old_board.union(cards).contains(c)
                <==> held(v.hands, c) || v.deck.contains(c) || old_board.contains(c),
{
    let h = v.hands;
    let h2 = h.update(p, h[p].difference(cards));
    let nb = old_board.union(cards);
    assert forall|i: int, j: int, c: Card|
        0 <= i < h2.len() && 0 <= j < h2.len() && i != j && #[trigger] h2[i].contains(c)
            implies !#[trigger] h2[j].contains(c) by {
        assert(h[i].contains(c));
    }
    assert forall|i: int, c: Card| 0 <= i < h2.len() && #[trigger] h2[i].contains(c) implies !v.deck.contains(c) && !nb.contains(c) by {
        assert(h[i].contains(c));
        if cards.contains(c) && i != p {
            if h[p].contains(c) {
                assert(!h[i].contains(c));
            }
        }
    }
    assert forall|c: Card| #[trigger] v.deck.contains(c) implies !nb.contains(c) by {
        if cards.contains(c) && h[p].contains(c) {
            assert(!v.deck.contains(c));
        }
    }
    assert forall|c: Card| held(h2, c) || v.deck.contains(c) || nb.contains(c) <==> held(h, c) || v.deck.contains(c) || old_board.contains(c) by {
        if held(h2, c) {
            let i = choose|i: int| 0 <= i < h2.len() && #[trigger] h2[i].contains(c);
            assert(h[i].contains(c));
        }
        if held(h, c) {
            let i = choose|i: int| 0 <= i < h.len() && #[trigger] h[i].contains(c);
            if !(i == p && cards.contains(c)) {
                assert(h2[i].contains(c));
            }
        }
        if cards.contains(c) && !old_board.contains(c) {
            assert(h[p].contains(c));
        }
    }
}

/// A step never puts a card in two places and never makes one up; the
/// cards that leave play are exactly those that `discarded` names: the
/// board's cards outside its combination, when a pick-up clears the board.
pub proof fn lemma_step_conserves_cards(v: GameView, pid: PID, step: Step)
    requires
        valid(v),
        cards_apart(v),
        step.wf(),
    ensures
        cards_apart(step_outcome(v, pid, step).1),
        forall|c: Card| in_play(step_outcome(v, pid, step).1, c) ==> in_play(v, c),
        forall|c: Card| in_play(v, c) && !in_play(step_outcome(v, pid, step).1, c) ==> board_cards(v).contains(c),
        forall|c: Card| #![trigger discarded(v, pid, step).contains(c)]
            in_play(v, c) && !in_play(step_outcome(v, pid, step).1, c) <==> discarded(v, pid, step).contains(c),
{
    let w = step_outcome(v, pid, step).1;
    if step_outcome(v, pid, step).0 is Ok {
        let p = seat_of(v.ids, pid)->0;
        match (v.board, step) {
            (None, Step::GetCard) => {
                lemma_bonus_apart(v.hands, v.deck, p, Set::empty());
                assert forall|c: Card| in_play(w, c) <==> in_play(v, c) by {}
            },
            (None, Step::GiveComb(cards)) => {
                lemma_lay_cards(v, p, cards@, Set::empty(), cards@);
                assert(Set::<Card>::empty().union(cards@) =~= cards@);
                assert forall|c: Card| in_play(w, c) <==> in_play(v, c) by {}
            },
            (Some(b), Step::TransComb(cards)) => {
                crate::cardset::lemma_finite(&cards);
                let x = cards@.intersect(v.hands[p]);
                let y = cards@.intersect(b.cards);
                vstd::set_lib::lemma_set_disjoint_lens(x, y);
                vstd::set_lib::lemma_len_subset(x.union(y), cards@);
                vstd::set_lib::lemma_subset_equality(x.union(y), cards@);
                assert(cards@.subset_of(v.hands[p].union(b.cards)));
                lemma_lay_cards(v, p, cards@, b.cards, cards@);
                assert forall|c: Card| in_play(w, c) <==> in_play(v, c) by {}
            },
            (Some(b), Step::GetComb) => {
                let others = others_of(v, p);
                let h1 = v.hands.update(p, v.hands[p].union(b.comb_cards));
                assert(apart(h1, v.deck, Set::empty())) by {
                    assert forall|i: int, j: int, c: Card|
                        0 <= i < h1.len() && 0 <= j < h1.len() && i != j && #[trigger] h1[i].contains(c)
                            implies !#[trigger] h1[j].contains(c) by {
                        if i == p && b.comb_cards.contains(c) {
                            assert(b.cards.contains(c));
                        } else if j == p && b.comb_cards.contains(c) {
                            assert(b.cards.contains(c));
                            assert(v.hands[i].contains(c));
                        }
                    }
                    assert forall|i: int, c: Card| 0 <= i < h1.len() && #[trigger] h1[i].contains(c) implies !v.deck.contains(c) by {
                        if i == p && b.comb_cards.contains(c) {
                            assert(b.cards.contains(c));
                        }
                    }
                }
                lemma_walk_in_range(v.next, v.next[p] as int, p, v.ids.len());
                assert forall|k: int| 0 <= k < others.push(p).len() implies 0 <= #[trigger] others.push(p)[k] < h1.len() by {
                    if k < others.len() {
                        assert(others.push(p)[k] == others[k]);
                    }
                }
                lemma_top_up_all_apart(h1, v.deck, others.push(p), Set::empty());
                let (h2, d2) = top_up_all(h1, v.deck, others.push(p));
                lemma_bonus_all_apart(h2, d2, others, Set::empty());
                assert forall|c: Card| in_play(w, c) implies in_play(v, c) by {
                    if held(h1, c) {
                        let i = choose|i: int| 0 <= i < h1.len() && #[trigger] h1[i].contains(c);
                        if !(i == p && b.comb_cards.contains(c)) {
                            assert(v.hands[i].contains(c));
                        }
                    }
                }
                assert forall|c: Card| in_play(v, c) && !in_play(w, c) implies board_cards(v).contains(c) && !b.comb_cards.contains(c) by {
                    if held(v.hands, c) {
                        let i = choose|i: int| 0 <= i < v.hands.len() && #[trigger] v.hands[i].contains(c);
                        assert(h1[i].contains(c));
                    }
                    if b.comb_cards.contains(c) {
                        assert(h1[p].contains(c));
                    }
                }
                assert forall|c: Card| b.cards.contains(c) && !b.comb_cards.contains(c) implies !in_play(w, c) by {
                    if held(h1, c) {
                        let i = choose|i: int| 0 <= i < h1.len() && #[trigger] h1[i].contains(c);
                        if i != p || !b.comb_cards.contains(c) {
                            assert(v.hands[i].contains(c));
                        }
                    }
                }
            },
            _ => {},
        }
    }
}

} // verus!
