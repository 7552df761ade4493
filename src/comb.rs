use vstd::prelude::*;

use crate::card::{Card, CardRank, CardSuit};
use crate::cardset::CardSet;

verus! {

/// Category of a combination together with what breaks ties inside it,
/// listed from the weakest category to the strongest.
#[derive(PartialEq, Eq, Structural, Clone, Copy, Debug)]
pub enum CombRank {
    HighestCard(CardRank),
    Pair(CardRank),
    TwoPairs(CardRank, CardRank),
    ThreeOfAKind(CardRank),
    Straight(CardRank),
    Flush(CardRank, CardRank, CardRank, CardRank, CardRank),
    FullHouse(CardRank, CardRank),
    FourOfAKind(CardRank),
    StraightFlush(CardRank),
}

/// Does `s` hold the card of rank position `r` and suit `suit`?
pub open spec fn has(s: Set<Card>, r: int, suit: CardSuit) -> bool {
    s.contains(Card { rank: CardRank::at_spec(r), suit })
}

pub open spec fn indicator(b: bool) -> int {
    if b {
        1
    } else {
        0
    }
}

/// How many cards of rank position `r` are in `s`.
pub open spec fn rank_count(s: Set<Card>, r: int) -> int {
    indicator(has(s, r, CardSuit::Spades)) + indicator(has(s, r, CardSuit::Clubs)) + indicator(
        has(s, r, CardSuit::Diamonds),
    ) + indicator(has(s, r, CardSuit::Hearts))
}

/// The cards of `s` of one suit.
pub open spec fn suit_part(s: Set<Card>, suit: CardSuit) -> Set<Card> {
    s.filter(|c: Card| c.suit == suit)
}

/// The cards of `s`, or only those of one suit.
pub open spec fn selection(s: Set<Card>, suit: Option<CardSuit>) -> Set<Card> {
    match suit {
        Some(x) => suit_part(s, x),
        None => s,
    }
}

/// Is some card of rank position `r` in `s`?  Position -1 stands for the
/// Ace played below the Two.
pub open spec fn present(s: Set<Card>, r: int) -> bool {
    if r < 0 {
        rank_count(s, 12) > 0
    } else {
        rank_count(s, r) > 0
    }
}

/// Are the five rank positions `t-4 ..= t` all present in `s`?
pub open spec fn window(s: Set<Card>, t: int) -> bool {
    present(s, t) && present(s, t - 1) && present(s, t - 2) && present(s, t - 3) && present(
        s,
        t - 4,
    )
}

/// The highest top position `3 <= t <= from` of five consecutive ranks in `s`.
pub open spec fn top_window(s: Set<Card>, from: int) -> Option<int>
    decreases from,
{
    if from < 3 {
        None
    } else if window(s, from) {
        Some(from)
    } else {
        top_window(s, from - 1)
    }
}

/// The highest rank position `r <= from`, other than `except`, held by at
/// least `n` cards of `s`; `except == 13` excludes nothing.
pub open spec fn highest_count(s: Set<Card>, n: int, except: int, from: int) -> Option<int>
    decreases from + 1,
{
    if from < 0 {
        None
    } else if from != except && rank_count(s, from) >= n {
        Some(from)
    } else {
        highest_count(s, n, except, from - 1)
    }
}

/// The ranks of suit `suit` held in `s` at positions `<= from`, high to low.
pub open spec fn desc_ranks(s: Set<Card>, suit: CardSuit, from: int) -> Seq<CardRank>
    decreases from + 1,
{
    if from < 0 {
        Seq::empty()
    } else if has(s, from, suit) {
        seq![CardRank::at_spec(from)] + desc_ranks(s, suit, from - 1)
    } else {
        desc_ranks(s, suit, from - 1)
    }
}

pub open spec fn opt_rank(o: Option<int>) -> Option<CardRank> {
    match o {
        Some(i) => Some(CardRank::at_spec(i)),
        None => None,
    }
}

/// The highest rank held `x` times and then the highest other rank held `y`
/// times, `x >= y`.
pub open spec fn xy_ranks(s: Set<Card>, x: int, y: int) -> Option<(CardRank, CardRank)> {
    match highest_count(s, x, 13, 12) {
        Some(a) => match highest_count(s, y, a, 12) {
            Some(b) => Some((CardRank::at_spec(a), CardRank::at_spec(b))),
            None => None,
        },
        None => None,
    }
}

/// The top of the straight made by the cards of the first suit, in suit
/// order, whose cards make one.
pub open spec fn straight_flush_top(s: Set<Card>) -> Option<int> {
    if top_window(suit_part(s, CardSuit::Spades), 12) is Some {
        top_window(suit_part(s, CardSuit::Spades), 12)
    } else if top_window(suit_part(s, CardSuit::Clubs), 12) is Some {
        top_window(suit_part(s, CardSuit::Clubs), 12)
    } else if top_window(suit_part(s, CardSuit::Diamonds), 12) is Some {
        top_window(suit_part(s, CardSuit::Diamonds), 12)
    } else {
        top_window(suit_part(s, CardSuit::Hearts), 12)
    }
}

/// The five ranks, high to low, of the first suit of which `s` holds five.
pub open spec fn flush_ranks(s: Set<Card>) -> Option<Seq<CardRank>> {
    if desc_ranks(s, CardSuit::Spades, 12).len() == 5 {
        Some(desc_ranks(s, CardSuit::Spades, 12))
    } else if desc_ranks(s, CardSuit::Clubs, 12).len() == 5 {
        Some(desc_ranks(s, CardSuit::Clubs, 12))
    } else if desc_ranks(s, CardSuit::Diamonds, 12).len() == 5 {
        Some(desc_ranks(s, CardSuit::Diamonds, 12))
    } else if desc_ranks(s, CardSuit::Hearts, 12).len() == 5 {
        Some(desc_ranks(s, CardSuit::Hearts, 12))
    } else {
        None
    }
}


/// The combination that the card set `s` forms: the first category, from the
/// strongest down, whose condition `s` meets.
pub open spec fn recognise(s: Set<Card>) -> Option<CombRank> {
    let n = s.len();
    if n == 5 && straight_flush_top(s) is Some {
        Some(CombRank::StraightFlush(CardRank::at_spec(straight_flush_top(s)->0)))
    } else if (n == 4 || n == 5) && highest_count(s, 4, 13, 12) is Some {
        Some(CombRank::FourOfAKind(CardRank::at_spec(highest_count(s, 4, 13, 12)->0)))
    } else if n == 5 && xy_ranks(s, 3, 2) is Some {
        {
            let (a, b) = xy_ranks(s, 3, 2)->0;
            Some(CombRank::FullHouse(a, b))
        }
    } else if n == 5 && flush_ranks(s) is Some {
        {
            let q = flush_ranks(s)->0;
            Some(CombRank::Flush(q[0], q[1], q[2], q[3], q[4]))
        }
    } else if n == 5 && top_window(s, 12) is Some {
        Some(CombRank::Straight(CardRank::at_spec(top_window(s, 12)->0)))
    } else if n == 3 && highest_count(s, 3, 13, 12) is Some {
        Some(CombRank::ThreeOfAKind(CardRank::at_spec(highest_count(s, 3, 13, 12)->0)))
    } else if n == 4 && xy_ranks(s, 2, 2) is Some {
        {
            let (a, b) = xy_ranks(s, 2, 2)->0;
            Some(CombRank::TwoPairs(a, b))
        }
    } else if n == 2 && highest_count(s, 2, 13, 12) is Some {
        Some(CombRank::Pair(CardRank::at_spec(highest_count(s, 2, 13, 12)->0)))
    } else if n == 1 && highest_count(s, 1, 13, 12) is Some {
        Some(CombRank::HighestCard(CardRank::at_spec(highest_count(s, 1, 13, 12)->0)))
    } else {
        None
    }
}


pub open spec fn opt_pos(r: Option<usize>) -> Option<int> {
    match r {
        Some(i) => Some(i as int),
        None => None,
    }
}

/// Weight of a category: HighestCard = 0 .. StraightFlush = 8.
pub open spec fn kind(c: CombRank) -> int {
    match c {
        CombRank::HighestCard(_) => 0,
        CombRank::Pair(_) => 1,
        CombRank::TwoPairs(_, _) => 2,
        CombRank::ThreeOfAKind(_) => 3,
        CombRank::Straight(_) => 4,
        CombRank::Flush(_, _, _, _, _) => 5,
        CombRank::FullHouse(_, _) => 6,
        CombRank::FourOfAKind(_) => 7,
        CombRank::StraightFlush(_) => 8,
    }
}

/// The rank positions that break ties inside a category, most significant first.
pub open spec fn payload(c: CombRank) -> Seq<int> {
    match c {
        CombRank::HighestCard(r) => seq![r.pos()],
        CombRank::Pair(r) => seq![r.pos()],
        CombRank::TwoPairs(a, b) => seq![a.pos(), b.pos()],
        CombRank::ThreeOfAKind(r) => seq![r.pos()],
        CombRank::Straight(r) => seq![r.pos()],
        CombRank::Flush(a, b, c, d, e) => seq![a.pos(), b.pos(), c.pos(), d.pos(), e.pos()],
        CombRank::FullHouse(a, b) => seq![a.pos(), b.pos()],
        CombRank::FourOfAKind(r) => seq![r.pos()],
        CombRank::StraightFlush(r) => seq![r.pos()],
    }
}

/// Lexicographic `a < b` on the entries from index `i` on.
pub open spec fn lex_lt(a: Seq<int>, b: Seq<int>, i: int) -> bool
    decreases a.len() - i,
{
    if !(0 <= i && i < a.len() && i < b.len()) {
        false
    } else if a[i] != b[i] {
        a[i] < b[i]
    } else {
        lex_lt(a, b, i + 1)
    }
}

/// The order of combinations: by category, then by the tie-break ranks.
pub open spec fn comb_lt(a: CombRank, b: CombRank) -> bool {
    kind(a) < kind(b) || (kind(a) == kind(b) && lex_lt(payload(a), payload(b), 0))
}

impl CombRank {
    pub fn kind_of(&self) -> (r: usize)
        ensures
            r == kind(*self),
    {
        match self {
            CombRank::HighestCard(_) => 0,
            CombRank::Pair(_) => 1,
            CombRank::TwoPairs(_, _) => 2,
            CombRank::ThreeOfAKind(_) => 3,
            CombRank::Straight(_) => 4,
            CombRank::Flush(_, _, _, _, _) => 5,
            CombRank::FullHouse(_, _) => 6,
            CombRank::FourOfAKind(_) => 7,
            CombRank::StraightFlush(_) => 8,
        }
    }

    pub fn payload_of(&self) -> (r: Vec<usize>)
        ensures
            r@.len() == payload(*self).len(),
            forall|i: int| 0 <= i < r@.len() ==> r@[i] as int == payload(*self)[i],
    {
        match self {
            CombRank::HighestCard(r) => vec![r.position()],
            CombRank::Pair(r) => vec![r.position()],
            CombRank::TwoPairs(a, b) => vec![a.position(), b.position()],
            CombRank::ThreeOfAKind(r) => vec![r.position()],
            CombRank::Straight(r) => vec![r.position()],
            CombRank::Flush(a, b, c, d, e) => vec![
                a.position(),
                b.position(),
                c.position(),
                d.position(),
                e.position(),
            ],
            CombRank::FullHouse(a, b) => vec![a.position(), b.position()],
            CombRank::FourOfAKind(r) => vec![r.position()],
            CombRank::StraightFlush(r) => vec![r.position()],
        }
    }

    /// Is `self` strictly weaker than `other`?
    pub fn is_weaker(&self, other: &CombRank) -> (r: bool)
        ensures
            r == comb_lt(*self, *other),
    {
        let ka = self.kind_of();
        let kb = other.kind_of();
        if ka != kb {
            return ka < kb;
        }
        let pa = self.payload_of();
        let pb = other.payload_of();
        let ghost sa = payload(*self);
        let ghost sb = payload(*other);
        let mut i: usize = 0;
        while i < pa.len() && i < pb.len()
            invariant
                0 <= i <= pa.len(),
                kind(*self) == kind(*other),
                sa == payload(*self),
                sb == payload(*other),
                pa@.len() == sa.len(),
                pb@.len() == sb.len(),
                forall|j: int| 0 <= j < pa@.len() ==> pa@[j] as int == sa[j],
                forall|j: int| 0 <= j < pb@.len() ==> pb@[j] as int == sb[j],
                lex_lt(sa, sb, 0) == lex_lt(sa, sb, i as int),
            decreases pa.len() - i,
        {
            if pa[i] != pb[i] {
                assert(sa[i as int] == pa@[i as int] as int);
                assert(sb[i as int] == pb@[i as int] as int);
                return pa[i] < pb[i];
            }
            assert(sa[i as int] == sb[i as int]);
            i = i + 1;
        }
        false
    }
}

/// A combination: a set of cards together with the rank it forms.
#[derive(Debug)]
pub struct Comb {
    cards: CardSet,
    rank: CombRank,
}

impl Comb {
    /// The rank the combination was built with.
    pub closed spec fn rank_view(&self) -> CombRank {
        self.rank
    }

    /// The cards of the combination.
    pub closed spec fn cards_view(&self) -> Set<Card> {
        self.cards@
    }

    /// The cards are a well-formed set and form exactly the combination's
    /// rank; every combination the library builds is well formed.
    pub closed spec fn wf(&self) -> bool {
        self.cards.wf() && recognise(self.cards@) == Some(self.rank)
    }

    /// The cards of the combination.
    pub fn cards(&self) -> (r: &CardSet)
        ensures
            r@ == self.cards_view(),
            self.wf() ==> r.wf(),
    {
        &self.cards
    }

    /// The rank of the combination.
    pub fn rank(&self) -> (r: CombRank)
        ensures
            r == self.rank_view(),
    {
        self.rank
    }

    /// The combination formed by `cards`, if they form one.
    pub fn new(cards: CardSet) -> (r: Option<Comb>)
        requires
            cards.wf(),
        ensures
            recognise(cards@) is None <==> r is None,
            r matches Some(c) ==> c.wf() && c.cards_view() == cards@ && Some(c.rank_view()) == recognise(
                cards@,
            ),
    {
        let rank = Comb::get_rank(&cards);
        match rank {
            Some(rank) => Some(Comb { cards, rank }),
            None => None,
        }
    }

    /// Is `self` strictly stronger than `other`?
    pub fn beats(&self, other: &Comb) -> (r: bool)
        ensures
            r == comb_lt(other.rank_view(), self.rank_view()),
    {
        other.rank.is_weaker(&self.rank)
    }

    /// A copy of the combination.
    pub fn clone_comb(&self) -> (r: Comb)
        requires
            self.wf(),
        ensures
            r.wf(),
            r.cards_view() == self.cards_view(),
            r.rank_view() == self.rank_view(),
    {
        Comb { cards: self.cards.clone_set(), rank: self.rank }
    }

    fn has_card(cards: &CardSet, r: usize, suit: CardSuit) -> (b: bool)
        requires
            r < 13,
        ensures
            b == has(cards@, r as int, suit),
    {
        cards.contains(&Card { rank: CardRank::at(r), suit })
    }

    pub(crate) fn count_rank(cards: &CardSet, r: usize) -> (n: usize)
        requires
            r < 13,
        ensures
            n == rank_count(cards@, r as int),
    {
        let mut n: usize = 0;
        if Comb::has_card(cards, r, CardSuit::Spades) {
            n = n + 1;
        }
        if Comb::has_card(cards, r, CardSuit::Clubs) {
            n = n + 1;
        }
        if Comb::has_card(cards, r, CardSuit::Diamonds) {
            n = n + 1;
        }
        if Comb::has_card(cards, r, CardSuit::Hearts) {
            n = n + 1;
        }
        n
    }

    fn highest_count(cards: &CardSet, n: usize, except: usize) -> (r: Option<usize>)
        ensures
            opt_pos(r) == highest_count(cards@, n as int, except as int, 12),
            r matches Some(i) ==> i < 13,
    {
        let mut i: usize = 13;
        while i > 0
            invariant
                i <= 13,
                highest_count(cards@, n as int, except as int, 12) == highest_count(
                    cards@,
                    n as int,
                    except as int,
                    i - 1,
                ),
            decreases i,
        {
            i = i - 1;
            if i != except && Comb::count_rank(cards, i) >= n {
                return Some(i);
            }
        }
        None
    }

    fn is_x_of_a_kind(cards: &CardSet, x: usize) -> (r: Option<CardRank>)
        requires
            cards.wf(),
        ensures
            r == (if cards@.len() == x {
                opt_rank(highest_count(cards@, x as int, 13, 12))
            } else {
                None
            }),
    {
        if cards.len() == x {
            match Comb::highest_count(cards, x, 13) {
                Some(i) => Some(CardRank::at(i)),
                None => None,
            }
        } else {
            None
        }
    }

    fn is_xy_of_a_kind(cards: &CardSet, x: usize, y: usize) -> (r: Option<(CardRank, CardRank)>)
        requires
            cards.wf(),
            x <= 5,
            y <= 5,
        ensures
            r == (if cards@.len() == x + y {
                if x >= y {
                    xy_ranks(cards@, x as int, y as int)
                } else {
                    xy_ranks(cards@, y as int, x as int)
                }
            } else {
                None
            }),
    {
        if cards.len() == x + y {
            let (hi, lo) = if x >= y {
                (x, y)
            } else {
                (y, x)
            };
            match Comb::highest_count(cards, hi, 13) {
                Some(a) => match Comb::highest_count(cards, lo, a) {
                    Some(b) => Some((CardRank::at(a), CardRank::at(b))),
                    None => None,
                },
                None => None,
            }
        } else {
            None
        }
    }

    fn is_four_of_a_kind(cards: &CardSet) -> (r: Option<CardRank>)
        requires
            cards.wf(),
        ensures
            r == (if cards@.len() == 4 || cards@.len() == 5 {
                opt_rank(highest_count(cards@, 4, 13, 12))
            } else {
                None
            }),
    {
        let n = cards.len();
        if n == 4 || n == 5 {
            match Comb::highest_count(cards, 4, 13) {
                Some(i) => Some(CardRank::at(i)),
                None => None,
            }
        } else {
            None
        }
    }

    fn is_full_house(cards: &CardSet) -> (r: Option<(CardRank, CardRank)>)
        requires
            cards.wf(),
        ensures
            r == (if cards@.len() == 5 {
                xy_ranks(cards@, 3, 2)
            } else {
                None
            }),
    {
        Comb::is_xy_of_a_kind(cards, 3, 2)
    }

    fn is_set(cards: &CardSet) -> (r: Option<CardRank>)
        requires
            cards.wf(),
        ensures
            r == (if cards@.len() == 3 {
                opt_rank(highest_count(cards@, 3, 13, 12))
            } else {
                None
            }),
    {
        Comb::is_x_of_a_kind(cards, 3)
    }

    fn is_two_pairs(cards: &CardSet) -> (r: Option<(CardRank, CardRank)>)
        requires
            cards.wf(),
        ensures
            r == (if cards@.len() == 4 {
                xy_ranks(cards@, 2, 2)
            } else {
                None
            }),
    {
        Comb::is_xy_of_a_kind(cards, 2, 2)
    }

    fn is_pair(cards: &CardSet) -> (r: Option<CardRank>)
        requires
            cards.wf(),
        ensures
            r == (if cards@.len() == 2 {
                opt_rank(highest_count(cards@, 2, 13, 12))
            } else {
                None
            }),
    {
        Comb::is_x_of_a_kind(cards, 2)
    }

    fn is_highest_card(cards: &CardSet) -> (r: Option<CardRank>)
        requires
            cards.wf(),
        ensures
            r == (if cards@.len() == 1 {
                opt_rank(highest_count(cards@, 1, 13, 12))
            } else {
                None
            }),
    {
        Comb::is_x_of_a_kind(cards, 1)
    }

    /// Which rank positions hold a card of `cards`, or of its cards of one suit.
    fn presence(cards: &CardSet, suit: Option<CardSuit>) -> (v: Vec<bool>)
        ensures
            v@.len() == 13,
            forall|i: int| 0 <= i < 13 ==> v@[i] == (rank_count(selection(cards@, suit), i) > 0),
    {
        let mut v: Vec<bool> = Vec::new();
        let mut i: usize = 0;
        while i < 13
            invariant
                0 <= i <= 13,
                v@.len() == i,
                forall|j: int| 0 <= j < i ==> v@[j] == (rank_count(selection(cards@, suit), j) > 0),
            decreases 13 - i,
        {
            let b = match suit {
                None => Comb::count_rank(cards, i) > 0,
                Some(x) => Comb::has_card(cards, i, x),
            };
            proof {
                if let Some(x) = suit {
                    let part = suit_part(cards@, x);
                    let r = CardRank::at_spec(i as int);
                    assert(part.contains(Card { rank: r, suit: x }) == cards@.contains(
                        Card { rank: r, suit: x },
                    ));
                    assert(!part.contains(Card { rank: r, suit: CardSuit::Spades }) || x
                        == CardSuit::Spades);
                    assert(!part.contains(Card { rank: r, suit: CardSuit::Clubs }) || x
                        == CardSuit::Clubs);
                    assert(!part.contains(Card { rank: r, suit: CardSuit::Diamonds }) || x
                        == CardSuit::Diamonds);
                    assert(!part.contains(Card { rank: r, suit: CardSuit::Hearts }) || x
                        == CardSuit::Hearts);
                }
            }
            v.push(b);
            i = i + 1;
        }
        v
    }

    /// The top of the highest five consecutive ranks among `cards`, or among
    /// its cards of one suit; the Ace also counts below the Two.
    fn straight_top(cards: &CardSet, suit: Option<CardSuit>) -> (r: Option<CardRank>)
        ensures
            r == opt_rank(top_window(selection(cards@, suit), 12)),
    {
        let v = Comb::presence(cards, suit);
        let mut t: usize = 13;
        while t > 3
            invariant
                3 <= t <= 13,
                v@.len() == 13,
                forall|i: int|
                    0 <= i < 13 ==> v@[i] == (rank_count(selection(cards@, suit), i) > 0),
                top_window(selection(cards@, suit), 12) == top_window(
                    selection(cards@, suit),
                    t - 1,
                ),
            decreases t,
        {
            t = t - 1;
            let low = if t == 3 {
                v[12]
            } else {
                v[t - 4]
            };
            if v[t] && v[t - 1] && v[t - 2] && v[t - 3] && low {
                return Some(CardRank::at(t));
            }
        }
        None
    }

    /// The top of the straight that five cards form, the Ace playing high
    /// or low: the highest five consecutive ranks among them.
    pub fn is_straight(cards: &CardSet) -> (r: Option<CardRank>)
        requires
            cards.wf(),
        ensures
            r == (if cards@.len() == 5 {
                opt_rank(top_window(cards@, 12))
            } else {
                None
            }),
    {
        if cards.len() == 5 {
            Comb::straight_top(cards, None)
        } else {
            None
        }
    }

    fn is_straight_flush(cards: &CardSet) -> (r: Option<CardRank>)
        requires
            cards.wf(),
        ensures
            r == (if cards@.len() == 5 {
                opt_rank(straight_flush_top(cards@))
            } else {
                None
            }),
    {
        if cards.len() == 5 {
            let a = Comb::straight_top(cards, Some(CardSuit::Spades));
            if a.is_some() {
                return a;
            }
            let b = Comb::straight_top(cards, Some(CardSuit::Clubs));
            if b.is_some() {
                return b;
            }
            let c = Comb::straight_top(cards, Some(CardSuit::Diamonds));
            if c.is_some() {
                return c;
            }
            Comb::straight_top(cards, Some(CardSuit::Hearts))
        } else {
            None
        }
    }

    /// The ranks of suit `suit` among `cards`, high to low.
    fn suit_ranks(cards: &CardSet, suit: CardSuit) -> (v: Vec<CardRank>)
        ensures
            v@ == desc_ranks(cards@, suit, 12),
    {
        let mut v: Vec<CardRank> = Vec::new();
        let mut i: usize = 13;
        while i > 0
            invariant
                i <= 13,
                v@ + desc_ranks(cards@, suit, i - 1) == desc_ranks(cards@, suit, 12),
            decreases i,
        {
            i = i - 1;
            if Comb::has_card(cards, i, suit) {
                let ghost before = v@;
                v.push(CardRank::at(i));
                assert(v@ + desc_ranks(cards@, suit, i - 1) =~= before + (seq![CardRank::at_spec(i as int)] + desc_ranks(cards@, suit, i - 1)));
            }
        }
        assert(v@ + desc_ranks(cards@, suit, -1) =~= v@);
        v
    }

    fn is_flush(cards: &CardSet) -> (r: Option<Vec<CardRank>>)
        requires
            cards.wf(),
        ensures
            r matches Some(v) ==> cards@.len() == 5 && flush_ranks(cards@) == Some(v@),
            r is None ==> cards@.len() != 5 || flush_ranks(cards@) is None,
    {
        if cards.len() == 5 {
            let a = Comb::suit_ranks(cards, CardSuit::Spades);
            if a.len() == 5 {
                return Some(a);
            }
            let b = Comb::suit_ranks(cards, CardSuit::Clubs);
            if b.len() == 5 {
                return Some(b);
            }
            let c = Comb::suit_ranks(cards, CardSuit::Diamonds);
            if c.len() == 5 {
                return Some(c);
            }
            let d = Comb::suit_ranks(cards, CardSuit::Hearts);
            if d.len() == 5 {
                return Some(d);
            }
            None
        } else {
            None
        }
    }

    /// The rank that `cards` forms, trying the categories from the strongest
    /// down.
    pub fn get_rank(cards: &CardSet) -> (r: Option<CombRank>)
        requires
            cards.wf(),
        ensures
            r == recognise(cards@),
    {
        match Comb::is_straight_flush(cards) {
            Some(x) => Some(CombRank::StraightFlush(x)),
            None => match Comb::is_four_of_a_kind(cards) {
                Some(x) => Some(CombRank::FourOfAKind(x)),
                None => match Comb::is_full_house(cards) {
                    Some((a, b)) => Some(CombRank::FullHouse(a, b)),
                    None => match Comb::is_flush(cards) {
                        Some(q) => Some(CombRank::Flush(q[0], q[1], q[2], q[3], q[4])),
                        None => match Comb::is_straight(cards) {
                            Some(x) => Some(CombRank::Straight(x)),
                            None => match Comb::is_set(cards) {
                                Some(x) => Some(CombRank::ThreeOfAKind(x)),
                                None => match Comb::is_two_pairs(cards) {
                                    Some((a, b)) => Some(CombRank::TwoPairs(a, b)),
                                    None => match Comb::is_pair(cards) {
                                        Some(x) => Some(CombRank::Pair(x)),
                                        None => match Comb::is_highest_card(cards) {
                                            Some(x) => Some(CombRank::HighestCard(x)),
                                            None => None,
                                        },
                                    },
                                },
                            },
                        },
                    },
                },
            },
        }
    }
}

/// Every combination that the library builds holds exactly the cards that
/// justify its rank: recognising its cards again gives back its rank.
pub proof fn lemma_comb_recognised(c: &Comb)
    requires
        c.wf(),
    ensures
        recognise(c.cards_view()) == Some(c.rank_view()),
{
}

proof fn lemma_lex_irreflexive(a: Seq<int>, i: int)
    ensures
        !lex_lt(a, a, i),
    decreases a.len() - i,
{
    if 0 <= i && i < a.len() {
        lemma_lex_irreflexive(a, i + 1);
    }
}

proof fn lemma_lex_asymmetric(a: Seq<int>, b: Seq<int>, i: int)
    ensures
        lex_lt(a, b, i) ==> !lex_lt(b, a, i),
    decreases a.len() - i,
{
    if 0 <= i && i < a.len() && i < b.len() && a[i] == b[i] {
        lemma_lex_asymmetric(a, b, i + 1);
    }
}

proof fn lemma_lex_transitive(a: Seq<int>, b: Seq<int>, c: Seq<int>, i: int)
    requires
        a.len() == b.len(),
        b.len() == c.len(),
    ensures
        lex_lt(a, b, i) && lex_lt(b, c, i) ==> lex_lt(a, c, i),
    decreases a.len() - i,
{
    if 0 <= i && i < a.len() {
        lemma_lex_transitive(a, b, c, i + 1);
    }
}

proof fn lemma_lex_total(a: Seq<int>, b: Seq<int>, i: int)
    requires
        a.len() == b.len(),
        0 <= i,
    ensures
        (forall|j: int| i <= j < a.len() ==> a[j] == b[j]) || lex_lt(a, b, i) || lex_lt(b, a, i),
    decreases a.len() - i,
{
    if i < a.len() {
        lemma_lex_total(a, b, i + 1);
        if a[i] == b[i] && (forall|j: int| i + 1 <= j < a.len() ==> a[j] == b[j]) {
            assert forall|j: int| i <= j < a.len() implies a[j] == b[j] by {
                if j > i {
                    assert(i + 1 <= j);
                }
            }
        }
    }
}

proof fn lemma_pos_injective(r1: CardRank, r2: CardRank)
    ensures
        r1.pos() == r2.pos() ==> r1 == r2,
{
}

proof fn lemma_payload_injective(a: CombRank, b: CombRank)
    requires
        kind(a) == kind(b),
        forall|j: int| 0 <= j < payload(a).len() ==> payload(a)[j] == payload(b)[j],
    ensures
        a == b,
{
    let pa = payload(a);
    let pb = payload(b);
    assert(pa.len() == pb.len());
    match (a, b) {
        (CombRank::Flush(a0, a1, a2, a3, a4), CombRank::Flush(b0, b1, b2, b3, b4)) => {
            assert(pa[0] == pb[0] && pa[1] == pb[1] && pa[2] == pb[2] && pa[3] == pb[3] && pa[4]
                == pb[4]);
            lemma_pos_injective(a0, b0);
            lemma_pos_injective(a1, b1);
            lemma_pos_injective(a2, b2);
            lemma_pos_injective(a3, b3);
            lemma_pos_injective(a4, b4);
        },
        (CombRank::TwoPairs(a0, a1), CombRank::TwoPairs(b0, b1)) => {
            assert(pa[0] == pb[0] && pa[1] == pb[1]);
            lemma_pos_injective(a0, b0);
            lemma_pos_injective(a1, b1);
        },
        (CombRank::FullHouse(a0, a1), CombRank::FullHouse(b0, b1)) => {
            assert(pa[0] == pb[0] && pa[1] == pb[1]);
            lemma_pos_injective(a0, b0);
            lemma_pos_injective(a1, b1);
        },
        (CombRank::HighestCard(x), CombRank::HighestCard(y)) => {
            assert(pa[0] == pb[0]);
            lemma_pos_injective(x, y);
        },
        (CombRank::Pair(x), CombRank::Pair(y)) => {
            assert(pa[0] == pb[0]);
            lemma_pos_injective(x, y);
        },
        (CombRank::ThreeOfAKind(x), CombRank::ThreeOfAKind(y)) => {
            assert(pa[0] == pb[0]);
            lemma_pos_injective(x, y);
        },
        (CombRank::Straight(x), CombRank::Straight(y)) => {
            assert(pa[0] == pb[0]);
            lemma_pos_injective(x, y);
        },
        (CombRank::FourOfAKind(x), CombRank::FourOfAKind(y)) => {
            assert(pa[0] == pb[0]);
            lemma_pos_injective(x, y);
        },
        (CombRank::StraightFlush(x), CombRank::StraightFlush(y)) => {
            assert(pa[0] == pb[0]);
            lemma_pos_injective(x, y);
        },
        _ => {},
    }
}

/// The order of combination ranks is a strict total order: no rank is below
/// itself, no two ranks are each below the other, the order is transitive,
/// and of two different ranks one is below the other.
pub proof fn lemma_comb_order_strict_total(a: CombRank, b: CombRank, c: CombRank)
    ensures
        !comb_lt(a, a),
        comb_lt(a, b) ==> !comb_lt(b, a),
        comb_lt(a, b) && comb_lt(b, c) ==> comb_lt(a, c),
        a == b || comb_lt(a, b) || comb_lt(b, a),
{
    lemma_lex_irreflexive(payload(a), 0);
    lemma_lex_asymmetric(payload(a), payload(b), 0);
    if kind(a) == kind(b) && kind(b) == kind(c) {
        lemma_lex_transitive(payload(a), payload(b), payload(c), 0);
    }
    if kind(a) == kind(b) {
        lemma_lex_total(payload(a), payload(b), 0);
        if forall|j: int| 0 <= j < payload(a).len() ==> payload(a)[j] == payload(b)[j] {
            lemma_payload_injective(a, b);
        }
    }
}

/// Two flushes compare by their five ranks, high to low, lexicographically:
/// the first rank at which they differ decides.
pub proof fn lemma_flush_order(x: Seq<CardRank>, y: Seq<CardRank>)
    requires
        x.len() == 5,
        y.len() == 5,
    ensures
        comb_lt(
            CombRank::Flush(x[0], x[1], x[2], x[3], x[4]),
            CombRank::Flush(y[0], y[1], y[2], y[3], y[4]),
        ) <==> lex_lt(x.map_values(|r: CardRank| r.pos()), y.map_values(|r: CardRank| r.pos()), 0),
{
    let a = CombRank::Flush(x[0], x[1], x[2], x[3], x[4]);
    let b = CombRank::Flush(y[0], y[1], y[2], y[3], y[4]);
    assert(payload(a) =~= x.map_values(|r: CardRank| r.pos()));
    assert(payload(b) =~= y.map_values(|r: CardRank| r.pos()));
}

/// The wheel: five cards of ranks A, 2, 3, 4, 5, not all of one suit, form
/// a straight topped by the Five (the Ace plays low), not by the Ace.
pub proof fn lemma_wheel_straight(s: Set<Card>)
    requires
        s.len() == 5,
        forall|r: int|
            0 <= r < 13 ==> #[trigger] rank_count(s, r) == if r <= 3 || r == 12 {
                1int
            } else {
                0int
            },
        straight_flush_top(s) is None,
        flush_ranks(s) is None,
    ensures
        recognise(s) == Some(CombRank::Straight(CardRank::Five)),
{
    reveal_with_fuel(top_window, 11);
    reveal_with_fuel(highest_count, 14);
    assert(rank_count(s, 12) == 1);
    assert(top_window(s, 12) == Some(3int));
}

} // verus!
