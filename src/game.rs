use vstd::prelude::*;

use crate::card::Card;
use crate::chance::random_below;
use crate::deck::{after_draw, drawn, Deck, DeckStuff};
use crate::player::{
    after_set, count_rank, first_set, holds_rank, lemma_count_push, lemma_first_set,
    lemma_holds_iff_removes, lemma_of_rank_add, lemma_without_rank_counts, of_rank, without_rank,
    Player, PlayerStuff,
};

verus! {

/// The rank that an unrecognised rank character stands for: it matches no
/// card.
pub const NO_RANK: u8 = 15;

/// Both players, and the deck they draw from.
pub struct Game {
    pub deck: Deck,
    pub human: Player,
    pub computer: Player,
}

/// What one turn did.
pub enum Turn {
    /// The input was neither one nor two characters long: nothing happened.
    Invalid,
    /// The opponent held the rank asked for and handed over these cards;
    /// `set` is the rank the asker then completed, if any.
    Captured { cards: Vec<Card>, set: Option<u8> },
    /// The opponent did not hold the rank: the asker drew `card`, or nothing
    /// from an empty deck; `set` is the rank the asker then completed, if any.
    Fished { card: Option<Card>, set: Option<u8> },
}

/// The rank a single-character input names (Ace and 2 to 9).
pub open spec fn single_rank(c: char) -> u8 {
    if c == 'A' || c == 'a' {
        0
    } else if '2' <= c <= '9' {
        (c as u8 - 49) as u8
    } else {
        NO_RANK
    }
}

/// The rank a two-character input names by its second character (10, J, Q,
/// K as 10, 11, 12, 13).
pub open spec fn double_rank(c: char) -> u8 {
    if '0' <= c <= '3' {
        (c as u8 - 39) as u8
    } else {
        NO_RANK
    }
}

/// The rank that trimmed input names, or nothing when it is neither one nor
/// two characters long.
pub open spec fn input_rank(s: Seq<char>) -> Option<u8> {
    if s.len() == 1 {
        Some(single_rank(s[0]))
    } else if s.len() == 2 {
        Some(double_rank(s[1]))
    } else {
        None
    }
}

/// The asker's hand after asking for `r`, before the set check: the
/// opponent's cards of that rank, or else the top card of the deck, if any.
pub open spec fn asker_gets(asker: Seq<Card>, opp: Seq<Card>, deck: Seq<Card>, r: u8) -> Seq<Card> {
    if holds_rank(opp, r) {
        asker + of_rank(opp, r)
    } else if deck.len() > 0 {
        asker.push(deck.last())
    } else {
        asker
    }
}

/// The opponent's hand after being asked for `r`.
pub open spec fn opponent_keeps(opp: Seq<Card>, r: u8) -> Seq<Card> {
    if holds_rank(opp, r) {
        without_rank(opp, r)
    } else {
        opp
    }
}

/// The deck after the asker asked the opponent for `r`.
pub open spec fn deck_keeps(opp: Seq<Card>, deck: Seq<Card>, r: u8) -> Seq<Card> {
    if holds_rank(opp, r) {
        deck
    } else {
        after_draw(deck)
    }
}

/// The point a turn scores: one when the asker completed a set.
pub open spec fn ask_score(asker: Seq<Card>, opp: Seq<Card>, deck: Seq<Card>, r: u8) -> u8 {
    if first_set(asker_gets(asker, opp, deck, r)) is Some {
        1
    } else {
        0
    }
}

/// The points a reported turn scored.
pub open spec fn turn_points(t: Turn) -> u8 {
    match t {
        Turn::Invalid => 0,
        Turn::Captured { set, .. } => if set is Some { 1 } else { 0 },
        Turn::Fished { set, .. } => if set is Some { 1 } else { 0 },
    }
}

/// What a turn of asking for `r` reports.
pub open spec fn ask_report(t: Turn, asker: Seq<Card>, opp: Seq<Card>, deck: Seq<Card>, r: u8) -> bool {
    let got = asker_gets(asker, opp, deck, r);
    &&& holds_rank(opp, r) ==> (t matches Turn::Captured { cards, set } && cards@ == of_rank(opp, r)
        && set == first_set(got))
    &&& !holds_rank(opp, r) ==> (t matches Turn::Fished { card, set } && card == drawn(deck) && set
        == first_set(got))
    &&& turn_points(t) == ask_score(asker, opp, deck, r)
}

/// The whole of one ask: the three piles afterwards.
pub open spec fn ask_moves(
    a0: Seq<Card>,
    o0: Seq<Card>,
    d0: Seq<Card>,
    r: u8,
    a1: Seq<Card>,
    o1: Seq<Card>,
    d1: Seq<Card>,
) -> bool {
    &&& a1 == after_set(asker_gets(a0, o0, d0, r))
    &&& o1 == opponent_keeps(o0, r)
    &&& d1 == deck_keeps(o0, d0, r)
}

/// `s` with the drawn card, if there was one, put at the end.
pub open spec fn with_card(s: Seq<Card>, c: Option<Card>) -> Seq<Card> {
    match c {
        Some(x) => s.push(x),
        None => s,
    }
}

/// Deck, human hand and computer hand after `k` rounds of dealing, each
/// round one card to the human and then one to the computer.
pub open spec fn dealt(d: Seq<Card>, h: Seq<Card>, c: Seq<Card>, k: nat) -> (
    Seq<Card>,
    Seq<Card>,
    Seq<Card>,
)
    decreases k,
{
    if k == 0 {
        (d, h, c)
    } else {
        let (d0, h0, c0) = dealt(d, h, c, (k - 1) as nat);
        let d1 = after_draw(d0);
        (after_draw(d1), with_card(h0, drawn(d0)), with_card(c0, drawn(d1)))
    }
}

/// Dealing `k` rounds from a deck of at least `2k` cards gives each hand `k`
/// cards and leaves the rest.
pub proof fn lemma_dealt_sizes(d: Seq<Card>, h: Seq<Card>, c: Seq<Card>, k: nat)
    requires
        d.len() >= 2 * k,
    ensures
        dealt(d, h, c, k).0.len() == d.len() - 2 * k,
        dealt(d, h, c, k).1.len() == h.len() + k,
        dealt(d, h, c, k).2.len() == c.len() + k,
    decreases k,
{
    if k > 0 {
        lemma_dealt_sizes(d, h, c, (k - 1) as nat);
    }
}

/// How many cards of rank `p` are still in play: in the deck and in both
/// hands.
pub open spec fn tally(d: Seq<Card>, h: Seq<Card>, c: Seq<Card>, p: u8) -> nat {
    count_rank(d, p) + count_rank(h, p) + count_rank(c, p)
}

/// How many of the ranks below `n` have no card left in play: each of them
/// went out as a set.
pub open spec fn claimed(d: Seq<Card>, h: Seq<Card>, c: Seq<Card>, n: nat) -> nat
    decreases n,
{
    if n == 0 {
        0
    } else {
        claimed(d, h, c, (n - 1) as nat) + if tally(d, h, c, (n - 1) as u8) == 0 {
            1nat
        } else {
            0nat
        }
    }
}

/// Every rank, Ace to King, is either wholly in play (four cards) or gone.
pub open spec fn balanced(d: Seq<Card>, h: Seq<Card>, c: Seq<Card>) -> bool {
    forall|p: u8| p < 13 ==> #[trigger] tally(d, h, c, p) == 0 || tally(d, h, c, p) == 4
}

proof fn lemma_claimed_bound(d: Seq<Card>, h: Seq<Card>, c: Seq<Card>, n: nat)
    ensures
        claimed(d, h, c, n) <= n,
        claimed(d, h, c, n) == n ==> forall|p: u8| p < n ==> #[trigger] tally(d, h, c, p) == 0,
    decreases n,
{
    if n > 0 {
        lemma_claimed_bound(d, h, c, (n - 1) as nat);
        if claimed(d, h, c, n) == n {
            assert forall|p: u8| p < n implies #[trigger] tally(d, h, c, p) == 0 by {
                if p < n - 1 {
                } else {
                    assert(p == (n - 1) as u8);
                }
            }
        }
    }
}

proof fn lemma_claimed_same(
    d: Seq<Card>,
    h: Seq<Card>,
    c: Seq<Card>,
    d2: Seq<Card>,
    h2: Seq<Card>,
    c2: Seq<Card>,
    n: nat,
)
    requires
        n <= 13,
        forall|p: u8| #[trigger] tally(d2, h2, c2, p) == tally(d, h, c, p),
    ensures
        claimed(d2, h2, c2, n) == claimed(d, h, c, n),
    decreases n,
{
    if n > 0 {
        lemma_claimed_same(d, h, c, d2, h2, c2, (n - 1) as nat);
        assert(tally(d2, h2, c2, (n - 1) as u8) == tally(d, h, c, (n - 1) as u8));
    }
}

proof fn lemma_claimed_step(
    d: Seq<Card>,
    h: Seq<Card>,
    c: Seq<Card>,
    d2: Seq<Card>,
    h2: Seq<Card>,
    c2: Seq<Card>,
    q: u8,
    n: nat,
)
    requires
        n <= 13,
        tally(d, h, c, q) > 0,
        tally(d2, h2, c2, q) == 0,
        forall|p: u8| p != q ==> #[trigger] tally(d2, h2, c2, p) == tally(d, h, c, p),
    ensures
        claimed(d2, h2, c2, n) == claimed(d, h, c, n) + (if q < n { 1nat } else { 0nat }),
    decreases n,
{
    if n > 0 {
        lemma_claimed_step(d, h, c, d2, h2, c2, q, (n - 1) as nat);
        let p = (n - 1) as u8;
        if p != q {
            assert(tally(d2, h2, c2, p) == tally(d, h, c, p));
        }
    }
}

/// Asking moves cards between the two hands and the deck and loses none.
proof fn lemma_ask_moves_cards(a0: Seq<Card>, o0: Seq<Card>, d0: Seq<Card>, r: u8, p: u8)
    ensures
        tally(deck_keeps(o0, d0, r), asker_gets(a0, o0, d0, r), opponent_keeps(o0, r), p) == tally(
            d0,
            a0,
            o0,
            p,
        ),
{
    if holds_rank(o0, r) {
        lemma_of_rank_add(a0, of_rank(o0, r), p);
        lemma_without_rank_counts(o0, r, p);
    } else if d0.len() > 0 {
        lemma_count_push(a0, d0.last(), p);
        lemma_count_push(d0.drop_last(), d0.last(), p);
        assert(d0.drop_last().push(d0.last()) =~= d0);
    }
}

/// One ask keeps every rank wholly in play or gone, and claims one more
/// rank exactly when it scores.
pub proof fn lemma_ask_balanced(a0: Seq<Card>, o0: Seq<Card>, d0: Seq<Card>, r: u8)
    requires
        balanced(d0, a0, o0),
    ensures
        balanced(deck_keeps(o0, d0, r), after_set(asker_gets(a0, o0, d0, r)), opponent_keeps(o0, r)),
        claimed(deck_keeps(o0, d0, r), after_set(asker_gets(a0, o0, d0, r)), opponent_keeps(o0, r), 13)
            == claimed(d0, a0, o0, 13) + ask_score(a0, o0, d0, r),
{
    let a1 = asker_gets(a0, o0, d0, r);
    let o1 = opponent_keeps(o0, r);
    let d1 = deck_keeps(o0, d0, r);
    assert forall|p: u8| #[trigger] tally(d1, a1, o1, p) == tally(d0, a0, o0, p) by {
        lemma_ask_moves_cards(a0, o0, d0, r, p);
    }
    lemma_claimed_same(d0, a0, o0, d1, a1, o1, 13);
    lemma_first_set(a1);
    match first_set(a1) {
        Some(q) => {
            let a2 = after_set(a1);
            assert forall|p: u8| p != q implies #[trigger] tally(d1, a2, o1, p) == tally(d1, a1, o1, p) by {
                lemma_without_rank_counts(a1, q, p);
            }
            lemma_without_rank_counts(a1, q, q);
            assert(tally(d1, a1, o1, q) == 4);
            assert(tally(d1, a2, o1, q) == 0);
            lemma_claimed_step(d1, a1, o1, d1, a2, o1, q, 13);
            assert forall|p: u8| p < 13 implies #[trigger] tally(d1, a2, o1, p) == 0 || tally(
                d1,
                a2,
                o1,
                p,
            ) == 4 by {
                if p != q {
                    assert(tally(d1, a1, o1, p) == tally(d0, a0, o0, p));
                }
            }
        },
        None => {
            assert forall|p: u8| p < 13 implies #[trigger] tally(d1, a1, o1, p) == 0 || tally(
                d1,
                a1,
                o1,
                p,
            ) == 4 by {
                assert(tally(d1, a1, o1, p) == tally(d0, a0, o0, p));
            }
        },
    }
}

proof fn lemma_nothing_claimed(d: Seq<Card>, h: Seq<Card>, c: Seq<Card>, n: nat)
    requires
        n <= 13,
        forall|p: u8| p < 13 ==> #[trigger] tally(d, h, c, p) > 0,
    ensures
        claimed(d, h, c, n) == 0,
    decreases n,
{
    if n > 0 {
        lemma_nothing_claimed(d, h, c, (n - 1) as nat);
        assert(tally(d, h, c, (n - 1) as u8) > 0);
    }
}

/// The same cards in play, whichever hand is named first.
proof fn lemma_hands_swapped(d: Seq<Card>, h: Seq<Card>, c: Seq<Card>)
    ensures
        balanced(d, h, c) == balanced(d, c, h),
        claimed(d, h, c, 13) == claimed(d, c, h, 13),
{
    assert forall|p: u8| #[trigger] tally(d, c, h, p) == tally(d, h, c, p) by {}
    lemma_claimed_same(d, h, c, d, c, h, 13);
    if balanced(d, h, c) {
        assert forall|p: u8| p < 13 implies #[trigger] tally(d, c, h, p) == 0 || tally(d, c, h, p)
            == 4 by {
            assert(tally(d, h, c, p) == tally(d, c, h, p));
        }
    }
    if balanced(d, c, h) {
        assert forall|p: u8| p < 13 implies #[trigger] tally(d, h, c, p) == 0 || tally(d, h, c, p)
            == 4 by {
            assert(tally(d, h, c, p) == tally(d, c, h, p));
        }
    }
}

/// The cards on the table: the deck, the human's hand and the computer's.
pub type Table = (Seq<Card>, Seq<Card>, Seq<Card>);

/// How many ranks have gone out of play as sets.
pub open spec fn claimed_table(t: Table) -> nat {
    claimed(t.0, t.1, t.2, 13)
}

/// Every rank on the table is wholly in play or gone.
pub open spec fn balanced_table(t: Table) -> bool {
    balanced(t.0, t.1, t.2)
}

/// Which side won.
pub enum Side {
    Human,
    Computer,
}

/// The game ends once the two scores together reach thirteen sets.
pub open spec fn is_over(h_score: u8, c_score: u8) -> bool {
    h_score + c_score >= 13
}

/// The side that wins on these scores.
pub open spec fn winning_side(h_score: u8, c_score: u8) -> Side {
    if h_score > c_score {
        Side::Human
    } else {
        Side::Computer
    }
}

/// Whether a game with these scores is over: every rank has been claimed.
pub fn game_over(h_score: u8, c_score: u8) -> (r: bool)
    ensures
        r == is_over(h_score, c_score),
{
    h_score as u16 + c_score as u16 >= 13
}

/// Reads the rank from trimmed input: one character names Ace to 9, two
/// characters name 10 to King by the second one; any other character names
/// no card, and any other length is no input at all.
pub fn rank_of_input(chars: &Vec<char>) -> (r: Option<u8>)
    ensures
        r == input_rank(chars@),
{
    if chars.len() == 1 {
        let c = chars[0];
        let rank: u8 = if c == 'A' || c == 'a' {
            0
        } else if '2' <= c && c <= '9' {
            (c as u8 - 49) as u8
        } else {
            NO_RANK
        };
        Some(rank)
    } else if chars.len() == 2 {
        let c = chars[1];
        let rank: u8 = if '0' <= c && c <= '3' {
            (c as u8 - 39) as u8
        } else {
            NO_RANK
        };
        Some(rank)
    } else {
        None
    }
}

/// One ask: the asker takes every card of `rank` from the opponent, or else
/// draws the top card of the deck; then the asker's hand is checked for a set.
fn ask(asker: &mut Player, opponent: &mut Player, deck: &mut Deck, rank: u8) -> (r: Turn)
    ensures
        ask_moves(
            old(asker).hand@,
            old(opponent).hand@,
            old(deck).cards@,
            rank,
            final(asker).hand@,
            final(opponent).hand@,
            final(deck).cards@,
        ),
        ask_report(r, old(asker).hand@, old(opponent).hand@, old(deck).cards@, rank),
{
    proof {
        lemma_holds_iff_removes(opponent.hand@, rank);
    }
    if opponent.has_rank(rank) {
        let cards = opponent.remove_cards(rank);
        let shown = cards.clone();
        asker.add_cards(cards);
        let set = asker.find_set();
        asker.check_set();
        Turn::Captured { cards: shown, set }
    } else {
        let card = deck.draw();
        match card {
            Some(c) => {
                let mut one: Vec<Card> = Vec::new();
                one.push(c);
                asker.add_cards(one);
                proof {
                    assert(old(asker).hand@ + seq![c] =~= old(asker).hand@.push(c));
                }
            },
            None => {},
        }
        let set = asker.find_set();
        asker.check_set();
        Turn::Fished { card, set }
    }
}

impl Turn {
    /// The points the turn scored: one when a set was completed.
    pub fn score(&self) -> (r: u8)
        ensures
            r == turn_points(*self),
    {
        match self {
            Turn::Invalid => 0,
            Turn::Captured { set, .. } => if set.is_some() { 1 } else { 0 },
            Turn::Fished { set, .. } => if set.is_some() { 1 } else { 0 },
        }
    }
}

impl View for Game {
    type V = Table;

    open spec fn view(&self) -> Table {
        (self.deck.cards@, self.human.hand@, self.computer.hand@)
    }
}

/// What a game offers: dealing, the two kinds of turn, and the verdict.
/// A game is viewed as its table: deck, human hand, computer hand.
pub trait GameStuff: View<V = Table> + Sized {
    /// A new game: a full shuffled deck, and seven cards dealt to each side.
    fn new() -> (r: Game)
        ensures
            r.deck.cards@.len() == 38,
            r.human.hand@.len() == 7,
            r.computer.hand@.len() == 7,
            r.is_balanced(),
            r.claimed_ranks() == 0,
    ;

    /// The computer's turn: it asks for a rank drawn uniformly from Ace to
    /// King.
    fn computer_turn(&mut self) -> (r: Turn)
        ensures
            exists|rank: u8|
                rank < 13 && ask_moves(
                    old(self)@.2,
                    old(self)@.1,
                    old(self)@.0,
                    rank,
                    final(self)@.2,
                    final(self)@.1,
                    final(self)@.0,
                ) && ask_report(
                    r,
                    old(self)@.2,
                    old(self)@.1,
                    old(self)@.0,
                    rank,
                ),
            balanced_table(old(self)@) ==> balanced_table(final(self)@) && claimed_table(final(self)@)
                == claimed_table(old(self)@) + turn_points(r),
    ;

    /// Which side wins on these scores: the human on strictly more sets, the
    /// computer otherwise, a tie included.
    fn winner(&self, h_score: u8, c_score: u8) -> (r: Side)
        ensures
            r == winning_side(h_score, c_score),
    ;

    /// The human's turn on the trimmed characters typed: asks the computer
    /// for the rank they name, unless they are neither one nor two long.
    fn human_turn(&mut self, input: &Vec<char>) -> (r: Turn)
        ensures
            input_rank(input@) is None ==> r is Invalid && final(self)@ == old(self)@,
            input_rank(input@) matches Some(rank) ==> ask_moves(
                old(self)@.1,
                old(self)@.2,
                old(self)@.0,
                rank,
                final(self)@.1,
                final(self)@.2,
                final(self)@.0,
            ) && ask_report(
                r,
                old(self)@.1,
                old(self)@.2,
                old(self)@.0,
                rank,
            ),
            balanced_table(old(self)@) ==> balanced_table(final(self)@) && claimed_table(final(self)@)
                == claimed_table(old(self)@) + turn_points(r),
    ;
}

impl Game {
    /// How many ranks have gone out of play as sets.
    pub open spec fn claimed_ranks(&self) -> nat {
        claimed_table(self@)
    }

    /// Every rank is wholly in play or gone.
    pub open spec fn is_balanced(&self) -> bool {
        balanced_table(self@)
    }

    /// Scores that add up to the ranks claimed in a balanced game never pass
    /// thirteen together, and reach thirteen only once no card of any rank is
    /// left in play.
    pub proof fn lemma_scores_bounded(self, h_score: nat, c_score: nat)
        requires
            self.is_balanced(),
            h_score + c_score == self.claimed_ranks(),
        ensures
            h_score + c_score <= 13,
            h_score + c_score == 13 ==> forall|p: u8|
                p < 13 ==> #[trigger] tally(self.deck.cards@, self.human.hand@, self.computer.hand@, p)
                    == 0,
    {
        lemma_claimed_bound(self.deck.cards@, self.human.hand@, self.computer.hand@, 13);
    }

    /// Deals seven rounds from `deck`, a card to the human and then one to
    /// the computer in each; an empty deck deals nothing.
    pub fn with_deck(deck: Deck) -> (r: Game)
        ensures
            (r.deck.cards@, r.human.hand@, r.computer.hand@) == dealt(
                deck.cards@,
                Seq::empty(),
                Seq::empty(),
                7,
            ),
            forall|p: u8| #[trigger] tally(r.deck.cards@, r.human.hand@, r.computer.hand@, p) == count_rank(
                deck.cards@,
                p,
            ),
    {
        let mut deck = deck;
        let mut human = Player::new();
        let mut computer = Player::new();
        let ghost d = deck.cards@;
        for k in 0..7u8
            invariant
                (deck.cards@, human.hand@, computer.hand@) == dealt(
                    d,
                    Seq::empty(),
                    Seq::empty(),
                    k as nat,
                ),
                forall|p: u8| #[trigger] tally(deck.cards@, human.hand@, computer.hand@, p) == count_rank(
                    d,
                    p,
                ),
        {
            let ghost d_before = deck.cards@;
            let ghost h_before = human.hand@;
            let ghost c_before = computer.hand@;
            let mut to_human: Vec<Card> = Vec::new();
            let mut to_computer: Vec<Card> = Vec::new();
            match deck.draw() {
                Some(c) => to_human.push(c),
                None => {},
            }
            match deck.draw() {
                Some(c) => to_computer.push(c),
                None => {},
            }
            let ghost h0 = human.hand@;
            let ghost c0 = computer.hand@;
            human.add_cards(to_human);
            computer.add_cards(to_computer);
            proof {
                assert(human.hand@ =~= h0 + to_human@);
                assert(computer.hand@ =~= c0 + to_computer@);
                let (dd, hh, cc) = dealt(d, Seq::empty(), Seq::empty(), k as nat);
                assert(with_card(hh, drawn(dd)) =~= h0 + to_human@);
                assert(with_card(cc, drawn(after_draw(dd))) =~= c0 + to_computer@);
                assert forall|p: u8| #[trigger] tally(deck.cards@, human.hand@, computer.hand@, p)
                    == count_rank(d, p) by {
                    assert(tally(d_before, h_before, c_before, p) == count_rank(d, p));
                    let d1 = after_draw(d_before);
                    if d_before.len() > 0 {
                        lemma_count_push(d1, d_before.last(), p);
                        lemma_count_push(h_before, d_before.last(), p);
                        assert(d1.push(d_before.last()) =~= d_before);
                    }
                    if d1.len() > 0 {
                        lemma_count_push(d1.drop_last(), d1.last(), p);
                        lemma_count_push(c_before, d1.last(), p);
                        assert(d1.drop_last().push(d1.last()) =~= d1);
                    }
                }
            }
        }
        Game { deck, human, computer }
    }

    /// The computer's turn when it asks for `rank`.
    pub fn computer_turn_with(&mut self, rank: u8) -> (r: Turn)
        ensures
            ask_moves(
                old(self).computer.hand@,
                old(self).human.hand@,
                old(self).deck.cards@,
                rank,
                final(self).computer.hand@,
                final(self).human.hand@,
                final(self).deck.cards@,
            ),
            ask_report(
                r,
                old(self).computer.hand@,
                old(self).human.hand@,
                old(self).deck.cards@,
                rank,
            ),
            old(self).is_balanced() ==> final(self).is_balanced() && final(self).claimed_ranks()
                == old(self).claimed_ranks() + turn_points(r),
    {
        proof {
            lemma_hands_swapped(old(self).deck.cards@, old(self).human.hand@, old(self).computer.hand@);
            if old(self).is_balanced() {
                lemma_ask_balanced(
                    old(self).computer.hand@,
                    old(self).human.hand@,
                    old(self).deck.cards@,
                    rank,
                );
            }
        }
        let r = ask(&mut self.computer, &mut self.human, &mut self.deck, rank);
        proof {
            lemma_hands_swapped(self.deck.cards@, self.human.hand@, self.computer.hand@);
        }
        r
    }
}

impl GameStuff for Game {
    fn new() -> Game {
        let deck = Deck::new();
        proof {
            lemma_dealt_sizes(deck.cards@, Seq::empty(), Seq::empty(), 7);
        }
        let g = Game::with_deck(deck);
        proof {
            let (d, h, c) = (g.deck.cards@, g.human.hand@, g.computer.hand@);
            assert forall|p: u8| p < 13 implies #[trigger] tally(d, h, c, p) > 0 by {
                assert(count_rank(deck.cards@, p) == 4);
            }
            lemma_nothing_claimed(d, h, c, 13);
        }
        g
    }

    fn computer_turn(&mut self) -> Turn {
        let rank = random_below(13) as u8;
        self.computer_turn_with(rank)
    }

    fn winner(&self, h_score: u8, c_score: u8) -> Side {
        if h_score > c_score {
            Side::Human
        } else {
            Side::Computer
        }
    }

    fn human_turn(&mut self, input: &Vec<char>) -> Turn {
        match rank_of_input(input) {
            None => Turn::Invalid,
            Some(rank) => {
                proof {
                    if old(self).is_balanced() {
                        lemma_ask_balanced(
                            old(self).human.hand@,
                            old(self).computer.hand@,
                            old(self).deck.cards@,
                            rank,
                        );
                    }
                }
                ask(&mut self.human, &mut self.computer, &mut self.deck, rank)
            },
        }
    }
}

} // verus!
