use vstd::prelude::*;

use crate::card::{canonical_card, canonical_deck, copy_card, Card};
use crate::chance::random_below;
use crate::player::{count_rank, lemma_count_update};

verus! {

/// The cards left to draw; the top of the pile is the end of `cards`.
pub struct Deck {
    pub cards: Vec<Card>,
}

/// `s` with the cards at `i` and `j` exchanged.
pub open spec fn swap(s: Seq<Card>, i: int, j: int) -> Seq<Card> {
    s.update(j, s[i]).update(i, s[j])
}

/// The first `k` steps of a shuffle: step `i` exchanges the card at `i` with
/// the card at `pos[i]`.
pub open spec fn swapped_through(s: Seq<Card>, pos: Seq<usize>, k: nat) -> Seq<Card>
    decreases k,
{
    if k == 0 {
        s
    } else {
        let t = swapped_through(s, pos, (k - 1) as nat);
        swap(t, k - 1, pos[k - 1] as int)
    }
}

/// Every position of `s` exchanged, in order, with the one that `pos` names.
pub open spec fn shuffled(s: Seq<Card>, pos: Seq<usize>) -> Seq<Card> {
    swapped_through(s, pos, s.len())
}

/// `pos` names a position of `s` for each position of `s`.
pub open spec fn valid_positions(s: Seq<Card>, pos: Seq<usize>) -> bool {
    pos.len() == s.len() && forall|i: int| 0 <= i < pos.len() ==> pos[i] < s.len()
}

/// What is left after one draw: the pile without its top card.
pub open spec fn after_draw(s: Seq<Card>) -> Seq<Card> {
    if s.len() == 0 {
        s
    } else {
        s.drop_last()
    }
}

/// What one draw yields: the top card, or nothing from an empty pile.
pub open spec fn drawn(s: Seq<Card>) -> Option<Card> {
    if s.len() == 0 {
        None
    } else {
        Some(s.last())
    }
}

/// What is left after `k` draws.
pub open spec fn after_draws(s: Seq<Card>, k: nat) -> Seq<Card>
    decreases k,
{
    if k == 0 {
        s
    } else {
        after_draw(after_draws(s, (k - 1) as nat))
    }
}

proof fn lemma_swapped_through(s: Seq<Card>, pos: Seq<usize>, k: nat)
    requires
        valid_positions(s, pos),
        k <= s.len(),
    ensures
        swapped_through(s, pos, k).len() == s.len(),
        swapped_through(s, pos, k).to_multiset() == s.to_multiset(),
    decreases k,
{
    broadcast use vstd::seq_lib::group_to_multiset_ensures;

    if k > 0 {
        lemma_swapped_through(s, pos, (k - 1) as nat);
        let t = swapped_through(s, pos, (k - 1) as nat);
        let i = k - 1;
        let j = pos[k - 1] as int;
        let u = t.update(j, t[i]);
        assert(u.to_multiset() =~= t.to_multiset().insert(t[i]).remove(t[j]));
        assert(u.update(i, t[j]).to_multiset() =~= u.to_multiset().insert(t[j]).remove(u[i]));
        assert(u.update(i, t[j]).to_multiset() =~= t.to_multiset());
    }
}

proof fn lemma_swapped_counts(s: Seq<Card>, pos: Seq<usize>, k: nat, p: u8)
    requires
        valid_positions(s, pos),
        k <= s.len(),
    ensures
        count_rank(swapped_through(s, pos, k), p) == count_rank(s, p),
    decreases k,
{
    if k > 0 {
        lemma_swapped_counts(s, pos, (k - 1) as nat, p);
        lemma_swapped_through(s, pos, (k - 1) as nat);
        let t = swapped_through(s, pos, (k - 1) as nat);
        let i = k - 1;
        let j = pos[k - 1] as int;
        let u = t.update(j, t[i]);
        lemma_count_update(t, j, t[i], p);
        lemma_count_update(u, i, t[j], p);
    }
}

/// A shuffle keeps the number of cards of every rank.
pub proof fn lemma_shuffle_keeps_counts(s: Seq<Card>, pos: Seq<usize>, p: u8)
    requires
        valid_positions(s, pos),
    ensures
        count_rank(shuffled(s, pos), p) == count_rank(s, p),
{
    lemma_swapped_counts(s, pos, s.len(), p);
}

proof fn lemma_canonical_prefix(k: nat, p: u8)
    requires
        k <= 52,
    ensures
        count_rank(canonical_deck().take(k as int), p) == (if p < 13 {
            k / 13 + (if k % 13 > p { 1nat } else { 0nat })
        } else {
            0nat
        }),
    decreases k,
{
    if k > 0 {
        let m = (k - 1) as nat;
        lemma_canonical_prefix(m, p);
        let s = canonical_deck().take(k as int);
        assert(s.drop_last() =~= canonical_deck().take(m as int));
        assert(s.last() == canonical_card(m as int));
        let q = m / 13;
        let rem = m % 13;
        assert(m == 13 * q + rem && rem < 13);
        if rem == 12 {
            assert(k / 13 == q + 1 && k % 13 == 0) by (nonlinear_arith)
                requires
                    k == 13 * q + 13,
            ;
        } else {
            assert(k / 13 == q && k % 13 == rem + 1) by (nonlinear_arith)
                requires
                    k == 13 * q + rem + 1,
                    rem + 1 < 13,
            ;
        }
    }
}

/// A full deck holds four cards of each rank from Ace to King and none of
/// any other.
pub proof fn lemma_canonical_counts(p: u8)
    ensures
        count_rank(canonical_deck(), p) == (if p < 13 { 4nat } else { 0nat }),
{
    lemma_canonical_prefix(52, p);
    assert(canonical_deck().take(52) =~= canonical_deck());
}

/// A shuffle keeps every card: it only changes their order.
pub proof fn lemma_shuffle_keeps_cards(s: Seq<Card>, pos: Seq<usize>)
    requires
        valid_positions(s, pos),
    ensures
        shuffled(s, pos).len() == s.len(),
        shuffled(s, pos).to_multiset() == s.to_multiset(),
{
    lemma_swapped_through(s, pos, s.len());
}

/// A shuffle whose every step names the position it stands at leaves the
/// order as it was.
pub proof fn lemma_identity_shuffle(s: Seq<Card>, pos: Seq<usize>)
    requires
        pos.len() == s.len(),
        forall|i: int| 0 <= i < pos.len() ==> pos[i] == i,
    ensures
        shuffled(s, pos) == s,
{
    assert forall|k: nat| k <= s.len() implies swapped_through(s, pos, k) == s by {
        lemma_identity_prefix(s, pos, k);
    }
}

proof fn lemma_identity_prefix(s: Seq<Card>, pos: Seq<usize>, k: nat)
    requires
        pos.len() == s.len(),
        forall|i: int| 0 <= i < pos.len() ==> pos[i] == i,
        k <= s.len(),
    ensures
        swapped_through(s, pos, k) == s,
    decreases k,
{
    if k > 0 {
        lemma_identity_prefix(s, pos, (k - 1) as nat);
        let i = k - 1;
        assert(swap(s, i, i) =~= s);
    }
}

/// Draws from a full deck: after `k` draws (`k` at most 52) 52 - `k` cards
/// are left, and from then on a draw yields a card exactly while `k` < 52.
pub proof fn lemma_draws_shrink(s: Seq<Card>, k: nat)
    requires
        s.len() == 52,
    ensures
        k <= 52 ==> after_draws(s, k).len() == 52 - k,
        k >= 52 ==> after_draws(s, k).len() == 0,
        drawn(after_draws(s, k)) is None <==> k >= 52,
    decreases k,
{
    if k > 0 {
        lemma_draws_shrink(s, (k - 1) as nat);
    }
}

impl View for Deck {
    type V = Seq<Card>;

    open spec fn view(&self) -> Seq<Card> {
        self.cards@
    }
}

/// What a deck offers: building a full shuffled deck, shuffling, and drawing
/// from the top.
pub trait DeckStuff: View<V = Seq<Card>> + Sized {
    /// Shuffles by exchanging each position in turn with a position drawn
    /// uniformly from the whole deck (the range never narrows).
    fn shuffle(cards: Vec<Card>) -> (r: Vec<Card>)
        ensures
            r@.to_multiset() == cards@.to_multiset(),
            exists|pos: Seq<usize>| valid_positions(cards@, pos) && r@ == shuffled(cards@, pos),
    ;

    /// A full deck of 52 cards, shuffled.
    fn new() -> (r: Deck)
        ensures
            r.cards@.len() == 52,
            r.cards@.to_multiset() == canonical_deck().to_multiset(),
            exists|pos: Seq<usize>|
                valid_positions(canonical_deck(), pos) && r.cards@ == shuffled(canonical_deck(), pos),
            forall|p: u8| #[trigger] count_rank(r.cards@, p) == (if p < 13 { 4nat } else { 0nat }),
    ;

    /// Takes the top card, or yields nothing when no card is left.
    fn draw(&mut self) -> (r: Option<Card>)
        ensures
            r == drawn(old(self)@),
            final(self)@ == after_draw(old(self)@),
    ;

    /// Whether no card is left to draw.
    fn is_empty(&self) -> (r: bool)
        ensures
            r == (self@.len() == 0),
    ;
}

impl Deck {
    /// Exchanges, for each position `i` in turn, the card at `i` with the
    /// card at `positions[i]`.
    pub fn shuffle_with(cards: Vec<Card>, positions: &Vec<usize>) -> (r: Vec<Card>)
        requires
            valid_positions(cards@, positions@),
        ensures
            r@ == shuffled(cards@, positions@),
            r@.to_multiset() == cards@.to_multiset(),
    {
        let mut cards = cards;
        let ghost s = cards@;
        let n = cards.len();
        for i in 0..n
            invariant
                n == s.len(),
                valid_positions(s, positions@),
                cards@ == swapped_through(s, positions@, i as nat),
        {
            proof {
                lemma_swapped_through(s, positions@, i as nat);
            }
            let pos = positions[i];
            let here = cards[i];
            let mut there = cards[pos];
            let old_there = copy_card(&mut there, &here);
            cards.set(pos, there);
            cards.set(i, old_there);
        }
        proof {
            lemma_shuffle_keeps_cards(s, positions@);
        }
        cards
    }

    /// All 52 cards in canonical order, suit-major and rank-minor.
    pub fn canonical_cards() -> (r: Vec<Card>)
        ensures
            r@ == canonical_deck(),
    {
        let mut cards: Vec<Card> = Vec::new();
        for suit in 0..4u8
            invariant
                cards@.len() == 13 * suit,
                forall|i: int| 0 <= i < cards@.len() ==> cards@[i] == canonical_card(i),
        {
            for rank in 0..13u8
                invariant
                    cards@.len() == 13 * suit + rank,
                    suit < 4,
                    forall|i: int| 0 <= i < cards@.len() ==> cards@[i] == canonical_card(i),
            {
                proof {
                    let i = 13 * suit + rank;
                    assert(i / 13 == suit && i % 13 == rank) by (nonlinear_arith)
                        requires
                            i == 13 * suit + rank,
                            rank < 13,
                    ;
                }
                cards.push(Card { suit, rank, taken: false });
            }
        }
        assert(cards@ =~= canonical_deck());
        cards
    }
}

impl DeckStuff for Deck {
    fn shuffle(cards: Vec<Card>) -> Vec<Card> {
        let n = cards.len();
        let mut positions: Vec<usize> = Vec::new();
        for i in 0..n
            invariant
                n == cards@.len(),
                positions@.len() == i,
                forall|j: int| 0 <= j < i ==> positions@[j] < n,
        {
            let p = random_below(n);
            positions.push(p);
        }
        Deck::shuffle_with(cards, &positions)
    }

    fn new() -> Deck {
        let cards = Deck::shuffle(Deck::canonical_cards());
        proof {
            let pos = choose|pos: Seq<usize>|
                valid_positions(canonical_deck(), pos) && cards@ == shuffled(canonical_deck(), pos);
            assert forall|p: u8| #[trigger] count_rank(cards@, p) == (if p < 13 { 4nat } else { 0nat }) by {
                lemma_shuffle_keeps_counts(canonical_deck(), pos, p);
                lemma_canonical_counts(p);
            }
            broadcast use vstd::seq_lib::group_to_multiset_ensures;

            assert(cards@.len() == cards@.to_multiset().len());
        }
        Deck { cards }
    }

    fn draw(&mut self) -> Option<Card> {
        self.cards.pop()
    }

    fn is_empty(&self) -> bool {
        self.cards.len() == 0
    }
}

} // verus!
