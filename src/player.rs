use vstd::prelude::*;

use crate::card::Card;

verus! {

/// A hand: the cards one player holds, in the order they came in.
pub struct Player {
    pub hand: Vec<Card>,
}

/// The cards of `s` with rank `r`, in order.
pub open spec fn of_rank(s: Seq<Card>, r: u8) -> Seq<Card>
    decreases s.len(),
{
    if s.len() == 0 {
        s
    } else if s.last().rank == r {
        of_rank(s.drop_last(), r).push(s.last())
    } else {
        of_rank(s.drop_last(), r)
    }
}

/// The cards of `s` with any rank but `r`, in order.
pub open spec fn without_rank(s: Seq<Card>, r: u8) -> Seq<Card>
    decreases s.len(),
{
    if s.len() == 0 {
        s
    } else if s.last().rank != r {
        without_rank(s.drop_last(), r).push(s.last())
    } else {
        without_rank(s.drop_last(), r)
    }
}

/// How many cards of rank `r` there are in `s`.
pub open spec fn count_rank(s: Seq<Card>, r: u8) -> nat {
    of_rank(s, r).len()
}

/// Some card of `s` has rank `r`.
pub open spec fn holds_rank(s: Seq<Card>, r: u8) -> bool {
    exists|i: int| 0 <= i < s.len() && s[i].rank == r
}

/// The lowest rank from `k` up to King of which `s` holds four or more.
pub open spec fn first_set_from(s: Seq<Card>, k: int) -> Option<u8>
    decreases 13 - k,
{
    if k >= 13 || k < 0 {
        None
    } else if count_rank(s, k as u8) >= 4 {
        Some(k as u8)
    } else {
        first_set_from(s, k + 1)
    }
}

/// The lowest rank of which `s` holds four or more, if any.
pub open spec fn first_set(s: Seq<Card>) -> Option<u8> {
    first_set_from(s, 0)
}

/// The hand after a set check: the first completed rank taken out.
pub open spec fn after_set(s: Seq<Card>) -> Seq<Card> {
    match first_set(s) {
        Some(r) => without_rank(s, r),
        None => s,
    }
}

pub proof fn lemma_of_rank_add(a: Seq<Card>, b: Seq<Card>, r: u8)
    ensures
        of_rank(a + b, r) == of_rank(a, r) + of_rank(b, r),
        without_rank(a + b, r) == without_rank(a, r) + without_rank(b, r),
    decreases b.len(),
{
    if b.len() == 0 {
        assert(a + b =~= a);
        assert(of_rank(a, r) + of_rank(b, r) =~= of_rank(a, r));
        assert(without_rank(a, r) + without_rank(b, r) =~= without_rank(a, r));
    } else {
        lemma_of_rank_add(a, b.drop_last(), r);
        assert((a + b).drop_last() =~= a + b.drop_last());
        assert((a + b).last() == b.last());
        assert(of_rank(a + b, r) =~= of_rank(a, r) + of_rank(b, r));
        assert(without_rank(a + b, r) =~= without_rank(a, r) + without_rank(b, r));
    }
}

pub proof fn lemma_split_count(s: Seq<Card>, r: u8)
    ensures
        of_rank(s, r).len() + without_rank(s, r).len() == s.len(),
    decreases s.len(),
{
    if s.len() > 0 {
        lemma_split_count(s.drop_last(), r);
    }
}

/// One more card counts once more, under its own rank.
pub proof fn lemma_count_push(s: Seq<Card>, x: Card, p: u8)
    ensures
        count_rank(s.push(x), p) == count_rank(s, p) + (if x.rank == p { 1int } else { 0int }),
{
    assert(s.push(x).drop_last() =~= s);
}

/// Replacing the card at `i` by `x` moves one count from the old card's
/// rank to `x`'s.
pub proof fn lemma_count_update(s: Seq<Card>, i: int, x: Card, p: u8)
    requires
        0 <= i < s.len(),
    ensures
        count_rank(s.update(i, x), p) + (if s[i].rank == p { 1int } else { 0int }) == count_rank(s, p)
            + (if x.rank == p { 1int } else { 0int }),
    decreases s.len(),
{
    let t = s.update(i, x);
    if i == s.len() - 1 {
        assert(t.drop_last() =~= s.drop_last());
    } else {
        assert(t.drop_last() =~= s.drop_last().update(i, x));
        lemma_count_update(s.drop_last(), i, x, p);
    }
}

/// Taking out one rank leaves the count of every other rank as it was, and
/// none of that rank.
pub proof fn lemma_without_rank_counts(s: Seq<Card>, r: u8, q: u8)
    ensures
        q != r ==> of_rank(without_rank(s, r), q) == of_rank(s, q),
        of_rank(without_rank(s, r), r).len() == 0,
        of_rank(of_rank(s, r), r) == of_rank(s, r),
        q != r ==> of_rank(of_rank(s, r), q).len() == 0,
    decreases s.len(),
{
    if s.len() > 0 {
        lemma_without_rank_counts(s.drop_last(), r, q);
        let t = s.drop_last();
        if s.last().rank != r {
            assert(without_rank(s, r).drop_last() =~= without_rank(t, r));
        } else {
            assert(of_rank(s, r).drop_last() =~= of_rank(t, r));
        }
    }
}

/// A hand holds a rank exactly when taking that rank out yields some card.
pub proof fn lemma_holds_iff_removes(s: Seq<Card>, r: u8)
    ensures
        holds_rank(s, r) <==> of_rank(s, r).len() > 0,
    decreases s.len(),
{
    if s.len() > 0 {
        let t = s.drop_last();
        lemma_holds_iff_removes(t, r);
        if holds_rank(t, r) {
            let i = choose|i: int| 0 <= i < t.len() && t[i].rank == r;
            assert(s[i].rank == r);
        }
        if holds_rank(s, r) && s.last().rank != r {
            let i = choose|i: int| 0 <= i < s.len() && s[i].rank == r;
            assert(t[i].rank == r);
        }
    }
}

/// Adding cards and then taking out one rank yields the cards of that rank
/// that were held before followed by those added; what is left shrinks by
/// as many cards as were taken out.
pub proof fn lemma_add_then_remove(h: Seq<Card>, xs: Seq<Card>, r: u8)
    ensures
        of_rank(h + xs, r) == of_rank(h, r) + of_rank(xs, r),
        count_rank(h, r) == 0 ==> of_rank(h + xs, r) == of_rank(xs, r),
        without_rank(h + xs, r).len() == (h + xs).len() - of_rank(h + xs, r).len(),
{
    lemma_of_rank_add(h, xs, r);
    lemma_split_count(h + xs, r);
    if count_rank(h, r) == 0 {
        assert(of_rank(h, r) + of_rank(xs, r) =~= of_rank(xs, r));
    }
}

proof fn lemma_first_set_from(s: Seq<Card>, k: int)
    requires
        0 <= k <= 13,
    ensures
        first_set_from(s, k) matches Some(r) ==> k <= r < 13 && count_rank(s, r) >= 4 && (
        forall|j: int| k <= j < r ==> #[trigger] count_rank(s, j as u8) < 4),
        first_set_from(s, k) is None ==> forall|j: int| k <= j < 13 ==> #[trigger] count_rank(s, j as u8) < 4,
    decreases 13 - k,
{
    if k < 13 {
        lemma_first_set_from(s, k + 1);
    }
}

/// The first set found is the lowest rank held four or more times, and none
/// is found exactly when no rank is.
pub proof fn lemma_first_set(s: Seq<Card>)
    ensures
        first_set(s) matches Some(r) ==> r < 13 && count_rank(s, r) >= 4 && (forall|j: int|
            0 <= j < r ==> #[trigger] count_rank(s, j as u8) < 4),
        first_set(s) is None ==> forall|j: int| 0 <= j < 13 ==> #[trigger] count_rank(s, j as u8) < 4,
{
    lemma_first_set_from(s, 0);
}

proof fn lemma_first_set_none(s: Seq<Card>, k: int)
    requires
        0 <= k <= 13,
        forall|j: int| k <= j < 13 ==> #[trigger] count_rank(s, j as u8) < 4,
    ensures
        first_set_from(s, k) is None,
    decreases 13 - k,
{
    if k < 13 {
        lemma_first_set_none(s, k + 1);
    }
}

proof fn lemma_first_set_some(s: Seq<Card>, k: int, r: int)
    requires
        0 <= k <= r < 13,
        count_rank(s, r as u8) >= 4,
        forall|j: int| k <= j < r ==> #[trigger] count_rank(s, j as u8) < 4,
    ensures
        first_set_from(s, k) == Some(r as u8),
    decreases 13 - k,
{
    if k < r {
        lemma_first_set_some(s, k + 1, r);
    }
}

/// A hand with exactly four cards of rank `r` and no other rank held four
/// times completes `r` on a set check, loses exactly those four cards, and
/// completes nothing on a second check.
pub proof fn lemma_set_found_once(s: Seq<Card>, r: u8)
    requires
        r < 13,
        count_rank(s, r) == 4,
        forall|j: int| 0 <= j < 13 && j != r ==> #[trigger] count_rank(s, j as u8) < 4,
    ensures
        first_set(s) == Some(r),
        after_set(s) == without_rank(s, r),
        after_set(s).len() == s.len() - 4,
        of_rank(s, r).len() == 4,
        first_set(after_set(s)) is None,
{
    lemma_first_set_some(s, 0, r as int);
    lemma_split_count(s, r);
    let t = without_rank(s, r);
    assert forall|j: int| 0 <= j < 13 implies #[trigger] count_rank(t, j as u8) < 4 by {
        lemma_without_rank_counts(s, r, j as u8);
        if j != r {
            assert(count_rank(s, j as u8) < 4);
        }
    }
    lemma_first_set_none(t, 0);
}

impl View for Player {
    type V = Seq<Card>;

    open spec fn view(&self) -> Seq<Card> {
        self.hand@
    }
}

/// What a hand offers: adding cards, asking for a rank, taking a rank out,
/// and finding a completed set.
pub trait PlayerStuff: View<V = Seq<Card>> + Sized {
    /// An empty hand.
    fn new() -> (r: Player)
        ensures
            r.hand@ == Seq::<Card>::empty(),
    ;

    /// Puts all of `incards` into the hand, after the cards already held.
    fn add_cards(&mut self, incards: Vec<Card>)
        ensures
            final(self)@ == old(self)@ + incards@,
    ;

    /// Whether some card in the hand has the given rank.
    fn has_rank(&self, rank: u8) -> (r: bool)
        ensures
            r == holds_rank(self@, rank),
    ;

    /// Takes every card of the given rank out of the hand and returns them in
    /// the order they were held; the other cards keep their order.
    fn remove_cards(&mut self, rank: u8) -> (r: Vec<Card>)
        ensures
            r@ == of_rank(old(self)@, rank),
            final(self)@ == without_rank(old(self)@, rank),
    ;

    /// The lowest rank, Ace to King, of which the hand holds four or more
    /// cards.
    fn find_set(&self) -> (r: Option<u8>)
        ensures
            r == first_set(self@),
    ;

    /// Checks the ranks from Ace to King and, at the first one held four or
    /// more times, takes all its cards out and returns 1; returns 0 and
    /// leaves the hand as it was when no rank is.
    fn check_set(&mut self) -> (r: u8)
        ensures
            r == (if first_set(old(self)@) is Some { 1u8 } else { 0u8 }),
            final(self)@ == after_set(old(self)@),
    ;
}

impl Player {
    /// How many cards of the given rank the hand holds.
    fn count_of(&self, rank: u8) -> (r: usize)
        ensures
            r == count_rank(self.hand@, rank),
    {
        let mut n: usize = 0;
        for i in 0..self.hand.len()
            invariant
                n == count_rank(self.hand@.subrange(0, i as int), rank),
                n <= i,
        {
            proof {
                let s = self.hand@.subrange(0, i + 1);
                assert(s.drop_last() =~= self.hand@.subrange(0, i as int));
            }
            if self.hand[i].rank == rank {
                n = n + 1;
            }
        }
        assert(self.hand@.subrange(0, self.hand@.len() as int) =~= self.hand@);
        n
    }
}

impl PlayerStuff for Player {
    fn new() -> Player {
        Player { hand: Vec::new() }
    }

    fn add_cards(&mut self, incards: Vec<Card>) {
        let ghost start = self.hand@;
        for i in 0..incards.len()
            invariant
                self.hand@ == start + incards@.subrange(0, i as int),
        {
            self.hand.push(incards[i]);
            assert(incards@.subrange(0, i + 1) =~= incards@.subrange(0, i as int).push(incards@[i as int]));
        }
        assert(incards@.subrange(0, incards@.len() as int) =~= incards@);
    }

    fn has_rank(&self, rank: u8) -> bool {
        for i in 0..self.hand.len()
            invariant
                forall|j: int| 0 <= j < i ==> self.hand@[j].rank != rank,
        {
            if self.hand[i].rank == rank {
                return true;
            }
        }
        false
    }

    fn remove_cards(&mut self, rank: u8) -> Vec<Card> {
        let mut removed: Vec<Card> = Vec::new();
        let mut kept: Vec<Card> = Vec::new();
        for i in 0..self.hand.len()
            invariant
                removed@ == of_rank(self.hand@.subrange(0, i as int), rank),
                kept@ == without_rank(self.hand@.subrange(0, i as int), rank),
        {
            let c = self.hand[i];
            proof {
                let s = self.hand@.subrange(0, i + 1);
                assert(s.drop_last() =~= self.hand@.subrange(0, i as int));
                assert(s.last() == c);
            }
            if c.rank == rank {
                removed.push(c);
            } else {
                kept.push(c);
            }
        }
        assert(self.hand@.subrange(0, self.hand@.len() as int) =~= self.hand@);
        self.hand = kept;
        removed
    }

    fn find_set(&self) -> Option<u8> {
        for k in 0..13u8
            invariant
                first_set(self.hand@) == first_set_from(self.hand@, k as int),
        {
            if self.count_of(k) >= 4 {
                return Some(k);
            }
        }
        None
    }

    fn check_set(&mut self) -> u8 {
        match self.find_set() {
            Some(rank) => {
                self.remove_cards(rank);
                1
            },
            None => 0,
        }
    }
}

} // verus!
