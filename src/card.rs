use vstd::prelude::*;

verus! {

/// A playing card: a suit (Spade, Heart, Diamond, Club as 0..4) and a rank
/// (Ace = 0 .. King = 12).
#[derive(Clone, Copy, Debug, PartialEq, Eq, Structural)]
pub struct Card {
    pub suit: u8,
    pub rank: u8,
    pub taken: bool,
}

/// The card at position `i` of a freshly built deck: suit-major, rank-minor.
pub open spec fn canonical_card(i: int) -> Card {
    Card { suit: (i / 13) as u8, rank: (i % 13) as u8, taken: false }
}

/// All 52 cards in their canonical order.
pub open spec fn canonical_deck() -> Seq<Card> {
    Seq::new(52, |i: int| canonical_card(i))
}

/// The letter that names a suit.
pub open spec fn suit_letter(suit: u8) -> char {
    if suit == 0 {
        'S'
    } else if suit == 1 {
        'H'
    } else if suit == 2 {
        'D'
    } else if suit == 3 {
        'C'
    } else {
        '?'
    }
}

/// The decimal digits of `n`, most significant first.
pub open spec fn decimal(n: nat) -> Seq<char>
    decreases n,
{
    if n < 10 {
        seq![digit_char(n)]
    } else {
        decimal(n / 10).push(digit_char(n % 10))
    }
}

pub open spec fn digit_char(d: nat) -> char {
    ((d + 48) as u8) as char
}

/// How a rank is written: A, 2 .. 10, J, Q, K; any other rank by the number
/// one above it.
pub open spec fn rank_text(rank: u8) -> Seq<char> {
    if rank == 0 {
        seq!['A']
    } else if rank == 10 {
        seq!['J']
    } else if rank == 11 {
        seq!['Q']
    } else if rank == 12 {
        seq!['K']
    } else {
        decimal((rank + 1) as nat)
    }
}

/// How a card is written: its suit letter, then its rank.
pub open spec fn card_text(c: Card) -> Seq<char> {
    seq![suit_letter(c.suit)] + rank_text(c.rank)
}

fn digit(d: u16) -> (r: char)
    requires
        d < 10,
    ensures
        r == digit_char(d as nat),
{
    ((d + 48) as u8) as char
}

/// Copies `c2` into `c1` and returns what `c1` held before.
pub fn copy_card(c1: &mut Card, c2: &Card) -> (r: Card)
    ensures
        *final(c1) == *c2,
        r == *old(c1),
{
    let previous = *c1;
    c1.suit = c2.suit;
    c1.rank = c2.rank;
    c1.taken = c2.taken;
    previous
}

impl Card {
    /// A card of the given suit and rank.
    pub fn new(suit: u8, rank: u8) -> (r: Card)
        ensures
            r == (Card { suit, rank, taken: false }),
    {
        Card { suit, rank, taken: false }
    }

    /// The text by which the card is shown, such as `S10` or `HQ`.
    pub fn label(&self) -> (r: Vec<char>)
        ensures
            r@ == card_text(*self),
    {
        let mut r: Vec<char> = Vec::new();
        let s: char = if self.suit == 0 {
            'S'
        } else if self.suit == 1 {
            'H'
        } else if self.suit == 2 {
            'D'
        } else if self.suit == 3 {
            'C'
        } else {
            '?'
        };
        r.push(s);
        if self.rank == 0 {
            r.push('A');
        } else if self.rank == 10 {
            r.push('J');
        } else if self.rank == 11 {
            r.push('Q');
        } else if self.rank == 12 {
            r.push('K');
        } else {
            let n: u16 = self.rank as u16 + 1;
            if n >= 100 {
                r.push(digit(n / 100));
                r.push(digit((n / 10) % 10));
                r.push(digit(n % 10));
                proof {
                    let m = n as nat;
                    assert(m / 10 >= 10);
                    assert((m / 10) / 10 == m / 100);
                    assert(decimal(m / 100) == seq![digit_char(m / 100)]);
                    assert(decimal(m / 10) == decimal(m / 100).push(digit_char((m / 10) % 10)));
                }
            } else if n >= 10 {
                r.push(digit(n / 10));
                r.push(digit(n % 10));
                proof {
                    let m = n as nat;
                    assert(decimal(m / 10) == seq![digit_char(m / 10)]);
                }
            } else {
                r.push(digit(n));
            }
        }
        assert(r@ =~= card_text(*self));
        r
    }
}

} // verus!
