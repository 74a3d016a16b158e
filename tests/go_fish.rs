use go_fish::card::Card;
use go_fish::deck::{Deck, DeckStuff};
use go_fish::game::{game_over, rank_of_input, Game, GameStuff, Side, Turn, NO_RANK};
use go_fish::player::{Player, PlayerStuff};

fn canonical() -> Vec<Card> {
    let mut v = Vec::new();
    for s in 0..4u8 {
        for r in 0..13u8 {
            v.push(Card { suit: s, rank: r, taken: false });
        }
    }
    v
}

fn chars(s: &str) -> Vec<char> {
    s.chars().collect()
}

fn hand(cards: &[(u8, u8)]) -> Player {
    let mut p = Player::new();
    p.add_cards(cards.iter().map(|&(s, r)| Card::new(s, r)).collect());
    p
}

#[test]
fn canonical_order_is_suit_major() {
    let c = Deck::canonical_cards();
    assert_eq!(c.len(), 52);
    assert_eq!(c, canonical());
    assert_eq!(c[14], Card::new(1, 1));
}

#[test]
fn identity_positions_keep_canonical_order() {
    let positions: Vec<usize> = (0..52).collect();
    let out = Deck::shuffle_with(Deck::canonical_cards(), &positions);
    assert_eq!(out, canonical());
}

#[test]
fn shuffle_with_swaps_in_order() {
    let cards = vec![Card::new(0, 0), Card::new(0, 1), Card::new(0, 2)];
    // step 0 swaps 0 and 2, step 1 swaps 1 and 0, step 2 swaps 2 and 2
    let out = Deck::shuffle_with(cards, &vec![2, 0, 2]);
    assert_eq!(out, vec![Card::new(0, 1), Card::new(0, 2), Card::new(0, 0)]);
}

#[test]
fn new_deck_holds_every_card_once() {
    let d = Deck::new();
    assert_eq!(d.cards.len(), 52);
    let mut sorted: Vec<(u8, u8)> = d.cards.iter().map(|c| (c.suit, c.rank)).collect();
    sorted.sort();
    let expected: Vec<(u8, u8)> = canonical().iter().map(|c| (c.suit, c.rank)).collect();
    assert_eq!(sorted, expected);
}

#[test]
fn shuffle_keeps_cards() {
    let out = Deck::shuffle(canonical());
    let mut got: Vec<(u8, u8)> = out.iter().map(|c| (c.suit, c.rank)).collect();
    got.sort();
    let expected: Vec<(u8, u8)> = canonical().iter().map(|c| (c.suit, c.rank)).collect();
    assert_eq!(got, expected);
}

#[test]
fn draws_shrink_then_yield_nothing() {
    let mut d = Deck::new();
    for k in 1..=52usize {
        assert!(d.draw().is_some());
        assert_eq!(d.cards.len(), 52 - k);
    }
    assert!(d.is_empty());
    assert_eq!(d.draw(), None);
    assert_eq!(d.draw(), None);
    assert_eq!(d.cards.len(), 0);
}

#[test]
fn draw_takes_the_top_card() {
    let mut d = Deck { cards: vec![Card::new(0, 3), Card::new(2, 7)] };
    assert!(!d.is_empty());
    assert_eq!(d.draw(), Some(Card::new(2, 7)));
    assert_eq!(d.cards, vec![Card::new(0, 3)]);
}

#[test]
fn add_then_remove_round_trip() {
    let mut p = hand(&[(0, 1), (1, 5)]);
    p.add_cards(vec![Card::new(2, 9), Card::new(3, 1), Card::new(0, 9)]);
    assert_eq!(p.hand.len(), 5);
    let taken = p.remove_cards(9);
    assert_eq!(taken, vec![Card::new(2, 9), Card::new(0, 9)]);
    assert_eq!(p.hand, vec![Card::new(0, 1), Card::new(1, 5), Card::new(3, 1)]);
}

#[test]
fn remove_adjacent_cards_of_a_rank() {
    let mut p = hand(&[(0, 11), (1, 11), (2, 4)]);
    let taken = p.remove_cards(11);
    assert_eq!(taken.len(), 2);
    assert_eq!(p.hand, vec![Card::new(2, 4)]);
}

#[test]
fn remove_absent_rank_changes_nothing() {
    let mut p = hand(&[(0, 1), (1, 5)]);
    assert!(p.remove_cards(7).is_empty());
    assert_eq!(p.hand.len(), 2);
}

#[test]
fn has_rank_matches_remove() {
    let p = hand(&[(0, 1), (1, 5), (3, 12)]);
    for r in 0..16u8 {
        let mut copy = Player { hand: p.hand.clone() };
        assert_eq!(p.has_rank(r), !copy.remove_cards(r).is_empty());
    }
    assert!(p.has_rank(12));
    assert!(!p.has_rank(0));
    assert!(!Player::new().has_rank(0));
}

#[test]
fn check_set_finds_one_set_once() {
    let mut p = hand(&[(0, 4), (1, 4), (2, 2), (2, 4), (3, 4), (0, 2)]);
    assert_eq!(p.find_set(), Some(4));
    assert_eq!(p.check_set(), 1);
    assert_eq!(p.hand, vec![Card::new(2, 2), Card::new(0, 2)]);
    assert_eq!(p.check_set(), 0);
    assert_eq!(p.hand.len(), 2);
}

#[test]
fn check_set_takes_lowest_rank_first() {
    let mut p = hand(&[
        (0, 9), (1, 9), (2, 9), (3, 9),
        (0, 3), (1, 3), (2, 3), (3, 3),
    ]);
    assert_eq!(p.check_set(), 1);
    assert_eq!(p.hand.iter().filter(|c| c.rank == 3).count(), 0);
    assert_eq!(p.hand.len(), 4);
    assert_eq!(p.check_set(), 1);
    assert!(p.hand.is_empty());
    assert_eq!(p.check_set(), 0);
}

#[test]
fn check_set_without_set() {
    let mut p = hand(&[(0, 0), (1, 0), (2, 0)]);
    assert_eq!(p.find_set(), None);
    assert_eq!(p.check_set(), 0);
    assert_eq!(p.hand.len(), 3);
}

#[test]
fn input_ranks() {
    assert_eq!(rank_of_input(&chars("A")), Some(0));
    assert_eq!(rank_of_input(&chars("a")), Some(0));
    assert_eq!(rank_of_input(&chars("2")), Some(1));
    assert_eq!(rank_of_input(&chars("9")), Some(8));
    assert_eq!(rank_of_input(&chars("10")), Some(9));
    assert_eq!(rank_of_input(&chars("11")), Some(10));
    assert_eq!(rank_of_input(&chars("12")), Some(11));
    assert_eq!(rank_of_input(&chars("13")), Some(12));
    assert_eq!(rank_of_input(&chars("K")), Some(NO_RANK));
    assert_eq!(rank_of_input(&chars("1")), Some(NO_RANK));
    assert_eq!(rank_of_input(&chars("14")), Some(NO_RANK));
    assert_eq!(rank_of_input(&chars("")), None);
    assert_eq!(rank_of_input(&chars("100")), None);
}

#[test]
fn card_labels() {
    assert_eq!(Card::new(0, 0).label(), chars("SA"));
    assert_eq!(Card::new(1, 9).label(), chars("H10"));
    assert_eq!(Card::new(2, 11).label(), chars("DQ"));
    assert_eq!(Card::new(3, 4).label(), chars("C5"));
    assert_eq!(Card::new(7, 12).label(), chars("?K"));
    assert_eq!(Card::new(0, 100).label(), chars("S101"));
    assert_eq!(Card::new(0, 20).label(), chars("S21"));
}

#[test]
fn dealing_alternates() {
    let g = Game::with_deck(Deck { cards: canonical() });
    assert_eq!(g.deck.cards.len(), 38);
    assert_eq!(g.human.hand[0], Card::new(3, 12));
    assert_eq!(g.computer.hand[0], Card::new(3, 11));
    assert_eq!(g.human.hand[6], Card::new(3, 0));
    assert_eq!(g.computer.hand[6], Card::new(2, 12));
}

#[test]
fn dealing_from_short_deck() {
    let g = Game::with_deck(Deck { cards: vec![Card::new(0, 1), Card::new(0, 2), Card::new(0, 3)] });
    assert_eq!(g.human.hand, vec![Card::new(0, 3), Card::new(0, 1)]);
    assert_eq!(g.computer.hand, vec![Card::new(0, 2)]);
    assert!(g.deck.cards.is_empty());
}

#[test]
fn new_game_deals_seven_each() {
    let g = Game::new();
    assert_eq!(g.human.hand.len(), 7);
    assert_eq!(g.computer.hand.len(), 7);
    assert_eq!(g.deck.cards.len(), 38);
}

#[test]
fn human_captures_queens() {
    let mut g = Game {
        deck: Deck { cards: vec![Card::new(0, 0)] },
        human: hand(&[(0, 3)]),
        computer: hand(&[(1, 11), (0, 5), (3, 11)]),
    };
    let t = g.human_turn(&chars("12"));
    assert_eq!(t.score(), 0);
    match t {
        Turn::Captured { cards, set } => {
            assert_eq!(cards, vec![Card::new(1, 11), Card::new(3, 11)]);
            assert_eq!(set, None);
        }
        _ => panic!("expected a capture"),
    }
    assert!(!g.computer.has_rank(11));
    assert_eq!(g.computer.hand, vec![Card::new(0, 5)]);
    assert_eq!(g.human.hand, vec![Card::new(0, 3), Card::new(1, 11), Card::new(3, 11)]);
    assert_eq!(g.deck.cards.len(), 1);
}

#[test]
fn human_goes_fish_on_empty_deck() {
    let mut g = Game {
        deck: Deck { cards: vec![Card::new(0, 0)] },
        human: hand(&[(0, 3), (1, 3)]),
        computer: hand(&[(1, 11)]),
    };
    assert_eq!(g.deck.draw(), Some(Card::new(0, 0)));
    let t = g.human_turn(&chars("5"));
    match t {
        Turn::Fished { card, set } => {
            assert_eq!(card, None);
            assert_eq!(set, None);
        }
        _ => panic!("expected go fish"),
    }
    assert_eq!(g.human.hand.len(), 2);
    assert_eq!(g.computer.hand.len(), 1);
}

#[test]
fn human_fishes_and_completes_set() {
    let mut g = Game {
        deck: Deck { cards: vec![Card::new(1, 2), Card::new(3, 6)] },
        human: hand(&[(0, 6), (1, 6), (2, 6), (0, 1)]),
        computer: hand(&[(1, 11)]),
    };
    let t = g.human_turn(&chars("q"));
    assert_eq!(t.score(), 1);
    match t {
        Turn::Fished { card, set } => {
            assert_eq!(card, Some(Card::new(3, 6)));
            assert_eq!(set, Some(6));
        }
        _ => panic!("expected go fish"),
    }
    assert_eq!(g.human.hand, vec![Card::new(0, 1)]);
    assert_eq!(g.deck.cards, vec![Card::new(1, 2)]);
}

#[test]
fn invalid_input_does_nothing() {
    let mut g = Game {
        deck: Deck { cards: vec![Card::new(1, 2)] },
        human: hand(&[(0, 6), (1, 6), (2, 6), (3, 6)]),
        computer: hand(&[(1, 11)]),
    };
    let t = g.human_turn(&chars("abc"));
    assert!(matches!(t, Turn::Invalid));
    assert_eq!(t.score(), 0);
    assert_eq!(g.human.hand.len(), 4);
    assert_eq!(g.deck.cards.len(), 1);
}

#[test]
fn computer_takes_cards() {
    let mut g = Game {
        deck: Deck { cards: vec![Card::new(1, 2)] },
        human: hand(&[(0, 8), (2, 8), (1, 1)]),
        computer: hand(&[(1, 8), (3, 8)]),
    };
    let t = g.computer_turn_with(8);
    assert_eq!(t.score(), 1);
    assert!(g.computer.hand.is_empty());
    assert_eq!(g.human.hand, vec![Card::new(1, 1)]);
    assert_eq!(g.deck.cards.len(), 1);
}

#[test]
fn computer_goes_fish() {
    let mut g = Game {
        deck: Deck { cards: vec![Card::new(1, 2)] },
        human: hand(&[(1, 1)]),
        computer: hand(&[(1, 8)]),
    };
    let t = g.computer_turn_with(0);
    assert_eq!(t.score(), 0);
    assert_eq!(g.computer.hand, vec![Card::new(1, 8), Card::new(1, 2)]);
    assert!(g.deck.cards.is_empty());
}

#[test]
fn random_computer_turn_moves_one_way() {
    let mut g = Game::new();
    let before = g.human.hand.len() + g.computer.hand.len() + g.deck.cards.len();
    let t = g.computer_turn();
    let after = g.human.hand.len() + g.computer.hand.len() + g.deck.cards.len();
    assert_eq!(after + 4 * t.score() as usize, before);
}

#[test]
fn tie_goes_to_computer() {
    let g = Game::with_deck(Deck { cards: Vec::new() });
    assert!(matches!(g.winner(6, 6), Side::Computer));
    assert!(matches!(g.winner(7, 6), Side::Human));
    assert!(matches!(g.winner(6, 7), Side::Computer));
}

#[test]
fn game_ends_at_thirteen() {
    assert!(!game_over(6, 6));
    assert!(game_over(7, 6));
    assert!(game_over(0, 13));
    assert!(!game_over(0, 0));
}

fn ranks_gone(g: &Game) -> usize {
    let mut gone = 0;
    for r in 0..13u8 {
        let n = g.deck.cards.iter().chain(g.human.hand.iter()).chain(g.computer.hand.iter())
            .filter(|c| c.rank == r)
            .count();
        assert!(n == 0 || n == 4);
        if n == 0 {
            gone += 1;
        }
    }
    gone
}

#[test]
fn scores_track_claimed_ranks() {
    let mut g = Game::new();
    let inputs = ["A", "2", "3", "4", "5", "6", "7", "8", "9", "10", "11", "12", "13"];
    let mut h_score: u8 = 0;
    let mut c_score: u8 = 0;
    let mut i = 0;
    while !game_over(h_score, c_score) && i < 5000 {
        // ask for a rank the human holds when there is one, else cycle
        let ask = match g.human.hand.first() {
            Some(c) => inputs[c.rank as usize],
            None => inputs[i % 13],
        };
        h_score += g.human_turn(&chars(ask)).score();
        assert_eq!(ranks_gone(&g), (h_score + c_score) as usize);
        c_score += g.computer_turn().score();
        assert_eq!(ranks_gone(&g), (h_score + c_score) as usize);
        assert!(h_score + c_score <= 13);
        i += 1;
    }
    if game_over(h_score, c_score) {
        assert_eq!(h_score + c_score, 13);
        assert!(g.deck.cards.is_empty() && g.human.hand.is_empty() && g.computer.hand.is_empty());
    }
}
