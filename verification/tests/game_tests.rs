use std::collections::VecDeque;

use penalty_war::card::{Card, Player, Rank, Suit};
use penalty_war::deck::{create_deck, deal, split_deck};
use penalty_war::event::Event;
use penalty_war::game::run_game;
use penalty_war::phase::process_penalty_phase;

fn c(rank: Rank, suit: Suit) -> Card {
    Card { rank, suit }
}

const ALL_RANKS: [Rank; 13] = [
    Rank::Two,
    Rank::Three,
    Rank::Four,
    Rank::Five,
    Rank::Six,
    Rank::Seven,
    Rank::Eight,
    Rank::Nine,
    Rank::Ten,
    Rank::Jack,
    Rank::Queen,
    Rank::King,
    Rank::Ace,
];

const ALL_SUITS: [Suit; 4] = [Suit::Spade, Suit::Heart, Suit::Club, Suit::Diamond];

#[test]
fn penalty_mapping_totality() {
    assert_eq!(Rank::Jack.penalty_value(), Some(1));
    assert_eq!(Rank::Queen.penalty_value(), Some(2));
    assert_eq!(Rank::King.penalty_value(), Some(3));
    assert_eq!(Rank::Ace.penalty_value(), Some(4));
    for rank in [
        Rank::Two,
        Rank::Three,
        Rank::Four,
        Rank::Five,
        Rank::Six,
        Rank::Seven,
        Rank::Eight,
        Rank::Nine,
        Rank::Ten,
    ] {
        assert_eq!(rank.penalty_value(), None);
    }
}

#[test]
fn other_is_an_involution() {
    assert_eq!(Player::One.other(), Player::Two);
    assert_eq!(Player::Two.other(), Player::One);
    assert_eq!(Player::One.other().other(), Player::One);
    assert_eq!(Player::Two.other().other(), Player::Two);
    assert_eq!(Player::One.number(), 1);
    assert_eq!(Player::Two.number(), 2);
}

#[test]
fn standard_deck_is_52_distinct_cards() {
    let deck = create_deck();
    assert_eq!(deck.len(), 52);
    for i in 0..52 {
        for j in 0..52 {
            if i != j {
                assert_ne!(deck[i], deck[j]);
            }
        }
    }
    for suit in ALL_SUITS {
        for rank in ALL_RANKS {
            assert!(deck.contains(&c(rank, suit)));
        }
    }
    assert_eq!(deck[0], c(Rank::Two, Suit::Spade));
    assert_eq!(deck[12], c(Rank::Ace, Suit::Spade));
    assert_eq!(deck[13], c(Rank::Two, Suit::Heart));
    assert_eq!(deck[51], c(Rank::Ace, Suit::Diamond));
}

#[test]
fn split_is_even_and_keeps_order() {
    let deck = create_deck();
    let full = deck.clone();
    let (one, two) = split_deck(deck);
    assert_eq!(one.len(), 26);
    assert_eq!(two.len(), 26);
    for i in 0..26 {
        assert_eq!(one[i], full[i]);
        assert_eq!(two[i], full[26 + i]);
    }
}

#[test]
fn deal_is_a_seeded_permutation() {
    let mut events = Vec::new();
    let (one, two) = deal(7, &mut events);
    assert_eq!(one.len(), 26);
    assert_eq!(two.len(), 26);
    // Every standard card appears exactly once across the two queues.
    for suit in ALL_SUITS {
        for rank in ALL_RANKS {
            let card = c(rank, suit);
            let n = one.iter().filter(|&&x| x == card).count()
                + two.iter().filter(|&&x| x == card).count();
            assert_eq!(n, 1);
        }
    }
    // The same seed deals the same hands.
    let mut events2 = Vec::new();
    let (one2, two2) = deal(7, &mut events2);
    assert_eq!(one, one2);
    assert_eq!(two, two2);
    assert_eq!(events, events2);
    // The deal was recorded.
    let full: Vec<Card> = one.iter().chain(two.iter()).copied().collect();
    assert_eq!(
        events,
        vec![Event::InitialDecks {
            full,
            player_one: one.iter().copied().collect(),
            player_two: two.iter().copied().collect(),
        }]
    );
}

#[test]
fn deal_actually_rearranges() {
    let mut events = Vec::new();
    let (one, two) = deal(7, &mut events);
    let standard = create_deck();
    let dealt: Vec<Card> = one.iter().chain(two.iter()).copied().collect();
    assert_ne!(dealt, standard);
}

#[test]
fn collection_without_escalation() {
    // Player One has played a Jack (magnitude 1) onto a pile that already
    // held an ordinary card; Player Two pays one non-penalty card and One
    // collects the whole pile in play order.
    let mut pile = vec![c(Rank::Five, Suit::Club), c(Rank::Jack, Suit::Spade)];
    let mut one = VecDeque::from(vec![c(Rank::Nine, Suit::Heart)]);
    let mut two = VecDeque::from(vec![c(Rank::Two, Suit::Heart), c(Rank::Three, Suit::Club)]);
    let mut events = Vec::new();
    let winner = process_penalty_phase(Player::One, 1, &mut pile, &mut one, &mut two, &mut events);
    assert_eq!(winner, None);
    assert!(pile.is_empty());
    assert_eq!(
        one,
        VecDeque::from(vec![
            c(Rank::Nine, Suit::Heart),
            c(Rank::Five, Suit::Club),
            c(Rank::Jack, Suit::Spade),
            c(Rank::Two, Suit::Heart),
        ])
    );
    assert_eq!(two, VecDeque::from(vec![c(Rank::Three, Suit::Club)]));
    assert_eq!(
        events,
        vec![
            Event::PenaltyPhaseStarted { magnitude: 1 },
            Event::CardPlayed { player: Player::Two, card: c(Rank::Two, Suit::Heart) },
            Event::PileCollected {
                player: Player::One,
                cards: vec![
                    c(Rank::Five, Suit::Club),
                    c(Rank::Jack, Suit::Spade),
                    c(Rank::Two, Suit::Heart),
                ],
            },
        ]
    );
}

#[test]
fn escalation_flips_roles_twice() {
    // One triggers with a Jack (pay 1); Two's payment card is a Queen, so
    // the roles flip and One must pay 2; One pays two ordinary cards, and
    // Two — the initiator of the last unanswered penalty — collects all
    // four cards.
    let mut pile = vec![c(Rank::Jack, Suit::Spade)];
    let mut one = VecDeque::from(vec![
        c(Rank::Five, Suit::Heart),
        c(Rank::Six, Suit::Heart),
        c(Rank::Seven, Suit::Heart),
    ]);
    let mut two = VecDeque::from(vec![c(Rank::Queen, Suit::Club), c(Rank::Eight, Suit::Club)]);
    let mut events = Vec::new();
    let winner = process_penalty_phase(Player::One, 1, &mut pile, &mut one, &mut two, &mut events);
    assert_eq!(winner, None);
    assert!(pile.is_empty());
    assert_eq!(one, VecDeque::from(vec![c(Rank::Seven, Suit::Heart)]));
    assert_eq!(
        two,
        VecDeque::from(vec![
            c(Rank::Eight, Suit::Club),
            c(Rank::Jack, Suit::Spade),
            c(Rank::Queen, Suit::Club),
            c(Rank::Five, Suit::Heart),
            c(Rank::Six, Suit::Heart),
        ])
    );
    assert_eq!(
        events,
        vec![
            Event::PenaltyPhaseStarted { magnitude: 1 },
            Event::CardPlayed { player: Player::Two, card: c(Rank::Queen, Suit::Club) },
            Event::PenaltyPhaseStarted { magnitude: 2 },
            Event::CardPlayed { player: Player::One, card: c(Rank::Five, Suit::Heart) },
            Event::CardPlayed { player: Player::One, card: c(Rank::Six, Suit::Heart) },
            Event::PileCollected {
                player: Player::Two,
                cards: vec![
                    c(Rank::Jack, Suit::Spade),
                    c(Rank::Queen, Suit::Club),
                    c(Rank::Five, Suit::Heart),
                    c(Rank::Six, Suit::Heart),
                ],
            },
        ]
    );
}

#[test]
fn phase_conserves_cards() {
    let mut pile = vec![c(Rank::Ace, Suit::Spade)];
    let mut one = VecDeque::from(vec![c(Rank::Two, Suit::Spade), c(Rank::King, Suit::Heart)]);
    let mut two = VecDeque::from(vec![
        c(Rank::Three, Suit::Spade),
        c(Rank::Four, Suit::Spade),
        c(Rank::Five, Suit::Spade),
        c(Rank::Six, Suit::Spade),
    ]);
    let before = pile.len() + one.len() + two.len();
    let mut events = Vec::new();
    let _ = process_penalty_phase(Player::One, 4, &mut pile, &mut one, &mut two, &mut events);
    assert_eq!(pile.len() + one.len() + two.len(), before);
}

#[test]
fn exhaustion_during_ordinary_play() {
    // One's single card is ordinary; after playing it One's deck is empty,
    // so One loses at the end-of-turn check.
    let mut one = VecDeque::from(vec![c(Rank::Two, Suit::Spade)]);
    let mut two = VecDeque::from(vec![c(Rank::Three, Suit::Spade), c(Rank::Four, Suit::Spade)]);
    let mut events = Vec::new();
    let (winner, turns) = run_game(&mut one, &mut two, 1000, &mut events);
    assert_eq!(winner, Some(Player::Two));
    assert_eq!(turns, 1);
    assert_eq!(
        events,
        vec![
            Event::GameStarted,
            Event::CardPlayed { player: Player::One, card: c(Rank::Two, Suit::Spade) },
            Event::GameOver { winner: Player::Two },
            Event::TurnCount { count: 1 },
        ]
    );
}

#[test]
fn exhaustion_during_penalty_payment() {
    // One plays a King (magnitude 3); Two's only card is ordinary, so after
    // paying it Two cannot continue and loses, whatever the pile holds.
    let mut one = VecDeque::from(vec![c(Rank::King, Suit::Spade), c(Rank::Two, Suit::Spade)]);
    let mut two = VecDeque::from(vec![c(Rank::Four, Suit::Heart)]);
    let mut events = Vec::new();
    let (winner, turns) = run_game(&mut one, &mut two, 1000, &mut events);
    assert_eq!(winner, Some(Player::One));
    assert_eq!(turns, 0);
    assert_eq!(
        events,
        vec![
            Event::GameStarted,
            Event::CardPlayed { player: Player::One, card: c(Rank::King, Suit::Spade) },
            Event::PenaltyPhaseStarted { magnitude: 3 },
            Event::CardPlayed { player: Player::Two, card: c(Rank::Four, Suit::Heart) },
            Event::GameOver { winner: Player::One },
            Event::TurnCount { count: 0 },
        ]
    );
}

#[test]
fn penalty_exchange_adds_no_turns() {
    // One's Jack triggers an exchange that One wins; the exchange counts no
    // turns, and only the two ordinary plays that follow do.
    let mut one = VecDeque::from(vec![c(Rank::Jack, Suit::Spade), c(Rank::Two, Suit::Spade)]);
    let mut two = VecDeque::from(vec![c(Rank::Three, Suit::Heart), c(Rank::Four, Suit::Heart)]);
    let mut events = Vec::new();
    let (winner, turns) = run_game(&mut one, &mut two, 1000, &mut events);
    // Exchange: One plays J, Two pays 3(h), One collects [J, 3(h)].
    // Ordinary: One plays 2(s) (turn 1), Two plays 4(h) (turn 2) and is
    // left empty, so One wins.
    assert_eq!(winner, Some(Player::One));
    assert_eq!(turns, 2);
    assert_eq!(
        events,
        vec![
            Event::GameStarted,
            Event::CardPlayed { player: Player::One, card: c(Rank::Jack, Suit::Spade) },
            Event::PenaltyPhaseStarted { magnitude: 1 },
            Event::CardPlayed { player: Player::Two, card: c(Rank::Three, Suit::Heart) },
            Event::PileCollected {
                player: Player::One,
                cards: vec![c(Rank::Jack, Suit::Spade), c(Rank::Three, Suit::Heart)],
            },
            Event::CardPlayed { player: Player::One, card: c(Rank::Two, Suit::Spade) },
            Event::CardPlayed { player: Player::Two, card: c(Rank::Four, Suit::Heart) },
            Event::GameOver { winner: Player::One },
            Event::TurnCount { count: 2 },
        ]
    );
}

#[test]
fn identically_seeded_runs_are_identical() {
    let mut events_a = Vec::new();
    let (mut one_a, mut two_a) = deal(42, &mut events_a);
    let result_a = run_game(&mut one_a, &mut two_a, 1_000_000, &mut events_a);

    let mut events_b = Vec::new();
    let (mut one_b, mut two_b) = deal(42, &mut events_b);
    let result_b = run_game(&mut one_b, &mut two_b, 1_000_000, &mut events_b);

    assert_eq!(result_a, result_b);
    assert_eq!(events_a, events_b);
    assert_eq!(one_a, one_b);
    assert_eq!(two_a, two_b);
}

#[test]
fn a_dealt_game_finishes_with_a_winner() {
    for seed in 0..5u64 {
        let mut events = Vec::new();
        let (mut one, mut two) = deal(seed, &mut events);
        let (winner, _) = run_game(&mut one, &mut two, 1_000_000, &mut events);
        assert!(winner.is_some());
        match events.last() {
            Some(Event::TurnCount { .. }) => {},
            other => panic!("unexpected final event: {:?}", other),
        }
    }
}
