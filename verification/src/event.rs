//! Abstract events emitted by the game core.
//!
//! The core never formats text: it records what happened as plain values, and
//! a collaborator outside the library renders them. `Event` is the value the
//! executable code builds; `AbsEvent` is its mathematical image, used by the
//! contracts, in which a card list is a sequence.

use vstd::prelude::*;

use crate::card::{Card, Player};

verus! {

/// The mathematical image of an event: what the contracts speak of.
#[verifier::ext_equal]
pub ghost enum AbsEvent {
    GameStarted,
    PenaltyPhaseStarted { magnitude: u8 },
    CardPlayed { player: Player, card: Card },
    PileCollected { player: Player, cards: Seq<Card> },
    GameOver { winner: Player },
    TurnCount { count: u64 },
    InitialDecks { full: Seq<Card>, player_one: Seq<Card>, player_two: Seq<Card> },
}

/// One abstract event of a game run, in the order it happened.
#[derive(Debug, Clone, PartialEq, Eq)]
pub enum Event {
    GameStarted,
    PenaltyPhaseStarted { magnitude: u8 },
    CardPlayed { player: Player, card: Card },
    PileCollected { player: Player, cards: Vec<Card> },
    GameOver { winner: Player },
    TurnCount { count: u64 },
    InitialDecks { full: Vec<Card>, player_one: Vec<Card>, player_two: Vec<Card> },
}

/// The mathematical image of one recorded event.
pub open spec fn abs_event(e: Event) -> AbsEvent {
    match e {
        Event::GameStarted => AbsEvent::GameStarted,
        Event::PenaltyPhaseStarted { magnitude } => AbsEvent::PenaltyPhaseStarted { magnitude },
        Event::CardPlayed { player, card } => AbsEvent::CardPlayed { player, card },
        Event::PileCollected { player, cards } => AbsEvent::PileCollected {
            player,
            cards: cards@,
        },
        Event::GameOver { winner } => AbsEvent::GameOver { winner },
        Event::TurnCount { count } => AbsEvent::TurnCount { count },
        Event::InitialDecks { full, player_one, player_two } => AbsEvent::InitialDecks {
            full: full@,
            player_one: player_one@,
            player_two: player_two@,
        },
    }
}

/// The mathematical image of a recorded event list.
pub open spec fn abs_events(s: Seq<Event>) -> Seq<AbsEvent> {
    s.map_values(|e: Event| abs_event(e))
}

pub proof fn lemma_abs_events_push(s: Seq<Event>, e: Event)
    ensures
        abs_events(s.push(e)) == abs_events(s).push(abs_event(e)),
{
    assert(abs_events(s.push(e)) =~= abs_events(s).push(abs_event(e)));
}

} // verus!
