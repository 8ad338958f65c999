//! The turn loop: ordinary play, penalty hand-off, and end-of-game checks.
//!
//! A game is modelled as iterated application of `spec_turn`, one ordinary
//! turn (with any penalty phase it triggers) at a time. `spec_run` iterates
//! it; the executable driver `run_game` produces exactly the winner, turn
//! count and events that `spec_run` determines, which makes every run from
//! the same starting decks identical.

use std::collections::VecDeque;

use vstd::multiset::Multiset;
use vstd::prelude::*;

use crate::card::{spec_other, spec_penalty_value, Card, Player};
use crate::deck::{lemma_standard_deck_distinct, standard_deck};
use crate::event::{abs_events, lemma_abs_events_push, AbsEvent, Event};
use crate::phase::{
    all_cards, deck_of, lemma_phase_preserves_cards, process_penalty_phase, spec_phase,
};

verus! {

/// The whole state between two ordinary turns: the two decks, the shared
/// pile, whose turn it is, and how many ordinary turns have completed.
#[verifier::ext_equal]
pub ghost struct AbsState {
    pub deck_one: Seq<Card>,
    pub deck_two: Seq<Card>,
    pub pile: Seq<Card>,
    pub current: Player,
    pub turns: u64,
}

/// What one turn (or a run of turns) determines: the game's winner if it
/// ended, the state reached, and the events emitted.
#[verifier::ext_equal]
pub ghost struct StepResult {
    pub winner: Option<Player>,
    pub state: AbsState,
    pub events: Seq<AbsEvent>,
}

/// The starting state: Player One moves first onto an empty pile.
pub open spec fn initial_state(one: Seq<Card>, two: Seq<Card>) -> AbsState {
    AbsState { deck_one: one, deck_two: two, pile: Seq::empty(), current: Player::One, turns: 0 }
}

/// The turn counter after one more ordinary turn; it wraps rather than
/// overflows, though no physical run reaches the bound.
pub open spec fn bump_turns(t: u64) -> u64 {
    if t < u64::MAX {
        (t + 1) as u64
    } else {
        0
    }
}

/// After a move, either deck may have emptied: its owner loses at once.
/// When both are empty together, the first deck's check comes first, so
/// Player Two is declared winner.
pub open spec fn spec_end_check(s: AbsState, events: Seq<AbsEvent>) -> StepResult {
    if s.deck_one.len() == 0 || s.deck_two.len() == 0 {
        StepResult {
            winner: Some(if s.deck_one.len() == 0 { Player::Two } else { Player::One }),
            state: s,
            events,
        }
    } else {
        StepResult { winner: None, state: s, events }
    }
}

/// One ordinary turn: the player on turn plays their top card onto the pile;
/// a penalty card hands control to the penalty engine, any other card passes
/// the turn and counts it. A player whose deck is empty when they must play
/// loses at once.
pub open spec fn spec_turn(s: AbsState) -> StepResult {
    let cur = deck_of(s.deck_one, s.deck_two, s.current);
    if cur.len() == 0 {
        StepResult { winner: Some(spec_other(s.current)), state: s, events: Seq::empty() }
    } else {
        let card = cur[0];
        let one2 = if s.current is One { s.deck_one.drop_first() } else { s.deck_one };
        let two2 = if s.current is Two { s.deck_two.drop_first() } else { s.deck_two };
        let pile2 = s.pile.push(card);
        let played = seq![AbsEvent::CardPlayed { player: s.current, card }];
        match spec_penalty_value(card.rank) {
            Some(m) => {
                let ph = spec_phase(s.current, m, one2, two2, pile2);
                let after = AbsState {
                    deck_one: ph.deck_one,
                    deck_two: ph.deck_two,
                    pile: ph.pile,
                    current: s.current,
                    turns: s.turns,
                };
                match ph.winner {
                    Some(w) => StepResult {
                        winner: Some(w),
                        state: after,
                        events: played + ph.events,
                    },
                    None => spec_end_check(after, played + ph.events),
                }
            },
            None => spec_end_check(
                AbsState {
                    deck_one: one2,
                    deck_two: two2,
                    pile: pile2,
                    current: spec_other(s.current),
                    turns: bump_turns(s.turns),
                },
                played,
            ),
        }
    }
}

/// Up to `n` turns from `s`, stopping at the first turn that ends the game.
/// Once the game has ended, further turns change nothing.
pub open spec fn spec_run(s: AbsState, n: nat) -> StepResult
    decreases n,
{
    if n == 0 {
        StepResult { winner: None, state: s, events: Seq::empty() }
    } else {
        let t = spec_turn(s);
        if t.winner is Some {
            t
        } else {
            let rest = spec_run(t.state, (n - 1) as nat);
            StepResult { winner: rest.winner, state: rest.state, events: t.events + rest.events }
        }
    }
}

/// Extends an unfinished run by one turn: running `n + 1` turns is running
/// `n` and then taking one more from the state reached.
pub proof fn lemma_run_snoc(s: AbsState, n: nat)
    requires
        spec_run(s, n).winner is None,
    ensures
        ({
            let r = spec_run(s, n);
            let t = spec_turn(r.state);
            &&& spec_run(s, n + 1).winner == t.winner
            &&& spec_run(s, n + 1).state == t.state
            &&& spec_run(s, n + 1).events == r.events + t.events
        }),
    decreases n,
{
    let r = spec_run(s, n);
    let t = spec_turn(r.state);
    if n == 0 {
        let t0 = spec_turn(s);
        if t0.winner is Some {
            assert(spec_run(s, 1) == t0);
            assert(r.events + t.events =~= t0.events);
        } else {
            assert(spec_run(t0.state, 0) == StepResult {
                winner: None,
                state: t0.state,
                events: Seq::<AbsEvent>::empty(),
            });
            assert(spec_run(s, 1).events =~= t0.events);
            assert(r.events + t.events =~= t0.events);
        }
    } else {
        let t0 = spec_turn(s);
        assert(t0.winner is None);
        lemma_run_snoc(t0.state, (n - 1) as nat);
        let r1 = spec_run(t0.state, (n - 1) as nat);
        assert(spec_run(s, n + 1).events == t0.events + spec_run(t0.state, n as nat).events);
        assert(t0.events + (r1.events + t.events) =~= (t0.events + r1.events) + t.events);
    }
}

/// One turn neither creates nor destroys cards, whether it ends the game or
/// not.
pub proof fn lemma_turn_preserves_cards(s: AbsState)
    ensures
        ({
            let t = spec_turn(s);
            all_cards(t.state.deck_one, t.state.deck_two, t.state.pile) == all_cards(
                s.deck_one,
                s.deck_two,
                s.pile,
            )
        }),
{
    broadcast use vstd::multiset::group_multiset_axioms;
    broadcast use vstd::seq_lib::group_to_multiset_ensures;

    let cur = deck_of(s.deck_one, s.deck_two, s.current);
    if cur.len() == 0 {
    } else {
        let card = cur[0];
        let one2 = if s.current is One { s.deck_one.drop_first() } else { s.deck_one };
        let two2 = if s.current is Two { s.deck_two.drop_first() } else { s.deck_two };
        let pile2 = s.pile.push(card);
        assert(cur.drop_first() =~= cur.remove(0));
        assert(all_cards(one2, two2, pile2) =~= all_cards(s.deck_one, s.deck_two, s.pile));
        match spec_penalty_value(card.rank) {
            Some(m) => {
                lemma_phase_preserves_cards(s.current, m, one2, two2, pile2);
            },
            None => {
            },
        }
    }
}

/// A whole run neither creates nor destroys cards.
pub proof fn lemma_run_preserves_cards(s: AbsState, n: nat)
    ensures
        ({
            let r = spec_run(s, n);
            all_cards(r.state.deck_one, r.state.deck_two, r.state.pile) == all_cards(
                s.deck_one,
                s.deck_two,
                s.pile,
            )
        }),
    decreases n,
{
    if n == 0 {
    } else {
        let t = spec_turn(s);
        lemma_turn_preserves_cards(s);
        if t.winner is Some {
        } else {
            lemma_run_preserves_cards(t.state, (n - 1) as nat);
        }
    }
}

/// No duplication: a game dealt from the full standard deck reaches only
/// states in which the cards across the two decks and the pile are, as a
/// multiset, exactly the 52 distinct standard cards — each present exactly
/// once, none lost, none duplicated.
pub proof fn lemma_no_duplication(one: Seq<Card>, two: Seq<Card>, n: nat)
    requires
        one.to_multiset().add(two.to_multiset()) == standard_deck().to_multiset(),
    ensures
        ({
            let r = spec_run(initial_state(one, two), n);
            let held = all_cards(r.state.deck_one, r.state.deck_two, r.state.pile);
            &&& held == standard_deck().to_multiset()
            &&& forall|c: Card| held.count(c) <= 1
        }),
{
    broadcast use vstd::multiset::group_multiset_axioms;
    broadcast use vstd::seq_lib::group_to_multiset_ensures;

    lemma_run_preserves_cards(initial_state(one, two), n);
    assert(Seq::<Card>::empty().to_multiset() =~= Multiset::<Card>::empty());
    assert(all_cards(one, two, Seq::<Card>::empty()) =~= standard_deck().to_multiset());
    lemma_standard_deck_distinct();
    standard_deck().lemma_multiset_has_no_duplicates();
    let r = spec_run(initial_state(one, two), n);
    let held = all_cards(r.state.deck_one, r.state.deck_two, r.state.pile);
    assert forall|c: Card| held.count(c) <= 1 by {
        if standard_deck().to_multiset().count(c) > 0 {
            assert(standard_deck().to_multiset().contains(c));
        }
    }
}

/// Conservation: a game dealt from the full standard deck reaches only
/// states in which the two decks and the pile hold 52 cards in total.
pub proof fn lemma_conservation(one: Seq<Card>, two: Seq<Card>, n: nat)
    requires
        one.to_multiset().add(two.to_multiset()) == standard_deck().to_multiset(),
    ensures
        ({
            let r = spec_run(initial_state(one, two), n);
            r.state.deck_one.len() + r.state.deck_two.len() + r.state.pile.len() == 52
        }),
{
    broadcast use vstd::multiset::group_multiset_axioms;
    broadcast use vstd::seq_lib::group_to_multiset_ensures;

    lemma_no_duplication(one, two, n);
    let r = spec_run(initial_state(one, two), n);
    assert(all_cards(r.state.deck_one, r.state.deck_two, r.state.pile).len() == standard_deck()
        .to_multiset().len());
}

/// Deck exhaustion during ordinary play: a player whose deck is empty when
/// they must play loses at once, with nothing else changing.
pub proof fn lemma_exhaustion_ordinary(s: AbsState)
    requires
        deck_of(s.deck_one, s.deck_two, s.current).len() == 0,
    ensures
        spec_turn(s) == (StepResult {
            winner: Some(spec_other(s.current)),
            state: s,
            events: Seq::<AbsEvent>::empty(),
        }),
{
}

/// Turn counting: an ordinary play of a non-penalty card passes the turn to
/// the opponent and advances the counter by one; a play that triggers a
/// penalty exchange — however long the exchange runs — leaves both the
/// player on turn and the counter unchanged.
pub proof fn lemma_turn_counting(s: AbsState)
    requires
        deck_of(s.deck_one, s.deck_two, s.current).len() > 0,
    ensures
        ({
            let card = deck_of(s.deck_one, s.deck_two, s.current)[0];
            let t = spec_turn(s);
            &&& spec_penalty_value(card.rank) is None ==> t.state.turns == bump_turns(s.turns)
                && t.state.current == spec_other(s.current)
            &&& spec_penalty_value(card.rank) is Some ==> t.state.turns == s.turns
                && t.state.current == s.current
        }),
{
}

/// A game that has finished stays finished: letting the turn iteration run
/// longer changes neither the winner, nor the state, nor the events.
pub proof fn lemma_finished_stable(s: AbsState, n: nat, m: nat)
    requires
        n <= m,
        spec_run(s, n).winner is Some,
    ensures
        spec_run(s, m) == spec_run(s, n),
    decreases n,
{
    if n == 0 {
    } else {
        let t = spec_turn(s);
        if t.winner is Some {
            assert(spec_run(s, m) == t);
        } else {
            lemma_finished_stable(t.state, (n - 1) as nat, (m - 1) as nat);
            assert(spec_run(s, m) =~= spec_run(s, n));
        }
    }
}

/// Determinism: the turn iteration is a function of the starting decks
/// alone, so any two runs that finish — whatever turn limits they were
/// given — finish with the same winner, the same final state and the same
/// event sequence.
pub proof fn lemma_run_deterministic(s: AbsState, n: nat, m: nat)
    requires
        spec_run(s, n).winner is Some,
        spec_run(s, m).winner is Some,
    ensures
        spec_run(s, n) == spec_run(s, m),
{
    if n <= m {
        lemma_finished_stable(s, n, m);
    } else {
        lemma_finished_stable(s, m, n);
    }
}

/// Plays a whole game from the two dealt decks, Player One first, recording
/// every event, for at most `limit` ordinary turns. Returns the winner
/// (`None` only if the game was still unfinished after `limit` turns) and
/// the number of completed ordinary turns. The outcome is exactly the one
/// the mathematical turn iteration `spec_run` determines — and by
/// `lemma_finished_stable`, once the game finishes within the limit, the
/// limit's value is irrelevant.
#[verifier::loop_isolation(false)]
pub fn run_game(
    deck_one: &mut VecDeque<Card>,
    deck_two: &mut VecDeque<Card>,
    limit: u64,
    events: &mut Vec<Event>,
) -> (r: (Option<Player>, u64))
    ensures
        ({
            let res = spec_run(initial_state(old(deck_one)@, old(deck_two)@), limit as nat);
            &&& r.0 == res.winner
            &&& r.1 == res.state.turns
            &&& final(deck_one)@ == res.state.deck_one
            &&& final(deck_two)@ == res.state.deck_two
            &&& abs_events(final(events)@) == abs_events(old(events)@) + seq![
                AbsEvent::GameStarted,
            ] + res.events + (if res.winner is Some {
                seq![
                    AbsEvent::GameOver { winner: res.winner.unwrap() },
                    AbsEvent::TurnCount { count: res.state.turns },
                ]
            } else {
                Seq::<AbsEvent>::empty()
            })
        }),
{
    let ghost init = initial_state(deck_one@, deck_two@);
    let mut current = Player::One;
    let mut turns: u64 = 0;
    let mut pile: Vec<Card> = Vec::new();
    let mut winner: Option<Player> = None;
    let mut remaining: u64 = limit;
    let ghost mut steps: nat = 0;

    events.push(Event::GameStarted);
    proof {
        lemma_abs_events_push(old(events)@, Event::GameStarted);
        assert(abs_events(old(events)@).push(AbsEvent::GameStarted) =~= abs_events(old(events)@)
            + seq![AbsEvent::GameStarted] + Seq::<AbsEvent>::empty());
    }

    let mut done = false;
    while !done && remaining > 0
        invariant
            steps + remaining == limit,
            !done ==> ({
                let rr = spec_run(init, steps);
                &&& winner is None
                &&& rr.winner is None
                &&& rr.state.deck_one == deck_one@
                &&& rr.state.deck_two == deck_two@
                &&& rr.state.pile == pile@
                &&& rr.state.current == current
                &&& rr.state.turns == turns
                &&& abs_events(events@) == abs_events(old(events)@) + seq![AbsEvent::GameStarted]
                    + rr.events
            }),
            done ==> ({
                let rr = spec_run(init, steps);
                &&& rr.winner is Some
                &&& rr.winner == winner
                &&& rr.state.deck_one == deck_one@
                &&& rr.state.deck_two == deck_two@
                &&& rr.state.turns == turns
                &&& abs_events(events@) == abs_events(old(events)@) + seq![AbsEvent::GameStarted]
                    + rr.events
            }),
        decreases remaining,
    {
        remaining = remaining - 1;
        let ghost rr = spec_run(init, steps);
        let ghost t = spec_turn(rr.state);
        proof {
            lemma_run_snoc(init, steps);
        }

        let cur_empty = match current {
            Player::One => deck_one.len() == 0,
            Player::Two => deck_two.len() == 0,
        };
        if cur_empty {
            winner = Some(current.other());
            done = true;
            proof {
                steps = steps + 1;
                assert(rr.events + t.events =~= rr.events);
            }
        } else {
            let ghost pre_one = deck_one@;
            let ghost pre_two = deck_two@;
            let ghost pre_events = events@;
            let card = match current {
                Player::One => deck_one.pop_front().unwrap(),
                Player::Two => deck_two.pop_front().unwrap(),
            };
            proof {
                assert(deck_of(pre_one, pre_two, current).drop_first() =~= deck_of(
                    deck_one@,
                    deck_two@,
                    current,
                ));
            }
            pile.push(card);
            events.push(Event::CardPlayed { player: current, card });
            proof {
                lemma_abs_events_push(pre_events, Event::CardPlayed { player: current, card });
            }

            match card.rank.penalty_value() {
                Some(m) => {
                    let ghost mid_events = events@;
                    let w = process_penalty_phase(
                        current,
                        m,
                        &mut pile,
                        deck_one,
                        deck_two,
                        events,
                    );
                    proof {
                        let ph = spec_phase(
                            current,
                            m,
                            if current is One {
                                rr.state.deck_one.drop_first()
                            } else {
                                rr.state.deck_one
                            },
                            if current is Two {
                                rr.state.deck_two.drop_first()
                            } else {
                                rr.state.deck_two
                            },
                            rr.state.pile.push(card),
                        );
                        assert(abs_events(events@) == abs_events(mid_events) + ph.events);
                        assert(t.events == seq![AbsEvent::CardPlayed { player: current, card }]
                            + ph.events);
                        assert(abs_events(events@) =~= abs_events(old(events)@) + seq![
                            AbsEvent::GameStarted,
                        ] + (rr.events + t.events));
                        steps = steps + 1;
                    }
                    if let Some(wn) = w {
                        winner = Some(wn);
                        done = true;
                    } else {
                        let one_empty = deck_one.len() == 0;
                        let two_empty = deck_two.len() == 0;
                        if one_empty || two_empty {
                            winner = Some(
                                if one_empty {
                                    Player::Two
                                } else {
                                    Player::One
                                },
                            );
                            done = true;
                        }
                    }
                },
                None => {
                    current = current.other();
                    turns = if turns < u64::MAX {
                        turns + 1
                    } else {
                        0
                    };
                    proof {
                        assert(abs_events(events@) =~= abs_events(old(events)@) + seq![
                            AbsEvent::GameStarted,
                        ] + (rr.events + t.events));
                        steps = steps + 1;
                    }
                    let one_empty = deck_one.len() == 0;
                    let two_empty = deck_two.len() == 0;
                    if one_empty || two_empty {
                        winner = Some(
                            if one_empty {
                                Player::Two
                            } else {
                                Player::One
                            },
                        );
                        done = true;
                    }
                },
            }
        }
    }

    proof {
        if done {
            lemma_finished_stable(init, steps, limit as nat);
        }
    }
    if let Some(w) = winner {
        let ghost evs0 = events@;
        events.push(Event::GameOver { winner: w });
        proof {
            lemma_abs_events_push(evs0, Event::GameOver { winner: w });
        }
        let ghost evs1 = events@;
        events.push(Event::TurnCount { count: turns });
        proof {
            lemma_abs_events_push(evs1, Event::TurnCount { count: turns });
            assert(abs_events(events@) =~= abs_events(old(events)@) + seq![
                AbsEvent::GameStarted,
            ] + spec_run(init, limit as nat).events + seq![
                AbsEvent::GameOver { winner: w },
                AbsEvent::TurnCount { count: turns },
            ]);
        }
    } else {
        proof {
            assert(abs_events(events@) =~= abs_events(old(events)@) + seq![
                AbsEvent::GameStarted,
            ] + spec_run(init, limit as nat).events + Seq::<AbsEvent>::empty());
        }
    }
    (winner, turns)
}

} // verus!

