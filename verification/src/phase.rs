//! The penalty-resolution engine.
//!
//! Once a penalty card is played, the opposing player must pay the demanded
//! number of cards onto the pile. A penalty card played during payment flips
//! the roles and restarts the obligation; a completed payment awards the
//! whole pile to the initiator; an empty deck at the moment a play is
//! required loses the game outright.

use std::collections::VecDeque;

use vstd::multiset::Multiset;
use vstd::prelude::*;

use crate::card::{spec_other, spec_penalty_value, Card, Player};
use crate::event::{abs_events, lemma_abs_events_push, AbsEvent, Event};

verus! {

/// The deck of `p` among the two players' decks.
pub open spec fn deck_of(one: Seq<Card>, two: Seq<Card>, p: Player) -> Seq<Card> {
    match p {
        Player::One => one,
        Player::Two => two,
    }
}

/// Everything a finished penalty phase determines: the loser's opponent if a
/// deck ran dry (`winner`), both decks and the pile afterwards, and the
/// events emitted along the way.
#[verifier::ext_equal]
pub ghost struct PhaseResult {
    pub winner: Option<Player>,
    pub deck_one: Seq<Card>,
    pub deck_two: Seq<Card>,
    pub pile: Seq<Card>,
    pub events: Seq<AbsEvent>,
}

/// One payment cycle and everything after it. `payer` owes `required - paid`
/// more cards; `initiator` collects the pile if the obligation completes
/// without further escalation.
pub open spec fn spec_phase_cycle(
    payer: Player,
    initiator: Player,
    required: nat,
    paid: nat,
    one: Seq<Card>,
    two: Seq<Card>,
    pile: Seq<Card>,
) -> PhaseResult
    decreases one.len() + two.len(),
{
    let pd = deck_of(one, two, payer);
    if pd.len() == 0 {
        PhaseResult {
            winner: Some(spec_other(payer)),
            deck_one: one,
            deck_two: two,
            pile,
            events: Seq::empty(),
        }
    } else {
        let card = pd[0];
        let one2 = if payer is One { one.drop_first() } else { one };
        let two2 = if payer is Two { two.drop_first() } else { two };
        let pile2 = pile.push(card);
        let played = seq![AbsEvent::CardPlayed { player: payer, card }];
        match spec_penalty_value(card.rank) {
            Some(m) => {
                let rest = spec_phase_cycle(
                    spec_other(payer),
                    payer,
                    m as nat,
                    0,
                    one2,
                    two2,
                    pile2,
                );
                PhaseResult {
                    winner: rest.winner,
                    deck_one: rest.deck_one,
                    deck_two: rest.deck_two,
                    pile: rest.pile,
                    events: played + seq![AbsEvent::PenaltyPhaseStarted { magnitude: m }]
                        + rest.events,
                }
            },
            None => {
                if paid + 1 < required {
                    let rest = spec_phase_cycle(
                        payer,
                        initiator,
                        required,
                        paid + 1,
                        one2,
                        two2,
                        pile2,
                    );
                    PhaseResult {
                        winner: rest.winner,
                        deck_one: rest.deck_one,
                        deck_two: rest.deck_two,
                        pile: rest.pile,
                        events: played + rest.events,
                    }
                } else {
                    let one3 = if initiator is One { one2 + pile2 } else { one2 };
                    let two3 = if initiator is Two { two2 + pile2 } else { two2 };
                    PhaseResult {
                        winner: None,
                        deck_one: one3,
                        deck_two: two3,
                        pile: Seq::empty(),
                        events: played + seq![
                            AbsEvent::PileCollected { player: initiator, cards: pile2 },
                        ],
                    }
                }
            },
        }
    }
}

/// A whole penalty phase: `initiator` has just played a card of magnitude
/// `magnitude` (already on the pile), and the opponent must start paying.
pub open spec fn spec_phase(
    initiator: Player,
    magnitude: u8,
    one: Seq<Card>,
    two: Seq<Card>,
    pile: Seq<Card>,
) -> PhaseResult {
    let r = spec_phase_cycle(
        spec_other(initiator),
        initiator,
        magnitude as nat,
        0,
        one,
        two,
        pile,
    );
    PhaseResult {
        winner: r.winner,
        deck_one: r.deck_one,
        deck_two: r.deck_two,
        pile: r.pile,
        events: seq![AbsEvent::PenaltyPhaseStarted { magnitude }] + r.events,
    }
}

/// The multiset of all cards in play: both decks and the shared pile.
pub open spec fn all_cards(one: Seq<Card>, two: Seq<Card>, pile: Seq<Card>) -> Multiset<Card> {
    one.to_multiset().add(two.to_multiset()).add(pile.to_multiset())
}

/// No card is created or destroyed by a payment cycle, however deep the
/// escalations chain: the cards across the two decks and the pile afterwards
/// are, as a multiset, exactly the ones before.
pub proof fn lemma_phase_cycle_preserves_cards(
    payer: Player,
    initiator: Player,
    required: nat,
    paid: nat,
    one: Seq<Card>,
    two: Seq<Card>,
    pile: Seq<Card>,
)
    ensures
        ({
            let r = spec_phase_cycle(payer, initiator, required, paid, one, two, pile);
            all_cards(r.deck_one, r.deck_two, r.pile) == all_cards(one, two, pile)
        }),
    decreases one.len() + two.len(),
{
    broadcast use vstd::multiset::group_multiset_axioms;
    broadcast use vstd::seq_lib::group_to_multiset_ensures;

    let pd = deck_of(one, two, payer);
    if pd.len() == 0 {
    } else {
        let card = pd[0];
        let one2 = if payer is One { one.drop_first() } else { one };
        let two2 = if payer is Two { two.drop_first() } else { two };
        let pile2 = pile.push(card);
        assert(pd.drop_first() =~= pd.remove(0));
        assert(all_cards(one2, two2, pile2) =~= all_cards(one, two, pile));
        match spec_penalty_value(card.rank) {
            Some(m) => {
                lemma_phase_cycle_preserves_cards(
                    spec_other(payer),
                    payer,
                    m as nat,
                    0,
                    one2,
                    two2,
                    pile2,
                );
            },
            None => {
                if paid + 1 < required {
                    lemma_phase_cycle_preserves_cards(
                        payer,
                        initiator,
                        required,
                        paid + 1,
                        one2,
                        two2,
                        pile2,
                    );
                } else {
                    let one3 = if initiator is One { one2 + pile2 } else { one2 };
                    let two3 = if initiator is Two { two2 + pile2 } else { two2 };
                    vstd::seq_lib::lemma_multiset_commutative(
                        deck_of(one2, two2, initiator),
                        pile2,
                    );
                    assert(all_cards(one3, two3, Seq::<Card>::empty()) =~= all_cards(
                        one2,
                        two2,
                        pile2,
                    ));
                }
            },
        }
    }
}

/// A whole penalty phase neither creates nor destroys cards.
pub proof fn lemma_phase_preserves_cards(
    initiator: Player,
    magnitude: u8,
    one: Seq<Card>,
    two: Seq<Card>,
    pile: Seq<Card>,
)
    ensures
        ({
            let r = spec_phase(initiator, magnitude, one, two, pile);
            all_cards(r.deck_one, r.deck_two, r.pile) == all_cards(one, two, pile)
        }),
{
    lemma_phase_cycle_preserves_cards(
        spec_other(initiator),
        initiator,
        magnitude as nat,
        0,
        one,
        two,
        pile,
    );
}

/// Collector correctness: in a payment run with no escalation — the payer's
/// next `required - paid` cards carry no penalty and their deck holds that
/// many — the payer's deck loses exactly those cards, and the initiator's
/// deck gains the entire pile followed by those payment cards, in play
/// order; the pile is empty afterwards and nobody has lost.
pub proof fn lemma_collect_without_escalation(
    payer: Player,
    initiator: Player,
    required: nat,
    paid: nat,
    one: Seq<Card>,
    two: Seq<Card>,
    pile: Seq<Card>,
)
    requires
        payer == spec_other(initiator),
        paid < required,
        required - paid <= deck_of(one, two, payer).len(),
        forall|k: int|
            0 <= k < required - paid ==> spec_penalty_value(
                #[trigger] deck_of(one, two, payer)[k].rank,
            ) is None,
    ensures
        ({
            let r = spec_phase_cycle(payer, initiator, required, paid, one, two, pile);
            let m = (required - paid) as int;
            let pd = deck_of(one, two, payer);
            &&& r.winner is None
            &&& r.pile == Seq::<Card>::empty()
            &&& deck_of(r.deck_one, r.deck_two, payer) == pd.skip(m)
            &&& deck_of(r.deck_one, r.deck_two, initiator) == deck_of(one, two, initiator) + pile
                + pd.take(m)
        }),
    decreases required - paid,
{
    let pd = deck_of(one, two, payer);
    let card = pd[0];
    let one2 = if payer is One { one.drop_first() } else { one };
    let two2 = if payer is Two { two.drop_first() } else { two };
    let pile2 = pile.push(card);
    let m = (required - paid) as int;
    if paid + 1 < required {
        lemma_collect_without_escalation(payer, initiator, required, paid + 1, one2, two2, pile2);
        let pd2 = deck_of(one2, two2, payer);
        assert(pd2 =~= pd.drop_first());
        assert(pd2.skip(m - 1) =~= pd.skip(m));
        assert(pile.push(card) + pd2.take(m - 1) =~= pile + pd.take(m));
    } else {
        let one3 = if initiator is One { one2 + pile2 } else { one2 };
        let two3 = if initiator is Two { two2 + pile2 } else { two2 };
        assert(deck_of(one2, two2, payer) =~= pd.skip(m));
        assert(deck_of(one2, two2, initiator) + pile.push(card) =~= deck_of(one, two, initiator)
            + pile + pd.take(m));
    }
}

/// Collector correctness for a whole phase: when the payer's first
/// `magnitude` cards carry no penalty and their deck holds that many, the
/// phase ends with the initiator's deck extended by the entire pile — the
/// triggering card included — followed by the payment cards, in play order,
/// and the pile empty.
pub proof fn lemma_phase_collect_without_escalation(
    initiator: Player,
    magnitude: u8,
    one: Seq<Card>,
    two: Seq<Card>,
    pile: Seq<Card>,
)
    requires
        1 <= magnitude,
        magnitude <= deck_of(one, two, spec_other(initiator)).len(),
        forall|k: int|
            0 <= k < magnitude ==> spec_penalty_value(
                #[trigger] deck_of(one, two, spec_other(initiator))[k].rank,
            ) is None,
    ensures
        ({
            let r = spec_phase(initiator, magnitude, one, two, pile);
            let payer = spec_other(initiator);
            let pd = deck_of(one, two, payer);
            &&& r.winner is None
            &&& r.pile == Seq::<Card>::empty()
            &&& deck_of(r.deck_one, r.deck_two, payer) == pd.skip(magnitude as int)
            &&& deck_of(r.deck_one, r.deck_two, initiator) == deck_of(one, two, initiator) + pile
                + pd.take(magnitude as int)
        }),
{
    lemma_collect_without_escalation(
        spec_other(initiator),
        initiator,
        magnitude as nat,
        0,
        one,
        two,
        pile,
    );
}

/// Escalation chaining: when the payer's next payment card itself carries a
/// penalty of magnitude `m1`, the roles flip — the payer becomes the
/// initiator owed the pile — and the obligation restarts at `m1` with
/// nothing yet paid.
pub proof fn lemma_escalation_flips_roles(
    payer: Player,
    initiator: Player,
    required: nat,
    paid: nat,
    one: Seq<Card>,
    two: Seq<Card>,
    pile: Seq<Card>,
)
    requires
        deck_of(one, two, payer).len() > 0,
        spec_penalty_value(deck_of(one, two, payer)[0].rank) is Some,
    ensures
        ({
            let pd = deck_of(one, two, payer);
            let card = pd[0];
            let m1 = spec_penalty_value(card.rank).unwrap();
            let one2 = if payer is One { one.drop_first() } else { one };
            let two2 = if payer is Two { two.drop_first() } else { two };
            let r = spec_phase_cycle(payer, initiator, required, paid, one, two, pile);
            let rest = spec_phase_cycle(
                spec_other(payer),
                payer,
                m1 as nat,
                0,
                one2,
                two2,
                pile.push(card),
            );
            &&& r.winner == rest.winner
            &&& r.deck_one == rest.deck_one
            &&& r.deck_two == rest.deck_two
            &&& r.pile == rest.pile
            &&& r.events == seq![
                AbsEvent::CardPlayed { player: payer, card },
                AbsEvent::PenaltyPhaseStarted { magnitude: m1 },
            ] + rest.events
        }),
{
    let pd = deck_of(one, two, payer);
    let card = pd[0];
    let m1 = spec_penalty_value(card.rank).unwrap();
    let one2 = if payer is One { one.drop_first() } else { one };
    let two2 = if payer is Two { two.drop_first() } else { two };
    let rest = spec_phase_cycle(
        spec_other(payer),
        payer,
        m1 as nat,
        0,
        one2,
        two2,
        pile.push(card),
    );
    assert(seq![AbsEvent::CardPlayed { player: payer, card }] + seq![
        AbsEvent::PenaltyPhaseStarted { magnitude: m1 },
    ] + rest.events =~= seq![
        AbsEvent::CardPlayed { player: payer, card },
        AbsEvent::PenaltyPhaseStarted { magnitude: m1 },
    ] + rest.events);
}

/// Deck exhaustion during payment: a payer who cannot escalate and whose
/// deck holds fewer cards than the obligation demands loses the game — the
/// winner is the opponent, whatever the pile holds.
pub proof fn lemma_exhaustion_during_payment(
    payer: Player,
    initiator: Player,
    required: nat,
    paid: nat,
    one: Seq<Card>,
    two: Seq<Card>,
    pile: Seq<Card>,
)
    requires
        paid < required,
        deck_of(one, two, payer).len() < required - paid,
        forall|k: int|
            0 <= k < deck_of(one, two, payer).len() ==> spec_penalty_value(
                #[trigger] deck_of(one, two, payer)[k].rank,
            ) is None,
    ensures
        spec_phase_cycle(payer, initiator, required, paid, one, two, pile).winner == Some(
            spec_other(payer),
        ),
    decreases deck_of(one, two, payer).len(),
{
    let pd = deck_of(one, two, payer);
    if pd.len() == 0 {
    } else {
        let card = pd[0];
        let one2 = if payer is One { one.drop_first() } else { one };
        let two2 = if payer is Two { two.drop_first() } else { two };
        assert(deck_of(one2, two2, payer) =~= pd.drop_first());
        lemma_exhaustion_during_payment(
            payer,
            initiator,
            required,
            paid + 1,
            one2,
            two2,
            pile.push(card),
        );
    }
}

/// Copies a card list, for recording a collected pile in an event.
fn copy_cards(v: &Vec<Card>) -> (r: Vec<Card>)
    ensures
        r@ == v@,
{
    let mut r: Vec<Card> = Vec::new();
    let mut i: usize = 0;
    while i < v.len()
        invariant
            i <= v.len(),
            r@ == v@.take(i as int),
        decreases v.len() - i,
    {
        r.push(v[i]);
        i = i + 1;
        proof {
            assert(r@ =~= v@.take(i as int));
        }
    }
    proof {
        assert(v@.take(v@.len() as int) =~= v@);
    }
    r
}

/// Moves the whole pile, in order, onto the back of `deck`, leaving the pile
/// empty.
fn drain_pile_into(pile: &mut Vec<Card>, deck: &mut VecDeque<Card>)
    ensures
        final(deck)@ == old(deck)@ + old(pile)@,
        final(pile)@ == Seq::<Card>::empty(),
{
    let mut i: usize = 0;
    while i < pile.len()
        invariant
            i <= pile.len(),
            pile@ == old(pile)@,
            deck@ == old(deck)@ + pile@.take(i as int),
        decreases pile.len() - i,
    {
        deck.push_back(pile[i]);
        i = i + 1;
        proof {
            assert(old(deck)@ + pile@.take(i - 1) + seq![pile@[i - 1]] =~= old(deck)@
                + pile@.take(i as int));
        }
    }
    proof {
        assert(pile@.take(pile@.len() as int) =~= pile@);
    }
    pile.clear();
}

/// Resolves one penalty phase begun by `initiator` playing a card of
/// magnitude `magnitude` (that card is already on the pile). Returns the
/// winner of the whole game if a deck ran dry mid-payment, `None` if the
/// pile was collected and play resumes. The decks, the pile and the emitted
/// events are exactly those of the mathematical phase.
#[verifier::loop_isolation(false)]
pub fn process_penalty_phase(
    initiator: Player,
    magnitude: u8,
    pile: &mut Vec<Card>,
    deck_one: &mut VecDeque<Card>,
    deck_two: &mut VecDeque<Card>,
    events: &mut Vec<Event>,
) -> (winner: Option<Player>)
    requires
        1 <= magnitude <= 4,
    ensures
        ({
            let t = spec_phase(initiator, magnitude, old(deck_one)@, old(deck_two)@, old(pile)@);
            &&& winner == t.winner
            &&& final(deck_one)@ == t.deck_one
            &&& final(deck_two)@ == t.deck_two
            &&& final(pile)@ == t.pile
            &&& abs_events(final(events)@) == abs_events(old(events)@) + t.events
        }),
{
    let ghost target = spec_phase(initiator, magnitude, deck_one@, deck_two@, pile@);
    let mut payer = initiator.other();
    let mut collector = initiator;
    let mut required: u8 = magnitude;
    let mut paid: u8 = 0;

    events.push(Event::PenaltyPhaseStarted { magnitude });
    proof {
        lemma_abs_events_push(old(events)@, Event::PenaltyPhaseStarted { magnitude });
        assert(abs_events(old(events)@).push(AbsEvent::PenaltyPhaseStarted { magnitude })
            + spec_phase_cycle(
            spec_other(initiator),
            initiator,
            magnitude as nat,
            0,
            deck_one@,
            deck_two@,
            pile@,
        ).events =~= abs_events(old(events)@) + target.events);
    }

    loop
        invariant
            1 <= required <= 4,
            paid < required,
            ({
                let c = spec_phase_cycle(
                    payer,
                    collector,
                    required as nat,
                    paid as nat,
                    deck_one@,
                    deck_two@,
                    pile@,
                );
                &&& c.winner == target.winner
                &&& c.deck_one == target.deck_one
                &&& c.deck_two == target.deck_two
                &&& c.pile == target.pile
                &&& abs_events(events@) + c.events == abs_events(old(events)@) + target.events
            }),
        decreases deck_one@.len() + deck_two@.len(),
    {
        let ghost pre_one = deck_one@;
        let ghost pre_two = deck_two@;
        let ghost pre_pile = pile@;
        let ghost pre_events = events@;
        let ghost c = spec_phase_cycle(
            payer,
            collector,
            required as nat,
            paid as nat,
            deck_one@,
            deck_two@,
            pile@,
        );

        let payer_deck_empty = match payer {
            Player::One => deck_one.len() == 0,
            Player::Two => deck_two.len() == 0,
        };
        if payer_deck_empty {
            return Some(payer.other());
        }

        let card = match payer {
            Player::One => deck_one.pop_front().unwrap(),
            Player::Two => deck_two.pop_front().unwrap(),
        };
        proof {
            assert(deck_of(pre_one, pre_two, payer).drop_first() =~= deck_of(
                deck_one@,
                deck_two@,
                payer,
            ));
        }
        pile.push(card);
        events.push(Event::CardPlayed { player: payer, card });
        proof {
            lemma_abs_events_push(pre_events, Event::CardPlayed { player: payer, card });
        }

        match card.rank.penalty_value() {
            Some(m) => {
                events.push(Event::PenaltyPhaseStarted { magnitude: m });
                proof {
                    lemma_abs_events_push(
                        pre_events.push(Event::CardPlayed { player: payer, card }),
                        Event::PenaltyPhaseStarted { magnitude: m },
                    );
                    let rest = spec_phase_cycle(
                        spec_other(payer),
                        payer,
                        m as nat,
                        0,
                        deck_one@,
                        deck_two@,
                        pile@,
                    );
                    assert(abs_events(events@) + rest.events =~= abs_events(pre_events)
                        + c.events);
                }
                collector = payer;
                required = m;
                payer = payer.other();
                paid = 0;
            },
            None => {
                paid = paid + 1;
                if paid < required {
                    proof {
                        let rest = spec_phase_cycle(
                            payer,
                            collector,
                            required as nat,
                            paid as nat,
                            deck_one@,
                            deck_two@,
                            pile@,
                        );
                        assert(abs_events(events@) + rest.events =~= abs_events(pre_events)
                            + c.events);
                    }
                } else {
                    let collected = copy_cards(pile);
                    events.push(Event::PileCollected { player: collector, cards: collected });
                    proof {
                        lemma_abs_events_push(
                            pre_events.push(Event::CardPlayed { player: payer, card }),
                            Event::PileCollected { player: collector, cards: collected },
                        );
                        assert(abs_events(events@) =~= abs_events(pre_events) + c.events);
                    }
                    match collector {
                        Player::One => drain_pile_into(pile, deck_one),
                        Player::Two => drain_pile_into(pile, deck_two),
                    }
                    return None;
                }
            },
        }
    }
}

} // verus!

