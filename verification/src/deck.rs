//! The standard deck: construction, seeded shuffling, and the deal.

use std::collections::VecDeque;

use vstd::prelude::*;

use rand::seq::SliceRandom;
use rand::SeedableRng;

use crate::card::{Card, Rank, Suit};
use crate::event::{abs_events, lemma_abs_events_push, AbsEvent, Event};

verus! {

/// The rank at position `i` of one suit's run, lowest first.
pub open spec fn rank_at(i: int) -> Rank {
    if i == 0 {
        Rank::Two
    } else if i == 1 {
        Rank::Three
    } else if i == 2 {
        Rank::Four
    } else if i == 3 {
        Rank::Five
    } else if i == 4 {
        Rank::Six
    } else if i == 5 {
        Rank::Seven
    } else if i == 6 {
        Rank::Eight
    } else if i == 7 {
        Rank::Nine
    } else if i == 8 {
        Rank::Ten
    } else if i == 9 {
        Rank::Jack
    } else if i == 10 {
        Rank::Queen
    } else if i == 11 {
        Rank::King
    } else {
        Rank::Ace
    }
}

/// The suit of the `i`-th run of thirteen cards.
pub open spec fn suit_at(i: int) -> Suit {
    if i == 0 {
        Suit::Spade
    } else if i == 1 {
        Suit::Heart
    } else if i == 2 {
        Suit::Club
    } else {
        Suit::Diamond
    }
}

/// The card at position `i` of the standard order: suit-major, rank-minor.
pub open spec fn standard_card(i: int) -> Card {
    Card { rank: rank_at(i % 13), suit: suit_at(i / 13) }
}

/// The standard 52-card deck in construction order: all rank-and-suit
/// combinations, each exactly once.
pub open spec fn standard_deck() -> Seq<Card> {
    Seq::new(52, |i: int| standard_card(i))
}

/// No card appears twice in the standard deck.
pub proof fn lemma_standard_deck_distinct()
    ensures
        standard_deck().no_duplicates(),
{
    assert forall|i: int, j: int| 0 <= i < 52 && 0 <= j < 52 && i != j implies standard_deck()[i]
        != standard_deck()[j] by {
        vstd::arithmetic::div_mod::lemma_fundamental_div_mod(i, 13);
        vstd::arithmetic::div_mod::lemma_fundamental_div_mod(j, 13);
        assert(0 <= i % 13 < 13 && 0 <= i / 13 < 4);
        assert(0 <= j % 13 < 13 && 0 <= j / 13 < 4);
    }
}

fn rank_of_index(i: usize) -> (r: Rank)
    requires
        i < 13,
    ensures
        r == rank_at(i as int),
{
    if i == 0 {
        Rank::Two
    } else if i == 1 {
        Rank::Three
    } else if i == 2 {
        Rank::Four
    } else if i == 3 {
        Rank::Five
    } else if i == 4 {
        Rank::Six
    } else if i == 5 {
        Rank::Seven
    } else if i == 6 {
        Rank::Eight
    } else if i == 7 {
        Rank::Nine
    } else if i == 8 {
        Rank::Ten
    } else if i == 9 {
        Rank::Jack
    } else if i == 10 {
        Rank::Queen
    } else if i == 11 {
        Rank::King
    } else {
        Rank::Ace
    }
}

fn suit_of_index(i: usize) -> (s: Suit)
    requires
        i < 4,
    ensures
        s == suit_at(i as int),
{
    if i == 0 {
        Suit::Spade
    } else if i == 1 {
        Suit::Heart
    } else if i == 2 {
        Suit::Club
    } else {
        Suit::Diamond
    }
}

/// Builds the standard 52-card deck in its construction order.
#[verifier::loop_isolation(false)]
pub fn create_deck() -> (deck: Vec<Card>)
    ensures
        deck@ == standard_deck(),
{
    let mut deck: Vec<Card> = Vec::new();
    let mut s: usize = 0;
    while s < 4
        invariant
            s <= 4,
            deck@ == standard_deck().take(13 * s as int),
        decreases 4 - s,
    {
        let suit = suit_of_index(s);
        let mut r: usize = 0;
        while r < 13
            invariant
                r <= 13,
                s < 4,
                suit == suit_at(s as int),
                deck@ == standard_deck().take(13 * s as int + r as int),
            decreases 13 - r,
        {
            let rank = rank_of_index(r);
            deck.push(Card { rank, suit });
            r = r + 1;
            proof {
                let i = 13 * s as int + r - 1;
                vstd::arithmetic::div_mod::lemma_fundamental_div_mod_converse(
                    i,
                    13,
                    s as int,
                    r - 1,
                );
                assert(standard_deck()[i] == Card { rank, suit });
                assert(deck@ =~= standard_deck().take(13 * s as int + r as int));
            }
        }
        s = s + 1;
    }
    proof {
        assert(standard_deck().take(52) =~= standard_deck());
    }
    deck
}

/// The arrangement the seeded shuffle collaborator produces from these
/// cards: a function of the cards and the seed alone.
pub uninterp spec fn shuffled_of(cards: Seq<Card>, seed: u64) -> Seq<Card>;

/// Relies on rand: `SliceRandom::shuffle` permutes the slice in place, and
/// with a `StdRng` seeded by `seed_from_u64` it draws only on the seeded
/// generator, so the arrangement depends on the cards and the seed alone.
#[verifier::external_body]
fn shuffle_seeded(cards: &mut Vec<Card>, seed: u64)
    ensures
        final(cards)@ == shuffled_of(old(cards)@, seed),
        final(cards)@.len() == old(cards)@.len(),
        final(cards)@.to_multiset() == old(cards)@.to_multiset(),
{
    let mut rng = rand::rngs::StdRng::seed_from_u64(seed);
    cards.shuffle(&mut rng);
}

/// Copies a card list, for recording it in an event.
fn copy_cards(v: &Vec<Card>) -> (r: Vec<Card>)
    ensures
        r@ == v@,
{
    let mut r: Vec<Card> = Vec::new();
    let mut i: usize = 0;
    while i < v.len()
        invariant
            i <= v.len(),
            r@ == v@.take(i as int),
        decreases v.len() - i,
    {
        r.push(v[i]);
        i = i + 1;
        proof {
            assert(r@ =~= v@.take(i as int));
        }
    }
    proof {
        assert(v@.take(v@.len() as int) =~= v@);
    }
    r
}

/// Copies a queue's cards, front first, for recording them in an event.
fn deque_to_vec(v: &VecDeque<Card>) -> (r: Vec<Card>)
    ensures
        r@ == v@,
{
    let mut r: Vec<Card> = Vec::new();
    let mut i: usize = 0;
    while i < v.len()
        invariant
            i <= v@.len(),
            r@ == v@.take(i as int),
        decreases v@.len() - i,
    {
        r.push(v[i]);
        i = i + 1;
        proof {
            assert(r@ =~= v@.take(i as int));
        }
    }
    proof {
        assert(v@.take(v@.len() as int) =~= v@);
    }
    r
}

/// Splits an arranged sequence at its midpoint (the smaller half first when
/// the count is odd): the first part, in order, becomes Player One's queue,
/// the rest Player Two's.
#[verifier::loop_isolation(false)]
pub fn split_deck(cards: Vec<Card>) -> (r: (VecDeque<Card>, VecDeque<Card>))
    ensures
        r.0@ == cards@.take((cards@.len() / 2) as int),
        r.1@ == cards@.skip((cards@.len() / 2) as int),
{
    let mid = cards.len() / 2;
    let mut one: VecDeque<Card> = VecDeque::new();
    let mut two: VecDeque<Card> = VecDeque::new();
    let mut i: usize = 0;
    while i < mid
        invariant
            i <= mid,
            one@ == cards@.take(i as int),
        decreases mid - i,
    {
        one.push_back(cards[i]);
        i = i + 1;
        proof {
            assert(one@ =~= cards@.take(i as int));
        }
    }
    while i < cards.len()
        invariant
            mid <= i <= cards@.len(),
            one@ == cards@.take(mid as int),
            two@ == cards@.subrange(mid as int, i as int),
        decreases cards@.len() - i,
    {
        two.push_back(cards[i]);
        i = i + 1;
        proof {
            assert(two@ =~= cards@.subrange(mid as int, i as int));
        }
    }
    proof {
        assert(two@ =~= cards@.skip(mid as int));
    }
    (one, two)
}

/// Builds the standard deck, has the seeded collaborator shuffle it, splits
/// it into the two starting queues of 26, and records them. The shuffled
/// arrangement holds exactly the 52 standard cards.
pub fn deal(seed: u64, events: &mut Vec<Event>) -> (r: (VecDeque<Card>, VecDeque<Card>))
    ensures
        ({
            let full = shuffled_of(standard_deck(), seed);
            &&& r.0@ == full.take(26)
            &&& r.1@ == full.skip(26)
            &&& r.0@ + r.1@ == full
            &&& full.to_multiset() == standard_deck().to_multiset()
            &&& abs_events(final(events)@) == abs_events(old(events)@).push(
                AbsEvent::InitialDecks { full, player_one: full.take(26), player_two: full.skip(26) },
            )
        }),
{
    let mut cards = create_deck();
    shuffle_seeded(&mut cards, seed);
    let full_record = copy_cards(&cards);
    let (one, two) = split_deck(cards);
    let ghost full = shuffled_of(standard_deck(), seed);
    let one_record = deque_to_vec(&one);
    let two_record = deque_to_vec(&two);
    let ghost pre_events = events@;
    events.push(Event::InitialDecks {
        full: full_record,
        player_one: one_record,
        player_two: two_record,
    });
    proof {
        lemma_abs_events_push(pre_events, Event::InitialDecks {
            full: full_record,
            player_one: one_record,
            player_two: two_record,
        });
        assert(full.take(26) + full.skip(26) =~= full);
    }
    (one, two)
}

} // verus!
