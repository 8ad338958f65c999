//! Cards, ranks, suits, players, and the penalty rule.

use vstd::prelude::*;

verus! {

/// One of the 13 card ranks. Only identity matters to the rules: the
/// conventional rank order is never consulted.
#[derive(Debug, Clone, Copy, PartialEq, Eq, Structural)]
pub enum Rank {
    Two,
    Three,
    Four,
    Five,
    Six,
    Seven,
    Eight,
    Nine,
    Ten,
    Jack,
    Queen,
    King,
    Ace,
}

/// One of the 4 suits; display-only, it carries no game-rule meaning.
#[derive(Debug, Clone, Copy, PartialEq, Eq, Structural)]
pub enum Suit {
    Spade,
    Heart,
    Club,
    Diamond,
}

/// An immutable (rank, suit) pair; all 52 combinations are distinct.
#[derive(Debug, Clone, Copy, PartialEq, Eq, Structural)]
pub struct Card {
    pub rank: Rank,
    pub suit: Suit,
}

/// One of the two player identities.
#[derive(Debug, Clone, Copy, PartialEq, Eq, Structural)]
pub enum Player {
    One,
    Two,
}

/// The penalty magnitude a rank demands: Jack 1, Queen 2, King 3, Ace 4,
/// nothing for the numeric ranks.
pub open spec fn spec_penalty_value(r: Rank) -> Option<u8> {
    match r {
        Rank::Jack => Some(1u8),
        Rank::Queen => Some(2u8),
        Rank::King => Some(3u8),
        Rank::Ace => Some(4u8),
        _ => None,
    }
}

/// The player opposing `p`.
pub open spec fn spec_other(p: Player) -> Player {
    match p {
        Player::One => Player::Two,
        Player::Two => Player::One,
    }
}

impl Rank {
    /// The number of cards this rank, once played, obliges the opponent to
    /// pay, if any.
    pub fn penalty_value(&self) -> (r: Option<u8>)
        ensures
            r == spec_penalty_value(*self),
    {
        match self {
            Rank::Jack => Some(1),
            Rank::Queen => Some(2),
            Rank::King => Some(3),
            Rank::Ace => Some(4),
            _ => None,
        }
    }
}

impl Player {
    /// The opposing player.
    pub fn other(&self) -> (r: Self)
        ensures
            r == spec_other(*self),
    {
        match self {
            Player::One => Player::Two,
            Player::Two => Player::One,
        }
    }

    /// The conventional 1-based number of this player.
    pub fn number(&self) -> (r: usize)
        ensures
            self is One ==> r == 1,
            self is Two ==> r == 2,
    {
        match self {
            Player::One => 1,
            Player::Two => 2,
        }
    }
}

/// Opposition is an involution: taking the other player twice is the
/// identity.
pub proof fn lemma_other_involution(p: Player)
    ensures
        spec_other(spec_other(p)) == p,
{
}

} // verus!
