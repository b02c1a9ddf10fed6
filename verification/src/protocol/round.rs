//! Round / phase types for the 4-phase round.

use vstd::prelude::*;

verus! {

/// The phases of a round, in the order in which they come.
#[derive(Copy, Clone, Debug, PartialEq, Eq, PartialOrd, Ord, Structural)]
pub enum RoundContext {
    Client,
    Aggregator,
    ServerPartial,
    ServerLeader,
}

impl RoundContext {
    /// The number of the phase within its round.
    pub open spec fn phase(self) -> int {
        match self {
            RoundContext::Client => 0,
            RoundContext::Aggregator => 1,
            RoundContext::ServerPartial => 2,
            RoundContext::ServerLeader => 3,
        }
    }

    /// The number of the phase within its round.
    pub fn index(self) -> (r: u8)
        ensures
            r == self.phase(),
    {
        match self {
            RoundContext::Client => 0,
            RoundContext::Aggregator => 1,
            RoundContext::ServerPartial => 2,
            RoundContext::ServerLeader => 3,
        }
    }

    /// The phase that follows, and whether it belongs to the next round.
    pub fn next(self) -> (r: (RoundContext, bool))
        ensures
            r.0.phase() == (self.phase() + 1) % 4,
            r.1 == (self is ServerLeader),
    {
        match self {
            RoundContext::Client => (RoundContext::Aggregator, false),
            RoundContext::Aggregator => (RoundContext::ServerPartial, false),
            RoundContext::ServerPartial => (RoundContext::ServerLeader, false),
            RoundContext::ServerLeader => (RoundContext::Client, true),
        }
    }
}

#[derive(Copy, Clone, Debug, PartialEq, Eq, Structural)]
pub struct Round {
    pub number: i64,
    pub context: RoundContext,
}

impl Round {
    /// The number of phases from the first phase of round 0 to this one.
    pub open spec fn position(self) -> int {
        4 * self.number + self.context.phase()
    }

    pub fn new(number: i64, context: RoundContext) -> (r: Self)
        ensures
            r == (Round { number, context }),
    {
        Round { number, context }
    }

    pub fn is_after(self, other: Round) -> (r: bool)
        ensures
            r == (self.position() > other.position()),
    {
        self.number > other.number || (self.number == other.number && self.context.index()
            > other.context.index())
    }

    /// The next phase.
    pub fn advance(self) -> (r: Round)
        requires
            self.context is ServerLeader ==> self.number < i64::MAX,
        ensures
            r.position() == self.position() + 1,
    {
        let (next_ctx, wrapped) = self.context.next();
        Round {
            number: if wrapped {
                self.number + 1
            } else {
                self.number
            },
            context: next_ctx,
        }
    }
}

/// A position belongs to one phase only, so that phases are ordered by their
/// round first and their context second.
pub proof fn law_positions_are_unique(a: Round, b: Round)
    requires
        a.position() == b.position(),
    ensures
        a == b,
{
}

/// A later round comes after an earlier one in whatever phase.
pub proof fn law_rounds_come_first(a: Round, b: Round)
    requires
        a.number < b.number,
    ensures
        a.position() < b.position(),
{
}

/// Four phases make a round.
pub proof fn law_four_phases_make_a_round(a: Round, b: Round)
    requires
        b.position() == a.position() + 4,
    ensures
        b.number == a.number + 1,
        b.context == a.context,
{
}

/// The phases of a round come in the order client, aggregator, partial
/// decryption, leader.
pub proof fn law_order_of_phases(r: Round)
    ensures
        RoundContext::Client.phase() == 0,
        RoundContext::Aggregator.phase() == 1,
        RoundContext::ServerPartial.phase() == 2,
        RoundContext::ServerLeader.phase() == 3,
        r.position() == 4 * r.number + r.context.phase(),
{
}

} // verus!
