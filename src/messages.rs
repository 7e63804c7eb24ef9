//! Votes and the messages exchanged between clients and repositories.

use vstd::prelude::*;

use crate::operations::Arguments;

verus! {

/// A repository's vote on a transaction, or its answer to a protocol message.
#[derive(Clone, Copy, Debug, PartialEq, Eq, Structural)]
pub enum CommitVote {
    Commit(Option<usize>),
    Abort,
    Conflict,
    InProgress,
}

/// The first round of the protocol, addressed to one repository. `P` is how
/// peers are addressed.
#[derive(Debug)]
pub enum MessagePrepare<P> {
    /// A transaction on this repository alone.
    Single(u128, Arguments),
    /// An independent transaction with the given number of participants.
    Indep(u128, Arguments, usize),
    /// Asks the repository to send its vote on an independent transaction to every participant.
    IndepParticipants(u128, CommitVote, Vec<P>),
    /// A coordinated transaction with the given number of participants.
    Coord(u128, Arguments, usize),
    /// Asks the repository to send its vote on a coordinated transaction to every participant.
    CoordParticipants(u128, CommitVote, Vec<P>),
}

/// The second round: a peer's timestamp and vote on a transaction.
#[derive(Clone, Copy, Debug, PartialEq, Eq, Structural)]
pub enum MessageAccept {
    Indep(u128, usize, CommitVote),
    Coord(u128, usize, CommitVote),
}

/// Asks for the outcome of a transaction.
#[derive(Clone, Copy, Debug, PartialEq, Eq, Structural)]
pub struct GetResult(pub u128);

/// Asks for the current or final timestamp of a transaction.
#[derive(Clone, Copy, Debug, PartialEq, Eq, Structural)]
pub struct GetProposedTs(pub u128);

} // verus!
