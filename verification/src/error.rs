//! The failures that the engine reports.

use vstd::prelude::*;

verus! {

/// Why an operation of the engine did not produce its result.
#[derive(Clone, Copy, Debug, PartialEq, Eq, Structural)]
pub enum MatchError {
    /// No problem of the wanted rating is left for a participant.
    NoCandidates,
    /// The participants share no candidate problem.
    NoCommonProblem,
    /// The judge did not answer, or answered with something unreadable.
    JudgeUnavailable,
    /// The participant has no accepted submission for the problem.
    NotCompleted,
    /// Fewer than two participants are free to play.
    InsufficientRoster,
    /// Nobody accepted the invitation.
    Cancelled,
    /// The registry does not hold what the operation relies on.
    InvariantViolation,
    /// A drawn position lies outside the list it was drawn for.
    DrawOutOfRange,
    /// The participant has not registered a handle.
    NotRegistered,
    /// The lower end of a rating range lies above its upper end.
    InvalidRange,
    /// More problems were asked for than are given at once.
    TooMany,
    /// The participant has a challenge that is not completed.
    ActiveChallenge,
    /// The participant has no challenge.
    NoChallenge,
    /// The challenge is too young to be skipped.
    TooEarly,
    /// An option of a command is none that it knows.
    WrongOption,
    /// The latest submission is no compilation error.
    NoCompilationError,
    /// The latest submission is for another problem.
    WrongProblem,
    /// The participant took part in no contest.
    NoContests,
    /// Nobody that is registered was invited.
    NoOpponents,
    /// The initiator invited itself.
    SelfInvite,
    /// An argument is neither a mention nor an option.
    NotAUser,
    /// The account is registered already.
    AccountTaken,
    /// The handle is registered already.
    HandleTaken,
}
} // verus!
