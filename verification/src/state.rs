//! The life cycle of a match: its states, the control words of the chat,
//! and what the observer of a match is asked to do.

use crate::registry::{Data, Duel, DuelType, DuelView};
use crate::text::str_eq;
use vstd::prelude::*;

verus! {

/// Where a match stands in its life.
#[derive(Clone, Copy, Debug, PartialEq, Eq, Structural)]
pub enum MatchState {
    /// Problems are being chosen; the registry does not hold the match yet.
    Assigning,
    /// The match is played and its chat is observed.
    Active,
    /// The participant with this id has won.
    Won(u64),
    /// Nobody has won.
    Drawn,
    /// Every player has left.
    Abandoned,
    /// The match has left the registry.
    Closed,
}

impl MatchState {
    /// The state is an outcome: the match is over and waits to be closed.
    pub open spec fn is_outcome(self) -> bool {
        self is Won || self is Drawn || self is Abandoned
    }

    /// Whether the state is an outcome.
    pub fn outcome(&self) -> (b: bool)
        ensures
            b == self.is_outcome(),
    {
        match self {
            MatchState::Won(_) => true,
            MatchState::Drawn => true,
            MatchState::Abandoned => true,
            _ => false,
        }
    }
}

/// A control word that a player of a match can send.
#[derive(Clone, Copy, Debug, PartialEq, Eq, Structural)]
pub enum Token {
    /// "I have solved the problem": a duel's word.
    Finish,
    /// "I give up": a word of both kinds of match.
    GiveUp,
    /// "Look at the submissions again": a lockout's word.
    Update,
}

/// The control word that a message is, if it is one.
pub open spec fn token_of(text: Seq<char>) -> Option<Token> {
    if text == "~match finish"@ {
        Some(Token::Finish)
    } else if text == "~match giveup"@ {
        Some(Token::GiveUp)
    } else if text == "~match update"@ {
        Some(Token::Update)
    } else {
        None
    }
}

/// The control word that the message `text` is, if it is one.
pub fn parse_token(text: &str) -> (r: Option<Token>)
    ensures
        r == token_of(text@),
{
    if str_eq(text, "~match finish") {
        Some(Token::Finish)
    } else if str_eq(text, "~match giveup") {
        Some(Token::GiveUp)
    } else if str_eq(text, "~match update") {
        Some(Token::Update)
    } else {
        None
    }
}

/// What the observer of a match is to do after a step.
#[derive(Clone, Copy, Debug, PartialEq, Eq, Structural)]
pub enum Action {
    /// Nothing; go on observing.
    Ignore,
    /// Observe the chat for so many seconds, then report that time is up.
    Watch(u64),
    /// Fetch the submissions of the participant with this id and report them.
    FetchSubmissions(u64),
    /// Fetch the submissions of every player, in roster order, and report
    /// them.
    FetchAll,
    /// Tell the participant with this id that its problem is not solved yet.
    ReportNotCompleted(u64),
    /// Tell the participant with this id that the judge did not answer.
    ReportJudgeUnavailable(u64),
    /// Show the standings.
    ShowStandings,
    /// Announce the outcome that the state holds, then close the match.
    Announce,
}

/// The time that is left of `limit` seconds at `now`, for a match that
/// began at `begin`.
pub open spec fn time_left(begin: u64, limit: u64, now: u64) -> int {
    let passed = if now >= begin {
        now - begin
    } else {
        0
    };
    if passed >= limit {
        0
    } else {
        limit - passed
    }
}

/// The time that is left of `limit` seconds at `now`, for a match that
/// began at `begin`: the clock of a match runs from its beginning, also
/// after the observer was started anew.
pub fn remaining_time(begin: u64, limit: u64, now: u64) -> (r: u64)
    ensures
        r == time_left(begin, limit, now),
{
    let passed = if now >= begin {
        now - begin
    } else {
        0
    };
    if passed >= limit {
        0
    } else {
        limit - passed
    }
}

/// The matches of the kind `kind`.
pub open spec fn of_kind(kind: DuelType) -> spec_fn(DuelView) -> bool {
    |d: DuelView| d.duel_type == kind
}

/// The matches of kind `kind` that the registry holds: those whose
/// observation is to be taken up when the engine starts.
pub fn matches_of_kind(data: &Data, kind: DuelType) -> (r: Vec<Duel>)
    ensures
        r.deep_view() == data@.duels.filter(of_kind(kind)),
{
    let ghost pred = of_kind(kind);
    let ghost all = data@.duels;
    let mut r: Vec<Duel> = Vec::new();
    let mut k: usize = 0;
    assert(all.take(0).filter(pred) =~= Seq::empty()) by {
        reveal(Seq::filter);
    }
    while k < data.duels.len()
        invariant
            k <= data.duels.len(),
            all == data@.duels,
            pred == of_kind(kind),
            r.deep_view() == all.take(k as int).filter(pred),
        decreases data.duels.len() - k,
    {
        proof {
            assert(all.take(k + 1) =~= all.take(k as int).push(all[k as int]));
            all.take(k as int).lemma_filter_push(all[k as int], pred);
        }
        if data.duels[k].duel_type == kind {
            let ghost prior = r.deep_view();
            r.push(data.duels[k].clone());
            assert(r.deep_view() =~= prior.push(all[k as int]));
        }
        k += 1;
    }
    assert(all.take(k as int) =~= all);
    r
}

/// Closes a match that has reached an outcome: it leaves the registry and
/// its players are free again, in one step. In another state nothing
/// happens.
pub fn close_match(data: &mut Data, duel: &Duel, state: MatchState) -> (r: MatchState)
    ensures
        state.is_outcome() ==> r == MatchState::Closed && final(data)@ == old(data)@.closed(
            set![duel@.duel_id],
        ),
        !state.is_outcome() ==> r == state && final(data)@ == old(data)@,
        old(data)@.wf() ==> final(data)@.wf(),
{
    if state.outcome() {
        data.remove_match(duel.duel_id);
        MatchState::Closed
    } else {
        state
    }
}
} // verus!
