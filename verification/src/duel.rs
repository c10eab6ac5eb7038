//! The life of a duel: one shared problem, and the first player who is
//! found to have solved it wins.
//!
//! The observer of a duel waits for chat messages and for the end of the
//! duel's time, and reports each to a step function here. The step decides
//! the next state and what the observer is to do.

use crate::catalog::{has_accepted, solved};
use crate::problem::{Submission, SubmissionView};
use crate::registry::{Data, Duel, DuelType, DuelView};
use crate::state::{
    matches_of_kind, of_kind, parse_token, remaining_time, time_left, token_of, Action, MatchState,
    Token,
};
use vstd::prelude::*;

verus! {

/// How long a duel lasts, in seconds.
pub const DUEL_DURATION: u64 = 5400;

/// The first id of `roster`, from position `from` on, that is not `quitter`.
pub open spec fn rival_from(roster: Seq<u64>, quitter: u64, from: int) -> Option<u64>
    decreases roster.len() - from,
{
    if from < 0 || from >= roster.len() {
        None
    } else if roster[from] != quitter {
        Some(roster[from])
    } else {
        rival_from(roster, quitter, from + 1)
    }
}

/// The state of a duel after `quitter` gave up: the first other player of
/// the roster has won; without one the duel is drawn.
pub open spec fn conceded(d: DuelView, quitter: u64) -> MatchState {
    match rival_from(d.roster(), quitter, 0) {
        Some(winner) => MatchState::Won(winner),
        None => MatchState::Drawn,
    }
}

/// What a chat message does to an active duel.
///
/// Only `finish` and `giveup` count, and only from an author who is one of
/// the players; every other message is passed over, whoever sent it. On
/// `finish` the author's submissions are to be fetched; on `giveup` the
/// other player has won.
pub open spec fn duel_chat_step(
    d: DuelView,
    state: MatchState,
    author: u64,
    text: Seq<char>,
) -> (MatchState, Action) {
    if state != MatchState::Active || !d.roster().contains(author) {
        (state, Action::Ignore)
    } else {
        match token_of(text) {
            Some(Token::Finish) => (state, Action::FetchSubmissions(author)),
            Some(Token::GiveUp) => (conceded(d, author), Action::Announce),
            _ => (state, Action::Ignore),
        }
    }
}

/// A message of an author who is not one of the players leaves a duel as it
/// is and asks for nothing, whatever it says.
pub proof fn lemma_duel_passes_over_outsiders(
    d: DuelView,
    state: MatchState,
    author: u64,
    text: Seq<char>,
)
    requires
        !d.roster().contains(author),
    ensures
        duel_chat_step(d, state, author, text) == (state, Action::Ignore),
{
}

/// What the submissions of a player who sent `finish` do to an active
/// duel: with an accepted one for the duel's problem the player has won;
/// without, the duel goes on; and so it does where the judge gave no answer.
pub open spec fn duel_verdict_step(
    d: DuelView,
    state: MatchState,
    author: u64,
    fetched: Option<Seq<SubmissionView>>,
) -> (MatchState, Action) {
    if state != MatchState::Active || !d.roster().contains(author) || d.problems.len() == 0 {
        (state, Action::Ignore)
    } else {
        match fetched {
            None => (state, Action::ReportJudgeUnavailable(author)),
            Some(subs) => if solved(subs, d.problems[0]) {
                (MatchState::Won(author), Action::Announce)
            } else {
                (state, Action::ReportNotCompleted(author))
            },
        }
    }
}

/// The first player, from roster position `from` on, whose fetched
/// submissions hold an accepted one for the duel's problem.
pub open spec fn first_solver_from(
    d: DuelView,
    fetched: Seq<Option<Seq<SubmissionView>>>,
    from: int,
) -> Option<u64>
    decreases d.players.len() - from,
{
    if from < 0 || from >= d.players.len() || from >= fetched.len() || d.problems.len() == 0 {
        None
    } else if fetched[from] is Some && solved(fetched[from].unwrap(), d.problems[0]) {
        Some(d.players[from].user_id)
    } else {
        first_solver_from(d, fetched, from + 1)
    }
}

/// What the end of its time does to an active duel: the first player in
/// roster order who has solved the problem has won; without one the duel is
/// drawn. A player whose submissions could not be fetched counts as not
/// having solved it.
pub open spec fn duel_timeout_step(
    d: DuelView,
    state: MatchState,
    fetched: Seq<Option<Seq<SubmissionView>>>,
) -> (MatchState, Action) {
    if state != MatchState::Active {
        (state, Action::Ignore)
    } else {
        match first_solver_from(d, fetched, 0) {
            Some(winner) => (MatchState::Won(winner), Action::Announce),
            None => (MatchState::Drawn, Action::Announce),
        }
    }
}

/// The views of what was fetched for each player.
pub open spec fn fetched_views(fetched: Seq<Option<Vec<Submission>>>) -> Seq<
    Option<Seq<SubmissionView>>,
> {
    Seq::new(
        fetched.len(),
        |j: int|
            match fetched[j] {
                Some(subs) => Some(subs.deep_view()),
                None => None,
            },
    )
}

/// Takes up the observation of a duel at time `now`: the duel is active,
/// and its chat is to be watched for what is left of its time, counted from
/// its beginning; where nothing is left, every player's submissions are to
/// be fetched for [`duel_on_timeout`]. A duel that is over already stays as
/// it is.
pub fn single_duel_interactor(duel: &Duel, state: MatchState, now: u64) -> (r: (MatchState, Action))
    ensures
        r == if state == MatchState::Assigning || state == MatchState::Active {
            if time_left(duel@.begin_time, DUEL_DURATION, now) > 0 {
                (
                    MatchState::Active,
                    Action::Watch(time_left(duel@.begin_time, DUEL_DURATION, now) as u64),
                )
            } else {
                (MatchState::Active, Action::FetchAll)
            }
        } else {
            (state, Action::Ignore)
        },
{
    match state {
        MatchState::Assigning | MatchState::Active => {
            let left = remaining_time(duel.begin_time, DUEL_DURATION, now);
            if left > 0 {
                (MatchState::Active, Action::Watch(left))
            } else {
                (MatchState::Active, Action::FetchAll)
            }
        },
        _ => (state, Action::Ignore),
    }
}

/// The state of `duel` after the player `quitter` gave up.
pub fn concede(duel: &Duel, quitter: u64) -> (r: MatchState)
    ensures
        r == conceded(duel@, quitter),
{
    let ghost roster = duel@.roster();
    let mut j: usize = 0;
    while j < duel.players.len()
        invariant
            j <= duel.players.len(),
            roster == duel@.roster(),
            rival_from(roster, quitter, 0) == rival_from(roster, quitter, j as int),
        decreases duel.players.len() - j,
    {
        assert(roster[j as int] == duel.players[j as int].user_id);
        if duel.players[j].user_id != quitter {
            return MatchState::Won(duel.players[j].user_id);
        }
        j += 1;
    }
    MatchState::Drawn
}

/// Reports a chat message to an active duel: see [`duel_chat_step`].
pub fn duel_on_chat(duel: &Duel, state: MatchState, author: u64, text: &str) -> (r: (
    MatchState,
    Action,
))
    ensures
        r == duel_chat_step(duel@, state, author, text@),
{
    match state {
        MatchState::Active => {},
        _ => {
            return (state, Action::Ignore);
        },
    }
    if !duel.has_player(author) {
        return (state, Action::Ignore);
    }
    match parse_token(text) {
        Some(Token::Finish) => (state, Action::FetchSubmissions(author)),
        Some(Token::GiveUp) => (concede(duel, author), Action::Announce),
        _ => (state, Action::Ignore),
    }
}

/// Reports to an active duel what the judge returned for a player who sent
/// `finish`, or that it returned nothing: see [`duel_verdict_step`].
pub fn duel_on_verdict(
    duel: &Duel,
    state: MatchState,
    author: u64,
    fetched: Option<&Vec<Submission>>,
) -> (r: (MatchState, Action))
    ensures
        r == duel_verdict_step(
            duel@,
            state,
            author,
            match fetched {
                Some(subs) => Some(subs.deep_view()),
                None => None,
            },
        ),
{
    match state {
        MatchState::Active => {},
        _ => {
            return (state, Action::Ignore);
        },
    }
    if !duel.has_player(author) || duel.problems.len() == 0 {
        return (state, Action::Ignore);
    }
    match fetched {
        None => (state, Action::ReportJudgeUnavailable(author)),
        Some(subs) => {
            if has_accepted(subs, &duel.problems[0]) {
                (MatchState::Won(author), Action::Announce)
            } else {
                (state, Action::ReportNotCompleted(author))
            }
        },
    }
}

/// Reports the end of its time to an active duel, with what the judge
/// returned for each player in roster order: see [`duel_timeout_step`].
pub fn duel_on_timeout(duel: &Duel, state: MatchState, fetched: &Vec<Option<Vec<Submission>>>) -> (r:
    (MatchState, Action))
    ensures
        r == duel_timeout_step(duel@, state, fetched_views(fetched@)),
{
    match state {
        MatchState::Active => {},
        _ => {
            return (state, Action::Ignore);
        },
    }
    let ghost views = fetched_views(fetched@);
    if duel.problems.len() == 0 {
        return (MatchState::Drawn, Action::Announce);
    }
    let mut j: usize = 0;
    while j < duel.players.len() && j < fetched.len()
        invariant
            j <= duel.players.len(),
            j <= fetched.len(),
            duel.problems.len() > 0,
            state == MatchState::Active,
            views == fetched_views(fetched@),
            first_solver_from(duel@, views, 0) == first_solver_from(duel@, views, j as int),
        decreases duel.players.len() - j,
    {
        let solver = match &fetched[j] {
            Some(subs) => has_accepted(subs, &duel.problems[0]),
            None => false,
        };
        assert(solver == (views[j as int] is Some && solved(
            views[j as int].unwrap(),
            duel@.problems[0],
        )));
        if solver {
            assert(duel@.players[j as int].user_id == duel.players[j as int].user_id);
            assert(first_solver_from(duel@, views, j as int) == Some(
                duel@.players[j as int].user_id,
            ));
            return (MatchState::Won(duel.players[j].user_id), Action::Announce);
        }
        j += 1;
    }
    (MatchState::Drawn, Action::Announce)
}

/// The duels that the registry holds: those whose observation is to be
/// taken up when the engine starts.
pub fn duel_interactor(data: &Data) -> (r: Vec<Duel>)
    ensures
        r.deep_view() == data@.duels.filter(of_kind(DuelType::Duel)),
{
    matches_of_kind(data, DuelType::Duel)
}
} // verus!
