//! The life of a lockout: a ladder of problems, each worth points to the
//! player who is first found to have solved it.
//!
//! As with a duel, the observer reports chat messages, fetched submissions
//! and the end of the lockout's time to a step function here, which decides
//! the next state and what the observer is to do.

use crate::error::MatchError;
use crate::problem::{Problem, ProblemView, Submission};
use crate::text::{chars_of, read_i32, read_signed, split_words, word_views, words};
use crate::registry::{Data, Duel, DuelType, DuelView};
use crate::scoring::{
    all_views, decided, get_leaderboard_indices, is_lockout_complete, leaderboard,
    lemma_leaderboard, lockout_update, scores_of, updated,
};
use crate::order::positions;
use crate::state::{
    matches_of_kind, of_kind, parse_token, remaining_time, time_left, token_of, Action, MatchState,
    Token,
};
use vstd::prelude::*;

verus! {

/// How the lockout `d` ends as it stands: abandoned without a player;
/// drawn where the leader has no point or shares the lead; else the leader
/// has won.
pub open spec fn lockout_outcome(d: DuelView) -> MatchState {
    let scores = scores_of(d);
    let board = leaderboard(scores);
    if d.players.len() == 0 || scores.len() != d.players.len() {
        MatchState::Abandoned
    } else if scores[board[0]] == 0 {
        MatchState::Drawn
    } else if scores.len() >= 2 && scores[board[1]] == scores[board[0]] {
        MatchState::Drawn
    } else {
        MatchState::Won(d.players[board[0]].user_id)
    }
}

/// How `lockout` ends as it stands.
pub fn outcome_of(lockout: &Duel) -> (r: MatchState)
    ensures
        r == lockout_outcome(lockout@),
{
    let indices = get_leaderboard_indices(lockout);
    match &lockout.score_distribution {
        Some(scores) => {
            if lockout.players.len() == 0 || scores.len() != lockout.players.len() {
                return MatchState::Abandoned;
            }
            proof {
                lemma_leaderboard(scores@);
                assert(positions(indices@)[0] == indices[0]);
                if scores.len() >= 2 {
                    assert(positions(indices@)[1] == indices[1]);
                }
            }
            let leader = indices[0];
            if scores[leader] == 0 {
                MatchState::Drawn
            } else if scores.len() >= 2 && scores[indices[1]] == scores[leader] {
                MatchState::Drawn
            } else {
                MatchState::Won(lockout.players[leader].user_id)
            }
        },
        None => MatchState::Abandoned,
    }
}

/// The duration of a lockout, none where it has none.
pub open spec fn limit_of(d: DuelView) -> u64 {
    match d.match_duration {
        Some(limit) => limit,
        None => 0,
    }
}

/// What a chat message does to an active lockout.
///
/// Only `update` and `giveup` count, and only from an author who is one of
/// the players; every other message is passed over, whoever sent it. On
/// `giveup` the author leaves the roster, with its score. After either word
/// every player's submissions are to be fetched.
pub open spec fn lockout_chat_step(
    d: DuelView,
    state: MatchState,
    author: u64,
    text: Seq<char>,
) -> (DuelView, MatchState, Action) {
    if state != MatchState::Active || !d.roster().contains(author) {
        (d, state, Action::Ignore)
    } else {
        match token_of(text) {
            Some(Token::Update) => (d, state, Action::FetchAll),
            Some(Token::GiveUp) => (d.without_player(author), state, Action::FetchAll),
            _ => (d, state, Action::Ignore),
        }
    }
}

/// A message of an author who is not one of the players leaves a lockout as
/// it is and asks for nothing, whatever it says.
pub proof fn lemma_lockout_passes_over_outsiders(
    d: DuelView,
    state: MatchState,
    author: u64,
    text: Seq<char>,
)
    requires
        !d.roster().contains(author),
    ensures
        lockout_chat_step(d, state, author, text) == (d, state, Action::Ignore),
{
}

/// Takes up the observation of a lockout at time `now`: the lockout is
/// active, and its chat is to be watched for what is left of its time,
/// counted from its beginning; where nothing is left, it ends as it stands.
/// A lockout that is over already stays as it is.
pub fn single_lockout_interactor(lockout: &Duel, state: MatchState, now: u64) -> (r: (
    MatchState,
    Action,
))
    ensures
        r == if state == MatchState::Assigning || state == MatchState::Active {
            if time_left(lockout@.begin_time, limit_of(lockout@), now) > 0 {
                (
                    MatchState::Active,
                    Action::Watch(time_left(lockout@.begin_time, limit_of(lockout@), now) as u64),
                )
            } else {
                (lockout_outcome(lockout@), Action::Announce)
            }
        } else {
            (state, Action::Ignore)
        },
{
    match state {
        MatchState::Assigning | MatchState::Active => {
            let limit = match lockout.match_duration {
                Some(limit) => limit,
                None => 0,
            };
            let left = remaining_time(lockout.begin_time, limit, now);
            if left > 0 {
                (MatchState::Active, Action::Watch(left))
            } else {
                (outcome_of(lockout), Action::Announce)
            }
        },
        _ => (state, Action::Ignore),
    }
}

/// Reports a chat message to an active lockout: see [`lockout_chat_step`].
pub fn lockout_on_chat(lockout: &mut Duel, state: MatchState, author: u64, text: &str) -> (r: (
    MatchState,
    Action,
))
    ensures
        (final(lockout)@, r.0, r.1) == lockout_chat_step(old(lockout)@, state, author, text@),
        old(lockout)@.wf() ==> final(lockout)@.wf(),
{
    match state {
        MatchState::Active => {},
        _ => {
            return (state, Action::Ignore);
        },
    }
    if !lockout.has_player(author) {
        return (state, Action::Ignore);
    }
    match parse_token(text) {
        Some(Token::Update) => (state, Action::FetchAll),
        Some(Token::GiveUp) => {
            lockout.remove_user(author);
            (state, Action::FetchAll)
        },
        _ => (state, Action::Ignore),
    }
}

/// What was fetched for each player, a failed fetch counting as no
/// submissions.
pub open spec fn tolerated(fetched: Seq<Option<Vec<Submission>>>) -> Seq<
    Seq<crate::problem::SubmissionView>,
> {
    Seq::new(
        fetched.len(),
        |j: int|
            match fetched[j] {
                Some(subs) => subs.deep_view(),
                None => Seq::empty(),
            },
    )
}

/// The submissions of each player, in roster order, from what was fetched
/// for each: a failed fetch counts as no submissions.
pub fn get_all_user_submissions(fetched: &Vec<Option<Vec<Submission>>>) -> (r: Vec<Vec<Submission>>)
    ensures
        all_views(r@) == tolerated(fetched@),
{
    let mut r: Vec<Vec<Submission>> = Vec::new();
    let mut j: usize = 0;
    while j < fetched.len()
        invariant
            j <= fetched.len(),
            r.len() == j,
            forall|k: int| 0 <= k < j ==> r[k].deep_view() == tolerated(fetched@)[k],
        decreases fetched.len() - j,
    {
        let mut list: Vec<Submission> = Vec::new();
        match &fetched[j] {
            Some(subs) => {
                let mut i: usize = 0;
                while i < subs.len()
                    invariant
                        i <= subs.len(),
                        list.len() == i,
                        forall|k: int| 0 <= k < i ==> list[k]@ == subs[k]@,
                    decreases subs.len() - i,
                {
                    list.push(subs[i].clone());
                    i += 1;
                }
                assert(list.deep_view() =~= subs.deep_view());
            },
            None => {
                assert(list.deep_view() =~= Seq::empty());
            },
        }
        r.push(list);
        j += 1;
    }
    assert(all_views(r@) =~= tolerated(fetched@));
    r
}

/// What the fetched submissions do to an active well-formed lockout at
/// time `now`: the lockout is updated with them, and ends as it then stands
/// if that decides it; else the standings are to be shown.
pub open spec fn lockout_submissions_step(
    d: DuelView,
    state: MatchState,
    fetched: Seq<Option<Vec<Submission>>>,
    now: u64,
) -> (DuelView, MatchState, Action) {
    if state != MatchState::Active || !d.wf() || d.duel_type != DuelType::Lockout {
        (d, state, Action::Ignore)
    } else {
        let after = updated(d, tolerated(fetched));
        if decided(after, now) {
            (after, lockout_outcome(after), Action::Announce)
        } else {
            (after, state, Action::ShowStandings)
        }
    }
}

/// Reports to an active lockout what the judge returned for each player,
/// in roster order: see [`lockout_submissions_step`].
pub fn lockout_on_submissions(
    lockout: &mut Duel,
    state: MatchState,
    fetched: &Vec<Option<Vec<Submission>>>,
    now: u64,
) -> (r: (MatchState, Action))
    ensures
        (final(lockout)@, r.0, r.1) == lockout_submissions_step(
            old(lockout)@,
            state,
            fetched@,
            now,
        ),
        old(lockout)@.wf() ==> final(lockout)@.wf(),
{
    match state {
        MatchState::Active => {},
        _ => {
            return (state, Action::Ignore);
        },
    }
    if !lockout.is_well_formed() {
        return (state, Action::Ignore);
    }
    match lockout.duel_type {
        DuelType::Lockout => {},
        DuelType::Duel => {
            return (state, Action::Ignore);
        },
    }
    let subs = get_all_user_submissions(fetched);
    lockout_update(lockout, &subs);
    if is_lockout_complete(lockout, now) {
        (outcome_of(lockout), Action::Announce)
    } else {
        (state, Action::ShowStandings)
    }
}

/// Reports the end of its time to an active lockout: it ends as it stands.
pub fn lockout_on_timeout(lockout: &Duel, state: MatchState) -> (r: (MatchState, Action))
    ensures
        r == if state == MatchState::Active {
            (lockout_outcome(lockout@), Action::Announce)
        } else {
            (state, Action::Ignore)
        },
{
    match state {
        MatchState::Active => (outcome_of(lockout), Action::Announce),
        _ => (state, Action::Ignore),
    }
}

/// How many problems a lockout has where nothing else is asked for.
pub const DEFAULT_PROBLEM_COUNT: u32 = 5;

/// By how much the ratings of a ladder rise where nothing else is asked for.
pub const DEFAULT_INCREMENT: u32 = 100;

/// How long a lockout lasts where nothing else is asked for, in seconds.
pub const DEFAULT_DURATION: u64 = 5400;

/// What the initiator of a lockout asks for.
#[derive(Clone, Copy, Debug, PartialEq, Eq, Structural)]
pub struct LockoutOptions {
    /// The number of problems.
    pub number_of_problems: u32,
    /// The duration, in seconds.
    pub duration: u64,
    /// The rating of the middle problem; without one the rating of the
    /// roster decides.
    pub rating: Option<u32>,
    /// The step between the ratings of two problems.
    pub increment: u32,
}

/// The number that word `k` of an answer writes, if there is such a word
/// and it writes a number of 32 bits.
pub open spec fn number_at(answer: Seq<Seq<char>>, k: int) -> Option<i32> {
    if 0 <= k < answer.len() {
        read_signed(answer[k])
    } else {
        None
    }
}

/// The options that an answer asks for. Its first four words are read as
/// the number of problems, the duration in minutes, the rating and the
/// increment. A word that is missing, is no number or is negative leaves its
/// option as it is without an answer; an increment is rounded down to
/// hundreds, and is a hundred at least.
pub open spec fn options_of(answer: Seq<char>) -> LockoutOptions {
    let w = words(answer);
    LockoutOptions {
        number_of_problems: match number_at(w, 0) {
            Some(count) => if count >= 0 {
                count as u32
            } else {
                DEFAULT_PROBLEM_COUNT
            },
            None => DEFAULT_PROBLEM_COUNT,
        },
        duration: match number_at(w, 1) {
            Some(minutes) => if minutes >= 0 {
                (60 * minutes) as u64
            } else {
                DEFAULT_DURATION
            },
            None => DEFAULT_DURATION,
        },
        rating: match number_at(w, 2) {
            Some(rating) => if rating >= 0 {
                Some(rating as u32)
            } else {
                None
            },
            None => None,
        },
        increment: match number_at(w, 3) {
            Some(step) => if step >= 200 {
                ((step / 100) * 100) as u32
            } else {
                DEFAULT_INCREMENT
            },
            None => DEFAULT_INCREMENT,
        },
    }
}

/// The options of a lockout whose initiator gives no answer.
pub fn default_options() -> (r: LockoutOptions)
    ensures
        r == (LockoutOptions {
            number_of_problems: DEFAULT_PROBLEM_COUNT,
            duration: DEFAULT_DURATION,
            rating: None,
            increment: DEFAULT_INCREMENT,
        }),
{
    LockoutOptions {
        number_of_problems: DEFAULT_PROBLEM_COUNT,
        duration: DEFAULT_DURATION,
        rating: None,
        increment: DEFAULT_INCREMENT,
    }
}

/// The number that the word `arg` writes, if there is a word and it writes
/// a number of 32 bits.
pub fn to_num(arg: Option<&Vec<char>>) -> (r: Option<i32>)
    ensures
        r == match arg {
            Some(word) => read_signed(word@),
            None => None,
        },
{
    match arg {
        Some(word) => read_i32(word),
        None => None,
    }
}

fn word_at(list: &Vec<Vec<char>>, k: usize) -> (r: Option<&Vec<char>>)
    ensures
        match r {
            Some(w) => k < list.len() && w@ == list[k as int]@,
            None => k >= list.len(),
        },
{
    if k < list.len() {
        Some(&list[k])
    } else {
        None
    }
}

/// The options that the answer `answer` of the initiator asks for: see
/// [`options_of`].
pub fn lockout_options(answer: &str) -> (r: LockoutOptions)
    ensures
        r == options_of(answer@),
{
    let text = chars_of(answer);
    let list = split_words(&text);
    let ghost w = words(answer@);
    assert(forall|k: int| 0 <= k < list.len() ==> w[k] == #[trigger] list[k]@) by {
        assert(word_views(list@) == w);
        assert forall|k: int| 0 <= k < list.len() implies w[k] == #[trigger] list[k]@ by {
            assert(word_views(list@)[k] == list[k]@);
        }
    }
    assert(w.len() == list.len()) by {
        assert(word_views(list@).len() == list.len());
    }
    let number_of_problems = match to_num(word_at(&list, 0)) {
        Some(count) => if count >= 0 {
            count as u32
        } else {
            DEFAULT_PROBLEM_COUNT
        },
        None => DEFAULT_PROBLEM_COUNT,
    };
    let duration = match to_num(word_at(&list, 1)) {
        Some(minutes) => if minutes >= 0 {
            60 * (minutes as u64)
        } else {
            DEFAULT_DURATION
        },
        None => DEFAULT_DURATION,
    };
    let rating = match to_num(word_at(&list, 2)) {
        Some(rating) => if rating >= 0 {
            Some(rating as u32)
        } else {
            None
        },
        None => None,
    };
    let increment = match to_num(word_at(&list, 3)) {
        Some(step) => if step >= 200 {
            ((step / 100) * 100) as u32
        } else {
            DEFAULT_INCREMENT
        },
        None => DEFAULT_INCREMENT,
    };
    LockoutOptions { number_of_problems, duration, rating, increment }
}

/// The views of the candidates of each step of a ladder.
pub open spec fn ladder_views(candidates: Seq<Vec<Problem>>) -> Seq<Seq<ProblemView>> {
    Seq::new(candidates.len(), |i: int| candidates[i].deep_view())
}

/// Every step of the ladder has a drawn position, and each position names
/// a candidate of its step.
pub open spec fn draws_fit(candidates: Seq<Seq<ProblemView>>, draws: Seq<usize>) -> bool {
    &&& draws.len() == candidates.len()
    &&& forall|i: int| 0 <= i < draws.len() ==> #[trigger] draws[i] < candidates[i].len()
}

/// The problems of a lockout: for each step of the ladder the candidate at
/// the position that was drawn for the step.
pub fn assemble_ladder(candidates: &Vec<Vec<Problem>>, draws: &Vec<usize>) -> (r: Result<
    Vec<Problem>,
    MatchError,
>)
    ensures
        match r {
            Ok(v) => {
                &&& draws_fit(ladder_views(candidates@), draws@)
                &&& v.len() == candidates.len()
                &&& forall|i: int|
                    0 <= i < v.len() ==> (#[trigger] v[i])@ == candidates[i].deep_view()[draws[i] as int]
            },
            Err(e) => e == MatchError::DrawOutOfRange && !draws_fit(
                ladder_views(candidates@),
                draws@,
            ),
        },
{
    if draws.len() != candidates.len() {
        return Err(MatchError::DrawOutOfRange);
    }
    let mut v: Vec<Problem> = Vec::new();
    let mut i: usize = 0;
    while i < candidates.len()
        invariant
            i <= candidates.len(),
            draws.len() == candidates.len(),
            v.len() == i,
            forall|j: int| 0 <= j < i ==> #[trigger] draws[j] < candidates[j].len(),
            forall|j: int|
                0 <= j < i ==> (#[trigger] v[j])@ == candidates[j].deep_view()[draws[j] as int],
        decreases candidates.len() - i,
    {
        if draws[i] >= candidates[i].len() {
            assert(ladder_views(candidates@)[i as int].len() == candidates[i as int].len());
            assert(!(draws@[i as int] < ladder_views(candidates@)[i as int].len()));
            return Err(MatchError::DrawOutOfRange);
        }
        v.push(candidates[i][draws[i]].clone());
        i += 1;
    }
    assert(draws_fit(ladder_views(candidates@), draws@)) by {
        assert forall|j: int| 0 <= j < draws.len() implies #[trigger] draws@[j] < ladder_views(
            candidates@,
        )[j].len() by {
            assert(draws[j] < candidates[j].len());
        }
    }
    Ok(v)
}

/// The lockouts that the registry holds: those whose observation is to be
/// taken up when the engine starts.
pub fn lockout_interactor(data: &Data) -> (r: Vec<Duel>)
    ensures
        r.deep_view() == data@.duels.filter(of_kind(DuelType::Lockout)),
{
    matches_of_kind(data, DuelType::Lockout)
}
} // verus!
