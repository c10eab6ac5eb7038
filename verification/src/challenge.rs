//! Registration and the untimed challenge: a participant proves its handle
//! by a submission, takes a problem as its challenge, and is credited when
//! it has solved it.

use crate::accounts::{
    add_points_to_user, add_user_to_data, fresh_user, remove_problem_from_user,
};
use crate::catalog::{check_complete_problem_with_given_submission, solved_at};
use crate::error::MatchError;
use crate::problem::{Problem, ProblemView, Submission, SubmissionView};
use crate::registry::{Data, DataView, User, UserView};
use crate::text::str_eq;
use vstd::prelude::*;

verus! {

/// How long a challenge must be kept before it can be skipped, in seconds.
pub const CHALLENGE_DURATION: u64 = 1800;

/// What a solved challenge is worth, by the rating of its problem: one
/// value for each hundred from 800 to 3500.
pub open spec fn points_table() -> Seq<u64> {
    seq![
        1u64, 2, 3, 3, 4, 4, 6, 8, 8, 10, 11, 15, 20, 22, 27, 35, 40, 49, 57, 75, 90, 103, 119,
        137, 154, 170, 188, 200,
    ]
}

/// What a solved challenge of rating `rating` is worth, for a rating that
/// the table knows.
pub open spec fn worth(rating: Option<i32>) -> Option<u64> {
    match rating {
        Some(r) => if 800 <= r < 3600 {
            Some(points_table()[r / 100 - 8])
        } else {
            None
        },
        None => None,
    }
}

/// What a solved challenge of rating `rating` is worth.
pub fn challenge_points(rating: Option<i32>) -> (r: Option<u64>)
    ensures
        r == worth(rating),
{
    let table: [u64; 28] = [
        1, 2, 3, 3, 4, 4, 6, 8, 8, 10, 11, 15, 20, 22, 27, 35, 40, 49, 57, 75, 90, 103, 119, 137,
        154, 170, 188, 200,
    ];
    match rating {
        Some(r) => {
            if 800 <= r && r < 3600 {
                let step = (r / 100 - 8) as usize;
                assert(table@ =~= points_table());
                Some(table[step])
            } else {
                None
            }
        },
        None => None,
    }
}

impl UserView {
    /// The participant has a challenge that it took at some time.
    pub open spec fn challenged(self) -> bool {
        self.active_challenge is Some && self.last_time_since_challenge is Some
    }

    /// The seconds that the participant has to wait at `now` until its
    /// challenge can be skipped.
    pub open spec fn skip_wait(self, now: u64) -> int {
        match self.last_time_since_challenge {
            Some(taken) => if now >= taken && now - taken >= CHALLENGE_DURATION {
                0
            } else if now >= taken {
                CHALLENGE_DURATION - (now - taken)
            } else {
                CHALLENGE_DURATION as int
            },
            None => 0,
        }
    }
}

/// Whether `user` is free to take a challenge: it is not while it has one.
pub fn handle_uncomplete_challenge(user: &User) -> (r: Result<(), MatchError>)
    ensures
        r == if user@.challenged() {
            Err::<(), MatchError>(MatchError::ActiveChallenge)
        } else {
            Ok::<(), MatchError>(())
        },
{
    if user.active_challenge.is_none() || user.last_time_since_challenge.is_none() {
        Ok(())
    } else {
        Err(MatchError::ActiveChallenge)
    }
}

/// A span of seconds as seconds, minutes and hours, each below sixty.
pub fn convert_to_hms(elapsed_time: u64) -> (r: (u64, u64, u64))
    ensures
        r.0 == elapsed_time % 60,
        r.1 == (elapsed_time / 60) % 60,
        r.2 == ((elapsed_time / 60) / 60) % 60,
{
    (elapsed_time % 60, (elapsed_time / 60) % 60, ((elapsed_time / 60) / 60) % 60)
}

/// The seconds that `user` has to wait at `now` until its challenge can be
/// skipped.
pub fn skip_wait(user: &User, now: u64) -> (r: u64)
    ensures
        r == user@.skip_wait(now),
{
    match user.last_time_since_challenge {
        Some(taken) => {
            if now >= taken && now - taken >= CHALLENGE_DURATION {
                0
            } else if now >= taken {
                CHALLENGE_DURATION - (now - taken)
            } else {
                CHALLENGE_DURATION
            }
        },
        None => 0,
    }
}

/// The option forces a skip.
pub open spec fn forces(option: Seq<char>) -> bool {
    option == "-f"@ || option == "-force"@
}

/// What a request to skip the challenge of the account `user_id` comes to
/// at `now`: the account must be registered and have a challenge; an option
/// must be one that forces the skip; without an option the challenge must
/// be old enough.
pub open spec fn skip_verdict(data: DataView, user_id: u64, option: Option<Seq<char>>, now: u64) -> Result<
    (),
    MatchError,
> {
    if !data.registered(user_id) {
        Err(MatchError::NotRegistered)
    } else if !data.record(user_id).challenged() {
        Err(MatchError::NoChallenge)
    } else {
        match option {
            Some(o) => if forces(o) {
                Ok(())
            } else {
                Err(MatchError::WrongOption)
            },
            None => if data.record(user_id).skip_wait(now) > 0 {
                Err(MatchError::TooEarly)
            } else {
                Ok(())
            },
        }
    }
}

/// Skips the challenge of the account `user_id` at time `now`, where
/// [`skip_verdict`] allows it: the challenge is cleared. Else nothing
/// changes.
pub fn skip(data: &mut Data, user_id: u64, option: Option<&str>, now: u64) -> (r: Result<
    (),
    MatchError,
>)
    ensures
        r == skip_verdict(
            old(data)@,
            user_id,
            match option {
                Some(o) => Some(o@),
                None => None,
            },
            now,
        ),
        final(data)@ == if r is Ok {
            old(data)@.with_challenge(user_id, None, 0)
        } else {
            old(data)@
        },
        old(data)@.wf() ==> final(data)@.wf(),
{
    let i = match data.position_of(user_id) {
        Some(i) => i,
        None => {
            return Err(MatchError::NotRegistered);
        },
    };
    assert(data@.record(user_id) == data.data[i as int]@);
    if handle_uncomplete_challenge(&data.data[i]).is_ok() {
        return Err(MatchError::NoChallenge);
    }
    match option {
        Some(o) => {
            if !(str_eq(o, "-f") || str_eq(o, "-force")) {
                return Err(MatchError::WrongOption);
            }
        },
        None => {
            if skip_wait(&data.data[i], now) > 0 {
                return Err(MatchError::TooEarly);
            }
        },
    }
    remove_problem_from_user(data, user_id);
    Ok(())
}

/// What a claim of the account `user_id` to have solved its challenge comes
/// to, with the submissions `subs` of the account: the points that the
/// challenge is worth, if the account is registered, has a challenge, has an
/// accepted submission for it, and the challenge has a rating that is worth
/// something.
pub open spec fn claim_verdict(data: DataView, user_id: u64, subs: Seq<SubmissionView>) -> Result<
    u64,
    MatchError,
> {
    if !data.registered(user_id) {
        Err(MatchError::NotRegistered)
    } else if !data.record(user_id).challenged() {
        Err(MatchError::NoChallenge)
    } else if solved_at(subs, data.record(user_id).active_challenge.unwrap()) is None {
        Err(MatchError::NotCompleted)
    } else {
        match worth(data.record(user_id).active_challenge.unwrap().rating) {
            Some(points) => Ok(points),
            None => Err(MatchError::InvariantViolation),
        }
    }
}

/// Settles the claim of the account `user_id` to have solved its
/// challenge: see [`claim_verdict`]. Where the claim holds, the points are
/// added to the account's score and the challenge is cleared. Else nothing
/// changes.
pub fn gotit(data: &mut Data, user_id: u64, submissions: &Vec<Submission>) -> (r: Result<
    u64,
    MatchError,
>)
    ensures
        r == claim_verdict(old(data)@, user_id, submissions.deep_view()),
        final(data)@ == match r {
            Ok(points) => old(data)@.with_points(user_id, points).with_challenge(user_id, None, 0),
            Err(_) => old(data)@,
        },
        old(data)@.wf() ==> final(data)@.wf(),
{
    let i = match data.position_of(user_id) {
        Some(i) => i,
        None => {
            return Err(MatchError::NotRegistered);
        },
    };
    assert(data@.record(user_id) == data.data[i as int]@);
    if handle_uncomplete_challenge(&data.data[i]).is_ok() {
        return Err(MatchError::NoChallenge);
    }
    let points = match &data.data[i].active_challenge {
        Some(problem) => {
            if check_complete_problem_with_given_submission(problem, submissions).is_err() {
                return Err(MatchError::NotCompleted);
            }
            match challenge_points(problem.rating) {
                Some(points) => points,
                None => {
                    return Err(MatchError::InvariantViolation);
                },
            }
        },
        None => {
            return Err(MatchError::NoChallenge);
        },
    };
    add_points_to_user(data, user_id, points);
    remove_problem_from_user(data, user_id);
    Ok(points)
}

/// The submission is one that failed to compile.
pub open spec fn compilation_error(s: SubmissionView) -> bool {
    s.verdict == Some("COMPILATION_ERROR"@)
}

/// What the proof of a handle comes to, with the latest submissions
/// `subs` of the handle, the newest first: the newest must have failed to
/// compile, and must be one for `problem`.
pub open spec fn proof_verdict(problem: ProblemView, subs: Seq<SubmissionView>) -> Result<
    (),
    MatchError,
> {
    if subs.len() == 0 {
        Err(MatchError::JudgeUnavailable)
    } else if !compilation_error(subs[0]) {
        Err(MatchError::NoCompilationError)
    } else if !subs[0].problem.same_problem(problem) {
        Err(MatchError::WrongProblem)
    } else {
        Ok(())
    }
}

/// Checks the proof of a handle: see [`proof_verdict`].
pub fn check_user_registration(problem: &Problem, api_result: &Vec<Submission>) -> (r: Result<
    (),
    MatchError,
>)
    ensures
        r == proof_verdict(problem@, api_result.deep_view()),
{
    if api_result.len() == 0 {
        return Err(MatchError::JudgeUnavailable);
    }
    let latest = &api_result[0];
    assert(api_result.deep_view()[0] == latest@);
    let failed = match &latest.verdict {
        Some(v) => str_eq(v.as_str(), "COMPILATION_ERROR"),
        None => false,
    };
    if !failed {
        return Err(MatchError::NoCompilationError);
    }
    if !latest.problem.same_problem(problem) {
        return Err(MatchError::WrongProblem);
    }
    Ok(())
}

/// Registers the account `user_id` with the handle `handle`, where the
/// proof of the handle holds, as [`proof_verdict`] says, and the account is
/// not registered yet. Else nothing changes.
pub fn add_handle(
    data: &mut Data,
    user_id: u64,
    handle: &str,
    problem: &Problem,
    api_result: &Vec<Submission>,
) -> (r: Result<(), MatchError>)
    ensures
        r == match proof_verdict(problem@, api_result.deep_view()) {
            Ok(_) => if old(data)@.registered(user_id) {
                Err::<(), MatchError>(MatchError::AccountTaken)
            } else {
                Ok::<(), MatchError>(())
            },
            Err(e) => Err::<(), MatchError>(e),
        },
        final(data)@ == if r is Ok {
            DataView { users: old(data)@.users.push(fresh_user(user_id, handle@)), ..old(data)@ }
        } else {
            old(data)@
        },
        old(data)@.wf() ==> final(data)@.wf(),
{
    match check_user_registration(problem, api_result) {
        Ok(_) => match add_user_to_data(data, user_id, handle) {
            Ok(_) => Ok(()),
            Err(e) => Err(e),
        },
        Err(e) => Err(e),
    }
}

/// The rating of a handle, from the new ratings of the contests it took
/// part in, the oldest first: the newest of them, and zero without any.
pub fn get_user_rating(new_ratings: &Vec<u32>) -> (r: u32)
    ensures
        r == if new_ratings.len() == 0 {
            0
        } else {
            new_ratings[new_ratings.len() - 1]
        },
{
    if new_ratings.len() == 0 {
        0
    } else {
        new_ratings[new_ratings.len() - 1]
    }
}

/// The rating of a handle as the rating command shows it: a handle without
/// a contest, or with the rating zero, has none to show.
pub fn rating(new_ratings: &Vec<u32>) -> (r: Result<u32, MatchError>)
    ensures
        r == if new_ratings.len() == 0 || new_ratings[new_ratings.len() - 1] == 0 {
            Err::<u32, MatchError>(MatchError::NoContests)
        } else {
            Ok::<u32, MatchError>(new_ratings[new_ratings.len() - 1])
        },
{
    let shown = get_user_rating(new_ratings);
    if shown == 0 {
        Err(MatchError::NoContests)
    } else {
        Ok(shown)
    }
}

/// The catalog as the judge returned it, unless it is empty: an empty
/// catalog has no problem to suggest.
pub fn get_problemset(problems: Vec<Problem>) -> (r: Result<Vec<Problem>, MatchError>)
    ensures
        r == if problems.len() == 0 {
            Err::<Vec<Problem>, MatchError>(MatchError::NoCandidates)
        } else {
            Ok::<Vec<Problem>, MatchError>(problems)
        },
{
    if problems.len() == 0 {
        Err(MatchError::NoCandidates)
    } else {
        Ok(problems)
    }
}
} // verus!
