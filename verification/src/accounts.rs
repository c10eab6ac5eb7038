//! The participants of the registry: registration, the outstanding
//! challenge and the challenge score.

use crate::error::MatchError;
use crate::problem::{Problem, ProblemView};
use crate::registry::{ids_of, Data, DataView, User, UserView};
use crate::text::str_eq;
use vstd::prelude::*;

verus! {

/// A participant as it is registered: nothing scored, no challenge, no
/// match.
pub open spec fn fresh_user(user_id: u64, handle: Seq<char>) -> UserView {
    UserView {
        user_id,
        handle,
        challenge_score: 0,
        active_challenge: None,
        last_time_since_challenge: None,
        duel_id: None,
    }
}

impl UserView {
    /// The participant has the account `user_id` or the handle `handle`.
    pub open spec fn conflicts(self, user_id: u64, handle: Seq<char>) -> bool {
        self.user_id == user_id || self.handle == handle
    }

    /// The participant with an outstanding challenge set or cleared.
    pub open spec fn with_challenge(self, challenge: Option<ProblemView>, now: u64) -> UserView {
        UserView {
            active_challenge: challenge,
            last_time_since_challenge: if challenge is Some {
                Some(now)
            } else {
                None
            },
            ..self
        }
    }

    /// The participant with `points` more on its challenge score, as far as
    /// the score type reaches.
    pub open spec fn with_points(self, points: u64) -> UserView {
        UserView {
            challenge_score: if self.challenge_score + points <= u64::MAX {
                (self.challenge_score + points) as u64
            } else {
                u64::MAX
            },
            ..self
        }
    }
}

impl DataView {
    /// The registry with the outstanding challenge of every record of the
    /// account `user_id` set to `challenge`, taken at `now`, or cleared.
    pub open spec fn with_challenge(
        self,
        user_id: u64,
        challenge: Option<ProblemView>,
        now: u64,
    ) -> DataView {
        DataView {
            users: Seq::new(
                self.users.len(),
                |i: int|
                    if self.users[i].user_id == user_id {
                        self.users[i].with_challenge(challenge, now)
                    } else {
                        self.users[i]
                    },
            ),
            ..self
        }
    }

    /// The registry with `points` more on the challenge score of every
    /// record of the account `user_id`.
    pub open spec fn with_points(self, user_id: u64, points: u64) -> DataView {
        DataView {
            users: Seq::new(
                self.users.len(),
                |i: int|
                    if self.users[i].user_id == user_id {
                        self.users[i].with_points(points)
                    } else {
                        self.users[i]
                    },
            ),
            ..self
        }
    }
}

/// Participants that keep their accounts and match references keep the
/// registry well formed.
pub proof fn lemma_same_ties_wf(data: DataView, users: Seq<UserView>)
    requires
        data.wf(),
        users.len() == data.users.len(),
        forall|i: int|
            0 <= i < users.len() ==> (#[trigger] users[i]).user_id == data.users[i].user_id
                && users[i].duel_id == data.users[i].duel_id,
    ensures
        (DataView { users, ..data }).wf(),
{
    let after = DataView { users, ..data };
    assert(ids_of(after.users) =~= ids_of(data.users));
    assert forall|k: int, j: int|
        0 <= k < after.duels.len() && 0 <= j < after.duels[k].players.len() implies after.stamped(
        (#[trigger] after.duels[k].players[j]).user_id,
        after.duels[k].duel_id,
    ) by {
        assert(data.stamped(data.duels[k].players[j].user_id, data.duels[k].duel_id));
        let i = choose|i: int|
            0 <= i < data.users.len() && (#[trigger] data.users[i]).user_id
                == data.duels[k].players[j].user_id && data.users[i].duel_id == Some(
                data.duels[k].duel_id,
            );
        assert(after.users[i].user_id == data.users[i].user_id);
        assert(after.users[i].duel_id == data.users[i].duel_id);
    }
    assert forall|i: int|
        0 <= i < after.users.len() && (#[trigger] after.users[i]).duel_id is Some implies after.listed(
        after.users[i].duel_id.unwrap(),
        after.users[i].user_id,
    ) by {
        assert(data.listed(data.users[i].duel_id.unwrap(), data.users[i].user_id));
        let k = choose|k: int|
            0 <= k < data.duels.len() && (#[trigger] data.duels[k]).duel_id
                == data.users[i].duel_id.unwrap() && data.in_roster(k, data.users[i].user_id);
        assert(after.in_roster(k, after.users[i].user_id));
    }
}

/// Registering an account that is not registered keeps the registry well
/// formed.
pub proof fn lemma_registered_wf(data: DataView, user_id: u64, handle: Seq<char>)
    requires
        data.wf(),
        !data.registered(user_id),
    ensures
        (DataView { users: data.users.push(fresh_user(user_id, handle)), ..data }).wf(),
{
    let after = DataView { users: data.users.push(fresh_user(user_id, handle)), ..data };
    assert(ids_of(after.users) =~= ids_of(data.users).push(user_id));
    assert forall|k: int, j: int|
        0 <= k < after.duels.len() && 0 <= j < after.duels[k].players.len() implies after.stamped(
        (#[trigger] after.duels[k].players[j]).user_id,
        after.duels[k].duel_id,
    ) by {
        assert(data.stamped(data.duels[k].players[j].user_id, data.duels[k].duel_id));
        let i = choose|i: int|
            0 <= i < data.users.len() && (#[trigger] data.users[i]).user_id
                == data.duels[k].players[j].user_id && data.users[i].duel_id == Some(
                data.duels[k].duel_id,
            );
        assert(after.users[i] == data.users[i]);
    }
    assert forall|i: int|
        0 <= i < after.users.len() && (#[trigger] after.users[i]).duel_id is Some implies after.listed(
        after.users[i].duel_id.unwrap(),
        after.users[i].user_id,
    ) by {
        assert(after.users[i] == data.users[i]);
        assert(data.listed(data.users[i].duel_id.unwrap(), data.users[i].user_id));
        let k = choose|k: int|
            0 <= k < data.duels.len() && (#[trigger] data.duels[k]).duel_id
                == data.users[i].duel_id.unwrap() && data.in_roster(k, data.users[i].user_id);
        assert(after.in_roster(k, after.users[i].user_id));
    }
}

/// The record of the first participant with id `user_id`.
pub fn find_user_in_data(data: &Data, user_id: u64) -> (r: Result<User, MatchError>)
    ensures
        match r {
            Ok(u) => exists|i: int|
                0 <= i < data@.users.len() && data@.users[i] == u@ && u@.user_id == user_id
                    && forall|j: int| 0 <= j < i ==> data@.users[j].user_id != user_id,
            Err(e) => e == MatchError::NotRegistered && !data@.registered(user_id),
        },
{
    match data.position_of(user_id) {
        Some(i) => {
            let u = data.data[i].clone();
            assert(data@.users[i as int] == u@);
            Ok(u)
        },
        None => Err(MatchError::NotRegistered),
    }
}

/// Whether the account `user_id` and the handle `handle` are both new
/// to the registry. The first participant that has one of them decides
/// the error: its account, or else its handle.
pub fn validate_user_id_and_handle(data: &Data, user_id: u64, handle: &str) -> (r: Result<
    (),
    MatchError,
>)
    ensures
        match r {
            Ok(_) => forall|i: int|
                0 <= i < data@.users.len() ==> !(#[trigger] data@.users[i]).conflicts(
                    user_id,
                    handle@,
                ),
            Err(e) => exists|i: int|
                {
                    &&& 0 <= i < data@.users.len()
                    &&& (#[trigger] data@.users[i]).conflicts(user_id, handle@)
                    &&& forall|j: int|
                        0 <= j < i ==> !(#[trigger] data@.users[j]).conflicts(user_id, handle@)
                    &&& e == if data@.users[i].user_id == user_id {
                        MatchError::AccountTaken
                    } else {
                        MatchError::HandleTaken
                    }
                },
        },
{
    let mut i: usize = 0;
    while i < data.data.len()
        invariant
            i <= data.data.len(),
            forall|j: int|
                0 <= j < i ==> !(#[trigger] data@.users[j]).conflicts(user_id, handle@),
        decreases data.data.len() - i,
    {
        if data.data[i].user_id == user_id {
            assert(data@.users[i as int].conflicts(user_id, handle@));
            return Err(MatchError::AccountTaken);
        }
        if str_eq(data.data[i].handle.as_str(), handle) {
            assert(data@.users[i as int].conflicts(user_id, handle@));
            return Err(MatchError::HandleTaken);
        }
        i += 1;
    }
    Ok(())
}

/// Registers the account `user_id` with the handle `handle`. An account
/// that is registered already is refused, and nothing changes.
pub fn add_user_to_data(data: &mut Data, user_id: u64, handle: &str) -> (r: Result<(), MatchError>)
    ensures
        match r {
            Ok(_) => !old(data)@.registered(user_id) && final(data)@ == (DataView {
                users: old(data)@.users.push(fresh_user(user_id, handle@)),
                ..old(data)@
            }),
            Err(e) => e == MatchError::AccountTaken && old(data)@.registered(user_id)
                && final(data)@ == old(data)@,
        },
        old(data)@.wf() ==> final(data)@.wf(),
{
    match data.position_of(user_id) {
        Some(i) => {
            assert(ids_of(data@.users)[i as int] == user_id);
            return Err(MatchError::AccountTaken);
        },
        None => {},
    }
    proof {
        if data@.wf() {
            lemma_registered_wf(data@, user_id, handle@);
        }
    }
    let ghost before = data.data.deep_view();
    data.data.push(
        User {
            user_id,
            handle: handle.to_owned(),
            challenge_score: 0,
            active_challenge: None,
            last_time_since_challenge: None,
            duel_id: None,
        },
    );
    assert(data.data.deep_view() =~= before.push(fresh_user(user_id, handle@)));
    Ok(())
}

/// Sets the outstanding challenge of the account `user_id` to
/// `problem_to_add`, taken at time `now`; without a problem, clears it.
pub fn add_problem_to_user(data: &mut Data, user_id: u64, problem_to_add: Option<&Problem>, now: u64)
    ensures
        final(data)@ == old(data)@.with_challenge(
            user_id,
            match problem_to_add {
                Some(p) => Some(p@),
                None => None,
            },
            now,
        ),
        old(data)@.wf() ==> final(data)@.wf(),
{
    let ghost before = data@;
    let ghost challenge = match problem_to_add {
        Some(p) => Some(p@),
        None => None,
    };
    let ghost after = before.with_challenge(user_id, challenge, now);
    let mut users: Vec<User> = Vec::new();
    let mut i: usize = 0;
    while i < data.data.len()
        invariant
            i <= data.data.len(),
            data@ == before,
            challenge == match problem_to_add {
                Some(p) => Some(p@),
                None => None,
            },
            after == before.with_challenge(user_id, challenge, now),
            users.len() == i,
            forall|a: int| 0 <= a < i ==> users[a]@ == after.users[a],
        decreases data.data.len() - i,
    {
        let mut u = data.data[i].clone();
        if u.user_id == user_id {
            match problem_to_add {
                Some(p) => {
                    u.active_challenge = Some(p.clone());
                    u.last_time_since_challenge = Some(now);
                },
                None => {
                    u.active_challenge = None;
                    u.last_time_since_challenge = None;
                },
            }
        }
        users.push(u);
        i += 1;
    }
    proof {
        assert(users.deep_view() =~= after.users);
        if before.wf() {
            lemma_same_ties_wf(before, after.users);
        }
    }
    data.data = users;
}

/// Clears the outstanding challenge of the account `user_id`.
pub fn remove_problem_from_user(data: &mut Data, user_id: u64)
    ensures
        final(data)@ == old(data)@.with_challenge(user_id, None, 0),
        old(data)@.wf() ==> final(data)@.wf(),
{
    add_problem_to_user(data, user_id, None, 0);
}

/// Adds `points` to the challenge score of the account `user_id`; a
/// score stops at the largest value of its type.
pub fn add_points_to_user(data: &mut Data, user_id: u64, points: u64)
    ensures
        final(data)@ == old(data)@.with_points(user_id, points),
        old(data)@.wf() ==> final(data)@.wf(),
{
    let ghost before = data@;
    let ghost after = before.with_points(user_id, points);
    let mut users: Vec<User> = Vec::new();
    let mut i: usize = 0;
    while i < data.data.len()
        invariant
            i <= data.data.len(),
            data@ == before,
            after == before.with_points(user_id, points),
            users.len() == i,
            forall|a: int| 0 <= a < i ==> users[a]@ == after.users[a],
        decreases data.data.len() - i,
    {
        let mut u = data.data[i].clone();
        if u.user_id == user_id {
            u.challenge_score = if u.challenge_score <= u64::MAX - points {
                u.challenge_score + points
            } else {
                u64::MAX
            };
        }
        users.push(u);
        i += 1;
    }
    proof {
        assert(users.deep_view() =~= after.users);
        if before.wf() {
            lemma_same_ties_wf(before, after.users);
        }
    }
    data.data = users;
}
} // verus!
