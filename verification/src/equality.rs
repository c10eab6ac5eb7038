//! Equality of problems, participants and matches.
//!
//! Problems and participants are equal when all that they hold is equal. A
//! match is equal to another when identity, players, beginning and problems
//! agree; scores and point values, which change while it is played, do not
//! count.

use crate::problem::Problem;
use crate::registry::{Duel, User};
use vstd::prelude::*;
use vstd::std_specs::cmp::PartialEqSpecImpl;

verus! {

/// Whether two lists of strings hold the same texts.
pub fn same_strings(a: &Vec<String>, b: &Vec<String>) -> (r: bool)
    ensures
        r == (a.deep_view() == b.deep_view()),
{
    if a.len() != b.len() {
        assert(a.deep_view().len() != b.deep_view().len());
        return false;
    }
    let mut i: usize = 0;
    while i < a.len()
        invariant
            i <= a.len(),
            a.len() == b.len(),
            forall|k: int| 0 <= k < i ==> a[k]@ == b[k]@,
        decreases a.len() - i,
    {
        if a[i] != b[i] {
            assert(a.deep_view()[i as int] != b.deep_view()[i as int]);
            return false;
        }
        i += 1;
    }
    assert(a.deep_view() =~= b.deep_view());
    true
}

/// Whether two optional strings hold the same.
pub fn same_option(a: &Option<String>, b: &Option<String>) -> (r: bool)
    ensures
        r == match (*a, *b) {
            (Some(x), Some(y)) => x@ == y@,
            (None, None) => true,
            _ => false,
        },
{
    match (a, b) {
        (Some(x), Some(y)) => *x == *y,
        (None, None) => true,
        _ => false,
    }
}

impl PartialEq for Problem {
    fn eq(&self, other: &Self) -> (r: bool) {
        self.contest_id == other.contest_id && same_option(
            &self.problemset_name,
            &other.problemset_name,
        ) && self.index == other.index && self.name == other.name && self.kind == other.kind
            && self.points == other.points && self.rating == other.rating && same_strings(
            &self.tags,
            &other.tags,
        )
    }
}

impl PartialEqSpecImpl for Problem {
    open spec fn obeys_eq_spec() -> bool {
        true
    }

    open spec fn eq_spec(&self, other: &Self) -> bool {
        self@ == other@
    }
}

/// Whether two lists of problems hold the same problems.
pub fn same_problems(a: &Vec<Problem>, b: &Vec<Problem>) -> (r: bool)
    ensures
        r == (a.deep_view() == b.deep_view()),
{
    if a.len() != b.len() {
        assert(a.deep_view().len() != b.deep_view().len());
        return false;
    }
    let mut i: usize = 0;
    while i < a.len()
        invariant
            i <= a.len(),
            a.len() == b.len(),
            forall|k: int| 0 <= k < i ==> a[k]@ == b[k]@,
        decreases a.len() - i,
    {
        if a[i] != b[i] {
            assert(a.deep_view()[i as int] != b.deep_view()[i as int]);
            return false;
        }
        i += 1;
    }
    assert(a.deep_view() =~= b.deep_view());
    true
}

impl PartialEq for User {
    fn eq(&self, other: &Self) -> (r: bool) {
        let challenge = match (&self.active_challenge, &other.active_challenge) {
            (Some(x), Some(y)) => *x == *y,
            (None, None) => true,
            _ => false,
        };
        self.user_id == other.user_id && self.handle == other.handle && self.challenge_score
            == other.challenge_score && challenge && self.last_time_since_challenge
            == other.last_time_since_challenge && self.duel_id == other.duel_id
    }
}

impl PartialEqSpecImpl for User {
    open spec fn obeys_eq_spec() -> bool {
        true
    }

    open spec fn eq_spec(&self, other: &Self) -> bool {
        self@ == other@
    }
}

/// Whether two lists of participants hold the same participants.
pub fn same_users(a: &Vec<User>, b: &Vec<User>) -> (r: bool)
    ensures
        r == (a.deep_view() == b.deep_view()),
{
    if a.len() != b.len() {
        assert(a.deep_view().len() != b.deep_view().len());
        return false;
    }
    let mut i: usize = 0;
    while i < a.len()
        invariant
            i <= a.len(),
            a.len() == b.len(),
            forall|k: int| 0 <= k < i ==> a[k]@ == b[k]@,
        decreases a.len() - i,
    {
        if a[i] != b[i] {
            assert(a.deep_view()[i as int] != b.deep_view()[i as int]);
            return false;
        }
        i += 1;
    }
    assert(a.deep_view() =~= b.deep_view());
    true
}

impl PartialEq for Duel {
    fn eq(&self, other: &Self) -> (r: bool) {
        self.duel_id == other.duel_id && same_users(&self.players, &other.players)
            && self.begin_time == other.begin_time && same_problems(&self.problems, &other.problems)
    }
}

impl PartialEqSpecImpl for Duel {
    open spec fn obeys_eq_spec() -> bool {
        true
    }

    open spec fn eq_spec(&self, other: &Self) -> bool {
        &&& self@.duel_id == other@.duel_id
        &&& self@.players == other@.players
        &&& self@.begin_time == other@.begin_time
        &&& self@.problems == other@.problems
    }
}
} // verus!
