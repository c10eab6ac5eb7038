//! Checking a registry that came from outside: whether what was loaded is
//! well formed.

use crate::ledger::distinct_ids;
use crate::registry::{match_ids, Data, Duel};
use vstd::prelude::*;

verus! {

/// Whether no identity occurs twice among `duels`.
pub fn distinct_match_ids(duels: &Vec<Duel>) -> (b: bool)
    ensures
        b == match_ids(duels.deep_view()).no_duplicates(),
{
    let ghost ids = match_ids(duels.deep_view());
    let mut i: usize = 0;
    while i < duels.len()
        invariant
            i <= duels.len(),
            ids == match_ids(duels.deep_view()),
            forall|a: int, b: int| 0 <= a < b < i ==> ids[a] != ids[b],
        decreases duels.len() - i,
    {
        let mut j: usize = 0;
        while j < i
            invariant
                j <= i < duels.len(),
                ids == match_ids(duels.deep_view()),
                forall|a: int| 0 <= a < j ==> ids[a] != ids[i as int],
            decreases i - j,
        {
            if duels[j].duel_id == duels[i].duel_id {
                assert(ids[j as int] == ids[i as int]);
                return false;
            }
            j += 1;
        }
        i += 1;
    }
    true
}

impl Data {
    /// Whether a participant with id `uid` is registered with a reference
    /// to match `id`.
    pub fn is_stamped(&self, uid: u64, id: usize) -> (b: bool)
        ensures
            b == self@.stamped(uid, id),
    {
        let mut i: usize = 0;
        while i < self.data.len()
            invariant
                i <= self.data.len(),
                forall|j: int|
                    0 <= j < i ==> !((#[trigger] self@.users[j]).user_id == uid
                        && self@.users[j].duel_id == Some(id)),
            decreases self.data.len() - i,
        {
            if self.data[i].user_id == uid && self.data[i].duel_id == Some(id) {
                assert(self@.users[i as int].user_id == uid);
                return true;
            }
            i += 1;
        }
        false
    }

    /// Whether a match with identity `id` lists the participant with id
    /// `uid`.
    pub fn is_listed(&self, id: usize, uid: u64) -> (b: bool)
        ensures
            b == self@.listed(id, uid),
    {
        let mut k: usize = 0;
        while k < self.duels.len()
            invariant
                k <= self.duels.len(),
                forall|m: int|
                    0 <= m < k ==> !((#[trigger] self@.duels[m]).duel_id == id && self@.in_roster(
                        m,
                        uid,
                    )),
            decreases self.duels.len() - k,
        {
            if self.duels[k].duel_id == id && self.duels[k].has_player(uid) {
                assert(self@.duels[k as int].duel_id == id && self@.in_roster(k as int, uid));
                return true;
            }
            k += 1;
        }
        false
    }

    /// Whether the registry is well formed: the check to make on a registry
    /// that was loaded, before it is used.
    pub fn is_consistent(&self) -> (b: bool)
        ensures
            b == self@.wf(),
    {
        if !distinct_ids(&self.data) || !distinct_match_ids(&self.duels) {
            return false;
        }
        let mut k: usize = 0;
        while k < self.duels.len()
            invariant
                k <= self.duels.len(),
                forall|m: int| 0 <= m < k ==> (#[trigger] self@.duels[m]).wf(),
                forall|m: int, j: int|
                    0 <= m < k && 0 <= j < self@.duels[m].players.len() ==> self@.stamped(
                        (#[trigger] self@.duels[m].players[j]).user_id,
                        self@.duels[m].duel_id,
                    ),
            decreases self.duels.len() - k,
        {
            if !self.duels[k].is_well_formed() {
                assert(!self@.duels[k as int].wf());
                return false;
            }
            let mut j: usize = 0;
            while j < self.duels[k].players.len()
                invariant
                    k < self.duels.len(),
                    j <= self.duels[k as int].players.len(),
                    forall|a: int|
                        0 <= a < j ==> self@.stamped(
                            (#[trigger] self@.duels[k as int].players[a]).user_id,
                            self@.duels[k as int].duel_id,
                        ),
                decreases self.duels[k as int].players.len() - j,
            {
                if !self.is_stamped(self.duels[k].players[j].user_id, self.duels[k].duel_id) {
                    assert(!self@.stamped(
                        self@.duels[k as int].players[j as int].user_id,
                        self@.duels[k as int].duel_id,
                    ));
                    return false;
                }
                j += 1;
            }
            k += 1;
        }
        let mut i: usize = 0;
        while i < self.data.len()
            invariant
                i <= self.data.len(),
                forall|a: int|
                    0 <= a < i && (#[trigger] self@.users[a]).duel_id is Some ==> self@.listed(
                        self@.users[a].duel_id.unwrap(),
                        self@.users[a].user_id,
                    ),
            decreases self.data.len() - i,
        {
            match self.data[i].duel_id {
                Some(id) => {
                    if !self.is_listed(id, self.data[i].user_id) {
                        assert(self@.users[i as int].duel_id is Some);
                        return false;
                    }
                },
                None => {},
            }
            i += 1;
        }
        true
    }
}
} // verus!
