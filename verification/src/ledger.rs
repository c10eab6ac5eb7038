//! The changes that the registry goes through: matches are opened, stored
//! and closed, participants join and are credited. Each change keeps the
//! registry well formed.

use crate::error::MatchError;
use crate::problem::{clone_problems, Problem, ProblemView};
use crate::registry::{
    clone_numbers, generate_duel_id, ids_of, is_smallest_free, match_ids, Data,
    DataView, Duel, DuelType, DuelView, User, UserView,
};
use crate::tally::{checked_total, lemma_total_nonnegative, lemma_total_zeros, total};
use vstd::prelude::*;

verus! {

/// Some participant of `users` refers to match `id`.
pub open spec fn refers_to(users: Seq<UserView>, id: usize) -> bool {
    exists|j: int| 0 <= j < users.len() && (#[trigger] users[j]).duel_id == Some(id)
}

/// The identities of the matches that `users` refer to.
pub open spec fn references(users: Seq<UserView>) -> Set<usize> {
    Set::new(|id: usize| refers_to(users, id))
}

/// The matches that stay when those with an identity of `ids` are closed.
pub open spec fn stays_open(ids: Set<usize>) -> spec_fn(DuelView) -> bool {
    |d: DuelView| !ids.contains(d.duel_id)
}

/// What a new match needs: at least one problem; for a lockout a duration
/// and a point value for each problem, all of them together within the
/// score type; for a duel exactly one problem and no duration.
pub open spec fn valid_setup(
    problems: Seq<ProblemView>,
    duration: Option<u64>,
    points: Option<Seq<u32>>,
) -> bool {
    &&& problems.len() >= 1
    &&& match points {
        Some(p) => duration is Some && p.len() == problems.len() && total(p) <= u32::MAX,
        None => duration is None && problems.len() == 1,
    }
}

/// The match that is opened for `users` under identity `id`: a lockout where
/// point values are given, else a duel.
pub open spec fn new_match(
    id: usize,
    users: Seq<UserView>,
    problems: Seq<ProblemView>,
    duration: Option<u64>,
    points: Option<Seq<u32>>,
    now: u64,
    channel_id: u64,
) -> DuelView {
    DuelView {
        duel_id: id,
        players: Seq::new(users.len(), |j: int| users[j].with_duel(Some(id))),
        begin_time: now,
        problems,
        channel_id,
        duel_type: if points is Some {
            DuelType::Lockout
        } else {
            DuelType::Duel
        },
        score_distribution: if points is Some {
            Some(Seq::new(users.len(), |j: int| 0u32))
        } else {
            None
        },
        match_duration: duration,
        problems_point: points,
    }
}

impl DataView {
    /// A participant with id `uid` is registered, and no record of it
    /// refers to a match.
    pub open spec fn available(self, uid: u64) -> bool {
        &&& self.registered(uid)
        &&& forall|i: int|
            0 <= i < self.users.len() && (#[trigger] self.users[i]).user_id == uid
                ==> self.users[i].duel_id is None
    }

    /// Each id of `roster` is that of an available participant, and none
    /// occurs twice.
    pub open spec fn can_host(self, roster: Seq<u64>) -> bool {
        &&& roster.no_duplicates()
        &&& forall|j: int| 0 <= j < roster.len() ==> self.available(#[trigger] roster[j])
    }

    /// The participants after those of `roster` were given a reference to
    /// match `id`.
    pub open spec fn stamped_users(self, roster: Seq<u64>, id: usize) -> Seq<UserView> {
        Seq::new(
            self.users.len(),
            |i: int|
                if roster.contains(self.users[i].user_id) {
                    self.users[i].with_duel(Some(id))
                } else {
                    self.users[i]
                },
        )
    }

    /// The participants after every reference to a match with an identity
    /// of `ids` was cleared.
    pub open spec fn released_users(self, ids: Set<usize>) -> Seq<UserView> {
        Seq::new(
            self.users.len(),
            |i: int|
                match self.users[i].duel_id {
                    Some(id) if ids.contains(id) => self.users[i].with_duel(None),
                    _ => self.users[i],
                },
        )
    }

    /// The registry after a match `m` was opened for `roster`.
    pub open spec fn opened(self, m: DuelView) -> DataView {
        DataView { users: self.stamped_users(m.roster(), m.duel_id), duels: self.duels.push(m) }
    }

    /// The registry after the matches with an identity of `ids` were
    /// closed: they are gone, and who referred to one of them is free.
    pub open spec fn closed(self, ids: Set<usize>) -> DataView {
        DataView { users: self.released_users(ids), duels: self.duels.filter(stays_open(ids)) }
    }
}

/// Opening a well-formed match under an unused identity, for available
/// participants, keeps the registry well formed.
pub proof fn lemma_opened_wf(data: DataView, m: DuelView)
    requires
        data.wf(),
        m.wf(),
        data.can_host(m.roster()),
        !match_ids(data.duels).contains(m.duel_id),
    ensures
        data.opened(m).wf(),
{
    let after = data.opened(m);
    let roster = m.roster();
    let id = m.duel_id;
    assert(ids_of(after.users) =~= ids_of(data.users));
    assert(match_ids(after.duels) =~= match_ids(data.duels).push(id));
    assert forall|k: int, j: int|
        0 <= k < after.duels.len() && 0 <= j < after.duels[k].players.len() implies after.stamped(
        (#[trigger] after.duels[k].players[j]).user_id,
        after.duels[k].duel_id,
    ) by {
        let uid = after.duels[k].players[j].user_id;
        if k < data.duels.len() {
            assert(data.stamped(data.duels[k].players[j].user_id, data.duels[k].duel_id));
            let i = choose|i: int|
                0 <= i < data.users.len() && (#[trigger] data.users[i]).user_id == uid
                    && data.users[i].duel_id == Some(data.duels[k].duel_id);
            if roster.contains(uid) {
                let w = choose|w: int| 0 <= w < roster.len() && roster[w] == uid;
                assert(data.available(roster[w]));
            }
            assert(after.users[i] == data.users[i]);
        } else {
            assert(roster[j] == uid);
            assert(data.available(roster[j]));
            let i = choose|i: int| 0 <= i < data.users.len() && ids_of(data.users)[i] == uid;
            assert(after.users[i] == data.users[i].with_duel(Some(id)));
        }
    }
    assert forall|i: int|
        0 <= i < after.users.len() && (#[trigger] after.users[i]).duel_id is Some implies after.listed(
        after.users[i].duel_id.unwrap(),
        after.users[i].user_id,
    ) by {
        let uid = data.users[i].user_id;
        if roster.contains(uid) {
            let k = data.duels.len() as int;
            assert(after.duels[k].duel_id == id && after.in_roster(k, uid));
        } else {
            assert(data.listed(data.users[i].duel_id.unwrap(), uid));
            let k = choose|k: int|
                0 <= k < data.duels.len() && (#[trigger] data.duels[k]).duel_id
                    == data.users[i].duel_id.unwrap() && data.in_roster(k, uid);
            assert(after.duels[k] == data.duels[k]);
            assert(after.in_roster(k, uid));
        }
    }
}

/// Opening a match adds exactly one match and ties exactly its players to
/// it: in a well-formed registry, for available participants none of whom is
/// named twice and a valid setup, the registry stays well formed; the new
/// match is appended under an identity that no match had, with the given
/// participants as its players, in their order; each of them refers to it;
/// and every other participant and every other match is as before.
pub proof fn lemma_opening_adds_one_match(
    data: DataView,
    users: Seq<UserView>,
    problems: Seq<ProblemView>,
    duration: Option<u64>,
    points: Option<Seq<u32>>,
    now: u64,
    channel_id: u64,
    id: usize,
)
    requires
        data.wf(),
        data.can_host(ids_of(users)),
        valid_setup(problems, duration, points),
        is_smallest_free(match_ids(data.duels), id),
    ensures
        ({
            let m = new_match(id, users, problems, duration, points, now, channel_id);
            let after = data.opened(m);
            &&& after.wf()
            &&& m.wf()
            &&& !match_ids(data.duels).contains(id)
            &&& after.duels.len() == data.duels.len() + 1
            &&& after.duels[data.duels.len() as int] == m
            &&& forall|k: int| 0 <= k < data.duels.len() ==> #[trigger] after.duels[k] == data.duels[k]
            &&& m.roster() == ids_of(users)
            &&& after.users.len() == data.users.len()
            &&& forall|i: int|
                0 <= i < data.users.len() ==> #[trigger] after.users[i] == if ids_of(users).contains(
                    data.users[i].user_id,
                ) {
                    data.users[i].with_duel(Some(id))
                } else {
                    data.users[i]
                }
        }),
{
    let m = new_match(id, users, problems, duration, points, now, channel_id);
    assert(m.roster() =~= ids_of(users));
    if points is Some {
        lemma_total_zeros(m.score_distribution.unwrap());
    }
    lemma_opened_wf(data, m);
}

/// What stays of a list of matches is part of it, and no identity gets
/// there twice.
proof fn lemma_stays_open(duels: Seq<DuelView>, closing: Set<usize>)
    requires
        match_ids(duels).no_duplicates(),
    ensures
        match_ids(duels.filter(stays_open(closing))).no_duplicates(),
        forall|k: int|
            0 <= k < duels.filter(stays_open(closing)).len() ==> duels.contains(
                #[trigger] duels.filter(stays_open(closing))[k],
            ) && !closing.contains(duels.filter(stays_open(closing))[k].duel_id),
        forall|k: int|
            0 <= k < duels.len() && !closing.contains((#[trigger] duels[k]).duel_id)
                ==> duels.filter(stays_open(closing)).contains(duels[k]),
    decreases duels.len(),
{
    let pred = stays_open(closing);
    let kept = duels.filter(pred);
    reveal(Seq::filter);
    if duels.len() > 0 {
        let front = duels.drop_last();
        let last = duels.last();
        assert(match_ids(front) =~= match_ids(duels).drop_last());
        assert forall|a: int, b: int|
            0 <= a < match_ids(front).len() && 0 <= b < match_ids(front).len() && a
                != b implies match_ids(front)[a] != match_ids(front)[b] by {
            assert(match_ids(duels)[a] != match_ids(duels)[b]);
        }
        lemma_stays_open(front, closing);
        let kept_front = front.filter(pred);
        assert forall|k: int| 0 <= k < kept.len() implies duels.contains(#[trigger] kept[k])
            && !closing.contains(kept[k].duel_id) by {
            if k < kept_front.len() {
                assert(kept[k] == kept_front[k]);
                assert(front.contains(kept_front[k]));
                let w = choose|w: int| 0 <= w < front.len() && front[w] == kept_front[k];
                assert(duels[w] == kept[k]);
            } else {
                assert(kept[k] == last);
                assert(duels[duels.len() - 1] == last);
            }
        }
        assert forall|k: int|
            0 <= k < duels.len() && !closing.contains((#[trigger] duels[k]).duel_id,
            ) implies kept.contains(duels[k]) by {
            if k < front.len() {
                assert(front[k] == duels[k]);
                assert(kept_front.contains(front[k]));
                let w = choose|w: int| 0 <= w < kept_front.len() && kept_front[w] == front[k];
                assert(kept[w] == duels[k]);
            } else {
                assert(kept[kept.len() - 1] == duels[k]);
            }
        }
        assert forall|a: int, b: int|
            0 <= a < match_ids(kept).len() && 0 <= b < match_ids(kept).len() && a
                != b implies match_ids(kept)[a] != match_ids(kept)[b] by {
            if a < kept_front.len() && b < kept_front.len() {
                assert(match_ids(kept_front)[a] != match_ids(kept_front)[b]);
            } else {
                let c = if a < kept_front.len() { a } else { b };
                assert(front.contains(kept_front[c]));
                let w = choose|w: int| 0 <= w < front.len() && front[w] == kept_front[c];
                assert(match_ids(duels)[w] != match_ids(duels)[duels.len() - 1]);
            }
        }
    }
}

/// Closing matches keeps the registry well formed.
pub proof fn lemma_closed_wf(data: DataView, closing: Set<usize>)
    requires
        data.wf(),
    ensures
        data.closed(closing).wf(),
{
    let after = data.closed(closing);
    lemma_stays_open(data.duels, closing);
    assert(ids_of(after.users) =~= ids_of(data.users));
    assert forall|k: int| 0 <= k < after.duels.len() implies (#[trigger] after.duels[k]).wf() by {
        assert(data.duels.contains(after.duels[k]));
    }
    assert forall|k: int, j: int|
        0 <= k < after.duels.len() && 0 <= j < after.duels[k].players.len() implies after.stamped(
        (#[trigger] after.duels[k].players[j]).user_id,
        after.duels[k].duel_id,
    ) by {
        assert(data.duels.contains(after.duels[k]));
        let w = choose|w: int| 0 <= w < data.duels.len() && data.duels[w] == after.duels[k];
        assert(data.stamped(data.duels[w].players[j].user_id, data.duels[w].duel_id));
        let i = choose|i: int|
            0 <= i < data.users.len() && (#[trigger] data.users[i]).user_id
                == data.duels[w].players[j].user_id && data.users[i].duel_id == Some(
                data.duels[w].duel_id,
            );
        assert(after.users[i] == data.users[i]);
    }
    assert forall|i: int|
        0 <= i < after.users.len() && (#[trigger] after.users[i]).duel_id is Some implies after.listed(
        after.users[i].duel_id.unwrap(),
        after.users[i].user_id,
    ) by {
        let id = data.users[i].duel_id.unwrap();
        let uid = data.users[i].user_id;
        assert(data.listed(id, uid));
        let k = choose|k: int|
            0 <= k < data.duels.len() && (#[trigger] data.duels[k]).duel_id == id && data.in_roster(
                k,
                uid,
            );
        assert(after.duels.contains(data.duels[k]));
        let w = choose|w: int| 0 <= w < after.duels.len() && after.duels[w] == data.duels[k];
        assert(after.in_roster(w, uid));
    }
}

/// Whether some participant of `users` has id `uid`.
pub fn has_id(users: &Vec<User>, uid: u64) -> (b: bool)
    ensures
        b == ids_of(users.deep_view()).contains(uid),
{
    let mut i: usize = 0;
    while i < users.len()
        invariant
            i <= users.len(),
            forall|j: int| 0 <= j < i ==> ids_of(users.deep_view())[j] != uid,
        decreases users.len() - i,
    {
        if users[i].user_id == uid {
            assert(ids_of(users.deep_view())[i as int] == uid);
            return true;
        }
        i += 1;
    }
    false
}

/// Whether some participant of `users` refers to match `id`.
pub fn has_reference(users: &Vec<User>, id: usize) -> (b: bool)
    ensures
        b == refers_to(users.deep_view(), id),
{
    let mut i: usize = 0;
    while i < users.len()
        invariant
            i <= users.len(),
            forall|j: int| 0 <= j < i ==> (#[trigger] users.deep_view()[j]).duel_id != Some(id),
        decreases users.len() - i,
    {
        if users[i].duel_id == Some(id) {
            assert(users.deep_view()[i as int].duel_id == Some(id));
            return true;
        }
        i += 1;
    }
    false
}

/// Whether no id occurs twice among `users`.
pub fn distinct_ids(users: &Vec<User>) -> (b: bool)
    ensures
        b == ids_of(users.deep_view()).no_duplicates(),
{
    let ghost ids = ids_of(users.deep_view());
    let mut i: usize = 0;
    while i < users.len()
        invariant
            i <= users.len(),
            ids == ids_of(users.deep_view()),
            forall|a: int, b: int| 0 <= a < b < i ==> ids[a] != ids[b],
        decreases users.len() - i,
    {
        let mut j: usize = 0;
        while j < i
            invariant
                j <= i < users.len(),
                ids == ids_of(users.deep_view()),
                forall|a: int| 0 <= a < j ==> ids[a] != ids[i as int],
            decreases i - j,
        {
            if users[j].user_id == users[i].user_id {
                assert(ids[j as int] == ids[i as int]);
                return false;
            }
            j += 1;
        }
        i += 1;
    }
    true
}

impl Data {
    /// Whether a participant with id `uid` is registered and free to join
    /// a match.
    pub fn available(&self, uid: u64) -> (b: bool)
        ensures
            b == self@.available(uid),
    {
        let mut found = false;
        let mut i: usize = 0;
        while i < self.data.len()
            invariant
                i <= self.data.len(),
                found <==> exists|j: int| 0 <= j < i && ids_of(self@.users)[j] == uid,
                forall|j: int|
                    0 <= j < i && (#[trigger] self@.users[j]).user_id == uid
                        ==> self@.users[j].duel_id is None,
            decreases self.data.len() - i,
        {
            if self.data[i].user_id == uid {
                if self.data[i].duel_id.is_some() {
                    assert(self@.users[i as int].user_id == uid);
                    return false;
                }
                assert(ids_of(self@.users)[i as int] == uid);
                found = true;
            }
            i += 1;
        }
        found
    }

    /// Whether a match can be opened for `users`.
    pub fn can_host(&self, users: &Vec<User>) -> (b: bool)
        ensures
            b == self@.can_host(ids_of(users.deep_view())),
    {
        if !distinct_ids(users) {
            return false;
        }
        let ghost roster = ids_of(users.deep_view());
        let mut j: usize = 0;
        while j < users.len()
            invariant
                j <= users.len(),
                roster == ids_of(users.deep_view()),
                forall|a: int| 0 <= a < j ==> self@.available(#[trigger] roster[a]),
            decreases users.len() - j,
        {
            if !self.available(users[j].user_id) {
                assert(roster[j as int] == users[j as int].user_id);
                return false;
            }
            j += 1;
        }
        true
    }
}

/// Whether `id` is one of `ids`.
pub fn has_number(ids: &Vec<usize>, id: usize) -> (b: bool)
    ensures
        b == ids@.contains(id),
{
    let mut i: usize = 0;
    while i < ids.len()
        invariant
            i <= ids.len(),
            forall|j: int| 0 <= j < i ==> ids[j] != id,
        decreases ids.len() - i,
    {
        if ids[i] == id {
            return true;
        }
        i += 1;
    }
    false
}

/// The identities of the matches that `users` refer to.
fn references_of(users: &Vec<User>) -> (ids: Vec<usize>)
    ensures
        ids@.to_set() == references(users.deep_view()),
{
    let ghost all = users.deep_view();
    let mut ids: Vec<usize> = Vec::new();
    let mut i: usize = 0;
    while i < users.len()
        invariant
            i <= users.len(),
            all == users.deep_view(),
            forall|id: usize| ids@.contains(id) <==> refers_to(all.take(i as int), id),
        decreases users.len() - i,
    {
        let ghost before = ids@;
        let ghost prior = all.take(i as int);
        let ghost next = all.take(i + 1);
        assert(forall|j: int| 0 <= j < i ==> prior[j] == next[j]);
        assert(next[i as int] == all[i as int]);
        match users[i].duel_id {
            Some(id) => {
                ids.push(id);
                assert forall|x: usize| ids@.contains(x) <==> refers_to(next, x) by {
                    if ids@.contains(x) {
                        let w = choose|w: int| 0 <= w < ids@.len() && ids@[w] == x;
                        if w < before.len() {
                            assert(before[w] == x);
                            assert(before.contains(x));
                            let j = choose|j: int|
                                0 <= j < prior.len() && (#[trigger] prior[j]).duel_id == Some(x);
                            assert(next[j].duel_id == Some(x));
                        } else {
                            assert(next[i as int].duel_id == Some(x));
                        }
                    }
                    if refers_to(next, x) {
                        let j = choose|j: int|
                            0 <= j < next.len() && (#[trigger] next[j]).duel_id == Some(x);
                        if j < i {
                            assert(prior[j].duel_id == Some(x));
                            assert(before.contains(x));
                            let w = choose|w: int| 0 <= w < before.len() && before[w] == x;
                            assert(ids@[w] == x);
                        } else {
                            assert(users[i as int].duel_id == Some(x));
                            assert(ids@[before.len() as int] == x);
                        }
                    }
                }
            },
            None => {
                assert forall|x: usize| ids@.contains(x) <==> refers_to(next, x) by {
                    if refers_to(prior, x) {
                        let j = choose|j: int|
                            0 <= j < prior.len() && (#[trigger] prior[j]).duel_id == Some(x);
                        assert(next[j].duel_id == Some(x));
                    }
                    if refers_to(next, x) {
                        let j = choose|j: int|
                            0 <= j < next.len() && (#[trigger] next[j]).duel_id == Some(x);
                        assert(prior[j].duel_id == Some(x));
                    }
                }
            },
        }
        i += 1;
    }
    assert(all.take(i as int) =~= all);
    assert(ids@.to_set() =~= references(all));
    ids
}

impl Data {
    /// Opens a match for `users`, as one step: every one of `users` must be
    /// registered and in no match, none may be named twice, and the setup
    /// must be a valid one; then the match gets the smallest unused identity,
    /// is appended to the matches, and each of `users` gets a reference to
    /// it. Otherwise nothing changes. The match is a lockout where
    /// `problems_score` is given, else a duel.
    pub fn open_match(
        &mut self,
        users: &Vec<User>,
        problems: &Vec<Problem>,
        duration: Option<u64>,
        problems_score: Option<&Vec<u32>>,
        now: u64,
        channel_id: u64,
    ) -> (r: Result<usize, MatchError>)
        ensures
            ({
                let points = match problems_score {
                    Some(s) => Some(s@),
                    None => None,
                };
                let fits = old(self)@.can_host(ids_of(users.deep_view())) && valid_setup(
                    problems.deep_view(),
                    duration,
                    points,
                );
                match r {
                    Ok(id) => {
                        &&& fits
                        &&& is_smallest_free(match_ids(old(self)@.duels), id)
                        &&& final(self)@ == old(self)@.opened(
                            new_match(
                                id,
                                users.deep_view(),
                                problems.deep_view(),
                                duration,
                                points,
                                now,
                                channel_id,
                            ),
                        )
                    },
                    Err(e) => e == MatchError::InvariantViolation && !fits && final(self)@ == old(
                        self,
                    )@,
                }
            }),
            old(self)@.wf() ==> final(self)@.wf(),
    {
        let lockout = problems_score.is_some();
        let setup_ok = problems.len() >= 1 && match problems_score {
            Some(s) => duration.is_some() && s.len() == problems.len() && checked_total(s).is_some(),
            None => duration.is_none() && problems.len() == 1,
        };
        if !setup_ok || !self.can_host(users) {
            return Err(MatchError::InvariantViolation);
        }
        let id = generate_duel_id(&self.duels);
        let ghost before = self@;
        let ghost points = match problems_score {
            Some(s) => Some(s@),
            None => None,
        };
        let ghost m = new_match(id, users.deep_view(), problems.deep_view(), duration, points, now, channel_id);
        let ghost roster = ids_of(users.deep_view());
        let mut stamped: Vec<User> = Vec::new();
        let mut i: usize = 0;
        while i < self.data.len()
            invariant
                i <= self.data.len(),
                self@ == before,
                roster == ids_of(users.deep_view()),
                stamped.len() == i,
                forall|a: int| 0 <= a < i ==> stamped[a]@ == before.stamped_users(roster, id)[a],
            decreases self.data.len() - i,
        {
            let mut u = self.data[i].clone();
            if has_id(users, u.user_id) {
                u.duel_id = Some(id);
            }
            stamped.push(u);
            i += 1;
        }
        let mut players: Vec<User> = Vec::new();
        let mut j: usize = 0;
        while j < users.len()
            invariant
                j <= users.len(),
                players.len() == j,
                forall|a: int| 0 <= a < j ==> players[a]@ == users[a]@.with_duel(Some(id)),
            decreases users.len() - j,
        {
            let mut u = users[j].clone();
            u.duel_id = Some(id);
            players.push(u);
            j += 1;
        }
        let scores = if lockout {
            let mut zeros: Vec<u32> = Vec::new();
            let mut z: usize = 0;
            while z < users.len()
                invariant
                    z <= users.len(),
                    zeros.len() == z,
                    forall|a: int| 0 <= a < z ==> zeros[a] == 0,
                decreases users.len() - z,
            {
                zeros.push(0);
                z += 1;
            }
            Some(zeros)
        } else {
            None
        };
        let duel = Duel {
            duel_id: id,
            players,
            begin_time: now,
            problems: clone_problems(problems),
            channel_id,
            duel_type: if lockout {
                DuelType::Lockout
            } else {
                DuelType::Duel
            },
            score_distribution: scores,
            match_duration: duration,
            problems_point: match problems_score {
                Some(s) => Some(clone_numbers(s)),
                None => None,
            },
        };
        proof {
            assert(duel@.players =~= m.players);
            if lockout {
                assert(duel@.score_distribution.unwrap() =~= m.score_distribution.unwrap());
                lemma_total_zeros(m.score_distribution.unwrap());
            }
            assert(duel@ == m);
            assert(m.roster() =~= roster);
            assert(stamped.deep_view() =~= before.stamped_users(roster, id));
            if before.wf() {
                lemma_opened_wf(before, m);
            }
        }
        let ghost old_duels = self.duels.deep_view();
        self.data = stamped;
        self.duels.push(duel);
        assert(self.duels.deep_view() =~= old_duels.push(m));
        Ok(id)
    }

    /// Closes the matches with an identity of `ids`: each leaves the
    /// registry, and every participant that referred to it is free again.
    pub fn close_matches(&mut self, ids: &Vec<usize>)
        ensures
            final(self)@ == old(self)@.closed(ids@.to_set()),
            old(self)@.wf() ==> final(self)@.wf(),
    {
        let ghost before = self@;
        let ghost closing = ids@.to_set();
        let ghost pred = stays_open(closing);
        let mut released: Vec<User> = Vec::new();
        let mut i: usize = 0;
        while i < self.data.len()
            invariant
                i <= self.data.len(),
                self@ == before,
                closing == ids@.to_set(),
                released.len() == i,
                forall|a: int| 0 <= a < i ==> released[a]@ == before.released_users(closing)[a],
            decreases self.data.len() - i,
        {
            let mut u = self.data[i].clone();
            let clear = match u.duel_id {
                Some(id) => has_number(ids, id),
                None => false,
            };
            if clear {
                u.duel_id = None;
            }
            released.push(u);
            i += 1;
        }
        let mut kept: Vec<Duel> = Vec::new();
        let mut k: usize = 0;
        assert(before.duels.take(0).filter(pred) =~= Seq::empty()) by {
            reveal(Seq::filter);
        }
        while k < self.duels.len()
            invariant
                k <= self.duels.len(),
                self@ == before,
                closing == ids@.to_set(),
                pred == stays_open(closing),
                kept.deep_view() == before.duels.take(k as int).filter(pred),
            decreases self.duels.len() - k,
        {
            let keep = !has_number(ids, self.duels[k].duel_id);
            proof {
                assert(before.duels.take(k + 1) =~= before.duels.take(k as int).push(
                    before.duels[k as int],
                ));
                before.duels.take(k as int).lemma_filter_push(before.duels[k as int], pred);
            }
            if keep {
                let ghost prior = kept.deep_view();
                kept.push(self.duels[k].clone());
                assert(kept.deep_view() =~= prior.push(before.duels[k as int]));
            }
            k += 1;
        }
        proof {
            assert(before.duels.take(k as int) =~= before.duels);
            assert(released.deep_view() =~= before.released_users(closing));
            if before.wf() {
                lemma_closed_wf(before, closing);
            }
        }
        self.data = released;
        self.duels = kept;
    }
}

/// Opens a match for `users`, or closes matches.
///
/// With `problems` given, a match is opened as [`Data::open_match`]
/// says; the result is its identity. Without `problems`, the matches
/// that `users` refer to are closed as [`remove_duel`] says.
pub fn edit_duel(
    data: &mut Data,
    users: &Vec<User>,
    problems: Option<&Vec<Problem>>,
    duration: Option<u64>,
    problems_score: Option<&Vec<u32>>,
    now: u64,
    channel_id: u64,
) -> (r: Result<Option<usize>, MatchError>)
    ensures
        match problems {
            Some(p) => {
                let points = match problems_score {
                    Some(s) => Some(s@),
                    None => None,
                };
                let fits = old(data)@.can_host(ids_of(users.deep_view())) && valid_setup(
                    p.deep_view(),
                    duration,
                    points,
                );
                match r {
                    Ok(Some(id)) => {
                        &&& fits
                        &&& is_smallest_free(match_ids(old(data)@.duels), id)
                        &&& final(data)@ == old(data)@.opened(
                            new_match(
                                id,
                                users.deep_view(),
                                p.deep_view(),
                                duration,
                                points,
                                now,
                                channel_id,
                            ),
                        )
                    },
                    Ok(None) => false,
                    Err(e) => e == MatchError::InvariantViolation && !fits && final(data)@
                        == old(data)@,
                }
            },
            None => r == Ok::<Option<usize>, MatchError>(None) && final(data)@ == old(
                data,
            )@.closed(references(users.deep_view())),
        },
        old(data)@.wf() ==> final(data)@.wf(),
{
    match problems {
        Some(p) => match data.open_match(users, p, duration, problems_score, now, channel_id) {
            Ok(id) => Ok(Some(id)),
            Err(e) => Err(e),
        },
        None => {
            let ids = references_of(users);
            data.close_matches(&ids);
            Ok(None)
        },
    }
}

/// Opens a duel on `problem` for `users`, under the conditions of
/// [`Data::open_match`].
pub fn create_duel(data: &mut Data, users: &Vec<User>, problem: &Problem, now: u64, channel_id: u64) -> (r:
    Result<usize, MatchError>)
    ensures
        match r {
            Ok(id) => {
                &&& old(data)@.can_host(ids_of(users.deep_view()))
                &&& is_smallest_free(match_ids(old(data)@.duels), id)
                &&& final(data)@ == old(data)@.opened(
                    new_match(
                        id,
                        users.deep_view(),
                        seq![problem@],
                        None,
                        None,
                        now,
                        channel_id,
                    ),
                )
            },
            Err(e) => e == MatchError::InvariantViolation && !old(data)@.can_host(
                ids_of(users.deep_view()),
            ) && final(data)@ == old(data)@,
        },
        old(data)@.wf() ==> final(data)@.wf(),
{
    let mut problems: Vec<Problem> = Vec::new();
    problems.push(problem.clone());
    assert(problems.deep_view() =~= seq![problem@]);
    data.open_match(users, &problems, None, None, now, channel_id)
}

/// Opens a lockout on `problems` for `users`, under the conditions of
/// [`Data::open_match`]. Every player starts with score zero.
pub fn create_lockout(
    data: &mut Data,
    users: &Vec<User>,
    problems: &Vec<Problem>,
    duration: u64,
    problems_point: &Vec<u32>,
    now: u64,
    channel_id: u64,
) -> (r: Result<usize, MatchError>)
    ensures
        match r {
            Ok(id) => {
                &&& old(data)@.can_host(ids_of(users.deep_view()))
                &&& valid_setup(problems.deep_view(), Some(duration), Some(problems_point@))
                &&& is_smallest_free(match_ids(old(data)@.duels), id)
                &&& final(data)@ == old(data)@.opened(
                    new_match(
                        id,
                        users.deep_view(),
                        problems.deep_view(),
                        Some(duration),
                        Some(problems_point@),
                        now,
                        channel_id,
                    ),
                )
            },
            Err(e) => e == MatchError::InvariantViolation && !(old(data)@.can_host(
                ids_of(users.deep_view()),
            ) && valid_setup(problems.deep_view(), Some(duration), Some(problems_point@)))
                && final(data)@ == old(data)@,
        },
        old(data)@.wf() ==> final(data)@.wf(),
{
    data.open_match(users, problems, Some(duration), Some(problems_point), now, channel_id)
}

/// Closes every match that one of `users` refers to: the match leaves
/// the registry, and every participant that referred to it is free
/// again.
pub fn remove_duel(data: &mut Data, users: &Vec<User>)
    ensures
        final(data)@ == old(data)@.closed(references(users.deep_view())),
        old(data)@.wf() ==> final(data)@.wf(),
{
    let ids = references_of(users);
    data.close_matches(&ids);
}

/// Closes every match that one of `users` refers to, as
/// [`remove_duel`] does.
pub fn remove_lockout(data: &mut Data, users: &Vec<User>)
    ensures
        final(data)@ == old(data)@.closed(references(users.deep_view())),
        old(data)@.wf() ==> final(data)@.wf(),
{
    remove_duel(data, users);
}

impl Data {
    /// Closes the match with identity `id`.
    pub fn remove_match(&mut self, id: usize)
        ensures
            final(self)@ == old(self)@.closed(set![id]),
            old(self)@.wf() ==> final(self)@.wf(),
    {
        let mut ids: Vec<usize> = Vec::new();
        ids.push(id);
        assert(ids@.to_set() =~= set![id]) by {
            assert(ids@[0] == id);
        }
        self.close_matches(&ids);
    }
}

impl DataView {
    /// The position of the first match with identity `id`, if there is one.
    pub open spec fn match_position(self, id: usize) -> Option<int> {
        match_ids(self.duels).index_of_first(id)
    }

    /// `m` can take the place of the stored match of its identity: there is
    /// one, `m` is well formed, and every player of `m` is one of its players.
    pub open spec fn can_store(self, m: DuelView) -> bool {
        &&& m.wf()
        &&& self.match_position(m.duel_id) matches Some(k)
        &&& forall|j: int|
            0 <= j < m.roster().len() ==> self.duels[k].roster().contains(#[trigger] m.roster()[j])
    }

    /// The registry after `m` took the place of the stored match of its
    /// identity: the participants that referred to it and are players no
    /// more are free again.
    pub open spec fn stored(self, m: DuelView) -> DataView {
        match self.match_position(m.duel_id) {
            Some(k) => DataView {
                users: Seq::new(
                    self.users.len(),
                    |i: int|
                        if self.users[i].duel_id == Some(m.duel_id) && !m.roster().contains(
                            self.users[i].user_id,
                        ) {
                            self.users[i].with_duel(None)
                        } else {
                            self.users[i]
                        },
                ),
                duels: self.duels.update(k, m),
            },
            None => self,
        }
    }
}

/// Storing a match keeps the registry well formed.
pub proof fn lemma_stored_wf(data: DataView, m: DuelView)
    requires
        data.wf(),
        data.can_store(m),
    ensures
        data.stored(m).wf(),
{
    let after = data.stored(m);
    let id = m.duel_id;
    match_ids(data.duels).index_of_first_ensures(id);
    let pos = data.match_position(id).unwrap();
    assert(match_ids(data.duels)[pos] == id);
    assert(ids_of(after.users) =~= ids_of(data.users));
    assert(match_ids(after.duels) =~= match_ids(data.duels));
    assert forall|k: int, j: int|
        0 <= k < after.duels.len() && 0 <= j < after.duels[k].players.len() implies after.stamped(
        (#[trigger] after.duels[k].players[j]).user_id,
        after.duels[k].duel_id,
    ) by {
        let uid = after.duels[k].players[j].user_id;
        if k == pos {
            assert(m.roster()[j] == uid);
            assert(data.duels[pos].roster().contains(m.roster()[j]));
            let w = choose|w: int|
                0 <= w < data.duels[pos].roster().len() && data.duels[pos].roster()[w] == uid;
            assert(data.stamped(data.duels[pos].players[w].user_id, data.duels[pos].duel_id));
            let i = choose|i: int|
                0 <= i < data.users.len() && (#[trigger] data.users[i]).user_id == uid
                    && data.users[i].duel_id == Some(id);
            assert(after.users[i] == data.users[i]);
        } else {
            assert(data.stamped(data.duels[k].players[j].user_id, data.duels[k].duel_id));
            let i = choose|i: int|
                0 <= i < data.users.len() && (#[trigger] data.users[i]).user_id == uid
                    && data.users[i].duel_id == Some(data.duels[k].duel_id);
            assert(match_ids(data.duels)[k] != match_ids(data.duels)[pos]);
            assert(after.users[i] == data.users[i]);
        }
    }
    assert forall|i: int|
        0 <= i < after.users.len() && (#[trigger] after.users[i]).duel_id is Some implies after.listed(
        after.users[i].duel_id.unwrap(),
        after.users[i].user_id,
    ) by {
        let uid = data.users[i].user_id;
        let x = data.users[i].duel_id.unwrap();
        if x == id {
            assert(m.roster().contains(uid));
            assert(after.duels[pos].duel_id == id && after.in_roster(pos, uid));
        } else {
            assert(data.listed(x, uid));
            let k = choose|k: int|
                0 <= k < data.duels.len() && (#[trigger] data.duels[k]).duel_id == x
                    && data.in_roster(k, uid);
            assert(after.duels[k] == data.duels[k]);
            assert(after.in_roster(k, uid));
        }
    }
}

impl Duel {
    /// Whether the match is well formed.
    pub fn is_well_formed(&self) -> (b: bool)
        ensures
            b == self@.wf(),
    {
        if !distinct_ids(&self.players) {
            return false;
        }
        match self.duel_type {
            DuelType::Duel => self.problems.len() == 1 && self.score_distribution.is_none()
                && self.problems_point.is_none() && self.match_duration.is_none(),
            DuelType::Lockout => match (&self.score_distribution, &self.problems_point) {
                (Some(scores), Some(points)) => {
                    if self.match_duration.is_none() || scores.len() != self.players.len()
                        || points.len() != self.problems.len() {
                        return false;
                    }
                    proof {
                        lemma_total_nonnegative(scores@);
                        lemma_total_nonnegative(points@);
                    }
                    match (checked_total(scores), checked_total(points)) {
                        (Some(s), Some(p)) => s <= u32::MAX - p,
                        _ => false,
                    }
                },
                _ => false,
            },
        }
    }
}

impl Data {
    /// The position of the first match with identity `id`.
    pub fn match_position(&self, id: usize) -> (r: Option<usize>)
        ensures
            self@.match_position(id) == match r {
                Some(k) => Some(k as int),
                None => None,
            },
            r matches Some(k) ==> k < self.duels.len() && self@.duels[k as int].duel_id == id,
    {
        let ghost ids = match_ids(self@.duels);
        let mut k: usize = 0;
        while k < self.duels.len()
            invariant
                k <= self.duels.len(),
                ids == match_ids(self@.duels),
                forall|m: int| 0 <= m < k ==> ids[m] != id,
            decreases self.duels.len() - k,
        {
            if self.duels[k].duel_id == id {
                proof {
                    assert(ids[k as int] == id);
                    ids.index_of_first_ensures(id);
                }
                return Some(k);
            }
            k += 1;
        }
        proof {
            ids.index_of_first_ensures(id);
        }
        None
    }

    /// Puts `duel` in the place of the stored match of its identity, so that
    /// the registry shows its scores, point values and roster. A participant
    /// that left the roster is free again. Where the registry holds no such
    /// match, or `duel` is not well formed or lists a player that the stored
    /// match does not, nothing changes.
    pub fn store_duel(&mut self, duel: &Duel) -> (r: Result<(), MatchError>)
        ensures
            match r {
                Ok(_) => old(self)@.can_store(duel@) && final(self)@ == old(self)@.stored(duel@),
                Err(e) => e == MatchError::InvariantViolation && !old(self)@.can_store(duel@)
                    && final(self)@ == old(self)@,
            },
            old(self)@.wf() ==> final(self)@.wf(),
    {
        if !duel.is_well_formed() {
            return Err(MatchError::InvariantViolation);
        }
        let k = match self.match_position(duel.duel_id) {
            Some(k) => k,
            None => {
                return Err(MatchError::InvariantViolation);
            },
        };
        let ghost before = self@;
        let ghost m = duel@;
        let mut j: usize = 0;
        while j < duel.players.len()
            invariant
                j <= duel.players.len(),
                self@ == before,
                m == duel@,
                k < self.duels.len(),
                before.match_position(m.duel_id) == Some(k as int),
                forall|a: int|
                    0 <= a < j ==> before.duels[k as int].roster().contains(#[trigger] m.roster()[a]),
            decreases duel.players.len() - j,
        {
            if !self.duels[k].has_player(duel.players[j].user_id) {
                assert(m.roster()[j as int] == duel.players[j as int].user_id);
                return Err(MatchError::InvariantViolation);
            }
            j += 1;
        }
        let mut users: Vec<User> = Vec::new();
        let mut i: usize = 0;
        while i < self.data.len()
            invariant
                i <= self.data.len(),
                self@ == before,
                m == duel@,
                before.match_position(m.duel_id) == Some(k as int),
                users.len() == i,
                forall|a: int| 0 <= a < i ==> users[a]@ == before.stored(m).users[a],
            decreases self.data.len() - i,
        {
            let mut u = self.data[i].clone();
            if u.duel_id == Some(duel.duel_id) && !duel.has_player(u.user_id) {
                u.duel_id = None;
            }
            users.push(u);
            i += 1;
        }
        proof {
            assert(users.deep_view() =~= before.stored(m).users);
            if before.wf() {
                lemma_stored_wf(before, m);
            }
        }
        let ghost old_duels = self.duels.deep_view();
        self.data = users;
        self.duels.set(k, duel.clone());
        assert(self.duels.deep_view() =~= old_duels.update(k as int, m));
        Ok(())
    }
}
} // verus!
