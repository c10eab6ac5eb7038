//! Participants, matches and the registry that holds them.
//!
//! The registry is the one place where a match gets its identity and where
//! a participant is tied to the match it plays in. Times are seconds since
//! the epoch, durations are seconds.

use crate::problem::{clone_problems, Problem, ProblemView};
use crate::tally::total;
use vstd::prelude::*;

verus! {

/// A registered participant.
#[derive(Debug)]
pub struct User {
    pub user_id: u64,
    pub handle: String,
    pub challenge_score: u64,
    pub active_challenge: Option<Problem>,
    pub last_time_since_challenge: Option<u64>,
    pub duel_id: Option<usize>,
}

/// The mathematical value of a [`User`].
pub struct UserView {
    pub user_id: u64,
    pub handle: Seq<char>,
    pub challenge_score: u64,
    pub active_challenge: Option<ProblemView>,
    pub last_time_since_challenge: Option<u64>,
    pub duel_id: Option<usize>,
}

impl View for User {
    type V = UserView;

    open spec fn view(&self) -> UserView {
        UserView {
            user_id: self.user_id,
            handle: self.handle@,
            challenge_score: self.challenge_score,
            active_challenge: match self.active_challenge {
                Some(p) => Some(p@),
                None => None,
            },
            last_time_since_challenge: self.last_time_since_challenge,
            duel_id: self.duel_id,
        }
    }
}

impl DeepView for User {
    type V = UserView;

    open spec fn deep_view(&self) -> UserView {
        self@
    }
}

impl Clone for User {
    fn clone(&self) -> (r: Self)
        ensures
            r@ == self@,
    {
        User {
            user_id: self.user_id,
            handle: self.handle.clone(),
            challenge_score: self.challenge_score,
            active_challenge: match &self.active_challenge {
                Some(p) => Some(p.clone()),
                None => None,
            },
            last_time_since_challenge: self.last_time_since_challenge,
            duel_id: self.duel_id,
        }
    }
}

impl UserView {
    /// The same participant with another match reference.
    pub open spec fn with_duel(self, duel_id: Option<usize>) -> UserView {
        UserView { duel_id, ..self }
    }
}

/// Copies a list of participants.
pub fn clone_users(v: &Vec<User>) -> (r: Vec<User>)
    ensures
        r.deep_view() == v.deep_view(),
{
    let mut r: Vec<User> = Vec::new();
    let mut i: usize = 0;
    while i < v.len()
        invariant
            i <= v.len(),
            r.len() == i,
            forall|j: int| 0 <= j < i ==> r[j]@ == v[j]@,
        decreases v.len() - i,
    {
        r.push(v[i].clone());
        i += 1;
    }
    assert(r.deep_view() =~= v.deep_view());
    r
}

/// Copies a list of numbers.
pub fn clone_numbers(v: &Vec<u32>) -> (r: Vec<u32>)
    ensures
        r@ == v@,
{
    let mut r: Vec<u32> = Vec::new();
    let mut i: usize = 0;
    while i < v.len()
        invariant
            i <= v.len(),
            r@ == v@.take(i as int),
        decreases v.len() - i,
    {
        r.push(v[i]);
        assert(v@.take(i + 1) =~= v@.take(i as int).push(v[i as int]));
        i += 1;
    }
    assert(v@.take(v.len() as int) =~= v@);
    r
}

/// The two kinds of match.
#[derive(Clone, Copy, Debug, PartialEq, Eq, Structural)]
pub enum DuelType {
    /// One shared problem; the first to solve it wins.
    Duel,
    /// A ladder of problems, each worth points to the first who solves it.
    Lockout,
}

/// A match.
///
/// For a lockout, `score_distribution` holds one score for each player, in
/// the order of `players`, and `problems_point` one value for each problem,
/// zero once the problem is claimed.
#[derive(Debug)]
pub struct Duel {
    pub duel_id: usize,
    pub players: Vec<User>,
    pub begin_time: u64,
    pub problems: Vec<Problem>,
    pub channel_id: u64,
    pub duel_type: DuelType,
    pub score_distribution: Option<Vec<u32>>,
    pub match_duration: Option<u64>,
    pub problems_point: Option<Vec<u32>>,
}

/// The mathematical value of a [`Duel`].
pub struct DuelView {
    pub duel_id: usize,
    pub players: Seq<UserView>,
    pub begin_time: u64,
    pub problems: Seq<ProblemView>,
    pub channel_id: u64,
    pub duel_type: DuelType,
    pub score_distribution: Option<Seq<u32>>,
    pub match_duration: Option<u64>,
    pub problems_point: Option<Seq<u32>>,
}

impl View for Duel {
    type V = DuelView;

    open spec fn view(&self) -> DuelView {
        DuelView {
            duel_id: self.duel_id,
            players: self.players.deep_view(),
            begin_time: self.begin_time,
            problems: self.problems.deep_view(),
            channel_id: self.channel_id,
            duel_type: self.duel_type,
            score_distribution: match self.score_distribution {
                Some(s) => Some(s@),
                None => None,
            },
            match_duration: self.match_duration,
            problems_point: match self.problems_point {
                Some(s) => Some(s@),
                None => None,
            },
        }
    }
}

impl DeepView for Duel {
    type V = DuelView;

    open spec fn deep_view(&self) -> DuelView {
        self@
    }
}

impl Clone for Duel {
    fn clone(&self) -> (r: Self)
        ensures
            r@ == self@,
    {
        Duel {
            duel_id: self.duel_id,
            players: clone_users(&self.players),
            begin_time: self.begin_time,
            problems: clone_problems(&self.problems),
            channel_id: self.channel_id,
            duel_type: self.duel_type,
            score_distribution: match &self.score_distribution {
                Some(s) => Some(clone_numbers(s)),
                None => None,
            },
            match_duration: self.match_duration,
            problems_point: match &self.problems_point {
                Some(s) => Some(clone_numbers(s)),
                None => None,
            },
        }
    }
}

/// The participant ids of a list of participants.
pub open spec fn ids_of(users: Seq<UserView>) -> Seq<u64> {
    Seq::new(users.len(), |i: int| users[i].user_id)
}

impl DuelView {
    /// The ids of the players, in roster order.
    pub open spec fn roster(self) -> Seq<u64> {
        ids_of(self.players)
    }

    /// What holds of every match: no player is listed twice; a duel has one
    /// problem and none of the lockout's vectors; a lockout has a score for
    /// each player, a point value for each problem and a duration, and its
    /// scores and unclaimed points together fit the score type.
    pub open spec fn wf(self) -> bool {
        &&& self.roster().no_duplicates()
        &&& match self.duel_type {
            DuelType::Duel => {
                &&& self.problems.len() == 1
                &&& self.score_distribution is None
                &&& self.problems_point is None
                &&& self.match_duration is None
            },
            DuelType::Lockout => {
                &&& self.score_distribution matches Some(scores)
                &&& self.problems_point matches Some(points)
                &&& self.match_duration is Some
                &&& scores.len() == self.players.len()
                &&& points.len() == self.problems.len()
                &&& total(scores) + total(points) <= u32::MAX
            },
        }
    }
}

impl DuelView {
    /// The match with the point value of problem `index` set to zero.
    pub open spec fn with_point_cleared(self, index: int) -> DuelView {
        match self.problems_point {
            Some(points) if 0 <= index < points.len() => DuelView {
                problems_point: Some(points.update(index, 0u32)),
                ..self
            },
            _ => self,
        }
    }

    /// The match with `del` added to the score of player `index`, as far
    /// as the score type reaches.
    pub open spec fn with_score_added(self, index: int, del: u32) -> DuelView {
        match self.score_distribution {
            Some(scores) if 0 <= index < scores.len() => DuelView {
                score_distribution: Some(
                    scores.update(
                        index,
                        if scores[index] + del <= u32::MAX {
                            (scores[index] + del) as u32
                        } else {
                            u32::MAX
                        },
                    ),
                ),
                ..self
            },
            _ => self,
        }
    }

    /// The match without the first player whose id is `uid`, and without
    /// that player's score.
    pub open spec fn without_player(self, uid: u64) -> DuelView {
        match self.roster().index_of_first(uid) {
            Some(index) => DuelView {
                players: self.players.remove(index),
                score_distribution: match self.score_distribution {
                    Some(scores) if index < scores.len() => Some(scores.remove(index)),
                    other => other,
                },
                ..self
            },
            None => self,
        }
    }
}

/// Taking a player out of a well-formed match leaves a well-formed match,
/// unless it was a duel's — a duel stays one whatever its roster.
pub proof fn lemma_without_player_wf(duel: DuelView, uid: u64)
    requires
        duel.wf(),
    ensures
        duel.without_player(uid).wf(),
{
    let roster = duel.roster();
    roster.index_of_first_ensures(uid);
    match roster.index_of_first(uid) {
        Some(index) => {
            let after = duel.without_player(uid);
            assert(after.roster() =~= roster.remove(index));
            assert forall|a: int, b: int|
                0 <= a < after.roster().len() && 0 <= b < after.roster().len() && a
                    != b implies after.roster()[a] != after.roster()[b] by {
                let a0 = if a < index { a } else { a + 1 };
                let b0 = if b < index { b } else { b + 1 };
                assert(after.roster()[a] == roster[a0]);
                assert(after.roster()[b] == roster[b0]);
            }
            if duel.duel_type == DuelType::Lockout {
                let scores = duel.score_distribution.unwrap();
                crate::tally::lemma_total_remove(scores, index);
            }
        },
        None => {},
    }
}

impl Duel {
    /// Marks problem `index` of a lockout as claimed: its point value
    /// becomes zero. Without point values, or with no such problem, nothing
    /// changes.
    pub fn set_point(&mut self, index: usize)
        ensures
            final(self)@ == old(self)@.with_point_cleared(index as int),
            old(self)@.wf() ==> final(self)@.wf(),
    {
        match &mut self.problems_point {
            Some(points) => {
                if index < points.len() {
                    proof {
                        crate::tally::lemma_total_update(points@, index as int, 0);
                    }
                    points.set(index, 0);
                }
            },
            None => {},
        }
    }

    /// Adds `del` to the score of player `index` of a lockout; a score
    /// stops at the largest value of its type. Without scores, or with no
    /// such player, nothing changes.
    pub fn add_score(&mut self, index: usize, del: u32)
        ensures
            final(self)@ == old(self)@.with_score_added(index as int, del),
    {
        match &mut self.score_distribution {
            Some(scores) => {
                if index < scores.len() {
                    let sum = if scores[index] <= u32::MAX - del {
                        scores[index] + del
                    } else {
                        u32::MAX
                    };
                    scores.set(index, sum);
                }
            },
            None => {},
        }
    }

    /// The position in the roster of the first player with id `user_id`.
    pub fn player_position(&self, user_id: u64) -> (r: Option<usize>)
        ensures
            self@.roster().index_of_first(user_id) == match r {
                Some(i) => Some(i as int),
                None => None,
            },
            r matches Some(i) ==> i < self.players.len() && self@.roster()[i as int] == user_id,
            r is None <==> !self@.roster().contains(user_id),
    {
        let ghost roster = self@.roster();
        let mut i: usize = 0;
        while i < self.players.len()
            invariant
                i <= self.players.len(),
                roster == self@.roster(),
                forall|j: int| 0 <= j < i ==> roster[j] != user_id,
            decreases self.players.len() - i,
        {
            if self.players[i].user_id == user_id {
                proof {
                    assert(roster[i as int] == user_id);
                    roster.index_of_first_ensures(user_id);
                }
                return Some(i);
            }
            i += 1;
        }
        proof {
            roster.index_of_first_ensures(user_id);
        }
        None
    }

    /// Whether a player with id `user_id` is in the roster.
    pub fn has_player(&self, user_id: u64) -> (b: bool)
        ensures
            b == self@.roster().contains(user_id),
    {
        self.player_position(user_id).is_some()
    }

    /// Takes the first player with id `user_id` out of the roster, and that
    /// player's score out of the scores. Without such a player nothing
    /// changes.
    pub fn remove_user(&mut self, user_id: u64)
        ensures
            final(self)@ == old(self)@.without_player(user_id),
            old(self)@.wf() ==> final(self)@.wf(),
    {
        proof {
            if self@.wf() {
                lemma_without_player_wf(self@, user_id);
            }
        }
        let ghost before = self@;
        match self.player_position(user_id) {
            Some(index) => {
                self.players.remove(index);
                assert(self.players.deep_view() =~= before.players.remove(index as int));
                match &mut self.score_distribution {
                    Some(scores) => {
                        if index < scores.len() {
                            scores.remove(index);
                        }
                    },
                    None => {},
                }
            },
            None => {},
        }
    }
}

/// The registry: the participants and the active matches.
#[derive(Debug)]
pub struct Data {
    pub data: Vec<User>,
    pub duels: Vec<Duel>,
}

/// The mathematical value of a [`Data`].
pub struct DataView {
    pub users: Seq<UserView>,
    pub duels: Seq<DuelView>,
}

impl View for Data {
    type V = DataView;

    open spec fn view(&self) -> DataView {
        DataView { users: self.data.deep_view(), duels: self.duels.deep_view() }
    }
}

impl Clone for Data {
    fn clone(&self) -> (r: Self)
        ensures
            r@ == self@,
    {
        Data { data: clone_users(&self.data), duels: get_duels(self) }
    }
}

/// The identities of a list of matches.
pub open spec fn match_ids(duels: Seq<DuelView>) -> Seq<usize> {
    Seq::new(duels.len(), |k: int| duels[k].duel_id)
}

/// `id` is the smallest number that is none of `ids`.
pub open spec fn is_smallest_free(ids: Seq<usize>, id: usize) -> bool {
    &&& !ids.contains(id)
    &&& forall|k: usize| k < id ==> #[trigger] ids.contains(k)
}

impl DataView {
    /// A participant with id `uid` is registered.
    pub open spec fn registered(self, uid: u64) -> bool {
        ids_of(self.users).contains(uid)
    }

    /// The position of the first participant with id `uid`.
    pub open spec fn position(self, uid: u64) -> int {
        ids_of(self.users).index_of_first(uid).unwrap()
    }

    /// The first record of the participant with id `uid`.
    pub open spec fn record(self, uid: u64) -> UserView {
        self.users[self.position(uid)]
    }

    /// A participant with id `uid` is registered with a reference to match `id`.
    pub open spec fn stamped(self, uid: u64, id: usize) -> bool {
        exists|i: int|
            0 <= i < self.users.len() && (#[trigger] self.users[i]).user_id == uid
                && self.users[i].duel_id == Some(id)
    }

    /// A participant with id `uid` is registered without a match reference.
    pub open spec fn free(self, uid: u64) -> bool {
        exists|i: int|
            0 <= i < self.users.len() && (#[trigger] self.users[i]).user_id == uid
                && self.users[i].duel_id is None
    }

    /// The match at position `k` lists participant `uid` in its roster.
    pub open spec fn in_roster(self, k: int, uid: u64) -> bool {
        self.duels[k].roster().contains(uid)
    }

    /// A match with identity `id` lists participant `uid` in its roster.
    pub open spec fn listed(self, id: usize, uid: u64) -> bool {
        exists|k: int|
            0 <= k < self.duels.len() && (#[trigger] self.duels[k]).duel_id == id && self.in_roster(
                k,
                uid,
            )
    }

    /// What holds of the registry at every moment: no account is registered
    /// twice, no two matches share an identity, every match is well formed,
    /// every player of a match is registered with a reference to that match,
    /// and every reference of a participant names a match that lists it.
    pub open spec fn wf(self) -> bool {
        &&& ids_of(self.users).no_duplicates()
        &&& match_ids(self.duels).no_duplicates()
        &&& forall|k: int| 0 <= k < self.duels.len() ==> (#[trigger] self.duels[k]).wf()
        &&& forall|k: int, j: int|
            0 <= k < self.duels.len() && 0 <= j < self.duels[k].players.len() ==> self.stamped(
                (#[trigger] self.duels[k].players[j]).user_id,
                self.duels[k].duel_id,
            )
        &&& forall|i: int|
            0 <= i < self.users.len() && (#[trigger] self.users[i]).duel_id is Some ==> self.listed(
                self.users[i].duel_id.unwrap(),
                self.users[i].user_id,
            )
    }
}

/// In a well-formed registry a participant has a match reference exactly
/// when some match lists it, and then no second match does.
pub proof fn lemma_reference_iff_in_one_roster(data: DataView, i: int)
    requires
        data.wf(),
        0 <= i < data.users.len(),
    ensures
        data.users[i].duel_id is Some <==> exists|k: int|
            0 <= k < data.duels.len() && #[trigger] data.in_roster(k, data.users[i].user_id),
        forall|k: int, m: int|
            0 <= k < data.duels.len() && 0 <= m < data.duels.len() && #[trigger] data.in_roster(
                k,
                data.users[i].user_id,
            ) && #[trigger] data.in_roster(m, data.users[i].user_id) ==> k == m,
        forall|k: int|
            0 <= k < data.duels.len() && #[trigger] data.in_roster(k, data.users[i].user_id)
                ==> data.users[i].duel_id == Some(data.duels[k].duel_id),
{
    let uid = data.users[i].user_id;
    assert forall|k: int|
        0 <= k < data.duels.len() && #[trigger] data.in_roster(
            k,
            uid,
        ) implies data.users[i].duel_id == Some(data.duels[k].duel_id) by {
        let j = choose|j: int|
            0 <= j < data.duels[k].roster().len() && data.duels[k].roster()[j] == uid;
        assert(data.stamped(data.duels[k].players[j].user_id, data.duels[k].duel_id));
        let w = choose|w: int|
            0 <= w < data.users.len() && (#[trigger] data.users[w]).user_id == uid
                && data.users[w].duel_id == Some(data.duels[k].duel_id);
        assert(ids_of(data.users)[w] == ids_of(data.users)[i]);
    }
    if data.users[i].duel_id is Some {
        assert(data.listed(data.users[i].duel_id.unwrap(), uid));
    }
    assert forall|k: int, m: int|
        0 <= k < data.duels.len() && 0 <= m < data.duels.len() && #[trigger] data.in_roster(k, uid)
            && #[trigger] data.in_roster(m, uid) implies k == m by {
        assert(match_ids(data.duels)[k] == match_ids(data.duels)[m]);
    }
}

fn has_match_id(duels: &Vec<Duel>, id: usize) -> (b: bool)
    ensures
        b == match_ids(duels.deep_view()).contains(id),
{
    let mut k: usize = 0;
    while k < duels.len()
        invariant
            k <= duels.len(),
            forall|m: int| 0 <= m < k ==> #[trigger] match_ids(duels.deep_view())[m] != id,
        decreases duels.len() - k,
    {
        if duels[k].duel_id == id {
            assert(match_ids(duels.deep_view())[k as int] == id);
            return true;
        }
        k += 1;
    }
    false
}

/// Among `n` numbers, one of `0..=n` is missing.
proof fn lemma_some_id_free(ids: Seq<usize>)
    requires
        ids.len() <= usize::MAX,
    ensures
        exists|k: usize| k <= ids.len() && !ids.contains(k),
{
    if forall|k: usize| k <= ids.len() ==> ids.contains(k) {
        let n = ids.len() as int;
        let as_ints = Seq::new(ids.len(), |m: int| ids[m] as int);
        let range = vstd::set_lib::set_int_range(0, n + 1);
        assert forall|x: int| range.contains(x) implies as_ints.to_set().contains(x) by {
            assert(ids.contains(x as usize));
            let m = choose|m: int| 0 <= m < ids.len() && ids[m] == x as usize;
            assert(as_ints[m] == x);
        }
        vstd::set_lib::lemma_int_range(0, n + 1);
        as_ints.lemma_cardinality_of_set();
        vstd::set_lib::lemma_len_subset(range, as_ints.to_set());
    }
}

/// The identity for the next match: the smallest number that no match of
/// `duels` has.
pub fn generate_duel_id(duels: &Vec<Duel>) -> (id: usize)
    ensures
        is_smallest_free(match_ids(duels.deep_view()), id),
        id <= duels.len(),
{
    let ghost ids = match_ids(duels.deep_view());
    let mut id: usize = 0;
    while id < duels.len()
        invariant
            id <= duels.len(),
            ids == match_ids(duels.deep_view()),
            forall|k: usize| k < id ==> #[trigger] ids.contains(k),
        decreases duels.len() - id,
    {
        if !has_match_id(duels, id) {
            return id;
        }
        id += 1;
    }
    proof {
        lemma_some_id_free(ids);
    }
    id
}

impl Data {
    /// A registry without participants and matches.
    pub fn new() -> (r: Data)
        ensures
            r@.users.len() == 0,
            r@.duels.len() == 0,
            r@.wf(),
    {
        let r = Data { data: Vec::new(), duels: Vec::new() };
        assert(r@.users =~= Seq::empty());
        assert(r@.duels =~= Seq::empty());
        r
    }

    /// The position of the first participant with id `user_id`.
    pub fn position_of(&self, user_id: u64) -> (r: Option<usize>)
        ensures
            match r {
                Some(i) => i < self@.users.len() && self@.users[i as int].user_id == user_id
                    && forall|j: int| 0 <= j < i ==> self@.users[j].user_id != user_id,
                None => !self@.registered(user_id),
            },
            r is Some <==> self@.registered(user_id),
            r matches Some(i) ==> self@.position(user_id) == i,
    {
        let mut i: usize = 0;
        while i < self.data.len()
            invariant
                i <= self.data.len(),
                forall|j: int| 0 <= j < i ==> self@.users[j].user_id != user_id,
            decreases self.data.len() - i,
        {
            if self.data[i].user_id == user_id {
                proof {
                    let ids = ids_of(self@.users);
                    assert(ids[i as int] == user_id);
                    ids.index_of_first_ensures(user_id);
                    let first = ids.index_of_first(user_id).unwrap();
                    if first < i {
                        assert(self@.users[first].user_id != user_id);
                    }
                }
                return Some(i);
            }
            i += 1;
        }
        assert forall|j: int| 0 <= j < ids_of(self@.users).len() implies ids_of(self@.users)[j]
            != user_id by {
            assert(self@.users[j].user_id != user_id);
        }
        None
    }
}

/// The active matches.
pub fn get_duels(data: &Data) -> (r: Vec<Duel>)
    ensures
        r.deep_view() == data@.duels,
{
    let mut r: Vec<Duel> = Vec::new();
    let mut k: usize = 0;
    while k < data.duels.len()
        invariant
            k <= data.duels.len(),
            r.len() == k,
            forall|m: int| 0 <= m < k ==> r[m]@ == data.duels[m]@,
        decreases data.duels.len() - k,
    {
        r.push(data.duels[k].clone());
        k += 1;
    }
    assert(r.deep_view() =~= data@.duels);
    r
}

/// The first match with identity `duel_id`.
pub fn get_duel(data: &Data, duel_id: usize) -> (r: Option<Duel>)
    ensures
        match r {
            Some(d) => exists|k: int|
                0 <= k < data@.duels.len() && data@.duels[k] == d@ && d@.duel_id == duel_id
                    && forall|m: int| 0 <= m < k ==> data@.duels[m].duel_id != duel_id,
            None => !match_ids(data@.duels).contains(duel_id),
        },
{
    let mut k: usize = 0;
    while k < data.duels.len()
        invariant
            k <= data.duels.len(),
            forall|m: int| 0 <= m < k ==> data@.duels[m].duel_id != duel_id,
        decreases data.duels.len() - k,
    {
        if data.duels[k].duel_id == duel_id {
            let d = data.duels[k].clone();
            assert(data@.duels[k as int] == d@);
            return Some(d);
        }
        k += 1;
    }
    assert forall|m: int| 0 <= m < match_ids(data@.duels).len() implies match_ids(
        data@.duels,
    )[m] != duel_id by {
        assert(data@.duels[m].duel_id != duel_id);
    }
    None
}
} // verus!
