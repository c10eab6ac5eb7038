//! Lockout scoring: the leaderboard, ranks, who claims a problem, and when
//! a lockout is decided.

use crate::catalog::{check_complete_problem_with_given_submission, solved_at};
use crate::order::{
    arrange, lemma_stable_order_exists, positions, precedes, sort_positions, stable_order,
};
use crate::problem::{Problem, ProblemView, Submission, SubmissionView};
use crate::registry::{Duel, DuelType, DuelView};
use crate::tally::{
    checked_total, lemma_total_bounds_member, lemma_total_nonnegative, lemma_total_update, total,
};
use vstd::prelude::*;

verus! {

/// The scores of a match, none for a match without scores.
pub open spec fn scores_of(d: DuelView) -> Seq<u32> {
    match d.score_distribution {
        Some(s) => s,
        None => Seq::empty(),
    }
}

/// The point values of a match, none for a match without point values.
pub open spec fn points_of(d: DuelView) -> Seq<u32> {
    match d.problems_point {
        Some(p) => p,
        None => Seq::empty(),
    }
}

/// The keys by which scores are ordered: the higher score has the lower key.
pub open spec fn score_keys(scores: Seq<u32>) -> Seq<u64> {
    Seq::new(scores.len(), |i: int| (u32::MAX - scores[i]) as u64)
}

/// The leaderboard of `scores`: the positions of the players by descending
/// score, players of equal score in roster order.
pub open spec fn leaderboard(scores: Seq<u32>) -> Seq<int> {
    stable_order(score_keys(scores))
}

/// The scores in leaderboard order.
pub open spec fn standing_scores(scores: Seq<u32>) -> Seq<u32> {
    arrange(scores, leaderboard(scores))
}

/// A leaderboard lists every player once, the higher score first and equal
/// scores in roster order.
pub proof fn lemma_leaderboard(scores: Seq<u32>)
    ensures
        leaderboard(scores).len() == scores.len(),
        standing_scores(scores).len() == scores.len(),
        forall|p: int|
            0 <= p < scores.len() ==> 0 <= #[trigger] leaderboard(scores)[p] < scores.len(),
        forall|i: int| 0 <= i < scores.len() ==> #[trigger] leaderboard(scores).contains(i),
        forall|a: int, b: int|
            0 <= a < b < scores.len() ==> {
                let x = #[trigger] leaderboard(scores)[a];
                let y = #[trigger] leaderboard(scores)[b];
                scores[x] > scores[y] || (scores[x] == scores[y] && x < y)
            },
        forall|a: int, b: int|
            0 <= a <= b < scores.len() ==> #[trigger] standing_scores(scores)[a]
                >= #[trigger] standing_scores(scores)[b],
{
    let keys = score_keys(scores);
    lemma_stable_order_exists(keys);
    let board = leaderboard(scores);
    assert forall|a: int, b: int| 0 <= a < b < scores.len() implies {
        let x = #[trigger] board[a];
        let y = #[trigger] board[b];
        scores[x] > scores[y] || (scores[x] == scores[y] && x < y)
    } by {
        assert(precedes(keys, board[a], board[b]));
    }
    assert forall|a: int, b: int| 0 <= a <= b < scores.len() implies #[trigger] standing_scores(
        scores,
    )[a] >= #[trigger] standing_scores(scores)[b] by {
        if a < b {
            assert(precedes(keys, board[a], board[b]));
        }
    }
}

/// The number of entries of `board` that are larger than `x`.
pub open spec fn better_count(board: Seq<u32>, x: u32) -> int
    decreases board.len(),
{
    if board.len() == 0 {
        0
    } else {
        better_count(board.drop_last(), x) + if board.last() > x {
            1int
        } else {
            0int
        }
    }
}

/// The rank of the entry at position `pos` of a leaderboard with the scores
/// `board`: one more than the number of entries with a higher score.
pub open spec fn rank_at(board: Seq<u32>, pos: int) -> int {
    1 + better_count(board, board[pos])
}

/// In descending scores, as many entries are larger than `x` as stand
/// before the first that is not.
proof fn lemma_better_count(board: Seq<u32>, x: u32, first: int, n: int)
    requires
        0 <= first <= board.len(),
        0 <= n <= board.len(),
        forall|q: int| 0 <= q < first ==> board[q] > x,
        forall|q: int| first <= q < board.len() ==> board[q] <= x,
    ensures
        better_count(board.take(n), x) == if n < first {
            n
        } else {
            first
        },
    decreases n,
{
    if n > 0 {
        lemma_better_count(board, x, first, n - 1);
        assert(board.take(n).drop_last() =~= board.take(n - 1));
    }
}

/// The first position at or after `k` whose score is not larger than `x`.
spec fn first_not_above(board: Seq<u32>, x: u32, k: int) -> int
    decreases board.len() - k,
{
    if 0 <= k < board.len() && board[k] > x {
        first_not_above(board, x, k + 1)
    } else {
        k
    }
}

proof fn lemma_first_not_above(board: Seq<u32>, x: u32, k: int)
    requires
        0 <= k <= board.len(),
        forall|a: int, b: int|
            0 <= a <= b < board.len() ==> #[trigger] board[a] >= #[trigger] board[b],
    ensures
        k <= first_not_above(board, x, k) <= board.len(),
        forall|q: int| k <= q < first_not_above(board, x, k) ==> board[q] > x,
        forall|q: int| first_not_above(board, x, k) <= q < board.len() ==> board[q] <= x,
    decreases board.len() - k,
{
    if k < board.len() && board[k] > x {
        lemma_first_not_above(board, x, k + 1);
    } else if k < board.len() {
        assert forall|q: int| k <= q < board.len() implies board[q] <= x by {
            assert(board[k] >= board[q]);
        }
    }
}

/// The ranks of a leaderboard: the first has rank 1; a rank is no larger
/// than the position it stands on, counted from one; and players of equal
/// score share a rank.
pub proof fn lemma_ranks(scores: Seq<u32>, pos: int)
    requires
        0 <= pos < scores.len(),
    ensures
        1 <= rank_at(standing_scores(scores), pos) <= pos + 1,
        rank_at(standing_scores(scores), 0) == 1,
        forall|q: int|
            0 <= q < scores.len() && standing_scores(scores)[q] == standing_scores(scores)[pos]
                ==> rank_at(standing_scores(scores), q) == rank_at(standing_scores(scores), pos),
{
    lemma_leaderboard(scores);
    let board = standing_scores(scores);
    assert(board.take(board.len() as int) =~= board);
    let first = first_not_above(board, board[pos], 0);
    lemma_first_not_above(board, board[pos], 0);
    lemma_better_count(board, board[pos], first, board.len() as int);
    if first > pos {
        assert(board[pos] > board[pos]);
    }
    let top = first_not_above(board, board[0], 0);
    lemma_first_not_above(board, board[0], 0);
    lemma_better_count(board, board[0], top, board.len() as int);
    if top > 0 {
        assert(board[0] > board[0]);
    }
}

/// One line of the standings of a lockout.
#[derive(Clone, Copy, Debug, PartialEq, Eq, Structural)]
pub struct Standing {
    /// The player's position in the roster.
    pub player: usize,
    /// The player's score.
    pub score: u32,
    /// The player's rank, from 1; players of equal score share a rank.
    pub rank: usize,
}

/// The positions of the players of `lockout` by descending score, players
/// of equal score in roster order.
pub fn get_leaderboard_indices(lockout: &Duel) -> (r: Vec<usize>)
    ensures
        positions(r@) == leaderboard(scores_of(lockout@)),
        r.len() == scores_of(lockout@).len(),
        forall|p: int| 0 <= p < r.len() ==> #[trigger] r[p] < scores_of(lockout@).len(),
{
    match &lockout.score_distribution {
        Some(scores) => {
            let mut keys: Vec<u64> = Vec::new();
            let mut i: usize = 0;
            while i < scores.len()
                invariant
                    i <= scores.len(),
                    keys@ == score_keys(scores@).take(i as int),
                decreases scores.len() - i,
            {
                keys.push((u32::MAX - scores[i]) as u64);
                assert(keys@ =~= score_keys(scores@).take(i + 1));
                i += 1;
            }
            assert(keys@ =~= score_keys(scores@));
            sort_positions(&keys)
        },
        None => {
            let r: Vec<usize> = Vec::new();
            proof {
                let keys = score_keys(Seq::<u32>::empty());
                lemma_stable_order_exists(keys);
                assert(positions(r@) =~= leaderboard(scores_of(lockout@)));
            }
            r
        },
    }
}

/// The standings of `lockout`: its players in leaderboard order, each with
/// score and rank.
pub fn get_standings(lockout: &Duel) -> (r: Vec<Standing>)
    ensures
        r.len() == scores_of(lockout@).len(),
        forall|pos: int|
            0 <= pos < r.len() ==> {
                &&& (#[trigger] r[pos]).player == leaderboard(scores_of(lockout@))[pos]
                &&& r[pos].score == standing_scores(scores_of(lockout@))[pos]
                &&& r[pos].rank == rank_at(standing_scores(scores_of(lockout@)), pos)
            },
{
    let indices = get_leaderboard_indices(lockout);
    let mut r: Vec<Standing> = Vec::new();
    match &lockout.score_distribution {
        Some(scores) => {
            let ghost board = standing_scores(scores@);
            proof {
                lemma_leaderboard(scores@);
            }
            let mut ranking: usize = 1;
            let mut pos: usize = 0;
            while pos < indices.len()
                invariant
                    pos <= indices.len(),
                    indices.len() == scores.len(),
                    positions(indices@) == leaderboard(scores@),
                    forall|p: int| 0 <= p < indices.len() ==> #[trigger] indices[p] < scores.len(),
                    board == standing_scores(scores@),
                    board.len() == scores.len(),
                    forall|a: int, b: int|
                        0 <= a <= b < board.len() ==> #[trigger] board[a] >= #[trigger] board[b],
                    r.len() == pos,
                    1 <= ranking <= pos + 1,
                    pos > 0 ==> ranking <= pos && board[ranking - 1] == board[pos - 1] && (ranking
                        == 1 || board[ranking - 2] > board[pos - 1]),
                    forall|q: int|
                        0 <= q < pos ==> {
                            &&& (#[trigger] r[q]).player == leaderboard(scores@)[q]
                            &&& r[q].score == board[q]
                            &&& r[q].rank == rank_at(board, q)
                        },
                decreases indices.len() - pos,
            {
                let player = indices[pos];
                assert(positions(indices@)[pos as int] == player);
                let score = scores[player];
                assert(board[pos as int] == score);
                if pos > 0 {
                    assert(positions(indices@)[pos - 1] == indices[pos - 1]);
                    if score != scores[indices[pos - 1]] {
                        ranking = pos + 1;
                    }
                }
                proof {
                    let first = ranking - 1;
                    assert forall|q: int| 0 <= q < first implies board[q] > score by {
                        assert(board[q] >= board[first - 1]);
                    }
                    assert forall|q: int| first <= q < board.len() implies board[q] <= score by {
                        assert(board[first] >= board[q]);
                    }
                    lemma_better_count(board, score, first, board.len() as int);
                    assert(board.take(board.len() as int) =~= board);
                }
                r.push(Standing { player, score, rank: ranking });
                pos += 1;
            }
        },
        None => {},
    }
    r
}

/// The time that has passed since the match began, none if the clock is
/// behind the beginning.
pub open spec fn elapsed(d: DuelView, now: u64) -> int {
    if now >= d.begin_time {
        now - d.begin_time
    } else {
        0
    }
}

/// A lockout is decided when its time is used up, when at most one player
/// is left, or when the second on the leaderboard cannot reach the leader
/// even with every unclaimed problem.
pub open spec fn decided(d: DuelView, now: u64) -> bool {
    let board = standing_scores(scores_of(d));
    ||| d.match_duration is None
    ||| elapsed(d, now) >= d.match_duration.unwrap()
    ||| board.len() <= 1
    ||| board[1] + total(points_of(d)) < board[0]
}

/// Whether `lockout` is decided at time `now`.
pub fn is_lockout_complete(lockout: &Duel, now: u64) -> (b: bool)
    ensures
        b == decided(lockout@, now),
{
    let limit = match lockout.match_duration {
        Some(limit) => limit,
        None => {
            return true;
        },
    };
    let passed = if now >= lockout.begin_time {
        now - lockout.begin_time
    } else {
        0
    };
    if passed >= limit {
        return true;
    }
    let indices = get_leaderboard_indices(lockout);
    if indices.len() <= 1 {
        proof {
            lemma_leaderboard(scores_of(lockout@));
        }
        return true;
    }
    match &lockout.score_distribution {
        Some(scores) => {
            proof {
                lemma_leaderboard(scores@);
                assert(positions(indices@)[0] == indices[0]);
                assert(positions(indices@)[1] == indices[1]);
            }
            let to_beat = scores[indices[0]];
            let second = scores[indices[1]];
            match &lockout.problems_point {
                Some(points) => match checked_total(points) {
                    Some(open) => (second as u64) + (open as u64) < to_beat as u64,
                    None => false,
                },
                None => {
                    assert(total(Seq::<u32>::empty()) == 0);
                    second < to_beat
                },
            }
        },
        None => true,
    }
}

/// Player `w` is the first finisher of `p` among the first `n` players:
/// it solved `p`, and nobody solved it earlier, nor at the same time and
/// earlier in the roster.
pub open spec fn is_first_finisher(
    subs: Seq<Seq<SubmissionView>>,
    n: int,
    p: ProblemView,
    w: int,
) -> bool {
    &&& 0 <= w < n
    &&& w < subs.len()
    &&& solved_at(subs[w], p) matches Some(t)
    &&& forall|j: int|
        0 <= j < n && j < subs.len() && (#[trigger] solved_at(subs[j], p)) is Some ==> {
            let u = solved_at(subs[j], p).unwrap();
            t < u || (t == u && w <= j)
        }
}

/// The first finisher of `p` among the first `n` players, if any of them
/// solved it.
pub open spec fn first_finisher(subs: Seq<Seq<SubmissionView>>, n: int, p: ProblemView) -> Option<
    int,
> {
    if exists|w: int| is_first_finisher(subs, n, p, w) {
        Some(choose|w: int| is_first_finisher(subs, n, p, w))
    } else {
        None
    }
}

/// There is one first finisher at most.
pub proof fn lemma_first_finisher(subs: Seq<Seq<SubmissionView>>, n: int, p: ProblemView, w: int)
    requires
        is_first_finisher(subs, n, p, w),
    ensures
        first_finisher(subs, n, p) == Some(w),
{
    let v = choose|v: int| is_first_finisher(subs, n, p, v);
    assert(solved_at(subs[v], p) is Some);
    assert(solved_at(subs[w], p) is Some);
}

/// The views of the submissions of each player.
pub open spec fn all_views(user_submissions: Seq<Vec<Submission>>) -> Seq<Seq<SubmissionView>> {
    Seq::new(user_submissions.len(), |j: int| user_submissions[j].deep_view())
}

/// The position of the player who solved `problem` first, among the first
/// `players` lists of `user_submissions`, one list for each player in roster
/// order.
pub fn index_who_complete_problem(
    problem: &Problem,
    players: usize,
    user_submissions: &Vec<Vec<Submission>>,
) -> (r: Option<usize>)
    ensures
        first_finisher(all_views(user_submissions@), players as int, problem@) == match r {
            Some(w) => Some(w as int),
            None => None,
        },
        r matches Some(w) ==> w < players && w < user_submissions.len(),
{
    let ghost subs = all_views(user_submissions@);
    let ghost p = problem@;
    let mut index: Option<usize> = None;
    let mut current_time: u64 = 0;
    let mut i: usize = 0;
    while i < players && i < user_submissions.len()
        invariant
            i <= players,
            i <= user_submissions.len(),
            subs == all_views(user_submissions@),
            p == problem@,
            match index {
                Some(w) => is_first_finisher(subs, i as int, p, w as int) && solved_at(
                    subs[w as int],
                    p,
                ) == Some(current_time),
                None => forall|j: int| 0 <= j < i ==> (#[trigger] solved_at(subs[j], p)) is None,
            },
        decreases user_submissions.len() - i,
    {
        assert(subs[i as int] == user_submissions[i as int].deep_view());
        match check_complete_problem_with_given_submission(problem, &user_submissions[i]) {
            Ok(at) => {
                match index {
                    Some(w) => {
                        if current_time > at {
                            current_time = at;
                            index = Some(i);
                        }
                    },
                    None => {
                        index = Some(i);
                        current_time = at;
                    },
                }
            },
            Err(_) => {},
        }
        i += 1;
    }
    proof {
        match index {
            Some(w) => {
                assert(is_first_finisher(subs, players as int, p, w as int));
                lemma_first_finisher(subs, players as int, p, w as int);
            },
            None => {
                assert forall|w: int| !is_first_finisher(subs, players as int, p, w) by {
                    if 0 <= w < players && w < subs.len() {
                        assert(solved_at(subs[w], p) is None);
                    }
                }
            },
        }
    }
    index
}

/// Who claims problem `i` of `d` in an update with the submissions `subs`:
/// the first finisher among the players, if the problem is unclaimed.
pub open spec fn claimed_by(d: DuelView, subs: Seq<Seq<SubmissionView>>, i: int) -> Option<int> {
    if points_of(d)[i] != 0 {
        first_finisher(subs, d.players.len() as int, d.problems[i])
    } else {
        None
    }
}

/// What player `w` gains in an update from the first `n` problems: the
/// point values of those that it claims.
pub open spec fn gain(d: DuelView, subs: Seq<Seq<SubmissionView>>, w: int, n: int) -> int
    decreases n,
{
    if n <= 0 {
        0
    } else {
        gain(d, subs, w, n - 1) + if claimed_by(d, subs, n - 1) == Some(w) {
            points_of(d)[n - 1] as int
        } else {
            0
        }
    }
}

/// The lockout after an update with the submissions `subs`: every unclaimed
/// problem that a player has solved is claimed by its first finisher, who
/// gets its point value; the point value becomes zero.
pub open spec fn updated(d: DuelView, subs: Seq<Seq<SubmissionView>>) -> DuelView {
    DuelView {
        score_distribution: Some(
            Seq::new(
                scores_of(d).len(),
                |w: int| (scores_of(d)[w] + gain(d, subs, w, d.problems.len() as int)) as u32,
            ),
        ),
        problems_point: Some(
            Seq::new(
                points_of(d).len(),
                |i: int|
                    if claimed_by(d, subs, i) is Some {
                        0u32
                    } else {
                        points_of(d)[i]
                    },
            ),
        ),
        ..d
    }
}

/// What a player gains in an update is no more than the point values that
/// are open.
proof fn lemma_gain_bound(d: DuelView, subs: Seq<Seq<SubmissionView>>, w: int, n: int)
    requires
        0 <= n <= points_of(d).len(),
    ensures
        0 <= gain(d, subs, w, n) <= total(points_of(d).take(n)),
    decreases n,
{
    if n > 0 {
        lemma_gain_bound(d, subs, w, n - 1);
        crate::tally::lemma_total_take(points_of(d), n - 1);
    } else {
        assert(points_of(d).take(0) =~= Seq::empty());
    }
}

/// A lead that decides a lockout is safe: where the second of the
/// leaderboard, with every open point value, stays below the leader, every
/// other player stays below the leader after any update.
pub proof fn lemma_decided_lead_is_safe(d: DuelView, subs: Seq<Seq<SubmissionView>>, w: int)
    requires
        d.wf(),
        d.duel_type == DuelType::Lockout,
        scores_of(d).len() >= 2,
        standing_scores(scores_of(d))[1] + total(points_of(d)) < standing_scores(scores_of(d))[0],
        0 <= w < scores_of(d).len(),
        w != leaderboard(scores_of(d))[0],
    ensures
        scores_of(updated(d, subs))[w] < scores_of(updated(d, subs))[leaderboard(scores_of(d))[0]],
{
    let scores = scores_of(d);
    let points = points_of(d);
    let board = leaderboard(scores);
    let leader = board[0];
    let n = d.problems.len() as int;
    lemma_leaderboard(scores);
    assert(board.contains(w));
    let p = choose|p: int| 0 <= p < board.len() && board[p] == w;
    assert(standing_scores(scores)[1] >= standing_scores(scores)[p]);
    assert(standing_scores(scores)[p] == scores[w]);
    assert(standing_scores(scores)[0] == scores[leader]);
    lemma_gain_bound(d, subs, w, n);
    lemma_gain_bound(d, subs, leader, n);
    assert(points.take(n) =~= points);
    lemma_total_bounds_member(scores, w);
    lemma_total_bounds_member(scores, leader);
    lemma_total_nonnegative(points);
}

/// Updates a lockout with the submissions of its players, one list for
/// each player in roster order: see [`updated`]. No point is made or lost:
/// what the scores gain, the point values lose. A match that is no
/// well-formed lockout is left as it is.
pub fn lockout_update(lockout: &mut Duel, user_submissions: &Vec<Vec<Submission>>)
    ensures
        old(lockout)@.wf() && old(lockout)@.duel_type == DuelType::Lockout ==> final(lockout)@
            == updated(old(lockout)@, all_views(user_submissions@)) && final(lockout)@.wf(),
        !(old(lockout)@.wf() && old(lockout)@.duel_type == DuelType::Lockout) ==> final(lockout)@
            == old(lockout)@,
        total(scores_of(final(lockout)@)) + total(points_of(final(lockout)@)) == total(
            scores_of(old(lockout)@),
        ) + total(points_of(old(lockout)@)),
{
    if !lockout.is_well_formed() {
        return ;
    }
    match lockout.duel_type {
        DuelType::Duel => {
            return ;
        },
        DuelType::Lockout => {},
    }
    let ghost before = lockout@;
    let ghost subs = all_views(user_submissions@);
    let n = lockout.problems.len();
    let mut i: usize = 0;
    while i < n
        invariant
            i <= n,
            n == before.problems.len(),
            before.wf(),
            before.duel_type == DuelType::Lockout,
            subs == all_views(user_submissions@),
            lockout@.wf(),
            lockout@.duel_type == DuelType::Lockout,
            lockout@.duel_id == before.duel_id,
            lockout@.players == before.players,
            lockout@.begin_time == before.begin_time,
            lockout@.problems == before.problems,
            lockout@.channel_id == before.channel_id,
            lockout@.match_duration == before.match_duration,
            scores_of(lockout@).len() == scores_of(before).len(),
            points_of(lockout@).len() == points_of(before).len(),
            total(scores_of(lockout@)) + total(points_of(lockout@)) == total(scores_of(before))
                + total(points_of(before)),
            forall|w: int|
                0 <= w < scores_of(before).len() ==> #[trigger] scores_of(lockout@)[w] == scores_of(
                    before,
                )[w] + gain(before, subs, w, i as int),
            forall|j: int|
                0 <= j < points_of(before).len() ==> #[trigger] points_of(lockout@)[j] == if j < i
                    && claimed_by(before, subs, j) is Some {
                    0u32
                } else {
                    points_of(before)[j]
                },
        decreases n - i,
    {
        let point = match &lockout.problems_point {
            Some(points) => points[i],
            None => 0,
        };
        assert(point == points_of(before)[i as int]);
        let ghost at_entry = lockout@;
        if point != 0 {
            match index_who_complete_problem(
                &lockout.problems[i],
                lockout.players.len(),
                user_submissions,
            ) {
                Some(index) => {
                    proof {
                        let scores = scores_of(at_entry);
                        let points = points_of(at_entry);
                        lemma_total_bounds_member(scores, index as int);
                        lemma_total_bounds_member(points, i as int);
                        lemma_total_nonnegative(scores);
                        lemma_total_nonnegative(points);
                        lemma_total_update(scores, index as int, (scores[index as int] + point) as u32);
                        lemma_total_update(points, i as int, 0);
                        assert(claimed_by(before, subs, i as int) == Some(index as int));
                    }
                    lockout.add_score(index, point);
                    lockout.set_point(i);
                },
                None => {
                    assert(claimed_by(before, subs, i as int) is None);
                },
            }
        } else {
            assert(claimed_by(before, subs, i as int) is None);
        }
        i += 1;
    }
    proof {
        assert(lockout@.score_distribution.unwrap() =~= updated(
            before,
            subs,
        ).score_distribution.unwrap());
        assert(lockout@.problems_point.unwrap() =~= updated(before, subs).problems_point.unwrap());
    }
}
} // verus!
