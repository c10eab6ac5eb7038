//! The problem catalog filter: which problems a participant may be given,
//! and when a problem counts as solved.

use crate::error::MatchError;
use crate::order::{
    arrange, lemma_arrange_stable_order_members, positions, sort_positions, stable_order,
};
use crate::problem::{Problem, ProblemView, Submission, SubmissionView};
use vstd::prelude::*;

verus! {

/// A target rating rounded up to the next multiple of 100.
pub open spec fn rounded_target(target: u32) -> int {
    ((target + 99) / 100) * 100
}

/// Some submission of `subs` is an accepted one for `p`.
pub open spec fn solved(subs: Seq<SubmissionView>, p: ProblemView) -> bool {
    exists|i: int| 0 <= i < subs.len() && (#[trigger] subs[i]).solves(p)
}

/// `p` has exactly the rounded target rating and is not solved in `subs`.
pub open spec fn is_candidate(p: ProblemView, target: u32, subs: Seq<SubmissionView>) -> bool {
    &&& p.rating matches Some(r)
    &&& r == rounded_target(target)
    &&& !solved(subs, p)
}

/// [`is_candidate`] as a predicate on problems.
pub open spec fn candidate_pred(target: u32, subs: Seq<SubmissionView>) -> spec_fn(
    ProblemView,
) -> bool {
    |p: ProblemView| is_candidate(p, target, subs)
}

/// The key by which candidates are ordered: the contest, problems without
/// one first.
pub open spec fn contest_key(p: ProblemView) -> u64 {
    match p.contest_id {
        Some(c) => (c + 1) as u64,
        None => 0,
    }
}

/// The contest keys of a list of problems.
pub open spec fn contest_keys(problems: Seq<ProblemView>) -> Seq<u64> {
    Seq::new(problems.len(), |i: int| contest_key(problems[i]))
}

/// The candidates of a catalog for one participant: the problems of the
/// rounded target rating that the participant has not solved, by ascending
/// contest, problems of one contest in catalog order.
pub open spec fn candidates_of(
    catalog: Seq<ProblemView>,
    target: u32,
    subs: Seq<SubmissionView>,
) -> Seq<ProblemView> {
    let eligible = catalog.filter(candidate_pred(target, subs));
    arrange(eligible, stable_order(contest_keys(eligible)))
}

/// No candidate is solved, none has another rating than the rounded target,
/// and each is a problem of the catalog.
pub proof fn lemma_candidates_sound(
    catalog: Seq<ProblemView>,
    target: u32,
    subs: Seq<SubmissionView>,
    i: int,
)
    requires
        0 <= i < candidates_of(catalog, target, subs).len(),
    ensures
        !solved(subs, candidates_of(catalog, target, subs)[i]),
        candidates_of(catalog, target, subs)[i].rating == Some(rounded_target(target) as i32),
        rounded_target(target) <= i32::MAX,
        catalog.contains(candidates_of(catalog, target, subs)[i]),
{
    let pred = candidate_pred(target, subs);
    let eligible = catalog.filter(pred);
    lemma_arrange_stable_order_members(eligible, contest_keys(eligible));
    let c = candidates_of(catalog, target, subs)[i];
    assert(eligible.contains(c));
    let j = choose|j: int| 0 <= j < eligible.len() && eligible[j] == c;
    catalog.lemma_filter_pred(pred, j);
    catalog.lemma_filter_contains_rev(pred, c);
}

/// Candidates come by ascending contest.
pub proof fn lemma_candidates_ascending(
    catalog: Seq<ProblemView>,
    target: u32,
    subs: Seq<SubmissionView>,
    i: int,
    j: int,
)
    requires
        0 <= i <= j < candidates_of(catalog, target, subs).len(),
    ensures
        contest_key(candidates_of(catalog, target, subs)[i]) <= contest_key(
            candidates_of(catalog, target, subs)[j],
        ),
{
    let eligible = catalog.filter(candidate_pred(target, subs));
    lemma_arrange_stable_order_members(eligible, contest_keys(eligible));
    let order = stable_order(contest_keys(eligible));
    if i < j {
        assert(crate::order::precedes(contest_keys(eligible), order[i], order[j]));
    }
}

/// Whether some submission of `subs` is an accepted one for `problem`.
pub fn has_accepted(subs: &Vec<Submission>, problem: &Problem) -> (b: bool)
    ensures
        b == solved(subs.deep_view(), problem@),
{
    let mut i: usize = 0;
    while i < subs.len()
        invariant
            i <= subs.len(),
            forall|j: int| 0 <= j < i ==> !(#[trigger] subs.deep_view()[j]).solves(problem@),
        decreases subs.len() - i,
    {
        if subs[i].solves(problem) {
            assert(subs.deep_view()[i as int].solves(problem@));
            return true;
        }
        i += 1;
    }
    false
}

/// The candidates of `problems` for a participant with submissions
/// `user_submission`, for the target rating `rating_range`.
pub fn get_problems_with_given_problemset(
    rating_range: u32,
    problems: &Vec<Problem>,
    user_submission: &Vec<Submission>,
) -> (r: Result<Vec<Problem>, MatchError>)
    ensures
        match r {
            Ok(v) => v.len() > 0 && v.deep_view() == candidates_of(
                problems.deep_view(),
                rating_range,
                user_submission.deep_view(),
            ),
            Err(e) => e == MatchError::NoCandidates && candidates_of(
                problems.deep_view(),
                rating_range,
                user_submission.deep_view(),
            ).len() == 0,
        },
{
    let target: u64 = ((rating_range as u64 + 99) / 100) * 100;
    let ghost pred = candidate_pred(rating_range, user_submission.deep_view());
    let ghost catalog = problems.deep_view();
    let mut eligible: Vec<Problem> = Vec::new();
    let mut keys: Vec<u64> = Vec::new();
    let mut i: usize = 0;
    assert(catalog.take(0).filter(pred) =~= Seq::empty()) by {
        reveal(Seq::filter);
    }
    while i < problems.len()
        invariant
            i <= problems.len(),
            target == rounded_target(rating_range),
            catalog == problems.deep_view(),
            pred == candidate_pred(rating_range, user_submission.deep_view()),
            eligible.deep_view() == catalog.take(i as int).filter(pred),
            keys@ == contest_keys(eligible.deep_view()),
        decreases problems.len() - i,
    {
        let p = &problems[i];
        let rated = match p.rating {
            Some(r) => r >= 0 && r as u64 == target,
            None => false,
        };
        let keep = rated && !has_accepted(user_submission, p);
        proof {
            assert(catalog[i as int] == p@);
            assert(keep == pred(p@));
            assert(catalog.take(i + 1) =~= catalog.take(i as int).push(p@));
            catalog.take(i as int).lemma_filter_push(p@, pred);
        }
        if keep {
            let ghost before = eligible.deep_view();
            let key: u64 = match p.contest_id {
                Some(c) => c as u64 + 1,
                None => 0,
            };
            eligible.push(p.clone());
            keys.push(key);
            assert(eligible.deep_view() =~= before.push(p@));
            assert(keys@ =~= contest_keys(eligible.deep_view()));
        }
        i += 1;
    }
    assert(catalog.take(i as int) =~= catalog);
    if eligible.len() == 0 {
        proof {
            crate::order::lemma_stable_order_exists(contest_keys(eligible.deep_view()));
        }
        return Err(MatchError::NoCandidates);
    }
    let order = sort_positions(&keys);
    let mut out: Vec<Problem> = Vec::new();
    let mut j: usize = 0;
    while j < order.len()
        invariant
            j <= order.len(),
            order.len() == eligible.len(),
            forall|k: int| 0 <= k < order.len() ==> #[trigger] order[k] < eligible.len(),
            out.len() == j,
            forall|k: int| 0 <= k < j ==> out[k]@ == eligible[order[k] as int]@,
        decreases order.len() - j,
    {
        out.push(eligible[order[j]].clone());
        j += 1;
    }
    assert(out.deep_view() =~= arrange(eligible.deep_view(), positions(order@)));
    Ok(out)
}

/// `t` is the time of the earliest accepted submission of `subs` for `p`.
pub open spec fn is_earliest(subs: Seq<SubmissionView>, p: ProblemView, t: u64) -> bool {
    &&& exists|i: int|
        0 <= i < subs.len() && (#[trigger] subs[i]).solves(p) && subs[i].creation_time_seconds == t
    &&& forall|i: int|
        0 <= i < subs.len() && (#[trigger] subs[i]).solves(p) ==> t <= subs[i].creation_time_seconds
}

/// When `p` was solved: the time of the earliest accepted submission of
/// `subs` for it, if there is one.
pub open spec fn solved_at(subs: Seq<SubmissionView>, p: ProblemView) -> Option<u64> {
    if solved(subs, p) {
        Some(choose|t: u64| is_earliest(subs, p, t))
    } else {
        None
    }
}

/// The earliest time is the only one.
pub proof fn lemma_solved_at(subs: Seq<SubmissionView>, p: ProblemView, t: u64)
    requires
        is_earliest(subs, p, t),
    ensures
        solved_at(subs, p) == Some(t),
{
    let i = choose|i: int|
        0 <= i < subs.len() && (#[trigger] subs[i]).solves(p) && subs[i].creation_time_seconds == t;
    assert(solved(subs, p));
    let u = choose|u: u64| is_earliest(subs, p, u);
    let j = choose|j: int|
        0 <= j < subs.len() && (#[trigger] subs[j]).solves(p) && subs[j].creation_time_seconds == u;
    assert(t <= subs[j].creation_time_seconds);
    assert(u <= subs[i].creation_time_seconds);
}

/// When the owner of `submissions` solved `problem`: the time of the
/// earliest accepted submission for it. Without one the problem is not
/// completed.
pub fn check_complete_problem_with_given_submission(
    problem: &Problem,
    submissions: &Vec<Submission>,
) -> (r: Result<u64, MatchError>)
    ensures
        match r {
            Ok(t) => solved_at(submissions.deep_view(), problem@) == Some(t) && is_earliest(
                submissions.deep_view(),
                problem@,
                t,
            ),
            Err(e) => e == MatchError::NotCompleted && solved_at(submissions.deep_view(), problem@)
                is None,
        },
{
    let ghost subs = submissions.deep_view();
    let mut best: Option<u64> = None;
    let mut i: usize = 0;
    while i < submissions.len()
        invariant
            i <= submissions.len(),
            subs == submissions.deep_view(),
            match best {
                Some(t) => is_earliest(subs.take(i as int), problem@, t),
                None => forall|j: int| 0 <= j < i ==> !(#[trigger] subs[j]).solves(problem@),
            },
        decreases submissions.len() - i,
    {
        let ghost before = subs.take(i as int);
        let ghost after = subs.take(i + 1);
        assert(forall|j: int| 0 <= j < i ==> before[j] == after[j]);
        assert(after[i as int] == subs[i as int]);
        if submissions[i].solves(problem) {
            let at = submissions[i].creation_time_seconds;
            match best {
                Some(t) => {
                    let ghost w = choose|w: int|
                        0 <= w < before.len() && (#[trigger] before[w]).solves(problem@)
                            && before[w].creation_time_seconds == t;
                    if at < t {
                        best = Some(at);
                        assert(after[i as int].solves(problem@));
                    } else {
                        assert(after[w].solves(problem@));
                    }
                },
                None => {
                    best = Some(at);
                    assert(after[i as int].solves(problem@));
                },
            }
        } else {
            match best {
                Some(t) => {
                    let ghost w = choose|w: int|
                        0 <= w < before.len() && (#[trigger] before[w]).solves(problem@)
                            && before[w].creation_time_seconds == t;
                    assert(after[w].solves(problem@));
                },
                None => {},
            }
        }
        i += 1;
    }
    assert(subs.take(i as int) =~= subs);
    match best {
        Some(t) => {
            proof {
                lemma_solved_at(subs, problem@, t);
            }
            Ok(t)
        },
        None => Err(MatchError::NotCompleted),
    }
}

/// Some problem of `list` is the problem `p`.
pub open spec fn lists(list: Seq<ProblemView>, p: ProblemView) -> bool {
    exists|k: int| 0 <= k < list.len() && (#[trigger] list[k]).same_problem(p)
}

/// `p` is a candidate for every participant but the first.
pub open spec fn shared(
    catalog: Seq<ProblemView>,
    target: u32,
    subs: Seq<Seq<SubmissionView>>,
    p: ProblemView,
) -> bool {
    forall|i: int|
        1 <= i < subs.len() ==> lists(candidates_of(catalog, target, #[trigger] subs[i]), p)
}

/// [`shared`] as a predicate on problems.
pub open spec fn shared_pred(
    catalog: Seq<ProblemView>,
    target: u32,
    subs: Seq<Seq<SubmissionView>>,
) -> spec_fn(ProblemView) -> bool {
    |p: ProblemView| shared(catalog, target, subs, p)
}

/// The candidates that all participants share: those of the first
/// participant that are candidates for every other one, in their order.
pub open spec fn common_candidates(
    catalog: Seq<ProblemView>,
    target: u32,
    subs: Seq<Seq<SubmissionView>>,
) -> Seq<ProblemView> {
    candidates_of(catalog, target, subs[0]).filter(shared_pred(catalog, target, subs))
}

/// The first participant without a candidate, if there is one.
pub open spec fn lacks_candidates(
    catalog: Seq<ProblemView>,
    target: u32,
    subs: Seq<Seq<SubmissionView>>,
) -> bool {
    exists|i: int|
        0 <= i < subs.len() && candidates_of(catalog, target, #[trigger] subs[i]).len() == 0
}

/// The problems that every participant may be given, where there are any:
/// without a participant, or where one of them has no candidate, there are
/// no candidates; where each has some and they share none, there is no
/// common problem.
pub open spec fn common_problems(
    catalog: Seq<ProblemView>,
    target: u32,
    subs: Seq<Seq<SubmissionView>>,
) -> Result<Seq<ProblemView>, MatchError> {
    if subs.len() == 0 || lacks_candidates(catalog, target, subs) {
        Err(MatchError::NoCandidates)
    } else if common_candidates(catalog, target, subs).len() == 0 {
        Err(MatchError::NoCommonProblem)
    } else {
        Ok(common_candidates(catalog, target, subs))
    }
}

/// The views of the submissions of each participant.
pub open spec fn submission_views(user_submissions: Seq<Vec<Submission>>) -> Seq<
    Seq<SubmissionView>,
> {
    Seq::new(user_submissions.len(), |j: int| user_submissions[j].deep_view())
}

/// Whether some problem of `list` is `problem`.
pub fn lists_problem(list: &Vec<Problem>, problem: &Problem) -> (b: bool)
    ensures
        b == lists(list.deep_view(), problem@),
{
    let mut k: usize = 0;
    while k < list.len()
        invariant
            k <= list.len(),
            forall|j: int| 0 <= j < k ==> !(#[trigger] list.deep_view()[j]).same_problem(problem@),
        decreases list.len() - k,
    {
        if list[k].same_problem(problem) {
            assert(list.deep_view()[k as int].same_problem(problem@));
            return true;
        }
        k += 1;
    }
    false
}

/// The problems of rating `rating` that every participant may be given,
/// `user_submissions` holding the submissions of each: see
/// [`common_problems`].
pub fn get_problem_for_users(
    rating: u32,
    problem_set: &Vec<Problem>,
    user_submissions: &Vec<Vec<Submission>>,
) -> (r: Result<Vec<Problem>, MatchError>)
    ensures
        common_problems(
            problem_set.deep_view(),
            rating,
            submission_views(user_submissions@),
        ) == match r {
            Ok(v) => Ok::<Seq<ProblemView>, MatchError>(v.deep_view()),
            Err(e) => Err::<Seq<ProblemView>, MatchError>(e),
        },
{
    let ghost catalog = problem_set.deep_view();
    let ghost subs = submission_views(user_submissions@);
    if user_submissions.len() == 0 {
        return Err(MatchError::NoCandidates);
    }
    let mut lists_of: Vec<Vec<Problem>> = Vec::new();
    let mut i: usize = 0;
    while i < user_submissions.len()
        invariant
            i <= user_submissions.len(),
            catalog == problem_set.deep_view(),
            subs == submission_views(user_submissions@),
            lists_of.len() == i,
            forall|j: int|
                0 <= j < i ==> (#[trigger] lists_of[j]).deep_view() == candidates_of(
                    catalog,
                    rating,
                    subs[j],
                ) && lists_of[j].len() > 0,
        decreases user_submissions.len() - i,
    {
        assert(subs[i as int] == user_submissions[i as int].deep_view());
        match get_problems_with_given_problemset(rating, problem_set, &user_submissions[i]) {
            Ok(list) => {
                lists_of.push(list);
            },
            Err(_) => {
                return Err(MatchError::NoCandidates);
            },
        }
        i += 1;
    }
    assert(!lacks_candidates(catalog, rating, subs)) by {
        if lacks_candidates(catalog, rating, subs) {
            let w = choose|w: int|
                0 <= w < subs.len() && candidates_of(catalog, rating, #[trigger] subs[w]).len() == 0;
            assert(lists_of[w].deep_view() == candidates_of(catalog, rating, subs[w]));
        }
    }
    let ghost pred = shared_pred(catalog, rating, subs);
    let ghost first = candidates_of(catalog, rating, subs[0]);
    let mut common: Vec<Problem> = Vec::new();
    let mut k: usize = 0;
    assert(first.take(0).filter(pred) =~= Seq::empty()) by {
        reveal(Seq::filter);
    }
    assert(lists_of[0].deep_view() == first);
    while k < lists_of[0].len()
        invariant
            k <= lists_of[0].len(),
            lists_of.len() == user_submissions.len(),
            lists_of.len() > 0,
            catalog == problem_set.deep_view(),
            subs == submission_views(user_submissions@),
            pred == shared_pred(catalog, rating, subs),
            first == candidates_of(catalog, rating, subs[0]),
            lists_of[0].deep_view() == first,
            forall|j: int|
                0 <= j < lists_of.len() ==> (#[trigger] lists_of[j]).deep_view() == candidates_of(
                    catalog,
                    rating,
                    subs[j],
                ),
            common.deep_view() == first.take(k as int).filter(pred),
        decreases lists_of[0].len() - k,
    {
        let p = &lists_of[0][k];
        assert(first[k as int] == p@);
        let mut good = true;
        let mut i: usize = 1;
        while i < lists_of.len() && good
            invariant
                1 <= i <= lists_of.len(),
                lists_of.len() == user_submissions.len(),
                subs == submission_views(user_submissions@),
                forall|j: int|
                    0 <= j < lists_of.len() ==> (#[trigger] lists_of[j]).deep_view()
                        == candidates_of(catalog, rating, subs[j]),
                good ==> forall|j: int|
                    1 <= j < i ==> lists(candidates_of(catalog, rating, #[trigger] subs[j]), p@),
                !good ==> !shared(catalog, rating, subs, p@),
            decreases lists_of.len() - i + if good {
                1int
            } else {
                0int
            },
        {
            if !lists_problem(&lists_of[i], p) {
                assert(!lists(candidates_of(catalog, rating, subs[i as int]), p@));
                good = false;
            } else {
                i += 1;
            }
        }
        proof {
            assert(good == pred(p@));
            assert(first.take(k + 1) =~= first.take(k as int).push(p@));
            first.take(k as int).lemma_filter_push(p@, pred);
        }
        if good {
            let ghost before = common.deep_view();
            common.push(p.clone());
            assert(common.deep_view() =~= before.push(p@));
        }
        k += 1;
    }
    assert(first.take(k as int) =~= first);
    if common.len() == 0 {
        Err(MatchError::NoCommonProblem)
    } else {
        Ok(common)
    }
}

/// For each rating of a ladder, the problems that every participant may be
/// given: see [`common_problems`]. The first rating that yields none decides
/// the error.
pub fn provide_problems_with_ratings(
    ratings_array: &Vec<u32>,
    problem_set: &Vec<Problem>,
    user_submissions: &Vec<Vec<Submission>>,
) -> (r: Result<Vec<Vec<Problem>>, MatchError>)
    ensures
        ({
            let catalog = problem_set.deep_view();
            let subs = submission_views(user_submissions@);
            match r {
                Ok(v) => {
                    &&& v.len() == ratings_array.len()
                    &&& forall|i: int|
                        0 <= i < v.len() ==> common_problems(catalog, ratings_array[i], subs)
                            == Ok::<Seq<ProblemView>, MatchError>((#[trigger] v[i]).deep_view())
                },
                Err(e) => exists|i: int|
                    {
                        &&& 0 <= i < ratings_array.len()
                        &&& common_problems(catalog, #[trigger] ratings_array[i], subs) == Err::<
                            Seq<ProblemView>,
                            MatchError,
                        >(e)
                        &&& forall|j: int|
                            0 <= j < i ==> common_problems(
                                catalog,
                                #[trigger] ratings_array[j],
                                subs,
                            ) is Ok
                    },
            }
        }),
{
    let ghost catalog = problem_set.deep_view();
    let ghost subs = submission_views(user_submissions@);
    let mut v: Vec<Vec<Problem>> = Vec::new();
    let mut i: usize = 0;
    while i < ratings_array.len()
        invariant
            i <= ratings_array.len(),
            v.len() == i,
            catalog == problem_set.deep_view(),
            subs == submission_views(user_submissions@),
            forall|j: int|
                0 <= j < i ==> common_problems(catalog, ratings_array[j], subs) == Ok::<
                    Seq<ProblemView>,
                    MatchError,
                >((#[trigger] v[j]).deep_view()),
        decreases ratings_array.len() - i,
    {
        match get_problem_for_users(ratings_array[i], problem_set, user_submissions) {
            Ok(list) => {
                v.push(list);
            },
            Err(e) => {
                assert forall|j: int| 0 <= j < i implies common_problems(
                    catalog,
                    #[trigger] ratings_array[j],
                    subs,
                ) is Ok by {
                    assert(v[j].len() >= 0);
                }
                return Err(e);
            },
        }
        i += 1;
    }
    Ok(v)
}
} // verus!
