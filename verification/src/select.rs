//! The selector: from an ordered list of candidates to the one that is
//! given.
//!
//! A weighted draw is made by the caller, who knows the weights; the list it
//! is made for and the position it yields meet here. Uniform draws are made
//! here.

use crate::error::MatchError;
use crate::ladder::{MAX_RATING, MIN_RATING};
use crate::order::{arrange, positions, sort_positions, stable_order};
use crate::problem::{Problem, ProblemView};
use crate::text::{chars_of, contains_text, has_text, str_eq};
use rand::Rng;
use vstd::prelude::*;

verus! {

/// Draws a number from `low` to `high`, both included, with `rand`'s
/// `Rng::gen_range` on the generator of the thread.
///
/// The contract claims of the draw only that it lies in the range; which
/// number comes is the generator's matter. An empty range, on which
/// `gen_range` panics, is left out.
#[verifier::external_body]
fn uniform(low: u64, high: u64) -> (r: u64)
    requires
        low <= high,
    ensures
        low <= r <= high,
{
    rand::thread_rng().gen_range(low..=high)
}

/// The candidate at the drawn position `drawn` of `problems`. An empty list
/// has no candidate to give, and a position beyond the list names none.
pub fn get_problem_with_weights(problems: &Vec<Problem>, drawn: usize) -> (r: Result<
    Problem,
    MatchError,
>)
    ensures
        match r {
            Ok(p) => drawn < problems.len() && p@ == problems.deep_view()[drawn as int]
                && problems.deep_view().contains(p@),
            Err(e) => if problems.len() == 0 {
                e == MatchError::NoCandidates
            } else {
                e == MatchError::DrawOutOfRange && drawn >= problems.len()
            },
        },
{
    if problems.len() == 0 {
        Err(MatchError::NoCandidates)
    } else if drawn >= problems.len() {
        Err(MatchError::DrawOutOfRange)
    } else {
        Ok(problems[drawn].clone())
    }
}

/// No pick is made up: from a list that is not empty, the pick is a
/// problem of the list, the one at the drawn position; only a position
/// beyond the list gives no pick, and the failure says so.
pub proof fn lemma_pick_is_of_the_list(
    problems: &Vec<Problem>,
    drawn: usize,
    picked: Result<Problem, MatchError>,
)
    requires
        problems.len() > 0,
        call_ensures(get_problem_with_weights, (problems, drawn), picked),
    ensures
        match picked {
            Ok(p) => drawn < problems.len() && problems.deep_view().contains(p@) && p@
                == problems.deep_view()[drawn as int],
            Err(e) => e == MatchError::DrawOutOfRange && drawn >= problems.len(),
        },
        drawn < problems.len() ==> picked is Ok,
{
}

/// The pick is settled by the list and the drawn position: two picks from
/// the same list at the same position are the same problem, or fail alike.
pub proof fn lemma_same_draw_same_pick(
    problems: &Vec<Problem>,
    drawn: usize,
    first: Result<Problem, MatchError>,
    second: Result<Problem, MatchError>,
)
    requires
        call_ensures(get_problem_with_weights, (problems, drawn), first),
        call_ensures(get_problem_with_weights, (problems, drawn), second),
    ensures
        match (first, second) {
            (Ok(p), Ok(q)) => p@ == q@,
            (Err(e), Err(f)) => e == f,
            _ => false,
        },
{
}

/// A contest of the judge.
#[derive(Debug)]
pub struct Contest {
    pub id: u32,
    pub name: String,
}

/// The mathematical value of a [`Contest`].
pub struct ContestView {
    pub id: u32,
    pub name: Seq<char>,
}

impl View for Contest {
    type V = ContestView;

    open spec fn view(&self) -> ContestView {
        ContestView { id: self.id, name: self.name@ }
    }
}

impl DeepView for Contest {
    type V = ContestView;

    open spec fn deep_view(&self) -> ContestView {
        self@
    }
}

impl Clone for Contest {
    fn clone(&self) -> (r: Self)
        ensures
            r@ == self@,
    {
        Contest { id: self.id, name: self.name.clone() }
    }
}

/// The contest is one of the ICPC: its name says so.
pub open spec fn is_icpc(c: ContestView) -> bool {
    contains_text(c.name, "ICPC"@)
}

/// [`is_icpc`] as a predicate on contests.
pub open spec fn icpc_pred() -> spec_fn(ContestView) -> bool {
    |c: ContestView| is_icpc(c)
}

/// The contests of the ICPC among `contests`, in their order.
pub fn icpc_contests(contests: &Vec<Contest>) -> (r: Vec<Contest>)
    ensures
        r.deep_view() == contests.deep_view().filter(icpc_pred()),
{
    let ghost all = contests.deep_view();
    let ghost pred = icpc_pred();
    let needle = chars_of("ICPC");
    let mut r: Vec<Contest> = Vec::new();
    let mut i: usize = 0;
    assert(all.take(0).filter(pred) =~= Seq::empty()) by {
        reveal(Seq::filter);
    }
    while i < contests.len()
        invariant
            i <= contests.len(),
            all == contests.deep_view(),
            pred == icpc_pred(),
            needle@ == "ICPC"@,
            r.deep_view() == all.take(i as int).filter(pred),
        decreases contests.len() - i,
    {
        let name = chars_of(contests[i].name.as_str());
        let keep = has_text(&name, &needle);
        proof {
            assert(all[i as int] == contests[i as int]@);
            assert(keep == pred(all[i as int]));
            assert(all.take(i + 1) =~= all.take(i as int).push(all[i as int]));
            all.take(i as int).lemma_filter_push(all[i as int], pred);
        }
        if keep {
            let ghost before = r.deep_view();
            r.push(contests[i].clone());
            assert(r.deep_view() =~= before.push(all[i as int]));
        }
        i += 1;
    }
    assert(all.take(i as int) =~= all);
    r
}

/// The contest at the drawn position `drawn` among the contests of the
/// ICPC in `contests`.
pub fn get_icpc_contest_with_weights(contests: &Vec<Contest>, drawn: usize) -> (r: Result<
    Contest,
    MatchError,
>)
    ensures
        ({
            let icpc = contests.deep_view().filter(icpc_pred());
            match r {
                Ok(c) => drawn < icpc.len() && c@ == icpc[drawn as int],
                Err(e) => if icpc.len() == 0 {
                    e == MatchError::NoCandidates
                } else {
                    e == MatchError::DrawOutOfRange && drawn >= icpc.len()
                },
            }
        }),
{
    let icpc = icpc_contests(contests);
    if icpc.len() == 0 {
        Err(MatchError::NoCandidates)
    } else if drawn >= icpc.len() {
        Err(MatchError::DrawOutOfRange)
    } else {
        Ok(icpc[drawn].clone())
    }
}

/// How many of the first `n` rows of a standing solved problem `idx`: a
/// row holds, for each problem it has a result for, whether it solved it.
pub open spec fn solve_count(rows: Seq<Seq<bool>>, idx: int, n: int) -> int
    decreases n,
{
    if n <= 0 {
        0
    } else {
        solve_count(rows, idx, n - 1) + if idx < rows[n - 1].len() && rows[n - 1][idx] {
            1int
        } else {
            0int
        }
    }
}

/// The rows of a standing as sequences.
pub open spec fn row_views(rows: Seq<Vec<bool>>) -> Seq<Seq<bool>> {
    Seq::new(rows.len(), |i: int| rows[i]@)
}

/// The solve counts of all `problems` problems, as keys.
pub open spec fn solve_keys(problems: int, rows: Seq<Seq<bool>>) -> Seq<u64> {
    Seq::new(problems as nat, |idx: int| solve_count(rows, idx, rows.len() as int) as u64)
}

proof fn lemma_solve_count(rows: Seq<Seq<bool>>, idx: int, n: int)
    requires
        0 <= n <= rows.len(),
    ensures
        0 <= solve_count(rows, idx, n) <= n,
    decreases n,
{
    if n > 0 {
        lemma_solve_count(rows, idx, n - 1);
    }
}

/// For each of `problems` problems of a contest, how many rows of its
/// standing solved it. A result beyond the problems of the contest counts
/// for nothing.
pub fn solve_counts(problems: usize, rows: &Vec<Vec<bool>>) -> (r: Vec<u64>)
    ensures
        r@ == solve_keys(problems as int, row_views(rows@)),
{
    let ghost views = row_views(rows@);
    let mut r: Vec<u64> = Vec::new();
    let mut idx: usize = 0;
    while idx < problems
        invariant
            idx <= problems,
            views == row_views(rows@),
            r.len() == idx,
            forall|k: int|
                0 <= k < idx ==> #[trigger] r[k] == solve_count(views, k, rows.len() as int),
        decreases problems - idx,
    {
        let mut count: u64 = 0;
        let mut n: usize = 0;
        while n < rows.len()
            invariant
                n <= rows.len(),
                views == row_views(rows@),
                count == solve_count(views, idx as int, n as int),
                count <= n,
            decreases rows.len() - n,
        {
            assert(views[n as int] == rows[n as int]@);
            if idx < rows[n].len() && rows[n][idx] {
                count += 1;
            }
            n += 1;
        }
        r.push(count);
        idx += 1;
    }
    proof {
        assert forall|k: int| 0 <= k < problems implies r@[k] == solve_keys(
            problems as int,
            views,
        )[k] by {
            lemma_solve_count(views, k, rows.len() as int);
        }
        assert(r@ =~= solve_keys(problems as int, views));
    }
    r
}

/// The problem of an ICPC contest at the drawn position `drawn` of its
/// problems by ascending solve count, problems of equal count in the order
/// of the contest. `rows` holds, for each row of the standing and each
/// problem, whether the row solved the problem.
pub fn get_icpc_problems(contest_problems: &Vec<Problem>, rows: &Vec<Vec<bool>>, drawn: usize) -> (r:
    Result<Problem, MatchError>)
    ensures
        ({
            let ranked = arrange(
                contest_problems.deep_view(),
                stable_order(solve_keys(contest_problems.len() as int, row_views(rows@))),
            );
            match r {
                Ok(p) => drawn < contest_problems.len() && p@ == ranked[drawn as int],
                Err(e) => if contest_problems.len() == 0 {
                    e == MatchError::NoCandidates
                } else {
                    e == MatchError::DrawOutOfRange && drawn >= contest_problems.len()
                },
            }
        }),
{
    if contest_problems.len() == 0 {
        return Err(MatchError::NoCandidates);
    }
    if drawn >= contest_problems.len() {
        return Err(MatchError::DrawOutOfRange);
    }
    let counts = solve_counts(contest_problems.len(), rows);
    let indices = sort_positions(&counts);
    assert(positions(indices@)[drawn as int] == indices[drawn as int]);
    Ok(contest_problems[indices[drawn]].clone())
}

/// The problem has a contest.
pub open spec fn has_contest() -> spec_fn(ProblemView) -> bool {
    |p: ProblemView| p.contest_id is Some
}

/// The problems of `problems` that have a contest, in their order.
pub fn with_contest(problems: &Vec<Problem>) -> (r: Vec<Problem>)
    ensures
        r.deep_view() == problems.deep_view().filter(has_contest()),
{
    let ghost all = problems.deep_view();
    let ghost pred = has_contest();
    let mut r: Vec<Problem> = Vec::new();
    let mut i: usize = 0;
    assert(all.take(0).filter(pred) =~= Seq::empty()) by {
        reveal(Seq::filter);
    }
    while i < problems.len()
        invariant
            i <= problems.len(),
            all == problems.deep_view(),
            pred == has_contest(),
            r.deep_view() == all.take(i as int).filter(pred),
        decreases problems.len() - i,
    {
        proof {
            assert(all[i as int] == problems[i as int]@);
            assert(all.take(i + 1) =~= all.take(i as int).push(all[i as int]));
            all.take(i as int).lemma_filter_push(all[i as int], pred);
        }
        if problems[i].contest_id.is_some() {
            let ghost before = r.deep_view();
            r.push(problems[i].clone());
            assert(r.deep_view() =~= before.push(all[i as int]));
        }
        i += 1;
    }
    assert(all.take(i as int) =~= all);
    r
}

/// A problem of `problems` that has a contest, each of them with the same
/// chance: the problem that a new participant is asked to submit to. Where
/// no problem has a contest there is none to give.
pub fn suggest_problem(problems: &Vec<Problem>) -> (r: Result<Problem, MatchError>)
    ensures
        match r {
            Ok(p) => problems.deep_view().filter(has_contest()).contains(p@)
                && problems.deep_view().contains(p@) && p@.contest_id is Some,
            Err(e) => e == MatchError::NoCandidates && problems.deep_view().filter(
                has_contest(),
            ).len() == 0,
        },
{
    let eligible = with_contest(problems);
    if eligible.len() == 0 {
        return Err(MatchError::NoCandidates);
    }
    let drawn = uniform(0, (eligible.len() - 1) as u64) as usize;
    let p = eligible[drawn].clone();
    proof {
        let kept = problems.deep_view().filter(has_contest());
        assert(kept[drawn as int] == p@);
        problems.deep_view().lemma_filter_pred(has_contest(), drawn as int);
        problems.deep_view().lemma_filter_contains_rev(has_contest(), p@);
    }
    Ok(p)
}

/// What a request for a problem asks for.
#[derive(Clone, Copy, Debug, PartialEq, Eq, Structural)]
pub enum GiveKind {
    /// A problem to practise on.
    Practice,
    /// A problem that is kept as the participant's challenge.
    Challenge,
    /// The usage of the command.
    Help,
    /// Problems of ICPC contests.
    Icpc,
}

/// The kind that the first argument of a request names.
pub open spec fn give_kind_of(arg: Seq<char>) -> Option<GiveKind> {
    if arg == "practice"@ || arg == "p"@ {
        Some(GiveKind::Practice)
    } else if arg == "challenge"@ || arg == "c"@ {
        Some(GiveKind::Challenge)
    } else if arg == "help"@ || arg == "h"@ {
        Some(GiveKind::Help)
    } else if arg == "icpc"@ {
        Some(GiveKind::Icpc)
    } else {
        None
    }
}

/// The kind that the first argument `arg` of a request names, if it names
/// one.
pub fn give_kind(arg: &str) -> (r: Option<GiveKind>)
    ensures
        r == give_kind_of(arg@),
{
    if str_eq(arg, "practice") || str_eq(arg, "p") {
        Some(GiveKind::Practice)
    } else if str_eq(arg, "challenge") || str_eq(arg, "c") {
        Some(GiveKind::Challenge)
    } else if str_eq(arg, "help") || str_eq(arg, "h") {
        Some(GiveKind::Help)
    } else if str_eq(arg, "icpc") {
        Some(GiveKind::Icpc)
    } else {
        None
    }
}

/// The most ICPC problems that are given at once.
pub const MAX_ICPC_PROBLEMS: u32 = 20;

/// Whether `count` ICPC problems can be given at once.
pub fn icpc_count(count: u32) -> (r: Result<u32, MatchError>)
    ensures
        r == if count <= MAX_ICPC_PROBLEMS {
            Ok::<u32, MatchError>(count)
        } else {
            Err::<u32, MatchError>(MatchError::TooMany)
        },
{
    if count <= MAX_ICPC_PROBLEMS {
        Ok(count)
    } else {
        Err(MatchError::TooMany)
    }
}

/// The lower end of the ratings that a request asks for: `rating` above
/// `base`, not below [`MIN_RATING`].
pub open spec fn window_low(rating: u32, base: u32) -> int {
    if rating + base >= MIN_RATING {
        rating + base
    } else {
        MIN_RATING as int
    }
}

/// The upper end of the ratings that a request asks for: `range` above
/// `base`, not above [`MAX_RATING`], and not below the lower end.
pub open spec fn window_high(rating: u32, range: u32, base: u32) -> int {
    let high = if range + base <= MAX_RATING {
        range + base
    } else {
        MAX_RATING as int
    };
    if high < window_low(rating, base) {
        window_low(rating, base)
    } else {
        high
    }
}

/// The range is given and ends below `rating`.
pub open spec fn range_below(rating: u32, rating_range: Option<u32>) -> bool {
    match rating_range {
        Some(range) => rating > range,
        None => false,
    }
}

/// A rating brought into what the judge has: not below [`MIN_RATING`], not
/// above [`MAX_RATING`].
pub open spec fn settled(rating: int) -> int {
    if rating < MIN_RATING {
        MIN_RATING as int
    } else if rating > MAX_RATING {
        MAX_RATING as int
    } else {
        rating
    }
}

/// The ratings between which a request asks for a problem: see
/// [`window_low`] and [`window_high`]. Without a range both ends are the
/// lower end. A range that ends below its beginning is refused.
pub fn rating_window(rating: u32, rating_range: Option<u32>, base: u32) -> (r: Result<
    (u64, u64),
    MatchError,
>)
    ensures
        match r {
            Ok(w) => {
                &&& w.0 == window_low(rating, base)
                &&& w.1 == match rating_range {
                    Some(range) => window_high(rating, range, base),
                    None => window_low(rating, base),
                }
                &&& w.0 <= w.1
                &&& !range_below(rating, rating_range)
            },
            Err(e) => e == MatchError::InvalidRange && range_below(rating, rating_range),
        },
{
    let raised = rating as u64 + base as u64;
    let low = if raised >= MIN_RATING as u64 {
        raised
    } else {
        MIN_RATING as u64
    };
    match rating_range {
        Some(range) => {
            if rating > range {
                return Err(MatchError::InvalidRange);
            }
            let top = range as u64 + base as u64;
            let capped = if top <= MAX_RATING as u64 {
                top
            } else {
                MAX_RATING as u64
            };
            let high = if capped < low {
                low
            } else {
                capped
            };
            Ok((low, high))
        },
        None => Ok((low, low)),
    }
}

/// The rating that a problem is asked for, from the rating `drawn` of the
/// window: see [`settled`].
pub fn settle_rating(drawn: u64) -> (r: u32)
    ensures
        r == settled(drawn as int),
{
    if drawn < MIN_RATING as u64 {
        MIN_RATING
    } else if drawn > MAX_RATING as u64 {
        MAX_RATING
    } else {
        drawn as u32
    }
}

/// The rating that a request asks a problem for: `rating` and the end
/// `rating_range` of its range count from `base`, the requester's own rating
/// for a challenge and zero for practice. With a range the rating is drawn
/// from the window, every rating of it with the same chance; without, it is
/// the window's lower end. Either way it is settled into what the judge has.
pub fn giveme_rating(rating: u32, rating_range: Option<u32>, base: u32) -> (r: Result<
    u32,
    MatchError,
>)
    ensures
        match r {
            Ok(got) => match rating_range {
                Some(range) => rating <= range && exists|drawn: int|
                    window_low(rating, base) <= drawn <= window_high(rating, range, base) && got
                        == #[trigger] settled(drawn),
                None => got == settled(window_low(rating, base)),
            },
            Err(e) => e == MatchError::InvalidRange && range_below(rating, rating_range),
        },
{
    match rating_window(rating, rating_range, base) {
        Ok((low, high)) => {
            let drawn = if rating_range.is_some() {
                uniform(low, high)
            } else {
                low
            };
            let got = settle_rating(drawn);
            assert(got == settled(drawn as int));
            Ok(got)
        },
        Err(e) => Err(e),
    }
}
} // verus!
