//! What is shown of a problem and of a lockout: the texts of a status
//! message, ready to be put into the fields of an announcement.

use crate::problem::{Problem, ProblemView};
use crate::registry::{Duel, DuelView};
use crate::scoring::{
    decided, get_standings, is_lockout_complete, leaderboard, points_of, rank_at, scores_of,
    standing_scores,
};
use crate::state::{remaining_time, time_left};
use crate::text::{chars_of, decimal_text, write_u64};
use vstd::prelude::*;

verus! {

/// What `str::to_uppercase` returns for a text: its characters in upper
/// case, as Unicode maps them.
pub uninterp spec fn uppercase(s: Seq<char>) -> Seq<char>;

/// `s` in upper case, by `str::to_uppercase`.
///
/// The contract names the result; the mapping itself is the standard
/// library's.
#[verifier::external_body]
fn to_upper(s: &str) -> (r: String)
    ensures
        r@ == uppercase(s@),
{
    s.to_uppercase()
}

/// Appends `c` to `s`, by `String::push`.
#[verifier::external_body]
fn push_char(s: &mut String, c: char)
    ensures
        final(s)@ == old(s)@.push(c),
{
    s.push(c)
}

/// The string of the characters `text`.
pub fn string_of(text: &Vec<char>) -> (r: String)
    ensures
        r@ == text@,
{
    let mut r = String::new();
    let mut i: usize = 0;
    while i < text.len()
        invariant
            i <= text.len(),
            r@ == text@.take(i as int),
        decreases text.len() - i,
    {
        push_char(&mut r, text[i]);
        assert(text@.take(i + 1) =~= text@.take(i as int).push(text@[i as int]));
        i += 1;
    }
    assert(text@.take(text.len() as int) =~= text@);
    r
}

fn put(out: &mut Vec<char>, text: &str)
    ensures
        final(out)@ == old(out)@ + text@,
{
    let mut more = chars_of(text);
    out.append(&mut more);
}

fn put_number(out: &mut Vec<char>, n: u64)
    ensures
        final(out)@ == old(out)@ + decimal_text(n as nat),
{
    let mut more = write_u64(n);
    out.append(&mut more);
}

/// The decimal text of a number that can be negative.
pub open spec fn signed_decimal_text(v: int) -> Seq<char> {
    if v < 0 {
        "-"@ + decimal_text((-v) as nat)
    } else {
        decimal_text(v as nat)
    }
}

fn put_signed(out: &mut Vec<char>, v: i32)
    ensures
        final(out)@ == old(out)@ + signed_decimal_text(v as int),
{
    if v < 0 {
        put(out, "-");
        put_number(out, (-(v as i64)) as u64);
        assert(out@ =~= old(out)@ + ("-"@ + decimal_text((-v) as nat)));
    } else {
        put_number(out, v as u64);
    }
}

/// A link that shows `message` and leads to `url`.
pub open spec fn href(url: Seq<char>, message: Seq<char>) -> Seq<char> {
    "["@ + message + "]("@ + url + ")"@
}

/// A link that shows `message` and leads to `url`.
pub fn create_href(url: &str, message: &str) -> (r: String)
    ensures
        r@ == href(url@, message@),
{
    let mut out: Vec<char> = Vec::new();
    put(&mut out, "[");
    put(&mut out, message);
    put(&mut out, "](");
    put(&mut out, url);
    put(&mut out, ")");
    assert(out@ =~= href(url@, message@));
    string_of(&out)
}

/// Where the judge shows a problem of contest `contest` with index
/// `index`.
pub open spec fn problem_address(contest: u32, index: Seq<char>) -> Seq<char> {
    "https://codeforces.com/contest/"@ + decimal_text(contest as nat) + "/problem/"@ + index
}

/// Where the judge shows a participant with the handle `handle`.
pub open spec fn profile_address(handle: Seq<char>) -> Seq<char> {
    "https://codeforces.com/profile/"@ + handle
}

/// Where the judge shows `problem`; a problem without a contest has no
/// address.
pub fn problem_url(problem: &Problem) -> (r: Option<String>)
    ensures
        match r {
            Some(url) => problem@.contest_id is Some && url@ == problem_address(
                problem@.contest_id.unwrap(),
                problem@.index,
            ),
            None => problem@.contest_id is None,
        },
{
    match problem.contest_id {
        Some(contest) => {
            let mut out: Vec<char> = Vec::new();
            put(&mut out, "https://codeforces.com/contest/");
            put_number(&mut out, contest as u64);
            put(&mut out, "/problem/");
            put(&mut out, problem.index.as_str());
            assert(out@ =~= problem_address(contest, problem@.index));
            Some(string_of(&out))
        },
        None => None,
    }
}

/// The title under which a problem is shown: its index in upper case, a
/// dot, and its name.
pub fn problem_title(problem: &Problem) -> (r: String)
    ensures
        r@ == uppercase(problem@.index) + ". "@ + problem@.name,
{
    let upper = to_upper(problem.index.as_str());
    let mut out: Vec<char> = Vec::new();
    put(&mut out, upper.as_str());
    put(&mut out, ". ");
    put(&mut out, problem.name.as_str());
    assert(out@ =~= uppercase(problem@.index) + ". "@ + problem@.name);
    string_of(&out)
}

/// How a rank is shown: a medal for the first three, the number for the
/// others.
pub open spec fn rank_text(rank: int) -> Seq<char> {
    if rank == 1 {
        ":first_place:"@
    } else if rank == 2 {
        ":second_place:"@
    } else if rank == 3 {
        ":third_place:"@
    } else {
        decimal_text(rank as nat)
    }
}

/// The line of the standings for a player with the handle `handle`.
pub open spec fn standing_line(rank: int, handle: Seq<char>, score: u32) -> Seq<char> {
    rank_text(rank) + " "@ + href(profile_address(handle), handle) + " **"@ + decimal_text(
        score as nat,
    ) + "** points\n"@
}

/// The first `n` lines of the standings of a lockout, in leaderboard
/// order.
pub open spec fn standings_text(d: DuelView, n: int) -> Seq<char>
    decreases n,
{
    if n <= 0 {
        Seq::empty()
    } else {
        let scores = scores_of(d);
        let pos = n - 1;
        standings_text(d, n - 1) + standing_line(
            rank_at(standing_scores(scores), pos),
            d.players[leaderboard(scores)[pos]].handle,
            standing_scores(scores)[pos],
        )
    }
}

/// The standings of a lockout: one line for each player, in leaderboard
/// order, with rank, a link to the player's profile, and score. A lockout
/// whose scores do not fit its roster has no standings.
pub fn get_standing_string(lockout: &Duel) -> (r: String)
    ensures
        r@ == if scores_of(lockout@).len() == lockout@.players.len() {
            standings_text(lockout@, lockout@.players.len() as int)
        } else {
            Seq::empty()
        },
{
    let standings = get_standings(lockout);
    let mut out: Vec<char> = Vec::new();
    if standings.len() != lockout.players.len() {
        return string_of(&out);
    }
    proof {
        crate::scoring::lemma_leaderboard(scores_of(lockout@));
    }
    let mut pos: usize = 0;
    while pos < standings.len()
        invariant
            pos <= standings.len(),
            standings.len() == lockout.players.len(),
            scores_of(lockout@).len() == lockout@.players.len(),
            forall|p: int|
                0 <= p < scores_of(lockout@).len() ==> 0 <= #[trigger] leaderboard(
                    scores_of(lockout@),
                )[p] < scores_of(lockout@).len(),
            forall|q: int|
                0 <= q < standings.len() ==> {
                    &&& (#[trigger] standings[q]).player == leaderboard(scores_of(lockout@))[q]
                    &&& standings[q].score == standing_scores(scores_of(lockout@))[q]
                    &&& standings[q].rank == rank_at(standing_scores(scores_of(lockout@)), q)
                },
            out@ == standings_text(lockout@, pos as int),
        decreases standings.len() - pos,
    {
        let row = standings[pos];
        let ghost before = out@;
        let ghost player = leaderboard(scores_of(lockout@))[pos as int];
        assert(row.player == player);
        let handle = lockout.players[row.player].handle.as_str();
        assert(handle@ == lockout@.players[player].handle);
        if row.rank == 1 {
            put(&mut out, ":first_place:");
        } else if row.rank == 2 {
            put(&mut out, ":second_place:");
        } else if row.rank == 3 {
            put(&mut out, ":third_place:");
        } else {
            put_number(&mut out, row.rank as u64);
        }
        put(&mut out, " ");
        put(&mut out, "[");
        put(&mut out, handle);
        put(&mut out, "](");
        put(&mut out, "https://codeforces.com/profile/");
        put(&mut out, handle);
        put(&mut out, ")");
        put(&mut out, " **");
        put_number(&mut out, row.score as u64);
        put(&mut out, "** points\n");
        assert(out@ =~= before + standing_line(row.rank as int, handle@, row.score));
        pos += 1;
    }
    string_of(&out)
}

/// How the point value of a problem is shown: a claimed problem is locked.
pub open spec fn point_line(point: u32) -> Seq<char> {
    (if point == 0 {
        "Locked"@
    } else {
        decimal_text(point as nat)
    }) + "\n"@
}

/// The first `n` lines of the point values.
pub open spec fn points_text(points: Seq<u32>, n: int) -> Seq<char>
    decreases n,
{
    if n <= 0 {
        Seq::empty()
    } else {
        points_text(points, n - 1) + point_line(points[n - 1])
    }
}

/// The point values of the problems of a lockout, one line for each.
pub fn get_points_string(lockout: &Duel) -> (r: String)
    ensures
        r@ == points_text(points_of(lockout@), points_of(lockout@).len() as int),
{
    let mut out: Vec<char> = Vec::new();
    match &lockout.problems_point {
        Some(points) => {
            let mut i: usize = 0;
            while i < points.len()
                invariant
                    i <= points.len(),
                    out@ == points_text(points@, i as int),
                decreases points.len() - i,
            {
                let ghost before = out@;
                if points[i] == 0 {
                    put(&mut out, "Locked");
                } else {
                    put_number(&mut out, points[i] as u64);
                }
                put(&mut out, "\n");
                assert(out@ =~= before + point_line(points[i as int]));
                i += 1;
            }
        },
        None => {},
    }
    string_of(&out)
}

/// How the rating of a problem is shown; a problem without rating shows
/// none.
pub open spec fn rating_line(p: ProblemView) -> Seq<char> {
    (match p.rating {
        Some(r) => signed_decimal_text(r as int),
        None => Seq::empty(),
    }) + "\n"@
}

/// The first `n` lines of the ratings.
pub open spec fn ratings_text(problems: Seq<ProblemView>, n: int) -> Seq<char>
    decreases n,
{
    if n <= 0 {
        Seq::empty()
    } else {
        ratings_text(problems, n - 1) + rating_line(problems[n - 1])
    }
}

/// The ratings of the problems of a lockout, one line for each.
pub fn get_ratings_string(lockout: &Duel) -> (r: String)
    ensures
        r@ == ratings_text(lockout@.problems, lockout@.problems.len() as int),
{
    let mut out: Vec<char> = Vec::new();
    let mut i: usize = 0;
    while i < lockout.problems.len()
        invariant
            i <= lockout.problems.len(),
            out@ == ratings_text(lockout@.problems, i as int),
        decreases lockout.problems.len() - i,
    {
        let ghost before = out@;
        assert(lockout@.problems[i as int] == lockout.problems[i as int]@);
        match lockout.problems[i].rating {
            Some(r) => {
                put_signed(&mut out, r);
            },
            None => {
                assert(out@ =~= before + Seq::<char>::empty());
            },
        }
        put(&mut out, "\n");
        assert(out@ =~= before + rating_line(lockout@.problems[i as int]));
        i += 1;
    }
    string_of(&out)
}

/// How a problem of a lockout is shown: while it can be claimed, its name
/// as a link to the problem, or the bare name where it has no contest; once
/// claimed, its name struck through.
pub open spec fn problem_line(p: ProblemView, point: u32) -> Seq<char> {
    (if point != 0 {
        match p.contest_id {
            Some(contest) => href(problem_address(contest, p.index), p.name),
            None => p.name,
        }
    } else {
        "~~"@ + p.name + "~~"@
    }) + "\n"@
}

/// The first `n` lines of the problems.
pub open spec fn problems_text(problems: Seq<ProblemView>, points: Seq<u32>, n: int) -> Seq<char>
    decreases n,
{
    if n <= 0 {
        Seq::empty()
    } else {
        problems_text(problems, points, n - 1) + problem_line(problems[n - 1], points[n - 1])
    }
}

/// The problems of a lockout, one line for each. A lockout whose point
/// values do not fit its problems shows none.
pub fn get_problems_string(lockout: &Duel) -> (r: String)
    ensures
        r@ == if points_of(lockout@).len() == lockout@.problems.len() {
            problems_text(
                lockout@.problems,
                points_of(lockout@),
                lockout@.problems.len() as int,
            )
        } else {
            Seq::empty()
        },
{
    let mut out: Vec<char> = Vec::new();
    match &lockout.problems_point {
        Some(points) => {
            if points.len() != lockout.problems.len() {
                return string_of(&out);
            }
            let mut i: usize = 0;
            while i < lockout.problems.len()
                invariant
                    i <= lockout.problems.len(),
                    points.len() == lockout.problems.len(),
                    out@ == problems_text(lockout@.problems, points@, i as int),
                decreases lockout.problems.len() - i,
            {
                let ghost before = out@;
                let p = &lockout.problems[i];
                assert(lockout@.problems[i as int] == p@);
                if points[i] != 0 {
                    match p.contest_id {
                        Some(contest) => {
                            put(&mut out, "[");
                            put(&mut out, p.name.as_str());
                            put(&mut out, "](");
                            put(&mut out, "https://codeforces.com/contest/");
                            put_number(&mut out, contest as u64);
                            put(&mut out, "/problem/");
                            put(&mut out, p.index.as_str());
                            put(&mut out, ")");
                        },
                        None => {
                            put(&mut out, p.name.as_str());
                        },
                    }
                } else {
                    put(&mut out, "~~");
                    put(&mut out, p.name.as_str());
                    put(&mut out, "~~");
                }
                put(&mut out, "\n");
                assert(out@ =~= before + problem_line(p@, points[i as int]));
                i += 1;
            }
        },
        None => {
            if lockout.problems.len() != 0 {
                return string_of(&out);
            }
        },
    }
    string_of(&out)
}

/// The lockout is over at `now`: it is decided.
pub open spec fn ended(d: DuelView, now: u64) -> bool {
    decided(d, now)
}

/// What is shown of the time of a lockout at `now`: that it has ended, or
/// the hours and minutes that are left.
pub open spec fn time_left_text(d: DuelView, now: u64) -> Seq<char> {
    if ended(d, now) {
        "Ended"@
    } else {
        let left = time_left(d.begin_time, d.match_duration.unwrap(), now);
        "Time left: "@ + decimal_text((((left / 60) / 60) % 60) as nat) + " hour(s) and "@
            + decimal_text(((left / 60) % 60) as nat) + " minute(s)"@
    }
}

/// What is shown of the time of `lockout` at `now`.
pub fn get_time_left_string(lockout: &Duel, now: u64) -> (r: String)
    ensures
        r@ == time_left_text(lockout@, now),
{
    let mut out: Vec<char> = Vec::new();
    if is_lockout_complete(lockout, now) {
        put(&mut out, "Ended");
        assert(out@ =~= "Ended"@);
        return string_of(&out);
    }
    let limit = match lockout.match_duration {
        Some(limit) => limit,
        None => 0,
    };
    let left = remaining_time(lockout.begin_time, limit, now);
    put(&mut out, "Time left: ");
    put_number(&mut out, ((left / 60) / 60) % 60);
    put(&mut out, " hour(s) and ");
    put_number(&mut out, (left / 60) % 60);
    put(&mut out, " minute(s)");
    assert(out@ =~= time_left_text(lockout@, now));
    string_of(&out)
}

/// The texts of the status message of a lockout.
#[derive(Debug)]
pub struct LockoutStatus {
    /// The standings.
    pub standings: String,
    /// The point values, the problems and the ratings, where the problem
    /// set is shown.
    pub problem_set: Option<(String, String, String)>,
    /// What is shown of the lockout's time.
    pub footer: String,
    /// Whether the lockout is over.
    pub ended: bool,
}

/// The texts of the status message of `lockout` at `now`, with or without
/// its problem set.
pub fn create_lockout_status(lockout: &Duel, show_problem_set: bool, now: u64) -> (r: LockoutStatus)
    ensures
        r.ended == ended(lockout@, now),
        r.footer@ == time_left_text(lockout@, now),
        r.standings@ == if scores_of(lockout@).len() == lockout@.players.len() {
            standings_text(lockout@, lockout@.players.len() as int)
        } else {
            Seq::empty()
        },
        show_problem_set == r.problem_set is Some,
        r.problem_set matches Some(set) ==> {
            &&& set.0@ == points_text(points_of(lockout@), points_of(lockout@).len() as int)
            &&& set.1@ == if points_of(lockout@).len() == lockout@.problems.len() {
                problems_text(
                    lockout@.problems,
                    points_of(lockout@),
                    lockout@.problems.len() as int,
                )
            } else {
                Seq::empty()
            }
            &&& set.2@ == ratings_text(lockout@.problems, lockout@.problems.len() as int)
        },
{
    let problem_set = if show_problem_set {
        Some((get_points_string(lockout), get_problems_string(lockout), get_ratings_string(lockout)))
    } else {
        None
    };
    LockoutStatus {
        standings: get_standing_string(lockout),
        problem_set,
        footer: get_time_left_string(lockout, now),
        ended: is_lockout_complete(lockout, now),
    }
}
} // verus!
