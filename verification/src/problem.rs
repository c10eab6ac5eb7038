//! Problems and submissions as the judge reports them.

use crate::text::str_eq;
use vstd::prelude::*;

verus! {

/// A problem of the judge's catalog.
///
/// `points` holds the bit pattern of the judge's fractional score, so that
/// the value can be carried through unchanged.
#[derive(Debug)]
pub struct Problem {
    pub contest_id: Option<u32>,
    pub problemset_name: Option<String>,
    pub index: String,
    pub name: String,
    pub kind: String,
    pub points: Option<u32>,
    pub rating: Option<i32>,
    pub tags: Vec<String>,
}

/// The mathematical value of a [`Problem`].
pub struct ProblemView {
    pub contest_id: Option<u32>,
    pub problemset_name: Option<Seq<char>>,
    pub index: Seq<char>,
    pub name: Seq<char>,
    pub kind: Seq<char>,
    pub points: Option<u32>,
    pub rating: Option<i32>,
    pub tags: Seq<Seq<char>>,
}

impl View for Problem {
    type V = ProblemView;

    open spec fn view(&self) -> ProblemView {
        ProblemView {
            contest_id: self.contest_id,
            problemset_name: match self.problemset_name {
                Some(s) => Some(s@),
                None => None,
            },
            index: self.index@,
            name: self.name@,
            kind: self.kind@,
            points: self.points,
            rating: self.rating,
            tags: self.tags.deep_view(),
        }
    }
}

impl DeepView for Problem {
    type V = ProblemView;

    open spec fn deep_view(&self) -> ProblemView {
        self@
    }
}

impl ProblemView {
    /// Two problems are the same problem when contest and index agree.
    pub open spec fn same_problem(self, other: ProblemView) -> bool {
        self.contest_id == other.contest_id && self.index == other.index
    }
}

/// Copies a list of strings.
pub fn clone_strings(v: &Vec<String>) -> (r: Vec<String>)
    ensures
        r.deep_view() == v.deep_view(),
{
    let mut r: Vec<String> = Vec::new();
    let mut i: usize = 0;
    while i < v.len()
        invariant
            i <= v.len(),
            r.len() == i,
            forall|j: int| 0 <= j < i ==> r[j]@ == v[j]@,
        decreases v.len() - i,
    {
        r.push(v[i].clone());
        i += 1;
    }
    assert(r.deep_view() =~= v.deep_view());
    r
}

impl Clone for Problem {
    fn clone(&self) -> (r: Self)
        ensures
            r@ == self@,
    {
        Problem {
            contest_id: self.contest_id,
            problemset_name: match &self.problemset_name {
                Some(s) => Some(s.clone()),
                None => None,
            },
            index: self.index.clone(),
            name: self.name.clone(),
            kind: self.kind.clone(),
            points: self.points,
            rating: self.rating,
            tags: clone_strings(&self.tags),
        }
    }
}

impl Problem {
    /// Whether `self` and `other` are the same problem of the judge.
    pub fn same_problem(&self, other: &Problem) -> (b: bool)
        ensures
            b == self@.same_problem(other@),
    {
        self.contest_id == other.contest_id && self.index == other.index
    }
}

/// A submission of one participant, as far as the engine reads it.
#[derive(Debug)]
pub struct Submission {
    pub problem: Problem,
    pub verdict: Option<String>,
    pub creation_time_seconds: u64,
}

/// The mathematical value of a [`Submission`].
pub struct SubmissionView {
    pub problem: ProblemView,
    pub verdict: Option<Seq<char>>,
    pub creation_time_seconds: u64,
}

impl View for Submission {
    type V = SubmissionView;

    open spec fn view(&self) -> SubmissionView {
        SubmissionView {
            problem: self.problem@,
            verdict: match self.verdict {
                Some(s) => Some(s@),
                None => None,
            },
            creation_time_seconds: self.creation_time_seconds,
        }
    }
}

impl DeepView for Submission {
    type V = SubmissionView;

    open spec fn deep_view(&self) -> SubmissionView {
        self@
    }
}

impl SubmissionView {
    /// The judge accepted the submission.
    pub open spec fn accepted(self) -> bool {
        self.verdict == Some("OK"@)
    }

    /// The submission is an accepted one for problem `p`.
    pub open spec fn solves(self, p: ProblemView) -> bool {
        self.accepted() && self.problem.same_problem(p)
    }
}

impl Clone for Submission {
    fn clone(&self) -> (r: Self)
        ensures
            r@ == self@,
    {
        Submission {
            problem: self.problem.clone(),
            verdict: match &self.verdict {
                Some(s) => Some(s.clone()),
                None => None,
            },
            creation_time_seconds: self.creation_time_seconds,
        }
    }
}

impl Submission {
    /// Whether the judge accepted the submission.
    pub fn accepted(&self) -> (b: bool)
        ensures
            b == self@.accepted(),
    {
        match &self.verdict {
            Some(v) => str_eq(v.as_str(), "OK"),
            None => false,
        }
    }

    /// Whether the submission is an accepted one for `problem`.
    pub fn solves(&self, problem: &Problem) -> (b: bool)
        ensures
            b == self@.solves(problem@),
    {
        self.accepted() && self.problem.same_problem(problem)
    }
}

/// Copies a list of problems.
pub fn clone_problems(v: &Vec<Problem>) -> (r: Vec<Problem>)
    ensures
        r.deep_view() == v.deep_view(),
{
    let mut r: Vec<Problem> = Vec::new();
    let mut i: usize = 0;
    while i < v.len()
        invariant
            i <= v.len(),
            r.len() == i,
            forall|j: int| 0 <= j < i ==> r[j]@ == v[j]@,
        decreases v.len() - i,
    {
        r.push(v[i].clone());
        i += 1;
    }
    assert(r.deep_view() =~= v.deep_view());
    r
}
} // verus!
