use match_engine::catalog::{
    check_complete_problem_with_given_submission, get_problem_for_users,
    get_problems_with_given_problemset, has_accepted, provide_problems_with_ratings,
};
use match_engine::error::MatchError;
use match_engine::problem::{Problem, Submission};

fn problem(contest: u32, index: &str, rating: Option<i32>) -> Problem {
    Problem {
        contest_id: Some(contest),
        problemset_name: None,
        index: index.to_string(),
        name: format!("problem {contest}{index}"),
        kind: "PROGRAMMING".to_string(),
        points: None,
        rating,
        tags: vec!["math".to_string()],
    }
}

fn submission(problem: &Problem, verdict: Option<&str>, at: u64) -> Submission {
    Submission {
        problem: problem.clone(),
        verdict: verdict.map(|v| v.to_string()),
        creation_time_seconds: at,
    }
}

fn keys(list: &[Problem]) -> Vec<(Option<u32>, String)> {
    list.iter().map(|p| (p.contest_id, p.index.clone())).collect()
}

#[test]
fn target_is_rounded_up_before_filtering() {
    let catalog = vec![problem(10, "A", Some(1100)), problem(11, "B", Some(1050))];
    let got = get_problems_with_given_problemset(1050, &catalog, &Vec::new()).unwrap();
    assert_eq!(keys(&got), vec![(Some(10), "A".to_string())]);
}

#[test]
fn a_target_on_a_hundred_stays() {
    let catalog = vec![problem(10, "A", Some(1100)), problem(11, "B", Some(1200))];
    let got = get_problems_with_given_problemset(1100, &catalog, &Vec::new()).unwrap();
    assert_eq!(keys(&got), vec![(Some(10), "A".to_string())]);
    let got = get_problems_with_given_problemset(1101, &catalog, &Vec::new()).unwrap();
    assert_eq!(keys(&got), vec![(Some(11), "B".to_string())]);
}

#[test]
fn solved_and_unrated_problems_are_left_out() {
    let a = problem(3, "A", Some(1200));
    let b = problem(2, "B", Some(1200));
    let c = problem(1, "C", None);
    let d = problem(1, "D", Some(1200));
    let subs = vec![
        submission(&b, Some("OK"), 5),
        submission(&a, Some("WRONG_ANSWER"), 6),
        submission(&d, None, 7),
    ];
    let catalog = vec![a, b, c, d];
    let got = get_problems_with_given_problemset(1200, &catalog, &subs).unwrap();
    assert_eq!(keys(&got), vec![(Some(1), "D".to_string()), (Some(3), "A".to_string())]);
    for p in &got {
        assert_eq!(p.rating, Some(1200));
        assert!(!has_accepted(&subs, p));
    }
}

#[test]
fn candidates_come_by_contest_and_keep_catalog_order_within_one() {
    let catalog = vec![
        problem(7, "C", Some(900)),
        problem(2, "B", Some(900)),
        problem(7, "A", Some(900)),
        problem(2, "A", Some(900)),
        problem(5, "Z", Some(900)),
    ];
    let got = get_problems_with_given_problemset(900, &catalog, &Vec::new()).unwrap();
    assert_eq!(
        keys(&got),
        vec![
            (Some(2), "B".to_string()),
            (Some(2), "A".to_string()),
            (Some(5), "Z".to_string()),
            (Some(7), "C".to_string()),
            (Some(7), "A".to_string()),
        ]
    );
}

#[test]
fn a_problem_without_contest_comes_first() {
    let mut loose = problem(0, "X", Some(900));
    loose.contest_id = None;
    let catalog = vec![problem(1, "A", Some(900)), loose];
    let got = get_problems_with_given_problemset(900, &catalog, &Vec::new()).unwrap();
    assert_eq!(keys(&got), vec![(None, "X".to_string()), (Some(1), "A".to_string())]);
}

#[test]
fn problems_are_the_same_by_contest_and_index_only() {
    let a = problem(4, "A", Some(1000));
    let mut renamed = problem(4, "A", Some(1000));
    renamed.name = "another name".to_string();
    renamed.tags = Vec::new();
    assert!(a.same_problem(&renamed));
    assert!(!a.same_problem(&problem(4, "B", Some(1000))));
    assert!(!a.same_problem(&problem(5, "A", Some(1000))));
    let subs = vec![submission(&renamed, Some("OK"), 1)];
    let got = get_problems_with_given_problemset(1000, &vec![a], &subs);
    assert!(matches!(got, Err(MatchError::NoCandidates)));
}

#[test]
fn no_candidate_is_an_error() {
    let catalog = vec![problem(1, "A", Some(800))];
    let got = get_problems_with_given_problemset(900, &catalog, &Vec::new());
    assert!(matches!(got, Err(MatchError::NoCandidates)));
    let got = get_problems_with_given_problemset(900, &Vec::new(), &Vec::new());
    assert!(matches!(got, Err(MatchError::NoCandidates)));
}

#[test]
fn a_target_near_the_largest_number_has_no_candidates() {
    let catalog = vec![problem(1, "A", Some(i32::MAX)), problem(1, "B", Some(-96))];
    let got = get_problems_with_given_problemset(u32::MAX, &catalog, &Vec::new());
    assert!(matches!(got, Err(MatchError::NoCandidates)));
    let got = get_problems_with_given_problemset(4294967200, &catalog, &Vec::new());
    assert!(matches!(got, Err(MatchError::NoCandidates)));
}

#[test]
fn completion_is_the_earliest_accepted_submission() {
    let a = problem(1, "A", Some(800));
    let b = problem(1, "B", Some(800));
    let subs = vec![
        submission(&a, Some("OK"), 50),
        submission(&b, Some("OK"), 10),
        submission(&a, Some("WRONG_ANSWER"), 5),
        submission(&a, Some("OK"), 30),
        submission(&a, None, 1),
        submission(&a, Some("OK"), 40),
    ];
    assert_eq!(check_complete_problem_with_given_submission(&a, &subs), Ok(30));
    assert_eq!(check_complete_problem_with_given_submission(&b, &subs), Ok(10));
}

#[test]
fn without_an_accepted_submission_the_problem_is_not_completed() {
    let a = problem(1, "A", Some(800));
    let b = problem(1, "B", Some(800));
    let subs = vec![submission(&a, Some("TIME_LIMIT_EXCEEDED"), 50), submission(&b, Some("OK"), 10)];
    assert_eq!(
        check_complete_problem_with_given_submission(&a, &subs),
        Err(MatchError::NotCompleted)
    );
    assert_eq!(
        check_complete_problem_with_given_submission(&a, &Vec::new()),
        Err(MatchError::NotCompleted)
    );
    let lower = vec![submission(&a, Some("ok"), 1)];
    assert_eq!(
        check_complete_problem_with_given_submission(&a, &lower),
        Err(MatchError::NotCompleted)
    );
}

#[test]
fn participants_share_what_each_of_them_may_be_given() {
    let a = problem(1, "A", Some(1000));
    let b = problem(2, "B", Some(1000));
    let c = problem(3, "C", Some(1000));
    let catalog = vec![c.clone(), a.clone(), b.clone()];
    let first = vec![submission(&a, Some("OK"), 1)];
    let second = vec![submission(&c, Some("OK"), 2), submission(&b, Some("WRONG_ANSWER"), 3)];
    let got = get_problem_for_users(1000, &catalog, &vec![first.clone(), second.clone()]).unwrap();
    assert_eq!(keys(&got), vec![(Some(2), "B".to_string())]);
    let got = get_problem_for_users(1000, &catalog, &vec![Vec::new(), Vec::new()]).unwrap();
    assert_eq!(
        keys(&got),
        vec![(Some(1), "A".to_string()), (Some(2), "B".to_string()), (Some(3), "C".to_string())]
    );
    let got = get_problem_for_users(1000, &catalog, &vec![first]).unwrap();
    assert_eq!(keys(&got), vec![(Some(2), "B".to_string()), (Some(3), "C".to_string())]);
}

#[test]
fn participants_without_a_shared_problem_get_none() {
    let a = problem(1, "A", Some(1000));
    let b = problem(2, "B", Some(1000));
    let catalog = vec![a.clone(), b.clone()];
    let first = vec![submission(&a, Some("OK"), 1)];
    let second = vec![submission(&b, Some("OK"), 2)];
    let got = get_problem_for_users(1000, &catalog, &vec![first.clone(), second]);
    assert!(matches!(got, Err(MatchError::NoCommonProblem)));
    let both = vec![submission(&a, Some("OK"), 1), submission(&b, Some("OK"), 2)];
    let got = get_problem_for_users(1000, &catalog, &vec![first, both]);
    assert!(matches!(got, Err(MatchError::NoCandidates)));
    let got = get_problem_for_users(1000, &catalog, &Vec::new());
    assert!(matches!(got, Err(MatchError::NoCandidates)));
}

#[test]
fn a_ladder_gets_candidates_for_each_rating() {
    let catalog =
        vec![problem(1, "A", Some(800)), problem(2, "B", Some(900)), problem(3, "C", Some(900))];
    let subs = vec![Vec::new(), Vec::new()];
    let got = provide_problems_with_ratings(&vec![800, 900], &catalog, &subs).unwrap();
    assert_eq!(got.len(), 2);
    assert_eq!(keys(&got[0]), vec![(Some(1), "A".to_string())]);
    assert_eq!(keys(&got[1]), vec![(Some(2), "B".to_string()), (Some(3), "C".to_string())]);
    let got = provide_problems_with_ratings(&vec![800, 1000, 900], &catalog, &subs);
    assert!(matches!(got, Err(MatchError::NoCandidates)));
    let got = provide_problems_with_ratings(&Vec::new(), &catalog, &subs).unwrap();
    assert!(got.is_empty());
}
