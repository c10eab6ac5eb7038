use match_engine::accounts::{add_problem_to_user, add_user_to_data, find_user_in_data};
use match_engine::challenge::{
    add_handle, challenge_points, check_user_registration, convert_to_hms, get_problemset,
    get_user_rating, gotit, handle_uncomplete_challenge, rating, skip, skip_wait,
    CHALLENGE_DURATION,
};
use match_engine::error::MatchError;
use match_engine::problem::{Problem, Submission};
use match_engine::registry::Data;

fn problem(contest: u32, index: &str, rating: Option<i32>) -> Problem {
    Problem {
        contest_id: Some(contest),
        problemset_name: None,
        index: index.to_string(),
        name: "name".to_string(),
        kind: "PROGRAMMING".to_string(),
        points: None,
        rating,
        tags: Vec::new(),
    }
}

fn submission(problem: &Problem, verdict: Option<&str>, at: u64) -> Submission {
    Submission {
        problem: problem.clone(),
        verdict: verdict.map(|v| v.to_string()),
        creation_time_seconds: at,
    }
}

fn challenged(rating: Option<i32>, taken: u64) -> (Data, Problem) {
    let mut data = Data::new();
    add_user_to_data(&mut data, 1, "alpha").unwrap();
    add_user_to_data(&mut data, 2, "beta").unwrap();
    let p = problem(5, "E", rating);
    add_problem_to_user(&mut data, 1, Some(&p), taken);
    (data, p)
}

#[test]
fn a_challenge_is_worth_what_the_table_gives_for_its_rating() {
    let table = [
        1, 2, 3, 3, 4, 4, 6, 8, 8, 10, 11, 15, 20, 22, 27, 35, 40, 49, 57, 75, 90, 103, 119, 137,
        154, 170, 188, 200,
    ];
    for (step, points) in table.iter().enumerate() {
        let rating = 800 + 100 * step as i32;
        assert_eq!(challenge_points(Some(rating)), Some(*points), "{rating}");
        assert_eq!(challenge_points(Some(rating + 99)), Some(*points), "{rating}");
    }
    assert_eq!(challenge_points(Some(800)), Some(1));
    assert_eq!(challenge_points(Some(3500)), Some(200));
    assert_eq!(challenge_points(Some(1900)), Some(15));
}

#[test]
fn a_rating_outside_the_table_is_worth_nothing() {
    assert_eq!(challenge_points(None), None);
    assert_eq!(challenge_points(Some(799)), None);
    assert_eq!(challenge_points(Some(3600)), None);
    assert_eq!(challenge_points(Some(0)), None);
    assert_eq!(challenge_points(Some(-900)), None);
    assert_eq!(challenge_points(Some(i32::MAX)), None);
    assert_eq!(challenge_points(Some(i32::MIN)), None);
}

#[test]
fn a_solved_challenge_is_credited_and_cleared() {
    let (mut data, p) = challenged(Some(1500), 100);
    let subs = vec![submission(&p, Some("WRONG_ANSWER"), 200), submission(&p, Some("OK"), 300)];
    assert_eq!(gotit(&mut data, 1, &subs), Ok(8));
    assert_eq!(data.data[0].challenge_score, 8);
    assert!(data.data[0].active_challenge.is_none());
    assert!(data.data[0].last_time_since_challenge.is_none());
    assert_eq!(data.data[1].challenge_score, 0);
    assert_eq!(gotit(&mut data, 1, &subs), Err(MatchError::NoChallenge));
    assert_eq!(data.data[0].challenge_score, 8);
}

#[test]
fn a_claim_without_ground_changes_nothing() {
    let (mut data, p) = challenged(Some(1500), 100);
    let before = format!("{data:?}");
    let other = problem(5, "F", Some(1500));
    assert_eq!(gotit(&mut data, 1, &vec![submission(&other, Some("OK"), 1)]), Err(MatchError::NotCompleted));
    assert_eq!(gotit(&mut data, 1, &vec![submission(&p, None, 1)]), Err(MatchError::NotCompleted));
    assert_eq!(gotit(&mut data, 1, &Vec::new()), Err(MatchError::NotCompleted));
    assert_eq!(gotit(&mut data, 2, &vec![submission(&p, Some("OK"), 1)]), Err(MatchError::NoChallenge));
    assert_eq!(gotit(&mut data, 3, &vec![submission(&p, Some("OK"), 1)]), Err(MatchError::NotRegistered));
    assert_eq!(format!("{data:?}"), before);
    let (mut unrated, q) = challenged(None, 100);
    let kept = format!("{unrated:?}");
    assert_eq!(gotit(&mut unrated, 1, &vec![submission(&q, Some("OK"), 1)]), Err(MatchError::InvariantViolation));
    assert_eq!(format!("{unrated:?}"), kept);
}

#[test]
fn a_challenge_can_be_skipped_when_it_is_old_enough() {
    let (mut data, _) = challenged(Some(1500), 1000);
    assert_eq!(skip(&mut data, 1, None, 1000), Err(MatchError::TooEarly));
    assert_eq!(skip(&mut data, 1, None, 1000 + CHALLENGE_DURATION - 1), Err(MatchError::TooEarly));
    assert_eq!(skip(&mut data, 1, None, 5), Err(MatchError::TooEarly));
    assert!(data.data[0].active_challenge.is_some());
    assert_eq!(skip(&mut data, 1, None, 1000 + CHALLENGE_DURATION), Ok(()));
    assert!(data.data[0].active_challenge.is_none());
    assert!(data.data[0].last_time_since_challenge.is_none());
    assert_eq!(skip(&mut data, 1, None, 99999), Err(MatchError::NoChallenge));
}

#[test]
fn a_skip_can_be_forced() {
    for option in ["-f", "-force"] {
        let (mut data, _) = challenged(Some(1500), 1000);
        assert_eq!(skip(&mut data, 1, Some(option), 1000), Ok(()));
        assert!(data.data[0].active_challenge.is_none());
    }
    let (mut data, _) = challenged(Some(1500), 1000);
    for option in ["-F", "force", "", "-f ", "--force"] {
        assert_eq!(skip(&mut data, 1, Some(option), 999_999), Err(MatchError::WrongOption), "{option:?}");
    }
    assert!(data.data[0].active_challenge.is_some());
    assert_eq!(skip(&mut data, 2, Some("-f"), 0), Err(MatchError::NoChallenge));
    assert_eq!(skip(&mut data, 9, Some("-f"), 0), Err(MatchError::NotRegistered));
}

#[test]
fn the_wait_for_a_skip_counts_down_from_half_an_hour() {
    let (data, _) = challenged(Some(1500), 1000);
    let user = find_user_in_data(&data, 1).unwrap();
    assert_eq!(skip_wait(&user, 1000), 1800);
    assert_eq!(skip_wait(&user, 1001), 1799);
    assert_eq!(skip_wait(&user, 2799), 1);
    assert_eq!(skip_wait(&user, 2800), 0);
    assert_eq!(skip_wait(&user, u64::MAX), 0);
    assert_eq!(skip_wait(&user, 0), 1800);
    assert_eq!(skip_wait(&find_user_in_data(&data, 2).unwrap(), 0), 0);
    assert_eq!(handle_uncomplete_challenge(&user), Err(MatchError::ActiveChallenge));
    assert_eq!(handle_uncomplete_challenge(&find_user_in_data(&data, 2).unwrap()), Ok(()));
}

#[test]
fn a_span_is_split_into_seconds_minutes_and_hours() {
    assert_eq!(convert_to_hms(0), (0, 0, 0));
    assert_eq!(convert_to_hms(59), (59, 0, 0));
    assert_eq!(convert_to_hms(60), (0, 1, 0));
    assert_eq!(convert_to_hms(3599), (59, 59, 0));
    assert_eq!(convert_to_hms(5400), (0, 30, 1));
    assert_eq!(convert_to_hms(3600 * 59 + 61), (1, 1, 59));
    assert_eq!(convert_to_hms(3600 * 60), (0, 0, 0));
    assert_eq!(convert_to_hms(u64::MAX), (15, 0, 31));
}

#[test]
fn a_handle_is_proved_by_a_compilation_error_on_the_given_problem() {
    let p = problem(7, "A", Some(800));
    let other = problem(7, "B", Some(800));
    let good = vec![submission(&p, Some("COMPILATION_ERROR"), 9), submission(&other, Some("OK"), 1)];
    assert_eq!(check_user_registration(&p, &good), Ok(()));
    assert_eq!(check_user_registration(&p, &Vec::new()), Err(MatchError::JudgeUnavailable));
    let older = vec![submission(&p, Some("OK"), 9), submission(&p, Some("COMPILATION_ERROR"), 1)];
    assert_eq!(check_user_registration(&p, &older), Err(MatchError::NoCompilationError));
    assert_eq!(check_user_registration(&p, &vec![submission(&p, None, 9)]), Err(MatchError::NoCompilationError));
    let wrong = vec![submission(&other, Some("COMPILATION_ERROR"), 9)];
    assert_eq!(check_user_registration(&p, &wrong), Err(MatchError::WrongProblem));
}

#[test]
fn a_proved_handle_is_registered() {
    let p = problem(7, "A", Some(800));
    let good = vec![submission(&p, Some("COMPILATION_ERROR"), 9)];
    let mut data = Data::new();
    assert_eq!(add_handle(&mut data, 5, "tourist", &p, &Vec::new()), Err(MatchError::JudgeUnavailable));
    assert!(data.data.is_empty());
    assert_eq!(add_handle(&mut data, 5, "tourist", &p, &good), Ok(()));
    assert_eq!(data.data.len(), 1);
    assert_eq!(data.data[0].user_id, 5);
    assert_eq!(data.data[0].handle, "tourist");
    assert_eq!(add_handle(&mut data, 5, "tourist", &p, &good), Err(MatchError::AccountTaken));
    assert_eq!(data.data.len(), 1);
}

#[test]
fn the_rating_of_a_handle_is_that_of_its_newest_contest() {
    assert_eq!(get_user_rating(&vec![1400, 1500, 1450]), 1450);
    assert_eq!(get_user_rating(&Vec::new()), 0);
    assert_eq!(rating(&vec![1400, 1500, 1450]), Ok(1450));
    assert_eq!(rating(&Vec::new()), Err(MatchError::NoContests));
    assert_eq!(rating(&vec![1400, 0]), Err(MatchError::NoContests));
}

#[test]
fn an_empty_catalog_has_nothing_to_suggest() {
    assert!(matches!(get_problemset(Vec::new()), Err(MatchError::NoCandidates)));
    let got = get_problemset(vec![problem(1, "A", None)]).unwrap();
    assert_eq!(got.len(), 1);
}
