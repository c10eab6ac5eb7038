use match_engine::registry::{get_duel};
use match_engine::accounts::{add_user_to_data, find_user_in_data};
use match_engine::ledger::{create_lockout};
use match_engine::error::MatchError;
use match_engine::ladder::{create_ratings_array, ladder_points, MAX_RATING, MIN_RATING};
use match_engine::lockout::{
    assemble_ladder, default_options, get_all_user_submissions, lockout_on_chat,
    lockout_on_submissions, lockout_on_timeout, lockout_options, outcome_of,
    single_lockout_interactor, to_num, LockoutOptions,
};
use match_engine::problem::{Problem, Submission};
use match_engine::registry::{Data, Duel};
use match_engine::state::{close_match, Action, MatchState};

fn problem(contest: u32, index: &str, rating: i32) -> Problem {
    Problem {
        contest_id: Some(contest),
        problemset_name: None,
        index: index.to_string(),
        name: "name".to_string(),
        kind: "PROGRAMMING".to_string(),
        points: None,
        rating: Some(rating),
        tags: Vec::new(),
    }
}

fn accepted(problem: &Problem, at: u64) -> Submission {
    Submission { problem: problem.clone(), verdict: Some("OK".to_string()), creation_time_seconds: at }
}

fn setup(roster: &[u64], points: &[u32], duration: u64, now: u64) -> (Data, Duel) {
    let mut data = Data::new();
    for id in roster {
        add_user_to_data(&mut data, *id, &format!("handle{id}")).unwrap();
    }
    add_user_to_data(&mut data, 999, "bystander").unwrap();
    let users = roster.iter().map(|id| find_user_in_data(&data, *id).unwrap()).collect();
    let problems: Vec<Problem> =
        (0..points.len()).map(|i| problem(i as u32 + 1, "A", 800 + 100 * i as i32)).collect();
    let id = create_lockout(&mut data, &users, &problems, duration, &points.to_vec(), now, 5).unwrap();
    let lockout = get_duel(&data, id).unwrap();
    (data, lockout)
}

fn chars(s: &str) -> Vec<char> {
    s.chars().collect()
}

#[test]
fn a_lockout_stops_early_when_the_leader_cannot_be_caught() {
    let (mut data, mut lockout) = setup(&[1, 2], &[100, 200, 300], 1000, 0);
    let p = lockout.problems.clone();
    let first = vec![Some(vec![accepted(&p[0], 10)]), Some(Vec::new())];
    let step = lockout_on_submissions(&mut lockout, MatchState::Active, &first, 100);
    assert_eq!(step, (MatchState::Active, Action::ShowStandings));
    assert_eq!(lockout.score_distribution, Some(vec![100, 0]));
    let second = vec![Some(vec![accepted(&p[0], 10), accepted(&p[1], 150)]), None];
    lockout.add_score(0, 100);
    let step = lockout_on_submissions(&mut lockout, MatchState::Active, &second, 200);
    assert_eq!(lockout.score_distribution, Some(vec![400, 0]));
    assert_eq!(lockout.problems_point, Some(vec![0, 0, 300]));
    assert_eq!(step, (MatchState::Won(1), Action::Announce));
    assert_eq!(data.store_duel(&lockout), Ok(()));
    assert_eq!(close_match(&mut data, &lockout, step.0), MatchState::Closed);
    assert!(data.duels.is_empty());
    assert!(data.data.iter().all(|u| u.duel_id.is_none()));
}

#[test]
fn a_lockout_goes_on_while_the_second_can_still_catch_up() {
    let (_, mut lockout) = setup(&[1, 2], &[100, 200, 300], 1000, 0);
    let p = lockout.problems.clone();
    let fetched = vec![Some(vec![accepted(&p[0], 10), accepted(&p[1], 20)]), Some(Vec::new())];
    let step = lockout_on_submissions(&mut lockout, MatchState::Active, &fetched, 200);
    assert_eq!(lockout.score_distribution, Some(vec![300, 0]));
    assert_eq!(step, (MatchState::Active, Action::ShowStandings));
    let step = lockout_on_submissions(&mut lockout, MatchState::Active, &fetched, 1000);
    assert_eq!(step, (MatchState::Won(1), Action::Announce));
}

#[test]
fn update_and_giveup_ask_for_the_submissions_of_all_players() {
    let (_, mut lockout) = setup(&[1, 2, 3], &[100, 200], 1000, 0);
    let step = lockout_on_chat(&mut lockout, MatchState::Active, 2, "~match update");
    assert_eq!(step, (MatchState::Active, Action::FetchAll));
    assert_eq!(lockout.players.len(), 3);
    lockout.add_score(1, 7);
    lockout.add_score(2, 9);
    let step = lockout_on_chat(&mut lockout, MatchState::Active, 2, "~match giveup");
    assert_eq!(step, (MatchState::Active, Action::FetchAll));
    let roster: Vec<u64> = lockout.players.iter().map(|u| u.user_id).collect();
    assert_eq!(roster, vec![1, 3]);
    assert_eq!(lockout.score_distribution, Some(vec![0, 9]));
    assert!(lockout.is_well_formed());
}

#[test]
fn a_lockout_passes_over_what_is_not_meant_for_it() {
    let (_, mut lockout) = setup(&[1, 2], &[100], 1000, 0);
    for text in ["~match finish", "hello", "~match update now", ""] {
        let step = lockout_on_chat(&mut lockout, MatchState::Active, 1, text);
        assert_eq!(step, (MatchState::Active, Action::Ignore), "{text:?}");
    }
    let step = lockout_on_chat(&mut lockout, MatchState::Active, 999, "~match giveup");
    assert_eq!(step, (MatchState::Active, Action::Ignore));
    let step = lockout_on_chat(&mut lockout, MatchState::Active, 12345, "~match update");
    assert_eq!(step, (MatchState::Active, Action::Ignore));
    let step = lockout_on_chat(&mut lockout, MatchState::Active, 12345, "~match giveup");
    assert_eq!(step, (MatchState::Active, Action::Ignore));
    let step = lockout_on_chat(&mut lockout, MatchState::Drawn, 1, "~match giveup");
    assert_eq!(step, (MatchState::Drawn, Action::Ignore));
    assert_eq!(lockout.players.len(), 2);
    let fetched = vec![Some(vec![accepted(&lockout.problems[0], 1)]), None];
    let step = lockout_on_submissions(&mut lockout, MatchState::Won(2), &fetched, 0);
    assert_eq!(step, (MatchState::Won(2), Action::Ignore));
    assert_eq!(lockout.score_distribution, Some(vec![0, 0]));
}

#[test]
fn after_the_last_but_one_gave_up_the_lockout_is_decided() {
    let (mut data, mut lockout) = setup(&[1, 2], &[100, 200], 1000, 0);
    lockout_on_chat(&mut lockout, MatchState::Active, 1, "~match giveup");
    assert_eq!(data.store_duel(&lockout), Ok(()));
    assert_eq!(find_user_in_data(&data, 1).unwrap().duel_id, None);
    assert_eq!(find_user_in_data(&data, 2).unwrap().duel_id, Some(0));
    let fetched = vec![Some(vec![accepted(&lockout.problems[1], 3)])];
    let step = lockout_on_submissions(&mut lockout, MatchState::Active, &fetched, 10);
    assert_eq!(step, (MatchState::Won(2), Action::Announce));
    assert_eq!(lockout.score_distribution, Some(vec![200]));
}

#[test]
fn a_lockout_that_everybody_left_is_abandoned() {
    let (mut data, mut lockout) = setup(&[1, 2], &[100], 1000, 0);
    lockout_on_chat(&mut lockout, MatchState::Active, 1, "~match giveup");
    lockout_on_chat(&mut lockout, MatchState::Active, 2, "~match giveup");
    assert_eq!(data.store_duel(&lockout), Ok(()));
    let step = lockout_on_submissions(&mut lockout, MatchState::Active, &Vec::new(), 10);
    assert_eq!(step, (MatchState::Abandoned, Action::Announce));
    assert_eq!(close_match(&mut data, &lockout, step.0), MatchState::Closed);
    assert!(data.duels.is_empty());
    assert!(data.data.iter().all(|u| u.duel_id.is_none()));
}

#[test]
fn at_the_end_the_leader_wins_unless_the_lead_is_shared_or_empty() {
    let (_, mut lockout) = setup(&[1, 2, 3], &[100], 1000, 0);
    assert_eq!(outcome_of(&lockout), MatchState::Drawn);
    lockout.score_distribution = Some(vec![0, 300, 100]);
    assert_eq!(outcome_of(&lockout), MatchState::Won(2));
    assert_eq!(lockout_on_timeout(&lockout, MatchState::Active), (MatchState::Won(2), Action::Announce));
    lockout.score_distribution = Some(vec![300, 300, 100]);
    assert_eq!(outcome_of(&lockout), MatchState::Drawn);
    lockout.score_distribution = Some(vec![100, 100, 300]);
    assert_eq!(outcome_of(&lockout), MatchState::Won(3));
    assert_eq!(lockout_on_timeout(&lockout, MatchState::Won(1)), (MatchState::Won(1), Action::Ignore));
    lockout.score_distribution = None;
    assert_eq!(outcome_of(&lockout), MatchState::Abandoned);
}

#[test]
fn the_clock_of_a_lockout_runs_from_its_beginning() {
    let (_, mut lockout) = setup(&[1, 2], &[100], 600, 1000);
    assert_eq!(single_lockout_interactor(&lockout, MatchState::Assigning, 1000), (MatchState::Active, Action::Watch(600)));
    assert_eq!(single_lockout_interactor(&lockout, MatchState::Active, 1480), (MatchState::Active, Action::Watch(120)));
    assert_eq!(single_lockout_interactor(&lockout, MatchState::Active, 1600), (MatchState::Drawn, Action::Announce));
    lockout.score_distribution = Some(vec![0, 100]);
    assert_eq!(single_lockout_interactor(&lockout, MatchState::Active, 9999), (MatchState::Won(2), Action::Announce));
    assert_eq!(single_lockout_interactor(&lockout, MatchState::Closed, 9999), (MatchState::Closed, Action::Ignore));
}

#[test]
fn a_failed_fetch_counts_as_no_submissions() {
    let p = problem(1, "A", 800);
    let got = get_all_user_submissions(&vec![None, Some(vec![accepted(&p, 5)]), Some(Vec::new())]);
    assert_eq!(got.len(), 3);
    assert!(got[0].is_empty());
    assert_eq!(got[1].len(), 1);
    assert_eq!(got[1][0].creation_time_seconds, 5);
    assert!(got[2].is_empty());
}

#[test]
fn the_ratings_of_a_ladder_spread_from_the_middle() {
    assert_eq!(create_ratings_array(5, 1500, 100), vec![1300, 1400, 1500, 1600, 1700]);
    assert_eq!(create_ratings_array(4, 1500, 200), vec![1100, 1300, 1500, 1700]);
    assert_eq!(create_ratings_array(1, 1234, 100), vec![1234]);
    assert_eq!(create_ratings_array(0, 1500, 100), Vec::<u32>::new());
    assert_eq!(create_ratings_array(3, 1500, 0), vec![1500, 1500, 1500]);
}

#[test]
fn the_ratings_of_a_ladder_stay_within_what_the_judge_has() {
    assert_eq!(create_ratings_array(5, 900, 100), vec![800, 800, 900, 1000, 1100]);
    assert_eq!(create_ratings_array(5, 3400, 100), vec![3200, 3300, 3400, 3500, 3500]);
    assert_eq!(create_ratings_array(3, 1000, 5000), vec![MIN_RATING, 1000, MAX_RATING]);
    assert_eq!(create_ratings_array(3, 500, 100), vec![800, 500, 600]);
    assert_eq!(create_ratings_array(3, 4000, 100), vec![3900, 4000, 3500]);
    assert_eq!(create_ratings_array(3, u32::MAX, u32::MAX), vec![800, u32::MAX, 3500]);
    assert_eq!(create_ratings_array(2, 0, u32::MAX), vec![800, 0]);
}

#[test]
fn a_step_is_worth_a_hundred_more_than_it_is_above_the_first() {
    assert_eq!(ladder_points(&vec![1300, 1400, 1500, 1600, 1700]), Some(vec![100, 200, 300, 400, 500]));
    assert_eq!(ladder_points(&vec![800, 800, 900]), Some(vec![100, 100, 200]));
    assert_eq!(ladder_points(&vec![1000]), Some(vec![100]));
    assert_eq!(ladder_points(&Vec::new()), Some(Vec::new()));
    assert_eq!(ladder_points(&vec![800, 750]), Some(vec![100, 50]));
}

#[test]
fn a_ladder_without_positive_point_values_has_none() {
    assert_eq!(ladder_points(&vec![800, 500, 600]), None);
    assert_eq!(ladder_points(&vec![800, 700]), None);
    assert_eq!(ladder_points(&vec![0, u32::MAX]), None);
    assert_eq!(ladder_points(&vec![0, u32::MAX - 100]), None);
    assert_eq!(ladder_points(&vec![100, u32::MAX - 100]), Some(vec![100, u32::MAX - 100]));
}

#[test]
fn options_are_read_from_the_first_four_words() {
    assert_eq!(
        lockout_options("7 120 1500 250"),
        LockoutOptions { number_of_problems: 7, duration: 7200, rating: Some(1500), increment: 200 }
    );
    assert_eq!(
        lockout_options("  3\t45  "),
        LockoutOptions { number_of_problems: 3, duration: 2700, rating: None, increment: 100 }
    );
    assert_eq!(lockout_options(""), default_options());
    assert_eq!(lockout_options("-1 -1 -1 -1"), default_options());
    assert_eq!(lockout_options("many long hard steep"), default_options());
    assert_eq!(
        default_options(),
        LockoutOptions { number_of_problems: 5, duration: 5400, rating: None, increment: 100 }
    );
}

#[test]
fn an_option_that_is_no_number_leaves_the_others_in_their_places() {
    assert_eq!(
        lockout_options("x 10 y 300 9 9"),
        LockoutOptions { number_of_problems: 5, duration: 600, rating: None, increment: 300 }
    );
    assert_eq!(
        lockout_options("0 0 0 0"),
        LockoutOptions { number_of_problems: 0, duration: 0, rating: Some(0), increment: 100 }
    );
    assert_eq!(
        lockout_options("2147483647 2147483647 2147483647 2147483647"),
        LockoutOptions {
            number_of_problems: 2147483647,
            duration: 60 * 2147483647,
            rating: Some(2147483647),
            increment: 2147483600,
        }
    );
    assert_eq!(lockout_options("-5 -90 -2 -300"), default_options());
    assert_eq!(lockout_options("5 90 1000 199").increment, 100);
    assert_eq!(lockout_options("5 90 1000 200").increment, 200);
    assert_eq!(lockout_options("5 90 1000 99999999999").increment, 100);
}

#[test]
fn a_word_is_a_number_or_nothing() {
    assert_eq!(to_num(Some(&chars("12"))), Some(12));
    assert_eq!(to_num(Some(&chars("-1"))), Some(-1));
    assert_eq!(to_num(Some(&chars("+4"))), Some(4));
    assert_eq!(to_num(Some(&chars("4x"))), None);
    assert_eq!(to_num(Some(&chars(""))), None);
    assert_eq!(to_num(None), None);
}

#[test]
fn a_ladder_takes_the_drawn_candidate_of_each_step() {
    let steps = vec![
        vec![problem(1, "A", 800), problem(2, "A", 800)],
        vec![problem(3, "A", 900)],
        vec![problem(4, "A", 1000), problem(5, "A", 1000), problem(6, "A", 1000)],
    ];
    let got = assemble_ladder(&steps, &vec![1, 0, 2]).unwrap();
    let ids: Vec<Option<u32>> = got.iter().map(|p| p.contest_id).collect();
    assert_eq!(ids, vec![Some(2), Some(3), Some(6)]);
    assert!(matches!(assemble_ladder(&steps, &vec![1, 1, 2]), Err(MatchError::DrawOutOfRange)));
    assert!(matches!(assemble_ladder(&steps, &vec![1, 0]), Err(MatchError::DrawOutOfRange)));
    assert!(matches!(assemble_ladder(&steps, &vec![0, 0, 0, 0]), Err(MatchError::DrawOutOfRange)));
    assert!(assemble_ladder(&Vec::new(), &Vec::new()).unwrap().is_empty());
}
