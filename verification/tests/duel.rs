use match_engine::registry::{get_duel};
use match_engine::ledger::{create_duel, create_lockout};
use match_engine::accounts::{add_user_to_data, find_user_in_data};
use match_engine::duel::{
    concede, duel_on_chat, duel_on_timeout, duel_on_verdict, single_duel_interactor, DUEL_DURATION,
};
use match_engine::problem::{Problem, Submission};
use match_engine::registry::{Data, Duel, DuelType};
use match_engine::state::{
    close_match, matches_of_kind, parse_token, remaining_time, Action, MatchState, Token,
};

fn problem(contest: u32, index: &str) -> Problem {
    Problem {
        contest_id: Some(contest),
        problemset_name: None,
        index: index.to_string(),
        name: "name".to_string(),
        kind: "PROGRAMMING".to_string(),
        points: None,
        rating: Some(1000),
        tags: Vec::new(),
    }
}

fn submission(problem: &Problem, verdict: &str, at: u64) -> Submission {
    Submission { problem: problem.clone(), verdict: Some(verdict.to_string()), creation_time_seconds: at }
}

fn setup(ids: &[u64], roster: &[u64], now: u64) -> (Data, Duel) {
    let mut data = Data::new();
    for id in ids {
        add_user_to_data(&mut data, *id, &format!("handle{id}")).unwrap();
    }
    let users = roster.iter().map(|id| find_user_in_data(&data, *id).unwrap()).collect();
    let id = create_duel(&mut data, &users, &problem(1, "A"), now, 5).unwrap();
    let duel = get_duel(&data, id).unwrap();
    (data, duel)
}

#[test]
fn a_duel_without_submissions_is_drawn_when_its_time_is_up() {
    let (mut data, duel) = setup(&[1, 2], &[1, 2], 1000);
    let (state, action) = single_duel_interactor(&duel, MatchState::Assigning, 1000);
    assert_eq!((state, action), (MatchState::Active, Action::Watch(DUEL_DURATION)));
    let (state, action) = single_duel_interactor(&duel, state, 1000 + DUEL_DURATION);
    assert_eq!((state, action), (MatchState::Active, Action::FetchAll));
    let fetched = vec![Some(Vec::new()), Some(Vec::new())];
    let (state, action) = duel_on_timeout(&duel, state, &fetched);
    assert_eq!((state, action), (MatchState::Drawn, Action::Announce));
    let state = close_match(&mut data, &duel, state);
    assert_eq!(state, MatchState::Closed);
    assert!(data.duels.is_empty());
    assert!(data.data.iter().all(|u| u.duel_id.is_none()));
}

#[test]
fn the_player_who_sends_finish_and_has_solved_the_problem_wins() {
    let (mut data, duel) = setup(&[10, 20], &[10, 20], 0);
    let p = duel.problems[0].clone();
    let (state, action) = duel_on_chat(&duel, MatchState::Active, 20, "~match finish");
    assert_eq!((state, action), (MatchState::Active, Action::FetchSubmissions(20)));
    let subs = vec![submission(&problem(9, "Z"), "OK", 1), submission(&p, "OK", 100)];
    let (state, action) = duel_on_verdict(&duel, state, 20, Some(&subs));
    assert_eq!((state, action), (MatchState::Won(20), Action::Announce));
    assert_eq!(close_match(&mut data, &duel, state), MatchState::Closed);
    assert!(data.duels.is_empty());
}

#[test]
fn finish_without_an_accepted_submission_leaves_the_duel_running() {
    let (data, duel) = setup(&[10, 20], &[10, 20], 0);
    let p = duel.problems[0].clone();
    let subs = vec![submission(&p, "WRONG_ANSWER", 100), submission(&problem(9, "Z"), "OK", 1)];
    let step = duel_on_verdict(&duel, MatchState::Active, 10, Some(&subs));
    assert_eq!(step, (MatchState::Active, Action::ReportNotCompleted(10)));
    let step = duel_on_verdict(&duel, MatchState::Active, 10, Some(&Vec::new()));
    assert_eq!(step, (MatchState::Active, Action::ReportNotCompleted(10)));
    assert_eq!(data.duels.len(), 1);
}

#[test]
fn a_judge_that_does_not_answer_leaves_the_duel_as_it_is() {
    let (_, duel) = setup(&[10, 20], &[10, 20], 0);
    let step = duel_on_verdict(&duel, MatchState::Active, 10, None);
    assert_eq!(step, (MatchState::Active, Action::ReportJudgeUnavailable(10)));
    let subs = vec![submission(&duel.problems[0], "OK", 1)];
    let step = duel_on_verdict(&duel, MatchState::Active, 10, Some(&subs));
    assert_eq!(step, (MatchState::Won(10), Action::Announce));
}

#[test]
fn giving_up_makes_the_other_player_win() {
    let (_, duel) = setup(&[10, 20], &[10, 20], 0);
    let step = duel_on_chat(&duel, MatchState::Active, 10, "~match giveup");
    assert_eq!(step, (MatchState::Won(20), Action::Announce));
    let step = duel_on_chat(&duel, MatchState::Active, 20, "~match giveup");
    assert_eq!(step, (MatchState::Won(10), Action::Announce));
    assert_eq!(concede(&duel, 10), MatchState::Won(20));
    assert_eq!(concede(&duel, 99), MatchState::Won(10));
    let mut alone = duel.clone();
    alone.players.pop();
    assert_eq!(concede(&alone, 10), MatchState::Drawn);
}

#[test]
fn other_messages_and_other_authors_are_passed_over() {
    let (_, duel) = setup(&[10, 20, 30], &[10, 20], 0);
    for text in ["hello", "~match update", "~match finish ", "~MATCH FINISH", "", "~finish"] {
        let step = duel_on_chat(&duel, MatchState::Active, 10, text);
        assert_eq!(step, (MatchState::Active, Action::Ignore), "{text:?}");
    }
    let step = duel_on_chat(&duel, MatchState::Active, 30, "~match giveup");
    assert_eq!(step, (MatchState::Active, Action::Ignore));
    let step = duel_on_chat(&duel, MatchState::Active, 30, "~match finish");
    assert_eq!(step, (MatchState::Active, Action::Ignore));
    let step = duel_on_chat(&duel, MatchState::Active, 99, "~match finish");
    assert_eq!(step, (MatchState::Active, Action::Ignore));
    let step = duel_on_chat(&duel, MatchState::Active, 99, "~match giveup");
    assert_eq!(step, (MatchState::Active, Action::Ignore));
    let step = duel_on_chat(&duel, MatchState::Active, 99, "hello");
    assert_eq!(step, (MatchState::Active, Action::Ignore));
    let step = duel_on_verdict(&duel, MatchState::Active, 30, Some(&Vec::new()));
    assert_eq!(step, (MatchState::Active, Action::Ignore));
}

#[test]
fn a_duel_that_is_over_takes_no_more_steps() {
    let (_, duel) = setup(&[10, 20], &[10, 20], 0);
    let subs = vec![submission(&duel.problems[0], "OK", 1)];
    for state in [MatchState::Won(10), MatchState::Drawn, MatchState::Abandoned, MatchState::Closed,
        MatchState::Assigning]
    {
        assert_eq!(duel_on_chat(&duel, state, 10, "~match giveup"), (state, Action::Ignore));
        assert_eq!(duel_on_verdict(&duel, state, 10, Some(&subs)), (state, Action::Ignore));
        assert_eq!(duel_on_timeout(&duel, state, &vec![Some(subs.clone())]), (state, Action::Ignore));
    }
    for state in [MatchState::Won(10), MatchState::Drawn, MatchState::Abandoned, MatchState::Closed] {
        assert_eq!(single_duel_interactor(&duel, state, 0), (state, Action::Ignore));
    }
}

#[test]
fn a_second_finish_after_the_win_changes_nothing() {
    let (_, duel) = setup(&[10, 20], &[10, 20], 0);
    let subs = vec![submission(&duel.problems[0], "OK", 1)];
    let (state, _) = duel_on_verdict(&duel, MatchState::Active, 10, Some(&subs));
    assert_eq!(state, MatchState::Won(10));
    assert_eq!(duel_on_chat(&duel, state, 20, "~match finish"), (state, Action::Ignore));
    assert_eq!(duel_on_verdict(&duel, state, 20, Some(&subs)), (state, Action::Ignore));
}

#[test]
fn at_the_end_the_first_solver_of_the_roster_wins() {
    let (_, duel) = setup(&[1, 2, 3], &[3, 1, 2], 0);
    let solved = vec![submission(&duel.problems[0], "OK", 50)];
    let earlier = vec![submission(&duel.problems[0], "OK", 10)];
    let step = duel_on_timeout(&duel, MatchState::Active, &vec![Some(Vec::new()), Some(solved.clone()), Some(earlier.clone())]);
    assert_eq!(step, (MatchState::Won(1), Action::Announce));
    let step = duel_on_timeout(&duel, MatchState::Active, &vec![None, None, Some(earlier.clone())]);
    assert_eq!(step, (MatchState::Won(2), Action::Announce));
    let step = duel_on_timeout(&duel, MatchState::Active, &vec![None, None, None]);
    assert_eq!(step, (MatchState::Drawn, Action::Announce));
    let step = duel_on_timeout(&duel, MatchState::Active, &vec![Some(solved)]);
    assert_eq!(step, (MatchState::Won(3), Action::Announce));
    let step = duel_on_timeout(&duel, MatchState::Active, &Vec::new());
    assert_eq!(step, (MatchState::Drawn, Action::Announce));
}

#[test]
fn the_clock_of_a_duel_runs_from_its_beginning() {
    let (_, duel) = setup(&[1, 2], &[1, 2], 1000);
    assert_eq!(single_duel_interactor(&duel, MatchState::Active, 1000 + 5399), (MatchState::Active, Action::Watch(1)));
    assert_eq!(single_duel_interactor(&duel, MatchState::Active, 1000 + 600), (MatchState::Active, Action::Watch(4800)));
    assert_eq!(single_duel_interactor(&duel, MatchState::Active, 999_999), (MatchState::Active, Action::FetchAll));
    assert_eq!(single_duel_interactor(&duel, MatchState::Active, 5), (MatchState::Active, Action::Watch(5400)));
    assert_eq!(remaining_time(1000, 5400, 1000), 5400);
    assert_eq!(remaining_time(1000, 5400, 6400), 0);
    assert_eq!(remaining_time(1000, 5400, 6399), 1);
    assert_eq!(remaining_time(1000, 0, 1000), 0);
    assert_eq!(remaining_time(u64::MAX, 10, 0), 10);
}

#[test]
fn control_words_are_matched_exactly() {
    assert_eq!(parse_token("~match finish"), Some(Token::Finish));
    assert_eq!(parse_token("~match giveup"), Some(Token::GiveUp));
    assert_eq!(parse_token("~match update"), Some(Token::Update));
    for text in ["~match", "match finish", "~match  finish", "~match finish!", " ~match finish", ""] {
        assert_eq!(parse_token(text), None, "{text:?}");
    }
}

#[test]
fn only_an_outcome_closes_a_match() {
    let (mut data, duel) = setup(&[1, 2], &[1, 2], 0);
    for state in [MatchState::Assigning, MatchState::Active, MatchState::Closed] {
        assert_eq!(close_match(&mut data, &duel, state), state);
        assert_eq!(data.duels.len(), 1);
    }
    assert!(!MatchState::Active.outcome());
    assert!(MatchState::Won(1).outcome());
    assert!(MatchState::Drawn.outcome());
    assert!(MatchState::Abandoned.outcome());
    assert!(!MatchState::Closed.outcome());
    assert_eq!(close_match(&mut data, &duel, MatchState::Abandoned), MatchState::Closed);
    assert!(data.duels.is_empty());
}

#[test]
fn the_matches_of_a_kind_are_taken_up_again() {
    let mut data = Data::new();
    for id in 1..=6u64 {
        add_user_to_data(&mut data, id, &format!("h{id}")).unwrap();
    }
    let pick = |data: &Data, ids: &[u64]| -> Vec<_> {
        ids.iter().map(|id| find_user_in_data(data, *id).unwrap()).collect()
    };
    let roster = pick(&data, &[1, 2]);
    create_duel(&mut data, &roster, &problem(1, "A"), 0, 0).unwrap();
    let roster = pick(&data, &[3, 4]);
    create_lockout(&mut data, &roster, &vec![problem(1, "A"), problem(1, "B")], 60, &vec![100, 200], 0, 0).unwrap();
    let roster = pick(&data, &[5, 6]);
    create_duel(&mut data, &roster, &problem(1, "C"), 0, 0).unwrap();
    let duels: Vec<usize> = matches_of_kind(&data, DuelType::Duel).iter().map(|d| d.duel_id).collect();
    let lockouts: Vec<usize> = matches_of_kind(&data, DuelType::Lockout).iter().map(|d| d.duel_id).collect();
    assert_eq!(duels, vec![0, 2]);
    assert_eq!(lockouts, vec![1]);
}
