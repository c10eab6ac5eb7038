use match_engine::registry::{get_duel};
use match_engine::ledger::{create_duel, create_lockout, remove_duel};
use match_engine::accounts::{add_points_to_user, add_problem_to_user, add_user_to_data, find_user_in_data};
use match_engine::audit::distinct_match_ids;
use match_engine::duel::duel_interactor;
use match_engine::lockout::lockout_interactor;
use match_engine::error::MatchError;
use match_engine::negotiate::{asks_options, duel, lockout, Request};
use match_engine::problem::Problem;
use match_engine::registry::{Data, Duel, User};

fn problem(contest: u32, index: &str) -> Problem {
    Problem {
        contest_id: Some(contest),
        problemset_name: None,
        index: index.to_string(),
        name: "name".to_string(),
        kind: "PROGRAMMING".to_string(),
        points: Some(7),
        rating: Some(1000),
        tags: vec!["dp".to_string()],
    }
}

fn registry() -> Data {
    let mut data = Data::new();
    for id in 1..=5u64 {
        add_user_to_data(&mut data, id, &format!("handle{id}")).unwrap();
    }
    let pick = |data: &Data, ids: &[u64]| -> Vec<User> {
        ids.iter().map(|id| find_user_in_data(data, *id).unwrap()).collect()
    };
    let roster = pick(&data, &[1, 2]);
    create_duel(&mut data, &roster, &problem(1, "A"), 10, 0).unwrap();
    let problems = vec![problem(1, "B"), problem(2, "C")];
    let roster = pick(&data, &[3, 4]);
    create_lockout(&mut data, &roster, &problems, 600, &vec![100, 200], 20, 0).unwrap();
    data
}

fn args(words: &[&str]) -> Vec<String> {
    words.iter().map(|w| w.to_string()).collect()
}

#[test]
fn a_registry_that_the_engine_made_is_consistent() {
    assert!(Data::new().is_consistent());
    let mut data = registry();
    assert!(data.is_consistent());
    let mut lockout = get_duel(&data, 1).unwrap();
    lockout.add_score(0, 100);
    lockout.set_point(0);
    lockout.remove_user(4);
    data.store_duel(&lockout).unwrap();
    assert!(data.is_consistent());
    let first = get_duel(&data, 0).unwrap();
    remove_duel(&mut data, &first.players);
    assert!(data.is_consistent());
    add_points_to_user(&mut data, 1, 5);
    add_problem_to_user(&mut data, 1, Some(&problem(9, "Z")), 3);
    assert!(data.is_consistent());
    data.remove_match(1);
    assert!(data.is_consistent());
    assert!(data.duels.is_empty());
}

#[test]
fn a_reference_without_a_match_is_found_out() {
    let mut data = registry();
    data.data[4].duel_id = Some(0);
    assert!(!data.is_consistent());
    data.data[4].duel_id = Some(7);
    assert!(!data.is_consistent());
    data.data[4].duel_id = None;
    assert!(data.is_consistent());
    assert!(data.is_stamped(1, 0));
    assert!(!data.is_stamped(1, 1));
    assert!(!data.is_stamped(5, 0));
    assert!(data.is_listed(1, 3));
    assert!(!data.is_listed(0, 3));
    assert!(!data.is_listed(2, 3));
}

#[test]
fn a_player_without_a_reference_is_found_out() {
    let mut data = registry();
    data.data[0].duel_id = None;
    assert!(!data.is_consistent());
    let mut data = registry();
    data.data[0].duel_id = Some(1);
    assert!(!data.is_consistent());
    let mut data = registry();
    data.duels[0].players.pop();
    assert!(!data.is_consistent());
}

#[test]
fn doubles_and_malformed_matches_are_found_out() {
    let mut data = registry();
    data.data[4].user_id = 1;
    assert!(!data.is_consistent());
    let mut data = registry();
    data.duels[1].duel_id = 0;
    assert!(!data.is_consistent());
    assert!(!distinct_match_ids(&data.duels));
    let mut data = registry();
    data.duels[1].score_distribution = Some(vec![0]);
    assert!(!data.is_consistent());
    let mut data = registry();
    data.duels[0].problems.push(problem(5, "E"));
    assert!(!data.is_consistent());
    assert!(distinct_match_ids(&data.duels));
}

#[test]
fn problems_and_participants_are_equal_when_all_they_hold_is() {
    let p = problem(1, "A");
    assert!(p == p.clone());
    let mut q = p.clone();
    q.tags.push("math".to_string());
    assert!(p != q);
    let mut q = p.clone();
    q.points = Some(8);
    assert!(p != q);
    let mut q = p.clone();
    q.problemset_name = Some(String::new());
    assert!(p != q);
    let mut q = p.clone();
    q.name = "other".to_string();
    assert!(p != q);
    assert!(p.same_problem(&q));
    let data = registry();
    let u = find_user_in_data(&data, 1).unwrap();
    assert!(u == u.clone());
    let mut v = u.clone();
    v.duel_id = None;
    assert!(u != v);
    let mut v = u.clone();
    v.active_challenge = Some(p.clone());
    assert!(u != v);
    let mut w = v.clone();
    w.active_challenge = Some(problem(1, "B"));
    assert!(w != v);
}

#[test]
fn a_match_is_the_same_match_whatever_its_scores() {
    let data = registry();
    let lockout: Duel = get_duel(&data, 1).unwrap();
    let mut later = lockout.clone();
    later.add_score(0, 100);
    later.set_point(0);
    later.channel_id = 99;
    assert!(lockout == later);
    let mut other = lockout.clone();
    other.begin_time += 1;
    assert!(lockout != other);
    let mut other = lockout.clone();
    other.duel_id = 5;
    assert!(lockout != other);
    let mut other = lockout.clone();
    other.players.pop();
    assert!(lockout != other);
    let mut other = lockout.clone();
    other.problems.reverse();
    assert!(lockout != other);
}

#[test]
fn the_engine_takes_up_its_matches_by_kind() {
    let data = registry();
    let duels: Vec<usize> = duel_interactor(&data).iter().map(|d| d.duel_id).collect();
    let lockouts: Vec<usize> = lockout_interactor(&data).iter().map(|d| d.duel_id).collect();
    assert_eq!(duels, vec![0]);
    assert_eq!(lockouts, vec![1]);
    assert!(duel_interactor(&Data::new()).is_empty());
}

#[test]
fn a_duel_command_asks_for_help_or_invites() {
    let data = registry();
    assert_eq!(duel(&data, 5, &args(&["help"])), Ok(Request::Help));
    assert_eq!(duel(&data, 5, &args(&["h", "<@1>"])), Ok(Request::Help));
    assert_eq!(duel(&data, 77, &args(&["h"])), Ok(Request::Help));
    assert_eq!(duel(&data, 5, &args(&["<@1>", "<@2>", "1400"])), Ok(Request::Invite(vec![1, 2], Some(1400))));
    assert_eq!(duel(&data, 5, &args(&["<@1>"])), Ok(Request::Invite(vec![1], None)));
    assert_eq!(duel(&data, 5, &args(&[])), Err(MatchError::NoOpponents));
    assert_eq!(duel(&data, 5, &args(&["<@99>"])), Err(MatchError::NoOpponents));
    assert_eq!(duel(&data, 5, &args(&["1400"])), Err(MatchError::NoOpponents));
    assert_eq!(duel(&data, 5, &args(&["<@5>"])), Err(MatchError::SelfInvite));
    assert_eq!(duel(&data, 5, &args(&["Help"])), Err(MatchError::NotAUser));
    assert_eq!(duel(&data, 77, &args(&["<@1>"])), Err(MatchError::NotRegistered));
}

#[test]
fn a_lockout_command_invites_and_may_ask_for_options() {
    let data = registry();
    assert_eq!(lockout(&data, 5, &args(&["<@1>", "1"])), Ok(Request::Invite(vec![1], Some(1))));
    assert_eq!(lockout(&data, 5, &args(&["help"])), Err(MatchError::NotAUser));
    assert_eq!(lockout(&data, 5, &args(&[])), Err(MatchError::NoOpponents));
    assert!(asks_options(Some(1)));
    assert!(!asks_options(Some(0)));
    assert!(!asks_options(Some(2)));
    assert!(!asks_options(None));
}
