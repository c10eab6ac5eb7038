use match_engine::accounts::{add_user_to_data, find_user_in_data};
use match_engine::ledger::{create_duel, create_lockout};
use match_engine::error::MatchError;
use match_engine::negotiate::{
    average_rating, collect_messages, confirm_user_in_match, extract_user_id, handle_args,
    has_user_id, match_rating, negotiate, Busy,
};
use match_engine::problem::Problem;
use match_engine::registry::{Data, User};

fn problem(contest: u32, index: &str) -> Problem {
    Problem {
        contest_id: Some(contest),
        problemset_name: None,
        index: index.to_string(),
        name: "name".to_string(),
        kind: "PROGRAMMING".to_string(),
        points: None,
        rating: Some(1000),
        tags: Vec::new(),
    }
}

fn registry(ids: &[u64]) -> Data {
    let mut data = Data::new();
    for id in ids {
        add_user_to_data(&mut data, *id, &format!("handle{id}")).unwrap();
    }
    data
}

fn args(words: &[&str]) -> Vec<String> {
    words.iter().map(|w| w.to_string()).collect()
}

fn ids(users: &[User]) -> Vec<u64> {
    users.iter().map(|u| u.user_id).collect()
}

#[test]
fn a_mention_names_the_id_between_its_brackets() {
    assert_eq!(extract_user_id("<@123>"), Some(123));
    assert_eq!(extract_user_id("  <@123>\n"), Some(123));
    assert_eq!(extract_user_id("<@18446744073709551615>"), Some(u64::MAX));
    assert_eq!(extract_user_id("<@+5>"), Some(5));
    assert_eq!(extract_user_id("<@007>"), Some(7));
}

#[test]
fn what_is_no_mention_names_nobody() {
    for text in ["", "123", "<@>", "<@", "@123>", "<123>", "<@!123>", "<@12 3>", "<@123>>", "<<@123>",
        "<@18446744073709551616>", "<@-1>", "<@0>", "<@000>", "< @1>", "<@1 >", "<@1>x", "1500"]
    {
        assert_eq!(extract_user_id(text), None, "{text:?}");
    }
}

#[test]
fn registered_mentions_are_invited_once_each() {
    let data = registry(&[1, 2, 3, 4]);
    let got = handle_args(&data, 1, &args(&["<@2>", "<@3>", "<@2>", "<@4>", "<@3>"]), true);
    assert_eq!(got, Ok((vec![2, 3, 4], None)));
    let got = handle_args(&data, 1, &args(&[]), true);
    assert_eq!(got, Ok((Vec::new(), None)));
}

#[test]
fn an_unregistered_mention_is_passed_over() {
    let data = registry(&[1, 2]);
    let got = handle_args(&data, 1, &args(&["<@9>", "<@2>", "<@8>"]), false);
    assert_eq!(got, Ok((vec![2], None)));
}

#[test]
fn the_author_must_be_registered_and_cannot_invite_itself() {
    let data = registry(&[1, 2]);
    assert_eq!(handle_args(&data, 7, &args(&["<@2>"]), true), Err(MatchError::NotRegistered));
    assert_eq!(handle_args(&data, 1, &args(&["<@2>", "<@1>"]), true), Err(MatchError::SelfInvite));
    assert_eq!(handle_args(&data, 1, &args(&["<@1>"]), true), Err(MatchError::SelfInvite));
    assert_eq!(handle_args(&data, 1, &args(&["<@2>", "<@2>", "<@1>", "x"]), true), Err(MatchError::SelfInvite));
    assert_eq!(handle_args(&data, 1, &args(&["x", "<@1>"]), true), Err(MatchError::NotAUser));
}

#[test]
fn the_first_word_that_is_no_mention_is_the_option_and_ends_the_list() {
    let data = registry(&[1, 2, 3]);
    assert_eq!(handle_args(&data, 1, &args(&["<@2>", "1500", "<@3>"]), true), Ok((vec![2], Some(1500))));
    assert_eq!(handle_args(&data, 1, &args(&["1", "2"]), true), Ok((Vec::new(), Some(1))));
    assert_eq!(handle_args(&data, 1, &args(&["<@2>", "4294967295"]), true), Ok((vec![2], Some(u32::MAX))));
    assert_eq!(handle_args(&data, 1, &args(&["<@2>", "4294967296"]), true), Err(MatchError::NotAUser));
    assert_eq!(handle_args(&data, 1, &args(&["<@2>", "fast"]), true), Err(MatchError::NotAUser));
    assert_eq!(handle_args(&data, 1, &args(&["<@2>", "-5"]), true), Err(MatchError::NotAUser));
    assert_eq!(handle_args(&data, 1, &args(&["<@2>", "1500"]), false), Err(MatchError::NotAUser));
}

#[test]
fn an_invited_participant_accepts_with_the_mention_of_the_initiator() {
    let opponents = vec![20, 30, 40];
    let mut accepted = Vec::new();
    assert!(!collect_messages(&opponents, &mut accepted, 10, 30, "~accept <@10>"));
    assert_eq!(accepted, vec![30]);
    assert!(!collect_messages(&opponents, &mut accepted, 10, 20, "~accept <@10>"));
    assert_eq!(accepted, vec![30, 20]);
    assert!(collect_messages(&opponents, &mut accepted, 10, 40, "~accept <@10>"));
    assert_eq!(accepted, vec![30, 20, 40]);
}

#[test]
fn other_messages_accept_nothing() {
    let opponents = vec![20, 30];
    let mut accepted = vec![20];
    for (author, text) in [
        (30, "~accept <@11>"),
        (30, "~accept <@010>"),
        (30, "~accept <@+10>"),
        (30, "~accept <@10> "),
        (30, "~accept  <@10>"),
        (30, "~accept"),
        (30, "accept <@10>"),
        (30, ""),
        (50, "~accept <@10>"),
        (10, "~accept <@10>"),
        (20, "~accept <@10>"),
    ] {
        assert!(!collect_messages(&opponents, &mut accepted, 10, author, text), "{author} {text:?}");
        assert_eq!(accepted, vec![20]);
    }
    let mut accepted = Vec::new();
    assert!(collect_messages(&Vec::new(), &mut accepted, 10, 20, "~accept <@10>"));
    assert!(accepted.is_empty());
    let mut accepted = Vec::new();
    assert!(collect_messages(&vec![7], &mut accepted, u64::MAX, 7, "~accept <@18446744073709551615>"));
    assert_eq!(accepted, vec![7]);
}

#[test]
fn one_acceptance_of_three_invitations_makes_a_roster_of_two() {
    let data = registry(&[1, 2, 3, 4]);
    let invited = handle_args(&data, 1, &args(&["<@2>", "<@3>", "<@4>"]), true).unwrap().0;
    let mut accepted = Vec::new();
    assert!(!collect_messages(&invited, &mut accepted, 1, 3, "~accept <@1>"));
    let (busy, roster) = negotiate(&data, 1, &accepted, 0);
    assert!(busy.is_empty());
    assert_eq!(ids(&roster.unwrap()), vec![1, 3]);
}

#[test]
fn an_accepting_participant_in_a_match_is_left_out() {
    let mut data = registry(&[1, 2, 3, 4, 5]);
    let playing = vec![find_user_in_data(&data, 3).unwrap(), find_user_in_data(&data, 5).unwrap()];
    create_duel(&mut data, &playing, &problem(1, "A"), 1000, 0).unwrap();
    let (busy, roster) = negotiate(&data, 1, &vec![3], 1600);
    assert_eq!(busy, vec![Busy { user_id: 3, remaining: 4800 }]);
    assert_eq!(roster.unwrap_err(), MatchError::InsufficientRoster);
    let (busy, roster) = negotiate(&data, 1, &vec![3, 2, 4], 1600);
    assert_eq!(busy, vec![Busy { user_id: 3, remaining: 4800 }]);
    assert_eq!(ids(&roster.unwrap()), vec![1, 2, 4]);
}

#[test]
fn an_initiator_in_a_match_is_left_out_like_anybody() {
    let mut data = registry(&[1, 2, 3, 4]);
    let playing = vec![find_user_in_data(&data, 1).unwrap(), find_user_in_data(&data, 4).unwrap()];
    let problems = vec![problem(1, "A"), problem(1, "B")];
    create_lockout(&mut data, &playing, &problems, 600, &vec![100, 200], 1000, 0).unwrap();
    let (busy, roster) = negotiate(&data, 1, &vec![2, 3], 1100);
    assert_eq!(busy, vec![Busy { user_id: 1, remaining: 500 }]);
    assert_eq!(ids(&roster.unwrap()), vec![2, 3]);
    let (busy, roster) = negotiate(&data, 1, &vec![2], 5000);
    assert_eq!(busy, vec![Busy { user_id: 1, remaining: 0 }]);
    assert_eq!(roster.unwrap_err(), MatchError::InsufficientRoster);
}

#[test]
fn without_an_acceptance_the_negotiation_is_cancelled() {
    let data = registry(&[1, 2]);
    let (busy, roster) = negotiate(&data, 1, &Vec::new(), 0);
    assert!(busy.is_empty());
    assert_eq!(roster.unwrap_err(), MatchError::Cancelled);
}

#[test]
fn a_confirmation_lists_the_free_and_the_busy_in_order() {
    let mut data = registry(&[1, 2, 3, 4, 5]);
    let playing = vec![find_user_in_data(&data, 2).unwrap(), find_user_in_data(&data, 4).unwrap()];
    create_duel(&mut data, &playing, &problem(1, "A"), 0, 0).unwrap();
    let got = confirm_user_in_match(&data, 5, &vec![4, 3, 2, 1, 77], 5400);
    assert_eq!(ids(&got.roster), vec![5, 3, 1]);
    assert_eq!(got.busy, vec![Busy { user_id: 4, remaining: 0 }, Busy { user_id: 2, remaining: 0 }]);
    assert!(got.roster.iter().all(|u| u.duel_id.is_none()));
    assert_eq!(got.roster[1].handle, "handle3");
}

#[test]
fn the_rating_of_a_roster_is_the_mean_of_the_known_rounded_down() {
    assert_eq!(average_rating(&vec![Some(1500), Some(1700)]), 1600);
    assert_eq!(average_rating(&vec![Some(1500), None, Some(1699)]), 1500);
    assert_eq!(average_rating(&vec![Some(1234)]), 1200);
    assert_eq!(average_rating(&vec![Some(99)]), 0);
    assert_eq!(average_rating(&vec![Some(1000), Some(0), Some(0)]), 300);
    assert_eq!(average_rating(&vec![Some(u32::MAX), Some(u32::MAX)]), 4294967200);
}

#[test]
fn a_roster_without_ratings_gets_the_default() {
    assert_eq!(average_rating(&Vec::new()), 1000);
    assert_eq!(average_rating(&vec![None, None]), 1000);
    assert_eq!(average_rating(&vec![Some(0), Some(0)]), 1000);
    assert_eq!(match_rating(None, &vec![None]), 1000);
    assert_eq!(match_rating(Some(1337), &vec![Some(2000)]), 1337);
    assert_eq!(match_rating(None, &vec![Some(2050)]), 2000);
}

#[test]
fn an_id_is_looked_for_in_a_list() {
    assert!(has_user_id(&vec![3, 1, 2], 1));
    assert!(!has_user_id(&vec![3, 1, 2], 4));
    assert!(!has_user_id(&Vec::new(), 4));
}

#[test]
fn a_run_of_messages_collects_exactly_the_invited_who_accepted() {
    let opponents = vec![20, 30, 40];
    let messages: Vec<(u64, &str)> = vec![
        (50, "~accept <@10>"),
        (20, "hello"),
        (20, "~accept <@11>"),
        (20, "~accept <@10>"),
        (10, "~accept <@10>"),
        (20, "~accept <@10>"),
        (30, "~accept<@10>"),
        (40, "~accept <@10> please"),
    ];
    let mut accepted = Vec::new();
    let mut done = false;
    for (author, text) in messages.iter() {
        done = collect_messages(&opponents, &mut accepted, 10, *author, text);
    }
    assert_eq!(accepted, vec![20]);
    assert!(!done);
    let (busy, roster) = negotiate(&registry(&[10, 20, 30, 40]), 10, &accepted, 0);
    assert!(busy.is_empty());
    assert_eq!(ids(&roster.unwrap()), vec![10, 20]);
}

#[test]
fn messages_after_the_last_acceptance_change_nothing() {
    let opponents = vec![20, 30];
    let mut accepted = Vec::new();
    assert!(!collect_messages(&opponents, &mut accepted, 10, 30, "~accept <@10>"));
    assert!(collect_messages(&opponents, &mut accepted, 10, 20, "~accept <@10>"));
    for (author, text) in [(20, "~accept <@10>"), (30, "~accept <@10>"), (99, "~accept <@10>")] {
        assert!(collect_messages(&opponents, &mut accepted, 10, author, text));
        assert_eq!(accepted, vec![30, 20]);
    }
}
