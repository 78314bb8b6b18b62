use cosmwasm_std::{attr, StdError};
use cw_from_zero_to_hero::contract::{
    cast_vote, create_poll, instantiate, query_all_polls, query_config, query_poll, query_vote,
    vote, vote_is_allowed,
};
use cw_from_zero_to_hero::error::ContractError;
use cw_from_zero_to_hero::msg::MessageInfo;
use cw_from_zero_to_hero::poll::{Delta, Poll, MAX_OPTIONS};
use cw_from_zero_to_hero::state::{Ballot, Config, State};
use cw_from_zero_to_hero::text::{
    compare_ids, decimal_string, has_leading_underscore, same_text, Rank,
};

fn from(sender: &str) -> MessageInfo {
    MessageInfo { sender: sender.to_string() }
}

fn labels(names: &[&str]) -> Vec<String> {
    names.iter().map(|n| n.to_string()).collect()
}

fn new_poll(state: &mut State, id: &str, names: &[&str]) {
    create_poll(state, from("creator"), id.to_string(), "Which?".to_string(), labels(names))
        .unwrap();
}

fn cast(state: &mut State, voter: &str, id: &str, label: &str) -> Result<cosmwasm_std::Response, ContractError> {
    assert!(vote_is_allowed(state, &from(voter), id, label));
    vote(state, from(voter), id.to_string(), label.to_string())
}

fn tallies(state: &State, id: &str) -> Vec<(String, u64)> {
    query_poll(state, id.to_string()).poll.unwrap().options
}

fn entry(label: &str, tally: u64) -> (String, u64) {
    (label.to_string(), tally)
}

fn choice(state: &State, voter: &str, id: &str) -> Option<String> {
    query_vote(state, id.to_string(), voter.to_string()).vote.map(|b| b.option)
}

#[test]
fn a_poll_starts_with_every_tally_at_zero() {
    let mut state = State::new();
    let res = create_poll(
        &mut state,
        from("alice"),
        "lunch".to_string(),
        "Which letter?".to_string(),
        labels(&["A", "B", "C"]),
    )
    .unwrap();
    assert_eq!(res.attributes, vec![attr("action", "create_poll"), attr("poll_id", "lunch")]);
    let poll = query_poll(&state, "lunch".to_string()).poll.unwrap();
    assert_eq!(
        poll,
        Poll {
            creator: "alice".to_string(),
            question: "Which letter?".to_string(),
            options: vec![entry("A", 0), entry("B", 0), entry("C", 0)],
        }
    );
}

#[test]
fn a_poll_may_have_as_many_options_as_the_limit() {
    assert_eq!(MAX_OPTIONS, 10);
    let mut state = State::new();
    let ten = ["0", "1", "2", "3", "4", "5", "6", "7", "8", "9"];
    new_poll(&mut state, "ten", &ten);
    let options = tallies(&state, "ten");
    assert_eq!(options.len(), 10);
    for (i, option) in options.iter().enumerate() {
        assert_eq!(option, &entry(ten[i], 0));
    }
}

#[test]
fn a_poll_may_have_no_options() {
    let mut state = State::new();
    new_poll(&mut state, "none", &[]);
    assert_eq!(tallies(&state, "none"), vec![]);
    let err = cast(&mut state, "voter1", "none", "A").unwrap_err();
    assert_eq!(err, ContractError::VoteOptionNotFound {});
}

#[test]
fn a_poll_with_eleven_options_is_refused_and_not_stored() {
    let mut state = State::new();
    let eleven = ["0", "1", "2", "3", "4", "5", "6", "7", "8", "9", "10"];
    let err = create_poll(
        &mut state,
        from("alice"),
        "lunch".to_string(),
        "Which number?".to_string(),
        labels(&eleven),
    )
    .unwrap_err();
    assert_eq!(err, ContractError::TooManyOptions {});
    assert!(query_poll(&state, "lunch".to_string()).poll.is_none());
    assert_eq!(query_all_polls(&state).polls.len(), 0);
}

#[test]
fn too_many_options_leave_an_earlier_poll_as_it_was() {
    let mut state = State::new();
    new_poll(&mut state, "lunch", &["A", "B"]);
    cast(&mut state, "voter1", "lunch", "B").unwrap();
    let eleven = ["0", "1", "2", "3", "4", "5", "6", "7", "8", "9", "10"];
    let err = create_poll(
        &mut state,
        from("alice"),
        "lunch".to_string(),
        "Which number?".to_string(),
        labels(&eleven),
    )
    .unwrap_err();
    assert_eq!(err, ContractError::TooManyOptions {});
    assert_eq!(tallies(&state, "lunch"), vec![entry("A", 0), entry("B", 1)]);
}

#[test]
fn poll_new_checks_the_number_of_options() {
    let ok = Poll::new("c".to_string(), "q".to_string(), labels(&["x", "y"])).unwrap();
    assert_eq!(ok.creator, "c");
    assert_eq!(ok.question, "q");
    assert_eq!(ok.options, vec![entry("x", 0), entry("y", 0)]);
    let eleven = ["0", "1", "2", "3", "4", "5", "6", "7", "8", "9", "10"];
    let err = Poll::new("c".to_string(), "q".to_string(), labels(&eleven)).unwrap_err();
    assert_eq!(err, ContractError::TooManyOptions {});
}

#[test]
fn a_changed_vote_moves_between_the_tallies() {
    let mut state = State::new();
    new_poll(&mut state, "p1", &["A", "B", "C"]);

    let res = cast(&mut state, "voter1", "p1", "B").unwrap();
    assert_eq!(
        res.attributes,
        vec![attr("action", "vote"), attr("poll_id", "p1"), attr("B", "1")]
    );
    assert_eq!(tallies(&state, "p1"), vec![entry("A", 0), entry("B", 1), entry("C", 0)]);
    assert_eq!(choice(&state, "voter1", "p1"), Some("B".to_string()));

    let res = cast(&mut state, "voter1", "p1", "C").unwrap();
    assert_eq!(
        res.attributes,
        vec![attr("action", "vote"), attr("poll_id", "p1"), attr("C", "1")]
    );
    assert_eq!(tallies(&state, "p1"), vec![entry("A", 0), entry("B", 0), entry("C", 1)]);
    assert_eq!(choice(&state, "voter1", "p1"), Some("C".to_string()));
    assert_eq!(state.ballot_count(), 1);
}

#[test]
fn a_vote_in_a_missing_poll_is_refused_and_leaves_no_ballot() {
    let mut state = State::new();
    new_poll(&mut state, "lunch", &["A"]);
    let err = cast(&mut state, "voter1", "missing", "A").unwrap_err();
    assert_eq!(err, ContractError::PollNotFound {});
    assert_eq!(choice(&state, "voter1", "missing"), None);
    assert_eq!(state.ballot_count(), 0);
    assert!(query_poll(&state, "missing".to_string()).poll.is_none());
    assert_eq!(tallies(&state, "lunch"), vec![entry("A", 0)]);
}

#[test]
fn a_vote_for_a_missing_label_is_refused_and_changes_nothing() {
    let mut state = State::new();
    new_poll(&mut state, "lunch", &["A", "B"]);
    let err = cast(&mut state, "voter1", "lunch", "Z").unwrap_err();
    assert_eq!(err, ContractError::VoteOptionNotFound {});
    assert_eq!(tallies(&state, "lunch"), vec![entry("A", 0), entry("B", 0)]);
    assert_eq!(choice(&state, "voter1", "lunch"), None);
}

#[test]
fn a_refused_change_keeps_the_earlier_ballot_and_tally() {
    let mut state = State::new();
    new_poll(&mut state, "lunch", &["A", "B"]);
    cast(&mut state, "voter1", "lunch", "A").unwrap();
    let err = cast(&mut state, "voter1", "lunch", "Z").unwrap_err();
    assert_eq!(err, ContractError::VoteOptionNotFound {});
    assert_eq!(tallies(&state, "lunch"), vec![entry("A", 1), entry("B", 0)]);
    assert_eq!(choice(&state, "voter1", "lunch"), Some("A".to_string()));
    assert_eq!(state.ballot_count(), 1);
}

#[test]
fn the_same_choice_again_is_counted_once() {
    let mut state = State::new();
    new_poll(&mut state, "lunch", &["A", "B"]);
    cast(&mut state, "voter1", "lunch", "A").unwrap();
    let res = cast(&mut state, "voter1", "lunch", "A").unwrap();
    assert_eq!(
        res.attributes,
        vec![attr("action", "vote"), attr("poll_id", "lunch"), attr("A", "1")]
    );
    assert_eq!(tallies(&state, "lunch"), vec![entry("A", 1), entry("B", 0)]);
    assert_eq!(state.ballot_count(), 1);
}

#[test]
fn the_ballot_names_the_last_accepted_vote() {
    let mut state = State::new();
    new_poll(&mut state, "lunch", &["A", "B", "C"]);
    let wanted = ["A", "C", "nope", "B", "B", "other", "C", "missing"];
    let mut last: Option<String> = None;
    for label in wanted {
        if cast(&mut state, "voter1", "lunch", label).is_ok() {
            last = Some(label.to_string());
        }
        assert_eq!(choice(&state, "voter1", "lunch"), last);
        assert_eq!(state.ballot_count(), 1);
    }
    assert_eq!(last, Some("C".to_string()));
    assert_eq!(tallies(&state, "lunch"), vec![entry("A", 0), entry("B", 0), entry("C", 1)]);
}

#[test]
fn the_tallies_add_up_to_the_number_of_voters() {
    let mut state = State::new();
    new_poll(&mut state, "lunch", &["A", "B", "C"]);
    new_poll(&mut state, "colour", &["yes", "no"]);
    let votes = [
        ("v1", "lunch", "A"),
        ("v2", "lunch", "A"),
        ("v3", "lunch", "B"),
        ("v1", "colour", "yes"),
        ("v2", "lunch", "C"),
        ("v3", "lunch", "B"),
        ("v4", "lunch", "nope"),
        ("v4", "colour", "no"),
        ("v1", "lunch", "B"),
        ("v5", "absent", "A"),
    ];
    for (voter, id, label) in votes {
        let _ = cast(&mut state, voter, id, label);
        for id in ["lunch", "colour"] {
            let sum: u64 = tallies(&state, id).iter().map(|o| o.1).sum();
            let voters = ["v1", "v2", "v3", "v4", "v5"]
                .iter()
                .filter(|v| choice(&state, v, id).is_some())
                .count();
            assert_eq!(sum, voters as u64);
        }
    }
    assert_eq!(tallies(&state, "lunch"), vec![entry("A", 0), entry("B", 2), entry("C", 1)]);
    assert_eq!(tallies(&state, "colour"), vec![entry("yes", 1), entry("no", 1)]);
    assert_eq!(state.ballot_count(), 5);
}

#[test]
fn a_tally_of_two_digits_is_written_in_decimal() {
    let mut state = State::new();
    new_poll(&mut state, "lunch", &["A"]);
    let voters = ["v0", "v1", "v2", "v3", "v4", "v5", "v6", "v7", "v8", "v9", "v10", "v11"];
    let mut res = None;
    for voter in voters {
        res = Some(cast(&mut state, voter, "lunch", "A").unwrap());
    }
    assert_eq!(
        res.unwrap().attributes,
        vec![attr("action", "vote"), attr("poll_id", "lunch"), attr("A", "12")]
    );
}

#[test]
fn a_label_that_occurs_twice_is_counted_at_its_first_place() {
    let mut state = State::new();
    new_poll(&mut state, "lunch", &["A", "B", "A"]);
    cast(&mut state, "v1", "lunch", "A").unwrap();
    cast(&mut state, "v2", "lunch", "A").unwrap();
    assert_eq!(tallies(&state, "lunch"), vec![entry("A", 2), entry("B", 0), entry("A", 0)]);
    cast(&mut state, "v1", "lunch", "B").unwrap();
    assert_eq!(tallies(&state, "lunch"), vec![entry("A", 1), entry("B", 1), entry("A", 0)]);
}

#[test]
fn a_poll_under_a_used_id_takes_the_place_of_the_earlier_one() {
    let mut state = State::new();
    new_poll(&mut state, "lunch", &["A", "B"]);
    create_poll(
        &mut state,
        from("bob"),
        "lunch".to_string(),
        "Again?".to_string(),
        labels(&["X"]),
    )
    .unwrap();
    let poll = query_poll(&state, "lunch".to_string()).poll.unwrap();
    assert_eq!(poll.creator, "bob");
    assert_eq!(poll.question, "Again?");
    assert_eq!(poll.options, vec![entry("X", 0)]);
    assert_eq!(query_all_polls(&state).polls.len(), 1);
}

#[test]
fn cast_vote_returns_the_new_tally() {
    let mut state = State::new();
    new_poll(&mut state, "lunch", &["A", "B"]);
    assert_eq!(cast_vote(&mut state, "v1", "lunch", "A"), Ok(1));
    assert_eq!(cast_vote(&mut state, "v2", "lunch", "A"), Ok(2));
    assert_eq!(cast_vote(&mut state, "v2", "lunch", "B"), Ok(1));
    assert_eq!(cast_vote(&mut state, "v2", "lunch", "Z"), Err(ContractError::VoteOptionNotFound {}));
    assert_eq!(cast_vote(&mut state, "v2", "nowhere", "A"), Err(ContractError::PollNotFound {}));
    assert_eq!(tallies(&state, "lunch"), vec![entry("A", 1), entry("B", 1)]);
}

#[test]
fn a_label_with_a_leading_underscore_cannot_become_a_key() {
    let mut state = State::new();
    new_poll(&mut state, "lunch", &["_hidden", "open"]);
    assert!(!vote_is_allowed(&state, &from("v1"), "lunch", "_hidden"));
    assert!(vote_is_allowed(&state, &from("v1"), "lunch", "open"));
    assert!(vote_is_allowed(&state, &from("v1"), "lunch", "_absent"));
    assert!(vote_is_allowed(&state, &from("v1"), "missing", "_hidden"));
    assert_eq!(cast_vote(&mut state, "v1", "lunch", "_hidden"), Ok(1));
    assert!(vote_is_allowed(&state, &from("v1"), "lunch", "open"));
    assert_eq!(
        vote(&mut state, from("v1"), "lunch".to_string(), "_absent".to_string()).unwrap_err(),
        ContractError::VoteOptionNotFound {}
    );
}

#[test]
fn a_vote_is_not_allowed_where_the_tallies_cannot_take_it() {
    let mut state = State::new();
    let full = Poll {
        creator: "c".to_string(),
        question: "q".to_string(),
        options: vec![entry("A", u64::MAX), entry("B", 0), entry("C", 1)],
    };
    state.save_poll("lunch".to_string(), full);
    assert!(!vote_is_allowed(&state, &from("v1"), "lunch", "A"));
    assert!(vote_is_allowed(&state, &from("v1"), "lunch", "B"));

    state.save_ballot("v2".to_string(), "lunch".to_string(), Ballot { option: "B".to_string() });
    assert!(!vote_is_allowed(&state, &from("v2"), "lunch", "C"));
    assert!(vote_is_allowed(&state, &from("v2"), "lunch", "Z"));

    state.save_ballot("v3".to_string(), "lunch".to_string(), Ballot { option: "gone".to_string() });
    assert!(!vote_is_allowed(&state, &from("v3"), "lunch", "C"));

    state.save_ballot("v4".to_string(), "lunch".to_string(), Ballot { option: "A".to_string() });
    assert!(vote_is_allowed(&state, &from("v4"), "lunch", "A"));
    assert!(vote_is_allowed(&state, &from("v4"), "lunch", "C"));

    state.save_ballot("v5".to_string(), "lunch".to_string(), Ballot { option: "C".to_string() });
    assert!(!vote_is_allowed(&state, &from("v5"), "lunch", "A"));
    assert!(vote_is_allowed(&state, &from("v5"), "lunch", "B"));
}

#[test]
fn polls_are_listed_by_the_bytes_of_their_ids() {
    let mut state = State::new();
    for id in ["b", "a", "ab", "Z", "", "é", "a0", "zz"] {
        create_poll(&mut state, from("c"), id.to_string(), id.to_string(), labels(&["x"])).unwrap();
    }
    let listed: Vec<String> =
        query_all_polls(&state).polls.into_iter().map(|p| p.question).collect();
    assert_eq!(listed, labels(&["", "Z", "a", "a0", "ab", "b", "zz", "é"]));
    let mut sorted = listed.clone();
    sorted.sort();
    assert_eq!(listed, sorted);
}

#[test]
fn ids_are_compared_by_their_bytes() {
    assert_eq!(compare_ids("a", "b"), Rank::Before);
    assert_eq!(compare_ids("b", "a"), Rank::After);
    assert_eq!(compare_ids("abc", "abc"), Rank::Same);
    assert_eq!(compare_ids("", ""), Rank::Same);
    assert_eq!(compare_ids("", "a"), Rank::Before);
    assert_eq!(compare_ids("ab", "a"), Rank::After);
    assert_eq!(compare_ids("a", "ab"), Rank::Before);
    assert_eq!(compare_ids("Z", "a"), Rank::Before);
    assert_eq!(compare_ids("z", "é"), Rank::Before);
    assert_eq!(compare_ids("é", "日"), Rank::Before);
    assert!(same_text("poll", "poll"));
    assert!(!same_text("poll", "pole"));
    assert!(!same_text("poll", "polls"));
}

#[test]
fn counts_are_written_in_decimal() {
    assert_eq!(decimal_string(0), "0");
    assert_eq!(decimal_string(7), "7");
    assert_eq!(decimal_string(10), "10");
    assert_eq!(decimal_string(109), "109");
    assert_eq!(decimal_string(1234567890), "1234567890");
    assert_eq!(decimal_string(u64::MAX), "18446744073709551615");
    for n in [1u64, 9, 11, 99, 100, 101, 999, 1000, 65535, 4294967296] {
        assert_eq!(decimal_string(n), n.to_string());
    }
}

#[test]
fn a_leading_underscore_is_found() {
    assert!(has_leading_underscore("_"));
    assert!(has_leading_underscore("_contract_address"));
    assert!(!has_leading_underscore(""));
    assert!(!has_leading_underscore("a_"));
    assert!(!has_leading_underscore("é_"));
}

#[test]
fn a_delta_changes_one_tally_of_a_poll() {
    let mut poll = Poll::new("c".to_string(), "q".to_string(), labels(&["A", "B", "A"])).unwrap();
    assert_eq!(poll.position("A"), Some(0));
    assert_eq!(poll.position("B"), Some(1));
    assert_eq!(poll.position("C"), None);
    assert_eq!(poll.apply_delta("B", Delta::Commit), Ok(1));
    assert_eq!(poll.apply_delta("B", Delta::Commit), Ok(2));
    assert_eq!(poll.apply_delta("A", Delta::Commit), Ok(1));
    assert_eq!(poll.apply_delta("B", Delta::Retract), Ok(1));
    assert_eq!(poll.apply_delta("C", Delta::Commit), Err(ContractError::VoteOptionNotFound {}));
    assert_eq!(poll.apply_delta("C", Delta::Retract), Err(ContractError::VoteOptionNotFound {}));
    assert_eq!(poll.options, vec![entry("A", 1), entry("B", 1), entry("A", 0)]);
    let copy = poll.clone();
    assert_eq!(copy, poll);
}

#[test]
fn a_delta_changes_one_tally_in_the_store() {
    let mut state = State::new();
    new_poll(&mut state, "lunch", &["A", "B"]);
    new_poll(&mut state, "colour", &["A", "B"]);
    let poll = state.apply_delta("lunch", "B", Delta::Commit).unwrap();
    assert_eq!(poll.options, vec![entry("A", 0), entry("B", 1)]);
    assert_eq!(tallies(&state, "lunch"), vec![entry("A", 0), entry("B", 1)]);
    assert_eq!(tallies(&state, "colour"), vec![entry("A", 0), entry("B", 0)]);
    let poll = state.apply_delta("lunch", "B", Delta::Retract).unwrap();
    assert_eq!(poll.options, vec![entry("A", 0), entry("B", 0)]);
    assert_eq!(
        state.apply_delta("absent", "B", Delta::Commit).unwrap_err(),
        ContractError::PollNotFound {}
    );
    assert_eq!(
        state.apply_delta("lunch", "Z", Delta::Commit).unwrap_err(),
        ContractError::VoteOptionNotFound {}
    );
    assert_eq!(tallies(&state, "lunch"), vec![entry("A", 0), entry("B", 0)]);
}

#[test]
fn the_store_reads_what_was_written() {
    let mut state = State::new();
    assert!(state.load_poll("p").is_none());
    assert!(state.load_ballot("v", "p").is_none());
    assert!(state.load_config().is_none());
    assert_eq!(state.all_polls().len(), 0);

    let first = Poll::new("c".to_string(), "first".to_string(), labels(&["A"])).unwrap();
    let second = Poll::new("c".to_string(), "second".to_string(), labels(&["B"])).unwrap();
    state.save_poll("p".to_string(), first.clone());
    assert_eq!(state.load_poll("p"), Some(first));
    state.save_poll("p".to_string(), second.clone());
    assert_eq!(state.load_poll("p"), Some(second));
    assert!(state.load_poll("q").is_none());

    state.save_ballot("v".to_string(), "p".to_string(), Ballot { option: "A".to_string() });
    state.save_ballot("w".to_string(), "p".to_string(), Ballot { option: "B".to_string() });
    state.save_ballot("v".to_string(), "q".to_string(), Ballot { option: "C".to_string() });
    state.save_ballot("v".to_string(), "p".to_string(), Ballot { option: "D".to_string() });
    assert_eq!(state.load_ballot("v", "p"), Some(Ballot { option: "D".to_string() }));
    assert_eq!(state.load_ballot("w", "p"), Some(Ballot { option: "B".to_string() }));
    assert_eq!(state.load_ballot("v", "q"), Some(Ballot { option: "C".to_string() }));
    assert_eq!(state.load_ballot("p", "v"), None);
    assert_eq!(state.ballot_count(), 3);

    state.save_config(Config { admin: "root".to_string() });
    assert_eq!(state.load_config(), Some(Config { admin: "root".to_string() }));
}

#[test]
fn setting_up_names_the_administrator() {
    let mut state = State::new();
    let res = instantiate(&mut state, Ok("admin1".to_string())).unwrap();
    assert_eq!(res.attributes, vec![attr("action", "instantiate"), attr("admin", "admin1")]);
    assert_eq!(query_config(&state).admin, "admin1");
    instantiate(&mut state, Ok("admin2".to_string())).unwrap();
    assert_eq!(query_config(&state).admin, "admin2");
}

#[test]
fn an_address_that_the_host_refuses_is_an_error_of_the_host() {
    let mut state = State::new();
    let err = instantiate(&mut state, Err(StdError::generic_err("no such address"))).unwrap_err();
    assert_eq!(err, ContractError::Std(StdError::generic_err("no such address")));
    assert_eq!(ContractError::from(StdError::generic_err("x")), ContractError::Std(StdError::generic_err("x")));
    assert!(state.load_config().is_none());
}
