//! The entry points: setting up, creating a poll, voting, and the queries.

use crate::consistency::{lemma_create_keeps_consistent, lemma_vote_keeps_consistent};
use crate::error::ContractError;
use crate::msg::{
    AllPollsResponse, ConfigResponse, ExecuteMsg, InstantiateMsg, MessageInfo, PollResponse,
    QueryMsg, QueryResponse, VoteResponse,
};
use crate::poll::{
    first_index, has_label, labels_view, lemma_first_index, lemma_update_keeps_labels, Delta,
    Poll, PollView, MAX_OPTIONS,
};
use crate::response::{new_response, response_attributes, with_attribute};
use crate::state::{polls_view, Ballot, Config, State, StateView};
use crate::text::{decimal, decimal_string, has_leading_underscore, leads_with_underscore};
use cosmwasm_std::{Response, StdError};
use vstd::prelude::*;
use vstd::string::*;

verus! {

/// Casts the vote of `voter` for `label` in the poll `id`, or changes the
/// voter's earlier vote in that poll to it, and returns the new tally of
/// `label`. A poll or a label that does not exist is refused, and the store
/// stays as it was.
pub fn cast_vote(state: &mut State, voter: &str, id: &str, label: &str) -> (r: Result<
    u64,
    ContractError,
>)
    requires
        old(state)@.admits_vote(voter@, id@, label@),
    ensures
        match old(state)@.vote_outcome(voter@, id@, label@) {
            Ok(s) => final(state)@ == s && r is Ok && r->Ok_0 == s.polls[id@].tally_of(label@),
            Err(e) => r == Err::<u64, ContractError>(e) && final(state)@ == old(state)@,
        },
        old(state)@.consistent() ==> final(state)@.consistent(),
{
    proof {
        if old(state)@.consistent() {
            lemma_vote_keeps_consistent(old(state)@, voter@, id@, label@);
        }
    }
    let poll = match state.load_poll(id) {
        Some(poll) => poll,
        None => {
            return Err(ContractError::PollNotFound {  });
        },
    };
    let j = match poll.position(label) {
        Some(j) => j,
        None => {
            return Err(ContractError::VoteOptionNotFound {  });
        },
    };
    let ghost stored = poll@;
    let ghost before = old(state)@.ballot_of(voter@, id@);
    match state.load_ballot(voter, id) {
        Some(ballot) => {
            proof {
                let i = first_index(stored.options, ballot@);
                lemma_first_index(stored.options, ballot@);
                lemma_update_keeps_labels(
                    stored.options,
                    i,
                    (stored.options[i].1 - 1) as nat,
                    label@,
                );
            }
            let _ = state.apply_delta(id, ballot.option.as_str(), Delta::Retract);
        },
        None => {},
    }
    let poll = match state.apply_delta(id, label, Delta::Commit) {
        Ok(poll) => poll,
        Err(e) => {
            return Err(e);
        },
    };
    state.save_ballot(
        String::from_str(voter),
        String::from_str(id),
        Ballot { option: String::from_str(label) },
    );
    proof {
        let cast = stored.recast(before, label@);
        assert(state@.polls =~= old(state)@.polls.insert(id@, cast));
        lemma_first_index(stored.options, label@);
        let mid = match before {
            Some(b) => stored.retracted(b).options,
            None => stored.options,
        };
        if before is Some {
            let i = first_index(stored.options, before->Some_0);
            lemma_first_index(stored.options, before->Some_0);
            lemma_update_keeps_labels(stored.options, i, (stored.options[i].1 - 1) as nat, label@);
        }
        lemma_update_keeps_labels(mid, j as int, mid[j as int].1 + 1, label@);
        lemma_first_index(cast.options, label@);
    }
    Ok(poll.options[j].1)
}

/// Tests whether `vote` may be called: whether `vote_allowed` holds.
pub fn vote_is_allowed(state: &State, info: &MessageInfo, poll_id: &str, choice: &str) -> (r: bool)
    ensures
        r == vote_allowed(state@, info.sender@, poll_id@, choice@),
{
    let poll = match state.load_poll(poll_id) {
        Some(poll) => poll,
        None => {
            return true;
        },
    };
    let j = match poll.position(choice) {
        Some(j) => j,
        None => {
            return true;
        },
    };
    proof {
        lemma_first_index(poll@.options, choice@);
    }
    if has_leading_underscore(choice) {
        return false;
    }
    match state.load_ballot(info.sender.as_str(), poll_id) {
        Some(ballot) => match poll.position(ballot.option.as_str()) {
            Some(i) => {
                proof {
                    let o = poll@.options;
                    lemma_first_index(o, ballot@);
                    lemma_update_keeps_labels(o, i as int, (o[i as int].1 - 1) as nat, choice@);
                }
                poll.options[i].1 >= 1 && (i == j || poll.options[j].1 < u64::MAX)
            },
            None => false,
        },
        None => poll.options[j].1 < u64::MAX,
    }
}

/// The address that is to become the administrator: the one that the
/// message names, else the sender. The host validates it before `instantiate`.
pub fn proposed_admin(info: &MessageInfo, msg: &InstantiateMsg) -> (r: String)
    ensures
        r@ == match msg.admin {
            Some(a) => a@,
            None => info.sender@,
        },
{
    match &msg.admin {
        Some(a) => a.clone(),
        None => info.sender.clone(),
    }
}

/// Sets the contract up with the administrator as the host has validated
/// it. Where the host refused the address, its error is handed on and the
/// store stays as it was.
pub fn instantiate(state: &mut State, admin: Result<String, StdError>) -> (r: Result<
    Response,
    ContractError,
>)
    ensures
        match admin {
            Ok(a) => final(state)@ == old(state)@.with_config(a@) && r is Ok
                && response_attributes(r->Ok_0) == seq![
                ("action"@, "instantiate"@),
                ("admin"@, a@),
            ],
            Err(e) => r == Err::<Response, ContractError>(ContractError::Std(e)) && final(state)@
                == old(state)@,
        },
        old(state)@.consistent() ==> final(state)@.consistent(),
{
    match admin {
        Ok(a) => {
            proof {
                reveal_strlit("action");
                reveal_strlit("admin");
            }
            let response = with_attribute(
                with_attribute(new_response(), "action", "instantiate"),
                "admin",
                a.as_str(),
            );
            state.save_config(Config { admin: a });
            Ok(response)
        },
        Err(e) => Err(ContractError::from(e)),
    }
}

/// What `create_poll` does: more than `MAX_OPTIONS` options are refused and
/// the store stays as it was; else the poll stands under its id, with the
/// sender as its creator and every tally 0, in place of a poll that was there.
pub open spec fn create_poll_spec(
    before: StateView,
    sender: Seq<char>,
    poll_id: Seq<char>,
    question: Seq<char>,
    labels: Seq<Seq<char>>,
    after: StateView,
    r: Result<Response, ContractError>,
) -> bool {
    if labels.len() > MAX_OPTIONS {
        r == Err::<Response, ContractError>(ContractError::TooManyOptions {  }) && after == before
    } else {
        &&& after == before.with_poll(poll_id, PollView::fresh(sender, question, labels))
        &&& r is Ok
        &&& response_attributes(r->Ok_0) == seq![
            ("action"@, "create_poll"@),
            ("poll_id"@, poll_id),
        ]
    }
}

/// Creates a poll.
pub fn create_poll(
    state: &mut State,
    info: MessageInfo,
    poll_id: String,
    question: String,
    options: Vec<String>,
) -> (r: Result<Response, ContractError>)
    ensures
        create_poll_spec(
            old(state)@,
            info.sender@,
            poll_id@,
            question@,
            labels_view(options@),
            final(state)@,
            r,
        ),
        old(state)@.consistent() && old(state)@.unvoted(poll_id@) ==> final(state)@.consistent(),
{
    proof {
        if old(state)@.consistent() && old(state)@.unvoted(poll_id@) {
            lemma_create_keeps_consistent(
                old(state)@,
                poll_id@,
                PollView::fresh(info.sender@, question@, labels_view(options@)),
            );
        }
    }
    let poll = match Poll::new(info.sender, question, options) {
        Ok(poll) => poll,
        Err(e) => {
            return Err(e);
        },
    };
    proof {
        reveal_strlit("action");
        reveal_strlit("poll_id");
    }
    let response = with_attribute(
        with_attribute(new_response(), "action", "create_poll"),
        "poll_id",
        poll_id.as_str(),
    );
    state.save_poll(poll_id, poll);
    proof {
        assert(labels_view(options@).len() == options@.len());
        assert(response_attributes(response) =~= seq![
            ("action"@, "create_poll"@),
            ("poll_id"@, poll_id@),
        ]);
    }
    Ok(response)
}

/// What `vote` does: the store changes as `StateView::vote_outcome` says, and
/// the response names the poll, the label and the label's new tally; where
/// the vote is refused, the store stays as it was.
pub open spec fn vote_spec(
    before: StateView,
    sender: Seq<char>,
    poll_id: Seq<char>,
    label: Seq<char>,
    after: StateView,
    r: Result<Response, ContractError>,
) -> bool {
    match before.vote_outcome(sender, poll_id, label) {
        Ok(s) => {
            &&& after == s
            &&& r is Ok
            &&& response_attributes(r->Ok_0) == seq![
                ("action"@, "vote"@),
                ("poll_id"@, poll_id),
                (label, decimal(s.polls[poll_id].tally_of(label))),
            ]
        },
        Err(e) => r == Err::<Response, ContractError>(e) && after == before,
    }
}

/// What a caller of `vote` owes: the tallies can take the vote, and the
/// label of a vote that is not refused, which becomes a key of the
/// response, does not begin with an underscore.
pub open spec fn vote_allowed(
    before: StateView,
    sender: Seq<char>,
    poll_id: Seq<char>,
    label: Seq<char>,
) -> bool {
    &&& before.admits_vote(sender, poll_id, label)
    &&& before.vote_outcome(sender, poll_id, label) is Ok ==> !leads_with_underscore(label)
}

/// Casts or changes the vote of the sender.
pub fn vote(state: &mut State, info: MessageInfo, poll_id: String, choice: String) -> (r: Result<
    Response,
    ContractError,
>)
    requires
        vote_allowed(old(state)@, info.sender@, poll_id@, choice@),
    ensures
        vote_spec(old(state)@, info.sender@, poll_id@, choice@, final(state)@, r),
        old(state)@.consistent() ==> final(state)@.consistent(),
{
    let tally = match cast_vote(state, info.sender.as_str(), poll_id.as_str(), choice.as_str()) {
        Ok(tally) => tally,
        Err(e) => {
            return Err(e);
        },
    };
    proof {
        reveal_strlit("action");
        reveal_strlit("poll_id");
    }
    let count = decimal_string(tally);
    let response = with_attribute(
        with_attribute(with_attribute(new_response(), "action", "vote"), "poll_id", poll_id.as_str()),
        choice.as_str(),
        count.as_str(),
    );
    proof {
        assert(response_attributes(response) =~= seq![
            ("action"@, "vote"@),
            ("poll_id"@, poll_id@),
            (choice@, count@),
        ]);
    }
    Ok(response)
}

/// Carries out a call that changes the store.
pub fn execute(state: &mut State, info: MessageInfo, msg: ExecuteMsg) -> (r: Result<
    Response,
    ContractError,
>)
    requires
        msg matches ExecuteMsg::Vote { poll_id, vote } ==> vote_allowed(
            old(state)@,
            info.sender@,
            poll_id@,
            vote@,
        ),
    ensures
        match msg {
            ExecuteMsg::CreatePoll { poll_id, question, options } => create_poll_spec(
                old(state)@,
                info.sender@,
                poll_id@,
                question@,
                labels_view(options@),
                final(state)@,
                r,
            ),
            ExecuteMsg::Vote { poll_id, vote } => vote_spec(
                old(state)@,
                info.sender@,
                poll_id@,
                vote@,
                final(state)@,
                r,
            ),
        },
        old(state)@.consistent() && (msg matches ExecuteMsg::CreatePoll { poll_id, .. }
            ==> old(state)@.unvoted(poll_id@)) ==> final(state)@.consistent(),
{
    match msg {
        ExecuteMsg::CreatePoll { poll_id, question, options } => create_poll(
            state,
            info,
            poll_id,
            question,
            options,
        ),
        ExecuteMsg::Vote { poll_id, vote } => self::vote(state, info, poll_id, vote),
    }
}

/// All polls, in ascending order of their ids.
pub fn query_all_polls(state: &State) -> (r: AllPollsResponse)
    ensures
        polls_view(r.polls@) == state@.polls_in_order(),
{
    AllPollsResponse { polls: state.all_polls() }
}

/// The poll stored under `poll_id`, if there is one.
pub fn query_poll(state: &State, poll_id: String) -> (r: PollResponse)
    ensures
        match r.poll {
            Some(p) => state@.polls.contains_key(poll_id@) && p@ == state@.polls[poll_id@],
            None => !state@.polls.contains_key(poll_id@),
        },
{
    PollResponse { poll: state.load_poll(poll_id.as_str()) }
}

/// The ballot of `address` in the poll `poll_id`, if there is one. The host
/// has validated the address.
pub fn query_vote(state: &State, poll_id: String, address: String) -> (r: VoteResponse)
    ensures
        match r.vote {
            Some(b) => state@.ballot_of(address@, poll_id@) == Some(b@),
            None => state@.ballot_of(address@, poll_id@) is None,
        },
{
    VoteResponse { vote: state.load_ballot(address.as_str(), poll_id.as_str()) }
}

/// The administrator of a contract that has been set up.
pub fn query_config(state: &State) -> (r: ConfigResponse)
    requires
        state@.config is Some,
    ensures
        Some(r.admin@) == state@.config,
{
    match state.load_config() {
        Some(config) => ConfigResponse { admin: config.admin },
        None => ConfigResponse { admin: String::new() },
    }
}

/// What `query` answers to each kind of query.
pub open spec fn query_spec(state: StateView, msg: QueryMsg, r: QueryResponse) -> bool {
    match msg {
        QueryMsg::AllPolls {  } => r matches QueryResponse::AllPolls(a) && polls_view(a.polls@)
            == state.polls_in_order(),
        QueryMsg::Poll { poll_id } => r matches QueryResponse::Poll(p) && match p.poll {
            Some(p) => state.polls.contains_key(poll_id@) && p@ == state.polls[poll_id@],
            None => !state.polls.contains_key(poll_id@),
        },
        QueryMsg::Vote { poll_id, address } => r matches QueryResponse::Vote(v) && match v.vote {
            Some(b) => state.ballot_of(address@, poll_id@) == Some(b@),
            None => state.ballot_of(address@, poll_id@) is None,
        },
        QueryMsg::Config {  } => r matches QueryResponse::Config(c) && Some(c.admin@)
            == state.config,
    }
}

/// Answers a call that reads the store.
pub fn query(state: &State, msg: QueryMsg) -> (r: QueryResponse)
    requires
        msg is Config ==> state@.config is Some,
    ensures
        query_spec(state@, msg, r),
{
    match msg {
        QueryMsg::AllPolls {  } => QueryResponse::AllPolls(query_all_polls(state)),
        QueryMsg::Poll { poll_id } => QueryResponse::Poll(query_poll(state, poll_id)),
        QueryMsg::Vote { poll_id, address } => QueryResponse::Vote(
            query_vote(state, poll_id, address),
        ),
        QueryMsg::Config {  } => QueryResponse::Config(query_config(state)),
    }
}

} // verus!
