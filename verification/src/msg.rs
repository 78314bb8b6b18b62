//! The messages that the contract takes and the answers that it gives.

use crate::poll::Poll;
use crate::state::Ballot;
use vstd::prelude::*;

verus! {

/// What the host says of a call: who made it.
#[derive(Debug, PartialEq)]
pub struct MessageInfo {
    pub sender: String,
}

/// Sets the contract up.
#[derive(Debug, PartialEq)]
pub struct InstantiateMsg {
    /// The administrator; the sender, where none is named.
    pub admin: Option<String>,
}

/// A call that changes the store.
#[derive(Debug, PartialEq)]
pub enum ExecuteMsg {
    CreatePoll { poll_id: String, question: String, options: Vec<String> },
    Vote { poll_id: String, vote: String },
}

/// A call that reads the store.
#[derive(Debug, PartialEq)]
pub enum QueryMsg {
    AllPolls {  },
    Poll { poll_id: String },
    Vote { poll_id: String, address: String },
    Config {  },
}

/// All polls, in ascending order of their ids.
#[derive(Debug, PartialEq)]
pub struct AllPollsResponse {
    pub polls: Vec<Poll>,
}

/// One poll, if it exists.
#[derive(Debug, PartialEq)]
pub struct PollResponse {
    pub poll: Option<Poll>,
}

/// The ballot of one voter in one poll, if there is one.
#[derive(Debug, PartialEq)]
pub struct VoteResponse {
    pub vote: Option<Ballot>,
}

/// The configuration.
#[derive(Debug, PartialEq)]
pub struct ConfigResponse {
    pub admin: String,
}

/// The answer to a query, by the kind of the query.
#[derive(Debug, PartialEq)]
pub enum QueryResponse {
    AllPolls(AllPollsResponse),
    Poll(PollResponse),
    Vote(VoteResponse),
    Config(ConfigResponse),
}

} // verus!
