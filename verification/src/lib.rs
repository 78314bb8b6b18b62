//! Polls with one ballot per voter: the tallies of a poll always
//! agree with the ballots that are currently cast in it.

pub mod assoc;
pub mod consistency;
pub mod contract;
pub mod error;
pub mod history;
pub mod msg;
pub mod poll;
pub mod response;
pub mod state;
pub mod text;
