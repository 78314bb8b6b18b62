//! Votes one after the other: what the store holds after a sequence of them.

use crate::consistency::{
    ballots_in, lemma_ballot_is_counted, lemma_recast, lemma_vote_keeps_consistent,
};
use crate::error::ContractError;
use crate::poll::{has_label, total};
use crate::state::{BallotKey, StateView};
use vstd::prelude::*;

verus! {

/// One vote as mathematics: the voter, the id of the poll, and the label chosen.
pub type VoteView = (Seq<char>, Seq<char>, Seq<char>);

impl StateView {
    /// Whether a vote for `label` in the poll `id` is accepted: the poll
    /// exists and has the label.
    pub open spec fn accepts(self, id: Seq<char>, label: Seq<char>) -> bool {
        self.polls.contains_key(id) && has_label(self.polls[id].options, label)
    }

    /// The store after a vote; the store as it was, where the vote is refused.
    pub open spec fn after_vote(self, voter: Seq<char>, id: Seq<char>, label: Seq<char>) -> StateView {
        match self.vote_outcome(voter, id, label) {
            Ok(t) => t,
            Err(_) => self,
        }
    }

    /// The store after the votes of a sequence, one after the other.
    pub open spec fn after_votes(self, votes: Seq<VoteView>) -> StateView
        decreases votes.len(),
    {
        if votes.len() == 0 {
            self
        } else {
            let v = votes.last();
            self.after_votes(votes.drop_last()).after_vote(v.0, v.1, v.2)
        }
    }
}

/// The votes of one voter in one poll, for the labels of a sequence in turn.
pub open spec fn votes_of(voter: Seq<char>, id: Seq<char>, labels: Seq<Seq<char>>) -> Seq<VoteView> {
    labels.map_values(|l: Seq<char>| (voter, id, l))
}

/// The last label of a sequence for which a vote in the poll `id` is accepted.
pub open spec fn last_accepted(s: StateView, id: Seq<char>, labels: Seq<Seq<char>>) -> Option<
    Seq<char>,
>
    decreases labels.len(),
{
    if labels.len() == 0 {
        None
    } else if s.accepts(id, labels.last()) {
        Some(labels.last())
    } else {
        last_accepted(s, id, labels.drop_last())
    }
}

/// The ballots that the store holds of one voter in one poll.
pub open spec fn ballots_of(s: StateView, voter: Seq<char>, id: Seq<char>) -> Set<BallotKey> {
    Set::new(|k: BallotKey| s.ballots.contains_key(k) && k.0 == voter && k.1 == id)
}

/// A vote is accepted if and only if `vote_outcome` is a new store.
pub proof fn lemma_accepts_iff_ok(s: StateView, voter: Seq<char>, id: Seq<char>, label: Seq<char>)
    ensures
        s.accepts(id, label) <==> s.vote_outcome(voter, id, label) is Ok,
{
}

/// A vote in a poll that does not exist is refused whatever the store
/// holds, and the store stays as it was; a consistent store holds no ballot
/// in such a poll, before or after.
pub proof fn lemma_vote_in_missing_poll(
    s: StateView,
    voter: Seq<char>,
    id: Seq<char>,
    label: Seq<char>,
)
    requires
        !s.polls.contains_key(id),
    ensures
        s.admits_vote(voter, id, label),
        s.vote_outcome(voter, id, label) == Err::<StateView, ContractError>(
            ContractError::PollNotFound {  },
        ),
        s.after_vote(voter, id, label) == s,
        s.consistent() ==> s.after_vote(voter, id, label).ballot_of(voter, id) is None,
{
    if s.consistent() && s.ballots.contains_key((voter, id)) {
        lemma_ballot_is_counted(s, voter, id);
    }
}

/// A vote for a label that the poll does not have is refused whatever the
/// store holds, and the store stays as it was: ballots and tallies are those
/// from before.
pub proof fn lemma_vote_for_missing_label(
    s: StateView,
    voter: Seq<char>,
    id: Seq<char>,
    label: Seq<char>,
)
    requires
        s.polls.contains_key(id),
        !has_label(s.polls[id].options, label),
    ensures
        s.admits_vote(voter, id, label),
        s.vote_outcome(voter, id, label) == Err::<StateView, ContractError>(
            ContractError::VoteOptionNotFound {  },
        ),
        s.after_vote(voter, id, label) == s,
{
}

/// A vote changes no poll's labels: which votes are accepted stays as it was.
pub proof fn lemma_vote_keeps_labels(
    s: StateView,
    voter: Seq<char>,
    id: Seq<char>,
    label: Seq<char>,
    other: Seq<char>,
    l: Seq<char>,
)
    requires
        s.consistent(),
    ensures
        s.after_vote(voter, id, label).accepts(other, l) == s.accepts(other, l),
{
    if s.accepts(id, label) && other == id {
        if s.ballots.contains_key((voter, id)) {
            lemma_ballot_is_counted(s, voter, id);
        }
        lemma_recast(s.polls[id], s.ballot_of(voter, id), label);
    }
}

/// After any sequence of votes a consistent store is consistent: in every
/// poll the tallies add up to the number of voters whose ballot is cast in
/// it. A voter who votes again, for another label or the same, is counted once.
pub proof fn lemma_votes_keep_consistent(s: StateView, votes: Seq<VoteView>)
    requires
        s.consistent(),
    ensures
        s.after_votes(votes).consistent(),
        forall|id: Seq<char>| #[trigger]
            s.after_votes(votes).polls.contains_key(id) ==> total(
                s.after_votes(votes).polls[id].options,
            ) == ballots_in(s.after_votes(votes).ballots, id).len(),
    decreases votes.len(),
{
    if votes.len() > 0 {
        let v = votes.last();
        lemma_votes_keep_consistent(s, votes.drop_last());
        lemma_vote_keeps_consistent(s.after_votes(votes.drop_last()), v.0, v.1, v.2);
    }
}

/// After any sequence of votes of one voter in one poll, the store holds at
/// most one ballot of that voter in that poll, and it names the label of the
/// last vote that was accepted; where none was, the ballot is as it was.
pub proof fn lemma_ballot_is_last_vote(
    s: StateView,
    voter: Seq<char>,
    id: Seq<char>,
    labels: Seq<Seq<char>>,
)
    requires
        s.consistent(),
    ensures
        ({
            let t = s.after_votes(votes_of(voter, id, labels));
            &&& t.consistent()
            &&& forall|l: Seq<char>| t.accepts(id, l) == s.accepts(id, l)
            &&& ballots_of(t, voter, id).finite()
            &&& ballots_of(t, voter, id).len() <= 1
            &&& t.ballot_of(voter, id) == match last_accepted(s, id, labels) {
                Some(l) => Some(l),
                None => s.ballot_of(voter, id),
            }
        }),
    decreases labels.len(),
{
    let t = s.after_votes(votes_of(voter, id, labels));
    if labels.len() > 0 {
        let head = labels.drop_last();
        let l = labels.last();
        assert(votes_of(voter, id, labels).drop_last() =~= votes_of(voter, id, head));
        assert(votes_of(voter, id, labels).last() == (voter, id, l));
        let mid = s.after_votes(votes_of(voter, id, head));
        lemma_ballot_is_last_vote(s, voter, id, head);
        lemma_vote_keeps_consistent(mid, voter, id, l);
        assert forall|x: Seq<char>| t.accepts(id, x) == s.accepts(id, x) by {
            lemma_vote_keeps_labels(mid, voter, id, l, id, x);
        }
    }
    assert(ballots_of(t, voter, id).subset_of(set![(voter, id)])) by {
        assert forall|k: BallotKey| ballots_of(t, voter, id).contains(k) implies k == (voter, id) by {
            assert(k == (k.0, k.1));
        }
    }
    vstd::set_lib::lemma_len_subset(ballots_of(t, voter, id), set![(voter, id)]);
}

} // verus!
