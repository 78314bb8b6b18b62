//! The tallies agree with the ballots: what that means, and that setting up,
//! creating a poll under an id without ballots, and voting keep it so.

use crate::poll::{
    first_index, has_label, is_first_at, lemma_first_index, lemma_total_bounds,
    lemma_total_of_zeros, lemma_total_update, lemma_update_keeps_labels, total, Options, PollView,
};
use crate::error::ContractError;
use crate::state::{BallotKey, StateView};
use vstd::prelude::*;
use vstd::set_lib::lemma_len_subset;

verus! {

/// The ballots as mathematics: the label chosen, by voter and poll.
pub type Ballots = Map<BallotKey, Seq<char>>;

/// The ballots that are cast in the poll `id`: one for each voter who has
/// voted in it.
pub open spec fn ballots_in(ballots: Ballots, id: Seq<char>) -> Set<BallotKey> {
    Set::new(|k: BallotKey| ballots.contains_key(k) && k.1 == id)
}

/// The ballots in the poll `id` that name `label`.
pub open spec fn ballots_for(ballots: Ballots, id: Seq<char>, label: Seq<char>) -> Set<BallotKey> {
    Set::new(|k: BallotKey| ballots.contains_key(k) && k.1 == id && ballots[k] == label)
}

/// The tally that the option at `i` must show: the number of ballots that
/// name its label where it is the first with that label, and 0 where the
/// label stands further up already.
pub open spec fn expected_tally(options: Options, ballots: Ballots, id: Seq<char>, i: int) -> nat {
    if is_first_at(options, options[i].0, i) {
        ballots_for(ballots, id, options[i].0).len()
    } else {
        0
    }
}

/// The poll under `id` counts the ballots: its tallies add up to the number
/// of ballots cast in it, and each is the number of ballots for its label.
pub open spec fn counts(poll: PollView, ballots: Ballots, id: Seq<char>) -> bool {
    &&& total(poll.options) == ballots_in(ballots, id).len()
    &&& forall|i: int|
        0 <= i < poll.options.len() ==> (#[trigger] poll.options[i]).1 == expected_tally(
            poll.options,
            ballots,
            id,
            i,
        )
}

impl StateView {
    /// No ballot is cast in the poll `id`.
    pub open spec fn unvoted(self, id: Seq<char>) -> bool {
        forall|voter: Seq<char>| !self.ballots.contains_key((voter, id))
    }

    /// The tallies agree with the ballots: there are finitely many ballots,
    /// each is cast in a poll that exists and names one of its labels, and
    /// every poll counts the ballots cast in it.
    pub open spec fn consistent(self) -> bool {
        &&& self.ballots.dom().finite()
        &&& forall|k: BallotKey| #[trigger]
            self.ballots.contains_key(k) ==> self.polls.contains_key(k.1) && has_label(
                self.polls[k.1].options,
                self.ballots[k],
            )
        &&& forall|id: Seq<char>| #[trigger]
            self.polls.contains_key(id) ==> counts(self.polls[id], self.ballots, id)
    }
}

/// Of finitely many ballots, those in one poll are no more than all, and
/// those for one label no more than those in the poll.
pub proof fn lemma_ballot_sets(ballots: Ballots, id: Seq<char>, label: Seq<char>)
    requires
        ballots.dom().finite(),
    ensures
        ballots_in(ballots, id).finite(),
        ballots_for(ballots, id, label).finite(),
        ballots_for(ballots, id, label).len() <= ballots_in(ballots, id).len(),
        ballots_in(ballots, id).len() <= ballots.dom().len(),
{
    lemma_len_subset(ballots_in(ballots, id), ballots.dom());
    lemma_len_subset(ballots_for(ballots, id, label), ballots_in(ballots, id));
}

/// How one ballot more, or one ballot changed, moves the sets of ballots.
pub proof fn lemma_ballot_sets_insert(
    ballots: Ballots,
    k: BallotKey,
    v: Seq<char>,
    id: Seq<char>,
    label: Seq<char>,
)
    ensures
        ballots_in(ballots.insert(k, v), id) == if k.1 == id {
            ballots_in(ballots, id).insert(k)
        } else {
            ballots_in(ballots, id)
        },
        ballots_for(ballots.insert(k, v), id, label) == if k.1 == id && v == label {
            ballots_for(ballots, id, label).insert(k)
        } else {
            ballots_for(ballots, id, label).remove(k)
        },
{
    let after = ballots.insert(k, v);
    if k.1 == id {
        assert(ballots_in(after, id) =~= ballots_in(ballots, id).insert(k));
    } else {
        assert(ballots_in(after, id) =~= ballots_in(ballots, id));
    }
    if k.1 == id && v == label {
        assert(ballots_for(after, id, label) =~= ballots_for(ballots, id, label).insert(k));
    } else {
        assert(ballots_for(after, id, label) =~= ballots_for(ballots, id, label).remove(k));
    }
}

/// What `PollView::recast` does to the options: the labels stay, the tally
/// of the choice taken back loses one, and that of the new choice gains one.
pub proof fn lemma_recast(poll: PollView, before: Option<Seq<char>>, label: Seq<char>)
    requires
        has_label(poll.options, label),
        before matches Some(b) ==> has_label(poll.options, b) && poll.tally_of(b) >= 1,
    ensures
        ({
            let o = poll.options;
            let r = poll.recast(before, label).options;
            let j = first_index(o, label);
            &&& r.len() == o.len()
            &&& forall|m: int| 0 <= m < o.len() ==> (#[trigger] r[m]).0 == o[m].0
            &&& forall|l: Seq<char>| has_label(r, l) == has_label(o, l)
            &&& forall|l: Seq<char>, m: int| is_first_at(r, l, m) == is_first_at(o, l, m)
            &&& match before {
                Some(b) => {
                    let i = first_index(o, b);
                    &&& total(r) == total(o)
                    &&& forall|m: int|
                        0 <= m < o.len() ==> (#[trigger] r[m]).1 == o[m].1 - (if m == i {
                            1int
                        } else {
                            0
                        }) + (if m == j {
                            1int
                        } else {
                            0
                        })
                },
                None => {
                    &&& total(r) == total(o) + 1
                    &&& forall|m: int|
                        0 <= m < o.len() ==> (#[trigger] r[m]).1 == o[m].1 + (if m == j {
                            1int
                        } else {
                            0
                        })
                },
            }
        }),
{
    let o = poll.options;
    let j = first_index(o, label);
    lemma_first_index(o, label);
    let mid = match before {
        Some(b) => poll.retracted(b).options,
        None => o,
    };
    match before {
        Some(b) => {
            let i = first_index(o, b);
            lemma_first_index(o, b);
            lemma_total_update(o, i, (o[i].1 - 1) as nat);
            lemma_update_keeps_labels(o, i, (o[i].1 - 1) as nat, label);
            assert forall|l: Seq<char>| has_label(mid, l) == has_label(o, l) by {
                lemma_update_keeps_labels(o, i, (o[i].1 - 1) as nat, l);
            }
            assert forall|l: Seq<char>, m: int| is_first_at(mid, l, m) == is_first_at(o, l, m) by {
                lemma_same_labels_same_firsts(o, mid, l, m);
            }
        },
        None => {},
    }
    assert(first_index(mid, label) == j);
    let r = poll.recast(before, label).options;
    assert(r == mid.update(j, (mid[j].0, mid[j].1 + 1)));
    lemma_total_update(mid, j, mid[j].1 + 1);
    assert forall|l: Seq<char>| has_label(r, l) == has_label(o, l) by {
        lemma_update_keeps_labels(mid, j, mid[j].1 + 1, l);
    }
    assert forall|l: Seq<char>, m: int| is_first_at(r, l, m) == is_first_at(o, l, m) by {
        lemma_same_labels_same_firsts(mid, r, l, m);
    }
}

proof fn lemma_same_labels_same_firsts(a: Options, b: Options, l: Seq<char>, m: int)
    requires
        a.len() == b.len(),
        forall|n: int| 0 <= n < a.len() ==> (#[trigger] a[n]).0 == b[n].0,
    ensures
        is_first_at(a, l, m) == is_first_at(b, l, m),
{
    if is_first_at(a, l, m) {
        assert(b[m].0 == a[m].0);
        assert forall|n: int| 0 <= n < m implies (#[trigger] b[n]).0 != l by {
            assert(a[n].0 != l);
        }
    }
    if is_first_at(b, l, m) {
        assert(a[m].0 == b[m].0);
        assert forall|n: int| 0 <= n < m implies (#[trigger] a[n]).0 != l by {
            assert(a[n].0 == b[n].0);
        }
    }
}

/// The store that holds nothing is consistent.
pub proof fn lemma_empty_consistent()
    ensures
        StateView::empty().consistent(),
{
}

/// Naming the administrator keeps the store consistent.
pub proof fn lemma_config_keeps_consistent(s: StateView, admin: Seq<char>)
    requires
        s.consistent(),
    ensures
        s.with_config(admin).consistent(),
{
}

/// A poll without votes, stored under an id in which no ballot is cast,
/// keeps the store consistent.
pub proof fn lemma_create_keeps_consistent(s: StateView, id: Seq<char>, poll: PollView)
    requires
        s.consistent(),
        s.unvoted(id),
        forall|i: int| 0 <= i < poll.options.len() ==> (#[trigger] poll.options[i]).1 == 0,
    ensures
        s.with_poll(id, poll).consistent(),
{
    let t = s.with_poll(id, poll);
    assert forall|k: BallotKey| #[trigger] t.ballots.contains_key(k) implies t.polls.contains_key(
        k.1,
    ) && has_label(t.polls[k.1].options, t.ballots[k]) by {
        assert(s.ballots.contains_key(k));
        assert(k == (k.0, k.1));
        assert(k.1 != id);
    }
    assert forall|other: Seq<char>| #[trigger] t.polls.contains_key(other) implies counts(
        t.polls[other],
        t.ballots,
        other,
    ) by {
        if other == id {
            lemma_total_of_zeros(poll.options);
            assert(ballots_in(s.ballots, id) =~= Set::<BallotKey>::empty()) by {
                assert forall|k: BallotKey| !ballots_in(s.ballots, id).contains(k) by {
                    assert(k == (k.0, k.1));
                }
            }
            assert forall|i: int| 0 <= i < poll.options.len() implies (#[trigger] poll.options[i]).1
                == expected_tally(poll.options, s.ballots, id, i) by {
                lemma_ballot_sets(s.ballots, id, poll.options[i].0);
            }
        } else {
            assert(s.polls.contains_key(other));
        }
    }
}

/// In a consistent store the choice of every ballot is counted: the poll has
/// its label, and the tally of that label is at least 1.
pub proof fn lemma_ballot_is_counted(s: StateView, voter: Seq<char>, id: Seq<char>)
    requires
        s.consistent(),
        s.ballots.contains_key((voter, id)),
    ensures
        s.polls.contains_key(id),
        has_label(s.polls[id].options, s.ballots[(voter, id)]),
        s.polls[id].tally_of(s.ballots[(voter, id)]) >= 1,
{
    let k = (voter, id);
    let b = s.ballots[k];
    let o = s.polls[id].options;
    assert(s.polls.contains_key(id));
    assert(counts(s.polls[id], s.ballots, id));
    lemma_first_index(o, b);
    let i = first_index(o, b);
    assert(o[i].1 == expected_tally(o, s.ballots, id, i));
    lemma_ballot_sets(s.ballots, id, b);
    assert(ballots_for(s.ballots, id, b).contains(k));
    if ballots_for(s.ballots, id, b).len() == 0 {
        assert(ballots_for(s.ballots, id, b) =~= Set::<BallotKey>::empty());
    }
}

/// A vote that is not refused keeps the store consistent: afterwards the
/// tallies of every poll still add up to the number of voters whose ballot is
/// cast in it, whether the voter has voted for the first time, changed the
/// choice, or chosen the same label again.
pub proof fn lemma_vote_keeps_consistent(
    s: StateView,
    voter: Seq<char>,
    id: Seq<char>,
    label: Seq<char>,
)
    requires
        s.consistent(),
    ensures
        s.vote_outcome(voter, id, label) matches Ok(t) ==> t.consistent(),
{
    if s.vote_outcome(voter, id, label) is Ok {
        let t = s.vote_outcome(voter, id, label)->Ok_0;
        let k = (voter, id);
        let before = s.ballot_of(voter, id);
        let poll = s.polls[id];
        let o = poll.options;
        let r = poll.recast(before, label).options;
        let j = first_index(o, label);
        assert(s.polls.contains_key(id));
        assert(counts(poll, s.ballots, id));
        lemma_first_index(o, label);
        if before is Some {
            lemma_ballot_is_counted(s, voter, id);
            lemma_first_index(o, before->Some_0);
        }
        lemma_recast(poll, before, label);
        assert forall|q: BallotKey| #[trigger] t.ballots.contains_key(q) implies t.polls.contains_key(
            q.1,
        ) && has_label(t.polls[q.1].options, t.ballots[q]) by {
            if q != k {
                assert(s.ballots.contains_key(q));
            }
        }
        assert forall|other: Seq<char>| #[trigger] t.polls.contains_key(other) implies counts(
            t.polls[other],
            t.ballots,
            other,
        ) by {
            lemma_ballot_sets_insert(s.ballots, k, label, other, label);
            if other != id {
                assert(s.polls.contains_key(other));
                let p = s.polls[other];
                assert(counts(p, s.ballots, other));
                assert forall|m: int| 0 <= m < p.options.len() implies (#[trigger] p.options[m]).1
                    == expected_tally(p.options, t.ballots, other, m) by {
                    lemma_ballot_sets_insert(s.ballots, k, label, other, p.options[m].0);
                    assert(!ballots_for(s.ballots, other, p.options[m].0).contains(k));
                    assert(ballots_for(s.ballots, other, p.options[m].0).remove(k)
                        =~= ballots_for(s.ballots, other, p.options[m].0));
                }
            } else {
                lemma_ballot_sets(s.ballots, id, label);
                assert forall|m: int| 0 <= m < r.len() implies (#[trigger] r[m]).1
                    == expected_tally(r, t.ballots, id, m) by {
                    let l = o[m].0;
                    assert(r[m].0 == l);
                    assert(o[m].1 == expected_tally(o, s.ballots, id, m));
                    lemma_ballot_sets_insert(s.ballots, k, label, id, l);
                    lemma_ballot_sets(s.ballots, id, l);
                    assert(is_first_at(r, l, m) == is_first_at(o, l, m));
                    if is_first_at(o, l, m) {
                        if l == label {
                            assert(m == j);
                        } else {
                            assert(m != j);
                        }
                        match before {
                            Some(b) => {
                                let i = first_index(o, b);
                                if l == b {
                                    assert(m == i);
                                } else {
                                    assert(m != i);
                                    assert(!ballots_for(s.ballots, id, l).contains(k));
                                }
                            },
                            None => {
                                assert(!ballots_for(s.ballots, id, l).contains(k));
                            },
                        }
                    } else {
                        assert(m != j);
                        if before is Some {
                            assert(m != first_index(o, before->Some_0));
                        }
                    }
                }
            }
        }
    }
}

/// In a consistent store that holds fewer ballots than a `u64` can count,
/// the tallies can take every vote.
pub proof fn lemma_consistent_admits_vote(
    s: StateView,
    voter: Seq<char>,
    id: Seq<char>,
    label: Seq<char>,
)
    requires
        s.consistent(),
        s.ballots.dom().len() < u64::MAX,
    ensures
        s.admits_vote(voter, id, label),
{
    if s.vote_outcome(voter, id, label) is Ok {
        let k = (voter, id);
        let poll = s.polls[id];
        let o = poll.options;
        let j = first_index(o, label);
        assert(s.polls.contains_key(id));
        assert(counts(poll, s.ballots, id));
        lemma_first_index(o, label);
        lemma_ballot_sets(s.ballots, id, label);
        lemma_total_bounds(o, j);
        match s.ballot_of(voter, id) {
            Some(b) => {
                lemma_ballot_is_counted(s, voter, id);
                lemma_first_index(o, b);
                let i = first_index(o, b);
                lemma_update_keeps_labels(o, i, (o[i].1 - 1) as nat, label);
            },
            None => {},
        }
    }
}

/// A voter who chooses again what the ballot names already changes nothing:
/// the choice is taken back and counted once more, and every tally is as it was.
pub proof fn lemma_same_choice_again(s: StateView, voter: Seq<char>, id: Seq<char>, label: Seq<char>)
    requires
        s.consistent(),
        s.ballot_of(voter, id) == Some(label),
    ensures
        s.vote_outcome(voter, id, label) == Ok::<StateView, ContractError>(s),
{
    lemma_ballot_is_counted(s, voter, id);
    let poll = s.polls[id];
    let o = poll.options;
    let i = first_index(o, label);
    lemma_first_index(o, label);
    lemma_update_keeps_labels(o, i, (o[i].1 - 1) as nat, label);
    assert(poll.recast(Some(label), label).options =~= o);
    let t = s.vote_outcome(voter, id, label)->Ok_0;
    assert(t.polls =~= s.polls);
    assert(t.ballots =~= s.ballots);
}

} // verus!
