//! The store: polls by id, one ballot for each voter and poll, and the configuration.

use crate::assoc::{
    as_map, has_key, index_of_key, keys_unique, lemma_as_map_at, lemma_as_map_finite,
    lemma_as_map_insert, lemma_as_map_update,
};
use crate::error::ContractError;
use crate::poll::{has_label, Delta, Poll, PollView};
use crate::text::{compare_ids, id_lt, lemma_id_lt_strict_total, same_text, Rank};
use vstd::prelude::*;
use vstd::string::*;

verus! {

/// What was fixed when the contract was set up.
#[derive(Debug, PartialEq)]
pub struct Config {
    pub admin: String,
}

impl View for Config {
    type V = Seq<char>;

    open spec fn view(&self) -> Seq<char> {
        self.admin@
    }
}

impl Clone for Config {
    fn clone(&self) -> (r: Config)
        ensures
            r@ == self@,
    {
        Config { admin: self.admin.clone() }
    }
}

/// The choice of one voter in one poll.
#[derive(Debug, PartialEq)]
pub struct Ballot {
    pub option: String,
}

impl View for Ballot {
    type V = Seq<char>;

    open spec fn view(&self) -> Seq<char> {
        self.option@
    }
}

impl Clone for Ballot {
    fn clone(&self) -> (r: Ballot)
        ensures
            r@ == self@,
    {
        Ballot { option: self.option.clone() }
    }
}

/// The key of a ballot: the voter, then the id of the poll.
pub type BallotKey = (Seq<char>, Seq<char>);

/// The ids stand in ascending order, none twice.
pub open spec fn is_ascending(ids: Seq<Seq<char>>) -> bool {
    forall|i: int, j: int| 0 <= i < j < ids.len() ==> id_lt(#[trigger] ids[i], #[trigger] ids[j])
}

/// `ids` lists the set `dom` in ascending order.
pub open spec fn lists(ids: Seq<Seq<char>>, dom: Set<Seq<char>>) -> bool {
    &&& is_ascending(ids)
    &&& forall|id: Seq<char>| dom.contains(id) <==> ids.contains(id)
}

/// A set of ids has at most one ascending listing.
pub proof fn lemma_listing_unique(a: Seq<Seq<char>>, b: Seq<Seq<char>>, dom: Set<Seq<char>>)
    requires
        lists(a, dom),
        lists(b, dom),
    ensures
        a == b,
    decreases a.len(),
{
    if a.len() == 0 {
        if b.len() > 0 {
            assert(b.contains(b[0]));
            assert(a.contains(b[0]));
        }
        assert(a =~= b);
    } else {
        assert(a.contains(a[0]));
        assert(b.contains(a[0]));
        assert(b.contains(b[0]));
        assert(a.contains(b[0]));
        let i = choose|i: int| 0 <= i < a.len() && a[i] == b[0];
        let j = choose|j: int| 0 <= j < b.len() && b[j] == a[0];
        lemma_id_lt_strict_total(a[0], b[0], a[0]);
        if i > 0 {
            assert(id_lt(a[0], a[i]));
        }
        if j > 0 {
            assert(id_lt(b[0], b[j]));
        }
        assert(a[0] == b[0]);
        let rest = dom.remove(a[0]);
        lemma_tail_lists(a, dom);
        lemma_tail_lists(b, dom);
        lemma_listing_unique(a.drop_first(), b.drop_first(), rest);
        assert(a =~= seq![a[0]] + a.drop_first());
        assert(b =~= seq![b[0]] + b.drop_first());
    }
}

proof fn lemma_tail_lists(a: Seq<Seq<char>>, dom: Set<Seq<char>>)
    requires
        lists(a, dom),
        a.len() > 0,
    ensures
        lists(a.drop_first(), dom.remove(a[0])),
{
    let t = a.drop_first();
    assert forall|i: int, j: int| 0 <= i < j < t.len() implies id_lt(
        #[trigger] t[i],
        #[trigger] t[j],
    ) by {
        assert(t[i] == a[i + 1]);
        assert(t[j] == a[j + 1]);
    }
    assert forall|id: Seq<char>| dom.remove(a[0]).contains(id) <==> t.contains(id) by {
        if t.contains(id) {
            let k = choose|k: int| 0 <= k < t.len() && t[k] == id;
            assert(a[k + 1] == id);
            assert(a.contains(id));
            assert(id_lt(a[0], a[k + 1]));
            lemma_id_lt_strict_total(a[0], a[0], a[0]);
        }
        if dom.remove(a[0]).contains(id) {
            assert(a.contains(id));
            let k = choose|k: int| 0 <= k < a.len() && a[k] == id;
            assert(t[k - 1] == id);
        }
    }
}

/// The store as mathematics.
pub struct StateView {
    /// The polls, by id.
    pub polls: Map<Seq<char>, PollView>,
    /// The label that each voter has chosen in each poll.
    pub ballots: Map<BallotKey, Seq<char>>,
    /// The administrator, once the contract is set up.
    pub config: Option<Seq<char>>,
}

impl StateView {
    /// The store that holds nothing.
    pub open spec fn empty() -> StateView {
        StateView { polls: Map::empty(), ballots: Map::empty(), config: None }
    }

    /// The store with `poll` under `id`, in place of what was there.
    pub open spec fn with_poll(self, id: Seq<char>, poll: PollView) -> StateView {
        StateView { polls: self.polls.insert(id, poll), ..self }
    }

    /// The store with the ballot of `voter` in the poll `id` set to `label`.
    pub open spec fn with_ballot(self, voter: Seq<char>, id: Seq<char>, label: Seq<char>) -> StateView {
        StateView { ballots: self.ballots.insert((voter, id), label), ..self }
    }

    /// The store with the administrator set.
    pub open spec fn with_config(self, admin: Seq<char>) -> StateView {
        StateView { config: Some(admin), ..self }
    }

    /// The label that `voter` has chosen in the poll `id`, if any.
    pub open spec fn ballot_of(self, voter: Seq<char>, id: Seq<char>) -> Option<Seq<char>> {
        if self.ballots.contains_key((voter, id)) {
            Some(self.ballots[(voter, id)])
        } else {
            None
        }
    }

    /// What a vote of `voter` for `label` in the poll `id` makes of the store,
    /// or why it is refused. The poll must exist and have the label; then the
    /// voter's earlier choice in this poll, if any, is taken back, the new one
    /// is counted, and the ballot names the new one.
    pub open spec fn vote_outcome(self, voter: Seq<char>, id: Seq<char>, label: Seq<char>) -> Result<
        StateView,
        ContractError,
    > {
        if !self.polls.contains_key(id) {
            Err(ContractError::PollNotFound {  })
        } else if !has_label(self.polls[id].options, label) {
            Err(ContractError::VoteOptionNotFound {  })
        } else {
            Ok(
                self.with_poll(
                    id,
                    self.polls[id].recast(self.ballot_of(voter, id), label),
                ).with_ballot(voter, id, label),
            )
        }
    }

    /// What a change of the tally of `label` in the poll `id` makes of the
    /// store, or why it is refused.
    pub open spec fn delta_outcome(self, id: Seq<char>, label: Seq<char>, delta: Delta) -> Result<
        StateView,
        ContractError,
    > {
        if !self.polls.contains_key(id) {
            Err(ContractError::PollNotFound {  })
        } else if !has_label(self.polls[id].options, label) {
            Err(ContractError::VoteOptionNotFound {  })
        } else {
            Ok(self.with_poll(id, self.polls[id].adjusted(label, delta)))
        }
    }

    /// Whether the tallies can take the vote: where it is not refused, the
    /// choice that it takes back was counted, and the new tally is one that a
    /// `u64` holds.
    pub open spec fn admits_vote(self, voter: Seq<char>, id: Seq<char>, label: Seq<char>) -> bool {
        self.vote_outcome(voter, id, label) is Ok ==> self.polls[id].can_recast(
            self.ballot_of(voter, id),
            label,
        )
    }

    /// The ids of the polls in ascending order.
    pub open spec fn poll_ids(self) -> Seq<Seq<char>> {
        choose|ids: Seq<Seq<char>>| lists(ids, self.polls.dom())
    }

    /// The polls in ascending order of their ids.
    pub open spec fn polls_in_order(self) -> Seq<PollView> {
        self.poll_ids().map_values(|id: Seq<char>| self.polls[id])
    }
}

/// What a list of polls holds, as mathematics.
pub open spec fn polls_view(polls: Seq<Poll>) -> Seq<PollView> {
    polls.map_values(|p: Poll| p@)
}

spec fn poll_entries(polls: Seq<(String, Poll)>) -> Seq<(Seq<char>, PollView)> {
    polls.map_values(|e: (String, Poll)| (e.0@, e.1@))
}

spec fn poll_keys(polls: Seq<(String, Poll)>) -> Seq<Seq<char>> {
    polls.map_values(|e: (String, Poll)| e.0@)
}

spec fn ballot_entries(ballots: Seq<((String, String), Ballot)>) -> Seq<(BallotKey, Seq<char>)> {
    ballots.map_values(|e: ((String, String), Ballot)| ((e.0.0@, e.0.1@), e.1@))
}

proof fn lemma_ascending_unique(polls: Seq<(String, Poll)>)
    requires
        is_ascending(poll_keys(polls)),
    ensures
        keys_unique(poll_entries(polls)),
{
    let ids = poll_keys(polls);
    let entries = poll_entries(polls);
    assert forall|i: int, j: int| 0 <= i < j < entries.len() implies (#[trigger] entries[i]).0 != (
    #[trigger] entries[j]).0 by {
        assert(id_lt(ids[i], ids[j]));
        lemma_id_lt_strict_total(ids[i], ids[i], ids[i]);
    }
}

/// The store: an ordered map of polls, a map of ballots, and the configuration.
pub struct State {
    polls: Vec<(String, Poll)>,
    ballots: Vec<((String, String), Ballot)>,
    config: Option<Config>,
}

impl View for State {
    type V = StateView;

    closed spec fn view(&self) -> StateView {
        StateView {
            polls: as_map(poll_entries(self.polls@)),
            ballots: as_map(ballot_entries(self.ballots@)),
            config: match self.config {
                Some(c) => Some(c@),
                None => None,
            },
        }
    }
}

impl State {
    #[verifier::type_invariant]
    spec fn well_formed(&self) -> bool {
        &&& is_ascending(poll_keys(self.polls@))
        &&& keys_unique(ballot_entries(self.ballots@))
    }

    /// The store that holds nothing.
    pub fn new() -> (s: State)
        ensures
            s@ == StateView::empty(),
            s@.consistent(),
    {
        let s = State { polls: Vec::new(), ballots: Vec::new(), config: None };
        proof {
            assert(s@.polls =~= Map::empty());
            assert(s@.ballots =~= Map::empty());
        }
        s
    }

    fn find_poll(&self, id: &str) -> (r: Option<usize>)
        ensures
            match r {
                Some(i) => i < self.polls@.len() && self.polls@[i as int].0@ == id@
                    && self@.polls.contains_key(id@) && self@.polls[id@] == self.polls@[i as int].1@,
                None => !self@.polls.contains_key(id@),
            },
    {
        proof {
            use_type_invariant(self);
            lemma_ascending_unique(self.polls@);
        }
        let mut i: usize = 0;
        while i < self.polls.len()
            invariant
                i <= self.polls.len(),
                keys_unique(poll_entries(self.polls@)),
                forall|j: int| 0 <= j < i ==> (#[trigger] poll_entries(self.polls@)[j]).0 != id@,
            decreases self.polls.len() - i,
        {
            if same_text(self.polls[i].0.as_str(), id) {
                proof {
                    lemma_as_map_at(poll_entries(self.polls@), i as int);
                }
                return Some(i);
            }
            i += 1;
        }
        None
    }

    /// Reads the poll stored under `id`.
    pub fn load_poll(&self, id: &str) -> (r: Option<Poll>)
        ensures
            match r {
                Some(p) => self@.polls.contains_key(id@) && p@ == self@.polls[id@],
                None => !self@.polls.contains_key(id@),
            },
    {
        match self.find_poll(id) {
            Some(i) => Some(self.polls[i].1.clone()),
            None => None,
        }
    }

    /// Stores `poll` under `id`, in place of a poll that was there.
    pub fn save_poll(&mut self, id: String, poll: Poll)
        ensures
            final(self)@ == old(self)@.with_poll(id@, poll@),
    {
        proof {
            use_type_invariant(&*self);
            lemma_ascending_unique(self.polls@);
        }
        let ghost before = self.polls@;
        let mut i: usize = 0;
        let mut found = false;
        while i < self.polls.len()
            invariant_except_break
                !found,
            invariant
                i <= self.polls.len(),
                self.polls@ == before,
                forall|j: int| 0 <= j < i ==> id_lt(#[trigger] poll_keys(before)[j], id@),
            ensures
                i <= self.polls.len(),
                self.polls@ == before,
                forall|j: int| 0 <= j < i ==> id_lt(#[trigger] poll_keys(before)[j], id@),
                found ==> i < before.len() && before[i as int].0@ == id@,
                !found && i < before.len() ==> id_lt(id@, poll_keys(before)[i as int]),
            decreases self.polls.len() - i,
        {
            match compare_ids(self.polls[i].0.as_str(), id.as_str()) {
                Rank::Before => {
                    i += 1;
                },
                Rank::Same => {
                    found = true;
                    break ;
                },
                Rank::After => {
                    break ;
                },
            }
        }
        if found {
            let mut polls: Vec<(String, Poll)> = Vec::new();
            core::mem::swap(&mut self.polls, &mut polls);
            polls[i].1 = poll;
            proof {
                let entries = poll_entries(before);
                lemma_as_map_update(entries, i as int, poll@);
                assert(poll_entries(polls@) =~= entries.update(i as int, (entries[i as int].0, poll@)));
                assert(poll_keys(polls@) =~= poll_keys(before));
            }
            core::mem::swap(&mut self.polls, &mut polls);
        } else {
            let mut polls: Vec<(String, Poll)> = Vec::new();
            core::mem::swap(&mut self.polls, &mut polls);
            polls.insert(i, (id, poll));
            proof {
                let ids = poll_keys(before);
                let after = poll_keys(polls@);
                assert(after =~= ids.insert(i as int, id@));
                assert forall|a: int, b: int| 0 <= a < b < after.len() implies id_lt(
                    #[trigger] after[a],
                    #[trigger] after[b],
                ) by {
                    let a0 = if a < i { a } else { a - 1 };
                    let b0 = if b < i { b } else { b - 1 };
                    if a == i {
                        assert(after[b] == ids[b0]);
                        if b0 > i {
                            assert(id_lt(ids[i as int], ids[b0]));
                            lemma_id_lt_strict_total(id@, ids[i as int], ids[b0]);
                        }
                    } else if b == i {
                        assert(after[a] == ids[a0]);
                    } else {
                        assert(after[a] == ids[a0]);
                        assert(after[b] == ids[b0]);
                        assert(id_lt(ids[a0], ids[b0]));
                    }
                }
            }
            core::mem::swap(&mut self.polls, &mut polls);
            proof {
                let entries = poll_entries(before);
                let ids = poll_keys(before);
                assert(!has_key(entries, id@)) by {
                    if has_key(entries, id@) {
                        let k = index_of_key(entries, id@);
                        assert(ids[k] == id@);
                        lemma_id_lt_strict_total(id@, id@, id@);
                        if k > i {
                            assert(id_lt(ids[i as int], ids[k]));
                            lemma_id_lt_strict_total(id@, ids[i as int], id@);
                        }
                    }
                }
                lemma_as_map_insert(entries, i as int, id@, poll@);
                assert(poll_entries(self.polls@) =~= entries.insert(i as int, (id@, poll@)));
            }
        }
    }

    /// Adds one vote to the tally of `label` in the poll `id`, or takes one
    /// from it, and returns the poll as it then is. A poll or a label that
    /// does not exist is refused, and the store stays as it was.
    pub fn apply_delta(&mut self, id: &str, label: &str, delta: Delta) -> (r: Result<
        Poll,
        ContractError,
    >)
        requires
            old(self)@.delta_outcome(id@, label@, delta) is Ok ==> old(self)@.polls[id@].can_adjust(
                label@,
                delta,
            ),
        ensures
            match old(self)@.delta_outcome(id@, label@, delta) {
                Ok(s) => final(self)@ == s && r is Ok && r->Ok_0@ == s.polls[id@],
                Err(e) => r == Err::<Poll, ContractError>(e) && final(self)@ == old(self)@,
            },
    {
        let mut poll = match self.load_poll(id) {
            Some(poll) => poll,
            None => {
                return Err(ContractError::PollNotFound {  });
            },
        };
        match poll.apply_delta(label, delta) {
            Ok(_) => {},
            Err(e) => {
                return Err(e);
            },
        }
        self.save_poll(String::from_str(id), poll.clone());
        Ok(poll)
    }

    /// The number of ballots in the store.
    pub fn ballot_count(&self) -> (r: usize)
        ensures
            self@.ballots.dom().finite(),
            r == self@.ballots.dom().len(),
    {
        proof {
            use_type_invariant(self);
            lemma_as_map_finite(ballot_entries(self.ballots@));
        }
        self.ballots.len()
    }

    /// The polls in ascending order of their ids.
    pub fn all_polls(&self) -> (r: Vec<Poll>)
        ensures
            polls_view(r@) == self@.polls_in_order(),
    {
        proof {
            use_type_invariant(self);
            lemma_ascending_unique(self.polls@);
        }
        let mut out: Vec<Poll> = Vec::new();
        let mut i: usize = 0;
        while i < self.polls.len()
            invariant
                i <= self.polls.len(),
                out@.len() == i,
                forall|j: int| 0 <= j < i ==> (#[trigger] out@[j])@ == self.polls@[j].1@,
            decreases self.polls.len() - i,
        {
            out.push(self.polls[i].1.clone());
            i += 1;
        }
        proof {
            let entries = poll_entries(self.polls@);
            let ids = poll_keys(self.polls@);
            assert forall|id: Seq<char>| self@.polls.dom().contains(id) <==> ids.contains(id) by {
                if has_key(entries, id) {
                    let k = index_of_key(entries, id);
                    assert(ids[k] == id);
                }
                if ids.contains(id) {
                    let k = choose|k: int| 0 <= k < ids.len() && ids[k] == id;
                    assert(entries[k].0 == id);
                }
            }
            assert(lists(ids, self@.polls.dom()));
            lemma_listing_unique(ids, self@.poll_ids(), self@.polls.dom());
            assert forall|j: int| 0 <= j < ids.len() implies self@.polls[#[trigger] ids[j]]
                == self.polls@[j].1@ by {
                lemma_as_map_at(entries, j);
            }
            assert(polls_view(out@) =~= self@.polls_in_order());
        }
        out
    }

    fn find_ballot(&self, voter: &str, id: &str) -> (r: Option<usize>)
        ensures
            match r {
                Some(i) => i < self.ballots@.len() && self.ballots@[i as int].0.0@ == voter@
                    && self.ballots@[i as int].0.1@ == id@ && self@.ballots.contains_key(
                    (voter@, id@),
                ) && self@.ballots[(voter@, id@)] == self.ballots@[i as int].1@,
                None => !self@.ballots.contains_key((voter@, id@)),
            },
    {
        proof {
            use_type_invariant(self);
        }
        let mut i: usize = 0;
        while i < self.ballots.len()
            invariant
                i <= self.ballots.len(),
                keys_unique(ballot_entries(self.ballots@)),
                forall|j: int|
                    0 <= j < i ==> (#[trigger] ballot_entries(self.ballots@)[j]).0 != (voter@, id@),
            decreases self.ballots.len() - i,
        {
            if same_text(self.ballots[i].0.0.as_str(), voter) && same_text(
                self.ballots[i].0.1.as_str(),
                id,
            ) {
                proof {
                    lemma_as_map_at(ballot_entries(self.ballots@), i as int);
                }
                return Some(i);
            }
            i += 1;
        }
        None
    }

    /// Reads the ballot of `voter` in the poll `id`.
    pub fn load_ballot(&self, voter: &str, id: &str) -> (r: Option<Ballot>)
        ensures
            match r {
                Some(b) => self@.ballot_of(voter@, id@) == Some(b@),
                None => self@.ballot_of(voter@, id@) is None,
            },
    {
        match self.find_ballot(voter, id) {
            Some(i) => Some(self.ballots[i].1.clone()),
            None => None,
        }
    }

    /// Stores the ballot of `voter` in the poll `id`, in place of the one that was there.
    pub fn save_ballot(&mut self, voter: String, id: String, ballot: Ballot)
        ensures
            final(self)@ == old(self)@.with_ballot(voter@, id@, ballot@),
    {
        proof {
            use_type_invariant(&*self);
        }
        let ghost entries = ballot_entries(self.ballots@);
        match self.find_ballot(voter.as_str(), id.as_str()) {
            Some(i) => {
                let mut ballots: Vec<((String, String), Ballot)> = Vec::new();
                core::mem::swap(&mut self.ballots, &mut ballots);
                ballots[i].1 = ballot;
                proof {
                    lemma_as_map_update(entries, i as int, ballot@);
                    assert(ballot_entries(ballots@) =~= entries.update(
                        i as int,
                        (entries[i as int].0, ballot@),
                    ));
                }
                core::mem::swap(&mut self.ballots, &mut ballots);
            },
            None => {
                let mut ballots: Vec<((String, String), Ballot)> = Vec::new();
                core::mem::swap(&mut self.ballots, &mut ballots);
                ballots.push(((voter, id), ballot));
                proof {
                    lemma_as_map_insert(entries, entries.len() as int, (voter@, id@), ballot@);
                    assert(ballot_entries(ballots@) =~= entries.insert(
                        entries.len() as int,
                        ((voter@, id@), ballot@),
                    ));
                }
                core::mem::swap(&mut self.ballots, &mut ballots);
            },
        }
    }

    /// Reads the configuration.
    pub fn load_config(&self) -> (r: Option<Config>)
        ensures
            match r {
                Some(c) => self@.config == Some(c@),
                None => self@.config is None,
            },
    {
        match &self.config {
            Some(c) => Some(c.clone()),
            None => None,
        }
    }

    /// Stores the configuration, in place of the one that was there.
    pub fn save_config(&mut self, config: Config)
        ensures
            final(self)@ == old(self)@.with_config(config@),
    {
        proof {
            use_type_invariant(&*self);
        }
        self.config = Some(config);
    }
}

} // verus!
