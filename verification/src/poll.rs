//! A poll: its options in the order in which they were given, each with its tally.

use crate::error::ContractError;
use crate::text::same_text;
use vstd::prelude::*;

verus! {

/// The most options that a poll may have.
pub const MAX_OPTIONS: usize = 10;

/// The options of a poll as mathematics: label and tally, in the poll's order.
pub type Options = Seq<(Seq<char>, nat)>;

/// Some option carries the label.
pub open spec fn has_label(options: Options, label: Seq<char>) -> bool {
    exists|i: int| 0 <= i < options.len() && (#[trigger] options[i]).0 == label
}

/// `i` is the first index at which the label stands. A vote for a label
/// counts there, also where the label occurs again further on.
pub open spec fn is_first_at(options: Options, label: Seq<char>, i: int) -> bool {
    &&& 0 <= i < options.len()
    &&& options[i].0 == label
    &&& forall|j: int| 0 <= j < i ==> (#[trigger] options[j]).0 != label
}

/// The first index at which the label stands, where some option carries it.
pub open spec fn first_index(options: Options, label: Seq<char>) -> int {
    choose|i: int| is_first_at(options, label, i)
}

/// The sum of all tallies.
pub open spec fn total(options: Options) -> nat
    decreases options.len(),
{
    if options.len() == 0 {
        0
    } else {
        total(options.drop_last()) + options.last().1
    }
}

/// The options with one vote more at index `i`.
pub open spec fn raised(options: Options, i: int) -> Options {
    options.update(i, (options[i].0, options[i].1 + 1))
}

/// The options with one vote less at index `i`.
pub open spec fn lowered(options: Options, i: int) -> Options {
    options.update(i, (options[i].0, (options[i].1 - 1) as nat))
}

/// A label that some option carries has exactly one first index.
pub proof fn lemma_first_index(options: Options, label: Seq<char>)
    requires
        has_label(options, label),
    ensures
        is_first_at(options, label, first_index(options, label)),
        forall|i: int| is_first_at(options, label, i) ==> i == first_index(options, label),
{
    let k = choose|i: int| 0 <= i < options.len() && (#[trigger] options[i]).0 == label;
    lemma_first_below(options, label, k);
    let f = first_index(options, label);
    assert forall|i: int| is_first_at(options, label, i) implies i == f by {
        if i < f {
            assert(options[i].0 != label);
        } else if f < i {
            assert(options[f].0 != label);
        }
    }
}

proof fn lemma_first_below(options: Options, label: Seq<char>, k: int)
    requires
        0 <= k < options.len(),
        options[k].0 == label,
    ensures
        exists|i: int| is_first_at(options, label, i),
    decreases k,
{
    if exists|j: int| 0 <= j < k && (#[trigger] options[j]).0 == label {
        let j = choose|j: int| 0 <= j < k && (#[trigger] options[j]).0 == label;
        lemma_first_below(options, label, j);
    } else {
        assert(is_first_at(options, label, k));
    }
}

/// Tallies that are all 0 add up to 0.
pub proof fn lemma_total_of_zeros(options: Options)
    requires
        forall|i: int| 0 <= i < options.len() ==> (#[trigger] options[i]).1 == 0,
    ensures
        total(options) == 0,
    decreases options.len(),
{
    if options.len() > 0 {
        let rest = options.drop_last();
        assert forall|i: int| 0 <= i < rest.len() implies (#[trigger] rest[i]).1 == 0 by {
            assert(rest[i] == options[i]);
        }
        lemma_total_of_zeros(rest);
    }
}

/// A poll as it is created has the given labels in their order, and no votes.
pub proof fn lemma_fresh_poll_has_no_votes(
    creator: Seq<char>,
    question: Seq<char>,
    labels: Seq<Seq<char>>,
)
    ensures
        PollView::fresh(creator, question, labels).options.len() == labels.len(),
        forall|i: int|
            0 <= i < labels.len() ==> #[trigger] PollView::fresh(
                creator,
                question,
                labels,
            ).options[i] == (labels[i], 0nat),
        total(PollView::fresh(creator, question, labels).options) == 0,
{
    lemma_total_of_zeros(PollView::fresh(creator, question, labels).options);
}

/// A change of one tally leaves every label where it is.
pub proof fn lemma_update_keeps_labels(options: Options, i: int, tally: nat, label: Seq<char>)
    requires
        0 <= i < options.len(),
    ensures
        has_label(options.update(i, (options[i].0, tally)), label) == has_label(options, label),
        has_label(options, label) ==> first_index(options.update(i, (options[i].0, tally)), label)
            == first_index(options, label),
{
    let changed = options.update(i, (options[i].0, tally));
    assert forall|k: int| is_first_at(changed, label, k) == is_first_at(options, label, k) by {
        if is_first_at(options, label, k) {
            assert forall|j: int| 0 <= j < k implies (#[trigger] changed[j]).0 != label by {
                assert(options[j].0 != label);
            }
        }
        if is_first_at(changed, label, k) {
            assert forall|j: int| 0 <= j < k implies (#[trigger] options[j]).0 != label by {
                assert(changed[j].0 != label);
            }
        }
    }
    if has_label(options, label) {
        let k = choose|k: int| 0 <= k < options.len() && (#[trigger] options[k]).0 == label;
        assert(changed[k].0 == label);
        lemma_first_index(options, label);
        lemma_first_index(changed, label);
    }
    if has_label(changed, label) {
        let k = choose|k: int| 0 <= k < changed.len() && (#[trigger] changed[k]).0 == label;
        assert(options[k].0 == label);
    }
}

/// A change of one tally changes the sum by as much.
pub proof fn lemma_total_update(options: Options, i: int, tally: nat)
    requires
        0 <= i < options.len(),
    ensures
        total(options.update(i, (options[i].0, tally))) == total(options) - options[i].1 + tally,
    decreases options.len(),
{
    let changed = options.update(i, (options[i].0, tally));
    if i == options.len() - 1 {
        assert(changed.drop_last() =~= options.drop_last());
    } else {
        lemma_total_update(options.drop_last(), i, tally);
        assert(changed.drop_last() =~= options.drop_last().update(i, (options[i].0, tally)));
    }
}

/// No tally is more than the sum.
pub proof fn lemma_total_bounds(options: Options, i: int)
    requires
        0 <= i < options.len(),
    ensures
        options[i].1 <= total(options),
    decreases options.len(),
{
    if i < options.len() - 1 {
        lemma_total_bounds(options.drop_last(), i);
    }
}

/// A poll as mathematics.
pub struct PollView {
    pub creator: Seq<char>,
    pub question: Seq<char>,
    pub options: Options,
}

impl PollView {
    /// The poll as it is created: the labels in the given order, every tally 0.
    pub open spec fn fresh(creator: Seq<char>, question: Seq<char>, labels: Seq<Seq<char>>) -> PollView {
        PollView { creator, question, options: labels.map_values(|l: Seq<char>| (l, 0nat)) }
    }

    /// The tally that votes for the label are counted in.
    pub open spec fn tally_of(self, label: Seq<char>) -> nat {
        self.options[first_index(self.options, label)].1
    }

    /// The poll after one more vote for the label.
    pub open spec fn committed(self, label: Seq<char>) -> PollView {
        PollView { options: raised(self.options, first_index(self.options, label)), ..self }
    }

    /// The poll after one vote for the label was taken back.
    pub open spec fn retracted(self, label: Seq<char>) -> PollView {
        PollView { options: lowered(self.options, first_index(self.options, label)), ..self }
    }

    /// The poll after a voter, whose ballot so far was `before`, has chosen `label`.
    pub open spec fn recast(self, before: Option<Seq<char>>, label: Seq<char>) -> PollView {
        match before {
            Some(b) => self.retracted(b).committed(label),
            None => self.committed(label),
        }
    }

    /// Whether the tallies can take the change that `recast` makes: the vote
    /// that is taken back was counted, and the new tally is one that a `u64` holds.
    pub open spec fn can_recast(self, before: Option<Seq<char>>, label: Seq<char>) -> bool {
        match before {
            Some(b) => has_label(self.options, b) && self.tally_of(b) >= 1
                && self.retracted(b).tally_of(label) < u64::MAX,
            None => self.tally_of(label) < u64::MAX,
        }
    }
}

/// A change of one tally: a vote is cast, or one is taken back.
#[derive(Clone, Copy, Debug, PartialEq, Eq, Structural)]
pub enum Delta {
    Commit,
    Retract,
}

impl PollView {
    /// The poll after the change `delta` for the label.
    pub open spec fn adjusted(self, label: Seq<char>, delta: Delta) -> PollView {
        match delta {
            Delta::Commit => self.committed(label),
            Delta::Retract => self.retracted(label),
        }
    }

    /// Whether the tally of the label can take the change `delta`: a vote that
    /// is taken back was counted, and a tally stays one that a `u64` holds.
    pub open spec fn can_adjust(self, label: Seq<char>, delta: Delta) -> bool {
        match delta {
            Delta::Commit => self.tally_of(label) < u64::MAX,
            Delta::Retract => self.tally_of(label) >= 1,
        }
    }
}

/// A poll.
#[derive(Debug, PartialEq)]
pub struct Poll {
    pub creator: String,
    pub question: String,
    pub options: Vec<(String, u64)>,
}

/// What a list of options holds, as mathematics.
pub open spec fn options_view(options: Seq<(String, u64)>) -> Options {
    options.map_values(|o: (String, u64)| (o.0@, o.1 as nat))
}

/// What a list of labels holds, as mathematics.
pub open spec fn labels_view(labels: Seq<String>) -> Seq<Seq<char>> {
    labels.map_values(|l: String| l@)
}

impl View for Poll {
    type V = PollView;

    open spec fn view(&self) -> PollView {
        PollView {
            creator: self.creator@,
            question: self.question@,
            options: options_view(self.options@),
        }
    }
}

impl Clone for Poll {
    fn clone(&self) -> (r: Poll)
        ensures
            r@ == self@,
    {
        let mut options: Vec<(String, u64)> = Vec::new();
        let mut i: usize = 0;
        while i < self.options.len()
            invariant
                i <= self.options.len(),
                options@.len() == i,
                forall|j: int|
                    0 <= j < i ==> (#[trigger] options@[j]).0@ == self.options@[j].0@
                        && options@[j].1 == self.options@[j].1,
            decreases self.options.len() - i,
        {
            options.push((self.options[i].0.clone(), self.options[i].1));
            i += 1;
        }
        proof {
            assert(options_view(options@) =~= options_view(self.options@));
        }
        Poll { creator: self.creator.clone(), question: self.question.clone(), options }
    }
}

impl Poll {
    /// Creates a poll with the given options, in their order, every tally 0.
    /// More than `MAX_OPTIONS` options are refused.
    pub fn new(creator: String, question: String, options: Vec<String>) -> (r: Result<
        Poll,
        ContractError,
    >)
        ensures
            options@.len() > MAX_OPTIONS ==> r == Err::<Poll, ContractError>(
                ContractError::TooManyOptions {  },
            ),
            options@.len() <= MAX_OPTIONS ==> r is Ok && r->Ok_0@ == PollView::fresh(
                creator@,
                question@,
                labels_view(options@),
            ),
    {
        if options.len() > MAX_OPTIONS {
            return Err(ContractError::TooManyOptions {  });
        }
        let mut opts: Vec<(String, u64)> = Vec::new();
        let mut i: usize = 0;
        while i < options.len()
            invariant
                i <= options.len(),
                opts@.len() == i,
                forall|j: int|
                    0 <= j < i ==> (#[trigger] opts@[j]).0@ == options@[j]@ && opts@[j].1 == 0,
            decreases options.len() - i,
        {
            opts.push((options[i].clone(), 0));
            i += 1;
        }
        proof {
            assert(options_view(opts@) =~= PollView::fresh(
                creator@,
                question@,
                labels_view(options@),
            ).options);
        }
        Ok(Poll { creator, question, options: opts })
    }

    /// Finds the option that votes for the label are counted in: the first
    /// that carries it.
    pub fn position(&self, label: &str) -> (r: Option<usize>)
        ensures
            match r {
                Some(i) => is_first_at(self@.options, label@, i as int),
                None => !has_label(self@.options, label@),
            },
    {
        let mut i: usize = 0;
        while i < self.options.len()
            invariant
                i <= self.options.len(),
                forall|j: int| 0 <= j < i ==> (#[trigger] self@.options[j]).0 != label@,
            decreases self.options.len() - i,
        {
            if same_text(self.options[i].0.as_str(), label) {
                return Some(i);
            }
            i += 1;
        }
        None
    }

    /// Adds one vote to the tally of the label, or takes one from it, and
    /// returns the new tally. A label that no option carries is refused, and
    /// the poll stays as it was.
    pub fn apply_delta(&mut self, label: &str, delta: Delta) -> (r: Result<u64, ContractError>)
        requires
            has_label(old(self)@.options, label@) ==> old(self)@.can_adjust(label@, delta),
        ensures
            !has_label(old(self)@.options, label@) ==> r == Err::<u64, ContractError>(
                ContractError::VoteOptionNotFound {  },
            ) && *final(self) == *old(self),
            has_label(old(self)@.options, label@) ==> final(self)@ == old(self)@.adjusted(
                label@,
                delta,
            ) && r is Ok && r->Ok_0 == final(self)@.tally_of(label@),
    {
        let i = match self.position(label) {
            Some(i) => i,
            None => {
                return Err(ContractError::VoteOptionNotFound {  });
            },
        };
        proof {
            lemma_first_index(self@.options, label@);
        }
        let tally: u64 = match delta {
            Delta::Commit => self.options[i].1 + 1,
            Delta::Retract => self.options[i].1 - 1,
        };
        self.options[i].1 = tally;
        proof {
            let before = old(self)@.options;
            let after = self@.options;
            assert(after =~= before.update(i as int, (before[i as int].0, tally as nat)));
            assert(is_first_at(after, label@, i as int)) by {
                assert forall|j: int| 0 <= j < i implies (#[trigger] after[j]).0 != label@ by {
                    assert(before[j].0 != label@);
                }
            }
            assert(has_label(after, label@));
            lemma_first_index(after, label@);
        }
        Ok(tally)
    }
}

} // verus!
