//! Going through records one at a time, and what comes of it.
//!
//! Writing stops at the first record that cannot be written: an order whose
//! records are not all there is lost. Taking away attempts every one, so one
//! failure does not leave the rest behind.

use vstd::prelude::*;

use crate::tls::config::texts;
use crate::tls::dns::settle::wanted;
use crate::tls::error::{outcome_seen, Failure, FailureView};
use crate::tls::shelf::Shelf;

verus! {

/// Writing records, one name after the other.
pub struct Publishing<'a> {
    records: &'a Shelf<Vec<String>>,
    at: usize,
    failed: Option<Failure>,
}

/// Writing records, apart from how it is held.
pub struct PublishingView {
    /// The names and the values each is to carry, in order.
    pub records: Seq<(Seq<char>, Seq<Seq<char>>)>,
    /// How many of them are written.
    pub at: int,
    /// What went wrong, once something did.
    pub failed: Option<FailureView>,
}

impl PublishingView {
    /// Whether the place is within the records.
    pub open spec fn wf(self) -> bool {
        0 <= self.at <= self.records.len()
    }

    /// Before anything is written.
    pub open spec fn begun(records: Seq<(Seq<char>, Seq<Seq<char>>)>) -> Self {
        PublishingView { records, at: 0, failed: None }
    }

    /// The name to write next and its values: none once everything is
    /// written, or once something went wrong.
    pub open spec fn next(self) -> Option<(Seq<char>, Seq<Seq<char>>)> {
        if self.failed is None && self.at < self.records.len() {
            Some(self.records[self.at])
        } else {
            None
        }
    }

    /// What comes of the next write.
    pub open spec fn after(self, outcome: Result<(), FailureView>) -> Self {
        match outcome {
            Ok(_) => PublishingView { at: self.at + 1, ..self },
            Err(failure) => PublishingView { failed: Some(failure), ..self },
        }
    }

    /// What writing comes to.
    pub open spec fn outcome(self) -> Result<(), FailureView> {
        match self.failed {
            Some(failure) => Err(failure),
            None => Ok(()),
        }
    }
}

impl<'a> View for Publishing<'a> {
    type V = PublishingView;

    closed spec fn view(&self) -> PublishingView {
        PublishingView {
            records: wanted(*self.records),
            at: self.at as int,
            failed: match self.failed {
                Some(failure) => Some(failure@),
                None => None,
            },
        }
    }
}

impl<'a> Publishing<'a> {
    /// Nothing is written yet.
    pub fn new(records: &'a Shelf<Vec<String>>) -> (r: Self)
        ensures
            r@ == PublishingView::begun(wanted(*records)),
            r@.wf(),
    {
        Publishing { records, at: 0, failed: None }
    }

    /// The name to write next, and the values it is to carry.
    pub fn next(&self) -> (r: Option<(&'a str, &'a [String])>)
        requires
            self@.wf(),
        ensures
            match r {
                Some((name, values)) => self@.next() == Some((name@, texts(values@))),
                None => self@.next() is None,
            },
    {
        if self.failed.is_some() || self.at == self.records.len() {
            return None;
        }
        let pair = self.records.pair(self.at);
        assert(self@.records[self@.at] == (pair.0@, texts(pair.1@)));
        Some((pair.0.as_str(), pair.1.as_slice()))
    }

    /// Takes what came of the next write.
    pub fn heard(&mut self, outcome: Result<(), Failure>)
        requires
            old(self)@.wf(),
            old(self)@.next() is Some,
        ensures
            final(self)@ == old(self)@.after(outcome_seen(outcome)),
            final(self)@.wf(),
    {
        match outcome {
            Ok(_) => {
                if self.at < self.records.len() {
                    self.at = self.at + 1;
                }
            },
            Err(failure) => {
                self.failed = Some(failure);
            },
        }
    }

    /// What writing comes to.
    pub fn outcome(self) -> (r: Result<(), Failure>)
        requires
            self@.wf(),
            self@.next() is None,
        ensures
            outcome_seen(r) == self@.outcome(),
    {
        match self.failed {
            Some(failure) => Err(failure),
            None => Ok(()),
        }
    }
}

/// Taking records away, one name after the other.
pub struct Withdrawal<'a> {
    names: &'a [String],
    at: usize,
    first: Option<Failure>,
}

/// Taking records away, apart from how it is held.
pub struct WithdrawalView {
    /// The names, in order.
    pub names: Seq<Seq<char>>,
    /// How many of them were attempted.
    pub at: int,
    /// The first thing that went wrong.
    pub first: Option<FailureView>,
}

impl WithdrawalView {
    /// Whether the place is within the names.
    pub open spec fn wf(self) -> bool {
        0 <= self.at <= self.names.len()
    }

    /// Before anything is taken away.
    pub open spec fn begun(names: Seq<Seq<char>>) -> Self {
        WithdrawalView { names, at: 0, first: None }
    }

    /// The name to take away next: none once every one was attempted.
    pub open spec fn next(self) -> Option<Seq<char>> {
        if self.at < self.names.len() {
            Some(self.names[self.at])
        } else {
            None
        }
    }

    /// What comes of the next attempt.
    pub open spec fn after(self, outcome: Result<(), FailureView>) -> Self {
        WithdrawalView {
            at: self.at + 1,
            first: match (self.first, outcome) {
                (Some(first), _) => Some(first),
                (None, Err(failure)) => Some(failure),
                (None, Ok(_)) => None,
            },
            ..self
        }
    }

    /// What taking away comes to.
    pub open spec fn outcome(self) -> Result<(), FailureView> {
        match self.first {
            Some(failure) => Err(failure),
            None => Ok(()),
        }
    }
}

impl<'a> View for Withdrawal<'a> {
    type V = WithdrawalView;

    closed spec fn view(&self) -> WithdrawalView {
        WithdrawalView {
            names: texts(self.names@),
            at: self.at as int,
            first: match self.first {
                Some(failure) => Some(failure@),
                None => None,
            },
        }
    }
}

impl<'a> Withdrawal<'a> {
    /// Nothing is taken away yet.
    pub fn new(names: &'a [String]) -> (r: Self)
        ensures
            r@ == WithdrawalView::begun(texts(names@)),
            r@.wf(),
    {
        Withdrawal { names, at: 0, first: None }
    }

    /// The name to take away next.
    pub fn next(&self) -> (r: Option<&'a str>)
        requires
            self@.wf(),
        ensures
            match r {
                Some(name) => self@.next() == Some(name@),
                None => self@.next() is None,
            },
    {
        assert(texts(self.names@).len() == self.names@.len());
        if self.at == self.names.len() {
            return None;
        }
        assert(texts(self.names@)[self.at as int] == self.names@[self.at as int]@);
        Some(self.names[self.at].as_str())
    }

    /// Takes what came of the next attempt.
    pub fn heard(&mut self, outcome: Result<(), Failure>)
        requires
            old(self)@.wf(),
            old(self)@.next() is Some,
        ensures
            final(self)@ == old(self)@.after(outcome_seen(outcome)),
            final(self)@.wf(),
    {
        assert(texts(self.names@).len() == self.names@.len());
        if self.at < self.names.len() {
            self.at = self.at + 1;
        }
        if let Err(failure) = outcome {
            if self.first.is_none() {
                self.first = Some(failure);
            }
        }
    }

    /// What taking away comes to, once every name was attempted.
    pub fn outcome(self) -> (r: Result<(), Failure>)
        requires
            self@.wf(),
            self@.next() is None,
        ensures
            outcome_seen(r) == self@.outcome(),
    {
        match self.first {
            Some(failure) => Err(failure),
            None => Ok(()),
        }
    }
}

/// Writing that took these outcomes, one after the other.
pub open spec fn published_so_far(
    records: Seq<(Seq<char>, Seq<Seq<char>>)>,
    outcomes: Seq<Result<(), FailureView>>,
) -> PublishingView
    decreases outcomes.len(),
{
    if outcomes.len() == 0 {
        PublishingView::begun(records)
    } else {
        published_so_far(records, outcomes.drop_last()).after(outcomes.last())
    }
}

/// Taking away that took these outcomes, one after the other.
pub open spec fn withdrawn_so_far(
    names: Seq<Seq<char>>,
    outcomes: Seq<Result<(), FailureView>>,
) -> WithdrawalView
    decreases outcomes.len(),
{
    if outcomes.len() == 0 {
        WithdrawalView::begun(names)
    } else {
        withdrawn_so_far(names, outcomes.drop_last()).after(outcomes.last())
    }
}

/// As long as every write succeeds the records are written in order, each
/// once, and when all of them are, writing succeeded.
pub proof fn lemma_records_are_written_in_order(
    records: Seq<(Seq<char>, Seq<Seq<char>>)>,
    outcomes: Seq<Result<(), FailureView>>,
)
    requires
        outcomes.len() <= records.len(),
        forall|i: int| 0 <= i < outcomes.len() ==> (#[trigger] outcomes[i]) is Ok,
    ensures
        published_so_far(records, outcomes).outcome() is Ok,
        published_so_far(records, outcomes).next() == (if outcomes.len() < records.len() {
            Some(records[outcomes.len() as int])
        } else {
            None
        }),
{
    lemma_successes_count(records, outcomes);
}

proof fn lemma_successes_count(
    records: Seq<(Seq<char>, Seq<Seq<char>>)>,
    outcomes: Seq<Result<(), FailureView>>,
)
    requires
        forall|i: int| 0 <= i < outcomes.len() ==> (#[trigger] outcomes[i]) is Ok,
    ensures
        published_so_far(records, outcomes) == (PublishingView {
            at: outcomes.len() as int,
            ..PublishingView::begun(records)
        }),
    decreases outcomes.len(),
{
    if outcomes.len() > 0 {
        assert forall|i: int| 0 <= i < outcomes.len() - 1 implies (
        #[trigger] outcomes.drop_last()[i]) is Ok by {
            assert(outcomes[i] is Ok);
        }
        lemma_successes_count(records, outcomes.drop_last());
        assert(outcomes[outcomes.len() - 1] is Ok);
    }
}

/// The first write that fails is the last, and its failure is what comes
/// back.
pub proof fn lemma_writing_stops_at_the_first_failure(
    records: Seq<(Seq<char>, Seq<Seq<char>>)>,
    outcomes: Seq<Result<(), FailureView>>,
    failure: FailureView,
)
    requires
        outcomes.len() < records.len(),
        forall|i: int| 0 <= i < outcomes.len() ==> (#[trigger] outcomes[i]) is Ok,
    ensures
        published_so_far(records, outcomes.push(Err(failure))).next() is None,
        published_so_far(records, outcomes.push(Err(failure))).outcome() == Err::<(), FailureView>(
            failure,
        ),
{
    lemma_successes_count(records, outcomes);
    assert(outcomes.push(Err(failure)).drop_last() =~= outcomes);
}

/// Every name is attempted, in order, whatever came of the ones before it.
pub proof fn lemma_every_name_is_attempted(
    names: Seq<Seq<char>>,
    outcomes: Seq<Result<(), FailureView>>,
)
    requires
        outcomes.len() <= names.len(),
    ensures
        withdrawn_so_far(names, outcomes).next() == (if outcomes.len() < names.len() {
            Some(names[outcomes.len() as int])
        } else {
            None
        }),
{
    lemma_attempts_count(names, outcomes);
}

proof fn lemma_attempts_count(names: Seq<Seq<char>>, outcomes: Seq<Result<(), FailureView>>)
    ensures
        withdrawn_so_far(names, outcomes).names == names,
        withdrawn_so_far(names, outcomes).at == outcomes.len(),
    decreases outcomes.len(),
{
    if outcomes.len() > 0 {
        lemma_attempts_count(names, outcomes.drop_last());
    }
}

/// Taking away succeeds when every attempt did, and otherwise comes to what
/// the first one that failed came to.
pub proof fn lemma_the_first_failure_comes_back(
    names: Seq<Seq<char>>,
    outcomes: Seq<Result<(), FailureView>>,
)
    ensures
        match withdrawn_so_far(names, outcomes).outcome() {
            Ok(_) => forall|i: int| 0 <= i < outcomes.len() ==> (#[trigger] outcomes[i]) is Ok,
            Err(failure) => exists|i: int|
                0 <= i < outcomes.len() && #[trigger] outcomes[i] == Err::<(), FailureView>(failure)
                    && forall|j: int| 0 <= j < i ==> (#[trigger] outcomes[j]) is Ok,
        },
    decreases outcomes.len(),
{
    if outcomes.len() > 0 {
        let front = outcomes.drop_last();
        let last = outcomes.len() - 1;
        lemma_the_first_failure_comes_back(names, front);
        assert(outcomes[last] == outcomes.last());
        match withdrawn_so_far(names, front).outcome() {
            Ok(_) => {
                assert forall|j: int| 0 <= j < last implies (#[trigger] outcomes[j]) is Ok by {
                    assert(front[j] is Ok);
                }
            },
            Err(failure) => {
                let i = choose|i: int|
                    0 <= i < front.len() && #[trigger] front[i] == Err::<(), FailureView>(failure)
                        && forall|j: int| 0 <= j < i ==> (#[trigger] front[j]) is Ok;
                assert(outcomes[i] == Err::<(), FailureView>(failure));
                assert forall|j: int| 0 <= j < i implies (#[trigger] outcomes[j]) is Ok by {
                    assert(front[j] is Ok);
                }
            },
        }
    }
}

} // verus!
