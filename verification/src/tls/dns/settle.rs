//! Waiting until the records that were written can be looked up.

use vstd::prelude::*;
use vstd::string::*;

use crate::text::{decimal_text, push_decimal, same};
use crate::time::{Duration, Pause};
use crate::tls::config::texts;
use crate::tls::error::{failed, outcome_seen, Failure, FailureView, Reason};
use crate::tls::ledger::{
    lemma_one_deed, lemma_stretches_join, looks_in, since, waits_in, Deed, Ledger,
};
use crate::tls::shelf::Shelf;

verus! {

/// How long to wait between two looks at a name server, in seconds.
pub const LOOK_INTERVAL: u64 = 2;

/// The same in nanoseconds.
pub const LOOK_NANOS: u128 = 2_000_000_000;

/// One look there was: at which name, and what was found.
pub struct Looked {
    pub name: Seq<char>,
    pub found: Result<Seq<Seq<char>>, FailureView>,
}

/// What was found, apart from how it is held.
pub open spec fn found_seen(found: Result<Vec<String>, Failure>) -> Result<
    Seq<Seq<char>>,
    FailureView,
> {
    match found {
        Ok(values) => Ok(texts(values@)),
        Err(failure) => Err(failure@),
    }
}

/// Looks up the TXT values at a name.
pub trait Lookup {
    /// Every look there was, in order. An implementation that keeps count of
    /// them says here how.
    open spec fn looks(&self) -> Seq<Looked> {
        seq![]
    }

    fn look(&mut self, name: &str) -> (r: Result<Vec<String>, Failure>)
        ensures
            final(self).looks() == old(self).looks().push(
                Looked { name: name@, found: found_seen(r) },
            ),
    ;
}

/// Whether every wanted value is among the ones that were found.
pub open spec fn all_there(wanted: Seq<Seq<char>>, found: Seq<Seq<char>>) -> bool {
    forall|i: int| 0 <= i < wanted.len() ==> found.contains(#[trigger] wanted[i])
}

/// Whether every wanted value is among the ones that were found.
pub fn holds_all(wanted: &Vec<String>, found: &Vec<String>) -> (r: bool)
    ensures
        r == all_there(texts(wanted@), texts(found@)),
{
    let ghost all = texts(found@);
    let mut at: usize = 0;
    while at < wanted.len()
        invariant
            at <= wanted.len(),
            all == texts(found@),
            forall|i: int| 0 <= i < at ==> all.contains(#[trigger] texts(wanted@)[i]),
        decreases wanted.len() - at,
    {
        let mut there: bool = false;
        let mut look: usize = 0;
        while look < found.len()
            invariant
                look <= found.len(),
                at < wanted.len(),
                all == texts(found@),
                there ==> all.contains(wanted@[at as int]@),
                !there ==> forall|i: int|
                    0 <= i < look ==> #[trigger] all[i] != wanted@[at as int]@,
            decreases found.len() - look,
        {
            if same(found[look].as_str(), wanted[at].as_str()) {
                assert(all[look as int] == wanted@[at as int]@);
                there = true;
            }
            look += 1;
        }
        if !there {
            assert(!all.contains(texts(wanted@)[at as int]));
            return false;
        }
        at += 1;
    }
    true
}

/// What is said about a record that never appeared.
///
/// The name, never the value: the value is the answer to the challenge, and
/// a log is not where that belongs.
pub open spec fn never_appeared(name: Seq<char>, allowed: Duration) -> FailureView {
    failed(
        Reason::Challenge,
        name + " was written but is still not answered with what it has to carry after "@
            + decimal_text((allowed.nanos / 1_000_000_000) as nat)
            + "s; raise this provider's propagation timeout or check that it serves this zone"@,
    )
}

/// Where a wait stands.
pub struct SettlingView {
    /// The names looked at and the values each has to carry, in order.
    pub records: Seq<(Seq<char>, Seq<Seq<char>>)>,
    pub allowed: Duration,
    pub waited: int,
    /// How many of the names carry what they have to, in this round.
    pub found: int,
}

/// What a look comes to.
pub enum VerdictView {
    /// The next name has to be looked at.
    Next,
    /// Every name carries what it has to.
    Settled,
    /// Nothing more is looked at before another interval is over.
    Wait,
    /// The time is up.
    Failed(FailureView),
}

impl SettlingView {
    /// The number of names found and the time waited stay within bounds.
    pub open spec fn wf(self) -> bool {
        &&& 0 <= self.found <= self.records.len()
        &&& self.allowed.wf()
        &&& 0 <= self.waited < self.allowed.nanos + LOOK_NANOS
    }

    /// What a look at the next name comes to.
    pub open spec fn verdict(self, held: Seq<Seq<char>>) -> VerdictView {
        if all_there(self.records[self.found].1, held) {
            if self.found + 1 == self.records.len() {
                VerdictView::Settled
            } else {
                VerdictView::Next
            }
        } else if self.waited >= self.allowed.nanos {
            VerdictView::Failed(never_appeared(self.records[self.found].0, self.allowed))
        } else {
            VerdictView::Wait
        }
    }

    /// Having looked at the next name.
    ///
    /// A round in which a value is missing is begun again from the first
    /// name, one interval later.
    pub open spec fn after(self, held: Seq<Seq<char>>) -> SettlingView {
        match self.verdict(held) {
            VerdictView::Next | VerdictView::Settled => SettlingView {
                found: self.found + 1,
                ..self
            },
            VerdictView::Wait => SettlingView {
                found: 0,
                waited: self.waited + LOOK_NANOS,
                ..self
            },
            VerdictView::Failed(_) => self,
        }
    }
}

/// What a look comes to.
pub enum Verdict {
    /// The next name has to be looked at.
    Next,
    /// Every name carries what it has to.
    Settled,
    /// Nothing more is looked at before another interval is over.
    Wait,
    /// The time is up.
    Failed(Failure),
}

impl View for Verdict {
    type V = VerdictView;

    open spec fn view(&self) -> VerdictView {
        match *self {
            Verdict::Next => VerdictView::Next,
            Verdict::Settled => VerdictView::Settled,
            Verdict::Wait => VerdictView::Wait,
            Verdict::Failed(failure) => VerdictView::Failed(failure@),
        }
    }
}

/// What has to be visible under which name.
pub open spec fn wanted(records: Shelf<Vec<String>>) -> Seq<(Seq<char>, Seq<Seq<char>>)> {
    Seq::new(
        records.held().len(),
        |i: int| (records.held()[i].0@, texts(records.held()[i].1@)),
    )
}

/// A wait for records to become visible.
pub struct Settling<'a> {
    records: &'a Shelf<Vec<String>>,
    allowed: Duration,
    waited: u128,
    found: usize,
}

impl<'a> View for Settling<'a> {
    type V = SettlingView;

    closed spec fn view(&self) -> SettlingView {
        SettlingView {
            records: wanted(*self.records),
            allowed: self.allowed,
            waited: self.waited as int,
            found: self.found as int,
        }
    }
}

impl<'a> Settling<'a> {
    /// A wait that has not looked yet.
    pub fn new(records: &'a Shelf<Vec<String>>, allowed: Duration) -> (r: Self)
        requires
            allowed.wf(),
        ensures
            r@ == (SettlingView { records: wanted(*records), allowed, waited: 0, found: 0 }),
            r@.wf(),
    {
        Settling { records, allowed, waited: 0, found: 0 }
    }

    /// The name to look at next, or nothing when every one was found.
    pub fn next(&self) -> (r: Option<&'a str>)
        requires
            self@.wf(),
        ensures
            match r {
                Some(name) => self@.found < self@.records.len() && name@
                    == self@.records[self@.found].0,
                None => self@.found == self@.records.len(),
            },
    {
        if self.found == self.records.len() {
            return None;
        }
        Some(self.records.pair(self.found).0.as_str())
    }

    /// Takes what was found at the next name.
    pub fn looked(&mut self, held: &Vec<String>) -> (r: Verdict)
        requires
            old(self)@.wf(),
            old(self)@.found < old(self)@.records.len(),
        ensures
            final(self)@ == old(self)@.after(texts(held@)),
            final(self)@.wf(),
            r@ == old(self)@.verdict(texts(held@)),
    {
        let pair = self.records.pair(self.found);
        assert(self@.records[self@.found] == (pair.0@, texts(pair.1@)));
        let count: usize = self.records.len();
        if holds_all(&pair.1, held) {
            self.found = self.found + 1;
            if self.found == count {
                return Verdict::Settled;
            }
            return Verdict::Next;
        }
        if self.waited >= self.allowed.nanos {
            let mut said = pair.0.clone();
            said.append(
                " was written but is still not answered with what it has to carry after ",
            );
            push_decimal(&mut said, self.allowed.nanos / 1_000_000_000);
            said.append(
                "s; raise this provider's propagation timeout or check that it serves this zone",
            );
            return Verdict::Failed(Failure::new(Reason::Challenge, said));
        }
        self.found = 0;
        self.waited = self.waited + LOOK_NANOS;
        Verdict::Wait
    }
}

/// Whether a wait in which this was done, in this order, and nothing else,
/// comes to this.
///
/// Each look is at the name that is due, and a look that found a value
/// missing is followed by one interval of waiting before anything is looked at
/// again. It ends when every name carries what it has to, when the time is up,
/// or with the first lookup that fails.
pub open spec fn settled(
    wait: SettlingView,
    done: Seq<Deed>,
    outcome: Result<(), FailureView>,
) -> bool
    decreases done.len(),
{
    if wait.found >= wait.records.len() {
        done.len() == 0 && outcome is Ok
    } else {
        &&& done.len() > 0
        &&& done[0] matches Deed::Look(look) && look.name == wait.records[wait.found].0 && (
        match look.found {
            Err(failure) => done.len() == 1 && outcome == Err::<(), FailureView>(failure),
            Ok(held) => match wait.verdict(held) {
                VerdictView::Failed(failure) => done.len() == 1 && outcome == Err::<
                    (),
                    FailureView,
                >(failure),
                VerdictView::Wait => done.len() > 1 && (done[1] matches Deed::Wait(interval)
                    && interval.nanos == LOOK_NANOS) && settled(
                    wait.after(held),
                    done.skip(2),
                    outcome,
                ),
                _ => settled(wait.after(held), done.skip(1), outcome),
            },
        })
    }
}

/// A wait for these records that has not looked yet.
pub open spec fn unsettled(
    records: Seq<(Seq<char>, Seq<Seq<char>>)>,
    allowed: Duration,
) -> SettlingView {
    SettlingView { records, allowed, waited: 0, found: 0 }
}

/// Waits until every value that was written can be looked up.
///
/// Ends with [`Reason::Challenge`] when a value is still not there once the
/// time is up, naming one of the names, and with whatever the lookup
/// returned when it failed outright. Nothing to wait for is settled at once.
///
/// Neither the lookup nor the clock knows what came before what, so every look
/// and every pause is entered in the ledger as it is made.
pub fn settle<L: Lookup, P: Pause>(
    records: &Shelf<Vec<String>>,
    allowed: Duration,
    look: &mut L,
    pause: &mut P,
    ledger: &mut Ledger,
) -> (r: Result<(), Failure>)
    requires
        allowed.wf(),
    ensures
        ({
            let done = since(old(ledger)@, final(ledger)@);
            &&& final(ledger)@ == old(ledger)@ + done
            &&& final(look).looks() == old(look).looks() + looks_in(done)
            &&& final(pause).waits() == old(pause).waits() + waits_in(done)
            &&& settled(unsettled(wanted(*records), allowed), done, outcome_seen(r))
        }),
{
    let mut wait = Settling::new(records, allowed);
    let ghost start = wait@;
    let ghost before = ledger@;
    let ghost looks = look.looks();
    let ghost waits = pause.waits();
    let ghost mut done: Seq<Deed> = seq![];
    proof {
        assert(before + done =~= before);
        assert(looks + looks_in(done) =~= looks);
        assert(waits + waits_in(done) =~= waits);
        assert forall|rest: Seq<Deed>, outcome: Result<(), FailureView>| #[trigger]
            settled(start, rest, outcome) implies settled(start, done + rest, outcome) by {
            assert(done + rest =~= rest);
        }
    }
    loop
        invariant
            allowed.wf(),
            wait@.wf(),
            wait@.allowed == allowed,
            wait@.records == wanted(*records),
            start == unsettled(wanted(*records), allowed),
            before == old(ledger)@,
            looks == old(look).looks(),
            waits == old(pause).waits(),
            ledger@ == before + done,
            look.looks() == looks + looks_in(done),
            pause.waits() == waits + waits_in(done),
            forall|rest: Seq<Deed>, outcome: Result<(), FailureView>| #[trigger]
                settled(wait@, rest, outcome) ==> settled(start, done + rest, outcome),
        decreases allowed.nanos + LOOK_NANOS - wait@.waited, wait@.records.len() - wait@.found,
    {
        let ghost at = wait@;
        let ghost none: Seq<Deed> = seq![];
        proof {
            assert(done + none =~= done);
            assert(since(before, before + done) =~= done);
        }
        let name = match wait.next() {
            Some(name) => name,
            None => {
                assert(settled(at, none, Ok::<(), FailureView>(())));
                return Ok(());
            },
        };
        let found = ledger.look(look, name);
        let ghost one: Seq<Deed> = seq![ledger@.last()];
        let ghost mut now = one;
        proof {
            lemma_stretches_join(done, one);
            lemma_one_deed(one[0]);
            assert(ledger@ =~= before + (done + one));
            assert(since(before, ledger@) =~= done + one);
            assert(look.looks() =~= looks + looks_in(done + one));
            assert(pause.waits() =~= waits + waits_in(done + one));
        }
        let held = match found {
            Ok(held) => held,
            Err(failure) => {
                assert(settled(at, one, Err::<(), FailureView>(failure@)));
                return Err(failure);
            },
        };
        match wait.looked(&held) {
            Verdict::Next | Verdict::Settled => {},
            Verdict::Wait => {
                let interval = Duration::from_secs(LOOK_INTERVAL);
                ledger.wait(pause, interval);
                proof {
                    now = one + seq![Deed::Wait(interval)];
                    lemma_stretches_join(done, now);
                    lemma_stretches_join(one, seq![Deed::Wait(interval)]);
                    lemma_one_deed(Deed::Wait(interval));
                    assert(ledger@ =~= before + (done + now));
                    assert(look.looks() =~= looks + looks_in(done + now));
                    assert(pause.waits() =~= waits + waits_in(done + now));
                }
            },
            Verdict::Failed(failure) => {
                assert(settled(at, one, Err::<(), FailureView>(failure@)));
                return Err(failure);
            },
        }
        proof {
            assert forall|rest: Seq<Deed>, outcome: Result<(), FailureView>| #[trigger]
                settled(wait@, rest, outcome) implies settled(
                start,
                (done + now) + rest,
                outcome,
            ) by {
                let longer = now + rest;
                assert(longer.skip(now.len() as int) =~= rest);
                assert(settled(at, longer, outcome));
                assert((done + now) + rest =~= done + longer);
            }
            done = done + now;
        }
    }
}

/// A wait that succeeds ends in a round in which every name was looked at
/// once, in order, and carried every value it has to.
pub proof fn lemma_success_follows_a_whole_round(
    records: Seq<(Seq<char>, Seq<Seq<char>>)>,
    allowed: Duration,
    done: Seq<Deed>,
    at: int,
)
    requires
        settled(unsettled(records, allowed), done, Ok::<(), FailureView>(())),
        0 <= at < records.len(),
    ensures
        done.len() >= records.len(),
        done[done.len() - records.len() + at] matches Deed::Look(look) && look.name
            == records[at].0 && (look.found matches Ok(held) && all_there(records[at].1, held)),
{
    lemma_a_round_is_whole(unsettled(records, allowed), done, at);
}

proof fn lemma_a_round_is_whole(wait: SettlingView, done: Seq<Deed>, at: int)
    requires
        0 <= wait.found <= wait.records.len(),
        settled(wait, done, Ok::<(), FailureView>(())),
        0 <= at < wait.records.len(),
    ensures
        done.len() >= wait.records.len() || done.len() == wait.records.len() - wait.found,
        at >= wait.found || done.len() >= wait.records.len() ==> (done[done.len()
            - wait.records.len() + at] matches Deed::Look(look) && look.name
            == wait.records[at].0 && (look.found matches Ok(held) && all_there(
            wait.records[at].1,
            held,
        ))),
    decreases done.len(),
{
    if wait.found < wait.records.len() {
        let look = done[0]->Look_0;
        let held = look.found->Ok_0;
        let next = wait.after(held);
        let rest = if wait.verdict(held) is Wait {
            done.skip(2)
        } else {
            done.skip(1)
        };
        lemma_a_round_is_whole(next, rest, at);
        let place = done.len() - wait.records.len() + at;
        if place > 0 {
            assert(rest.len() - wait.records.len() + at >= 0 ==> rest[rest.len()
                - wait.records.len() + at] == done[place]);
        }
    }
}

/// A lookup that fails outright is the last thing that is done, and what it
/// said is what comes back.
pub proof fn lemma_a_failed_look_is_the_last(
    wait: SettlingView,
    done: Seq<Deed>,
    outcome: Result<(), FailureView>,
    at: int,
    failure: FailureView,
)
    requires
        settled(wait, done, outcome),
        0 <= at < done.len(),
        done[at] matches Deed::Look(look) && look.found == Err::<Seq<Seq<char>>, FailureView>(
            failure,
        ),
    ensures
        at == done.len() - 1,
        outcome == Err::<(), FailureView>(failure),
    decreases done.len(),
{
    if at > 0 {
        let held = done[0]->Look_0.found->Ok_0;
        let next = wait.after(held);
        if wait.verdict(held) is Wait {
            assert(done.skip(2)[at - 2] == done[at]);
            lemma_a_failed_look_is_the_last(next, done.skip(2), outcome, at - 2, failure);
        } else {
            assert(done.skip(1)[at - 1] == done[at]);
            lemma_a_failed_look_is_the_last(next, done.skip(1), outcome, at - 1, failure);
        }
    }
}

/// Every pause stands between two rounds: it is one interval long, it follows
/// a look, and what follows it is a look at the first name.
pub proof fn lemma_a_pause_stands_between_rounds(
    wait: SettlingView,
    done: Seq<Deed>,
    outcome: Result<(), FailureView>,
    at: int,
)
    requires
        0 <= wait.found,
        settled(wait, done, outcome),
        0 <= at < done.len(),
        done[at] is Wait,
    ensures
        done[at]->Wait_0.nanos == LOOK_NANOS,
        0 < at < done.len() - 1,
        done[at - 1] is Look,
        done[at + 1] matches Deed::Look(look) && look.name == wait.records[0].0,
    decreases done.len(),
{
    let held = done[0]->Look_0.found->Ok_0;
    let next = wait.after(held);
    if wait.verdict(held) is Wait {
        let rest = done.skip(2);
        assert(settled(next, rest, outcome));
        assert(rest.len() > 0 && rest[0] is Look);
        assert(rest[0] == done[2]);
        if at > 1 {
            assert(rest[at - 2] == done[at]);
            lemma_a_pause_stands_between_rounds(next, rest, outcome, at - 2);
            assert(rest[at - 3] == done[at - 1]);
            assert(rest[at - 1] == done[at + 1]);
        }
    } else {
        let rest = done.skip(1);
        assert(rest[at - 1] == done[at]);
        lemma_a_pause_stands_between_rounds(next, rest, outcome, at - 1);
        assert(rest[at - 2] == done[at - 1]);
        assert(rest[at] == done[at + 1]);
    }
}

/// A wait that ends for want of a value, and not with a lookup that failed,
/// has paused for all of the allowed time before its last look.
pub proof fn lemma_a_value_is_given_up_only_when_the_time_is_up(
    wait: SettlingView,
    done: Seq<Deed>,
    failure: FailureView,
)
    requires
        0 <= wait.found < wait.records.len(),
        settled(wait, done, Err::<(), FailureView>(failure)),
        done.last() matches Deed::Look(look) && look.found is Ok,
    ensures
        wait.waited + waits_in(done).len() * LOOK_NANOS >= wait.allowed.nanos,
        failure == never_appeared(done.last()->Look_0.name, wait.allowed),
    decreases done.len(),
{
    let held = done[0]->Look_0.found->Ok_0;
    let next = wait.after(held);
    match wait.verdict(held) {
        VerdictView::Failed(_) => {},
        VerdictView::Wait => {
            let rest = done.skip(2);
            assert(done.take(2) + rest =~= done);
            lemma_stretches_join(done.take(2), rest);
            lemma_stretches_join(seq![done[0]], seq![done[1]]);
            lemma_one_deed(done[0]);
            lemma_one_deed(done[1]);
            assert(done.take(2) =~= seq![done[0]] + seq![done[1]]);
            assert(settled(next, rest, Err::<(), FailureView>(failure)));
            assert(rest.last() == done.last());
            lemma_a_value_is_given_up_only_when_the_time_is_up(next, rest, failure);
        },
        _ => {
            let rest = done.skip(1);
            assert(done.take(1) + rest =~= done);
            lemma_stretches_join(done.take(1), rest);
            lemma_one_deed(done[0]);
            assert(done.take(1) =~= seq![done[0]]);
            assert(settled(next, rest, Err::<(), FailureView>(failure)));
            assert(rest.last() == done.last());
            lemma_a_value_is_given_up_only_when_the_time_is_up(next, rest, failure);
        },
    }
}

/// A wait in which so many rounds found the first name wanting.
pub open spec fn after_rounds(
    wait: SettlingView,
    held: Seq<Seq<char>>,
    rounds: nat,
) -> SettlingView
    decreases rounds,
{
    if rounds == 0 {
        wait
    } else {
        after_rounds(wait, held, (rounds - 1) as nat).after(held)
    }
}

/// A record that never appears is waited for exactly as long as is allowed:
/// every round before the time is up ends in another interval of waiting,
/// and the first one at which it is up ends the wait.
pub proof fn lemma_a_missing_record_spends_the_allowed_time(
    records: Seq<(Seq<char>, Seq<Seq<char>>)>,
    allowed: Duration,
    held: Seq<Seq<char>>,
    rounds: nat,
)
    requires
        records.len() > 0,
        !all_there(records[0].1, held),
    ensures
        ({
            let start = SettlingView { records, allowed, waited: 0, found: 0 };
            let wait = after_rounds(start, held, rounds);
            &&& rounds * LOOK_NANOS < allowed.nanos + LOOK_NANOS ==> wait == (SettlingView {
                waited: rounds * LOOK_NANOS,
                ..start
            })
            &&& rounds * LOOK_NANOS < allowed.nanos ==> wait.verdict(held) is Wait
            &&& allowed.nanos <= rounds * LOOK_NANOS < allowed.nanos + LOOK_NANOS
                ==> wait.verdict(held) == VerdictView::Failed(
                never_appeared(records[0].0, allowed),
            )
        }),
    decreases rounds,
{
    if rounds > 0 {
        lemma_a_missing_record_spends_the_allowed_time(
            records,
            allowed,
            held,
            (rounds - 1) as nat,
        );
    }
}

/// A record that is already visible is not waited for.
pub proof fn lemma_a_visible_record_is_not_waited_for(
    wait: SettlingView,
    held: Seq<Seq<char>>,
)
    requires
        wait.found < wait.records.len(),
        all_there(wait.records[wait.found].1, held),
    ensures
        wait.after(held).waited == wait.waited,
        !(wait.verdict(held) is Wait),
        !(wait.verdict(held) is Failed),
{
}

/// Every value a name has to carry has to be among those found there; others
/// may be there too.
pub proof fn lemma_every_value_has_to_be_there(
    wanted: Seq<Seq<char>>,
    found: Seq<Seq<char>>,
    value: Seq<char>,
)
    ensures
        all_there(wanted.push(value), found) <==> all_there(wanted, found) && found.contains(value),
        all_there(wanted, found) ==> all_there(wanted, found.push(value)),
        all_there(seq![], found),
{
    let more = wanted.push(value);
    if all_there(more, found) {
        assert(more[wanted.len() as int] == value);
        assert forall|i: int| 0 <= i < wanted.len() implies found.contains(#[trigger] wanted[i]) by {
            assert(more[i] == wanted[i]);
        }
    }
    if all_there(wanted, found) {
        let others = found.push(value);
        assert forall|i: int| 0 <= i < wanted.len() implies others.contains(
            #[trigger] wanted[i],
        ) by {
            let j = choose|j: int| 0 <= j < found.len() && found[j] == wanted[i];
            assert(others[j] == wanted[i]);
        }
    }
}

/// A record that does not become visible is a fault of the challenge, which
/// is not attempted again, and what is said names the record and how long it
/// was waited for.
pub proof fn lemma_a_record_that_stays_away_is_a_fault_of_the_challenge(
    name: Seq<char>,
    allowed: Duration,
)
    ensures
        never_appeared(name, allowed).reason == Reason::Challenge,
        !never_appeared(name, allowed).reason.passes(),
        name.is_prefix_of(never_appeared(name, allowed).detail),
{
    let said = never_appeared(name, allowed).detail;
    assert(said.subrange(0, name.len() as int) =~= name);
}

/// Rounds are two seconds apart: each one that found a value missing adds two
/// seconds to the wait and begins again at the first name, and the wait goes
/// on exactly as long as less than the allowed time was waited.
pub proof fn lemma_rounds_are_two_seconds_apart(wait: SettlingView, held: Seq<Seq<char>>)
    requires
        0 <= wait.found < wait.records.len(),
        !all_there(wait.records[wait.found].1, held),
    ensures
        wait.waited < wait.allowed.nanos ==> wait.verdict(held) is Wait && wait.after(held).waited
            == wait.waited + 2_000_000_000 && wait.after(held).found == 0,
        wait.waited >= wait.allowed.nanos ==> wait.verdict(held) == VerdictView::Failed(
            never_appeared(wait.records[wait.found].0, wait.allowed),
        ),
        wait.after(held).records == wait.records,
        wait.after(held).allowed == wait.allowed,
{
}

/// The names are looked at in their order, and the wait is over with the
/// last.
pub proof fn lemma_names_are_looked_at_in_order(wait: SettlingView, held: Seq<Seq<char>>)
    requires
        0 <= wait.found < wait.records.len(),
        all_there(wait.records[wait.found].1, held),
    ensures
        wait.after(held).found == wait.found + 1,
        wait.verdict(held) is Settled <==> wait.found + 1 == wait.records.len(),
        wait.verdict(held) is Next <==> wait.found + 1 < wait.records.len(),
{
}

} // verus!
