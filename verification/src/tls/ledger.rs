//! One account of everything that was done with what is outside, in order.
//!
//! A name server, a certificate authority, a publisher and a clock each know
//! only what was done with them. What came before what stands here.

use vstd::prelude::*;

use crate::time::{Duration, Pause};
use crate::tls::acme::{reply_seen, Called, Reached, Record, Recorded, Reply, Transport};
use crate::tls::dns::settle::{found_seen, Looked, Lookup};
use crate::tls::error::{outcome_seen, Failure};
use crate::tls::json::lent;

verus! {

/// One thing that was done, and what came of it.
pub enum Deed {
    /// A name was looked up.
    Look(Looked),
    /// A request was sent.
    Call(Called),
    /// What an order has reached was recorded.
    Record(Recorded),
    /// Time was let pass.
    Wait(Duration),
}

/// The looks among what was done.
pub open spec fn looks_in(done: Seq<Deed>) -> Seq<Looked>
    decreases done.len(),
{
    if done.len() == 0 {
        seq![]
    } else {
        match done.last() {
            Deed::Look(look) => looks_in(done.drop_last()).push(look),
            _ => looks_in(done.drop_last()),
        }
    }
}

/// The requests among what was done.
pub open spec fn calls_in(done: Seq<Deed>) -> Seq<Called>
    decreases done.len(),
{
    if done.len() == 0 {
        seq![]
    } else {
        match done.last() {
            Deed::Call(call) => calls_in(done.drop_last()).push(call),
            _ => calls_in(done.drop_last()),
        }
    }
}

/// The records among what was done.
pub open spec fn records_in(done: Seq<Deed>) -> Seq<Recorded>
    decreases done.len(),
{
    if done.len() == 0 {
        seq![]
    } else {
        match done.last() {
            Deed::Record(record) => records_in(done.drop_last()).push(record),
            _ => records_in(done.drop_last()),
        }
    }
}

/// The waits among what was done.
pub open spec fn waits_in(done: Seq<Deed>) -> Seq<Duration>
    decreases done.len(),
{
    if done.len() == 0 {
        seq![]
    } else {
        match done.last() {
            Deed::Wait(wait) => waits_in(done.drop_last()).push(wait),
            _ => waits_in(done.drop_last()),
        }
    }
}

/// One thing that was done is all that was done.
pub proof fn lemma_one_deed(deed: Deed)
    ensures
        looks_in(seq![deed]) == (match deed {
            Deed::Look(look) => seq![look],
            _ => seq![],
        }),
        calls_in(seq![deed]) == (match deed {
            Deed::Call(call) => seq![call],
            _ => seq![],
        }),
        records_in(seq![deed]) == (match deed {
            Deed::Record(record) => seq![record],
            _ => seq![],
        }),
        waits_in(seq![deed]) == (match deed {
            Deed::Wait(wait) => seq![wait],
            _ => seq![],
        }),
{
    let none: Seq<Deed> = seq![];
    assert(seq![deed].drop_last() =~= none);
    assert(looks_in(none) =~= seq![]);
    assert(calls_in(none) =~= seq![]);
    assert(records_in(none) =~= seq![]);
    assert(waits_in(none) =~= seq![]);
}

/// What was done in two stretches is what was done in the first and then what
/// was done in the second.
pub proof fn lemma_stretches_join(first: Seq<Deed>, second: Seq<Deed>)
    ensures
        looks_in(first + second) == looks_in(first) + looks_in(second),
        calls_in(first + second) == calls_in(first) + calls_in(second),
        records_in(first + second) == records_in(first) + records_in(second),
        waits_in(first + second) == waits_in(first) + waits_in(second),
    decreases second.len(),
{
    if second.len() == 0 {
        assert(first + second =~= first);
    } else {
        lemma_stretches_join(first, second.drop_last());
        assert((first + second).drop_last() =~= first + second.drop_last());
    }
}

/// An account of what was done. Nothing is entered but by doing it.
pub struct Ledger {
    done: Ghost<Seq<Deed>>,
}

impl View for Ledger {
    type V = Seq<Deed>;

    closed spec fn view(&self) -> Seq<Deed> {
        self.done@
    }
}

impl Ledger {
    /// An account with nothing in it.
    pub fn new() -> (r: Self)
        ensures
            r@ == Seq::<Deed>::empty(),
    {
        Ledger { done: Ghost(Seq::empty()) }
    }

    /// Looks a name up.
    pub fn look<L: Lookup>(&mut self, look: &mut L, name: &str) -> (r: Result<
        Vec<String>,
        Failure,
    >)
        ensures
            final(self)@ == old(self)@.push(
                Deed::Look(Looked { name: name@, found: found_seen(r) }),
            ),
            final(look).looks() == old(look).looks().push(
                Looked { name: name@, found: found_seen(r) },
            ),
    {
        let r = look.look(name);
        let ghost looked = Looked { name: name@, found: found_seen(r) };
        self.done = Ghost(self.done@.push(Deed::Look(looked)));
        r
    }

    /// Sends a request.
    pub fn call<T: Transport>(&mut self, transport: &mut T, url: &str, body: Option<&str>) -> (r:
        Result<Reply, Failure>)
        ensures
            final(self)@ == old(self)@.push(
                Deed::Call(Called { url: url@, body: lent(body), reply: reply_seen(r) }),
            ),
            final(transport).calls() == old(transport).calls().push(
                Called { url: url@, body: lent(body), reply: reply_seen(r) },
            ),
    {
        let r = transport.call(url, body);
        let ghost called = Called { url: url@, body: lent(body), reply: reply_seen(r) };
        self.done = Ghost(self.done@.push(Deed::Call(called)));
        r
    }

    /// Records what an order has reached.
    pub fn record<R: Record>(&mut self, record: &mut R, reached: &Reached) -> (r: Result<
        (),
        Failure,
    >)
        ensures
            final(self)@ == old(self)@.push(
                Deed::Record(Recorded { reached: reached@, outcome: outcome_seen(r) }),
            ),
            final(record).records() == old(record).records().push(
                Recorded { reached: reached@, outcome: outcome_seen(r) },
            ),
    {
        let r = record.record(reached);
        let ghost recorded = Recorded { reached: reached@, outcome: outcome_seen(r) };
        self.done = Ghost(self.done@.push(Deed::Record(recorded)));
        r
    }

    /// Lets time pass.
    pub fn wait<P: Pause>(&mut self, pause: &mut P, wait: Duration)
        ensures
            final(self)@ == old(self)@.push(Deed::Wait(wait)),
            final(pause).waits() == old(pause).waits().push(wait),
    {
        pause.pause(wait);
        self.done = Ghost(self.done@.push(Deed::Wait(wait)));
    }
}

/// What was entered since an earlier moment.
pub open spec fn since(earlier: Seq<Deed>, now: Seq<Deed>) -> Seq<Deed> {
    now.skip(earlier.len() as int)
}

} // verus!
