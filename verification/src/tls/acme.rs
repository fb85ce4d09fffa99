//! Carrying an ACME order to its end.
//!
//! [`Flow`] decides what to ask; this holds the nonce, records what an order
//! has reached before anything can be lost, and tries again when the fault
//! might pass. The transport, the record and the wait are handed in.

use vstd::prelude::*;
use vstd::string::*;
use vstd::utf8::encode_utf8;

use crate::text::{decimal, decimal_text};
use crate::time::{Duration, Pause};
use crate::tls::attempt::{wait_before, wait_secs, ATTEMPTS};
use crate::tls::config::{copy_texts, texts, AcmeSettings};
use crate::tls::crypto::point_of;
use crate::tls::csr::{
    countable, nameless, request, request_with, requests, subject_der, unbuilt, REQUEST_VERSION,
};
use crate::tls::error::{failed, outcome_seen, Failure, FailureView, Reason};
use crate::tls::json::{lent, shown};
use crate::tls::jws::{
    base64url_text, digest_text, jwk_text, keyless, pointless, sign, signs, thumbprint, undigested,
    unsigned, Account, PrivateKey,
};
use crate::tls::order::{
    answered, copy_text, progress_seen, Answer, Ask, AskView, Challenge, DocumentView, Flow, FlowView,
    Progress, Publication, PublicationView, Stage, Step, MOST_NONCE_RETRIES,
};
use crate::tls::ledger::{
    calls_in, lemma_one_deed, lemma_stretches_join, records_in, since, waits_in, Deed, Ledger,
};
use crate::tls::shelf::Shelf;

verus! {

/// How long to wait between two reads of an order the server is still
/// deciding on, in seconds.
pub const POLL_INTERVAL: u64 = 1;

/// How long one request may take, in seconds.
pub const REQUEST_TIMEOUT: u64 = 30;

/// The content type every signed ACME request carries.
pub const JOSE: &'static str = "application/jose+json";

/// One answer, with the nonce the server attached to it.
pub struct Reply {
    /// What the flow reads.
    pub answer: Answer,
    /// The nonce to sign the next request with, when the server sent one.
    pub nonce: Option<String>,
}

/// One answer, apart from how it is held.
pub struct ReplyView {
    pub status: u16,
    pub body: Seq<char>,
    pub location: Option<Seq<char>>,
    pub nonce: Option<Seq<char>>,
}

impl View for Reply {
    type V = ReplyView;

    open spec fn view(&self) -> ReplyView {
        ReplyView {
            status: self.answer.status,
            body: self.answer.body@,
            location: shown(self.answer.location),
            nonce: shown(self.nonce),
        }
    }
}

/// One request that was sent, and what came back.
pub struct Called {
    pub url: Seq<char>,
    pub body: Option<Seq<char>>,
    pub reply: Result<ReplyView, FailureView>,
}

/// What came back, apart from how it is held.
pub open spec fn reply_seen(reply: Result<Reply, Failure>) -> Result<ReplyView, FailureView> {
    match reply {
        Ok(reply) => Ok(reply@),
        Err(failure) => Err(failure@),
    }
}

/// Something that can carry one request to an ACME server.
pub trait Transport {
    /// Every request that was sent, in order. An implementation that keeps
    /// count of them says here how.
    open spec fn calls(&self) -> Seq<Called> {
        seq![]
    }

    /// Sends one request. `body` is `None` for an unsigned read.
    fn call(&mut self, url: &str, body: Option<&str>) -> (r: Result<Reply, Failure>)
        ensures
            final(self).calls() == old(self).calls().push(
                Called { url: url@, body: lent(body), reply: reply_seen(r) },
            ),
    ;
}

/// Something that was recorded, and how that went.
pub struct Recorded {
    pub reached: ReachedView,
    pub outcome: Result<(), FailureView>,
}

/// Records what an order has reached, and publishes its challenge answers.
///
/// Called whenever either half changes, and with an empty publication when
/// the order ends, whether it succeeded or not.
pub trait Record {
    /// Everything that was recorded, in order. An implementation that keeps
    /// count of it says here how.
    open spec fn records(&self) -> Seq<Recorded> {
        seq![]
    }

    fn record(&mut self, reached: &Reached) -> (r: Result<(), Failure>)
        ensures
            final(self).records() == old(self).records().push(
                Recorded { reached: reached@, outcome: outcome_seen(r) },
            ),
    ;
}

/// What a transport, a publisher and a clock each saw, in order.
pub struct Logs {
    pub calls: Seq<Called>,
    pub records: Seq<Recorded>,
    pub waits: Seq<Duration>,
}

impl Logs {
    /// What they saw once this was done as well.
    pub open spec fn after(self, done: Seq<Deed>) -> Logs {
        Logs {
            calls: self.calls + calls_in(done),
            records: self.records + records_in(done),
            waits: self.waits + waits_in(done),
        }
    }
}

/// What these three saw.
pub open spec fn logs<T: Transport, R: Record, P: Pause>(transport: T, record: R, pause: P) -> Logs {
    Logs { calls: transport.calls(), records: record.records(), waits: pause.waits() }
}

/// What an order produced. It is never printed: one half is a private key.
pub struct Obtained {
    /// The certificate chain, leaf first, as PEM.
    pub chain_pem: Vec<u8>,
    /// The private key it was issued against, as PEM.
    pub key_pem: Vec<u8>,
}

/// What an order has reached that has to outlive the process driving it.
pub struct Reached {
    /// The address the certificate authority named the order with, once it
    /// has.
    pub order_url: Option<String>,
    /// What has to be reachable right now.
    pub publication: Publication,
}

/// What an order has reached, apart from how it is held.
pub struct ReachedView {
    pub order_url: Option<Seq<char>>,
    pub publication: PublicationView,
}

impl View for Reached {
    type V = ReachedView;

    open spec fn view(&self) -> ReachedView {
        ReachedView { order_url: shown(self.order_url), publication: self.publication@ }
    }
}

impl Default for Reached {
    fn default() -> (r: Self)
        ensures
            r@ == (ReachedView { order_url: None, publication: PublicationView::nothing() }),
            r.wf(),
    {
        Reached { order_url: None, publication: Publication::default() }
    }
}

/// What a flow has reached.
pub open spec fn reached(flow: FlowView) -> ReachedView {
    ReachedView { order_url: flow.order, publication: flow.published }
}

impl Reached {
    /// Whether it is held in order.
    pub open spec fn wf(self) -> bool {
        self.publication.entries.wf()
    }

    /// What a flow has reached.
    pub fn of(flow: &Flow) -> (r: Self)
        requires
            flow.wf(),
        ensures
            r@ == reached(flow@),
            r.wf(),
    {
        let order_url = match flow.order_url() {
            Some(url) => Some(url.to_owned()),
            None => None,
        };
        Reached { order_url, publication: flow.published().copy() }
    }

    /// The same once more.
    pub fn copy(&self) -> (r: Self)
        requires
            self.wf(),
        ensures
            r@ == self@,
            r.wf(),
    {
        Reached { order_url: copy_text(&self.order_url), publication: self.publication.copy() }
    }

    /// Whether two orders have reached the same.
    pub fn same_as(&self, other: &Reached) -> (r: bool)
        requires
            self.wf(),
            other.wf(),
        ensures
            r == (self@ == other@),
    {
        let urls = match (&self.order_url, &other.order_url) {
            (None, None) => true,
            (Some(mine), Some(theirs)) => crate::text::same(mine.as_str(), theirs.as_str()),
            _ => false,
        };
        urls && self.publication.same_as(&other.publication)
    }

    /// What is recorded when an order ends, when anything is still open.
    ///
    /// The kind is kept, because taking a publication away means reaching the
    /// same place it was put. The address of the order is kept too: another
    /// node can take it over.
    pub fn closing(&self) -> (r: Option<Reached>)
        requires
            self.wf(),
        ensures
            match r {
                Some(closed) => !self@.publication.empty() && closed@ == self@.closed()
                    && closed.wf(),
                None => self@.publication.empty(),
            },
    {
        if self.publication.is_empty() {
            return None;
        }
        let publication = Publication { kind: self.publication.kind, entries: Shelf::new() };
        assert(publication@.entries =~= Map::empty());
        Some(Reached { order_url: copy_text(&self.order_url), publication })
    }
}

/// How one order is driven.
pub struct Plan<'a> {
    /// The key the certificate is issued against, when the caller pins one.
    ///
    /// `None` generates a fresh key for every attempt. A cluster pins one,
    /// because whichever node finishes the order has to hold the key the
    /// certificate belongs to.
    pub key: Option<&'a PrivateKey>,
    /// An order the server already named, to be taken over rather than
    /// placed. Only the first attempt takes it over.
    pub resume: Option<&'a str>,
}

impl<'a> Default for Plan<'a> {
    fn default() -> (r: Self)
        ensures
            r.key is None,
            r.resume is None,
    {
        Plan { key: None, resume: None }
    }
}

/// Where one attempt stands, besides its flow.
pub struct DriveView {
    pub nonce: Option<Seq<char>>,
    /// What was last recorded.
    pub live: ReachedView,
    /// How many nonces in a row the server rejected.
    pub rejected: u32,
}

/// What an attempt does next.
pub enum TurnView {
    Record(ReachedView),
    Ask { ask: AskView, pause: bool },
    End(Result<Seq<char>, FailureView>),
}

/// What is said about an order that ends with nothing to show.
pub open spec fn no_certificate() -> FailureView {
    failed(Reason::Protocol, "the order finished without a certificate"@)
}

impl DriveView {
    /// No more nonces were rejected than is put up with.
    pub open spec fn wf(self) -> bool {
        self.rejected <= MOST_NONCE_RETRIES
    }

    /// What an attempt does next: record what was reached and not recorded
    /// yet, ask, or end.
    pub open spec fn turn(self, flow: FlowView) -> TurnView {
        match flow.asks() {
            None => TurnView::End(
                match flow.chain {
                    Some(chain) => Ok(chain),
                    None => Err(no_certificate()),
                },
            ),
            Some(ask) => if reached(flow) != self.live {
                TurnView::Record(reached(flow))
            } else {
                TurnView::Ask { ask, pause: flow.stage == Stage::Poll }
            },
        }
    }

    /// After a turn. What is about to be recorded counts as recorded: a
    /// publisher that put the answer in place and then failed has still left
    /// something behind.
    pub open spec fn after_turn(self, flow: FlowView) -> DriveView {
        match self.turn(flow) {
            TurnView::Record(reached) => DriveView { live: reached, ..self },
            _ => self,
        }
    }

    /// After a reply that did this to the flow.
    ///
    /// The nonce is taken first, so a rejected one is answered with the fresh
    /// one the same reply carried.
    pub open spec fn after_reply(self, nonce: Option<Seq<char>>, progress: Progress) -> (
        DriveView,
        Result<(), FailureView>,
    ) {
        match progress {
            Progress::Moved => (DriveView { nonce, rejected: 0, ..self }, Ok(())),
            Progress::Again => if self.rejected >= MOST_NONCE_RETRIES {
                (
                    DriveView { nonce, ..self },
                    Err(failed(Reason::Server, "the server rejected 5 nonces in a row"@)),
                )
            } else if nonce is None {
                (
                    DriveView { nonce, rejected: (self.rejected + 1) as u32, ..self },
                    Err(
                        failed(
                            Reason::Protocol,
                            "the server rejected the nonce and sent no replacement"@,
                        ),
                    ),
                )
            } else {
                (DriveView { nonce, rejected: (self.rejected + 1) as u32, ..self }, Ok(()))
            },
        }
    }
}

/// What an attempt does next.
pub enum Turn {
    /// Record this, before anything else.
    Record(Reached),
    /// Ask this, after a pause when the server is still deciding.
    Ask { ask: Ask, pause: bool },
    /// The attempt is over.
    End(Result<String, Failure>),
}

impl View for Turn {
    type V = TurnView;

    open spec fn view(&self) -> TurnView {
        match *self {
            Turn::Record(reached) => TurnView::Record(reached@),
            Turn::Ask { ask, pause } => TurnView::Ask { ask: ask@, pause },
            Turn::End(Ok(chain)) => TurnView::End(Ok(chain@)),
            Turn::End(Err(failure)) => TurnView::End(Err(failure@)),
        }
    }
}

/// Where one attempt stands, besides its flow.
pub struct Drive {
    nonce: Option<String>,
    live: Reached,
    rejected: u32,
}

impl View for Drive {
    type V = DriveView;

    closed spec fn view(&self) -> DriveView {
        DriveView { nonce: shown(self.nonce), live: self.live@, rejected: self.rejected }
    }
}

impl Drive {
    /// Whether it is sound.
    pub closed spec fn kept(self) -> bool {
        self.live.wf()
    }

    /// Whether it is sound.
    pub open spec fn wf(self) -> bool {
        self@.wf() && self.kept()
    }

    /// An attempt at this flow that has asked nothing yet.
    ///
    /// What the flow already reached counts as recorded. For an order that is
    /// taken over that is the address the previous node wrote down, and
    /// starting from it keeps the answer that is already published in place.
    pub fn new(flow: &Flow) -> (r: Self)
        requires
            flow.wf(),
        ensures
            r.wf(),
            r@ == beginning(flow@),
    {
        Drive { nonce: None, live: Reached::of(flow), rejected: 0 }
    }

    /// What was last recorded.
    pub fn live(&self) -> (r: &Reached)
        ensures
            r@ == self@.live,
            self.kept() ==> r.wf(),
    {
        &self.live
    }

    /// What the attempt does next.
    pub fn turn(&mut self, flow: &Flow) -> (r: Turn)
        requires
            old(self).wf(),
            flow.wf(),
        ensures
            final(self).wf(),
            final(self)@ == old(self)@.after_turn(flow@),
            r@ == old(self)@.turn(flow@),
            r matches Turn::Record(reached) ==> reached.wf(),
    {
        match flow.next() {
            None => match flow.chain() {
                Some(chain) => Turn::End(Ok(chain.to_owned())),
                None => Turn::End(
                    Err(Failure::said(Reason::Protocol, "the order finished without a certificate")),
                ),
            },
            Some(ask) => {
                let now = Reached::of(flow);
                if !now.same_as(&self.live) {
                    self.live = now.copy();
                    return Turn::Record(now);
                }
                Turn::Ask { ask, pause: flow.waiting_on_server() }
            },
        }
    }

    /// The nonce to sign with.
    pub fn nonce(&self) -> (r: Result<&str, Failure>)
        ensures
            match r {
                Ok(nonce) => self@.nonce == Some(nonce@),
                Err(failure) => self@.nonce is None && failure@ == no_nonce(),
            },
    {
        match &self.nonce {
            Some(nonce) => Ok(nonce.as_str()),
            None => Err(Failure::said(Reason::Protocol, "the server sent no nonce to sign with")),
        }
    }

    /// Takes the nonce of a reply.
    fn renew(&mut self, nonce: &Option<String>)
        ensures
            final(self)@ == (DriveView { nonce: shown(*nonce), ..old(self)@ }),
            final(self).kept() == old(self).kept(),
    {
        self.nonce = copy_text(nonce);
    }

    /// Takes what a reply did to the flow. Its nonce was taken before.
    pub fn moved(&mut self, progress: Progress) -> (r: Result<(), Failure>)
        requires
            old(self).wf(),
        ensures
            final(self).wf(),
            final(self)@ == old(self)@.after_reply(old(self)@.nonce, progress).0,
            match r {
                Ok(_) => old(self)@.after_reply(old(self)@.nonce, progress).1 is Ok,
                Err(failure) => old(self)@.after_reply(old(self)@.nonce, progress).1 == Err::<
                    (),
                    FailureView,
                >(failure@),
            },
    {
        match progress {
            Progress::Moved => {
                self.rejected = 0;
                Ok(())
            },
            Progress::Again => {
                if self.rejected >= MOST_NONCE_RETRIES {
                    return Err(
                        Failure::said(Reason::Server, "the server rejected 5 nonces in a row"),
                    );
                }
                self.rejected += 1;
                if self.nonce.is_none() {
                    return Err(
                        Failure::said(
                            Reason::Protocol,
                            "the server rejected the nonce and sent no replacement",
                        ),
                    );
                }
                Ok(())
            },
        }
    }
}

/// How many turns an attempt may take. No order comes near it.
pub const MOST_TURNS: u64 = 0xFFFF_FFFF_FFFF_FFFF;

/// How long to wait between two reads, in nanoseconds.
pub const POLL_NANOS: u128 = 1_000_000_000;

/// Whether a request that was sent is one that was to be sent: as it is when
/// it is unsigned, and signed with the account key over the nonce otherwise.
pub open spec fn is_sent(
    called: Called,
    state: DriveView,
    flow: FlowView,
    key: Seq<u8>,
    ask: AskView,
) -> bool {
    match ask {
        AskView::Read { url } => called.url == url && called.body is None,
        AskView::Send { url, payload, identify } => {
            &&& called.url == url
            &&& state.nonce matches Some(nonce) && called.body matches Some(body) && signs(
                body,
                key,
                identify,
                flow.account,
                url,
                nonce,
                payload,
            )
        },
    }
}

/// What is said when there is no nonce to sign with.
pub open spec fn no_nonce() -> FailureView {
    failed(Reason::Protocol, "the server sent no nonce to sign with"@)
}

/// Whether this is why nothing is sent: there is no nonce to sign with, or
/// the request cannot be signed.
pub open spec fn unsent(
    failure: FailureView,
    state: DriveView,
    flow: FlowView,
    ask: AskView,
) -> bool {
    ask matches AskView::Send { identify, .. } && if state.nonce is None {
        failure == no_nonce()
    } else {
        unsigned(failure, identify, flow.account)
    }
}

/// Whether this is what a reply does to a flow.
pub open spec fn replied(flow: FlowView, reply: ReplyView, step: Step) -> bool {
    answered(flow, reply.status, reply.body, reply.location, step)
}

impl DriveView {
    /// After a reply that did this to the flow, and whether the attempt goes
    /// on.
    pub open spec fn after_step(self, reply: ReplyView, step: Step) -> (
        DriveView,
        Result<(), FailureView>,
    ) {
        let renewed = DriveView { nonce: reply.nonce, ..self };
        match step.1 {
            Err(failure) => (renewed, Err(failure)),
            Ok(progress) => renewed.after_reply(reply.nonce, progress),
        }
    }
}

/// Whether an attempt that does this, in this order and nothing else, in so
/// many turns at most, comes to this and ends there.
///
/// Each turn is the one that is due: what was reached is recorded before
/// anything is asked, an order the server is still deciding on is read again
/// only after a wait, and each reply is taken before the next turn. It ends
/// when nothing more is asked, or with the first thing that goes wrong.
pub open spec fn driven(
    state: DriveView,
    flow: FlowView,
    key: Seq<u8>,
    left: nat,
    done: Seq<Deed>,
    outcome: Result<Seq<char>, FailureView>,
    end: (DriveView, FlowView),
) -> bool
    decreases left, 0int,
{
    if left == 0 {
        done.len() == 0 && end == (state, flow) && outcome == Err::<Seq<char>, FailureView>(
            failed(Reason::Server, "the server never finished the order"@),
        )
    } else {
        match state.turn(flow) {
            TurnView::End(last) => done.len() == 0 && end == (state, flow) && outcome == last,
            TurnView::Record(reached) => {
                &&& done.len() > 0
                &&& done[0] matches Deed::Record(recorded) && recorded.reached == reached && (
                match recorded.outcome {
                    Err(failure) => done.len() == 1 && end == (state.after_turn(flow), flow)
                        && outcome == Err::<Seq<char>, FailureView>(failure),
                    Ok(_) => driven(
                        state.after_turn(flow),
                        flow,
                        key,
                        (left - 1) as nat,
                        done.skip(1),
                        outcome,
                        end,
                    ),
                })
            },
            TurnView::Ask { ask, pause } => if pause {
                &&& done.len() > 0
                &&& done[0] matches Deed::Wait(wait) && wait.nanos == POLL_NANOS
                &&& sends(state, flow, key, (left - 1) as nat, ask, done.skip(1), outcome, end)
            } else {
                sends(state, flow, key, (left - 1) as nat, ask, done, outcome, end)
            },
        }
    }
}

/// Whether an attempt that asks this, and goes on like this, comes to this
/// and ends there.
pub open spec fn sends(
    state: DriveView,
    flow: FlowView,
    key: Seq<u8>,
    left: nat,
    ask: AskView,
    done: Seq<Deed>,
    outcome: Result<Seq<char>, FailureView>,
    end: (DriveView, FlowView),
) -> bool
    decreases left, 2int,
{
    if done.len() == 0 {
        end == (state, flow) && (outcome matches Err(failure) && unsent(failure, state, flow, ask))
    } else {
        done[0] matches Deed::Call(called) && is_sent(called, state, flow, key, ask) && (
        match called.reply {
            Err(failure) => done.len() == 1 && end == (state, flow) && outcome == Err::<
                Seq<char>,
                FailureView,
            >(failure),
            Ok(reply) => exists|step: Step| #[trigger]
                replied(flow, reply, step) && goes_on(
                    state,
                    key,
                    left,
                    reply,
                    step,
                    done.skip(1),
                    outcome,
                    end,
                ),
        })
    }
}

/// Whether an attempt that goes on like this from a reply comes to this and
/// ends there.
pub open spec fn goes_on(
    state: DriveView,
    key: Seq<u8>,
    left: nat,
    reply: ReplyView,
    step: Step,
    done: Seq<Deed>,
    outcome: Result<Seq<char>, FailureView>,
    end: (DriveView, FlowView),
) -> bool
    decreases left, 1int,
{
    match state.after_step(reply, step).1 {
        Err(failure) => done.len() == 0 && end == (state.after_step(reply, step).0, step.0)
            && outcome == Err::<Seq<char>, FailureView>(failure),
        Ok(_) => driven(
            state.after_step(reply, step).0,
            step.0,
            key,
            left,
            done,
            outcome,
            end,
        ),
    }
}

/// What an attempt comes to, apart from how it is held.
pub open spec fn chain_seen(outcome: Result<String, Failure>) -> Result<Seq<char>, FailureView> {
    match outcome {
        Ok(chain) => Ok(chain@),
        Err(failure) => Err(failure@),
    }
}

/// What was seen of two stretches is what was seen of the whole.
proof fn lemma_logs_join(before: Logs, done: Seq<Deed>, more: Seq<Deed>)
    ensures
        before.after(done).after(more) == before.after(done + more),
        before.after(seq![]) == before,
{
    lemma_stretches_join(done, more);
    let joined = before.after(done + more);
    assert(before.after(done).after(more).calls =~= joined.calls);
    assert(before.after(done).after(more).records =~= joined.records);
    assert(before.after(done).after(more).waits =~= joined.waits);
    assert(before.after(seq![]).calls =~= before.calls);
    assert(before.after(seq![]).records =~= before.records);
    assert(before.after(seq![]).waits =~= before.waits);
}

/// What was seen once one thing more was done.
proof fn lemma_logs_grow(before: Logs, done: Seq<Deed>, deed: Deed)
    ensures
        before.after(done + seq![deed]).calls == (match deed {
            Deed::Call(called) => before.after(done).calls.push(called),
            _ => before.after(done).calls,
        }),
        before.after(done + seq![deed]).records == (match deed {
            Deed::Record(recorded) => before.after(done).records.push(recorded),
            _ => before.after(done).records,
        }),
        before.after(done + seq![deed]).waits == (match deed {
            Deed::Wait(wait) => before.after(done).waits.push(wait),
            _ => before.after(done).waits,
        }),
{
    lemma_stretches_join(done, seq![deed]);
    lemma_one_deed(deed);
    let now = before.after(done + seq![deed]);
    match deed {
        Deed::Call(called) => {
            assert(now.calls =~= before.after(done).calls.push(called));
        },
        _ => {
            assert(now.calls =~= before.after(done).calls);
        },
    }
    match deed {
        Deed::Record(recorded) => {
            assert(now.records =~= before.after(done).records.push(recorded));
        },
        _ => {
            assert(now.records =~= before.after(done).records);
        },
    }
    match deed {
        Deed::Wait(wait) => {
            assert(now.waits =~= before.after(done).waits.push(wait));
        },
        _ => {
            assert(now.waits =~= before.after(done).waits);
        },
    }
}

/// A turn that records goes before what follows it.
proof fn lemma_recorded(
    state: DriveView,
    flow: FlowView,
    key: Seq<u8>,
    left: nat,
    recorded: Recorded,
    rest: Seq<Deed>,
    outcome: Result<Seq<char>, FailureView>,
    end: (DriveView, FlowView),
)
    requires
        left > 0,
        state.turn(flow) == TurnView::Record(recorded.reached),
        recorded.outcome is Ok,
        driven(state.after_turn(flow), flow, key, (left - 1) as nat, rest, outcome, end),
    ensures
        driven(state, flow, key, left, seq![Deed::Record(recorded)] + rest, outcome, end),
{
    let done = seq![Deed::Record(recorded)] + rest;
    assert(done.skip(1) =~= rest);
}

/// The wait before an ask, when there is one.
pub open spec fn resting(pause: bool, wait: Duration) -> Seq<Deed> {
    if pause {
        seq![Deed::Wait(wait)]
    } else {
        seq![]
    }
}

/// A turn that asks goes before what follows it.
proof fn lemma_asked(
    state: DriveView,
    flow: FlowView,
    key: Seq<u8>,
    left: nat,
    ask: AskView,
    pause: bool,
    wait: Duration,
    called: Called,
    step: Step,
    rest: Seq<Deed>,
    outcome: Result<Seq<char>, FailureView>,
    end: (DriveView, FlowView),
)
    requires
        left > 0,
        state.turn(flow) == (TurnView::Ask { ask, pause }),
        wait.nanos == POLL_NANOS,
        is_sent(called, state, flow, key, ask),
        match called.reply {
            Err(failure) => rest.len() == 0 && end == (state, flow) && outcome == Err::<
                Seq<char>,
                FailureView,
            >(failure),
            Ok(reply) => replied(flow, reply, step) && goes_on(
                state,
                key,
                (left - 1) as nat,
                reply,
                step,
                rest,
                outcome,
                end,
            ),
        },
    ensures
        driven(
            state,
            flow,
            key,
            left,
            resting(pause, wait) + seq![Deed::Call(called)] + rest,
            outcome,
            end,
        ),
{
    let done = resting(pause, wait) + seq![Deed::Call(called)] + rest;
    let past = seq![Deed::Call(called)] + rest;
    assert(pause ==> done.skip(1) =~= past);
    assert(!pause ==> done =~= past);
    assert(past.skip(1) =~= rest);
    assert(sends(state, flow, key, (left - 1) as nat, ask, past, outcome, end)) by {
        if let Ok(reply) = called.reply {
            assert(replied(flow, reply, step));
        }
    }
}

/// A turn that cannot send what it asks ends the attempt.
proof fn lemma_unsent(
    state: DriveView,
    flow: FlowView,
    key: Seq<u8>,
    left: nat,
    ask: AskView,
    pause: bool,
    wait: Duration,
    failure: FailureView,
)
    requires
        left > 0,
        state.turn(flow) == (TurnView::Ask { ask, pause }),
        wait.nanos == POLL_NANOS,
        unsent(failure, state, flow, ask),
    ensures
        driven(
            state,
            flow,
            key,
            left,
            resting(pause, wait),
            Err::<Seq<char>, FailureView>(failure),
            (state, flow),
        ),
{
    let none: Seq<Deed> = seq![];
    assert(pause ==> resting(pause, wait).skip(1) =~= none);
    assert(sends(
        state,
        flow,
        key,
        (left - 1) as nat,
        ask,
        none,
        Err::<Seq<char>, FailureView>(failure),
        (state, flow),
    ));
}

/// The body of one attempt, with the cleanup left to [`run`].
///
/// The server, the publisher and OpenSSL decide how it ends.
fn drive<T: Transport, R: Record, P: Pause>(
    flow: &mut Flow,
    account: &Account,
    transport: &mut T,
    record: &mut R,
    pause: &mut P,
    state: &mut Drive,
    ledger: &mut Ledger,
) -> (r: Result<String, Failure>)
    requires
        old(flow).wf(),
        old(state).wf(),
    ensures
        final(flow).wf(),
        final(state).wf(),
        ({
            let done = since(old(ledger)@, final(ledger)@);
            &&& final(ledger)@ == old(ledger)@ + done
            &&& logs(*final(transport), *final(record), *final(pause)) == logs(
                *old(transport),
                *old(record),
                *old(pause),
            ).after(done)
            &&& driven(
                old(state)@,
                old(flow)@,
                account.stored(),
                MOST_TURNS as nat,
                done,
                chain_seen(r),
                (final(state)@, final(flow)@),
            )
        }),
{
    let ghost key = account.stored();
    let ghost start = (state@, flow@);
    let ghost first = logs(*transport, *record, *pause);
    let ghost before = ledger@;
    let ghost none: Seq<Deed> = seq![];
    let ghost mut done = none;
    let mut left: u64 = MOST_TURNS;
    proof {
        lemma_logs_join(first, done, none);
        assert(before + done =~= before);
        assert forall|
            rest: Seq<Deed>,
            outcome: Result<Seq<char>, FailureView>,
            end: (DriveView, FlowView),
        | #[trigger] driven(start.0, start.1, key, left as nat, rest, outcome, end) implies driven(
            start.0,
            start.1,
            key,
            MOST_TURNS as nat,
            done + rest,
            outcome,
            end,
        ) by {
            assert(done + rest =~= rest);
        }
    }
    while left > 0
        invariant
            flow.wf(),
            state.wf(),
            key == account.stored(),
            none == Seq::<Deed>::empty(),
            start == (old(state)@, old(flow)@),
            first == logs(*old(transport), *old(record), *old(pause)),
            before == old(ledger)@,
            ledger@ == before + done,
            logs(*transport, *record, *pause) == first.after(done),
            forall|
                rest: Seq<Deed>,
                outcome: Result<Seq<char>, FailureView>,
                end: (DriveView, FlowView),
            | #[trigger]
                driven(state@, flow@, key, left as nat, rest, outcome, end) ==> driven(
                    start.0,
                    start.1,
                    key,
                    MOST_TURNS as nat,
                    done + rest,
                    outcome,
                    end,
                ),
        decreases left,
    {
        let ghost at = (state@, flow@);
        let ghost turns = left as nat;
        proof {
            assert(done + none =~= done);
            assert(since(before, before + done) =~= done);
        }
        left -= 1;
        match state.turn(flow) {
            Turn::End(outcome) => {
                proof {
                    assert(driven(
                        at.0,
                        at.1,
                        key,
                        turns,
                        none,
                        chain_seen(outcome),
                        (state@, flow@),
                    ));
                }
                return outcome;
            },
            Turn::Record(reached) => {
                let outcome = ledger.record(record, &reached);
                let ghost deed = ledger@.last();
                let ghost recorded = deed->Record_0;
                let ghost now = done + seq![deed];
                proof {
                    lemma_logs_grow(first, done, deed);
                    assert(logs(*transport, *record, *pause) == first.after(now));
                    assert(ledger@ =~= before + now);
                    assert(since(before, before + now) =~= now);
                }
                match outcome {
                    Ok(_) => {
                        proof {
                            assert forall|
                                rest: Seq<Deed>,
                                outcome: Result<Seq<char>, FailureView>,
                                end: (DriveView, FlowView),
                            | #[trigger]
                                driven(state@, flow@, key, left as nat, rest, outcome, end) implies
                                driven(
                                start.0,
                                start.1,
                                key,
                                MOST_TURNS as nat,
                                now + rest,
                                outcome,
                                end,
                            ) by {
                                lemma_recorded(
                                    at.0,
                                    at.1,
                                    key,
                                    turns,
                                    recorded,
                                    rest,
                                    outcome,
                                    end,
                                );
                                assert(now + rest =~= done + (seq![deed] + rest));
                            }
                            done = now;
                        }
                    },
                    Err(failure) => {
                        proof {
                            assert(driven(
                                at.0,
                                at.1,
                                key,
                                turns,
                                seq![deed],
                                Err::<Seq<char>, FailureView>(failure@),
                                (state@, flow@),
                            ));
                        }
                        return Err(failure);
                    },
                }
            },
            Turn::Ask { ask, pause: waits } => {
                let wait = Duration::from_secs(POLL_INTERVAL);
                if waits {
                    ledger.wait(pause, wait);
                }
                let ghost rested = resting(waits, wait);
                proof {
                    lemma_logs_grow(first, done, Deed::Wait(wait));
                    assert(!waits ==> done + rested =~= done);
                    assert(logs(*transport, *record, *pause) == first.after(done + rested));
                    assert(ledger@ =~= before + (done + rested));
                    assert(since(before, before + (done + rested)) =~= done + rested);
                }
                let sent = match &ask {
                    Ask::Read { url } => ledger.call(transport, url.as_str(), None),
                    Ask::Send { url, payload, identify } => {
                        let nonce = match state.nonce() {
                            Ok(nonce) => nonce,
                            Err(failure) => {
                                proof {
                                    lemma_unsent(
                                        at.0,
                                        at.1,
                                        key,
                                        turns,
                                        ask@,
                                        waits,
                                        wait,
                                        failure@,
                                    );
                                }
                                return Err(failure);
                            },
                        };
                        let payload = match payload {
                            Some(payload) => Some(payload.as_str()),
                            None => None,
                        };
                        let body = match sign(
                            account,
                            *identify,
                            flow.account(),
                            url.as_str(),
                            nonce,
                            payload,
                        ) {
                            Ok(body) => body,
                            Err(failure) => {
                                proof {
                                    lemma_unsent(
                                        at.0,
                                        at.1,
                                        key,
                                        turns,
                                        ask@,
                                        waits,
                                        wait,
                                        failure@,
                                    );
                                }
                                return Err(failure);
                            },
                        };
                        ledger.call(transport, url.as_str(), Some(body.as_str()))
                    },
                };
                let ghost deed = ledger@.last();
                let ghost called = deed->Call_0;
                let ghost one = rested + seq![deed];
                let ghost now = done + one;
                proof {
                    lemma_logs_grow(first, done + rested, deed);
                    assert(now =~= (done + rested) + seq![deed]);
                    assert(logs(*transport, *record, *pause) == first.after(now));
                    assert(ledger@ =~= before + now);
                    assert(since(before, before + now) =~= now);
                    assert(one + none =~= one);
                    assert(is_sent(called, at.0, at.1, key, ask@));
                }
                let ghost nowhere: Step = (flow@, Ok(Progress::Moved));
                let reply = match sent {
                    Ok(reply) => reply,
                    Err(failure) => {
                        proof {
                            lemma_asked(
                                at.0,
                                at.1,
                                key,
                                turns,
                                ask@,
                                waits,
                                wait,
                                called,
                                nowhere,
                                none,
                                Err::<Seq<char>, FailureView>(failure@),
                                (state@, flow@),
                            );
                        }
                        return Err(failure);
                    },
                };
                // Taken before the answer is read, so a rejected nonce is
                // answered with the fresh one the same response carried.
                state.renew(&reply.nonce);
                let accepted = flow.accept(&reply.answer);
                let ghost step: Step = (flow@, progress_seen(accepted));
                proof {
                    assert(replied(at.1, reply@, step));
                }
                let progress = match accepted {
                    Ok(progress) => progress,
                    Err(failure) => {
                        proof {
                            lemma_asked(
                                at.0,
                                at.1,
                                key,
                                turns,
                                ask@,
                                waits,
                                wait,
                                called,
                                step,
                                none,
                                Err::<Seq<char>, FailureView>(failure@),
                                (state@, flow@),
                            );
                        }
                        return Err(failure);
                    },
                };
                match state.moved(progress) {
                    Ok(_) => {},
                    Err(failure) => {
                        proof {
                            lemma_asked(
                                at.0,
                                at.1,
                                key,
                                turns,
                                ask@,
                                waits,
                                wait,
                                called,
                                step,
                                none,
                                Err::<Seq<char>, FailureView>(failure@),
                                (state@, flow@),
                            );
                        }
                        return Err(failure);
                    },
                }
                proof {
                    assert forall|
                        rest: Seq<Deed>,
                        outcome: Result<Seq<char>, FailureView>,
                        end: (DriveView, FlowView),
                    | #[trigger]
                        driven(state@, flow@, key, left as nat, rest, outcome, end) implies driven(
                        start.0,
                        start.1,
                        key,
                        MOST_TURNS as nat,
                        now + rest,
                        outcome,
                        end,
                    ) by {
                        lemma_asked(
                            at.0,
                            at.1,
                            key,
                            turns,
                            ask@,
                            waits,
                            wait,
                            called,
                            step,
                            rest,
                            outcome,
                            end,
                        );
                        assert(now + rest =~= done + (one + rest));
                    }
                    done = now;
                }
            },
        }
    }
    let failure = Failure::said(Reason::Server, "the server never finished the order");
    proof {
        assert(done + none =~= done);
        assert(since(before, before + done) =~= done);
        assert(driven(
            state@,
            flow@,
            key,
            0,
            none,
            Err::<Seq<char>, FailureView>(failure@),
            (state@, flow@),
        ));
    }
    Err(failure)
}

/// What an attempt comes to, out of how it went and how closing the
/// challenge path went.
pub open spec fn concluded(
    outcome: Result<Seq<char>, FailureView>,
    closed: Result<(), FailureView>,
) -> Result<Seq<char>, FailureView> {
    match (outcome, closed) {
        (Ok(chain), Ok(_)) => Ok(chain),
        (Ok(_), Err(failure)) => Err(failure),
        (Err(failure), _) => Err(failure),
    }
}

/// What an attempt comes to, out of how it went and how closing the
/// challenge path went.
///
/// An order that succeeded while its path is still open is a fault in its own
/// right: reporting success would leave nobody to close it.
pub fn conclude(outcome: Result<String, Failure>, closed: Result<(), Failure>) -> (r: Result<
    String,
    Failure,
>)
    ensures
        chain_seen(r) == concluded(chain_seen(outcome), outcome_seen(closed)),
{
    match (outcome, closed) {
        (Ok(chain), Ok(_)) => Ok(chain),
        (Ok(_), Err(close)) => Err(close),
        (Err(failure), _) => Err(failure),
    }
}

impl ReachedView {
    /// With the challenge path closed.
    pub open spec fn closed(self) -> ReachedView {
        ReachedView { publication: self.publication.cleared(), ..self }
    }
}

/// Where an attempt begins. What the flow already reached counts as recorded.
pub open spec fn beginning(flow: FlowView) -> DriveView {
    DriveView { nonce: None, live: reached(flow), rejected: 0 }
}

/// Whether an attempt that does this, in this order and nothing else, and
/// closes the challenge path after it when it was left open, comes to this.
pub open spec fn ran(
    flow: FlowView,
    key: Seq<u8>,
    done: Seq<Deed>,
    result: Result<Seq<char>, FailureView>,
    outcome: Result<Seq<char>, FailureView>,
    end: (DriveView, FlowView),
) -> bool {
    if end.0.live.publication.empty() {
        &&& driven(beginning(flow), flow, key, MOST_TURNS as nat, done, outcome, end)
        &&& result == concluded(outcome, Ok(()))
    } else {
        &&& done.len() > 0
        &&& done.last() matches Deed::Record(closing) && closing.reached == end.0.live.closed()
            && driven(
            beginning(flow),
            flow,
            key,
            MOST_TURNS as nat,
            done.drop_last(),
            outcome,
            end,
        ) && result == concluded(outcome, closing.outcome)
    }
}

/// Whether an attempt that does this, in this order and nothing else, comes
/// to this.
pub open spec fn runs(
    flow: FlowView,
    key: Seq<u8>,
    done: Seq<Deed>,
    result: Result<Seq<char>, FailureView>,
) -> bool {
    exists|outcome: Result<Seq<char>, FailureView>, end: (DriveView, FlowView)| #[trigger]
        ran(flow, key, done, result, outcome, end)
}

/// Drives one attempt from the directory to the certificate.
///
/// Whatever happened, the challenge path is closed: nothing is published any
/// more, and a publisher that was given an answer is told to take it away.
/// What is sent, recorded and waited is entered in the ledger as it is done.
pub fn run<T: Transport, R: Record, P: Pause>(
    flow: &mut Flow,
    account: &Account,
    transport: &mut T,
    record: &mut R,
    pause: &mut P,
    ledger: &mut Ledger,
) -> (r: Result<String, Failure>)
    requires
        old(flow).wf(),
    ensures
        final(flow).wf(),
        final(flow)@.stage == Stage::Done,
        final(flow)@.published.empty(),
        r matches Ok(chain) ==> final(flow)@.chain == Some(chain@),
        ({
            let done = since(old(ledger)@, final(ledger)@);
            &&& final(ledger)@ == old(ledger)@ + done
            &&& logs(*final(transport), *final(record), *final(pause)) == logs(
                *old(transport),
                *old(record),
                *old(pause),
            ).after(done)
            &&& runs(old(flow)@, account.stored(), done, chain_seen(r))
        }),
{
    let ghost start = flow@;
    let ghost before = ledger@;
    let ghost first = logs(*transport, *record, *pause);
    let mut state = Drive::new(flow);
    let outcome = drive(flow, account, transport, record, pause, &mut state, ledger);
    let ghost done = since(before, ledger@);
    let ghost end = (state@, flow@);
    let ghost seen = chain_seen(outcome);
    proof {
        lemma_an_attempt_ends_with_its_chain(
            beginning(start),
            start,
            account.stored(),
            MOST_TURNS as nat,
            done,
            seen,
            end,
        );
    }
    flow.abandon();
    let ghost mut whole = done;
    let closed = match state.live().closing() {
        Some(closed) => {
            let closing = ledger.record(record, &closed);
            proof {
                let deed = ledger@.last();
                whole = done + seq![deed];
                lemma_logs_grow(first, done, deed);
                assert(logs(*transport, *record, *pause) == first.after(whole));
                assert(whole.drop_last() =~= done);
                assert(ledger@ =~= before + whole);
            }
            closing
        },
        None => Ok(()),
    };
    proof {
        assert(since(before, before + whole) =~= whole);
        assert(ran(
            start,
            account.stored(),
            whole,
            concluded(seen, outcome_seen(closed)),
            seen,
            end,
        ));
    }
    conclude(outcome, closed)
}

/// An attempt that succeeds ends with the chain its flow collected.
pub proof fn lemma_an_attempt_ends_with_its_chain(
    state: DriveView,
    flow: FlowView,
    key: Seq<u8>,
    left: nat,
    done: Seq<Deed>,
    outcome: Result<Seq<char>, FailureView>,
    end: (DriveView, FlowView),
)
    requires
        driven(state, flow, key, left, done, outcome, end),
    ensures
        outcome matches Ok(chain) ==> end.1.chain == Some(chain) && end.1.asks() is None,
    decreases left,
{
    if left > 0 && outcome is Ok {
        match state.turn(flow) {
            TurnView::End(_) => {},
            TurnView::Record(_) => {
                lemma_an_attempt_ends_with_its_chain(
                    state.after_turn(flow),
                    flow,
                    key,
                    (left - 1) as nat,
                    done.skip(1),
                    outcome,
                    end,
                );
            },
            TurnView::Ask { ask, pause } => {
                let rest = if pause {
                    done.skip(1)
                } else {
                    done
                };
                assert(sends(state, flow, key, (left - 1) as nat, ask, rest, outcome, end));
                let reply = rest[0]->Call_0.reply->Ok_0;
                let step = choose|step: Step| #[trigger]
                    replied(flow, reply, step) && goes_on(
                        state,
                        key,
                        (left - 1) as nat,
                        reply,
                        step,
                        rest.skip(1),
                        outcome,
                        end,
                    );
                lemma_an_attempt_ends_with_its_chain(
                    state.after_step(reply, step).0,
                    step.0,
                    key,
                    (left - 1) as nat,
                    rest.skip(1),
                    outcome,
                    end,
                );
            },
        }
    }
}

/// What an attempt counts as recorded is what it recorded last, or what it
/// began with when it recorded nothing.
pub proof fn lemma_what_counts_is_what_was_recorded_last(
    state: DriveView,
    flow: FlowView,
    key: Seq<u8>,
    left: nat,
    done: Seq<Deed>,
    outcome: Result<Seq<char>, FailureView>,
    end: (DriveView, FlowView),
)
    requires
        driven(state, flow, key, left, done, outcome, end),
    ensures
        end.0.live == (if records_in(done).len() > 0 {
            records_in(done).last().reached
        } else {
            state.live
        }),
    decreases left,
{
    if left > 0 {
        match state.turn(flow) {
            TurnView::End(_) => {},
            TurnView::Record(_) => {
                lemma_first_and_rest(done);
                if done[0]->Record_0.outcome is Ok {
                    lemma_what_counts_is_what_was_recorded_last(
                        state.after_turn(flow),
                        flow,
                        key,
                        (left - 1) as nat,
                        done.skip(1),
                        outcome,
                        end,
                    );
                } else {
                    assert(records_in(done.skip(1)).len() == 0);
                }
            },
            TurnView::Ask { ask, pause } => {
                let rest = if pause {
                    lemma_first_and_rest(done);
                    done.skip(1)
                } else {
                    done
                };
                assert(records_in(rest) =~= records_in(done));
                assert(sends(state, flow, key, (left - 1) as nat, ask, rest, outcome, end));
                if rest.len() > 0 {
                    lemma_first_and_rest(rest);
                    if rest[0]->Call_0.reply is Ok {
                        let reply = rest[0]->Call_0.reply->Ok_0;
                        let step = choose|step: Step| #[trigger]
                            replied(flow, reply, step) && goes_on(
                                state,
                                key,
                                (left - 1) as nat,
                                reply,
                                step,
                                rest.skip(1),
                                outcome,
                                end,
                            );
                        if state.after_step(reply, step).1 is Ok {
                            lemma_what_counts_is_what_was_recorded_last(
                                state.after_step(reply, step).0,
                                step.0,
                                key,
                                (left - 1) as nat,
                                rest.skip(1),
                                outcome,
                                end,
                            );
                        }
                    }
                }
            },
        }
    }
}

/// The records among what was done are the first thing, when it is one, and
/// those among the rest.
proof fn lemma_first_and_rest(done: Seq<Deed>)
    requires
        done.len() > 0,
    ensures
        records_in(done) == (match done[0] {
            Deed::Record(recorded) => seq![recorded] + records_in(done.skip(1)),
            _ => records_in(done.skip(1)),
        }),
{
    assert(done =~= seq![done[0]] + done.skip(1));
    lemma_stretches_join(seq![done[0]], done.skip(1));
    lemma_one_deed(done[0]);
    match done[0] {
        Deed::Record(_) => {},
        _ => {
            assert(records_in(done) =~= records_in(done.skip(1)));
        },
    }
}

/// An attempt waits only before it reads an order again: one interval each
/// time, and nothing comes between the wait and the request it is for.
pub proof fn lemma_a_wait_comes_right_before_its_request(
    state: DriveView,
    flow: FlowView,
    key: Seq<u8>,
    left: nat,
    done: Seq<Deed>,
    outcome: Result<Seq<char>, FailureView>,
    end: (DriveView, FlowView),
    at: int,
)
    requires
        driven(state, flow, key, left, done, outcome, end),
        0 <= at < done.len(),
        done[at] is Wait,
    ensures
        done[at]->Wait_0.nanos == POLL_NANOS,
        at + 1 < done.len() ==> done[at + 1] is Call,
    decreases left,
{
    match state.turn(flow) {
        TurnView::End(_) => {},
        TurnView::Record(_) => {
            assert(done.skip(1)[at - 1] == done[at]);
            lemma_a_wait_comes_right_before_its_request(
                state.after_turn(flow),
                flow,
                key,
                (left - 1) as nat,
                done.skip(1),
                outcome,
                end,
                at - 1,
            );
            assert(at + 1 < done.len() ==> done.skip(1)[at] == done[at + 1]);
        },
        TurnView::Ask { ask, pause } => {
            let gone: int = if pause {
                1
            } else {
                0
            };
            let rest = if pause {
                done.skip(1)
            } else {
                done
            };
            assert(sends(state, flow, key, (left - 1) as nat, ask, rest, outcome, end));
            assert(rest.len() > 0 ==> rest[0] == done[gone]);
            if at >= gone {
                let reply = rest[0]->Call_0.reply->Ok_0;
                let later = rest.skip(1);
                let step = choose|step: Step| #[trigger]
                    replied(flow, reply, step) && goes_on(
                        state,
                        key,
                        (left - 1) as nat,
                        reply,
                        step,
                        later,
                        outcome,
                        end,
                    );
                assert(later[at - gone - 1] == done[at]);
                lemma_a_wait_comes_right_before_its_request(
                    state.after_step(reply, step).0,
                    step.0,
                    key,
                    (left - 1) as nat,
                    later,
                    outcome,
                    end,
                    at - gone - 1,
                );
                assert(at + 1 < done.len() ==> later[at - gone] == done[at + 1]);
            }
        },
    }
}

/// Whatever happens to an attempt, the last thing its publisher is told leaves
/// the challenge path closed.
pub proof fn lemma_whatever_was_opened_is_closed(
    flow: FlowView,
    key: Seq<u8>,
    done: Seq<Deed>,
    result: Result<Seq<char>, FailureView>,
)
    requires
        runs(flow, key, done, result),
        records_in(done).len() > 0,
    ensures
        records_in(done).last().reached.publication.empty(),
{
    let (outcome, end) = choose|
        outcome: Result<Seq<char>, FailureView>,
        end: (DriveView, FlowView),
    | #[trigger]
        ran(flow, key, done, result, outcome, end);
    if end.0.live.publication.empty() {
        lemma_what_counts_is_what_was_recorded_last(
            beginning(flow),
            flow,
            key,
            MOST_TURNS as nat,
            done,
            outcome,
            end,
        );
    }
}

/// The flow of one attempt: the first takes an order over when there is one,
/// and a retry places a fresh one, because an order that failed is not one to
/// keep reading.
pub fn attempted(
    settings: &AcmeSettings,
    names: &[String],
    thumbprint: &str,
    csr: &str,
    kind: Challenge,
    resume: Option<&str>,
    attempt: u32,
) -> (r: Flow)
    ensures
        r.wf(),
        r@ == FlowView::begun(
            settings.directory_url@,
            texts(names@),
            thumbprint@,
            settings.contact_email@,
            csr@,
            kind,
            if attempt == 1 {
                lent(resume)
            } else {
                None
            },
        ),
{
    if attempt == 1 {
        if let Some(url) = resume {
            return Flow::resume(
                settings.directory_url.as_str(),
                copy_texts(names),
                thumbprint,
                settings.contact_email.as_str(),
                csr,
                kind,
                url,
            );
        }
    }
    Flow::new(
        settings.directory_url.as_str(),
        copy_texts(names),
        thumbprint,
        settings.contact_email.as_str(),
        csr,
        kind,
    )
}

/// What is said when the last attempt failed too.
pub open spec fn worn_out(last: FailureView) -> FailureView {
    failed(
        Reason::TooManyAttempts,
        decimal_text(ATTEMPTS as nat) + " attempts failed, last: "@ + last.written(),
    )
}

/// What is said when the last attempt failed too.
pub fn exhausted(last: &Failure) -> (r: Failure)
    ensures
        r@ == worn_out(last@),
{
    let mut said = decimal(ATTEMPTS as u128);
    said.append(" attempts failed, last: ");
    said.append(last.text().as_str());
    Failure::new(Reason::TooManyAttempts, said)
}

/// What one failed attempt means for the order.
pub enum After {
    /// Another attempt is made.
    Retry,
    /// The order is over.
    Stop(Failure),
}

/// What one failed attempt means for the order: a fault that might pass is
/// tried again until the attempts run out.
pub fn after_attempt(attempt: u32, failure: Failure) -> (r: After)
    ensures
        match r {
            After::Retry => failure@.reason.passes() && attempt < ATTEMPTS,
            After::Stop(last) => if failure@.reason.passes() {
                attempt >= ATTEMPTS && last@ == worn_out(failure@)
            } else {
                last@ == failure@
            },
        },
{
    if !failure.worth_retrying() {
        return After::Stop(failure);
    }
    if attempt >= ATTEMPTS {
        return After::Stop(exhausted(&failure));
    }
    After::Retry
}

/// An order, as it is asked for.
pub struct OrderView {
    pub directory_url: Seq<char>,
    pub contact: Seq<char>,
    pub names: Seq<Seq<char>>,
    pub kind: Challenge,
    /// The thumbprint of the account key.
    pub thumbprint: Seq<char>,
    /// The key the certificate is issued against, when one is pinned.
    pub pinned: Option<Seq<u8>>,
    /// The order to take over, when there is one.
    pub resume: Option<Seq<char>>,
}

impl OrderView {
    /// The flow of one attempt: the first takes an order over when there is
    /// one, and a retry places a fresh one.
    pub open spec fn flow(self, attempt: nat, csr: Seq<char>) -> FlowView {
        FlowView::begun(
            self.directory_url,
            self.names,
            self.thumbprint,
            self.contact,
            csr,
            self.kind,
            if attempt == 1 {
                self.resume
            } else {
                None
            },
        )
    }

    /// Whether this is a signing request for the order, against the pinned
    /// key or else a fresh one.
    pub open spec fn signing(self, der: Seq<u8>, pem: Seq<u8>) -> bool {
        &&& self.names.len() > 0
        &&& subject_der(self.names[0]) is Some
        &&& requests(der, REQUEST_VERSION, subject_der(self.names[0])->0, self.names, pem)
        &&& (self.pinned matches Some(key) ==> pem == key)
        &&& (self.pinned is None ==> point_of(pem) is Some)
    }

    /// Whether this is why there is no signing request: there is no name to
    /// cover, or OpenSSL could not make one.
    pub open spec fn unrequested(self, failure: FailureView) -> bool {
        (self.pinned is None && keyless(failure)) || (if self.names.len() == 0 {
            failure == nameless()
        } else {
            unbuilt(failure)
        })
    }
}

/// What an order produced, apart from how it is held: the chain and its key.
pub open spec fn obtained_seen(outcome: Result<Obtained, Failure>) -> Result<
    (Seq<u8>, Seq<u8>),
    FailureView,
> {
    match outcome {
        Ok(obtained) => Ok((obtained.chain_pem@, obtained.key_pem@)),
        Err(failure) => Err(failure@),
    }
}

/// Whether one attempt, with this signing request, does this and comes to
/// this.
pub open spec fn attempt_made(
    order: OrderView,
    key: Seq<u8>,
    attempt: nat,
    der: Seq<u8>,
    pem: Seq<u8>,
    done: Seq<Deed>,
    outcome: Result<Seq<char>, FailureView>,
) -> bool {
    &&& order.signing(der, pem)
    &&& runs(order.flow(attempt, base64url_text(der)), key, done, outcome)
}

/// Whether an order that goes from one attempt on, does this in this order
/// and nothing else, comes to this.
///
/// The wait before an attempt comes first, when there is one, then a signing
/// request of its own, then the attempt.
pub open spec fn tried(
    order: OrderView,
    key: Seq<u8>,
    attempt: nat,
    done: Seq<Deed>,
    result: Result<(Seq<u8>, Seq<u8>), FailureView>,
) -> bool
    decreases ATTEMPTS + 1 - attempt, 1int,
{
    let waited = wait_secs(attempt) * 1_000_000_000;
    &&& 1 <= attempt <= ATTEMPTS
    &&& if waited > 0 {
        &&& done.len() > 0
        &&& done[0] matches Deed::Wait(wait) && wait.nanos == waited
        &&& tries(order, key, attempt, done.skip(1), result)
    } else {
        tries(order, key, attempt, done, result)
    }
}

/// Whether an order that makes one attempt now, does this in this order and
/// nothing else, comes to this.
pub open spec fn tries(
    order: OrderView,
    key: Seq<u8>,
    attempt: nat,
    done: Seq<Deed>,
    result: Result<(Seq<u8>, Seq<u8>), FailureView>,
) -> bool
    decreases ATTEMPTS + 1 - attempt, 0int,
{
    ||| done.len() == 0 && (result matches Err(failure) && order.unrequested(failure))
    ||| exists|
        der: Seq<u8>,
        pem: Seq<u8>,
        mine: Seq<Deed>,
        outcome: Result<Seq<char>, FailureView>,
    | #[trigger]
        attempt_made(order, key, attempt, der, pem, mine, outcome) && done == mine + since(
            mine,
            done,
        ) && (match outcome {
            Ok(chain) => since(mine, done).len() == 0 && result == Ok::<
                (Seq<u8>, Seq<u8>),
                FailureView,
            >((encode_utf8(chain), pem)),
            Err(failure) => if failure.reason.passes() && attempt < ATTEMPTS {
                tried(order, key, attempt + 1, since(mine, done), result)
            } else {
                since(mine, done).len() == 0 && result == Err::<
                    (Seq<u8>, Seq<u8>),
                    FailureView,
                >(
                    if failure.reason.passes() {
                        worn_out(failure)
                    } else {
                        failure
                    },
                )
            },
        })
}

/// Whether this is the wait before an attempt, when there is one.
pub open spec fn rests_before(attempt: nat, rested: Seq<Deed>) -> bool {
    if wait_secs(attempt) > 0 {
        rested.len() == 1 && (rested[0] matches Deed::Wait(wait) && wait.nanos == wait_secs(attempt)
            * 1_000_000_000)
    } else {
        rested.len() == 0
    }
}

/// One attempt goes before what follows it.
proof fn lemma_tried(
    order: OrderView,
    key: Seq<u8>,
    attempt: nat,
    rested: Seq<Deed>,
    der: Seq<u8>,
    pem: Seq<u8>,
    mine: Seq<Deed>,
    outcome: Result<Seq<char>, FailureView>,
    rest: Seq<Deed>,
    result: Result<(Seq<u8>, Seq<u8>), FailureView>,
)
    requires
        1 <= attempt <= ATTEMPTS,
        rests_before(attempt, rested),
        attempt_made(order, key, attempt, der, pem, mine, outcome),
        match outcome {
            Ok(chain) => rest.len() == 0 && result == Ok::<(Seq<u8>, Seq<u8>), FailureView>(
                (encode_utf8(chain), pem),
            ),
            Err(failure) => if failure.reason.passes() && attempt < ATTEMPTS {
                tried(order, key, attempt + 1, rest, result)
            } else {
                rest.len() == 0 && result == Err::<(Seq<u8>, Seq<u8>), FailureView>(
                    if failure.reason.passes() {
                        worn_out(failure)
                    } else {
                        failure
                    },
                )
            },
        },
    ensures
        tried(order, key, attempt, rested + mine + rest, result),
{
    let done = rested + mine + rest;
    let past = mine + rest;
    assert(wait_secs(attempt) > 0 ==> done.skip(1) =~= past);
    assert(wait_secs(attempt) == 0 ==> done =~= past);
    assert(since(mine, past) =~= rest);
    assert(tries(order, key, attempt, past, result)) by {
        assert(attempt_made(order, key, attempt, der, pem, mine, outcome));
    }
}

/// Whether whatever follows this from one attempt on makes it a whole order.
#[verifier::opaque]
spec fn leads_to(order: OrderView, key: Seq<u8>, attempt: nat, done: Seq<Deed>) -> bool {
    forall|rest: Seq<Deed>, result: Result<(Seq<u8>, Seq<u8>), FailureView>| #[trigger]
        tried(order, key, attempt, rest, result) ==> tried(order, key, 1, done + rest, result)
}

proof fn lemma_an_order_begins(order: OrderView, key: Seq<u8>)
    ensures
        leads_to(order, key, 1, seq![]),
{
    reveal(leads_to);
    let none: Seq<Deed> = seq![];
    assert forall|rest: Seq<Deed>, result: Result<(Seq<u8>, Seq<u8>), FailureView>| #[trigger]
        tried(order, key, 1, rest, result) implies tried(order, key, 1, none + rest, result) by {
        assert(none + rest =~= rest);
    }
}

proof fn lemma_an_order_goes_on(
    order: OrderView,
    key: Seq<u8>,
    attempt: nat,
    done: Seq<Deed>,
    rested: Seq<Deed>,
    der: Seq<u8>,
    pem: Seq<u8>,
    mine: Seq<Deed>,
    failure: FailureView,
)
    requires
        1 <= attempt < ATTEMPTS,
        leads_to(order, key, attempt, done),
        rests_before(attempt, rested),
        attempt_made(order, key, attempt, der, pem, mine, Err(failure)),
        failure.reason.passes(),
    ensures
        leads_to(order, key, attempt + 1, done + rested + mine),
{
    reveal(leads_to);
    assert forall|rest: Seq<Deed>, result: Result<(Seq<u8>, Seq<u8>), FailureView>| #[trigger]
        tried(order, key, attempt + 1, rest, result) implies tried(
        order,
        key,
        1,
        done + rested + mine + rest,
        result,
    ) by {
        lemma_tried(order, key, attempt, rested, der, pem, mine, Err(failure), rest, result);
        assert(done + rested + mine + rest =~= done + (rested + mine + rest));
    }
}

proof fn lemma_an_order_ends(
    order: OrderView,
    key: Seq<u8>,
    attempt: nat,
    done: Seq<Deed>,
    rest: Seq<Deed>,
    result: Result<(Seq<u8>, Seq<u8>), FailureView>,
)
    requires
        leads_to(order, key, attempt, done),
        tried(order, key, attempt, rest, result),
    ensures
        tried(order, key, 1, done + rest, result),
{
    reveal(leads_to);
}

/// An order for which there is no signing request ends at once.
proof fn lemma_unrequested(
    order: OrderView,
    key: Seq<u8>,
    attempt: nat,
    rested: Seq<Deed>,
    failure: FailureView,
)
    requires
        1 <= attempt <= ATTEMPTS,
        rests_before(attempt, rested),
        order.unrequested(failure),
    ensures
        tried(order, key, attempt, rested, Err::<(Seq<u8>, Seq<u8>), FailureView>(failure)),
{
    let past = if wait_secs(attempt) > 0 {
        rested.skip(1)
    } else {
        rested
    };
    assert(past.len() == 0);
    assert(tries(order, key, attempt, past, Err::<(Seq<u8>, Seq<u8>), FailureView>(failure)));
}

/// Whether an order that does this, in this order and nothing else, comes to
/// this. One
/// whose account key has no thumbprint is not tried at all.
pub open spec fn obtains(
    order: OrderView,
    key: Seq<u8>,
    done: Seq<Deed>,
    result: Result<(Seq<u8>, Seq<u8>), FailureView>,
) -> bool {
    ||| done.len() == 0 && (result matches Err(failure) && (undigested(failure) || (point_of(
        key,
    ) is None && pointless(failure))))
    ||| tried(order, key, 1, done, result)
}

/// The order that is asked for by these.
pub open spec fn ordered(
    settings: AcmeSettings,
    key: Seq<u8>,
    names: Seq<Seq<char>>,
    kind: Challenge,
    plan: Plan<'_>,
) -> OrderView {
    OrderView {
        directory_url: settings.directory_url@,
        contact: settings.contact_email@,
        names,
        kind,
        thumbprint: digest_text(jwk_text(point_of(key)->0)),
        pinned: match plan.key {
            Some(key) => Some(key.stored()),
            None => None,
        },
        resume: lent(plan.resume),
    }
}

/// Obtains a certificate the way the plan says, over a transport somebody
/// else built.
///
/// The attempt count and the waits are fixed: the allowance being spent
/// belongs to the ACME server. Whatever the server answers, what comes back
/// is a chain with the key it was issued against, which is the one the plan
/// pins when it pins one; or a failure that another order right now would not
/// mend.
pub fn obtain_planned_over<T: Transport, R: Record, P: Pause>(
    settings: &AcmeSettings,
    account: &Account,
    names: &[String],
    kind: Challenge,
    plan: Plan<'_>,
    transport: &mut T,
    record: &mut R,
    pause: &mut P,
    ledger: &mut Ledger,
) -> (r: Result<Obtained, Failure>)
    requires
        countable(texts(names@)),
    ensures
        match r {
            Ok(obtained) => {
                &&& names@.len() > 0
                &&& (plan.key matches Some(key) ==> obtained.key_pem@ == key.stored())
                &&& (plan.key is None ==> point_of(obtained.key_pem@) is Some)
            },
            Err(failure) => !failure@.reason.passes(),
        },
        ({
            let done = since(old(ledger)@, final(ledger)@);
            let order = ordered(*settings, account.stored(), texts(names@), kind, plan);
            &&& final(ledger)@ == old(ledger)@ + done
            &&& logs(*final(transport), *final(record), *final(pause)) == logs(
                *old(transport),
                *old(record),
                *old(pause),
            ).after(done)
            &&& obtains(order, account.stored(), done, obtained_seen(r))
        }),
{
    let ghost key = account.stored();
    let ghost first = logs(*transport, *record, *pause);
    let ghost before = ledger@;
    let ghost none: Seq<Deed> = seq![];
    let ghost mut done = none;
    proof {
        lemma_logs_join(first, done, none);
        assert(before + done =~= before);
        assert(since(before, before) =~= none);
    }
    let thumb = thumbprint(account)?;
    let ghost order = ordered(*settings, key, texts(names@), kind, plan);
    let mut attempt: u32 = 1;
    proof {
        lemma_an_order_begins(order, key);
    }
    loop
        invariant
            1 <= attempt <= ATTEMPTS,
            countable(texts(names@)),
            key == account.stored(),
            none == Seq::<Deed>::empty(),
            thumb@ == order.thumbprint,
            order == ordered(*settings, key, texts(names@), kind, plan),
            first == logs(*old(transport), *old(record), *old(pause)),
            before == old(ledger)@,
            ledger@ == before + done,
            logs(*transport, *record, *pause) == first.after(done),
            leads_to(order, key, attempt as nat, done),
        decreases ATTEMPTS - attempt,
    {
        let ghost mut rested = none;
        if let Some(wait) = wait_before(attempt) {
            if wait.nanos > 0 {
                ledger.wait(pause, wait);
                proof {
                    rested = seq![Deed::Wait(wait)];
                    lemma_logs_grow(first, done, Deed::Wait(wait));
                }
            }
        }
        let ghost begun = done + rested;
        proof {
            assert(rested.len() == 0 ==> begun =~= done);
            assert(logs(*transport, *record, *pause) == first.after(begun));
            assert(ledger@ =~= before + begun);
            assert(since(before, before + begun) =~= begun);
            assert(rests_before(attempt as nat, rested));
        }
        // A fresh signing request per attempt, unless the caller pinned a
        // key: a key that took part in a failed exchange is not one to keep
        // serving.
        let made = match plan.key {
            Some(key) => request_with(names, key.copy()),
            None => request(names),
        };
        let signing = match made {
            Ok(signing) => signing,
            Err(failure) => {
                proof {
                    let result = Err::<(Seq<u8>, Seq<u8>), FailureView>(failure@);
                    lemma_unrequested(order, key, attempt as nat, rested, failure@);
                    lemma_an_order_ends(order, key, attempt as nat, done, rested, result);
                }
                return Err(failure);
            },
        };
        let encoded = signing.encoded();
        let mut flow = attempted(
            settings,
            names,
            thumb.as_str(),
            encoded.as_str(),
            kind,
            plan.resume,
            attempt,
        );
        let ghost earlier = ledger@;
        let outcome = run(&mut flow, account, transport, record, pause, ledger);
        let ghost mine = since(earlier, ledger@);
        let ghost now = begun + mine;
        let ghost seen = chain_seen(outcome);
        let ghost next: nat = (attempt + 1) as nat;
        proof {
            lemma_logs_join(first, begun, mine);
            assert(ledger@ =~= before + now);
            assert(since(before, before + now) =~= now);
            assert(attempt_made(
                order,
                key,
                attempt as nat,
                signing.der@,
                signing.key.stored(),
                mine,
                seen,
            ));
        }
        match outcome {
            Ok(chain) => {
                let key_pem = signing.key_pem()?;
                let obtained = Obtained {
                    chain_pem: vstd::slice::slice_to_vec(chain.as_str().as_bytes()),
                    key_pem,
                };
                proof {
                    lemma_tried(
                        order,
                        key,
                        attempt as nat,
                        rested,
                        signing.der@,
                        signing.key.stored(),
                        mine,
                        seen,
                        none,
                        obtained_seen(Ok(obtained)),
                    );
                    assert(rested + mine + none =~= rested + mine);
                    assert(now =~= done + (rested + mine));
                    lemma_an_order_ends(
                        order,
                        key,
                        attempt as nat,
                        done,
                        rested + mine,
                        obtained_seen(Ok(obtained)),
                    );
                }
                return Ok(obtained);
            },
            Err(failure) => match after_attempt(attempt, failure) {
                After::Retry => {
                    proof {
                        lemma_an_order_goes_on(
                            order,
                            key,
                            attempt as nat,
                            done,
                            rested,
                            signing.der@,
                            signing.key.stored(),
                            mine,
                            seen->Err_0,
                        );
                        done = now;
                    }
                },
                After::Stop(last) => {
                    proof {
                        lemma_tried(
                            order,
                            key,
                            attempt as nat,
                            rested,
                            signing.der@,
                            signing.key.stored(),
                            mine,
                            seen,
                            none,
                            Err(last@),
                        );
                        assert(rested + mine + none =~= rested + mine);
                        assert(now =~= done + (rested + mine));
                        lemma_an_order_ends(
                            order,
                            key,
                            attempt as nat,
                            done,
                            rested + mine,
                            Err(last@),
                        );
                    }
                    return Err(last);
                },
            },
        }
        attempt += 1;
        assert(attempt as nat == next);
    }
}

/// Obtains a certificate over a transport somebody else built.
pub fn obtain_over<T: Transport, R: Record, P: Pause>(
    settings: &AcmeSettings,
    account: &Account,
    names: &[String],
    kind: Challenge,
    transport: &mut T,
    record: &mut R,
    pause: &mut P,
    ledger: &mut Ledger,
) -> (r: Result<Obtained, Failure>)
    requires
        countable(texts(names@)),
    ensures
        match r {
            Ok(obtained) => names@.len() > 0 && point_of(obtained.key_pem@) is Some,
            Err(failure) => !failure@.reason.passes(),
        },
        ({
            let done = since(old(ledger)@, final(ledger)@);
            let order = ordered(
                *settings,
                account.stored(),
                texts(names@),
                kind,
                Plan { key: None, resume: None },
            );
            &&& final(ledger)@ == old(ledger)@ + done
            &&& logs(*final(transport), *final(record), *final(pause)) == logs(
                *old(transport),
                *old(record),
                *old(pause),
            ).after(done)
            &&& obtains(order, account.stored(), done, obtained_seen(r))
        }),
{
    let plan = Plan::default();
    obtain_planned_over(settings, account, names, kind, plan, transport, record, pause, ledger)
}

/// However many attempts an order takes and however they end, the last thing
/// its publisher is told leaves the challenge path closed.
pub proof fn lemma_an_order_leaves_nothing_open(
    order: OrderView,
    key: Seq<u8>,
    attempt: nat,
    done: Seq<Deed>,
    result: Result<(Seq<u8>, Seq<u8>), FailureView>,
)
    requires
        tried(order, key, attempt, done, result),
        records_in(done).len() > 0,
    ensures
        records_in(done).last().reached.publication.empty(),
    decreases ATTEMPTS + 1 - attempt,
{
    let past = if wait_secs(attempt) > 0 {
        lemma_first_and_rest(done);
        done.skip(1)
    } else {
        done
    };
    assert(tries(order, key, attempt, past, result));
    assert(records_in(past) == records_in(done));
    assert(past.len() > 0);
    let (der, pem, mine, outcome) = choose|
        der: Seq<u8>,
        pem: Seq<u8>,
        mine: Seq<Deed>,
        outcome: Result<Seq<char>, FailureView>,
    | #[trigger]
        attempt_made(order, key, attempt, der, pem, mine, outcome) && past == mine + since(
            mine,
            past,
        ) && (match outcome {
            Ok(_) => since(mine, past).len() == 0,
            Err(failure) => if failure.reason.passes() && attempt < ATTEMPTS {
                tried(order, key, attempt + 1, since(mine, past), result)
            } else {
                since(mine, past).len() == 0
            },
        });
    let rest = since(mine, past);
    lemma_stretches_join(mine, rest);
    if records_in(rest).len() > 0 {
        lemma_an_order_leaves_nothing_open(order, key, attempt + 1, rest, result);
        assert(records_in(past).last() == records_in(rest).last());
    } else {
        assert(records_in(past) =~= records_in(mine));
        lemma_whatever_was_opened_is_closed(
            order.flow(attempt, base64url_text(der)),
            key,
            mine,
            outcome,
        );
    }
}

/// Nothing is asked before what was reached is recorded: the answer is up
/// before the server is told to read it, and the address of an order is
/// written down before the step that can lose it.
pub proof fn lemma_an_ask_goes_out_only_once_recorded(state: DriveView, flow: FlowView)
    ensures
        state.turn(flow) is Ask ==> state.live == reached(flow),
        state.turn(flow) is Record ==> !(state.after_turn(flow).turn(flow) is Record),
{
}

/// An order that is taken over records nothing before it has an answer to
/// publish: whatever the server answers up to the first authorization leaves
/// what was reached as it was.
pub proof fn lemma_a_take_over_records_nothing_before_its_answer(
    state: DriveView,
    flow: FlowView,
    status: u16,
    body: Seq<char>,
    location: Option<Seq<char>>,
    said: DocumentView,
    digest: Result<Seq<char>, FailureView>,
)
    requires
        flow.wf(),
        flow.resumed,
        flow.stage == Stage::Directory || flow.stage == Stage::Nonce || flow.stage
            == Stage::Account || flow.stage == Stage::Resume,
        state.live == reached(flow),
    ensures
        ({
            let after = flow.after(status, body, location, said, digest).0;
            &&& reached(after) == state.live
            &&& after.resumed
            &&& after.stage != Stage::Order
            &&& !(state.turn(after) is Record)
        }),
{
}

/// A server that rejects every nonce ends the attempt: after as many as are
/// put up with, one more is a fault that is worth another attempt.
pub proof fn lemma_rejected_nonces_run_out(state: DriveView, nonce: Option<Seq<char>>)
    requires
        state.rejected == MOST_NONCE_RETRIES,
    ensures
        state.after_reply(nonce, Progress::Again).1 matches Err(failure) && failure.reason
            == Reason::Server && failure.reason.passes(),
{
}

/// What closes an order leaves nothing published and keeps its address.
pub proof fn lemma_closing_takes_everything_away(live: ReachedView)
    ensures
        live.closed().publication.empty(),
        live.closed().order_url == live.order_url,
{
}

/// An attempt waits a second before it reads an order again, and before
/// nothing else.
pub proof fn lemma_only_an_order_is_waited_for(state: DriveView, flow: FlowView)
    ensures
        state.turn(flow) matches TurnView::Ask { ask, pause } ==> (pause <==> flow.stage
            == Stage::Poll) && flow.asks() == Some(ask),
        state.turn(flow) is End <==> flow.asks() is None,
        POLL_NANOS == 1_000_000_000,
{
}

/// Up to five nonces in a row may be rejected, each answered with the one the
/// rejection carried; a sixth, or one without a replacement, ends the
/// attempt; and any other answer starts the count over.
pub proof fn lemma_five_rejected_nonces_are_put_up_with(
    state: DriveView,
    nonce: Option<Seq<char>>,
)
    ensures
        state.rejected < 5 && nonce is Some ==> state.after_reply(nonce, Progress::Again) == (
            DriveView { nonce, rejected: (state.rejected + 1) as u32, ..state },
            Ok::<(), FailureView>(()),
        ),
        state.rejected >= 5 ==> (state.after_reply(nonce, Progress::Again).1 matches Err(failure)
            && failure.reason == Reason::Server),
        state.rejected < 5 && nonce is None ==> (state.after_reply(
            nonce,
            Progress::Again,
        ).1 matches Err(failure) && failure.reason == Reason::Protocol),
        state.after_reply(nonce, Progress::Moved) == (
            DriveView { nonce, rejected: 0, ..state },
            Ok::<(), FailureView>(()),
        ),
{
}

/// A nonce is used once: whatever a reply did, the nonce it carried is the
/// one for the next request, and where it carried none there is none.
pub proof fn lemma_a_nonce_is_used_once(state: DriveView, reply: ReplyView, step: Step)
    ensures
        state.after_step(reply, step).0.nonce == reply.nonce,
        state.after_step(reply, step).0.live == state.live,
        step.1 matches Err(failure) ==> state.after_step(reply, step).1 == Err::<(), FailureView>(
            failure,
        ),
{
}

/// What goes out is what was to be asked: a read as it is, and anything else
/// signed for its address, with the nonce of the last reply and as the
/// account the flow knows; and only what has to be signed can fail to go out.
pub proof fn lemma_what_goes_out_is_what_was_asked(
    called: Called,
    state: DriveView,
    flow: FlowView,
    key: Seq<u8>,
    ask: AskView,
    failure: FailureView,
)
    ensures
        is_sent(called, state, flow, key, ask) ==> called.url == ask.to(),
        is_sent(called, state, flow, key, ask) && ask is Read ==> called.body is None,
        is_sent(called, state, flow, key, ask) ==> (ask matches AskView::Send {
            url,
            payload,
            identify,
        } ==> state.nonce is Some && called.body is Some && signs(
            called.body->0,
            key,
            identify,
            flow.account,
            url,
            state.nonce->0,
            payload,
        )),
        unsent(failure, state, flow, ask) ==> ask is Send,
        ask is Send && state.nonce is None && unsent(failure, state, flow, ask) ==> failure.reason
            == Reason::Protocol,
{
}

/// An attempt succeeds only when the order did and its path was closed; and
/// of two faults the one that came first is what comes back.
pub proof fn lemma_success_needs_both(
    outcome: Result<Seq<char>, FailureView>,
    closed: Result<(), FailureView>,
)
    ensures
        concluded(outcome, closed) is Ok <==> outcome is Ok && closed is Ok,
        outcome is Ok && closed is Ok ==> concluded(outcome, closed) == outcome,
        outcome matches Err(failure) ==> concluded(outcome, closed) == Err::<
            Seq<char>,
            FailureView,
        >(failure),
        outcome is Ok ==> (closed matches Err(failure) ==> concluded(outcome, closed) == Err::<
            Seq<char>,
            FailureView,
        >(failure)),
{
}

/// Only the first attempt takes an order over; every other places one afresh.
/// Each asks the same server for the same names, with a request of its own.
pub proof fn lemma_a_retry_places_an_order_afresh(
    order: OrderView,
    attempt: nat,
    csr: Seq<char>,
)
    ensures
        ({
            let flow = order.flow(attempt, csr);
            &&& flow.stage == Stage::Directory
            &&& flow.directory_url == order.directory_url
            &&& flow.names == order.names
            &&& flow.thumbprint == order.thumbprint
            &&& flow.contact == order.contact
            &&& flow.kind == order.kind
            &&& flow.csr == csr
            &&& attempt == 1 ==> flow.order == order.resume && flow.resumed == (order.resume is Some)
            &&& attempt != 1 ==> flow.order is None && !flow.resumed
            &&& flow.published.empty()
            &&& flow.waiting.len() == 0
            &&& flow.polls == 0
        }),
{
}

/// What comes back from an order is never worth another attempt: whatever
/// was, was attempted again until the attempts ran out.
#[verifier::spinoff_prover]
#[verifier::rlimit(40)]
pub proof fn lemma_an_order_is_attempted_until_it_cannot_pass(
    order: OrderView,
    key: Seq<u8>,
    attempt: nat,
    done: Seq<Deed>,
    failure: FailureView,
)
    requires
        tried(order, key, attempt, done, Err::<(Seq<u8>, Seq<u8>), FailureView>(failure)),
    ensures
        !failure.reason.passes(),
        1 <= attempt <= 5,
    decreases ATTEMPTS + 1 - attempt,
{
    let result = Err::<(Seq<u8>, Seq<u8>), FailureView>(failure);
    let past = if wait_secs(attempt) > 0 {
        done.skip(1)
    } else {
        done
    };
    assert(tries(order, key, attempt, past, result));
    if !(past.len() == 0 && order.unrequested(failure)) {
        let (der, pem, mine, outcome) = choose|
            der: Seq<u8>,
            pem: Seq<u8>,
            mine: Seq<Deed>,
            outcome: Result<Seq<char>, FailureView>,
        | #[trigger]
            attempt_made(order, key, attempt, der, pem, mine, outcome) && past == mine + since(
                mine,
                past,
            ) && (match outcome {
                Ok(chain) => since(mine, past).len() == 0 && result == Ok::<
                    (Seq<u8>, Seq<u8>),
                    FailureView,
                >((encode_utf8(chain), pem)),
                Err(failure) => if failure.reason.passes() && attempt < ATTEMPTS {
                    tried(order, key, attempt + 1, since(mine, past), result)
                } else {
                    since(mine, past).len() == 0 && result == Err::<
                        (Seq<u8>, Seq<u8>),
                        FailureView,
                    >(
                        if failure.reason.passes() {
                            worn_out(failure)
                        } else {
                            failure
                        },
                    )
                },
            });
        if outcome is Err && outcome->Err_0.reason.passes() && attempt < ATTEMPTS {
            lemma_an_order_is_attempted_until_it_cannot_pass(
                order,
                key,
                attempt + 1,
                since(mine, past),
                failure,
            );
        }
    }
}

/// The key that comes back with a chain is the one the order was pinned to,
/// where it was; and the request it was issued for covers the order's names
/// with that key.
#[verifier::spinoff_prover]
#[verifier::rlimit(40)]
pub proof fn lemma_the_key_that_comes_back_is_the_pinned_one(
    order: OrderView,
    key: Seq<u8>,
    attempt: nat,
    done: Seq<Deed>,
    chain: Seq<u8>,
    pem: Seq<u8>,
)
    requires
        tried(order, key, attempt, done, Ok::<(Seq<u8>, Seq<u8>), FailureView>((chain, pem))),
    ensures
        order.pinned matches Some(pinned) ==> pem == pinned,
        order.names.len() > 0,
        exists|der: Seq<u8>| #[trigger] order.signing(der, pem),
    decreases ATTEMPTS + 1 - attempt,
{
    let result = Ok::<(Seq<u8>, Seq<u8>), FailureView>((chain, pem));
    let past = if wait_secs(attempt) > 0 {
        done.skip(1)
    } else {
        done
    };
    assert(tries(order, key, attempt, past, result));
    let (der, its, mine, outcome) = choose|
        der: Seq<u8>,
        pem: Seq<u8>,
        mine: Seq<Deed>,
        outcome: Result<Seq<char>, FailureView>,
    | #[trigger]
        attempt_made(order, key, attempt, der, pem, mine, outcome) && past == mine + since(
            mine,
            past,
        ) && (match outcome {
            Ok(chain) => since(mine, past).len() == 0 && result == Ok::<
                (Seq<u8>, Seq<u8>),
                FailureView,
            >((encode_utf8(chain), pem)),
            Err(failure) => if failure.reason.passes() && attempt < ATTEMPTS {
                tried(order, key, attempt + 1, since(mine, past), result)
            } else {
                since(mine, past).len() == 0 && result == Err::<
                    (Seq<u8>, Seq<u8>),
                    FailureView,
                >(
                    if failure.reason.passes() {
                        worn_out(failure)
                    } else {
                        failure
                    },
                )
            },
        });
    if outcome is Ok {
        assert(order.signing(der, pem));
    } else {
        lemma_the_key_that_comes_back_is_the_pinned_one(
            order,
            key,
            attempt + 1,
            since(mine, past),
            chain,
            pem,
        );
    }
}

/// A retry begins with its wait: a minute before the second attempt, and
/// twice as long before each one after it, up to eight minutes before the
/// fifth, which is the last.
pub proof fn lemma_a_retry_begins_with_its_wait(
    order: OrderView,
    key: Seq<u8>,
    attempt: nat,
    done: Seq<Deed>,
    result: Result<(Seq<u8>, Seq<u8>), FailureView>,
)
    requires
        tried(order, key, attempt, done, result),
    ensures
        1 <= attempt <= 5,
        attempt >= 2 ==> done.len() > 0 && (done[0] matches Deed::Wait(wait) && wait.nanos == (
        if attempt == 2 {
            60_000_000_000
        } else if attempt == 3 {
            120_000_000_000
        } else if attempt == 4 {
            240_000_000_000
        } else {
            480_000_000_000int
        })),
{
    reveal_with_fuel(crate::tls::attempt::doubled, 4);
}

/// An order asks the server and for the contact it is configured with, for
/// the names it was given, with the fingerprint of the account's own key; it
/// is pinned to the key the plan holds and takes over the order the plan
/// names, where it does.
pub proof fn lemma_an_order_is_what_was_asked_for(
    settings: AcmeSettings,
    key: Seq<u8>,
    names: Seq<Seq<char>>,
    kind: Challenge,
    plan: Plan<'_>,
)
    ensures
        ({
            let order = ordered(settings, key, names, kind, plan);
            &&& order.directory_url == settings.directory_url@
            &&& order.contact == settings.contact_email@
            &&& order.names == names
            &&& order.kind == kind
            &&& point_of(key) matches Some(point) ==> order.thumbprint == digest_text(
                jwk_text(point),
            )
            &&& (plan.key matches Some(held) ==> order.pinned == Some(held.stored()))
            &&& (plan.key is None ==> order.pinned is None)
            &&& (plan.resume matches Some(url) ==> order.resume == Some(url@))
            &&& (plan.resume is None ==> order.resume is None)
        }),
{
}

/// What is said when the attempts are used up names how many there were and
/// what the last one came to, and is itself not worth another attempt.
pub proof fn lemma_the_last_failure_is_told(last: FailureView)
    ensures
        worn_out(last).reason == Reason::TooManyAttempts,
        !worn_out(last).reason.passes(),
        worn_out(last).detail == "5"@ + " attempts failed, last: "@ + last.reason.named() + ": "@
            + last.detail,
{
    reveal_strlit("5");
    reveal_with_fuel(decimal_text, 2);
    assert(decimal_text(5) =~= "5"@);
    assert(worn_out(last).detail =~= "5"@ + " attempts failed, last: "@ + last.reason.named()
        + ": "@ + last.detail);
}

/// What an attempt has reached is the address of its order and what it has
/// published; and it begins with what its flow has reached, no nonce and
/// nothing rejected.
pub proof fn lemma_what_an_attempt_begins_with(flow: FlowView)
    ensures
        reached(flow).order_url == flow.order,
        reached(flow).publication == flow.published,
        beginning(flow).live == reached(flow),
        beginning(flow).nonce is None,
        beginning(flow).rejected == 0,
        !(beginning(flow).turn(flow) is Record),
{
}

/// An attempt that has nothing more to ask ends with the chain its flow
/// collected, and without one with a fault worth another attempt.
pub proof fn lemma_an_attempt_ends_when_nothing_is_asked(state: DriveView, flow: FlowView)
    requires
        flow.asks() is None,
    ensures
        flow.chain matches Some(chain) ==> state.turn(flow) == TurnView::End(Ok(chain)),
        flow.chain is None ==> (state.turn(flow) matches TurnView::End(Err(failure))
            && failure.reason == Reason::Protocol && failure.reason.passes()),
        state.after_turn(flow) == state,
{
}

} // verus!
