//! Whether this node can still reach the way out, and what to do when it
//! cannot.
//!
//! A node cut off from its gateway carries the virtual address to nowhere.
//! The peers are on the same segment and still answer, so the node asks the
//! gateway directly, and gives the address up when the answer stops coming.
//!
//! ICMP is blocked outright in some networks, so the check counts nothing
//! until the gateway has answered at least once.

use vstd::prelude::*;

use crate::net::{IpAddr, IpView};
use crate::time::{Duration, Instant};
use crate::vrrp::address::seen;

verus! {

/// How often the gateway is asked, by default, in milliseconds.
pub const INTERVAL: u64 = 2_000;

/// How many answers have to go missing in a row before the node stands down.
pub const THRESHOLD: u32 = 3;

/// Where the gateway check stands.
#[derive(Clone, Copy, Debug, PartialEq, Eq, Structural)]
pub enum Health {
    /// The machine has no default route, so there is nothing to ask.
    NoGateway,
    /// The gateway has never answered, so nothing is counted against it yet.
    Unconfirmed,
    /// The gateway answered the last question.
    Reachable,
    /// The gateway answered before and has now missed the threshold.
    Lost,
}

impl Health {
    /// The name this state is written under.
    pub open spec fn named(self) -> Seq<char> {
        match self {
            Health::NoGateway => "no_gateway"@,
            Health::Unconfirmed => "unconfirmed"@,
            Health::Reachable => "reachable"@,
            Health::Lost => "lost"@,
        }
    }

    /// The name this state is written under.
    pub fn name(self) -> (r: &'static str)
        ensures
            r@ == self.named(),
    {
        match self {
            Health::NoGateway => "no_gateway",
            Health::Unconfirmed => "unconfirmed",
            Health::Reachable => "reachable",
            Health::Lost => "lost",
        }
    }
}

/// What the caller has to do about the virtual router.
#[derive(Clone, Copy, Debug, PartialEq, Eq, Structural)]
pub enum Effect {
    /// Lower this node's claim, so a node that still has a way out takes over.
    Demote,
    /// Put the claim back where the configuration had it.
    Restore,
}

/// Where a check stands.
pub struct WatchView {
    pub gateway: Option<IpView>,
    pub interval: Duration,
    pub threshold: u32,
    /// Whether the gateway has ever answered.
    pub answered_once: bool,
    /// How many answers have gone missing since the last one that arrived.
    pub missing: u32,
    /// Whether the claim is currently lowered.
    pub lowered: bool,
    /// When the next question is due.
    pub due_at: Option<Instant>,
}

impl WatchView {
    /// Nothing is counted, and nothing is lowered, before an answer.
    pub open spec fn wf(self) -> bool {
        &&& self.interval.wf()
        &&& (self.missing > 0 || self.lowered ==> self.answered_once && self.gateway is Some)
        &&& (self.lowered ==> self.missing >= self.threshold)
    }

    pub open spec fn health(self) -> Health {
        if self.gateway is None {
            Health::NoGateway
        } else if !self.answered_once {
            Health::Unconfirmed
        } else if self.lowered {
            Health::Lost
        } else {
            Health::Reachable
        }
    }

    /// Whether a question is due: the first at once, the rest an interval
    /// apart.
    pub open spec fn is_due(self, now: Instant) -> bool {
        self.gateway is Some && match self.due_at {
            None => true,
            Some(due) => now.nanos >= due.nanos,
        }
    }

    /// Having asked, when a question was due.
    pub open spec fn asked(self, now: Instant) -> WatchView {
        if self.is_due(now) {
            WatchView { due_at: Some(now.later(self.interval)), ..self }
        } else {
            self
        }
    }

    /// Having heard an answer.
    pub open spec fn after_answer(self) -> WatchView {
        WatchView { answered_once: true, missing: 0, lowered: false, ..self }
    }

    /// Having counted a question nobody answered.
    pub open spec fn after_miss(self) -> WatchView {
        if self.gateway is None || !self.answered_once {
            self
        } else {
            let missing = if self.missing == u32::MAX {
                u32::MAX
            } else {
                (self.missing + 1) as u32
            };
            WatchView { missing, lowered: self.lowered || missing >= self.threshold, ..self }
        }
    }

    /// Whether a miss lowers the claim.
    pub open spec fn miss_lowers(self) -> bool {
        !self.lowered && self.after_miss().lowered
    }
}

/// The gateway check on one node.
pub struct Watch {
    gateway: Option<IpAddr>,
    interval: Duration,
    threshold: u32,
    answered_once: bool,
    missing: u32,
    lowered: bool,
    due_at: Option<Instant>,
}

impl View for Watch {
    type V = WatchView;

    closed spec fn view(&self) -> WatchView {
        WatchView {
            gateway: seen(self.gateway),
            interval: self.interval,
            threshold: self.threshold,
            answered_once: self.answered_once,
            missing: self.missing,
            lowered: self.lowered,
            due_at: self.due_at,
        }
    }
}

impl Watch {
    /// A check on one gateway, or on nothing when the machine has no default
    /// route.
    pub fn new(gateway: Option<IpAddr>, interval: Duration, threshold: u32) -> (r: Self)
        ensures
            r@ == (WatchView {
                gateway: seen(gateway),
                interval,
                threshold,
                answered_once: false,
                missing: 0,
                lowered: false,
                due_at: None,
            }),
            interval.wf() ==> r@.wf(),
    {
        Watch {
            gateway,
            interval,
            threshold,
            answered_once: false,
            missing: 0,
            lowered: false,
            due_at: None,
        }
    }

    /// Where the check stands.
    pub fn health(&self) -> (r: Health)
        ensures
            r == self@.health(),
    {
        if self.gateway.is_none() {
            return Health::NoGateway;
        }
        if !self.answered_once {
            return Health::Unconfirmed;
        }
        if self.lowered {
            return Health::Lost;
        }
        Health::Reachable
    }

    /// The gateway being watched, when there is one.
    pub fn gateway(&self) -> (r: Option<IpAddr>)
        ensures
            seen(r) == self@.gateway,
    {
        self.gateway
    }

    /// How many answers have gone missing since the last one that arrived.
    pub fn missing(&self) -> (r: u32)
        ensures
            r == self@.missing,
    {
        self.missing
    }

    /// The address to ask, when a question is due.
    ///
    /// Asking schedules the next question, so a caller that calls this every
    /// millisecond still sends one packet per interval.
    pub fn due(&mut self, now: Instant) -> (r: Option<IpAddr>)
        requires
            old(self)@.interval.wf(),
            now.wf(),
        ensures
            final(self)@ == old(self)@.asked(now),
            old(self)@.wf() ==> final(self)@.wf(),
            seen(r) == (if old(self)@.is_due(now) {
                old(self)@.gateway
            } else {
                None
            }),
    {
        let gateway = match self.gateway {
            Some(gateway) => gateway,
            None => {
                return None;
            },
        };
        let due = match self.due_at {
            None => true,
            Some(due) => now.nanos >= due.nanos,
        };
        if !due {
            return None;
        }
        self.due_at = Some(now.after(self.interval));
        Some(gateway)
    }

    /// Takes an answer that arrived.
    ///
    /// Returns [`Effect::Restore`] when this ends a spell of silence that
    /// had already lowered the claim.
    pub fn answered(&mut self) -> (r: Option<Effect>)
        ensures
            final(self)@ == old(self)@.after_answer(),
            old(self)@.wf() ==> final(self)@.wf(),
            r == (if old(self)@.lowered {
                Some(Effect::Restore)
            } else {
                None
            }),
    {
        self.answered_once = true;
        self.missing = 0;
        if self.lowered {
            self.lowered = false;
            return Some(Effect::Restore);
        }
        None
    }

    /// Takes a question that went unanswered.
    ///
    /// Returns [`Effect::Demote`] on the one that reaches the threshold, and
    /// nothing on the ones before it and after it.
    pub fn missed(&mut self) -> (r: Option<Effect>)
        ensures
            final(self)@ == old(self)@.after_miss(),
            old(self)@.wf() ==> final(self)@.wf(),
            r == (if old(self)@.miss_lowers() {
                Some(Effect::Demote)
            } else {
                None
            }),
    {
        if self.gateway.is_none() || !self.answered_once {
            return None;
        }
        self.missing = self.missing.saturating_add(1);
        if self.lowered || self.missing < self.threshold {
            return None;
        }
        self.lowered = true;
        Some(Effect::Demote)
    }
}

/// So many questions unanswered, one after the other.
pub open spec fn after_misses(watch: WatchView, count: nat) -> WatchView
    decreases count,
{
    if count == 0 {
        watch
    } else {
        after_misses(watch, (count - 1) as nat).after_miss()
    }
}

/// A gateway that never answered never lowers the claim, however often it
/// stays silent: a network that blocks ICMP moves no address.
pub proof fn lemma_an_unconfirmed_gateway_moves_nothing(watch: WatchView, count: nat)
    requires
        watch.gateway is None || !watch.answered_once,
    ensures
        after_misses(watch, count) == watch,
        !watch.miss_lowers(),
    decreases count,
{
    if count > 0 {
        lemma_an_unconfirmed_gateway_moves_nothing(watch, (count - 1) as nat);
    }
}

/// After an answer the claim is lowered by exactly the miss that reaches the
/// threshold: not by one before it and not by one after it.
pub proof fn lemma_the_threshold_lowers_once(watch: WatchView, count: nat)
    requires
        watch.gateway is Some,
        watch.threshold > 0,
        count < u32::MAX,
    ensures
        after_misses(watch.after_answer(), count).missing == count,
        after_misses(watch.after_answer(), count).lowered <==> count >= watch.threshold,
        after_misses(watch.after_answer(), count).miss_lowers() <==> count + 1 == watch.threshold,
    decreases count,
{
    if count > 0 {
        lemma_the_threshold_lowers_once(watch, (count - 1) as nat);
    }
    lemma_misses_keep_the_rest(watch.after_answer(), count);
}

proof fn lemma_misses_keep_the_rest(watch: WatchView, count: nat)
    ensures
        after_misses(watch, count).gateway == watch.gateway,
        after_misses(watch, count).answered_once == watch.answered_once,
        after_misses(watch, count).threshold == watch.threshold,
    decreases count,
{
    if count > 0 {
        lemma_misses_keep_the_rest(watch, (count - 1) as nat);
    }
}

/// One question per interval: after one is asked, none is due before the
/// interval is over.
pub proof fn lemma_one_question_per_interval(watch: WatchView, now: Instant, then: Instant)
    requires
        watch.wf(),
        now.wf(),
        watch.is_due(now),
    ensures
        watch.asked(now).is_due(then) <==> then.nanos >= now.nanos + watch.interval.nanos,
{
}

/// Where the check stands follows from what came back: without a gateway
/// nothing, before the first answer unconfirmed, reachable from an answer on,
/// and lost from the miss on that reaches the threshold until the next
/// answer.
pub proof fn lemma_health_follows_the_answers(watch: WatchView, count: nat)
    requires
        watch.threshold > 0,
        count < u32::MAX,
    ensures
        watch.gateway is None ==> watch.health() == Health::NoGateway,
        watch.gateway is Some && !watch.answered_once ==> watch.health() == Health::Unconfirmed,
        watch.gateway is Some ==> watch.after_answer().health() == Health::Reachable,
        watch.gateway is Some && count < watch.threshold ==> after_misses(
            watch.after_answer(),
            count,
        ).health() == Health::Reachable,
        watch.gateway is Some && count >= watch.threshold ==> after_misses(
            watch.after_answer(),
            count,
        ).health() == Health::Lost,
{
    if watch.gateway is Some {
        lemma_the_threshold_lowers_once(watch, count);
        lemma_misses_keep_the_rest(watch.after_answer(), count);
    }
}

/// Any answer starts the count over, whatever went missing before it.
pub proof fn lemma_an_answer_starts_the_count_over(watch: WatchView, count: nat)
    ensures
        after_misses(watch, count).after_answer() == watch.after_answer(),
        watch.after_answer().missing == 0,
        !watch.after_answer().lowered,
        watch.after_answer().answered_once,
    decreases count,
{
    if count > 0 {
        lemma_an_answer_starts_the_count_over(watch, (count - 1) as nat);
    }
}

/// The first question is due at once, and a machine without a gateway has
/// none to ask. Asking counts nothing by itself.
pub proof fn lemma_the_first_question_is_due_at_once(watch: WatchView, now: Instant)
    ensures
        watch.gateway is Some && watch.due_at is None ==> watch.is_due(now),
        watch.gateway is None ==> !watch.is_due(now),
        watch.asked(now).gateway == watch.gateway,
        watch.asked(now).missing == watch.missing,
        watch.asked(now).lowered == watch.lowered,
        watch.asked(now).answered_once == watch.answered_once,
        watch.asked(now).health() == watch.health(),
        !watch.is_due(now) ==> watch.asked(now) == watch,
{
}

/// A question nobody answered counts one, and nothing but the count and what
/// it lowers changes.
pub proof fn lemma_a_miss_counts_one(watch: WatchView)
    requires
        watch.gateway is Some,
        watch.answered_once,
        watch.missing < u32::MAX,
    ensures
        watch.after_miss().missing == watch.missing + 1,
        watch.after_miss().lowered == (watch.lowered || watch.missing + 1 >= watch.threshold),
        watch.after_miss().due_at == watch.due_at,
        watch.after_miss().gateway == watch.gateway,
        watch.after_miss().interval == watch.interval,
{
}

/// An answer, or the lack of one, changes what is known of the gateway and
/// not when it is asked again.
pub proof fn lemma_an_answer_leaves_the_schedule_alone(watch: WatchView, now: Instant)
    ensures
        watch.after_answer().is_due(now) == watch.is_due(now),
        watch.after_miss().is_due(now) == watch.is_due(now),
        watch.after_answer().due_at == watch.due_at,
        watch.after_miss().due_at == watch.due_at,
        watch.after_answer().gateway == watch.gateway,
        watch.after_miss().gateway == watch.gateway,
        watch.after_answer().threshold == watch.threshold,
        watch.after_miss().threshold == watch.threshold,
        watch.asked(now).missing == watch.missing,
        watch.asked(now).lowered == watch.lowered,
        watch.asked(now).answered_once == watch.answered_once,
{
}

} // verus!
