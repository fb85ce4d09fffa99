//! Who holds the virtual router, and when that changes.
//!
//! The machine reads no clock and owns no socket. Every method takes the
//! moment it is called at and returns what to do about it.
//!
//! VRRPv3 carries no authentication, so an advertisement from outside the
//! peer list is counted and dropped before its bytes are read.

use vstd::prelude::*;

use crate::net::Ipv4Addr;
use crate::time::{Duration, Instant, LONGEST};
use crate::vrrp::packet::{Advertisement, GIVING_UP, LONGEST_INTERVAL, Malformed};

verus! {

/// Where the virtual router stands on this node.
#[derive(Clone, Copy, Debug, PartialEq, Eq, Structural)]
pub enum State {
    /// Nothing has started yet.
    Initialize,
    /// Somebody else holds the role, or nobody has claimed it yet.
    Backup,
    /// This node holds the role and says so.
    Master,
}

impl Default for State {
    fn default() -> (r: Self)
        ensures
            r == State::Initialize,
    {
        State::Initialize
    }
}

impl State {
    /// The name this state is written under.
    pub open spec fn named(self) -> Seq<char> {
        match self {
            State::Initialize => "initialize"@,
            State::Backup => "backup"@,
            State::Master => "master"@,
        }
    }

    /// The name this state is written under.
    pub fn name(self) -> (r: &'static str)
        ensures
            r@ == self.named(),
    {
        match self {
            State::Initialize => "initialize",
            State::Backup => "backup",
            State::Master => "master",
        }
    }
}

/// Why a state changed.
#[derive(Clone, Copy, Debug, PartialEq, Eq, Structural)]
pub enum Reason {
    /// The machine was started.
    Started,
    /// Nobody was heard from within the master down interval.
    NobodyElseAnswered,
    /// A stronger claim arrived.
    StrongerPeer,
    /// The machine was stopped on purpose.
    Stopped,
    /// The way out of this node is gone.
    GatewayLost,
    /// The addresses could not be put on the interface.
    AddressesNotTaken,
}

impl Reason {
    /// The name this reason is written under.
    pub open spec fn named(self) -> Seq<char> {
        match self {
            Reason::Started => "started"@,
            Reason::NobodyElseAnswered => "nobody_else_answered"@,
            Reason::StrongerPeer => "stronger_peer"@,
            Reason::Stopped => "stopped"@,
            Reason::GatewayLost => "gateway_lost"@,
            Reason::AddressesNotTaken => "addresses_not_taken"@,
        }
    }

    /// The name this reason is written under.
    pub fn name(self) -> (r: &'static str)
        ensures
            r@ == self.named(),
    {
        match self {
            Reason::Started => "started",
            Reason::NobodyElseAnswered => "nobody_else_answered",
            Reason::StrongerPeer => "stronger_peer",
            Reason::Stopped => "stopped",
            Reason::GatewayLost => "gateway_lost",
            Reason::AddressesNotTaken => "addresses_not_taken",
        }
    }
}

/// One state change, ready to be written to the log.
#[derive(Clone, Copy, Debug, PartialEq, Eq, Structural)]
pub struct Transition {
    /// Where the machine was.
    pub from: State,
    /// Where it is now.
    pub to: State,
    /// What moved it.
    pub reason: Reason,
}

/// Something the caller has to do.
///
/// The machine never sends and never logs. It says what should happen and
/// the caller, which owns the socket and the logger, does it.
#[derive(Clone, Debug, PartialEq, Eq)]
pub enum Action {
    /// Send this advertisement to every peer.
    Advertise(Advertisement),
    /// Write this state change down.
    Record(Transition),
    /// Put the virtual addresses on the interface and announce them.
    TakeAddresses,
    /// Take the virtual addresses off the interface.
    DropAddresses,
}

/// What an action asks for, apart from how it is held.
pub enum ActionView {
    Advertise { vrid: u8, priority: u8, interval_centiseconds: u16, addresses: Seq<Ipv4Addr> },
    Record(Transition),
    TakeAddresses,
    DropAddresses,
}

impl View for Action {
    type V = ActionView;

    open spec fn view(&self) -> ActionView {
        match *self {
            Action::Advertise(said) => ActionView::Advertise {
                vrid: said.vrid,
                priority: said.priority,
                interval_centiseconds: said.interval_centiseconds,
                addresses: said.addresses@,
            },
            Action::Record(transition) => ActionView::Record(transition),
            Action::TakeAddresses => ActionView::TakeAddresses,
            Action::DropAddresses => ActionView::DropAddresses,
        }
    }
}

/// What a list of actions asks for.
pub open spec fn asked(actions: Seq<Action>) -> Seq<ActionView> {
    Seq::new(actions.len(), |i: int| actions[i]@)
}

/// Why an advertisement was not acted on.
#[derive(Clone, Copy, Debug, PartialEq, Eq, Structural)]
pub enum Ignored {
    /// The source is not in the peer list.
    UnknownPeer,
    /// The bytes are not an advertisement this product can read.
    Broken(Malformed),
    /// The packet belongs to a different virtual router.
    OtherRouter(u8),
}

/// What a virtual router is set up with.
#[derive(Clone, Debug, PartialEq, Eq)]
pub struct Settings {
    /// Which virtual router this is.
    pub vrid: u8,
    /// How strongly this node claims the role.
    pub priority: u8,
    /// How often a master advertises.
    pub interval: Duration,
    /// Whether a stronger node takes the role back when it returns.
    pub preempt: bool,
    /// This node's own address, which decides a tie.
    pub address: Ipv4Addr,
    /// The addresses this virtual router answers for.
    pub virtual_addresses: Vec<Ipv4Addr>,
    /// The only sources an advertisement is accepted from.
    pub peers: Vec<Ipv4Addr>,
}

/// How many nanoseconds sixty-four bits hold.
pub const NANOS_WRAP: u128 = 0x1_0000_0000_0000_0000;

/// The skew of a priority, in nanoseconds: the part of an interval that the
/// priority leaves out of 256, kept to sixty-four bits.
pub open spec fn skew_nanos(interval: Duration, priority: u8) -> int {
    ((256 - priority) * interval.nanos / 256) % (NANOS_WRAP as int)
}

/// How long silence lasts before a claim, in nanoseconds: three intervals
/// and the skew.
pub open spec fn down_nanos(interval: Duration, priority: u8) -> int {
    (interval.nanos * 3) % (NANOS_WRAP as int) + skew_nanos(interval, priority)
}

/// Whether the timers of this interval and priority fit sixty-four bits of
/// nanoseconds.
pub open spec fn timers_fit(interval: Duration, priority: u8) -> bool {
    interval.wf() && down_nanos(interval, priority) < NANOS_WRAP
}

/// Whether the timers of this interval and priority fit sixty-four bits of
/// nanoseconds.
pub fn fits(interval: Duration, priority: u8) -> (r: bool)
    ensures
        r == timers_fit(interval, priority),
{
    if interval.nanos > LONGEST {
        return false;
    }
    let left: u128 = 256 - priority as u128;
    assert(0 <= left * interval.nanos <= 256 * interval.nanos) by (nonlinear_arith)
        requires
            0 < left <= 256,
            0 <= interval.nanos,
    ;
    let skew: u128 = left * interval.nanos / 256 % NANOS_WRAP;
    interval.nanos * 3 % NANOS_WRAP + skew < NANOS_WRAP
}

/// Every interval shorter than a hundred and forty years fits, at every
/// priority, and nothing is cut off any of its timers.
pub proof fn lemma_ordinary_timers_fit(interval: Duration, priority: u8)
    requires
        interval.nanos < 0x4000_0000_0000_0000,
    ensures
        timers_fit(interval, priority),
        skew_nanos(interval, priority) == (256 - priority) * interval.nanos / 256,
        down_nanos(interval, priority) == interval.nanos * 3 + (256 - priority) * interval.nanos
            / 256,
{
    let share: int = (256 - priority) * interval.nanos;
    assert(0 <= share <= 256 * interval.nanos) by (nonlinear_arith)
        requires
            share == (256 - priority) * interval.nanos,
            0 <= priority <= 255,
            0 <= interval.nanos,
    ;
}

/// A weaker node waits at least as long, and longer once the interval is a
/// microsecond: that is what makes the order of takeover the same
/// everywhere without anybody agreeing on it.
pub proof fn lemma_weaker_waits_longer(interval: Duration, weaker: u8, stronger: u8)
    requires
        interval.nanos < 0x4000_0000_0000_0000,
        weaker < stronger,
    ensures
        down_nanos(interval, weaker) >= down_nanos(interval, stronger),
        interval.nanos >= 256 ==> down_nanos(interval, weaker) > down_nanos(interval, stronger),
{
    lemma_ordinary_timers_fit(interval, weaker);
    lemma_ordinary_timers_fit(interval, stronger);
    let n: int = interval.nanos as int;
    let more: int = (256 - weaker) * n;
    let less: int = (256 - stronger) * n;
    assert(more >= less + n) by (nonlinear_arith)
        requires
            more == (256 - weaker) * n,
            less == (256 - stronger) * n,
            weaker < stronger,
            n >= 0,
    ;
}

impl Settings {
    /// The interval in hundredths of a second, held to the largest the
    /// packet's field can carry.
    pub open spec fn centiseconds(self) -> u16 {
        let hundredths = self.interval.nanos / 10_000_000;
        if hundredths > LONGEST_INTERVAL {
            LONGEST_INTERVAL
        } else {
            hundredths as u16
        }
    }

    /// The interval in the unit the packet carries it in.
    pub fn interval_centiseconds(&self) -> (r: u16)
        ensures
            r == self.centiseconds(),
    {
        let hundredths: u128 = self.interval.nanos / 10_000_000;
        if hundredths > LONGEST_INTERVAL as u128 {
            LONGEST_INTERVAL
        } else {
            hundredths as u16
        }
    }

    /// How long this node waits before it starts its own claim.
    pub fn skew_time(&self) -> (r: Duration)
        requires
            self.interval.wf(),
        ensures
            r.nanos == skew_nanos(self.interval, self.priority),
            r.wf(),
    {
        let left: u128 = 256 - self.priority as u128;
        assert(0 <= left * self.interval.nanos <= 256 * self.interval.nanos) by (nonlinear_arith)
            requires
                0 < left <= 256,
                0 <= self.interval.nanos,
        ;
        let share: u128 = left * self.interval.nanos / 256;
        Duration { nanos: share % NANOS_WRAP }
    }

    /// How long silence has to last before this node claims the role.
    pub fn master_down_interval(&self) -> (r: Duration)
        requires
            timers_fit(self.interval, self.priority),
        ensures
            r.nanos == down_nanos(self.interval, self.priority),
            r.wf(),
    {
        let skew = self.skew_time();
        Duration { nanos: self.interval.nanos * 3 % NANOS_WRAP + skew.nanos }
    }

    /// The addresses an advertisement may have been sent to: the virtual
    /// ones, and this node's own last.
    pub open spec fn destinations(self) -> Seq<Ipv4Addr> {
        self.virtual_addresses@.push(self.address)
    }

    /// Whether the bytes add up for one of the addresses they may have been
    /// sent to.
    pub open spec fn readable(self, from: Ipv4Addr, bytes: Seq<u8>) -> bool {
        exists|i: int|
            0 <= i < self.destinations().len() && (#[trigger] Advertisement::refusal(
                bytes,
                from,
                self.destinations()[i],
            )) is None
    }

    /// Why a packet is dropped, when it is.
    ///
    /// The source comes first, before anything reads the bytes. What is
    /// wrong with the bytes is reported against this node's own address.
    pub open spec fn verdict(self, from: Ipv4Addr, bytes: Seq<u8>) -> Option<Ignored> {
        if !self.peers@.contains(from) {
            Some(Ignored::UnknownPeer)
        } else if !self.readable(from, bytes) {
            Some(Ignored::Broken(Advertisement::refusal(bytes, from, self.address)->0))
        } else if bytes[1] != self.vrid {
            Some(Ignored::OtherRouter(bytes[1]))
        } else {
            None
        }
    }

    /// Whether a sender's claim beats this node's: the higher priority, and
    /// between equals the higher address.
    pub open spec fn loses_to(self, from: Ipv4Addr, priority: u8) -> bool {
        priority > self.priority || (priority == self.priority && from.number()
            > self.address.number())
    }

    /// Whether this node's claim beats a sender's.
    pub open spec fn beats(self, from: Ipv4Addr, priority: u8) -> bool {
        self.priority > priority || (priority == self.priority && self.address.number()
            > from.number())
    }

    /// What this node advertises at a priority.
    pub open spec fn claim(self, priority: u8) -> ActionView {
        ActionView::Advertise {
            vrid: self.vrid,
            priority,
            interval_centiseconds: self.centiseconds(),
            addresses: self.virtual_addresses@,
        }
    }
}

/// Of two nodes with different addresses exactly one beats the other, and
/// both come to the same answer: what one wins the other loses.
pub proof fn lemma_one_claim_wins(mine: Settings, theirs: Settings)
    requires
        mine.address != theirs.address,
    ensures
        mine.beats(theirs.address, theirs.priority) <==> theirs.loses_to(
            mine.address,
            mine.priority,
        ),
        mine.beats(theirs.address, theirs.priority) <==> !mine.loses_to(
            theirs.address,
            theirs.priority,
        ),
        mine.beats(theirs.address, theirs.priority) <==> !theirs.beats(
            mine.address,
            mine.priority,
        ),
{
    if mine.address.number() == theirs.address.number() {
        crate::net::lemma_number_is_the_address(mine.address, theirs.address);
    }
}

/// Where a machine stands.
pub struct MachineView {
    pub settings: Settings,
    /// The priority it was set up with.
    pub configured: u8,
    pub state: State,
    /// When the next advertisement is due, while this node is master.
    pub advertise_at: Option<Instant>,
    /// When silence has lasted long enough to claim the role.
    pub claim_at: Option<Instant>,
    pub accepted: u64,
    pub ignored: u64,
}

impl MachineView {
    /// A machine that has not started yet.
    pub open spec fn fresh(settings: Settings) -> MachineView {
        MachineView {
            settings,
            configured: settings.priority,
            state: State::Initialize,
            advertise_at: None,
            claim_at: None,
            accepted: 0,
            ignored: 0,
        }
    }

    /// Only a master has an advertisement due and only a backup waits to
    /// claim the role, and the timers fit at both of its priorities.
    pub open spec fn wf(self) -> bool {
        &&& timers_fit(self.settings.interval, self.settings.priority)
        &&& timers_fit(self.settings.interval, self.configured)
        &&& (self.advertise_at is Some <==> self.state == State::Master)
        &&& (self.claim_at is Some <==> self.state == State::Backup)
    }

    /// With one more packet counted as dropped.
    pub open spec fn dropped_one(self) -> MachineView {
        MachineView { ignored: (self.ignored + 1) as u64, ..self }
    }

    /// With one more packet counted as acted on.
    pub open spec fn accepted_one(self) -> MachineView {
        MachineView { accepted: (self.accepted + 1) as u64, ..self }
    }

    /// As the master from this moment on.
    pub open spec fn risen(self, now: Instant) -> MachineView {
        MachineView {
            state: State::Master,
            claim_at: None,
            advertise_at: Some(now.later(self.settings.interval)),
            ..self
        }
    }

    /// What taking the role asks for.
    pub open spec fn rising(self, reason: Reason) -> Seq<ActionView> {
        seq![
            ActionView::Record(Transition { from: self.state, to: State::Master, reason }),
            self.settings.claim(self.settings.priority),
            ActionView::TakeAddresses,
        ]
    }

    /// The moment silence that starts now becomes a reason to claim.
    pub open spec fn deadline(self, now: Instant) -> Instant {
        Instant {
            nanos: (now.nanos + down_nanos(
                self.settings.interval,
                self.settings.priority,
            )) as u128,
        }
    }

    /// As a backup from this moment on.
    pub open spec fn fallen(self, now: Instant) -> MachineView {
        MachineView {
            state: State::Backup,
            advertise_at: None,
            claim_at: Some(self.deadline(now)),
            ..self
        }
    }

    /// What becoming a backup asks for.
    pub open spec fn falling(self, reason: Reason) -> Seq<ActionView> {
        seq![
            ActionView::Record(Transition { from: self.state, to: State::Backup, reason }),
            ActionView::DropAddresses,
        ]
    }

    /// Once started: the owner of the addresses is master at once, everybody
    /// else waits.
    pub open spec fn started(self, now: Instant) -> MachineView {
        if self.settings.priority == 255 {
            self.risen(now)
        } else {
            self.fallen(now)
        }
    }

    /// What starting asks for.
    pub open spec fn starting(self) -> Seq<ActionView> {
        if self.settings.priority == 255 {
            self.rising(Reason::Started)
        } else {
            self.falling(Reason::Started)
        }
    }

    /// Whether a master's next advertisement is due.
    pub open spec fn advertisement_due(self, now: Instant) -> bool {
        self.state == State::Master && now.nanos >= self.advertise_at->0.nanos
    }

    /// Whether a backup has waited long enough to claim the role.
    pub open spec fn claim_due(self, now: Instant) -> bool {
        self.state == State::Backup && now.nanos >= self.claim_at->0.nanos
    }

    /// Moved on to this moment.
    pub open spec fn ticked(self, now: Instant) -> MachineView {
        if self.advertisement_due(now) {
            MachineView { advertise_at: Some(now.later(self.settings.interval)), ..self }
        } else if self.claim_due(now) {
            self.risen(now)
        } else {
            self
        }
    }

    /// What is due at this moment.
    pub open spec fn ticking(self, now: Instant) -> Seq<ActionView> {
        if self.advertisement_due(now) {
            seq![self.settings.claim(self.settings.priority)]
        } else if self.claim_due(now) {
            self.rising(Reason::NobodyElseAnswered)
        } else {
            seq![]
        }
    }

    /// Having heard a peer claim the role at a priority.
    pub open spec fn heard(self, from: Ipv4Addr, priority: u8, now: Instant) -> MachineView {
        match self.state {
            State::Master => if priority == GIVING_UP {
                MachineView { advertise_at: Some(now.later(self.settings.interval)), ..self }
            } else if self.settings.loses_to(from, priority) {
                self.fallen(now)
            } else {
                self
            },
            State::Backup => if priority == GIVING_UP {
                MachineView {
                    claim_at: Some(
                        Instant {
                            nanos: (now.nanos + skew_nanos(
                                self.settings.interval,
                                self.settings.priority,
                            )) as u128,
                        },
                    ),
                    ..self
                }
            } else if !self.settings.preempt || !self.settings.beats(from, priority) {
                MachineView { claim_at: Some(self.deadline(now)), ..self }
            } else {
                self
            },
            State::Initialize => self,
        }
    }

    /// What hearing a peer claim the role asks for.
    pub open spec fn hearing(self, from: Ipv4Addr, priority: u8) -> Seq<ActionView> {
        if self.state == State::Master && priority == GIVING_UP {
            seq![self.settings.claim(self.settings.priority)]
        } else if self.state == State::Master && self.settings.loses_to(from, priority) {
            self.falling(Reason::StrongerPeer)
        } else {
            seq![]
        }
    }

    /// Having taken a packet that arrived.
    pub open spec fn judged(self, from: Ipv4Addr, bytes: Seq<u8>, now: Instant) -> MachineView {
        if self.settings.verdict(from, bytes) is Some {
            self.dropped_one()
        } else {
            self.accepted_one().heard(from, bytes[2], now)
        }
    }

    /// Stopped.
    pub open spec fn stopped(self) -> MachineView {
        MachineView { state: State::Initialize, advertise_at: None, claim_at: None, ..self }
    }

    /// What stopping asks for.
    pub open spec fn stopping(self) -> Seq<ActionView> {
        let record = ActionView::Record(
            Transition { from: self.state, to: State::Initialize, reason: Reason::Stopped },
        );
        if self.state == State::Master {
            seq![self.settings.claim(GIVING_UP), record, ActionView::DropAddresses]
        } else {
            seq![record, ActionView::DropAddresses]
        }
    }

    /// At another priority.
    pub open spec fn at_priority(self, priority: u8) -> MachineView {
        MachineView { settings: Settings { priority, ..self.settings }, ..self }
    }

    /// With the claim lowered.
    pub open spec fn demoted(self, priority: u8, now: Instant) -> MachineView {
        if priority == self.settings.priority {
            self
        } else if self.state == State::Master {
            self.at_priority(priority).fallen(now)
        } else {
            self.at_priority(priority)
        }
    }

    /// What lowering the claim asks for.
    pub open spec fn demoting(self, priority: u8) -> Seq<ActionView> {
        if priority != self.settings.priority && self.state == State::Master {
            self.falling(Reason::GatewayLost)
        } else {
            seq![]
        }
    }

    /// With the role given up because the addresses could not be taken.
    pub open spec fn renounced(self, now: Instant) -> MachineView {
        if self.state == State::Master {
            self.fallen(now)
        } else {
            self
        }
    }

    /// What giving the role up asks for.
    pub open spec fn renouncing(self) -> Seq<ActionView> {
        if self.state == State::Master {
            self.falling(Reason::AddressesNotTaken)
        } else {
            seq![]
        }
    }
}

/// One virtual router on this node.
pub struct Machine {
    settings: Settings,
    configured: u8,
    state: State,
    advertise_at: Option<Instant>,
    claim_at: Option<Instant>,
    accepted: u64,
    ignored: u64,
}

impl View for Machine {
    type V = MachineView;

    closed spec fn view(&self) -> MachineView {
        MachineView {
            settings: self.settings,
            configured: self.configured,
            state: self.state,
            advertise_at: self.advertise_at,
            claim_at: self.claim_at,
            accepted: self.accepted,
            ignored: self.ignored,
        }
    }
}

impl Machine {
    /// A machine that has not started yet.
    pub fn new(settings: Settings) -> (r: Self)
        ensures
            r@ == MachineView::fresh(settings),
            timers_fit(settings.interval, settings.priority) ==> r@.wf(),
    {
        let configured: u8 = settings.priority;
        Machine {
            settings,
            configured,
            state: State::Initialize,
            advertise_at: None,
            claim_at: None,
            accepted: 0,
            ignored: 0,
        }
    }

    /// Where this node stands.
    pub fn state(&self) -> (r: State)
        ensures
            r == self@.state,
    {
        self.state
    }

    /// What this node was set up with, at the priority it claims now.
    pub fn settings(&self) -> (r: &Settings)
        ensures
            *r == self@.settings,
    {
        &self.settings
    }

    /// The priority the configuration asked for.
    pub fn configured(&self) -> (r: u8)
        ensures
            r == self@.configured,
    {
        self.configured
    }

    /// How many advertisements were acted on.
    pub fn accepted(&self) -> (r: u64)
        ensures
            r == self@.accepted,
    {
        self.accepted
    }

    /// How many were dropped.
    pub fn ignored(&self) -> (r: u64)
        ensures
            r == self@.ignored,
    {
        self.ignored
    }

    /// Starts the machine.
    ///
    /// A node whose priority says it owns the addresses claims the role at
    /// once. Every other node waits, and clears the addresses a killed
    /// process may have left on the interface.
    pub fn start(&mut self, now: Instant) -> (r: Vec<Action>)
        requires
            timers_fit(old(self)@.settings.interval, old(self)@.settings.priority),
            now.wf(),
        ensures
            final(self)@ == old(self)@.started(now),
            asked(r@) == old(self)@.starting(),
            old(self)@.wf() ==> final(self)@.wf(),
    {
        if self.settings.priority == u8::MAX {
            return self.become_master(now, Reason::Started);
        }
        self.become_backup(now, Reason::Started)
    }

    /// Moves the machine on to this moment.
    ///
    /// Returns what is due: an advertisement while this node is master, or
    /// the claim once silence has lasted long enough.
    pub fn tick(&mut self, now: Instant) -> (r: Vec<Action>)
        requires
            old(self)@.wf(),
            now.wf(),
        ensures
            final(self)@ == old(self)@.ticked(now),
            asked(r@) == old(self)@.ticking(now),
            final(self)@.wf(),
    {
        match self.state {
            State::Master => {
                if let Some(due) = self.advertise_at {
                    if now.nanos >= due.nanos {
                        self.advertise_at = Some(now.after(self.settings.interval));
                        let said = self.advertisement(self.settings.priority);
                        let actions: Vec<Action> = vec![Action::Advertise(said)];
                        assert(asked(actions@) =~= old(self)@.ticking(now));
                        return actions;
                    }
                }
            },
            State::Backup => {
                if let Some(due) = self.claim_at {
                    if now.nanos >= due.nanos {
                        return self.become_master(now, Reason::NobodyElseAnswered);
                    }
                }
            },
            State::Initialize => {},
        }
        let actions: Vec<Action> = Vec::new();
        assert(asked(actions@) =~= old(self)@.ticking(now));
        actions
    }

    /// Takes an advertisement that arrived.
    ///
    /// Returns what to do about it, and nothing at all when it is dropped.
    pub fn receive(&mut self, from: Ipv4Addr, bytes: &[u8], now: Instant) -> (r: Vec<Action>)
        requires
            old(self)@.wf(),
            old(self)@.accepted < u64::MAX,
            old(self)@.ignored < u64::MAX,
            now.wf(),
        ensures
            final(self)@ == old(self)@.judged(from, bytes@, now),
            final(self)@.wf(),
            asked(r@) == (if old(self)@.settings.verdict(from, bytes@) is Some {
                seq![]
            } else {
                old(self)@.hearing(from, bytes@[2])
            }),
    {
        match self.judge(from, bytes, now) {
            Ok(actions) => actions,
            Err(_) => {
                let actions: Vec<Action> = Vec::new();
                assert(asked(actions@) =~= seq![]);
                actions
            },
        }
    }

    /// Takes an advertisement and says why it was dropped, when it was.
    ///
    /// Every packet is counted exactly once, as acted on or as dropped, and
    /// one that is dropped changes nothing else.
    pub fn judge(&mut self, from: Ipv4Addr, bytes: &[u8], now: Instant) -> (r: Result<
        Vec<Action>,
        Ignored,
    >)
        requires
            old(self)@.wf(),
            old(self)@.accepted < u64::MAX,
            old(self)@.ignored < u64::MAX,
            now.wf(),
        ensures
            final(self)@ == old(self)@.judged(from, bytes@, now),
            final(self)@.wf(),
            final(self)@.accepted + final(self)@.ignored == old(self)@.accepted + old(self)@.ignored
                + 1,
            match r {
                Ok(actions) => old(self)@.settings.verdict(from, bytes@) is None && asked(
                    actions@,
                ) == old(self)@.hearing(from, bytes@[2]),
                Err(why) => old(self)@.settings.verdict(from, bytes@) == Some(why),
            },
    {
        if !self.knows(from) {
            self.ignored += 1;
            return Err(Ignored::UnknownPeer);
        }
        let advertisement = match self.decoded(from, bytes) {
            Ok(advertisement) => advertisement,
            Err(why) => {
                self.ignored += 1;
                return Err(Ignored::Broken(why));
            },
        };
        if advertisement.vrid != self.settings.vrid {
            self.ignored += 1;
            return Err(Ignored::OtherRouter(advertisement.vrid));
        }
        self.accepted += 1;
        match self.state {
            State::Master => Ok(self.master_heard(from, advertisement.priority, now)),
            State::Backup => Ok(self.backup_heard(from, advertisement.priority, now)),
            State::Initialize => {
                let actions: Vec<Action> = Vec::new();
                assert(asked(actions@) =~= seq![]);
                Ok(actions)
            },
        }
    }

    /// Gives the role up on purpose.
    ///
    /// A master says so with a priority of zero, which lets the next node
    /// wait only its skew time. The addresses come off the interface either
    /// way.
    pub fn stop(&mut self, now: Instant) -> (r: Vec<Action>)
        ensures
            final(self)@ == old(self)@.stopped(),
            asked(r@) == old(self)@.stopping(),
            old(self)@.wf() ==> final(self)@.wf(),
    {
        let was = self.state;
        self.state = State::Initialize;
        self.advertise_at = None;
        self.claim_at = None;
        let mut actions: Vec<Action> = Vec::new();
        if let State::Master = was {
            actions.push(Action::Advertise(self.advertisement(GIVING_UP)));
        }
        actions.push(
            Action::Record(Transition { from: was, to: State::Initialize, reason: Reason::Stopped }),
        );
        actions.push(Action::DropAddresses);
        assert(asked(actions@) =~= old(self)@.stopping());
        actions
    }

    /// Lowers this node's claim.
    ///
    /// A master stands down at once rather than waiting to be outranked,
    /// because with preempt off nobody ever outranks it. Anybody else only
    /// lowers its number, and a claim that is already there stays as it is.
    pub fn demote(&mut self, priority: u8, now: Instant) -> (r: Vec<Action>)
        requires
            old(self)@.wf(),
            timers_fit(old(self)@.settings.interval, priority),
            now.wf(),
        ensures
            final(self)@ == old(self)@.demoted(priority, now),
            asked(r@) == old(self)@.demoting(priority),
            final(self)@.wf(),
    {
        if priority != self.settings.priority {
            self.settings.priority = priority;
            if let State::Master = self.state {
                return self.become_backup(now, Reason::GatewayLost);
            }
        }
        let actions: Vec<Action> = Vec::new();
        assert(asked(actions@) =~= old(self)@.demoting(priority));
        actions
    }

    /// Puts the claim back where the configuration had it.
    ///
    /// The role comes back by the ordinary rule rather than at once, so
    /// there is nothing to do.
    pub fn restore(&mut self, now: Instant) -> (r: Vec<Action>)
        requires
            old(self)@.wf(),
        ensures
            final(self)@ == old(self)@.at_priority(old(self)@.configured),
            r@.len() == 0,
            final(self)@.wf(),
    {
        self.settings.priority = self.configured;
        Vec::new()
    }

    /// Gives the role up because the addresses could not be taken.
    ///
    /// A master without its addresses answers nothing, and its
    /// advertisements stop every other node from answering either.
    pub fn renounce(&mut self, now: Instant) -> (r: Vec<Action>)
        requires
            old(self)@.wf(),
            now.wf(),
        ensures
            final(self)@ == old(self)@.renounced(now),
            asked(r@) == old(self)@.renouncing(),
            final(self)@.wf(),
    {
        if let State::Master = self.state {
            return self.become_backup(now, Reason::AddressesNotTaken);
        }
        let actions: Vec<Action> = Vec::new();
        assert(asked(actions@) =~= old(self)@.renouncing());
        actions
    }

    /// Whether a source is in the peer list.
    fn knows(&self, from: Ipv4Addr) -> (r: bool)
        ensures
            r == self@.settings.peers@.contains(from),
    {
        let mut at: usize = 0;
        while at < self.settings.peers.len()
            invariant
                at <= self.settings.peers.len(),
                forall|i: int| 0 <= i < at ==> self.settings.peers@[i] != from,
            decreases self.settings.peers.len() - at,
        {
            if self.settings.peers[at] == from {
                assert(self.settings.peers@[at as int] == from);
                return true;
            }
            at += 1;
        }
        false
    }

    /// Reads the bytes against every address they may have been sent to.
    ///
    /// The checksum covers the destination, so the first address that adds
    /// up is the one the packet was sent to.
    fn decoded(&self, from: Ipv4Addr, bytes: &[u8]) -> (r: Result<Advertisement, Malformed>)
        ensures
            match r {
                Ok(read) => self@.settings.readable(from, bytes@) && read.read_from(bytes@),
                Err(why) => !self@.settings.readable(from, bytes@) && Advertisement::refusal(
                    bytes@,
                    from,
                    self@.settings.address,
                ) == Some(why),
            },
    {
        let ghost all = self.settings.destinations();
        let mut at: usize = 0;
        while at < self.settings.virtual_addresses.len()
            invariant
                at <= self.settings.virtual_addresses.len(),
                all == self.settings.destinations(),
                forall|i: int|
                    0 <= i < at ==> (#[trigger] Advertisement::refusal(
                        bytes@,
                        from,
                        all[i],
                    )) is Some,
            decreases self.settings.virtual_addresses.len() - at,
        {
            assert(all[at as int] == self.settings.virtual_addresses@[at as int]);
            if let Ok(read) = Advertisement::decode(
                bytes,
                from,
                self.settings.virtual_addresses[at],
            ) {
                return Ok(read);
            }
            at += 1;
        }
        assert(all[at as int] == self.settings.address);
        Advertisement::decode(bytes, from, self.settings.address)
    }

    /// What a master does with an advertisement it hears.
    fn master_heard(&mut self, from: Ipv4Addr, priority: u8, now: Instant) -> (r: Vec<Action>)
        requires
            old(self)@.wf(),
            old(self)@.state == State::Master,
            now.wf(),
        ensures
            final(self)@ == old(self)@.heard(from, priority, now),
            asked(r@) == old(self)@.hearing(from, priority),
            final(self)@.wf(),
    {
        if priority == GIVING_UP {
            // The sender is standing down. Saying so at once shortens the
            // gap for everybody still listening.
            self.advertise_at = Some(now.after(self.settings.interval));
            let said = self.advertisement(self.settings.priority);
            let actions: Vec<Action> = vec![Action::Advertise(said)];
            assert(asked(actions@) =~= old(self)@.hearing(from, priority));
            return actions;
        }
        if self.outranked_by(from, priority) {
            return self.become_backup(now, Reason::StrongerPeer);
        }
        let actions: Vec<Action> = Vec::new();
        assert(asked(actions@) =~= seq![]);
        actions
    }

    /// What a backup does with an advertisement it hears.
    fn backup_heard(&mut self, from: Ipv4Addr, priority: u8, now: Instant) -> (r: Vec<Action>)
        requires
            old(self)@.wf(),
            old(self)@.state == State::Backup,
            now.wf(),
        ensures
            final(self)@ == old(self)@.heard(from, priority, now),
            asked(r@) == old(self)@.hearing(from, priority),
            final(self)@.wf(),
    {
        if priority == GIVING_UP {
            // Only the skew, because the master is leaving rather than gone.
            self.claim_at = Some(now.after(self.settings.skew_time()));
        } else if !self.settings.preempt || !self.outranks(from, priority) {
            self.claim_at = Some(now.after(self.settings.master_down_interval()));
        }
        let actions: Vec<Action> = Vec::new();
        assert(asked(actions@) =~= seq![]);
        actions
    }

    /// Whether a sender's claim beats this node's.
    fn outranked_by(&self, from: Ipv4Addr, priority: u8) -> (r: bool)
        ensures
            r == self@.settings.loses_to(from, priority),
    {
        priority > self.settings.priority || (priority == self.settings.priority && from.above(
            self.settings.address,
        ))
    }

    /// Whether this node's claim beats a sender's.
    fn outranks(&self, from: Ipv4Addr, priority: u8) -> (r: bool)
        ensures
            r == self@.settings.beats(from, priority),
    {
        self.settings.priority > priority || (priority == self.settings.priority
            && self.settings.address.above(from))
    }

    /// Takes the role.
    fn become_master(&mut self, now: Instant, reason: Reason) -> (r: Vec<Action>)
        requires
            old(self)@.settings.interval.wf(),
            now.wf(),
        ensures
            final(self)@ == old(self)@.risen(now),
            asked(r@) == old(self)@.rising(reason),
    {
        let from = self.state;
        self.state = State::Master;
        self.claim_at = None;
        self.advertise_at = Some(now.after(self.settings.interval));
        let said = self.advertisement(self.settings.priority);
        let actions: Vec<Action> = vec![
            Action::Record(Transition { from, to: State::Master, reason }),
            // Sent before the first interval elapses, so the peers learn who
            // holds the role now rather than one interval from now.
            Action::Advertise(said),
            Action::TakeAddresses,
        ];
        assert(asked(actions@) =~= old(self)@.rising(reason));
        actions
    }

    /// Waits behind whoever holds the role.
    fn become_backup(&mut self, now: Instant, reason: Reason) -> (r: Vec<Action>)
        requires
            timers_fit(old(self)@.settings.interval, old(self)@.settings.priority),
            now.wf(),
        ensures
            final(self)@ == old(self)@.fallen(now),
            asked(r@) == old(self)@.falling(reason),
    {
        let from = self.state;
        self.state = State::Backup;
        self.advertise_at = None;
        self.claim_at = Some(now.after(self.settings.master_down_interval()));
        let actions: Vec<Action> = vec![
            Action::Record(Transition { from, to: State::Backup, reason }),
            Action::DropAddresses,
        ];
        assert(asked(actions@) =~= old(self)@.falling(reason));
        actions
    }

    /// The advertisement this node sends, at the priority given.
    fn advertisement(&self, priority: u8) -> (r: Advertisement)
        ensures
            Action::Advertise(r)@ == self@.settings.claim(priority),
    {
        Advertisement {
            vrid: self.settings.vrid,
            priority,
            interval_centiseconds: self.settings.interval_centiseconds(),
            addresses: vstd::slice::slice_to_vec(self.settings.virtual_addresses.as_slice()),
        }
    }
}

/// A packet from outside the peer list changes nothing but the count of
/// dropped packets, whatever its bytes hold: the timers and the role stay
/// where they were.
pub proof fn lemma_strangers_change_nothing(
    machine: MachineView,
    from: Ipv4Addr,
    bytes: Seq<u8>,
    now: Instant,
)
    requires
        !machine.settings.peers@.contains(from),
    ensures
        machine.judged(from, bytes, now) == machine.dropped_one(),
{
}

/// What one node sends, a node that knows it and answers for the address it
/// was sent to acts on: it is heard at the priority that was claimed.
pub proof fn lemma_what_is_sent_is_heard(
    machine: MachineView,
    sent: Advertisement,
    from: Ipv4Addr,
    to: Ipv4Addr,
    now: Instant,
)
    requires
        sent.fits(),
        sent.vrid == machine.settings.vrid,
        machine.settings.peers@.contains(from),
        machine.settings.destinations().contains(to),
    ensures
        machine.judged(from, sent.encoded(from, to), now) == machine.accepted_one().heard(
            from,
            sent.priority,
            now,
        ),
{
    crate::vrrp::packet::lemma_decode_undoes_encode(sent, from, to);
    let at = choose|i: int|
        0 <= i < machine.settings.destinations().len() && machine.settings.destinations()[i] == to;
    assert(Advertisement::refusal(
        sent.encoded(from, to),
        from,
        machine.settings.destinations()[at],
    ) is None);
    assert(sent.read_from(sent.encoded(from, to))) by {
        assert(sent.says(sent));
    }
}

/// While a master that this node does not beat is heard before every
/// deadline, this node stays a backup: hearing it pushes the claim out past
/// everything closer than a whole master down interval.
pub proof fn lemma_a_heard_master_keeps_the_role(
    backup: MachineView,
    from: Ipv4Addr,
    priority: u8,
    now: Instant,
    then: Instant,
)
    requires
        backup.wf(),
        backup.state == State::Backup,
        now.wf(),
        priority != GIVING_UP,
        !backup.settings.preempt || !backup.settings.beats(from, priority),
        then.nanos < now.nanos + down_nanos(backup.settings.interval, backup.settings.priority),
    ensures
        backup.heard(from, priority, now).ticked(then) == backup.heard(from, priority, now),
        backup.heard(from, priority, now).ticking(then) == Seq::<ActionView>::empty(),
{
}

/// Silence that lasts the master down interval makes a node the master, and
/// nothing shorter does.
pub proof fn lemma_silence_makes_a_master(machine: MachineView, now: Instant, then: Instant)
    requires
        machine.wf(),
        machine.settings.priority != 255,
        now.wf(),
    ensures
        machine.started(now).ticked(then).state == State::Master <==> then.nanos >= now.nanos
            + down_nanos(machine.settings.interval, machine.settings.priority),
{
}

/// Two masters that hear each other become one: whichever of their claims
/// wins, exactly one of them keeps the role, in whatever order they hear.
pub proof fn lemma_two_masters_become_one(
    mine: MachineView,
    theirs: MachineView,
    now: Instant,
    then: Instant,
)
    requires
        mine.state == State::Master,
        theirs.state == State::Master,
        mine.settings.address != theirs.settings.address,
        mine.settings.priority != GIVING_UP,
        theirs.settings.priority != GIVING_UP,
    ensures
        mine.heard(theirs.settings.address, theirs.settings.priority, now).state == State::Master
            <==> theirs.heard(mine.settings.address, mine.settings.priority, then).state
            != State::Master,
{
    lemma_one_claim_wins(mine.settings, theirs.settings);
}

/// A backup that may preempt is not held back by a master it beats: hearing
/// one leaves its claim due when it was.
pub proof fn lemma_a_weaker_master_does_not_hold_a_backup_back(
    backup: MachineView,
    from: Ipv4Addr,
    priority: u8,
    now: Instant,
)
    requires
        backup.state == State::Backup,
        backup.settings.preempt,
        backup.settings.beats(from, priority),
        priority != GIVING_UP,
    ensures
        backup.heard(from, priority, now) == backup,
{
}

/// A master that gives the role up is followed after the skew alone: not
/// before, and by then at the latest.
pub proof fn lemma_giving_up_leaves_only_the_skew_to_wait(
    backup: MachineView,
    from: Ipv4Addr,
    now: Instant,
    then: Instant,
)
    requires
        backup.wf(),
        backup.state == State::Backup,
        now.wf(),
    ensures
        backup.heard(from, GIVING_UP, now).ticked(then).state == State::Master <==> then.nanos
            >= now.nanos + skew_nanos(backup.settings.interval, backup.settings.priority),
{
}

/// A master that has just advertised says nothing more until a whole interval
/// is over, and then it does.
pub proof fn lemma_a_master_advertises_once_an_interval(
    master: MachineView,
    now: Instant,
    then: Instant,
)
    requires
        master.wf(),
        master.advertisement_due(now),
        now.wf(),
    ensures
        master.ticking(now) == seq![master.settings.claim(master.settings.priority)],
        master.ticked(now).advertisement_due(then) <==> then.nanos >= now.nanos
            + master.settings.interval.nanos,
        then.nanos < now.nanos + master.settings.interval.nanos ==> master.ticked(now).ticking(then)
            == Seq::<ActionView>::empty(),
{
}

/// Whether what is asked for moves the addresses with the role: they are
/// taken exactly when the role is, and dropped whenever it is lost.
pub open spec fn moves_with(before: State, after: State, actions: Seq<ActionView>) -> bool {
    &&& actions.contains(ActionView::TakeAddresses) <==> before != State::Master && after
        == State::Master
    &&& before == State::Master && after != State::Master ==> actions.contains(
        ActionView::DropAddresses,
    )
    &&& actions.contains(ActionView::DropAddresses) ==> after != State::Master
}

/// The addresses follow the role, whatever happens to a node: they are taken
/// exactly when it becomes the master, and dropped whenever it stops being
/// one.
pub proof fn lemma_the_addresses_follow_the_role(
    machine: MachineView,
    from: Ipv4Addr,
    priority: u8,
    now: Instant,
)
    ensures
        machine.state == State::Initialize ==> moves_with(
            machine.state,
            machine.started(now).state,
            machine.starting(),
        ),
        moves_with(machine.state, machine.ticked(now).state, machine.ticking(now)),
        moves_with(
            machine.state,
            machine.heard(from, priority, now).state,
            machine.hearing(from, priority),
        ),
        moves_with(machine.state, machine.stopped().state, machine.stopping()),
        moves_with(
            machine.state,
            machine.demoted(priority, now).state,
            machine.demoting(priority),
        ),
        moves_with(machine.state, machine.renounced(now).state, machine.renouncing()),
{
    let take = ActionView::TakeAddresses;
    let leave = ActionView::DropAddresses;
    assert(machine.rising(Reason::Started)[2] == take);
    assert(machine.falling(Reason::Started)[1] == leave);
    assert(machine.rising(Reason::NobodyElseAnswered)[2] == take);
    assert(machine.falling(Reason::StrongerPeer)[1] == leave);
    assert(machine.falling(Reason::GatewayLost)[1] == leave);
    assert(machine.falling(Reason::AddressesNotTaken)[1] == leave);
    assert(machine.stopping()[machine.stopping().len() - 1] == leave);
}

/// Lowering a claim twice is lowering it once, and the second time asks for
/// nothing.
pub proof fn lemma_demoting_again_does_nothing(
    machine: MachineView,
    priority: u8,
    now: Instant,
    then: Instant,
)
    ensures
        machine.demoted(priority, now).demoted(priority, then) == machine.demoted(priority, now),
        machine.demoted(priority, now).demoting(priority) == Seq::<ActionView>::empty(),
{
}

/// A claim that was lowered never leaves a master behind, and putting it
/// back restores the number without taking the role.
pub proof fn lemma_restoring_undoes_demoting(machine: MachineView, priority: u8, now: Instant)
    requires
        machine.settings.priority == machine.configured,
        priority != machine.settings.priority,
    ensures
        machine.demoted(priority, now).state != State::Master,
        machine.demoted(priority, now).at_priority(machine.configured).settings == machine.settings,
        machine.demoted(priority, now).at_priority(machine.configured).state == machine.demoted(
            priority,
            now,
        ).state,
{
}

/// Standing down never asks to take the addresses again, so work that grows
/// by what a failed takeover asks for runs out.
pub proof fn lemma_renouncing_takes_nothing(machine: MachineView)
    ensures
        !machine.renouncing().contains(ActionView::TakeAddresses),
        machine.renouncing().len() <= 2,
{
}

/// A stopped machine does nothing until it is started again.
pub proof fn lemma_a_stopped_machine_is_silent(
    machine: MachineView,
    now: Instant,
    from: Ipv4Addr,
    priority: u8,
)
    ensures
        machine.stopped().ticked(now) == machine.stopped(),
        machine.stopped().ticking(now) == Seq::<ActionView>::empty(),
        machine.stopped().heard(from, priority, now) == machine.stopped(),
        machine.stopped().hearing(from, priority) == Seq::<ActionView>::empty(),
{
}

/// Whether a claim at a priority, from an address, is stronger than another:
/// the higher priority, and between equals the address that comes later byte
/// by byte.
pub open spec fn stronger(
    priority: u8,
    from: Ipv4Addr,
    other_priority: u8,
    other: Ipv4Addr,
) -> bool {
    priority > other_priority || (priority == other_priority && (from.a > other.a || (from.a
        == other.a && (from.b > other.b || (from.b == other.b && (from.c > other.c || (from.c
        == other.c && from.d > other.d)))))))
}

/// Which of two claims is stronger is decided by the priority, and between
/// equals by the address, byte by byte.
pub proof fn lemma_the_stronger_claim_wins(settings: Settings, from: Ipv4Addr, priority: u8)
    ensures
        settings.loses_to(from, priority) <==> stronger(
            priority,
            from,
            settings.priority,
            settings.address,
        ),
        settings.beats(from, priority) <==> stronger(
            settings.priority,
            settings.address,
            priority,
            from,
        ),
{
    crate::net::lemma_addresses_are_ordered_by_their_bytes(from, settings.address);
    crate::net::lemma_addresses_are_ordered_by_their_bytes(settings.address, from);
}

/// A claim that is not stronger leaves a master exactly as it was: the moment
/// its next advertisement is due does not move, and nothing is asked for.
pub proof fn lemma_a_weaker_claim_leaves_a_master_alone(
    master: MachineView,
    from: Ipv4Addr,
    priority: u8,
    now: Instant,
)
    requires
        master.state == State::Master,
        priority != 0,
        !stronger(priority, from, master.settings.priority, master.settings.address),
    ensures
        master.heard(from, priority, now) == master,
        master.hearing(from, priority) == Seq::<ActionView>::empty(),
{
    lemma_the_stronger_claim_wins(master.settings, from, priority);
}

/// Having heard several claims, one after the other.
pub open spec fn after_claims(
    machine: MachineView,
    claims: Seq<(Ipv4Addr, u8, Instant)>,
) -> MachineView
    decreases claims.len(),
{
    if claims.len() == 0 {
        machine
    } else {
        after_claims(machine, claims.drop_last()).heard(
            claims.last().0,
            claims.last().1,
            claims.last().2,
        )
    }
}

/// A master that advertised at one moment has its next advertisement due
/// exactly one interval later, whatever weaker claims it hears in between.
pub proof fn lemma_weaker_claims_do_not_hold_an_advertisement_back(
    master: MachineView,
    now: Instant,
    claims: Seq<(Ipv4Addr, u8, Instant)>,
    then: Instant,
)
    requires
        master.wf(),
        master.advertisement_due(now),
        now.wf(),
        forall|i: int|
            0 <= i < claims.len() ==> (#[trigger] claims[i]).1 != 0 && !stronger(
                claims[i].1,
                claims[i].0,
                master.settings.priority,
                master.settings.address,
            ),
    ensures
        after_claims(master.ticked(now), claims) == master.ticked(now),
        (after_claims(master.ticked(now), claims).ticking(then).len() == 1) <==> then.nanos
            >= now.nanos + master.settings.interval.nanos,
    decreases claims.len(),
{
    if claims.len() > 0 {
        let front = claims.drop_last();
        assert forall|i: int| 0 <= i < front.len() implies (#[trigger] front[i]).1 != 0
            && !stronger(
            front[i].1,
            front[i].0,
            master.settings.priority,
            master.settings.address,
        ) by {
            assert(claims[i] == front[i]);
        }
        lemma_weaker_claims_do_not_hold_an_advertisement_back(master, now, front, then);
        let last = claims[claims.len() - 1];
        lemma_a_weaker_claim_leaves_a_master_alone(master.ticked(now), last.0, last.1, last.2);
    }
}

/// A stronger claim makes a master a backup that waits three intervals and
/// its skew, and asks for the change to be written down and the addresses to
/// be dropped.
pub proof fn lemma_a_stronger_claim_ends_a_master(
    master: MachineView,
    from: Ipv4Addr,
    priority: u8,
    now: Instant,
)
    requires
        master.state == State::Master,
        master.settings.interval.nanos < 0x4000_0000_0000_0000,
        now.wf(),
        priority != 0,
        stronger(priority, from, master.settings.priority, master.settings.address),
    ensures
        ({
            let after = master.heard(from, priority, now);
            &&& after.state == State::Backup
            &&& after.advertise_at is None
            &&& after.claim_at matches Some(due) && due.nanos == now.nanos + 3
                * master.settings.interval.nanos + (256 - master.settings.priority)
                * master.settings.interval.nanos / 256
        }),
        master.hearing(from, priority) == seq![
            ActionView::Record(
                Transition {
                    from: State::Master,
                    to: State::Backup,
                    reason: Reason::StrongerPeer,
                },
            ),
            ActionView::DropAddresses,
        ],
{
    lemma_the_stronger_claim_wins(master.settings, from, priority);
    lemma_ordinary_timers_fit(master.settings.interval, master.settings.priority);
}

/// A peer that gives the role up is answered at once by the master, whose
/// next advertisement is then due one interval later.
pub proof fn lemma_a_leaving_peer_is_answered_at_once(
    master: MachineView,
    from: Ipv4Addr,
    now: Instant,
    then: Instant,
)
    requires
        master.wf(),
        master.state == State::Master,
        now.wf(),
    ensures
        master.hearing(from, 0) == seq![
            ActionView::Advertise {
                vrid: master.settings.vrid,
                priority: master.settings.priority,
                interval_centiseconds: master.settings.centiseconds(),
                addresses: master.settings.virtual_addresses@,
            },
        ],
        master.heard(from, 0, now).state == State::Master,
        master.heard(from, 0, now).advertisement_due(then) <==> then.nanos >= now.nanos
            + master.settings.interval.nanos,
{
}

/// A backup that hears a claim it does not beat, or may not preempt, waits
/// anew from that moment: three intervals and its skew. It stays a backup and
/// asks for nothing.
pub proof fn lemma_a_backup_waits_anew(
    backup: MachineView,
    from: Ipv4Addr,
    priority: u8,
    now: Instant,
)
    requires
        backup.state == State::Backup,
        backup.settings.interval.nanos < 0x4000_0000_0000_0000,
        now.wf(),
        priority != 0,
    ensures
        backup.heard(from, priority, now).state == State::Backup,
        backup.hearing(from, priority) == Seq::<ActionView>::empty(),
        !backup.settings.preempt || !stronger(
            backup.settings.priority,
            backup.settings.address,
            priority,
            from,
        ) ==> (backup.heard(from, priority, now).claim_at matches Some(due) && due.nanos
            == now.nanos + 3 * backup.settings.interval.nanos + (256 - backup.settings.priority)
            * backup.settings.interval.nanos / 256),
        backup.settings.preempt && stronger(
            backup.settings.priority,
            backup.settings.address,
            priority,
            from,
        ) ==> backup.heard(from, priority, now) == backup,
{
    lemma_the_stronger_claim_wins(backup.settings, from, priority);
    lemma_ordinary_timers_fit(backup.settings.interval, backup.settings.priority);
}

/// A backup whose master gives the role up waits the skew alone: the part of
/// one interval its priority leaves out of 256.
pub proof fn lemma_a_backup_follows_after_its_skew(backup: MachineView, from: Ipv4Addr, now: Instant)
    requires
        backup.state == State::Backup,
        backup.settings.interval.nanos < 0x4000_0000_0000_0000,
        now.wf(),
    ensures
        backup.heard(from, 0, now).state == State::Backup,
        backup.heard(from, 0, now).claim_at matches Some(due) && due.nanos == now.nanos + (256
            - backup.settings.priority) * backup.settings.interval.nanos / 256,
        backup.hearing(from, 0) == Seq::<ActionView>::empty(),
{
    lemma_ordinary_timers_fit(backup.settings.interval, backup.settings.priority);
}

/// The owner of the addresses is the master at once and says so; everybody
/// else waits three intervals and a skew behind nobody, with the addresses
/// dropped in case a process that died left them.
pub proof fn lemma_a_start_is_a_claim_only_for_the_owner(machine: MachineView, now: Instant)
    requires
        machine.settings.interval.nanos < 0x4000_0000_0000_0000,
        now.wf(),
    ensures
        machine.settings.priority == 255 ==> {
            let after = machine.started(now);
            &&& after.state == State::Master
            &&& after.claim_at is None
            &&& after.advertise_at matches Some(due) && due.nanos == now.nanos
                + machine.settings.interval.nanos
            &&& machine.starting().contains(machine.settings.claim(255))
            &&& machine.starting().contains(ActionView::TakeAddresses)
        },
        machine.settings.priority != 255 ==> {
            let after = machine.started(now);
            &&& after.state == State::Backup
            &&& after.advertise_at is None
            &&& after.claim_at matches Some(due) && due.nanos == now.nanos + 3
                * machine.settings.interval.nanos + (256 - machine.settings.priority)
                * machine.settings.interval.nanos / 256
            &&& machine.starting().contains(ActionView::DropAddresses)
            &&& forall|priority: u8|
                !machine.starting().contains(#[trigger] machine.settings.claim(priority))
        },
{
    lemma_ordinary_timers_fit(machine.settings.interval, machine.settings.priority);
    assert(machine.rising(Reason::Started)[1] == machine.settings.claim(
        machine.settings.priority,
    ));
    assert(machine.rising(Reason::Started)[2] == ActionView::TakeAddresses);
    assert(machine.falling(Reason::Started)[1] == ActionView::DropAddresses);
}

/// A backup that heard nobody takes the role: it writes that down, advertises
/// its own claim before the first interval is over and takes the addresses.
pub proof fn lemma_a_claim_is_written_down_said_and_carried_out(
    backup: MachineView,
    now: Instant,
)
    requires
        backup.wf(),
        backup.state == State::Backup,
        backup.claim_at->0.nanos <= now.nanos,
        now.wf(),
    ensures
        backup.ticking(now) == seq![
            ActionView::Record(
                Transition {
                    from: State::Backup,
                    to: State::Master,
                    reason: Reason::NobodyElseAnswered,
                },
            ),
            ActionView::Advertise {
                vrid: backup.settings.vrid,
                priority: backup.settings.priority,
                interval_centiseconds: backup.settings.centiseconds(),
                addresses: backup.settings.virtual_addresses@,
            },
            ActionView::TakeAddresses,
        ],
        backup.ticked(now).state == State::Master,
        backup.ticked(now).claim_at is None,
        backup.ticked(now).advertise_at matches Some(due) && due.nanos == now.nanos
            + backup.settings.interval.nanos,
{
}

/// What is advertised carries the identity, the addresses and the priority,
/// and the interval in whole hundredths of a second, as far as twelve bits
/// hold it.
pub proof fn lemma_a_claim_says_what_it_was_set_up_with(settings: Settings, priority: u8)
    ensures
        settings.claim(priority) == (ActionView::Advertise {
            vrid: settings.vrid,
            priority,
            interval_centiseconds: settings.centiseconds(),
            addresses: settings.virtual_addresses@,
        }),
        settings.interval.nanos < 40_960_000_000 ==> settings.centiseconds() * 10_000_000
            <= settings.interval.nanos < (settings.centiseconds() + 1) * 10_000_000,
        settings.interval.nanos >= 40_960_000_000 ==> settings.centiseconds() == 4095,
{
}

/// A node that stops leaves no timer running. Only a master has a role to
/// give up, and says so with a priority of zero before anything else.
pub proof fn lemma_only_a_master_says_that_it_stops(machine: MachineView)
    ensures
        machine.stopped().state == State::Initialize,
        machine.stopped().advertise_at is None,
        machine.stopped().claim_at is None,
        machine.stopped().settings == machine.settings,
        machine.stopping().last() == ActionView::DropAddresses,
        machine.stopping()[machine.stopping().len() - 2] == ActionView::Record(
            Transition { from: machine.state, to: State::Initialize, reason: Reason::Stopped },
        ),
        machine.state == State::Master ==> machine.stopping().len() == 3 && machine.stopping()[0]
            == (ActionView::Advertise {
            vrid: machine.settings.vrid,
            priority: 0,
            interval_centiseconds: machine.settings.centiseconds(),
            addresses: machine.settings.virtual_addresses@,
        }),
        machine.state != State::Master ==> machine.stopping().len() == 2,
{
}

/// A lowered claim is the claim from then on. It ends a master, which then
/// waits as long as its new priority has to, and leaves every other node
/// where it stands.
pub proof fn lemma_a_lowered_claim_ends_a_master(machine: MachineView, priority: u8, now: Instant)
    requires
        priority != machine.settings.priority,
        machine.settings.interval.nanos < 0x4000_0000_0000_0000,
        now.wf(),
    ensures
        machine.demoted(priority, now).settings.priority == priority,
        machine.demoted(priority, now).configured == machine.configured,
        machine.state == State::Master ==> {
            let after = machine.demoted(priority, now);
            &&& after.state == State::Backup
            &&& after.advertise_at is None
            &&& after.claim_at matches Some(due) && due.nanos == now.nanos + 3
                * machine.settings.interval.nanos + (256 - priority)
                * machine.settings.interval.nanos / 256
            &&& machine.demoting(priority) == seq![
                ActionView::Record(
                    Transition {
                        from: State::Master,
                        to: State::Backup,
                        reason: Reason::GatewayLost,
                    },
                ),
                ActionView::DropAddresses,
            ]
        },
        machine.state != State::Master ==> {
            let after = machine.demoted(priority, now);
            &&& after.state == machine.state
            &&& after.advertise_at == machine.advertise_at
            &&& after.claim_at == machine.claim_at
            &&& machine.demoting(priority) == Seq::<ActionView>::empty()
        },
{
    lemma_ordinary_timers_fit(machine.settings.interval, priority);
}

/// A master that cannot take its addresses stands down and waits like any
/// other backup; nobody else has anything to stand down from.
pub proof fn lemma_a_master_without_its_addresses_stands_down(machine: MachineView, now: Instant)
    requires
        machine.settings.interval.nanos < 0x4000_0000_0000_0000,
        now.wf(),
    ensures
        machine.state == State::Master ==> {
            let after = machine.renounced(now);
            &&& after.state == State::Backup
            &&& after.settings == machine.settings
            &&& after.advertise_at is None
            &&& after.claim_at matches Some(due) && due.nanos == now.nanos + 3
                * machine.settings.interval.nanos + (256 - machine.settings.priority)
                * machine.settings.interval.nanos / 256
            &&& machine.renouncing() == seq![
                ActionView::Record(
                    Transition {
                        from: State::Master,
                        to: State::Backup,
                        reason: Reason::AddressesNotTaken,
                    },
                ),
                ActionView::DropAddresses,
            ]
        },
        machine.state != State::Master ==> machine.renounced(now) == machine && machine.renouncing()
            == Seq::<ActionView>::empty(),
{
    lemma_ordinary_timers_fit(machine.settings.interval, machine.settings.priority);
}

/// Nothing a node hears and no moment changes what it was set up with, and
/// only what arrives is counted: each packet once, as acted on or as dropped.
pub proof fn lemma_only_packets_are_counted(
    machine: MachineView,
    from: Ipv4Addr,
    bytes: Seq<u8>,
    priority: u8,
    now: Instant,
)
    requires
        machine.accepted < u64::MAX,
        machine.ignored < u64::MAX,
    ensures
        ({
            let after = machine.judged(from, bytes, now);
            &&& after.settings == machine.settings
            &&& after.configured == machine.configured
            &&& after.accepted + after.ignored == machine.accepted + machine.ignored + 1
            &&& after.accepted == machine.accepted ==> after.state == machine.state
                && after.advertise_at == machine.advertise_at && after.claim_at == machine.claim_at
            &&& after.accepted > machine.accepted ==> machine.settings.peers@.contains(from)
                && bytes[1] == machine.settings.vrid
        }),
        ({
            let after = machine.ticked(now);
            &&& after.settings == machine.settings
            &&& after.configured == machine.configured
            &&& after.accepted == machine.accepted
            &&& after.ignored == machine.ignored
        }),
        ({
            let after = machine.heard(from, priority, now);
            &&& after.settings == machine.settings
            &&& after.configured == machine.configured
            &&& after.accepted == machine.accepted
            &&& after.ignored == machine.ignored
        }),
{
}

/// A packet of another virtual router is dropped under the number it names,
/// although it comes from a peer and adds up.
pub proof fn lemma_another_router_is_told_by_its_number(
    machine: MachineView,
    sent: Advertisement,
    from: Ipv4Addr,
    to: Ipv4Addr,
    now: Instant,
)
    requires
        sent.fits(),
        sent.vrid != machine.settings.vrid,
        machine.settings.peers@.contains(from),
        to == machine.settings.address || machine.settings.virtual_addresses@.contains(to),
    ensures
        machine.settings.verdict(from, sent.encoded(from, to)) == Some(
            Ignored::OtherRouter(sent.vrid),
        ),
        machine.judged(from, sent.encoded(from, to), now) == machine.dropped_one(),
{
    let all = machine.settings.destinations();
    if to == machine.settings.address {
        assert(all[all.len() - 1] == to);
    } else {
        let at = choose|i: int|
            0 <= i < machine.settings.virtual_addresses@.len()
                && machine.settings.virtual_addresses@[i] == to;
        assert(all[at] == to);
    }
    let at = choose|i: int| 0 <= i < all.len() && all[i] == to;
    crate::vrrp::packet::lemma_decode_undoes_encode(sent, from, to);
    assert(Advertisement::refusal(sent.encoded(from, to), from, all[at]) is None);
    assert(sent.read_from(sent.encoded(from, to))) by {
        assert(sent.says(sent));
    }
}

/// A packet is acted on exactly when a peer sent it, it adds up for this
/// node's own address or one of the virtual ones, and it is about this virtual
/// router. One that is not changes nothing but the count of what was ignored.
pub proof fn lemma_which_packets_are_acted_on(
    machine: MachineView,
    from: Ipv4Addr,
    bytes: Seq<u8>,
    now: Instant,
)
    ensures
        ({
            let settings = machine.settings;
            let own = Advertisement::refusal(bytes, from, settings.address) is None;
            let shared = exists|i: int|
                0 <= i < settings.virtual_addresses@.len() && (#[trigger] Advertisement::refusal(
                    bytes,
                    from,
                    settings.virtual_addresses@[i],
                )) is None;
            &&& settings.verdict(from, bytes) is None <==> settings.peers@.contains(from) && (own
                || shared) && bytes[1] == settings.vrid
            &&& !own && !shared ==> machine.judged(from, bytes, now) == (MachineView {
                ignored: machine.judged(from, bytes, now).ignored,
                ..machine
            })
            &&& !settings.peers@.contains(from) ==> settings.verdict(from, bytes) == Some(
                Ignored::UnknownPeer,
            )
        }),
{
    let settings = machine.settings;
    let shared = settings.virtual_addresses@;
    let all = settings.destinations();
    assert(all[shared.len() as int] == settings.address);
    assert forall|i: int| 0 <= i < shared.len() implies #[trigger] all[i] == shared[i] by {}
    if Advertisement::refusal(bytes, from, settings.address) is None {
        assert(Advertisement::refusal(bytes, from, all[shared.len() as int]) is None);
        assert(settings.readable(from, bytes));
    }
    if exists|i: int|
        0 <= i < shared.len() && (#[trigger] Advertisement::refusal(bytes, from, shared[i]))
            is None {
        let i = choose|i: int|
            0 <= i < shared.len() && (#[trigger] Advertisement::refusal(bytes, from, shared[i]))
                is None;
        assert(Advertisement::refusal(bytes, from, all[i]) is None);
        assert(settings.readable(from, bytes));
    }
    if settings.readable(from, bytes) {
        let i = choose|i: int|
            0 <= i < all.len() && (#[trigger] Advertisement::refusal(bytes, from, all[i])) is None;
        if i < shared.len() {
            assert(Advertisement::refusal(bytes, from, shared[i]) is None);
        } else {
            assert(all[i] == settings.address);
        }
    }
}

} // verus!
