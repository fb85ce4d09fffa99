//! Carrying the addresses a virtual router answers for.
//!
//! The state machine says when the addresses move. This says what to put on
//! the interface, what to take off it, and what to tell the segment.
//!
//! The first announcement goes with the addresses and the rest are due
//! later, so a takeover never holds the advertisement up.

use vstd::prelude::*;

use crate::net::{IpAddr, IpView};
use crate::time::{Duration, Instant};
use crate::vrrp::address::Address;
use crate::vrrp::announce::{arp, arp_bytes, neighbor, neighbor_bytes, Arp};
use crate::vrrp::interface::Interface;

verus! {

/// The errno the kernel answers when an address is not on the interface.
pub const NOT_THERE: i32 = 99;

/// How many times a move is announced.
pub const ANNOUNCEMENTS: u32 = 5;

/// How long between announcements, in milliseconds.
pub const GAP: u64 = 100;

/// One address this node carries while it holds the role.
#[derive(Clone, Copy, Debug, PartialEq, Eq)]
pub struct Carried {
    /// The address itself.
    pub address: IpAddr,
    /// How much of it is the network.
    pub prefix_length: u8,
}

/// One thing to do on the interface.
#[derive(Clone, Debug, PartialEq, Eq)]
pub enum Step {
    /// Put an address on it.
    Put(Address),
    /// Take an address off it.
    Remove(Address),
    /// Send a whole frame out of it.
    Frame(Vec<u8>),
}

/// What a step does, apart from how it is held.
pub enum StepView {
    Put { address: IpView, prefix_length: u8, interface: u32 },
    Remove { address: IpView, prefix_length: u8, interface: u32 },
    Frame(Seq<u8>),
}

impl View for Step {
    type V = StepView;

    open spec fn view(&self) -> StepView {
        match *self {
            Step::Put(held) => StepView::Put {
                address: held.address@,
                prefix_length: held.prefix_length,
                interface: held.interface,
            },
            Step::Remove(held) => StepView::Remove {
                address: held.address@,
                prefix_length: held.prefix_length,
                interface: held.interface,
            },
            Step::Frame(bytes) => StepView::Frame(bytes@),
        }
    }
}

/// Whether a step that failed with this errno counts as done.
pub open spec fn forgiven(step: StepView, errno: Option<i32>) -> bool {
    step is Remove && errno == Some(NOT_THERE)
}

/// What a list of steps does.
pub open spec fn steps_seen(steps: Seq<Step>) -> Seq<StepView> {
    Seq::new(steps.len(), |i: int| steps[i]@)
}

/// Every address put on an interface, in order.
pub open spec fn puts(addresses: Seq<Carried>, interface: u32) -> Seq<StepView> {
    Seq::new(
        addresses.len(),
        |i: int|
            StepView::Put {
                address: addresses[i].address@,
                prefix_length: addresses[i].prefix_length,
                interface,
            },
    )
}

/// Every address taken off an interface, in order.
pub open spec fn removals(addresses: Seq<Carried>, interface: u32) -> Seq<StepView> {
    Seq::new(
        addresses.len(),
        |i: int|
            StepView::Remove {
                address: addresses[i].address@,
                prefix_length: addresses[i].prefix_length,
                interface,
            },
    )
}

/// The frames that announce one address: both forms of ARP, or a neighbor
/// advertisement.
pub open spec fn frames_of(address: IpView, mac: Seq<u8>) -> Seq<StepView> {
    match address {
        IpView::V4(address) => seq![
            StepView::Frame(arp_bytes(Arp::Request, address, mac)),
            StepView::Frame(arp_bytes(Arp::Reply, address, mac)),
        ],
        IpView::V6(octets) => seq![StepView::Frame(neighbor_bytes(octets, mac))],
    }
}

/// The frames that announce every address, in order.
pub open spec fn frames(addresses: Seq<Carried>, mac: Seq<u8>) -> Seq<StepView>
    decreases addresses.len(),
{
    if addresses.len() == 0 {
        seq![]
    } else {
        frames(addresses.drop_last(), mac) + frames_of(addresses.last().address@, mac)
    }
}

/// Where a carrier stands.
pub struct CarrierView {
    pub name: Seq<char>,
    pub index: u32,
    pub mac: Seq<u8>,
    pub addresses: Seq<Carried>,
    /// When the next announcement is due, and how many are left with it.
    pub due: Option<(Instant, u32)>,
    /// Whether announcing is switched off.
    pub silent: bool,
}

impl CarrierView {
    /// One announcement of everything carried.
    pub open spec fn announcement(self) -> Seq<StepView> {
        if self.silent {
            seq![]
        } else {
            frames(self.addresses, self.mac)
        }
    }

    /// Whether an announcement is due.
    pub open spec fn is_due(self, now: Instant) -> bool {
        match self.due {
            Some((at, _)) => now.nanos >= at.nanos,
            None => false,
        }
    }

    /// Having taken the addresses and announced them for the first time.
    pub open spec fn after_take(self, now: Instant) -> CarrierView {
        CarrierView {
            due: Some(
                (Instant { nanos: (now.nanos + 100_000_000) as u128 }, (ANNOUNCEMENTS - 1) as u32),
            ),
            ..self
        }
    }

    /// Having sent an announcement that was due.
    pub open spec fn after_announcement(self, now: Instant) -> CarrierView {
        match self.due {
            Some((_, left)) if left > 1 => CarrierView {
                due: Some((Instant { nanos: (now.nanos + 100_000_000) as u128 }, (left - 1) as u32)),
                ..self
            },
            _ => CarrierView { due: None, ..self },
        }
    }
}

/// The interface, the addresses, and what is still to be announced.
pub struct Carrier {
    interface: Interface,
    addresses: Vec<Carried>,
    due: Option<(Instant, u32)>,
    silent: bool,
}

impl View for Carrier {
    type V = CarrierView;

    closed spec fn view(&self) -> CarrierView {
        CarrierView {
            name: self.interface.name@,
            index: self.interface.index,
            mac: self.interface.mac@,
            addresses: self.addresses@,
            due: self.due,
            silent: self.silent,
        }
    }
}

impl Carrier {
    /// A carrier of these addresses on this interface.
    pub fn new(interface: Interface, addresses: Vec<Carried>, silent: bool) -> (r: Self)
        ensures
            r@ == (CarrierView {
                name: interface.name@,
                index: interface.index,
                mac: interface.mac@,
                addresses: addresses@,
                due: None,
                silent,
            }),
    {
        Carrier { interface, addresses, due: None, silent }
    }

    /// The addresses this node carries while it holds the role.
    pub fn addresses(&self) -> (r: &[Carried])
        ensures
            r@ == self@.addresses,
    {
        self.addresses.as_slice()
    }

    /// What taking the addresses takes: every address is put on the
    /// interface, and only then is any of them announced.
    ///
    /// The first step that fails ends it, and the caller stands the node
    /// down. When all of them went, [`Carrier::taken`] says so.
    pub fn take(&self) -> (r: Vec<Step>)
        ensures
            steps_seen(r@) == puts(self@.addresses, self@.index) + self@.announcement(),
    {
        let mut steps: Vec<Step> = Vec::new();
        let mut at: usize = 0;
        let ghost all = puts(self@.addresses, self@.index);
        assert(steps_seen(steps@) =~= all.take(0));
        while at < self.addresses.len()
            invariant
                at <= self.addresses.len(),
                all == puts(self@.addresses, self@.index),
                steps_seen(steps@) == all.take(at as int),
            decreases self.addresses.len() - at,
        {
            let ghost before = steps_seen(steps@);
            steps.push(Step::Put(self.address(&self.addresses[at])));
            assert(steps_seen(steps@) =~= before.push(all[at as int]));
            assert(steps_seen(steps@) =~= all.take(at + 1));
            at += 1;
        }
        assert(all.take(all.len() as int) =~= all);
        self.announce(&mut steps);
        steps
    }

    /// Notes that every step of a take went, which is when the rest of the
    /// announcements become due.
    pub fn taken(&mut self, now: Instant)
        requires
            now.wf(),
        ensures
            final(self)@ == old(self)@.after_take(now),
    {
        self.due = Some((now.after(Duration::from_millis(GAP)), ANNOUNCEMENTS - 1));
    }

    /// What dropping the addresses takes. Nothing is announced any more.
    pub fn drop_all(&mut self) -> (r: Vec<Step>)
        ensures
            final(self)@ == (CarrierView { due: None, ..old(self)@ }),
            steps_seen(r@) == removals(old(self)@.addresses, old(self)@.index),
    {
        self.due = None;
        let mut steps: Vec<Step> = Vec::new();
        let mut at: usize = 0;
        let ghost all = removals(self@.addresses, self@.index);
        assert(steps_seen(steps@) =~= all.take(0));
        while at < self.addresses.len()
            invariant
                at <= self.addresses.len(),
                all == removals(self@.addresses, self@.index),
                steps_seen(steps@) == all.take(at as int),
                self@ == (CarrierView { due: None, ..old(self)@ }),
            decreases self.addresses.len() - at,
        {
            let ghost before = steps_seen(steps@);
            steps.push(Step::Remove(self.address(&self.addresses[at])));
            assert(steps_seen(steps@) =~= before.push(all[at as int]));
            assert(steps_seen(steps@) =~= all.take(at + 1));
            at += 1;
        }
        assert(all.take(all.len() as int) =~= all);
        steps
    }

    /// Whether a step that failed with this errno counts as done.
    ///
    /// Removing an address asks for an end state, and an address that is not
    /// there is that end state.
    pub fn forgives(step: &Step, errno: Option<i32>) -> (r: bool)
        ensures
            r == forgiven(step@, errno),
    {
        match (step, errno) {
            (Step::Remove(_), Some(code)) => code == NOT_THERE,
            _ => false,
        }
    }

    /// What is due at this moment: one announcement, or nothing.
    ///
    /// When all of it went, [`Carrier::announced`] says so; until then it
    /// stays due.
    pub fn tick(&self, now: Instant) -> (r: Option<Vec<Step>>)
        ensures
            match r {
                Some(steps) => self@.is_due(now) && steps_seen(steps@) == self@.announcement(),
                None => !self@.is_due(now),
            },
    {
        match self.due {
            Some((at, _)) => {
                if now.nanos < at.nanos {
                    return None;
                }
            },
            None => {
                return None;
            },
        }
        let mut steps: Vec<Step> = Vec::new();
        self.announce(&mut steps);
        assert(steps_seen(steps@) =~= self@.announcement());
        Some(steps)
    }

    /// Notes that an announcement that was due went.
    pub fn announced(&mut self, now: Instant)
        requires
            now.wf(),
        ensures
            final(self)@ == old(self)@.after_announcement(now),
    {
        self.due = match self.due {
            Some((_, left)) => if left > 1 {
                Some((now.after(Duration::from_millis(GAP)), left - 1))
            } else {
                None
            },
            None => None,
        };
    }

    /// Tells the segment about every address, once.
    fn announce(&self, steps: &mut Vec<Step>)
        ensures
            steps_seen(final(steps)@) == steps_seen(old(steps)@) + self@.announcement(),
    {
        let ghost before = steps_seen(steps@);
        if self.silent {
            assert(steps_seen(steps@) =~= before + self@.announcement());
            return;
        }
        let ghost mac = self@.mac;
        let mut at: usize = 0;
        assert(steps_seen(steps@) =~= before + frames(self@.addresses.take(0), mac));
        while at < self.addresses.len()
            invariant
                at <= self.addresses.len(),
                mac == self@.mac,
                steps_seen(steps@) == before + frames(self@.addresses.take(at as int), mac),
            decreases self.addresses.len() - at,
        {
            let carried = self.addresses[at];
            let ghost so_far = steps_seen(steps@);
            proof {
                assert(self@.addresses.take(at + 1).drop_last() =~= self@.addresses.take(at as int));
                assert(self@.addresses.take(at + 1).last() == carried);
            }
            match carried.address {
                IpAddr::V4(address) => {
                    steps.push(Step::Frame(arp(Arp::Request, address, self.interface.mac)));
                    steps.push(Step::Frame(arp(Arp::Reply, address, self.interface.mac)));
                },
                IpAddr::V6(address) => {
                    steps.push(Step::Frame(neighbor(address, self.interface.mac)));
                },
            }
            assert(steps_seen(steps@) =~= so_far + frames_of(carried.address@, mac));
            assert(steps_seen(steps@) =~= before + frames(self@.addresses.take(at + 1), mac));
            at += 1;
        }
        assert(self@.addresses.take(self@.addresses.len() as int) =~= self@.addresses);
    }

    /// One address, as netlink addresses it.
    fn address(&self, carried: &Carried) -> (r: Address)
        ensures
            r == (Address {
                address: carried.address,
                prefix_length: carried.prefix_length,
                interface: self@.index,
            }),
    {
        Address {
            address: carried.address,
            prefix_length: carried.prefix_length,
            interface: self.interface.index,
        }
    }
}

/// Why a step could not be done.
#[derive(Clone, Debug, PartialEq, Eq)]
pub struct Trouble {
    /// The errno, when there is one.
    pub errno: Option<i32>,
    /// What is said about it.
    pub text: String,
}

/// What a step came to, apart from how it is held.
pub open spec fn step_outcome(outcome: Result<(), Trouble>) -> Result<(), (Option<i32>, Seq<char>)> {
    match outcome {
        Ok(_) => Ok(()),
        Err(trouble) => Err((trouble.errno, trouble.text@)),
    }
}

/// Doing steps, one after the other.
pub struct Walk<'a> {
    steps: &'a [Step],
    at: usize,
    failed: Option<String>,
}

/// Doing steps, apart from how it is held.
pub struct WalkView {
    /// The steps, in order.
    pub steps: Seq<StepView>,
    /// How many of them are done.
    pub at: int,
    /// What is said about the one that failed.
    pub failed: Option<Seq<char>>,
}

impl WalkView {
    /// Whether the place is within the steps.
    pub open spec fn wf(self) -> bool {
        0 <= self.at <= self.steps.len()
    }

    /// Before anything is done.
    pub open spec fn begun(steps: Seq<StepView>) -> Self {
        WalkView { steps, at: 0, failed: None }
    }

    /// The step to do next: none once every one is done, or once one failed.
    pub open spec fn next(self) -> Option<StepView> {
        if self.failed is None && self.at < self.steps.len() {
            Some(self.steps[self.at])
        } else {
            None
        }
    }

    /// What comes of the next step. One whose failure is forgiven counts as
    /// done.
    pub open spec fn after(self, outcome: Result<(), (Option<i32>, Seq<char>)>) -> Self {
        match outcome {
            Err((errno, text)) if !forgiven(self.steps[self.at], errno) => WalkView {
                failed: Some(text),
                ..self
            },
            _ => WalkView { at: self.at + 1, ..self },
        }
    }

    /// What doing the steps comes to.
    pub open spec fn outcome(self) -> Result<(), Seq<char>> {
        match self.failed {
            Some(text) => Err(text),
            None => Ok(()),
        }
    }
}

impl<'a> View for Walk<'a> {
    type V = WalkView;

    closed spec fn view(&self) -> WalkView {
        WalkView {
            steps: steps_seen(self.steps@),
            at: self.at as int,
            failed: match self.failed {
                Some(text) => Some(text@),
                None => None,
            },
        }
    }
}

impl<'a> Walk<'a> {
    /// Nothing is done yet.
    pub fn new(steps: &'a [Step]) -> (r: Self)
        ensures
            r@ == WalkView::begun(steps_seen(steps@)),
            r@.wf(),
    {
        Walk { steps, at: 0, failed: None }
    }

    /// The step to do next.
    pub fn next(&self) -> (r: Option<&'a Step>)
        requires
            self@.wf(),
        ensures
            match r {
                Some(step) => self@.next() == Some(step@),
                None => self@.next() is None,
            },
    {
        assert(steps_seen(self.steps@).len() == self.steps@.len());
        if self.failed.is_some() || self.at == self.steps.len() {
            return None;
        }
        assert(steps_seen(self.steps@)[self.at as int] == self.steps@[self.at as int]@);
        Some(&self.steps[self.at])
    }

    /// Takes what came of the next step.
    pub fn heard(&mut self, outcome: Result<(), Trouble>)
        requires
            old(self)@.wf(),
            old(self)@.next() is Some,
        ensures
            final(self)@ == old(self)@.after(step_outcome(outcome)),
            final(self)@.wf(),
    {
        assert(steps_seen(self.steps@).len() == self.steps@.len());
        assert(steps_seen(self.steps@)[self.at as int] == self.steps@[self.at as int]@);
        if let Err(trouble) = outcome {
            if !Carrier::forgives(&self.steps[self.at], trouble.errno) {
                self.failed = Some(trouble.text);
                return ;
            }
        }
        if self.at < self.steps.len() {
            self.at = self.at + 1;
        }
    }

    /// What doing the steps comes to.
    pub fn outcome(self) -> (r: Result<(), String>)
        requires
            self@.wf(),
            self@.next() is None,
        ensures
            (match r {
                Ok(_) => Ok(()),
                Err(text) => Err(text@),
            }) == self@.outcome(),
    {
        match self.failed {
            Some(text) => Err(text),
            None => Ok(()),
        }
    }
}

/// Steps that came to these outcomes, one after the other.
pub open spec fn walked(
    steps: Seq<StepView>,
    outcomes: Seq<Result<(), (Option<i32>, Seq<char>)>>,
) -> WalkView
    decreases outcomes.len(),
{
    if outcomes.len() == 0 {
        WalkView::begun(steps)
    } else {
        walked(steps, outcomes.drop_last()).after(outcomes.last())
    }
}

/// Whether a step is done: it succeeded, or its failure is forgiven.
pub open spec fn is_done(step: StepView, outcome: Result<(), (Option<i32>, Seq<char>)>) -> bool {
    outcome matches Err((errno, _)) ==> forgiven(step, errno)
}

/// As long as every step is done the next one is due, and when all of them
/// are, the walk succeeded.
pub proof fn lemma_steps_are_done_in_order(
    steps: Seq<StepView>,
    outcomes: Seq<Result<(), (Option<i32>, Seq<char>)>>,
)
    requires
        outcomes.len() <= steps.len(),
        forall|i: int| 0 <= i < outcomes.len() ==> #[trigger] is_done(steps[i], outcomes[i]),
    ensures
        walked(steps, outcomes).outcome() is Ok,
        walked(steps, outcomes).next() == (if outcomes.len() < steps.len() {
            Some(steps[outcomes.len() as int])
        } else {
            None
        }),
{
    lemma_done_steps_count(steps, outcomes);
}

proof fn lemma_done_steps_count(
    steps: Seq<StepView>,
    outcomes: Seq<Result<(), (Option<i32>, Seq<char>)>>,
)
    requires
        outcomes.len() <= steps.len(),
        forall|i: int| 0 <= i < outcomes.len() ==> #[trigger] is_done(steps[i], outcomes[i]),
    ensures
        walked(steps, outcomes) == (WalkView {
            at: outcomes.len() as int,
            ..WalkView::begun(steps)
        }),
    decreases outcomes.len(),
{
    if outcomes.len() > 0 {
        let front = outcomes.drop_last();
        let last = outcomes.len() - 1;
        assert forall|i: int| 0 <= i < front.len() implies #[trigger] is_done(
            steps[i],
            front[i],
        ) by {
            assert(is_done(steps[i], outcomes[i]));
        }
        lemma_done_steps_count(steps, front);
        assert(is_done(steps[last], outcomes[last]));
    }
}

/// The first step that fails and is not forgiven is the last, and what is
/// said about it is what comes back.
pub proof fn lemma_a_walk_stops_at_the_first_failure(
    steps: Seq<StepView>,
    outcomes: Seq<Result<(), (Option<i32>, Seq<char>)>>,
    errno: Option<i32>,
    text: Seq<char>,
)
    requires
        outcomes.len() < steps.len(),
        forall|i: int| 0 <= i < outcomes.len() ==> #[trigger] is_done(steps[i], outcomes[i]),
        !forgiven(steps[outcomes.len() as int], errno),
    ensures
        walked(steps, outcomes.push(Err((errno, text)))).next() is None,
        walked(steps, outcomes.push(Err((errno, text)))).outcome() == Err::<(), Seq<char>>(text),
{
    lemma_done_steps_count(steps, outcomes);
    assert(outcomes.push(Err((errno, text))).drop_last() =~= outcomes);
}

/// A move is announced five times and no more: once with the take, and four
/// times after it.
pub proof fn lemma_a_move_is_announced_five_times(
    carrier: CarrierView,
    now: Instant,
    first: Instant,
    second: Instant,
    third: Instant,
    fourth: Instant,
)
    ensures
        carrier.after_take(now).due is Some,
        carrier.after_take(now).after_announcement(first).due is Some,
        carrier.after_take(now).after_announcement(first).after_announcement(second).due is Some,
        carrier.after_take(now).after_announcement(first).after_announcement(
            second,
        ).after_announcement(third).due is Some,
        carrier.after_take(now).after_announcement(first).after_announcement(
            second,
        ).after_announcement(third).after_announcement(fourth).due is None,
{
}

/// What is put on the interface is what is taken off it again: the same
/// addresses, with the same networks, on the same interface, in their order.
pub proof fn lemma_what_is_put_is_removed(addresses: Seq<Carried>, interface: u32, at: int)
    requires
        0 <= at < addresses.len(),
    ensures
        puts(addresses, interface).len() == addresses.len(),
        removals(addresses, interface).len() == addresses.len(),
        puts(addresses, interface)[at] matches StepView::Put {
            address,
            prefix_length,
            interface: on,
        } && address == addresses[at].address@ && prefix_length == addresses[at].prefix_length && on
            == interface,
        removals(addresses, interface)[at] matches StepView::Remove {
            address,
            prefix_length,
            interface: on,
        } && address == addresses[at].address@ && prefix_length == addresses[at].prefix_length && on
            == interface,
{
}

/// Every address is announced, in their order: one of four bytes by an ARP
/// request and then an ARP reply, one of sixteen by one neighbor
/// advertisement. A silent carrier announces nothing.
pub proof fn lemma_every_address_is_announced(
    carrier: CarrierView,
    addresses: Seq<Carried>,
    more: Carried,
)
    ensures
        frames(addresses.push(more), carrier.mac) == frames(addresses, carrier.mac) + (
        match more.address@ {
            IpView::V4(address) => seq![
                StepView::Frame(arp_bytes(Arp::Request, address, carrier.mac)),
                StepView::Frame(arp_bytes(Arp::Reply, address, carrier.mac)),
            ],
            IpView::V6(octets) => seq![StepView::Frame(neighbor_bytes(octets, carrier.mac))],
        }),
        frames(seq![], carrier.mac) == Seq::<StepView>::empty(),
        carrier.silent ==> carrier.announcement() == Seq::<StepView>::empty(),
        !carrier.silent ==> carrier.announcement() == frames(carrier.addresses, carrier.mac),
{
    assert(addresses.push(more).drop_last() =~= addresses);
}

/// Announcements are a tenth of a second apart: after a take, and after each
/// of them, the next is due from then on and not before; and each one that
/// went leaves one less to go.
pub proof fn lemma_announcements_are_a_tenth_of_a_second_apart(
    carrier: CarrierView,
    now: Instant,
    then: Instant,
    left: u32,
)
    requires
        now.nanos + 100_000_000 <= u128::MAX,
    ensures
        carrier.after_take(now).is_due(then) <==> then.nanos >= now.nanos + 100_000_000,
        carrier.after_take(now).due matches Some((_, going)) && going == 4,
        carrier.due is None ==> !carrier.is_due(then),
        (carrier.due matches Some((_, going)) && going == left && left > 1) ==> {
            &&& (carrier.after_announcement(now).due matches Some((_, fewer)) && fewer == left - 1)
            &&& carrier.after_announcement(now).is_due(then) <==> then.nanos >= now.nanos
                + 100_000_000
        },
        (carrier.due matches Some((_, going)) && going <= 1) ==> carrier.after_announcement(
            now,
        ).due is None,
{
}

/// Only one failure is forgiven: that an address to be taken off was not
/// there.
pub proof fn lemma_only_a_missing_address_is_forgiven(step: StepView, errno: Option<i32>)
    ensures
        forgiven(step, errno) <==> step is Remove && errno == Some(99i32),
{
}

/// Taking and announcing change nothing of what is carried, or where.
pub proof fn lemma_announcing_keeps_what_is_carried(carrier: CarrierView, now: Instant)
    ensures
        carrier.after_take(now).addresses == carrier.addresses,
        carrier.after_take(now).index == carrier.index,
        carrier.after_take(now).mac == carrier.mac,
        carrier.after_announcement(now).addresses == carrier.addresses,
        carrier.after_announcement(now).index == carrier.index,
        carrier.after_announcement(now).mac == carrier.mac,
{
}

} // verus!
