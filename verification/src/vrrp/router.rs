//! One virtual router, driven an event at a time.
//!
//! Everything the state machine needs to run is decided here: what is sent
//! to whom, what the gateway's answers mean, and what is written down. The
//! caller owns the sockets. It hands in what arrived and does the tasks it
//! gets back, in order.

use vstd::prelude::*;

use crate::net::{IpAddr, IpView, Ipv4Addr};
use crate::time::{Duration, Instant, LONGEST};
use crate::vrrp::address::seen;
use crate::vrrp::carrier::Carried;
use crate::vrrp::echo::Echo;
use crate::vrrp::gateway::{Effect, Health, Watch, WatchView};
use crate::vrrp::packet::{lemma_decode_undoes_encode, packet_between, Advertisement};
use crate::vrrp::record::Line;
use crate::vrrp::state::{asked, fits, timers_fit, Action, ActionView, Machine, MachineView, Settings};

verus! {

/// Everything one virtual router was asked to be.
#[derive(Clone, Debug)]
pub struct Plan {
    /// What the state machine needs.
    pub settings: Settings,
    /// Interface the addresses are put on.
    pub interface: String,
    /// Addresses this node carries while it holds the role.
    pub carried: Vec<Carried>,
    /// Whether announcing is switched off.
    pub silent: bool,
    /// Whether the gateway is watched at all.
    pub watch_gateway: bool,
    /// How often the gateway is asked.
    pub check_interval: Duration,
    /// How many answers have to go missing before the claim is lowered.
    pub threshold: u32,
    /// What the claim is lowered to.
    pub demoted_priority: u8,
}

/// Something the caller has to do.
#[derive(Clone, Debug, PartialEq, Eq)]
pub enum Task {
    /// Write this down.
    Say(Line),
    /// Send these bytes to one peer.
    Send { to: Ipv4Addr, bytes: Vec<u8> },
    /// Take the addresses, and report with [`Router::taken`] how it went.
    Take,
    /// Drop the addresses, and report with [`Router::dropped`] how it went.
    Drop,
}

/// What a task asks for, apart from how it is held.
pub enum TaskView {
    Say(Line),
    Send { to: Ipv4Addr, bytes: Seq<u8> },
    Take,
    Drop,
}

impl View for Task {
    type V = TaskView;

    open spec fn view(&self) -> TaskView {
        match *self {
            Task::Say(line) => TaskView::Say(line),
            Task::Send { to, bytes } => TaskView::Send { to, bytes: bytes@ },
            Task::Take => TaskView::Take,
            Task::Drop => TaskView::Drop,
        }
    }
}

/// What a list of tasks asks for.
pub open spec fn tasks_seen(tasks: Seq<Task>) -> Seq<TaskView> {
    Seq::new(tasks.len(), |i: int| tasks[i]@)
}

/// Tasks that are still to be done, the first of them first.
pub struct Agenda {
    tasks: Vec<Task>,
}

impl View for Agenda {
    type V = Seq<TaskView>;

    closed spec fn view(&self) -> Seq<TaskView> {
        tasks_seen(self.tasks@)
    }
}

impl Agenda {
    /// These tasks, in their order.
    pub fn new(tasks: Vec<Task>) -> (r: Self)
        ensures
            r@ == tasks_seen(tasks@),
    {
        Agenda { tasks }
    }

    /// Takes the task to do next.
    pub fn next(&mut self) -> (r: Option<Task>)
        ensures
            match r {
                Some(task) => old(self)@.len() > 0 && task@ == old(self)@[0] && final(self)@
                    == old(self)@.skip(1),
                None => old(self)@.len() == 0 && final(self)@ == old(self)@,
            },
    {
        let ghost before = self@;
        if self.tasks.len() == 0 {
            return None;
        }
        let task = self.tasks.remove(0);
        assert(self@ =~= before.skip(1));
        Some(task)
    }

    /// Puts more behind what is still to be done.
    pub fn behind(&mut self, more: Vec<Task>)
        ensures
            final(self)@ == old(self)@ + tasks_seen(more@),
    {
        let ghost before = self@;
        let ghost added = tasks_seen(more@);
        let mut more = more;
        self.tasks.append(&mut more);
        assert(self@ =~= before + added);
    }
}

/// What asks for more is not overtaken by it: with more put behind, what was
/// still to be done comes first and in the same order.
pub proof fn lemma_what_is_put_behind_comes_last(
    before: Seq<TaskView>,
    more: Seq<TaskView>,
    at: int,
)
    requires
        0 <= at < before.len() + more.len(),
    ensures
        (before + more).skip(at)[0] == (if at < before.len() {
            before[at]
        } else {
            more[at - before.len()]
        }),
{
}

/// The gateway check on this node, and the question it is waiting on.
pub struct CheckView {
    pub watch: WatchView,
    /// The sequence number of the question no answer has arrived for.
    pub waiting: Option<u16>,
}

/// Whether an answer is from the gateway and to the question waited on.
pub open spec fn answer_counts(check: CheckView, from: Ipv4Addr, echo: Echo) -> bool {
    check.watch.gateway == Some(IpView::V4(from)) && check.waiting == Some(echo.sequence)
}

/// A check that has seen these answers, one after the other.
pub open spec fn after_answers(check: CheckView, answers: Seq<(Ipv4Addr, Echo)>) -> CheckView
    decreases answers.len(),
{
    if answers.len() == 0 {
        check
    } else {
        let before = after_answers(check, answers.drop_last());
        let (from, echo) = answers.last();
        if answer_counts(before, from, echo) {
            CheckView { watch: before.watch.after_answer(), waiting: None }
        } else {
            before
        }
    }
}

/// What is written down about these answers: the first one a gateway ever
/// gave.
pub open spec fn answer_lines(check: CheckView, answers: Seq<(Ipv4Addr, Echo)>) -> Seq<Line>
    decreases answers.len(),
{
    if answers.len() == 0 {
        seq![]
    } else {
        let before = after_answers(check, answers.drop_last());
        let lines = answer_lines(check, answers.drop_last());
        let (from, echo) = answers.last();
        if answer_counts(before, from, echo) && before.watch.health() == Health::Unconfirmed {
            lines.push(
                Line::Confirmed { health: before.watch.after_answer().health(), gateway: from },
            )
        } else {
            lines
        }
    }
}

/// Whether one of these answers ends a spell that had lowered the claim.
pub open spec fn answers_restore(check: CheckView, answers: Seq<(Ipv4Addr, Echo)>) -> bool
    decreases answers.len(),
{
    answers.len() > 0 && (answers_restore(check, answers.drop_last()) || {
        let before = after_answers(check, answers.drop_last());
        answer_counts(before, answers.last().0, answers.last().1) && before.watch.lowered
    })
}

/// Where a router stands.
pub struct RouterView {
    pub machine: MachineView,
    pub check: Option<CheckView>,
    pub demoted_priority: u8,
    /// When an advertisement was last acted on.
    pub heard_at: u128,
}

/// What a look at the gateway comes to.
pub struct LookView {
    pub router: RouterView,
    pub lines: Seq<Line>,
    pub actions: Seq<ActionView>,
    /// The gateway to ask now.
    pub ask: Option<Ipv4Addr>,
}

impl RouterView {
    /// The machine and the check are sound, and the timers fit at the lowered
    /// claim too.
    pub open spec fn wf(self) -> bool {
        &&& self.machine.wf()
        &&& timers_fit(self.machine.settings.interval, self.demoted_priority)
        &&& (self.check matches Some(check) ==> check.watch.wf())
    }

    /// One advertisement for each of the first peers.
    pub open spec fn sends(self, said: ActionView, peers: Seq<Ipv4Addr>) -> Seq<TaskView>
        recommends
            said is Advertise,
    {
        Seq::new(
            peers.len(),
            |i: int|
                TaskView::Send {
                    to: peers[i],
                    bytes: packet_between(
                        said->vrid,
                        said->priority,
                        said->interval_centiseconds,
                        said->addresses,
                        self.machine.settings.address,
                        peers[i],
                    ),
                },
        )
    }

    /// What one action of the machine comes to.
    pub open spec fn carries(self, action: ActionView) -> Seq<TaskView> {
        match action {
            ActionView::Advertise { .. } => self.sends(action, self.machine.settings.peers@),
            ActionView::Record(transition) => seq![
                TaskView::Say(
                    Line::Moved {
                        heard: self.heard_at,
                        vrid: self.machine.settings.vrid,
                        transition,
                        address: self.machine.settings.address,
                    },
                ),
            ],
            ActionView::TakeAddresses => seq![TaskView::Take],
            ActionView::DropAddresses => seq![TaskView::Drop],
        }
    }

    /// What the actions of the machine come to, in order.
    pub open spec fn carries_all(self, actions: Seq<ActionView>) -> Seq<TaskView>
        decreases actions.len(),
    {
        if actions.len() == 0 {
            seq![]
        } else {
            self.carries_all(actions.drop_last()) + self.carries(actions.last())
        }
    }

    /// Having taken a packet that arrived.
    pub open spec fn after_packet(
        self,
        from: Ipv4Addr,
        bytes: Seq<u8>,
        now: Instant,
        ts: u128,
    ) -> RouterView {
        RouterView {
            machine: self.machine.judged(from, bytes, now),
            heard_at: if self.machine.settings.verdict(from, bytes) is None {
                ts
            } else {
                self.heard_at
            },
            ..self
        }
    }

    /// What the machine asks for about a packet that arrived.
    pub open spec fn packet_actions(self, from: Ipv4Addr, bytes: Seq<u8>) -> Seq<ActionView> {
        if self.machine.settings.verdict(from, bytes) is Some {
            seq![]
        } else {
            self.machine.hearing(from, bytes[2])
        }
    }

    /// Having counted one question nobody answered.
    pub open spec fn after_miss(self, now: Instant) -> LookView {
        match self.check {
            None => LookView { router: self, lines: seq![], actions: seq![], ask: None },
            Some(check) => {
                let watch = check.watch.after_miss();
                let counted = RouterView { check: Some(CheckView { watch, ..check }), ..self };
                let missed = Line::Missed { health: watch.health(), missing: watch.missing };
                if check.watch.miss_lowers() {
                    LookView {
                        router: RouterView {
                            machine: self.machine.demoted(self.demoted_priority, now),
                            ..counted
                        },
                        lines: seq![missed, Line::Lost { priority: self.demoted_priority }],
                        actions: self.machine.demoting(self.demoted_priority),
                        ask: None,
                    }
                } else {
                    LookView { router: counted, lines: seq![missed], actions: seq![], ask: None }
                }
            },
        }
    }

    /// Having read the answers that arrived: the lines about them, and the
    /// claim put back when one of them ends a spell of silence.
    pub open spec fn after_reading(
        self,
        answers: Seq<(Ipv4Addr, Echo)>,
        unreadable: Option<String>,
    ) -> LookView {
        match self.check {
            None => LookView { router: self, lines: seq![], actions: seq![], ask: None },
            Some(check) => {
                let lines = answer_lines(check, answers) + match unreadable {
                    Some(error) => seq![Line::EchoUnreadable { error }],
                    None => seq![],
                };
                let read = RouterView { check: Some(after_answers(check, answers)), ..self };
                if answers_restore(check, answers) {
                    LookView {
                        router: RouterView {
                            machine: self.machine.at_priority(self.machine.configured),
                            ..read
                        },
                        lines: lines.push(Line::Back { priority: self.machine.configured }),
                        actions: seq![],
                        ask: None,
                    }
                } else {
                    LookView { router: read, lines, actions: seq![], ask: None }
                }
            },
        }
    }

    /// Having asked again, when a question is due: the one before it counts
    /// as lost, and only an IPv4 gateway is asked.
    pub open spec fn after_asking(self, now: Instant) -> LookView {
        let nothing = LookView { router: self, lines: seq![], actions: seq![], ask: None };
        match self.check {
            None => nothing,
            Some(check) => if !check.watch.is_due(now) {
                nothing
            } else {
                let due = RouterView {
                    check: Some(CheckView { watch: check.watch.asked(now), waiting: None }),
                    ..self
                };
                let counted = if check.waiting is Some {
                    due.after_miss(now)
                } else {
                    LookView { router: due, lines: seq![], actions: seq![], ask: None }
                };
                LookView {
                    ask: match check.watch.gateway {
                        Some(IpView::V4(gateway)) => Some(gateway),
                        _ => None,
                    },
                    ..counted
                }
            },
        }
    }

    /// A whole look at the gateway: the answers first, so a reply that
    /// arrived just before the deadline is not counted as lost.
    pub open spec fn after_look(
        self,
        answers: Seq<(Ipv4Addr, Echo)>,
        unreadable: Option<String>,
        now: Instant,
    ) -> LookView {
        let read = self.after_reading(answers, unreadable);
        let asked = read.router.after_asking(now);
        LookView {
            router: asked.router,
            lines: read.lines + asked.lines,
            actions: asked.actions,
            ask: asked.ask,
        }
    }

    /// Having asked the gateway, or having failed to.
    ///
    /// A question that could not even be sent is a question with no answer.
    pub open spec fn after_question(self, outcome: Result<u16, String>, now: Instant) -> LookView {
        match outcome {
            Ok(sequence) => LookView {
                router: RouterView {
                    check: match self.check {
                        Some(check) => Some(CheckView { waiting: Some(sequence), ..check }),
                        None => None,
                    },
                    ..self
                },
                lines: seq![],
                actions: seq![],
                ask: None,
            },
            Err(error) => {
                let missed = self.after_miss(now);
                LookView { lines: seq![Line::NotAsked { error }] + missed.lines, ..missed }
            },
        }
    }
}

/// The gateway check on this node, and the question it is waiting on.
struct Check {
    watch: Watch,
    waiting: Option<u16>,
}

impl View for Check {
    type V = CheckView;

    closed spec fn view(&self) -> CheckView {
        CheckView { watch: self.watch@, waiting: self.waiting }
    }
}

/// What a look at the gateway comes to.
pub struct Look {
    /// What to write down, at once.
    pub lines: Vec<Line>,
    /// What the state machine asked for, to be carried out once the gateway
    /// was asked.
    pub actions: Vec<Action>,
    /// The gateway to ask now. [`Router::questioned`] is told how it went.
    pub ask: Option<Ipv4Addr>,
}

impl Look {
    /// Whether this is what a look at the gateway comes to.
    pub open spec fn is(self, look: LookView) -> bool {
        &&& self.lines@ == look.lines
        &&& asked(self.actions@) == look.actions
        &&& self.ask == look.ask
    }
}

/// One running virtual router.
pub struct Router {
    machine: Machine,
    check: Option<Check>,
    demoted_priority: u8,
    heard_at: u128,
}

impl View for Router {
    type V = RouterView;

    closed spec fn view(&self) -> RouterView {
        RouterView {
            machine: self.machine@,
            check: match self.check {
                Some(check) => Some(check@),
                None => None,
            },
            demoted_priority: self.demoted_priority,
            heard_at: self.heard_at,
        }
    }
}

impl Plan {
    /// Whether every timer this plan asks for fits.
    pub open spec fn fits(self) -> bool {
        &&& timers_fit(self.settings.interval, self.settings.priority)
        &&& timers_fit(self.settings.interval, self.demoted_priority)
        &&& self.check_interval.wf()
    }

    /// Whether every timer this plan asks for fits.
    pub fn is_possible(&self) -> (r: bool)
        ensures
            r == self.fits(),
    {
        fits(self.settings.interval, self.settings.priority) && fits(
            self.settings.interval,
            self.demoted_priority,
        ) && self.check_interval.nanos <= LONGEST
    }
}

/// How a gateway that may not be there is written.
pub open spec fn gateway_named(gateway: Option<IpAddr>, named: String) -> Seq<char> {
    match gateway {
        Some(_) => named@,
        None => "none"@,
    }
}

impl Router {
    /// The router a plan asks for, started.
    ///
    /// The gateway is the one the routing table names, and comes with how it
    /// is written. It is said once at startup, so a node with no default
    /// route is a line in the log rather than a check nobody notices is not
    /// running.
    pub fn start(plan: Plan, gateway: Option<IpAddr>, named: String, now: Instant) -> (r: (
        Self,
        Vec<Task>,
    ))
        requires
            plan.fits(),
            now.wf(),
        ensures
            r.0@.wf(),
            r.0@.machine == MachineView::fresh(plan.settings).started(now),
            r.0@.demoted_priority == plan.demoted_priority,
            r.0@.heard_at == 0,
            r.0@.check is Some <==> plan.watch_gateway,
            r.0@.check matches Some(check) ==> {
                &&& check.waiting is None
                &&& check.watch == (WatchView {
                    gateway: seen(gateway),
                    interval: plan.check_interval,
                    threshold: plan.threshold,
                    answered_once: false,
                    missing: 0,
                    lowered: false,
                    due_at: None,
                })
            },
            ({
                let started = r.0@.carries_all(MachineView::fresh(plan.settings).starting());
                match r.0@.check {
                    Some(check) => exists|line: Line| #[trigger]
                        seq![TaskView::Say(line)] + started == tasks_seen(r.1@) && (
                        line matches Line::Watching { health, gateway: written } && health
                            == check.watch.health() && written@ == gateway_named(gateway, named)),
                    None => tasks_seen(r.1@) == started,
                }
            }),
    {
        let mut tasks: Vec<Task> = Vec::new();
        let ghost mut said: Seq<TaskView> = seq![];
        let check = if plan.watch_gateway {
            let watch = Watch::new(gateway, plan.check_interval, plan.threshold);
            let written = match gateway {
                Some(_) => named,
                None => "none".to_owned(),
            };
            let line = Line::Watching { health: watch.health(), gateway: written };
            proof {
                said = seq![TaskView::Say(line)];
            }
            tasks.push(Task::Say(line));
            Some(Check { watch, waiting: None })
        } else {
            None
        };
        assert(tasks_seen(tasks@) =~= said);
        let mut machine = Machine::new(plan.settings);
        let starting = machine.start(now);
        let router = Router {
            machine,
            check,
            demoted_priority: plan.demoted_priority,
            heard_at: 0,
        };
        router.carry_out_into(&starting, &mut tasks);
        (router, tasks)
    }

    /// Whether another packet can still be counted.
    pub fn counts(&self) -> (r: bool)
        ensures
            r == (self@.machine.accepted < u64::MAX && self@.machine.ignored < u64::MAX),
    {
        self.machine.accepted() < u64::MAX && self.machine.ignored() < u64::MAX
    }

    /// Takes a packet that arrived.
    ///
    /// A takeover is timed from the last advertisement acted on, so the
    /// moment it was heard at is kept, in milliseconds since the epoch.
    pub fn receive(&mut self, from: Ipv4Addr, bytes: &[u8], now: Instant, ts: u128) -> (r: Vec<Task>)
        requires
            old(self)@.wf(),
            old(self)@.machine.accepted < u64::MAX,
            old(self)@.machine.ignored < u64::MAX,
            now.wf(),
        ensures
            final(self)@ == old(self)@.after_packet(from, bytes@, now, ts),
            final(self)@.wf(),
            tasks_seen(r@) == final(self)@.carries_all(
                old(self)@.packet_actions(from, bytes@),
            ),
    {
        let before: u64 = self.machine.accepted();
        let actions = self.machine.receive(from, bytes, now);
        if self.machine.accepted() > before {
            self.heard_at = ts;
        }
        self.carry_out(&actions)
    }

    /// Runs the machine's timers.
    pub fn tick(&mut self, now: Instant) -> (r: Vec<Task>)
        requires
            old(self)@.wf(),
            now.wf(),
        ensures
            final(self)@ == (RouterView {
                machine: old(self)@.machine.ticked(now),
                ..old(self)@
            }),
            final(self)@.wf(),
            tasks_seen(r@) == final(self)@.carries_all(old(self)@.machine.ticking(now)),
    {
        let actions = self.machine.tick(now);
        self.carry_out(&actions)
    }

    /// Lowers this node's claim for a reason from outside the router.
    ///
    /// Used when the traffic path is gone: the node still answers its peers,
    /// and nothing the protocol can see says it cannot serve.
    pub fn demote(&mut self, why: String, now: Instant) -> (r: Vec<Task>)
        requires
            old(self)@.wf(),
            now.wf(),
        ensures
            final(self)@ == (RouterView {
                machine: old(self)@.machine.demoted(old(self)@.demoted_priority, now),
                ..old(self)@
            }),
            final(self)@.wf(),
            tasks_seen(r@) == (if old(self)@.machine.settings.priority
                == old(self)@.demoted_priority {
                seq![]
            } else {
                seq![
                    TaskView::Say(
                        Line::Demoted { reason: why, priority: old(self)@.demoted_priority },
                    ),
                ] + final(self)@.carries_all(
                    old(self)@.machine.demoting(old(self)@.demoted_priority),
                )
            }),
    {
        let mut tasks: Vec<Task> = Vec::new();
        if self.machine.settings().priority == self.demoted_priority {
            assert(tasks_seen(tasks@) =~= seq![]);
            return tasks;
        }
        let line = Line::Demoted { reason: why, priority: self.demoted_priority };
        tasks.push(Task::Say(line));
        assert(tasks_seen(tasks@) =~= seq![TaskView::Say(line)]);
        let actions = self.machine.demote(self.demoted_priority, now);
        self.carry_out_into(&actions, &mut tasks);
        tasks
    }

    /// Puts the claim back where the configuration had it.
    pub fn restore(&mut self, why: String, now: Instant) -> (r: Vec<Task>)
        requires
            old(self)@.wf(),
            now.wf(),
        ensures
            final(self)@ == (RouterView {
                machine: old(self)@.machine.at_priority(old(self)@.machine.configured),
                ..old(self)@
            }),
            final(self)@.wf(),
            tasks_seen(r@) == (if old(self)@.machine.settings.priority
                == old(self)@.machine.configured {
                seq![]
            } else {
                seq![
                    TaskView::Say(
                        Line::Restored { reason: why, priority: old(self)@.machine.configured },
                    ),
                ]
            }),
    {
        let mut tasks: Vec<Task> = Vec::new();
        if self.machine.settings().priority == self.machine.configured() {
            assert(tasks_seen(tasks@) =~= seq![]);
            return tasks;
        }
        let line = Line::Restored { reason: why, priority: self.machine.configured() };
        tasks.push(Task::Say(line));
        assert(tasks_seen(tasks@) =~= seq![TaskView::Say(line)]);
        let actions = self.machine.restore(now);
        assert(asked(actions@) =~= seq![]);
        self.carry_out_into(&actions, &mut tasks);
        assert(tasks_seen(tasks@) =~= seq![TaskView::Say(line)]);
        tasks
    }

    /// The claim this node is currently making.
    pub fn priority(&self) -> (r: u8)
        ensures
            r == self@.machine.settings.priority,
    {
        self.machine.settings().priority
    }

    /// Gives the addresses up, for a node that is stopping on purpose.
    pub fn stop(&mut self, now: Instant) -> (r: Vec<Task>)
        ensures
            final(self)@ == (RouterView { machine: old(self)@.machine.stopped(), ..old(self)@ }),
            old(self)@.wf() ==> final(self)@.wf(),
            tasks_seen(r@) == final(self)@.carries_all(old(self)@.machine.stopping()),
    {
        let actions = self.machine.stop(now);
        self.carry_out(&actions)
    }

    /// What the actions of the machine come to.
    ///
    /// An advertisement is encoded once per peer: the checksum covers the
    /// destination, so one peer's bytes are refused by another.
    pub fn carry_out(&self, actions: &Vec<Action>) -> (r: Vec<Task>)
        ensures
            tasks_seen(r@) == self@.carries_all(asked(actions@)),
    {
        let mut tasks: Vec<Task> = Vec::new();
        self.carry_out_into(actions, &mut tasks);
        assert(tasks_seen(tasks@) =~= self@.carries_all(asked(actions@)));
        tasks
    }

    fn carry_out_into(&self, actions: &Vec<Action>, tasks: &mut Vec<Task>)
        ensures
            tasks_seen(final(tasks)@) == tasks_seen(old(tasks)@) + self@.carries_all(
                asked(actions@),
            ),
    {
        let ghost before = tasks_seen(tasks@);
        let ghost wanted = asked(actions@);
        let mut at: usize = 0;
        assert(tasks_seen(tasks@) =~= before + self@.carries_all(wanted.take(0)));
        while at < actions.len()
            invariant
                at <= actions.len(),
                wanted == asked(actions@),
                tasks_seen(tasks@) == before + self@.carries_all(wanted.take(at as int)),
            decreases actions.len() - at,
        {
            let ghost so_far = tasks_seen(tasks@);
            proof {
                assert(wanted.take(at + 1).drop_last() =~= wanted.take(at as int));
                assert(wanted.take(at + 1).last() == actions@[at as int]@);
            }
            self.carry_one(&actions[at], tasks);
            assert(tasks_seen(tasks@) =~= before + self@.carries_all(wanted.take(at + 1)));
            at += 1;
        }
        assert(wanted.take(wanted.len() as int) =~= wanted);
    }

    fn carry_one(&self, action: &Action, tasks: &mut Vec<Task>)
        ensures
            tasks_seen(final(tasks)@) == tasks_seen(old(tasks)@) + self@.carries(action@),
    {
        let ghost before = tasks_seen(tasks@);
        match action {
            Action::Advertise(advertisement) => {
                let settings = self.machine.settings();
                let ghost all = self@.sends(action@, settings.peers@);
                let mut at: usize = 0;
                assert(tasks_seen(tasks@) =~= before + all.take(0));
                while at < settings.peers.len()
                    invariant
                        at <= settings.peers.len(),
                        *settings == self@.machine.settings,
                        action@ == (Action::Advertise(*advertisement))@,
                        all == self@.sends(action@, settings.peers@),
                        tasks_seen(tasks@) == before + all.take(at as int),
                    decreases settings.peers.len() - at,
                {
                    let peer = settings.peers[at];
                    let ghost so_far = tasks_seen(tasks@);
                    let bytes = advertisement.encode(settings.address, peer);
                    tasks.push(Task::Send { to: peer, bytes });
                    assert(tasks_seen(tasks@) =~= so_far.push(all[at as int]));
                    assert(tasks_seen(tasks@) =~= before + all.take(at + 1));
                    at += 1;
                }
                assert(all.take(all.len() as int) =~= all);
            },
            Action::Record(transition) => {
                let settings = self.machine.settings();
                let line = Line::Moved {
                    heard: self.heard_at,
                    vrid: settings.vrid,
                    transition: *transition,
                    address: settings.address,
                };
                tasks.push(Task::Say(line));
                assert(tasks_seen(tasks@) =~= before + self@.carries(action@));
            },
            Action::TakeAddresses => {
                tasks.push(Task::Take);
                assert(tasks_seen(tasks@) =~= before + self@.carries(action@));
            },
            Action::DropAddresses => {
                tasks.push(Task::Drop);
                assert(tasks_seen(tasks@) =~= before + self@.carries(action@));
            },
        }
    }

    /// Hears how taking the addresses went.
    ///
    /// A master without its addresses answers nothing and its advertisements
    /// stop every other node from answering either, so a take that failed
    /// stands the node down. How it went is said at once; what standing down
    /// asks for comes behind what is still to be done.
    pub fn taken(&mut self, outcome: Result<(), String>, now: Instant) -> (r: (Line, Vec<Task>))
        requires
            old(self)@.wf(),
            now.wf(),
        ensures
            final(self)@.wf(),
            match outcome {
                Ok(_) => final(self)@ == old(self)@ && r.0 == Line::Taken && r.1@.len() == 0,
                Err(error) => final(self)@ == (RouterView {
                    machine: old(self)@.machine.renounced(now),
                    ..old(self)@
                }) && r.0 == (Line::TakeFailed { error }) && tasks_seen(r.1@)
                    == final(self)@.carries_all(old(self)@.machine.renouncing()),
            },
    {
        match outcome {
            Ok(()) => (Line::Taken, Vec::new()),
            Err(error) => {
                let actions = self.machine.renounce(now);
                (Line::TakeFailed { error }, self.carry_out(&actions))
            },
        }
    }

    /// Hears how dropping the addresses went.
    pub fn dropped(&self, outcome: Result<(), String>) -> (r: Line)
        ensures
            r == match outcome {
                Ok(_) => Line::Dropped,
                Err(error) => Line::DropFailed { error },
            },
    {
        match outcome {
            Ok(()) => Line::Dropped,
            Err(error) => Line::DropFailed { error },
        }
    }

    /// Looks at the gateway: reads the answers that arrived, counts what was
    /// not answered, and says whether to ask again.
    ///
    /// Nothing the machine has to do comes of it until the threshold is
    /// reached on a node that holds the role.
    pub fn check_gateway(
        &mut self,
        answers: &Vec<(Ipv4Addr, Echo)>,
        unreadable: Option<String>,
        now: Instant,
    ) -> (r: Look)
        requires
            old(self)@.wf(),
            now.wf(),
        ensures
            final(self)@ == old(self)@.after_look(answers@, unreadable, now).router,
            r.is(old(self)@.after_look(answers@, unreadable, now)),
            final(self)@.wf(),
    {
        let mut lines: Vec<Line> = self.read_answers(answers, unreadable, now);
        let ghost read = old(self)@.after_reading(answers@, unreadable);
        assert(self@ == read.router && lines@ == read.lines);
        let ghost asking = self@.after_asking(now);
        let mut actions: Vec<Action> = Vec::new();
        assert(asked(actions@) =~= seq![]);
        let mut check = match self.check.take() {
            Some(check) => check,
            None => {
                assert(lines@ =~= read.lines + asking.lines);
                return Look { lines, actions, ask: None };
            },
        };
        let gateway = check.watch.due(now);
        let waited = check.waiting.is_some();
        if gateway.is_some() {
            check.waiting = None;
        }
        self.check = Some(check);
        let gateway = match gateway {
            Some(gateway) => gateway,
            None => {
                assert(lines@ =~= read.lines + asking.lines);
                return Look { lines, actions, ask: None };
            },
        };
        // The question before this one was never answered.
        if waited {
            let missed = self.note_missed(now);
            let mut more = missed.lines;
            lines.append(&mut more);
            actions = missed.actions;
        }
        assert(lines@ =~= read.lines + asking.lines);
        // One virtual router is kept to one address family, and this one is
        // IPv4. An IPv6 default route is somebody else's question.
        let ask = match gateway {
            IpAddr::V4(gateway) => Some(gateway),
            IpAddr::V6(_) => None,
        };
        Look { lines, actions, ask }
    }

    fn read_answers(
        &mut self,
        answers: &Vec<(Ipv4Addr, Echo)>,
        unreadable: Option<String>,
        now: Instant,
    ) -> (r: Vec<Line>)
        requires
            old(self)@.wf(),
        ensures
            final(self)@ == old(self)@.after_reading(answers@, unreadable).router,
            r@ == old(self)@.after_reading(answers@, unreadable).lines,
            final(self)@.wf(),
    {
        let mut lines: Vec<Line> = Vec::new();
        let mut check = match self.check.take() {
            Some(check) => check,
            None => {
                assert(lines@ =~= seq![]);
                return lines;
            },
        };
        let ghost was = check@;
        let mut restore: bool = false;
        let mut at: usize = 0;
        assert(lines@ =~= answer_lines(was, answers@.take(0)));
        while at < answers.len()
            invariant
                at <= answers.len(),
                check@ == after_answers(was, answers@.take(at as int)),
                check@.watch.wf(),
                lines@ == answer_lines(was, answers@.take(at as int)),
                restore == answers_restore(was, answers@.take(at as int)),
            decreases answers.len() - at,
        {
            let (from, echo) = answers[at];
            proof {
                assert(answers@.take(at + 1).drop_last() =~= answers@.take(at as int));
                assert(answers@.take(at + 1).last() == (from, echo));
            }
            let ours = match check.watch.gateway() {
                Some(IpAddr::V4(gateway)) => gateway == from,
                _ => false,
            };
            let awaited = match check.waiting {
                Some(sequence) => sequence == echo.sequence,
                None => false,
            };
            if ours && awaited {
                check.waiting = None;
                let unconfirmed = match check.watch.health() {
                    Health::Unconfirmed => true,
                    _ => false,
                };
                let effect = check.watch.answered();
                // The first answer is the moment the check starts counting.
                if unconfirmed {
                    lines.push(Line::Confirmed { health: check.watch.health(), gateway: from });
                }
                if let Some(Effect::Restore) = effect {
                    restore = true;
                }
            }
            at += 1;
        }
        assert(answers@.take(answers@.len() as int) =~= answers@);
        let ghost about = lines@;
        if let Some(error) = unreadable {
            lines.push(Line::EchoUnreadable { error });
            assert(lines@ =~= about + seq![Line::EchoUnreadable { error }]);
        } else {
            assert(lines@ =~= about + seq![]);
        }
        self.check = Some(check);
        if restore {
            lines.push(Line::Back { priority: self.machine.configured() });
            let _nothing = self.machine.restore(now);
        }
        lines
    }

    /// Hears whether the question went out, and under which number.
    pub fn questioned(&mut self, outcome: Result<u16, String>, now: Instant) -> (r: Look)
        requires
            old(self)@.wf(),
            now.wf(),
        ensures
            final(self)@ == old(self)@.after_question(outcome, now).router,
            r.is(old(self)@.after_question(outcome, now)),
            final(self)@.wf(),
    {
        match outcome {
            Ok(sequence) => {
                let lines: Vec<Line> = Vec::new();
                let actions: Vec<Action> = Vec::new();
                assert(lines@ =~= seq![]);
                assert(asked(actions@) =~= seq![]);
                if let Some(mut check) = self.check.take() {
                    check.waiting = Some(sequence);
                    self.check = Some(check);
                }
                Look { lines, actions, ask: None }
            },
            Err(error) => {
                let mut lines: Vec<Line> = vec![Line::NotAsked { error }];
                let missed = self.note_missed(now);
                let mut more = missed.lines;
                lines.append(&mut more);
                assert(lines@ =~= old(self)@.after_question(outcome, now).lines);
                Look { lines, actions: missed.actions, ask: None }
            },
        }
    }

    /// Counts one question nobody answered, and acts when that is enough.
    fn note_missed(&mut self, now: Instant) -> (r: Look)
        requires
            old(self)@.wf(),
            now.wf(),
        ensures
            final(self)@ == old(self)@.after_miss(now).router,
            r.is(old(self)@.after_miss(now)),
            final(self)@.wf(),
    {
        let mut lines: Vec<Line> = Vec::new();
        let actions: Vec<Action> = Vec::new();
        assert(asked(actions@) =~= seq![]);
        let mut check = match self.check.take() {
            Some(check) => check,
            None => {
                assert(lines@ =~= seq![]);
                return Look { lines, actions, ask: None };
            },
        };
        let effect = check.watch.missed();
        lines.push(
            Line::Missed { health: check.watch.health(), missing: check.watch.missing() },
        );
        self.check = Some(check);
        if let Some(Effect::Demote) = effect {
            lines.push(Line::Lost { priority: self.demoted_priority });
            let actions = self.machine.demote(self.demoted_priority, now);
            assert(lines@ =~= old(self)@.after_miss(now).lines);
            return Look { lines, actions, ask: None };
        }
        assert(lines@ =~= old(self)@.after_miss(now).lines);
        Look { lines, actions, ask: None }
    }
}

/// Answers from anybody but the gateway, and to any question but the one
/// waited on, change nothing and are not written about.
pub proof fn lemma_other_answers_change_nothing(
    check: CheckView,
    answers: Seq<(Ipv4Addr, Echo)>,
)
    requires
        forall|i: int|
            0 <= i < answers.len() ==> !answer_counts(
                check,
                (#[trigger] answers[i]).0,
                answers[i].1,
            ),
    ensures
        after_answers(check, answers) == check,
        answer_lines(check, answers) == Seq::<Line>::empty(),
        !answers_restore(check, answers),
    decreases answers.len(),
{
    if answers.len() > 0 {
        assert forall|i: int| 0 <= i < answers.drop_last().len() implies !answer_counts(
            check,
            (#[trigger] answers.drop_last()[i]).0,
            answers.drop_last()[i].1,
        ) by {
            assert(answers.drop_last()[i] == answers[i]);
        }
        lemma_other_answers_change_nothing(check, answers.drop_last());
        assert(answers.last() == answers[answers.len() - 1]);
    }
}

/// One question is answered once: after an answer that counts, nothing is
/// waited on, and whatever answers follow change nothing and are not written
/// about.
pub proof fn lemma_one_answer_per_question(
    check: CheckView,
    answers: Seq<(Ipv4Addr, Echo)>,
    from: Ipv4Addr,
    echo: Echo,
    more: Seq<(Ipv4Addr, Echo)>,
)
    requires
        answer_counts(after_answers(check, answers), from, echo),
    ensures
        after_answers(check, answers.push((from, echo))).waiting is None,
        after_answers(check, answers.push((from, echo)) + more) == after_answers(
            check,
            answers.push((from, echo)),
        ),
        answer_lines(check, answers.push((from, echo)) + more) == answer_lines(
            check,
            answers.push((from, echo)),
        ),
    decreases more.len(),
{
    let heard = answers.push((from, echo));
    assert(heard.drop_last() =~= answers);
    if more.len() == 0 {
        assert(heard + more =~= heard);
    } else {
        lemma_one_answer_per_question(check, answers, from, echo, more.drop_last());
        assert((heard + more).drop_last() =~= heard + more.drop_last());
    }
}

/// Neither a look nor a question ever lowers the claim of a node whose
/// gateway has never answered.
pub proof fn lemma_an_unconfirmed_gateway_asks_for_nothing(
    router: RouterView,
    outcome: Result<u16, String>,
    now: Instant,
)
    requires
        router.check matches Some(check) && !check.watch.answered_once,
        router.check->0.watch.wf(),
    ensures
        router.after_asking(now).actions == Seq::<ActionView>::empty(),
        router.after_asking(now).router.machine == router.machine,
        router.after_question(outcome, now).actions == Seq::<ActionView>::empty(),
        router.after_question(outcome, now).router.machine == router.machine,
{
}

/// A failed take never asks to take again: what stands a node down holds no
/// such task, so the work a takeover makes runs out.
pub proof fn lemma_a_failed_take_is_not_repeated(router: RouterView)
    ensures
        !router.carries_all(router.machine.renouncing()).contains(TaskView::Take),
{
    let actions = router.machine.renouncing();
    if actions.len() > 0 {
        assert(actions.drop_last().drop_last() =~= seq![]);
        assert(actions.drop_last().last() == actions[0]);
        reveal_with_fuel(RouterView::carries_all, 3);
        assert(router.carries_all(actions) =~= router.carries(actions[0]) + router.carries(
            actions[1],
        ));
    }
}

/// An answer counts when it comes from the gateway itself and carries the
/// number of the question waited on; it ends the wait and starts the count of
/// misses over.
#[verifier::spinoff_prover]
#[verifier::rlimit(40)]
pub proof fn lemma_an_answer_that_counts_ends_the_wait(
    check: CheckView,
    gateway: Ipv4Addr,
    from: Ipv4Addr,
    echo: Echo,
    sequence: u16,
)
    requires
        check.watch.gateway == Some(IpView::V4(gateway)),
        check.waiting == Some(sequence),
    ensures
        answer_counts(check, from, echo) <==> from == gateway && echo.sequence == sequence,
        from == gateway && echo.sequence == sequence ==> {
            let after = after_answers(check, seq![(from, echo)]);
            &&& after.waiting is None
            &&& after.watch.missing == 0
            &&& !after.watch.lowered
            &&& after.watch.answered_once
            &&& answers_restore(check, seq![(from, echo)]) == check.watch.lowered
            &&& answer_lines(check, seq![(from, echo)]) == (if check.watch.answered_once {
                Seq::<Line>::empty()
            } else {
                seq![Line::Confirmed { health: Health::Reachable, gateway }]
            })
        },
{
    let answers = seq![(from, echo)];
    assert(answers.drop_last() =~= seq![]);
    reveal_with_fuel(after_answers, 2);
    reveal_with_fuel(answer_lines, 2);
    reveal_with_fuel(answers_restore, 2);
    assert(answer_lines(check, answers.drop_last()) =~= seq![]);
    if answer_counts(check, from, echo) && !check.watch.answered_once {
        assert(answer_lines(check, answers) =~= seq![
            Line::Confirmed { health: Health::Reachable, gateway },
        ]);
    }
}

/// A question that is still unanswered when the next one is due counts as
/// missed, once; one that was answered, or none, counts nothing. Before the
/// next one is due nothing happens at all.
#[verifier::spinoff_prover]
#[verifier::rlimit(40)]
pub proof fn lemma_a_question_is_missed_when_the_next_is_due(router: RouterView, now: Instant)
    requires
        router.check is Some,
    ensures
        ({
            let check = router.check->0;
            let look = router.after_asking(now);
            &&& !check.watch.is_due(now) ==> look.router == router && look.ask is None
                && look.lines.len() == 0 && look.actions.len() == 0
            &&& check.watch.is_due(now) ==> look.router.check is Some && look.router.check->0.waiting
                is None
            &&& (check.watch.is_due(now) && check.waiting is None) ==> (
            look.router.check->0.watch.missing == check.watch.missing && look.router.machine
                == router.machine && look.lines.len() == 0 && look.actions.len() == 0)
            &&& (check.watch.is_due(now) && check.waiting is Some && check.watch.answered_once
                && check.watch.missing < u32::MAX) ==> look.router.check->0.watch.missing
                == check.watch.missing + 1
            &&& (check.watch.is_due(now) && check.waiting is Some && (!check.watch.answered_once
                || check.watch.lowered || check.watch.missing + 1 < check.watch.threshold))
                ==> look.router.machine == router.machine && look.actions.len() == 0
        }),
{
}

/// The miss that reaches the threshold lowers the claim to what the plan
/// says, and says so.
pub proof fn lemma_the_miss_that_reaches_the_threshold_lowers_the_claim(
    router: RouterView,
    now: Instant,
)
    requires
        router.check matches Some(check) && check.watch.gateway is Some
            && check.watch.answered_once && !check.watch.lowered && check.watch.missing < u32::MAX
            && check.watch.missing + 1 >= check.watch.threshold,
    ensures
        ({
            let look = router.after_miss(now);
            &&& look.router.machine.settings.priority == router.demoted_priority
            &&& look.router.machine.configured == router.machine.configured
            &&& look.router.check->0.watch.lowered
            &&& look.actions == router.machine.demoting(router.demoted_priority)
            &&& look.lines == seq![
                (Line::Missed {
                    health: Health::Lost,
                    missing: (router.check->0.watch.missing + 1) as u32,
                }),
                Line::Lost { priority: router.demoted_priority },
            ]
        }),
{
}

/// Who is asked, and when: the gateway itself, exactly when a question is due
/// and the gateway is one of this family.
pub proof fn lemma_the_gateway_itself_is_asked(router: RouterView, now: Instant)
    ensures
        router.check is None ==> router.after_asking(now).ask is None,
        router.check matches Some(check) ==> (forall|gateway: Ipv4Addr|
            (#[trigger] router.after_asking(now).ask) == Some(gateway) <==> check.watch.is_due(now)
                && check.watch.gateway == Some(IpView::V4(gateway))),
{
}

/// A reply that arrived before the next question is due is not counted as
/// lost, though both are looked at in one go.
pub proof fn lemma_a_reply_in_time_is_not_lost(
    router: RouterView,
    gateway: Ipv4Addr,
    echo: Echo,
    now: Instant,
)
    requires
        router.check matches Some(check) && check.watch.gateway == Some(IpView::V4(gateway))
            && check.waiting == Some(echo.sequence),
    ensures
        ({
            let look = router.after_look(seq![(gateway, echo)], None, now);
            &&& look.router.check is Some
            &&& look.router.check->0.watch.missing == 0
            &&& !look.router.check->0.watch.lowered
            &&& look.router.check->0.waiting is None
            &&& look.actions.len() == 0
            &&& look.router.machine.settings.priority == (if router.check->0.watch.lowered {
                router.machine.configured
            } else {
                router.machine.settings.priority
            })
        }),
{
    lemma_an_answer_that_counts_ends_the_wait(
        router.check->0,
        gateway,
        gateway,
        echo,
        echo.sequence,
    );
}

/// What was asked is what is waited on; what could not be asked counts as
/// missed right away, and leaves the wait as it was.
pub proof fn lemma_what_was_asked_is_waited_on(
    router: RouterView,
    outcome: Result<u16, String>,
    now: Instant,
)
    requires
        router.check is Some,
    ensures
        ({
            let look = router.after_question(outcome, now);
            match outcome {
                Ok(sequence) => {
                    &&& look.router.check == Some(
                        CheckView { watch: router.check->0.watch, waiting: Some(sequence) },
                    )
                    &&& look.router.machine == router.machine
                    &&& look.lines.len() == 0
                    &&& look.actions.len() == 0
                },
                Err(error) => {
                    &&& look.router == router.after_miss(now).router
                    &&& look.actions == router.after_miss(now).actions
                    &&& look.lines.len() > 0
                    &&& look.lines[0] == (Line::NotAsked { error })
                    &&& look.router.check is Some
                    &&& look.router.check->0.waiting == router.check->0.waiting
                },
            }
        }),
{
}

/// The moment a takeover is timed from moves only with an advertisement that
/// was acted on, and then to the moment it arrived at.
pub proof fn lemma_only_what_is_acted_on_is_heard(
    router: RouterView,
    from: Ipv4Addr,
    bytes: Seq<u8>,
    now: Instant,
    ts: u128,
)
    ensures
        ({
            let after = router.after_packet(from, bytes, now, ts);
            &&& router.machine.settings.verdict(from, bytes) is Some ==> after.heard_at
                == router.heard_at && router.packet_actions(from, bytes).len() == 0
            &&& router.machine.settings.verdict(from, bytes) is None ==> after.heard_at == ts
            &&& after.check == router.check
            &&& after.demoted_priority == router.demoted_priority
        }),
{
}

/// An advertisement goes to every peer, once and in the order they are
/// listed, from this node's own address, and reads at each of them as what
/// was meant.
pub proof fn lemma_every_peer_can_read_what_it_is_sent(
    router: RouterView,
    said: Advertisement,
    at: int,
)
    requires
        said.fits(),
        0 <= at < router.machine.settings.peers@.len(),
    ensures
        ({
            let peers = router.machine.settings.peers@;
            let tasks = router.carries((Action::Advertise(said))@);
            &&& tasks.len() == peers.len()
            &&& tasks[at] matches TaskView::Send { to, bytes } && {
                &&& to == peers[at]
                &&& Advertisement::refusal(bytes, router.machine.settings.address, to) is None
                &&& forall|read: Advertisement| #[trigger]
                    read.read_from(bytes) <==> read.says(said)
            }
        }),
{
    let own = router.machine.settings.address;
    let peer = router.machine.settings.peers@[at];
    lemma_decode_undoes_encode(said, own, peer);
    assert(router.carries((Action::Advertise(said))@)[at] == (TaskView::Send {
        to: peer,
        bytes: said.encoded(own, peer),
    }));
}

/// What the machine asks for is what the caller is given to do, in the same
/// order: its addresses taken when it says so, dropped when it says so, and a
/// transition written down with the router it is about.
pub proof fn lemma_tasks_follow_the_actions(
    router: RouterView,
    before: Seq<ActionView>,
    action: ActionView,
)
    ensures
        router.carries_all(seq![]) == Seq::<TaskView>::empty(),
        router.carries_all(before.push(action)) == router.carries_all(before) + router.carries(
            action,
        ),
        action is TakeAddresses ==> router.carries(action) == seq![TaskView::Take],
        action is DropAddresses ==> router.carries(action) == seq![TaskView::Drop],
        action matches ActionView::Record(transition) ==> router.carries(action) == seq![
            TaskView::Say(
                Line::Moved {
                    heard: router.heard_at,
                    vrid: router.machine.settings.vrid,
                    transition,
                    address: router.machine.settings.address,
                },
            ),
        ],
{
    assert(before.push(action).drop_last() =~= before);
}

} // verus!
