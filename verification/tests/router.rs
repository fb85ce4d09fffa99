//! One virtual router, driven an event at a time.

use ek_ek::net::{IpAddr, Ipv4Addr};
use ek_ek::time::{Duration, Instant};
use ek_ek::vrrp::echo::Echo;
use ek_ek::vrrp::gateway::Health;
use ek_ek::vrrp::record::Line;
use ek_ek::vrrp::router::{Agenda, Plan, Router, Task};
use ek_ek::vrrp::{Advertisement, Carried, Reason, Settings, State, Transition};

const HERE: Ipv4Addr = Ipv4Addr {
    a: 172,
    b: 28,
    c: 0,
    d: 11,
};
const PEER: Ipv4Addr = Ipv4Addr {
    a: 172,
    b: 28,
    c: 0,
    d: 12,
};
const OTHER: Ipv4Addr = Ipv4Addr {
    a: 172,
    b: 28,
    c: 0,
    d: 13,
};
const VIRTUAL: Ipv4Addr = Ipv4Addr {
    a: 172,
    b: 28,
    c: 0,
    d: 100,
};
const GATEWAY: Ipv4Addr = Ipv4Addr {
    a: 172,
    b: 28,
    c: 0,
    d: 1,
};

fn plan(priority: u8, watch_gateway: bool) -> Plan {
    Plan {
        settings: Settings {
            vrid: 51,
            priority,
            interval: Duration::from_millis(300),
            preempt: true,
            address: HERE,
            virtual_addresses: vec![VIRTUAL],
            peers: vec![PEER, OTHER],
        },
        interface: "eth0".to_owned(),
        carried: vec![Carried {
            address: IpAddr::V4(VIRTUAL),
            prefix_length: 24,
        }],
        silent: false,
        watch_gateway,
        check_interval: Duration::from_millis(2_000),
        threshold: 3,
        demoted_priority: 1,
    }
}

fn at(millis: u64) -> Instant {
    Instant {
        nanos: u128::from(millis) * 1_000_000,
    }
}

fn advertisement(priority: u8) -> Advertisement {
    Advertisement {
        vrid: 51,
        priority,
        interval_centiseconds: 30,
        addresses: vec![VIRTUAL],
    }
}

fn sent(priority: u8) -> Vec<Task> {
    [PEER, OTHER]
        .iter()
        .map(|peer| Task::Send {
            to: *peer,
            bytes: advertisement(priority).encode(HERE, *peer),
        })
        .collect()
}

fn moved(heard: u128, from: State, to: State, reason: Reason) -> Task {
    Task::Say(Line::Moved {
        heard,
        vrid: 51,
        transition: Transition { from, to, reason },
        address: HERE,
    })
}

/// A router that has become the master, at one second.
fn master(watch_gateway: bool) -> Router {
    let gateway = Some(IpAddr::V4(GATEWAY));
    let (mut router, _) = Router::start(plan(200, watch_gateway), gateway, "x".to_owned(), at(0));
    let tasks = router.tick(at(1_000));
    assert!(tasks.contains(&Task::Take));
    router
}

fn echo(sequence: u16) -> Echo {
    Echo {
        identifier: 9,
        sequence,
    }
}

#[test]
fn a_started_router_is_a_backup_that_holds_no_address() {
    let (_, tasks) = Router::start(plan(200, false), None, String::new(), at(0));
    assert_eq!(
        tasks,
        vec![
            moved(0, State::Initialize, State::Backup, Reason::Started),
            Task::Drop
        ]
    );
}

#[test]
fn a_watched_gateway_is_named_once_at_startup() {
    let gateway = Some(IpAddr::V4(GATEWAY));
    let (_, tasks) = Router::start(plan(200, true), gateway, "172.28.0.1".to_owned(), at(0));
    assert_eq!(
        tasks[0],
        Task::Say(Line::Watching {
            health: Health::Unconfirmed,
            gateway: "172.28.0.1".to_owned(),
        })
    );
    assert_eq!(tasks.len(), 3);

    let (_, tasks) = Router::start(plan(200, true), None, "unused".to_owned(), at(0));
    assert_eq!(
        tasks[0],
        Task::Say(Line::Watching {
            health: Health::NoGateway,
            gateway: "none".to_owned(),
        })
    );
}

#[test]
fn silence_makes_a_master_that_tells_every_peer_in_its_own_bytes() {
    let (mut router, _) = Router::start(plan(200, false), None, String::new(), at(0));
    assert_eq!(router.tick(at(500)), Vec::new());
    let mut wanted = vec![moved(
        0,
        State::Backup,
        State::Master,
        Reason::NobodyElseAnswered,
    )];
    wanted.extend(sent(200));
    wanted.push(Task::Take);
    assert_eq!(router.tick(at(1_000)), wanted);
    assert_ne!(sent(200)[0], sent(200)[1]);
}

#[test]
fn the_moment_a_stronger_peer_was_heard_is_written_with_the_move() {
    let mut router = master(false);
    let packet = advertisement(250).encode(PEER, HERE);
    assert!(router.counts());
    let tasks = router.receive(PEER, &packet, at(1_100), 77);
    assert_eq!(
        tasks,
        vec![
            moved(77, State::Master, State::Backup, Reason::StrongerPeer),
            Task::Drop
        ]
    );
    // A packet nobody acts on does not move the moment.
    assert_eq!(router.receive(VIRTUAL, &packet, at(1_200), 99), Vec::new());
    let stopped = router.stop(at(1_300));
    assert_eq!(
        stopped[0],
        moved(77, State::Backup, State::Initialize, Reason::Stopped)
    );
}

#[test]
fn a_master_that_stops_says_so_to_every_peer() {
    let mut router = master(false);
    let mut wanted = sent(0);
    wanted.push(moved(
        0,
        State::Master,
        State::Initialize,
        Reason::Stopped,
    ));
    wanted.push(Task::Drop);
    assert_eq!(router.stop(at(1_100)), wanted);
    assert_eq!(router.tick(at(900_000)), Vec::new());
}

#[test]
fn a_take_that_failed_stands_the_node_down_and_asks_for_no_second_take() {
    let mut router = master(false);
    assert_eq!(
        router.taken(Ok(()), at(1_000)),
        (Line::Taken, Vec::new())
    );
    let (line, tasks) = router.taken(Err("refused".to_owned()), at(1_000));
    assert_eq!(
        line,
        Line::TakeFailed {
            error: "refused".to_owned(),
        }
    );
    assert_eq!(
        tasks[0],
        moved(0, State::Master, State::Backup, Reason::AddressesNotTaken)
    );
    assert_eq!(tasks[1], Task::Drop);
    assert_eq!(tasks.len(), 2);
}

#[test]
fn what_is_asked_for_later_comes_behind_what_is_still_to_be_done() {
    let mut agenda = Agenda::new(vec![Task::Take, Task::Say(Line::Dropped)]);
    assert_eq!(agenda.next(), Some(Task::Take));
    agenda.behind(vec![Task::Say(Line::Taken), Task::Drop]);
    assert_eq!(agenda.next(), Some(Task::Say(Line::Dropped)));
    assert_eq!(agenda.next(), Some(Task::Say(Line::Taken)));
    agenda.behind(Vec::new());
    assert_eq!(agenda.next(), Some(Task::Drop));
    assert_eq!(agenda.next(), None);
    assert_eq!(agenda.next(), None);
}

#[test]
fn how_a_drop_went_is_written_down() {
    let router = master(false);
    assert_eq!(router.dropped(Ok(())), Line::Dropped);
    assert_eq!(
        router.dropped(Err("busy".to_owned())),
        Line::DropFailed {
            error: "busy".to_owned(),
        }
    );
}

#[test]
fn a_claim_lowered_from_outside_comes_back_and_neither_is_said_twice() {
    let (mut router, _) = Router::start(plan(200, false), None, String::new(), at(0));
    assert_eq!(router.restore("early".to_owned(), at(1)), Vec::new());
    assert_eq!(
        router.demote("the traffic path is gone".to_owned(), at(2)),
        vec![Task::Say(Line::Demoted {
            reason: "the traffic path is gone".to_owned(),
            priority: 1,
        })]
    );
    assert_eq!(router.priority(), 1);
    assert_eq!(router.demote("again".to_owned(), at(3)), Vec::new());
    assert_eq!(
        router.restore("it is back".to_owned(), at(4)),
        vec![Task::Say(Line::Restored {
            reason: "it is back".to_owned(),
            priority: 200,
        })]
    );
    assert_eq!(router.priority(), 200);
}

#[test]
fn a_master_demoted_from_outside_gives_the_address_up() {
    let mut router = master(false);
    let tasks = router.demote("the traffic path is gone".to_owned(), at(1_100));
    assert!(tasks.contains(&Task::Drop));
    assert!(tasks.contains(&moved(
        0,
        State::Master,
        State::Backup,
        Reason::GatewayLost
    )));
}

#[test]
fn the_gateway_is_asked_and_its_first_answer_is_written_down() {
    let mut router = master(true);
    let look = router.check_gateway(&Vec::new(), None, at(1_000));
    assert_eq!(look.ask, Some(GATEWAY));
    assert_eq!(look.lines, Vec::new());
    assert!(look.actions.is_empty());
    let asked = router.questioned(Ok(1), at(1_000));
    assert!(asked.lines.is_empty() && asked.actions.is_empty());

    // Nobody but the gateway answers, and only the question asked.
    let strangers = vec![(PEER, echo(1)), (GATEWAY, echo(2))];
    let look = router.check_gateway(&strangers, None, at(1_010));
    assert_eq!(look.lines, Vec::new());
    assert_eq!(look.ask, None);

    // The second answer to one question is no second answer.
    let answers = vec![(GATEWAY, echo(1)), (GATEWAY, echo(1))];
    let look = router.check_gateway(&answers, None, at(1_020));
    assert_eq!(
        look.lines,
        vec![Line::Confirmed {
            health: Health::Reachable,
            gateway: GATEWAY,
        }]
    );
}

#[test]
fn a_gateway_that_stops_answering_costs_a_master_its_role_and_gives_it_back_its_claim() {
    let mut router = master(true);
    router.check_gateway(&Vec::new(), None, at(1_000));
    router.questioned(Ok(1), at(1_000));
    router.check_gateway(&vec![(GATEWAY, echo(1))], None, at(1_001));

    let mut now: u64 = 1_000;
    for missing in 1..3_u32 {
        now += 2_000;
        router.check_gateway(&Vec::new(), None, at(now));
        let look = router.questioned(Err("unreachable".to_owned()), at(now));
        assert_eq!(
            look.lines,
            vec![
                Line::NotAsked {
                    error: "unreachable".to_owned(),
                },
                Line::Missed {
                    health: Health::Reachable,
                    missing,
                }
            ]
        );
        assert!(look.actions.is_empty());
    }
    now += 2_000;
    router.check_gateway(&Vec::new(), None, at(now));
    router.questioned(Ok(2), at(now));
    now += 2_000;
    let look = router.check_gateway(&Vec::new(), Some("closed".to_owned()), at(now));
    assert_eq!(
        look.lines,
        vec![
            Line::EchoUnreadable {
                error: "closed".to_owned(),
            },
            Line::Missed {
                health: Health::Lost,
                missing: 3,
            },
            Line::Lost { priority: 1 },
        ]
    );
    assert_eq!(look.ask, Some(GATEWAY));
    assert_eq!(router.priority(), 1);
    let tasks = router.carry_out(&look.actions);
    assert!(tasks.contains(&Task::Drop));

    router.questioned(Ok(3), at(now));
    let look = router.check_gateway(&vec![(GATEWAY, echo(3))], None, at(now + 10));
    assert_eq!(look.lines, vec![Line::Back { priority: 200 }]);
    assert_eq!(router.priority(), 200);
}

#[test]
fn a_gateway_that_never_answered_costs_nothing() {
    let mut router = master(true);
    for n in 0..10_u64 {
        let now = at(1_000 + n * 2_000);
        let look = router.check_gateway(&Vec::new(), None, now);
        assert!(look.actions.is_empty());
        assert!(router
            .questioned(Err("down".to_owned()), now)
            .actions
            .is_empty());
    }
    assert_eq!(router.priority(), 200);
}

#[test]
fn a_plan_whose_timers_cannot_be_counted_is_told_apart() {
    assert!(plan(200, true).is_possible());
    let mut endless = plan(200, true);
    endless.settings.interval = Duration::from_secs(u64::MAX);
    assert!(!endless.is_possible());
}
