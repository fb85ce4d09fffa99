//! Carrying the addresses, and telling the segment about it.

use ek_ek::net::{IpAddr, Ipv4Addr, Ipv6Addr};
use ek_ek::time::Instant;
use ek_ek::vrrp::carrier::{Carrier, Step, Trouble, Walk};
use ek_ek::vrrp::{arp, neighbor, Address, Arp, Carried, Interface};

const MAC: [u8; 6] = [2, 0x42, 0xAC, 0x1C, 0, 0x0B];
const FOUR: Ipv4Addr = Ipv4Addr {
    a: 172,
    b: 28,
    c: 0,
    d: 100,
};

fn six() -> Ipv6Addr {
    let mut octets = [0_u8; 16];
    octets[0] = 0x20;
    octets[1] = 0x01;
    octets[15] = 1;
    Ipv6Addr { octets }
}

fn carrier(silent: bool) -> Carrier {
    Carrier::new(
        Interface {
            name: "eth0".to_owned(),
            index: 3,
            mac: MAC,
        },
        vec![
            Carried {
                address: IpAddr::V4(FOUR),
                prefix_length: 24,
            },
            Carried {
                address: IpAddr::V6(six()),
                prefix_length: 64,
            },
        ],
        silent,
    )
}

fn on_interface(address: IpAddr, prefix_length: u8) -> Address {
    Address {
        address,
        prefix_length,
        interface: 3,
    }
}

fn frames() -> Vec<Step> {
    vec![
        Step::Frame(arp(Arp::Request, FOUR, MAC)),
        Step::Frame(arp(Arp::Reply, FOUR, MAC)),
        Step::Frame(neighbor(six(), MAC)),
    ]
}

fn at(millis: u64) -> Instant {
    Instant {
        nanos: u128::from(millis) * 1_000_000,
    }
}

#[test]
fn every_address_is_put_on_before_any_is_announced() {
    let mut wanted = vec![
        Step::Put(on_interface(IpAddr::V4(FOUR), 24)),
        Step::Put(on_interface(IpAddr::V6(six()), 64)),
    ];
    assert_eq!(carrier(true).take(), wanted);
    wanted.extend(frames());
    assert_eq!(carrier(false).take(), wanted);
    assert_eq!(carrier(false).addresses().len(), 2);
}

#[test]
fn a_move_is_announced_four_times_more_a_tenth_of_a_second_apart() {
    let mut carrier = carrier(false);
    assert_eq!(carrier.tick(at(10_000)), None);
    carrier.taken(at(0));
    let mut now: u64 = 0;
    for _ in 0..4 {
        assert_eq!(carrier.tick(at(now + 99)), None);
        now += 100;
        assert_eq!(carrier.tick(at(now)), Some(frames()));
        // It stays due until it went.
        assert_eq!(carrier.tick(at(now)), Some(frames()));
        carrier.announced(at(now));
    }
    assert_eq!(carrier.tick(at(1_000_000)), None);
}

#[test]
fn a_drop_takes_everything_off_and_ends_the_announcing() {
    let mut carrier = carrier(false);
    carrier.taken(at(0));
    assert_eq!(
        carrier.drop_all(),
        vec![
            Step::Remove(on_interface(IpAddr::V4(FOUR), 24)),
            Step::Remove(on_interface(IpAddr::V6(six()), 64)),
        ]
    );
    assert_eq!(carrier.tick(at(1_000)), None);
}

#[test]
fn an_address_that_is_not_there_is_as_good_as_removed() {
    let here = || on_interface(IpAddr::V4(FOUR), 24);
    assert!(Carrier::forgives(&Step::Remove(here()), Some(99)));
    assert!(!Carrier::forgives(&Step::Remove(here()), Some(1)));
    assert!(!Carrier::forgives(&Step::Remove(here()), None));
    assert!(!Carrier::forgives(&Step::Put(here()), Some(99)));
    assert!(!Carrier::forgives(&Step::Frame(Vec::new()), Some(99)));
}

fn trouble(errno: i32, text: &str) -> Result<(), Trouble> {
    Err(Trouble {
        errno: Some(errno),
        text: text.to_owned(),
    })
}

#[test]
fn steps_are_done_in_order_up_to_the_first_that_fails() {
    let here = || on_interface(IpAddr::V4(FOUR), 24);
    let steps = vec![
        Step::Remove(here()),
        Step::Put(here()),
        Step::Frame(vec![1]),
    ];
    let mut walk = Walk::new(&steps);
    assert_eq!(walk.next(), Some(&steps[0]));
    walk.heard(trouble(99, "not there"));
    assert_eq!(walk.next(), Some(&steps[1]));
    walk.heard(trouble(99, "refused"));
    assert_eq!(walk.next(), None);
    assert_eq!(walk.outcome(), Err("refused".to_owned()));

    let mut walk = Walk::new(&steps);
    let mut done = 0;
    while walk.next().is_some() {
        walk.heard(Ok(()));
        done += 1;
    }
    assert_eq!(done, 3);
    assert_eq!(walk.outcome(), Ok(()));
    assert_eq!(Walk::new(&[]).outcome(), Ok(()));
}
