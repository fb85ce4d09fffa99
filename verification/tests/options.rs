//! The arguments of the program.

use ek_ek::net::{IpAddr, Ipv4Addr, Ipv6Addr};
use ek_ek::time::Duration;
use ek_ek::vrrp::options::{read, Argument, Options};
use ek_ek::vrrp::Carried;

/// One argument, with the address its text up to the first slash is.
fn argument(text: &str) -> Argument {
    let front = text.split('/').next().unwrap_or_default();
    let numbers: Vec<u8> = front.split('.').filter_map(|n| n.parse().ok()).collect();
    let address = if numbers.len() == 4 {
        Some(IpAddr::V4(Ipv4Addr::new(
            numbers[0], numbers[1], numbers[2], numbers[3],
        )))
    } else if front == "::1" {
        let mut octets = [0_u8; 16];
        octets[15] = 1;
        Some(IpAddr::V6(Ipv6Addr { octets }))
    } else {
        None
    };
    Argument {
        shown: if address.is_some() {
            front.to_owned()
        } else {
            String::new()
        },
        address,
        text: text.to_owned(),
    }
}

fn reading(behind: &[&str]) -> Result<Options, String> {
    let mut arguments = vec![argument("ek-ek-vrrp-node")];
    arguments.extend(behind.iter().map(|text| argument(text)));
    read(&arguments)
}

fn complaint(behind: &[&str]) -> String {
    reading(behind).expect_err("these arguments cannot be read")
}

const WHOLE: [&str; 6] = [
    "--address",
    "172.28.0.11",
    "--peer",
    "172.28.0.12",
    "--virtual-address",
    "172.28.0.100/24",
];

fn with(behind: &[&str]) -> Result<Options, String> {
    let mut all = WHOLE.to_vec();
    all.extend(behind);
    reading(&all)
}

#[test]
fn the_defaults_are_what_is_not_named() {
    let options = reading(&WHOLE).expect("these are enough");
    assert_eq!(options.settings.address, Ipv4Addr::new(172, 28, 0, 11));
    assert_eq!(options.settings.peers, vec![Ipv4Addr::new(172, 28, 0, 12)]);
    assert_eq!(
        options.settings.virtual_addresses,
        vec![Ipv4Addr::new(172, 28, 0, 100)]
    );
    assert_eq!(
        options.carried,
        vec![Carried {
            address: IpAddr::V4(Ipv4Addr::new(172, 28, 0, 100)),
            prefix_length: 24,
        }]
    );
    assert_eq!(options.interface, "eth0");
    assert_eq!(options.settings.vrid, 51);
    assert_eq!(options.settings.priority, 100);
    assert_eq!(options.settings.interval, Duration::from_millis(300));
    assert!(options.settings.preempt);
    assert!(!options.silent);
    assert!(!options.watch_gateway);
    assert_eq!(options.check_interval, Duration::from_millis(2_000));
    assert_eq!(options.threshold, 3);
    assert_eq!(options.demoted_priority, 1);
}

#[test]
fn every_flag_sets_what_it_names() {
    let options = with(&[
        "--no-preempt",
        "--silent",
        "--watch-gateway",
        "--interface",
        "bond0",
        "--vrid",
        "7",
        "--priority",
        "+200",
        "--interval-ms",
        "50",
        "--check-interval-ms",
        "400",
        "--failures",
        "9",
        "--demoted-priority",
        "2",
        "--peer",
        "172.28.0.13",
    ])
    .expect("all of these are understood");
    assert!(!options.settings.preempt);
    assert!(options.silent);
    assert!(options.watch_gateway);
    assert_eq!(options.interface, "bond0");
    assert_eq!(options.settings.vrid, 7);
    assert_eq!(options.settings.priority, 200);
    assert_eq!(options.settings.interval, Duration::from_millis(50));
    assert_eq!(options.check_interval, Duration::from_millis(400));
    assert_eq!(options.threshold, 9);
    assert_eq!(options.demoted_priority, 2);
    assert_eq!(
        options.settings.peers,
        vec![Ipv4Addr::new(172, 28, 0, 12), Ipv4Addr::new(172, 28, 0, 13)]
    );
}

#[test]
fn an_ipv6_address_is_carried_and_not_advertised() {
    let options = with(&["--virtual-address", "::1/64"]).expect("both families are carried");
    assert_eq!(options.carried.len(), 2);
    assert_eq!(options.carried[1].prefix_length, 64);
    assert_eq!(
        options.settings.virtual_addresses,
        vec![Ipv4Addr::new(172, 28, 0, 100)]
    );
}

#[test]
fn what_is_missing_is_named() {
    assert_eq!(complaint(&[]), "--address is required");
    assert_eq!(
        complaint(&["--address", "172.28.0.11"]),
        "at least one --peer is required; multicast is not offered"
    );
    assert_eq!(
        complaint(&["--address", "172.28.0.11", "--peer", "172.28.0.12"]),
        "at least one --virtual-address is required"
    );
}

#[test]
fn a_flag_at_the_end_needs_its_value() {
    for flag in [
        "--address",
        "--peer",
        "--interface",
        "--virtual-address",
        "--vrid",
        "--priority",
        "--interval-ms",
        "--check-interval-ms",
        "--failures",
        "--demoted-priority",
    ] {
        assert_eq!(complaint(&[flag]), format!("{flag} needs a value"));
    }
}

#[test]
fn a_value_that_cannot_be_read_is_refused_with_its_flag() {
    assert_eq!(
        complaint(&["--address", "nobody"]),
        "--address needs an IPv4 address"
    );
    assert_eq!(
        complaint(&["--peer", "::1"]),
        "--peer needs an IPv4 address"
    );
    assert_eq!(
        complaint(&["--peer", "172.28.0.12/24"]),
        "--peer needs an IPv4 address"
    );
    assert_eq!(complaint(&["--vrid", "256"]), "--vrid needs a number");
    assert_eq!(complaint(&["--priority", "-1"]), "--priority needs a number");
    assert_eq!(complaint(&["--failures", ""]), "--failures needs a number");
    assert_eq!(
        complaint(&["--failures", "4294967296"]),
        "--failures needs a number"
    );
    assert_eq!(
        complaint(&["--interval-ms", "18446744073709551616"]),
        "--interval-ms needs a number"
    );
    assert_eq!(
        complaint(&["--loud"]),
        "--loud is not an argument this understands"
    );
}

#[test]
fn a_carried_address_needs_a_prefix_length_that_fits_it() {
    assert_eq!(
        complaint(&["--virtual-address", "172.28.0.100"]),
        "--virtual-address needs a prefix length, as in 172.28.0.100/24, and 172.28.0.100 has none"
    );
    assert_eq!(
        complaint(&["--virtual-address", "somewhere/24"]),
        "somewhere is not an IP address"
    );
    assert_eq!(
        complaint(&["--virtual-address", "172.28.0.100/wide"]),
        "wide is not a prefix length"
    );
    assert_eq!(
        complaint(&["--virtual-address", "172.28.0.100/24/25"]),
        "24/25 is not a prefix length"
    );
    assert_eq!(
        complaint(&["--virtual-address", "172.28.0.100/33"]),
        "a prefix length of 33 is wider than the 32 bits 172.28.0.100 has"
    );
    assert_eq!(
        complaint(&["--virtual-address", "::1/129"]),
        "a prefix length of 129 is wider than the 128 bits ::1 has"
    );
    let widest = with(&["--virtual-address", "::1/128"]).expect("128 bits fit");
    assert_eq!(widest.carried[1].prefix_length, 128);
}
