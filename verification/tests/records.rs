//! The lines a running node writes.

use ek_ek::net::Ipv4Addr;
use ek_ek::vrrp::gateway::Health;
use ek_ek::vrrp::record::{escaped, listed, Line};
use ek_ek::vrrp::{Reason, State, Transition};

fn written(line: Line) -> String {
    line.render(
        1_700_000_000_123,
        &vec!["172.28.0.100/24".to_owned(), "2001:db8::1/64".to_owned()],
    )
}

fn error() -> String {
    r#"C:\ said "no""#.to_owned()
}

#[test]
fn a_quote_and_a_backslash_are_escaped_and_nothing_else_is() {
    assert_eq!(escaped(&error()), r#"C:\\ said \"no\""#);
    assert_eq!(escaped("plain\n"), "plain\n");
    assert_eq!(escaped(""), "");
}

#[test]
fn the_addresses_are_a_json_array() {
    assert_eq!(listed(&Vec::new()), "[]");
    assert_eq!(listed(&vec!["a".to_owned()]), r#"["a"]"#);
    assert_eq!(
        listed(&vec!["a".to_owned(), "b".to_owned()]),
        r#"["a","b"]"#
    );
}

#[test]
fn a_move_names_both_states_and_when_the_last_master_was_heard() {
    assert_eq!(
        written(Line::Moved {
            heard: 1_699_999_999_000,
            vrid: 51,
            transition: Transition {
                from: State::Backup,
                to: State::Master,
                reason: Reason::NobodyElseAnswered,
            },
            address: Ipv4Addr::new(172, 28, 0, 11),
        }),
        r#"{"kind":"vrrp","ts":1700000000123,"heard":1699999999000,"vrid":51,"from":"backup","to":"master","reason":"nobody_else_answered","address":"172.28.0.11"}"#
    );
}

#[test]
fn the_addresses_are_named_when_they_move() {
    let addresses = r#""addresses":["172.28.0.100/24","2001:db8::1/64"]}"#;
    assert_eq!(
        written(Line::Taken),
        format!(r#"{{"kind":"vip","ts":1700000000123,"event":"taken",{addresses}"#)
    );
    assert_eq!(
        written(Line::Dropped),
        format!(r#"{{"kind":"vip","ts":1700000000123,"event":"dropped",{addresses}"#)
    );
    assert_eq!(
        written(Line::TakeFailed { error: error() }),
        format!(
            r#"{{"kind":"vip","ts":1700000000123,"event":"take_failed","error":"C:\\ said \"no\"",{addresses}"#
        )
    );
    assert_eq!(
        written(Line::DropFailed { error: error() }),
        format!(
            r#"{{"kind":"vip","ts":1700000000123,"event":"drop_failed","error":"C:\\ said \"no\"",{addresses}"#
        )
    );
    assert_eq!(
        written(Line::AnnouncementFailed { error: error() }),
        r#"{"kind":"vip","ts":1700000000123,"event":"announcement_failed","error":"C:\\ said \"no\""}"#
    );
}

#[test]
fn the_gateway_lines_say_its_health() {
    assert_eq!(
        written(Line::Watching {
            health: Health::NoGateway,
            gateway: "none".to_owned(),
        }),
        r#"{"kind":"gateway","ts":1700000000123,"event":"watching","health":"no_gateway","gateway":"none"}"#
    );
    assert_eq!(
        written(Line::Confirmed {
            health: Health::Reachable,
            gateway: Ipv4Addr::new(172, 28, 0, 1),
        }),
        r#"{"kind":"gateway","ts":1700000000123,"event":"confirmed","health":"reachable","gateway":"172.28.0.1"}"#
    );
    assert_eq!(
        written(Line::Missed {
            health: Health::Reachable,
            missing: 2,
        }),
        r#"{"kind":"gateway","ts":1700000000123,"event":"missed","health":"reachable","missing":2}"#
    );
    assert_eq!(
        written(Line::Lost { priority: 1 }),
        r#"{"kind":"gateway","ts":1700000000123,"event":"lost","health":"lost","priority":1}"#
    );
    assert_eq!(
        written(Line::Back { priority: 200 }),
        r#"{"kind":"gateway","ts":1700000000123,"event":"back","health":"reachable","priority":200}"#
    );
}

#[test]
fn a_claim_that_moved_says_why() {
    assert_eq!(
        written(Line::Demoted {
            reason: "the traffic path is gone".to_owned(),
            priority: 1,
        }),
        r#"{"kind":"vrrp","ts":1700000000123,"event":"demoted","reason":"the traffic path is gone","priority":1}"#
    );
    assert_eq!(
        written(Line::Restored {
            reason: "it is \"back\"".to_owned(),
            priority: 200,
        }),
        r#"{"kind":"vrrp","ts":1700000000123,"event":"restored","reason":"it is \"back\"","priority":200}"#
    );
}

#[test]
fn a_socket_that_failed_is_said_with_its_level() {
    let head = r#"{"kind":"app","level":"error","target":"ek_ek_vrrp","message":""#;
    let warn = r#"{"kind":"app","level":"warn","target":"ek_ek_vrrp","message":""#;
    let tail = r#"C:\\ said \"no\""}"#;
    assert_eq!(
        written(Line::SocketUnreadable { error: error() }),
        format!("{head}the socket could not be read: {tail}")
    );
    assert_eq!(
        written(Line::EchoUnreadable { error: error() }),
        format!("{head}the ICMP socket could not be read: {tail}")
    );
    assert_eq!(
        written(Line::NotSent {
            peer: Ipv4Addr::new(172, 28, 0, 12),
            error: error(),
        }),
        format!("{warn}advertisement to 172.28.0.12 did not go: {tail}")
    );
    assert_eq!(
        written(Line::NotAsked { error: error() }),
        format!("{warn}the gateway could not be asked: {tail}")
    );
}
