//! Rebuilding what is at a name over an API, a call at a time.

use ek_ek::time::{Duration, Pause};
use ek_ek::tls::dns::cloudflare::{
    contents_in, escape, judge, publish, published, Api, Connection, Rebuild, Said,
};
use ek_ek::tls::dns::settle::{holds_all, Settling, Verdict};
use ek_ek::tls::dns::{settle, Lookup};
use ek_ek::tls::ledger::Ledger;
use ek_ek::tls::shelf::Shelf;
use ek_ek::tls::{Failure, Reason};

const HERE: Connection<'static> = Connection {
    base: "https://api.example.org",
    zone_id: "zone",
    token: "token",
};

fn texts(list: &[&str]) -> Vec<String> {
    list.iter().map(|text| (*text).to_owned()).collect()
}

/// An answer that says nothing but that it worked.
fn fine() -> Said {
    Said::read(r#"{"success":true}"#)
}

fn step(rebuild: &mut Rebuild<'_>, said: Said) -> (String, String, Option<String>) {
    let call = rebuild.next().expect("something is left to do");
    rebuild.answered(Ok((200, said)));
    (call.method.to_owned(), call.url, call.body)
}

fn ends_in(rebuild: Rebuild<'_>) -> Reason {
    rebuild.outcome().expect_err("it cannot be sent").reason()
}

#[test]
fn what_is_there_goes_before_anything_is_written() {
    let mut rebuild = Rebuild::new(HERE, "name.test", &texts(&["one", "two"]));
    let listed = Said::read(
        r#"{"success":true,"result":[{"id":"a","content":"x"},{"id":"half"},{"id":"b","content":"y"}]}"#,
    );
    let records = "https://api.example.org/zones/zone/dns_records";
    assert_eq!(
        step(&mut rebuild, listed),
        (
            "GET".to_owned(),
            format!("{records}?type=TXT&name=name.test"),
            None
        )
    );
    assert_eq!(
        step(&mut rebuild, fine()),
        ("DELETE".to_owned(), format!("{records}/a"), None)
    );
    assert_eq!(
        step(&mut rebuild, fine()),
        ("DELETE".to_owned(), format!("{records}/b"), None)
    );
    for value in ["one", "two"] {
        assert_eq!(
            step(&mut rebuild, fine()),
            (
                "POST".to_owned(),
                records.to_owned(),
                Some(format!(
                    r#"{{"type":"TXT","name":"name.test","content":"{value}","ttl":60}}"#
                ))
            )
        );
    }
    assert!(rebuild.next().is_none());
    assert!(rebuild.outcome().is_ok());
}

#[test]
fn nothing_unsafe_is_pasted_into_a_url() {
    assert_eq!(escape("*.a-b_c.9").ok(), Some("*.a-b_c.9"));
    for unsafe_text in ["a/b", "a?b", "a b", "a\"b", "é"] {
        let failure = escape(unsafe_text).expect_err("it cannot be sent");
        assert_eq!(failure.reason(), Reason::Protocol);
        assert_eq!(
            failure.detail(),
            "a name or an identity carries a character that cannot be sent as it is"
        );
    }
    let rebuild = Rebuild::new(HERE, "a/b", &[]);
    assert!(rebuild.next().is_none());
    assert_eq!(ends_in(rebuild), Reason::Protocol);
    let mut rebuild = Rebuild::new(HERE, "name.test", &[]);
    let listed = Said::read(r#"{"success":true,"result":[{"id":"../x","content":"x"}]}"#);
    rebuild.answered(Ok((200, listed)));
    assert!(rebuild.next().is_none());
    assert_eq!(ends_in(rebuild), Reason::Protocol);
}

/// An API that keeps what it was asked, and answers from a list.
struct Listed {
    answers: Vec<Result<(u16, &'static str), Failure>>,
    asked: Vec<(String, String)>,
}

impl Api for Listed {
    fn call(
        &mut self,
        method: &str,
        url: &str,
        _token: &str,
        _body: Option<&str>,
    ) -> Result<(u16, String), Failure> {
        self.asked.push((method.to_owned(), url.to_owned()));
        self.answers
            .remove(0)
            .map(|(status, body)| (status, body.to_owned()))
    }
}

/// Publishes at one name and gives what came of it and what was asked, with
/// the place of the records left out.
fn publish_over(
    values: &[&str],
    answers: Vec<Result<(u16, &'static str), Failure>>,
) -> (Option<Reason>, Vec<(String, String)>) {
    let mut api = Listed {
        answers,
        asked: Vec::new(),
    };
    let outcome = publish(&mut api, HERE, "n", &texts(values));
    let records = "https://api.example.org/zones/zone/dns_records";
    let asked = api
        .asked
        .into_iter()
        .map(|(method, url)| (method, url.strip_prefix(records).expect("records").to_owned()))
        .collect();
    (outcome.err().map(|failure| failure.reason()), asked)
}

fn asked(list: &[(&str, &str)]) -> Vec<(String, String)> {
    list.iter()
        .map(|(method, url)| ((*method).to_owned(), (*url).to_owned()))
        .collect()
}

const LIST: (&str, &str) = ("GET", "?type=TXT&name=n");
const WRITE: (&str, &str) = ("POST", "");

#[test]
fn a_publish_that_fails_deletes_what_it_wrote() {
    let (reason, made) = publish_over(
        &["first", "second"],
        vec![
            Ok((200, r#"{"success":true,"result":[]}"#)),
            Ok((200, r#"{"success":true,"result":{"id":"one"}}"#)),
            Ok((503, r#"{"success":false}"#)),
            Ok((200, r#"{"success":true}"#)),
        ],
    );
    assert_eq!(reason, Some(Reason::Server));
    assert_eq!(made, asked(&[LIST, WRITE, WRITE, ("DELETE", "/one")]));
}

#[test]
fn everything_written_is_taken_back_whatever_comes_of_it() {
    let lost = || Err(Failure::said(Reason::Network, "it did not answer"));
    let (reason, made) = publish_over(
        &["first", "second", "third"],
        vec![
            Ok((200, r#"{"success":true,"result":[]}"#)),
            Ok((200, r#"{"success":true,"result":{"id":"one"}}"#)),
            Ok((200, r#"{"success":true,"result":{"id":"two"}}"#)),
            lost(),
            Ok((403, r#"{"success":false}"#)),
            lost(),
        ],
    );
    assert_eq!(reason, Some(Reason::Network));
    assert_eq!(
        made,
        asked(&[LIST, WRITE, WRITE, WRITE, ("DELETE", "/one"), ("DELETE", "/two")])
    );

    // A value that cannot be sent ends it too, and an identity that cannot
    // be sent, or is not there, is left alone.
    let (reason, made) = publish_over(
        &["first", "second", "third", "a b"],
        vec![
            Ok((200, r#"{"success":true,"result":[]}"#)),
            Ok((200, r#"{"success":true,"result":{"id":"../x"}}"#)),
            Ok((200, r#"{"success":true}"#)),
            Ok((200, r#"{"success":true,"result":{"id":"three"}}"#)),
            Ok((200, r#"{"success":true}"#)),
        ],
    );
    assert_eq!(reason, Some(Reason::Protocol));
    assert_eq!(
        made,
        asked(&[LIST, WRITE, WRITE, WRITE, ("DELETE", "/three")])
    );
}

#[test]
fn a_publish_that_works_takes_nothing_back() {
    let (reason, made) = publish_over(
        &["first"],
        vec![
            Ok((200, r#"{"success":true,"result":[]}"#)),
            Ok((200, r#"{"success":true,"result":{"id":"one"}}"#)),
        ],
    );
    assert_eq!(reason, None);
    assert_eq!(made, asked(&[LIST, WRITE]));
}

#[test]
fn a_refusal_says_what_the_api_said() {
    let said = Said::read(r#"{"success":false,"errors":[{"code":9109,"message":"Invalid"}]}"#);
    let failure = judge(403, &said).expect_err("it refused");
    assert_eq!(
        failure.text(),
        "acme.configuration: the API refused the token (403); it is wrong, expired, or lacks DNS edit permission on this zone: code 9109, Invalid"
    );
    assert!(!failure.worth_retrying());
    let failure = judge(200, &said).expect_err("it says it failed");
    assert_eq!(
        failure.text(),
        "acme.configuration: the API refused the change (200): code 9109, Invalid"
    );
    let failure = judge(503, &fine()).expect_err("a fault of its own");
    assert_eq!(failure.text(), "acme.server: the API refused the change (503)");
    assert!(failure.worth_retrying());
    let failure = judge(200, &Said::read("<html>")).expect_err("not JSON");
    assert!(failure
        .text()
        .starts_with("acme.protocol: the API answered something that is not JSON: "));
    let failure = contents_in(200, &fine()).expect_err("no list");
    assert_eq!(
        failure.detail(),
        "the API answered a list request without a list"
    );
    assert!(judge(200, &fine()).is_ok());
}

/// An API that gives one answer.
struct Once(&'static str);

impl Api for Once {
    fn call(
        &mut self,
        method: &str,
        url: &str,
        token: &str,
        body: Option<&str>,
    ) -> Result<(u16, String), Failure> {
        assert_eq!((method, token, body), ("GET", "token", None));
        assert!(url.ends_with("?type=TXT&name=name.test"));
        Ok((200, self.0.to_owned()))
    }
}

#[test]
fn what_is_at_a_name_is_read_back() {
    let mut api =
        Once(r#"{"success":true,"result":[{"id":"a","content":"x"},{"id":"b","content":"y"}]}"#);
    assert_eq!(
        published(&mut api, HERE, "name.test").ok(),
        Some(texts(&["x", "y"]))
    );
    assert_eq!(
        published(&mut api, HERE, "a/b").map_err(|failure| failure.reason()),
        Err(Reason::Protocol)
    );
}

fn records() -> Shelf<Vec<String>> {
    let mut records = Shelf::new();
    records.insert("b.test".to_owned(), texts(&["2"]));
    records.insert("a.test".to_owned(), texts(&["1", "one"]));
    records
}

#[test]
fn a_wait_looks_at_every_name_in_order_and_begins_again_after_a_miss() {
    let held = records();
    let mut wait = Settling::new(&held, Duration::from_secs(3));
    assert_eq!(wait.next(), Some("a.test"));
    assert!(matches!(
        wait.looked(&texts(&["one", "1", "more"])),
        Verdict::Next
    ));
    assert_eq!(wait.next(), Some("b.test"));
    assert!(matches!(wait.looked(&Vec::new()), Verdict::Wait));
    assert_eq!(wait.next(), Some("a.test"));
    assert!(matches!(wait.looked(&texts(&["1"])), Verdict::Wait));
    let Verdict::Failed(failure) = wait.looked(&Vec::new()) else {
        panic!("four seconds are more than three");
    };
    assert_eq!(
        failure.text(),
        "acme.challenge: a.test was written but is still not answered with what it has to carry after 3s; raise this provider's propagation timeout or check that it serves this zone"
    );
}

#[test]
fn every_value_has_to_be_there_and_more_may_be() {
    assert!(holds_all(&texts(&["1"]), &texts(&["2", "1"])));
    assert!(holds_all(&Vec::new(), &Vec::new()));
    assert!(!holds_all(&texts(&["1", "3"]), &texts(&["2", "1"])));
}

/// A name server that answers nothing for a while.
struct Late {
    silent: u32,
    looks: u32,
}

impl Lookup for Late {
    fn look(&mut self, name: &str) -> Result<Vec<String>, Failure> {
        self.looks += 1;
        if self.looks <= self.silent {
            return Ok(Vec::new());
        }
        Ok(if name == "a.test" {
            texts(&["1", "one"])
        } else {
            texts(&["2"])
        })
    }
}

struct Waits(Vec<Duration>);

impl Pause for Waits {
    fn pause(&mut self, wait: Duration) {
        self.0.push(wait);
    }
}

#[test]
fn a_wait_spends_no_more_than_it_needs() {
    let mut waits = Waits(Vec::new());
    let mut late = Late {
        silent: 2,
        looks: 0,
    };
    settle(
        &records(),
        Duration::from_secs(60),
        &mut late,
        &mut waits,
        &mut Ledger::new(),
    )
    .expect("it appears");
    assert_eq!(late.looks, 4);
    assert_eq!(
        waits.0,
        vec![Duration::from_secs(2), Duration::from_secs(2)]
    );

    let mut never = Late {
        silent: u32::MAX,
        looks: 0,
    };
    let mut waits = Waits(Vec::new());
    let outcome = settle(&records(), Duration::from_secs(5), &mut never, &mut waits, &mut Ledger::new());
    assert_eq!(
        outcome.map_err(|failure| failure.reason()),
        Err(Reason::Challenge)
    );
    assert_eq!(waits.0.len(), 3);
}

/// A name server and a clock that write down what they see in one list.
type Seen = std::rc::Rc<std::cell::RefCell<Vec<String>>>;

struct Watched {
    seen: Seen,
    /// How many looks find nothing.
    silent: usize,
    /// The look that fails outright, when there is one.
    fails: Option<usize>,
    looks: usize,
}

impl Lookup for Watched {
    fn look(&mut self, name: &str) -> Result<Vec<String>, Failure> {
        self.seen.borrow_mut().push(name.to_owned());
        self.looks += 1;
        if self.fails == Some(self.looks) {
            return Err(Failure::said(Reason::Network, "it did not answer"));
        }
        Ok(if self.looks <= self.silent {
            Vec::new()
        } else {
            texts(&["1", "one", "2"])
        })
    }
}

struct Ticks(Seen);

impl Pause for Ticks {
    fn pause(&mut self, wait: Duration) {
        self.0
            .borrow_mut()
            .push(format!("{}s", wait.nanos / 1_000_000_000));
    }
}

fn seen_while(allowed: u64, silent: usize, fails: Option<usize>) -> (Option<Reason>, Vec<String>) {
    let seen = Seen::default();
    let mut watched = Watched {
        seen: seen.clone(),
        silent,
        fails,
        looks: 0,
    };
    let outcome = settle(
        &records(),
        Duration::from_secs(allowed),
        &mut watched,
        &mut Ticks(seen.clone()),
        &mut Ledger::new(),
    );
    let list = seen.borrow().clone();
    (outcome.err().map(|failure| failure.reason()), list)
}

#[test]
fn a_pause_stands_between_two_rounds_of_looks() {
    assert_eq!(
        seen_while(60, 2, None),
        (None, texts(&["a.test", "2s", "a.test", "2s", "a.test", "b.test"]))
    );
    // The time that is allowed is spent before a value is given up.
    assert_eq!(
        seen_while(3, usize::MAX, None),
        (
            Some(Reason::Challenge),
            texts(&["a.test", "2s", "a.test", "2s", "a.test"])
        )
    );
    // Nothing follows a look that failed.
    assert_eq!(
        seen_while(60, 1, Some(3)),
        (
            Some(Reason::Network),
            texts(&["a.test", "2s", "a.test", "b.test"])
        )
    );
}
