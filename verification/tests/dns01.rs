//! The DNS-01 side of the order flow, and the wait for a record to appear.
//!
//! No socket and no name server. What is measured is which challenge the
//! flow picks, what it asks to be published, where a wildcard's record goes,
//! and that the wait ends rather than holding an order open for ever.

use ek_ek::time::{Duration, Pause};
use ek_ek::tls::dns::{challenge_name, settle, Lookup, LOOK_INTERVAL};
use ek_ek::tls::ledger::Ledger;
use ek_ek::tls::shelf::Shelf;
use ek_ek::tls::{
    record_value, Answer, Ask, Challenge, Failure, Flow, Progress, Publication, Reason,
};

const DIRECTORY: &str = "https://acme.example.org/dir";
const NONCE_URL: &str = "https://acme.example.org/nonce";
const ACCOUNT_URL: &str = "https://acme.example.org/new-account";
const ORDER_URL: &str = "https://acme.example.org/new-order";
const AUTHZ_URL: &str = "https://acme.example.org/authz/1";
const SECOND_AUTHZ_URL: &str = "https://acme.example.org/authz/2";
const CHALLENGE_URL: &str = "https://acme.example.org/chall/1";
const PLACED_URL: &str = "https://acme.example.org/order/9";
const FINALIZE_URL: &str = "https://acme.example.org/order/9/finalize";
const ACCOUNT: &str = "https://acme.example.org/account/7";
const THUMBPRINT: &str = "AAAABBBBCCCCDDDD";
const TOKEN: &str = "tokenTOKENtoken";
const OTHER_TOKEN: &str = "secondSECONDsecond";
const RECORD: &str = "_acme-challenge.ek-ek.test";

fn flow(names: Vec<String>) -> Flow {
    Flow::new(
        DIRECTORY,
        names,
        THUMBPRINT,
        "yonetici@ek-ek.test",
        "Q1NSCg",
        Challenge::Dns01,
    )
}

fn moved(flow: &mut Flow, answer: &Answer) {
    assert_eq!(
        flow.accept(answer).expect("the flow reads this"),
        Progress::Moved
    );
}

fn directory_body() -> String {
    format!(r#"{{"newNonce":"{NONCE_URL}","newAccount":"{ACCOUNT_URL}","newOrder":"{ORDER_URL}"}}"#)
}

fn order_body(authorizations: &[&str]) -> String {
    let listed: Vec<String> = authorizations
        .iter()
        .map(|url| format!("\"{url}\""))
        .collect();
    format!(
        r#"{{"status":"pending","authorizations":[{}],"finalize":"{FINALIZE_URL}"}}"#,
        listed.join(",")
    )
}

/// An authorization offering both challenges, with DNS-01 second.
fn authorization(identifier: &str, token: &str, wildcard: bool) -> String {
    let star = if wildcard { r#","wildcard":true"# } else { "" };
    format!(
        r#"{{"status":"pending","identifier":{{"type":"dns","value":"{identifier}"}}{star},"challenges":[{{"type":"http-01","url":"https://acme.example.org/chall/http","token":"{token}"}},{{"type":"dns-01","url":"{CHALLENGE_URL}","token":"{token}"}}]}}"#
    )
}

/// What is published under one name.
fn held_at<'a>(flow: &'a Flow, name: &str) -> &'a Vec<String> {
    flow.published()
        .entries
        .get(name)
        .expect("something is published under it")
}

fn up_to(flow: &mut Flow, authorizations: &[&str], bodies: &[String]) {
    moved(flow, &Answer::new(200, &directory_body(), None));
    moved(flow, &Answer::new(204, "", None));
    moved(flow, &Answer::new(201, "{}", Some(ACCOUNT.to_owned())));
    moved(
        flow,
        &Answer::new(201, &order_body(authorizations), Some(PLACED_URL.to_owned())),
    );
    for body in bodies {
        moved(flow, &Answer::new(200, body, None));
        if body != bodies.last().expect("there is one") {
            // Accepting the challenge moves on to the next authorization.
            moved(flow, &Answer::new(200, "{}", None));
        }
    }
}

#[test]
fn the_dns_challenge_is_the_one_taken_even_when_http_comes_first() {
    let mut flow = flow(vec!["ek-ek.test".to_owned()]);
    up_to(
        &mut flow,
        &[AUTHZ_URL],
        &[authorization("ek-ek.test", TOKEN, false)],
    );

    let Some(Ask::Send { url, .. }) = flow.next() else {
        panic!("the challenge is accepted with a signed request");
    };
    assert_eq!(
        url, CHALLENGE_URL,
        "the flow answered the challenge it cannot serve"
    );
    assert_eq!(flow.published().kind, Some(Challenge::Dns01));
}

#[test]
fn a_server_that_offers_no_dns_challenge_ends_the_order() {
    let mut flow = flow(vec!["ek-ek.test".to_owned()]);
    moved(&mut flow, &Answer::new(200, &directory_body(), None));
    moved(&mut flow, &Answer::new(204, "", None));
    moved(&mut flow, &Answer::new(201, "{}", Some(ACCOUNT.to_owned())));
    moved(
        &mut flow,
        &Answer::new(201, &order_body(&[AUTHZ_URL]), Some(PLACED_URL.to_owned())),
    );

    let failure = flow
        .accept(&Answer::new(
            200,
            &format!(
                r#"{{"status":"pending","identifier":{{"type":"dns","value":"ek-ek.test"}},"challenges":[{{"type":"http-01","url":"{CHALLENGE_URL}","token":"{TOKEN}"}}]}}"#
            ),
            None,
        ))
        .expect_err("a provider was configured for a challenge the server does not offer");
    assert_eq!(failure.reason(), Reason::Challenge);
    assert!(
        !failure.worth_retrying(),
        "asking the same server the same question again changes nothing"
    );
}

#[test]
fn the_record_sits_under_the_challenge_label_of_the_name() {
    let mut flow = flow(vec!["ek-ek.test".to_owned()]);
    up_to(
        &mut flow,
        &[AUTHZ_URL],
        &[authorization("ek-ek.test", TOKEN, false)],
    );

    let entries = &flow.published().entries;
    assert_eq!(entries.len(), 1);
    let values = entries.get(RECORD).expect("the record is named after it");
    assert_eq!(values.len(), 1);
}

#[test]
fn a_wildcard_is_proven_at_the_name_it_stands_for() {
    assert_eq!(challenge_name("*.ek-ek.test"), RECORD);
    assert_eq!(challenge_name("ek-ek.test"), RECORD);
}

#[test]
fn the_record_value_is_a_digest_and_not_the_answer_itself() {
    let mut flow = flow(vec!["ek-ek.test".to_owned()]);
    up_to(
        &mut flow,
        &[AUTHZ_URL],
        &[authorization("ek-ek.test", TOKEN, false)],
    );

    let value = held_at(&flow, RECORD)[0].clone();
    assert_eq!(
        value,
        record_value(TOKEN, THUMBPRINT).expect("it digests")
    );
    assert_eq!(
        value.len(),
        43,
        "a digest of a fixed length is what keeps the record inside one string"
    );
    assert!(
        !value.contains(TOKEN),
        "publishing the answer itself would put it in a place anybody can read"
    );
    assert!(
        !value.contains('=') && !value.contains('+') && !value.contains('/'),
        "the value is base64url without padding, so it needs no quoting: {value}"
    );
}

#[test]
fn an_apex_and_its_wildcard_both_land_at_one_name() {
    let mut flow = flow(vec!["ek-ek.test".to_owned(), "*.ek-ek.test".to_owned()]);
    up_to(
        &mut flow,
        &[AUTHZ_URL, SECOND_AUTHZ_URL],
        &[
            authorization("ek-ek.test", TOKEN, false),
            authorization("ek-ek.test", OTHER_TOKEN, true),
        ],
    );

    let values = held_at(&flow, RECORD);
    assert_eq!(
        values.len(),
        2,
        "dropping either value fails the authorization it belongs to: {values:?}"
    );
    assert_ne!(values[0], values[1]);
    assert!(values.contains(&record_value(TOKEN, THUMBPRINT).expect("it digests")));
    assert!(
        values.contains(&record_value(OTHER_TOKEN, THUMBPRINT).expect("it digests"))
    );
}

#[test]
fn a_token_with_a_separator_is_fine_for_a_record() {
    let mut flow = flow(vec!["ek-ek.test".to_owned()]);
    up_to(
        &mut flow,
        &[AUTHZ_URL],
        &[authorization("ek-ek.test", "a/b", false)],
    );
    assert_eq!(
        held_at(&flow, RECORD).len(),
        1,
        "a token becomes a digest here, not a path, so a separator means nothing"
    );
}

#[test]
fn an_authorization_without_an_identifier_is_refused() {
    let mut flow = flow(vec!["ek-ek.test".to_owned()]);
    moved(&mut flow, &Answer::new(200, &directory_body(), None));
    moved(&mut flow, &Answer::new(204, "", None));
    moved(&mut flow, &Answer::new(201, "{}", Some(ACCOUNT.to_owned())));
    moved(
        &mut flow,
        &Answer::new(201, &order_body(&[AUTHZ_URL]), Some(PLACED_URL.to_owned())),
    );

    let failure = flow
        .accept(&Answer::new(
            200,
            &format!(
                r#"{{"status":"pending","challenges":[{{"type":"dns-01","url":"{CHALLENGE_URL}","token":"{TOKEN}"}}]}}"#
            ),
            None,
        ))
        .expect_err("there is nowhere to put the record without a name");
    assert_eq!(failure.reason(), Reason::Protocol);
    assert!(flow.published().is_empty());
}

#[test]
fn giving_up_takes_the_records_away_too() {
    let mut flow = flow(vec!["ek-ek.test".to_owned()]);
    up_to(
        &mut flow,
        &[AUTHZ_URL],
        &[authorization("ek-ek.test", TOKEN, false)],
    );
    assert!(!flow.published().is_empty());

    flow.abandon();
    assert!(
        flow.published().is_empty(),
        "a record left behind is one nobody is watching"
    );
}

/// A lookup that answers from a script, one call at a time.
struct Scripted {
    answers: Vec<Vec<String>>,
}

impl Lookup for Scripted {
    fn look(&mut self, _name: &str) -> Result<Vec<String>, Failure> {
        if self.answers.is_empty() {
            return Ok(Vec::new());
        }
        Ok(self.answers.remove(0))
    }
}

fn scripted(answers: Vec<Vec<String>>) -> Scripted {
    Scripted { answers }
}

/// A lookup that reaches nothing.
struct Nothing;

impl Lookup for Nothing {
    fn look(&mut self, _name: &str) -> Result<Vec<String>, Failure> {
        Err(Failure::new(Reason::Network, "nothing answered".to_owned()))
    }
}

/// A wait that only counts.
struct Waits {
    held: Vec<Duration>,
}

impl Pause for Waits {
    fn pause(&mut self, wait: Duration) {
        self.held.push(wait);
    }
}

/// A wait that must not happen.
struct Never;

impl Pause for Never {
    fn pause(&mut self, _wait: Duration) {
        panic!("a wait between looks is not a wait for a server that is not there");
    }
}

/// One name and what it has to carry.
fn wanted(values: &[&str]) -> Shelf<Vec<String>> {
    let mut records = Shelf::new();
    records.insert(
        RECORD.to_owned(),
        values.iter().map(|value| (*value).to_owned()).collect(),
    );
    records
}

#[test]
fn the_wait_ends_as_soon_as_the_value_is_there() {
    let records = wanted(&["value"]);
    let mut waits = Waits { held: Vec::new() };
    let mut look = scripted(vec![vec!["value".to_owned()]]);

    settle(&records, Duration::from_secs(120), &mut look, &mut waits, &mut Ledger::new())
    .expect("the record is there");

    assert!(
        waits.held.is_empty(),
        "a record that is already visible is not waited for"
    );
}

#[test]
fn the_wait_keeps_looking_until_the_value_appears() {
    let records = wanted(&["value"]);
    let mut waits = Waits { held: Vec::new() };
    let mut look = scripted(vec![
        Vec::new(),
        vec!["something else".to_owned()],
        vec!["value".to_owned()],
    ]);

    settle(&records, Duration::from_secs(120), &mut look, &mut waits, &mut Ledger::new())
    .expect("it appears on the third look");

    assert_eq!(
        waits.held,
        vec![
            Duration::from_secs(LOOK_INTERVAL),
            Duration::from_secs(LOOK_INTERVAL)
        ]
    );
}

#[test]
fn a_record_that_never_appears_ends_the_attempt_with_the_name_that_is_missing() {
    let records = wanted(&["value"]);
    let mut waits = Waits { held: Vec::new() };
    let mut look = scripted(Vec::new());

    let failure = settle(
        &records,
        Duration::from_secs(LOOK_INTERVAL * 3),
        &mut look,
        &mut waits,
        &mut Ledger::new(),
    )
    .expect_err("telling the authority to look at a name that holds nothing loses the identifier");

    assert_eq!(failure.reason(), Reason::Challenge);
    assert!(
        failure.detail().contains(RECORD),
        "the name is what an operator has to go and look at: {}",
        failure.detail()
    );
    assert!(
        !failure.detail().contains("value"),
        "the answer to the challenge is not for a log: {}",
        failure.detail()
    );
    let waited: u128 = waits.held.iter().map(|wait| wait.nanos).sum();
    assert_eq!(
        waited,
        Duration::from_secs(LOOK_INTERVAL * 3).nanos,
        "the wait spends the configured time and not a look more"
    );
}

#[test]
fn every_value_at_a_name_has_to_be_there_before_the_wait_ends() {
    let records = wanted(&["first", "second"]);
    let mut look = scripted(vec![vec!["first".to_owned()]]);

    let failure = settle(
        &records,
        Duration::zero(),
        &mut look,
        &mut Waits { held: Vec::new() },
        &mut Ledger::new(),
    )
        .expect_err("one of the two authorizations would fail");
    assert_eq!(failure.reason(), Reason::Challenge);
}

#[test]
fn a_name_server_that_cannot_be_asked_ends_the_wait_rather_than_being_retried_here() {
    let records = wanted(&["value"]);
    let mut look = Nothing;

    let failure = settle(&records, Duration::from_secs(120), &mut look, &mut Never, &mut Ledger::new())
    .expect_err("the attempt ends and the order decides whether to make another");
    assert_eq!(failure.reason(), Reason::Network);
}

#[test]
fn a_publication_is_refused_by_the_publisher_of_the_other_challenge() {
    let mut flow = flow(vec!["ek-ek.test".to_owned()]);
    up_to(
        &mut flow,
        &[AUTHZ_URL],
        &[authorization("ek-ek.test", TOKEN, false)],
    );

    let publication = flow.published();
    publication
        .meant_for(Challenge::Dns01)
        .expect("this is what it is");

    let failure = publication
        .meant_for(Challenge::Http01)
        .expect_err("a record cannot be served from a listener, and nobody would find it");
    assert_eq!(failure.reason(), Reason::Protocol);
    assert!(failure.detail().contains("dns-01") && failure.detail().contains("http-01"));
}

#[test]
fn an_empty_publication_belongs_to_whoever_is_closing_up() {
    let empty = Publication::default();
    empty
        .meant_for(Challenge::Http01)
        .expect("taking nothing away is not a mismatch");
    empty
        .meant_for(Challenge::Dns01)
        .expect("and neither is it");
}
