//! How a provider is reached, what a dynamic update asks for, and what name
//! servers answer.

use ek_ek::net::{IpAddr, Ipv4Addr, SocketAddr};
use ek_ek::tls::config::{DnsProvider, DnsProviderConnection, DnsProviderId, TsigAlgorithm};
use ek_ek::tls::dns::provider::{
    api_connection, asking, challenge_name, reach, update_connection, update_from, Reach,
};
use ek_ek::tls::dns::resolver::{
    first_nameserver, frame_length, framed, identity_from, message_id, nameservers, no_nameserver,
    txt,
};
use ek_ek::tls::dns::rfc2136::{answers, conclude, prepare, publish, refused, withdraw};
use ek_ek::tls::dns::walk::{Publishing, Withdrawal};
use ek_ek::tls::dns::wire::{self, Case, CLASS_ANY, CLASS_IN, TYPE_TXT};
use ek_ek::tls::shelf::Shelf;
use ek_ek::tls::{Failure, Reason};

const SERVER: IpAddr = IpAddr::V4(Ipv4Addr {
    a: 192,
    b: 0,
    c: 2,
    d: 53,
});
const NAME: &str = "_acme-challenge.ek-ek.test";
const NOW: u64 = 1_800_000_000;

fn updated() -> DnsProvider {
    DnsProvider {
        id: DnsProviderId::new("here"),
        connection: DnsProviderConnection::Rfc2136 {
            server: SERVER,
            port: 5_353,
            zone: "ek-ek.test".to_owned(),
            tsig_key_name: "ek-ek-update".to_owned(),
            tsig_algorithm: TsigAlgorithm::HmacSha256,
        },
        propagation_timeout_secs: 120,
    }
}

fn hosted(api_base: &str) -> DnsProvider {
    DnsProvider {
        id: DnsProviderId::new("there"),
        connection: DnsProviderConnection::Cloudflare {
            zone_id: "0123".to_owned(),
            api_base: api_base.to_owned(),
        },
        propagation_timeout_secs: 120,
    }
}

fn failed<T>(outcome: Result<T, Failure>) -> (Reason, String) {
    let failure = outcome.err().expect("this has to fail");
    (failure.reason(), failure.detail().to_owned())
}

#[test]
fn a_shared_key_is_decoded_before_it_is_used() {
    let update = update_connection(&updated(), "  c2VjcmV0\n").expect("it is base64");
    assert_eq!(update.secret, b"secret");
    assert_eq!(
        update.server,
        SocketAddr {
            address: SERVER,
            port: 5_353,
        }
    );
    assert_eq!(update.zone, "ek-ek.test");
    assert_eq!(update.key_name, "ek-ek-update");
    assert_eq!(update.algorithm, TsigAlgorithm::HmacSha256);
}

#[test]
fn a_shared_key_that_cannot_be_used_is_a_configuration_fault() {
    let (reason, detail) = failed(update_connection(&updated(), "not base64 at all"));
    assert_eq!(reason, Reason::Configuration);
    assert!(detail.starts_with("the shared key of here is not readable as base64: "));
    assert_eq!(
        failed(update_connection(&updated(), " \t")),
        (
            Reason::Configuration,
            "the shared key of here is empty".to_owned()
        )
    );
    assert_eq!(
        failed(update_from(&updated(), Err("why".to_owned()))),
        (
            Reason::Configuration,
            "the shared key of here is not readable as base64: why".to_owned()
        )
    );
}

#[test]
fn a_provider_reached_as_another_kind_says_so() {
    assert_eq!(
        failed(update_connection(&hosted(""), "c2VjcmV0")),
        (
            Reason::Configuration,
            "there was reached as a kind of provider it is not".to_owned()
        )
    );
    assert_eq!(
        failed(api_connection(&updated(), "token")),
        (
            Reason::Configuration,
            "here was reached as a kind of provider it is not".to_owned()
        )
    );
}

#[test]
fn an_api_is_reached_where_it_is_configured_or_where_it_usually_is() {
    let usual = api_connection(&hosted(""), " token\n").expect("there is a token");
    assert_eq!(usual.base, "https://api.cloudflare.com/client/v4");
    assert_eq!(usual.zone_id, "0123");
    assert_eq!(usual.token, "token");
    let named = api_connection(&hosted("https://api.example.org//"), "token").expect("a token");
    assert_eq!(named.base, "https://api.example.org");
    assert_eq!(
        failed(api_connection(&hosted(""), "  ")),
        (
            Reason::Configuration,
            "the API token of there is empty".to_owned()
        )
    );
}

#[test]
fn the_updated_name_server_is_the_one_asked() {
    assert_eq!(
        asking(&updated()),
        Some(SocketAddr {
            address: SERVER,
            port: 5_353,
        })
    );
    assert_eq!(asking(&hosted("")), None);
}

#[test]
fn a_provider_is_reached_as_the_kind_it_is() {
    let Ok(Reach::Update(update)) = reach(&updated(), "c2VjcmV0") else {
        panic!("this one takes updates");
    };
    assert_eq!(update.secret, b"secret");
    let Ok(Reach::Api(api)) = reach(&hosted(""), "token") else {
        panic!("this one has an API");
    };
    assert_eq!(api.token, "token");
    assert_eq!(failed(reach(&hosted(""), "")).0, Reason::Configuration);
    assert_eq!(failed(reach(&updated(), "")).0, Reason::Configuration);
}

#[test]
fn an_apex_and_its_wildcard_share_a_name() {
    assert_eq!(challenge_name("ek-ek.test"), NAME);
    assert_eq!(challenge_name("*.ek-ek.test"), NAME);
    assert_eq!(
        challenge_name("*.*.ek-ek.test"),
        "_acme-challenge.*.ek-ek.test"
    );
}

#[test]
fn the_first_failure_is_what_taking_records_away_comes_to() {
    let names = ["a".to_owned(), "b".to_owned(), "c".to_owned()];
    let outcomes = [None, Some("one"), Some("two")];
    let mut withdrawal = Withdrawal::new(&names);
    for (name, outcome) in names.iter().zip(outcomes) {
        assert_eq!(withdrawal.next(), Some(name.as_str()));
        withdrawal.heard(match outcome {
            Some(detail) => Err(Failure::said(Reason::Server, detail)),
            None => Ok(()),
        });
    }
    assert_eq!(withdrawal.next(), None);
    assert_eq!(
        failed(withdrawal.outcome()),
        (Reason::Server, "one".to_owned())
    );

    let mut withdrawal = Withdrawal::new(&names);
    while withdrawal.next().is_some() {
        withdrawal.heard(Ok(()));
    }
    assert!(withdrawal.outcome().is_ok());
    let none = Withdrawal::new(&[]);
    assert_eq!(none.next(), None);
    assert!(none.outcome().is_ok());
}

#[test]
fn writing_records_stops_at_the_first_that_fails() {
    let mut records = Shelf::new();
    records.insert("b".to_owned(), vec!["2".to_owned()]);
    records.insert("c".to_owned(), vec!["3".to_owned()]);
    records.insert("a".to_owned(), vec!["1".to_owned(), "one".to_owned()]);

    let mut publishing = Publishing::new(&records);
    assert_eq!(
        publishing.next(),
        Some(("a", ["1".to_owned(), "one".to_owned()].as_slice()))
    );
    publishing.heard(Ok(()));
    assert_eq!(publishing.next(), Some(("b", ["2".to_owned()].as_slice())));
    publishing.heard(Err(Failure::said(Reason::Server, "down")));
    assert_eq!(publishing.next(), None);
    assert_eq!(
        failed(publishing.outcome()),
        (Reason::Server, "down".to_owned())
    );

    let mut publishing = Publishing::new(&records);
    let mut written = Vec::new();
    while let Some((name, _)) = publishing.next() {
        written.push(name);
        publishing.heard(Ok(()));
    }
    assert_eq!(written, ["a", "b", "c"]);
    assert!(publishing.outcome().is_ok());
}

#[test]
fn publishing_clears_the_set_and_rebuilds_it_in_one_message() {
    let changes = publish(NAME, &["a".to_owned(), "b".to_owned()]).expect("both fit");
    assert_eq!(changes.len(), 3);
    assert_eq!(
        (changes[0].kind, changes[0].class, changes[0].ttl),
        (TYPE_TXT, CLASS_ANY, 0)
    );
    assert!(changes[0].data.is_empty());
    for (at, value) in [(1, b'a'), (2, b'b')] {
        assert_eq!(changes[at].name, NAME);
        assert_eq!(
            (changes[at].kind, changes[at].class, changes[at].ttl),
            (TYPE_TXT, CLASS_IN, 60)
        );
        assert_eq!(changes[at].data, vec![1, value]);
    }
    let gone = withdraw(NAME);
    assert_eq!(gone.len(), 1);
    assert_eq!(gone[0].class, CLASS_ANY);
    assert_eq!(
        failed(publish(NAME, &["a".to_owned(), "x".repeat(256)])),
        (
            Reason::Protocol,
            "a TXT value longer than 255 bytes needs more than one string".to_owned()
        )
    );
}

/// What an HMAC over these bytes is.
fn hmac(secret: &[u8], over: &[u8], digest: openssl::hash::MessageDigest) -> Vec<u8> {
    let key = openssl::pkey::PKey::hmac(secret).expect("a key");
    let mut signer = openssl::sign::Signer::new(digest, &key).expect("a signer");
    signer.update(over).expect("it digests");
    signer.sign_to_vec().expect("it signs")
}

/// The name, class and time to live of a signature, and then the rest of
/// what it covers.
fn variables(algorithm: &str, at: u64) -> Vec<u8> {
    let mut out = Vec::new();
    wire::write_name("ek-ek-update", Case::Canonical, &mut out).expect("it is a name");
    out.extend(255_u16.to_be_bytes());
    out.extend(0_u32.to_be_bytes());
    wire::write_name(algorithm, Case::Canonical, &mut out).expect("it is a name");
    out.extend(&at.to_be_bytes()[2..]);
    out.extend(300_u16.to_be_bytes());
    out.extend([0; 4]);
    out
}

#[test]
fn an_update_is_signed_over_the_message_and_the_variables() {
    let changes = publish(NAME, &["a".to_owned()]).expect("it fits");
    let plain = wire::update(7, "ek-ek.test", &changes).expect("it builds");
    for (algorithm, named, digest, length) in [
        (
            TsigAlgorithm::HmacSha256,
            "hmac-sha256",
            openssl::hash::MessageDigest::sha256(),
            32,
        ),
        (
            TsigAlgorithm::HmacSha512,
            "hmac-sha512",
            openssl::hash::MessageDigest::sha512(),
            64,
        ),
    ] {
        let signed = prepare(
            7,
            "ek-ek.test",
            &changes,
            "ek-ek-update",
            algorithm,
            b"secret",
            NOW,
        )
        .expect("it signs");
        let mut over = plain.clone();
        over.extend(variables(named, NOW));
        assert_eq!(signed.mac, hmac(b"secret", &over, digest));
        assert_eq!(signed.mac.len(), length);
    }
}

/// The answer a name server gives to an update, signed.
fn answered(id: u16, rcode: u8, request_mac: &[u8]) -> Vec<u8> {
    let mut body = Vec::new();
    body.extend(id.to_be_bytes());
    body.extend([0xA8, rcode]);
    body.extend([0; 8]);
    let mut over = Vec::new();
    over.extend((request_mac.len() as u16).to_be_bytes());
    over.extend(request_mac);
    over.extend(&body);
    over.extend(variables("hmac-sha256", NOW));
    let mac = hmac(b"secret", &over, openssl::hash::MessageDigest::sha256());

    let mut data = Vec::new();
    wire::write_name("hmac-sha256", Case::Canonical, &mut data).expect("it is a name");
    data.extend(&NOW.to_be_bytes()[2..]);
    data.extend(300_u16.to_be_bytes());
    data.extend((mac.len() as u16).to_be_bytes());
    data.extend(&mac);
    data.extend(id.to_be_bytes());
    data.extend([0; 4]);

    wire::write_name("ek-ek-update", Case::Canonical, &mut body).expect("it is a name");
    body.extend(250_u16.to_be_bytes());
    body.extend(255_u16.to_be_bytes());
    body.extend(0_u32.to_be_bytes());
    body.extend((data.len() as u16).to_be_bytes());
    body.extend(&data);
    body[11] = 1;
    body
}

fn concluded(id: u16, answer: &[u8], request_mac: &[u8]) -> Result<(), Failure> {
    conclude(
        id,
        answer,
        "ek-ek-update",
        TsigAlgorithm::HmacSha256,
        b"secret",
        request_mac,
        NOW,
        "192.0.2.53:5353",
    )
}

#[test]
fn an_answer_is_believed_only_when_it_is_signed_and_to_this_update() {
    let mac = [7_u8; 32];
    assert!(concluded(7, &answered(7, 0, &mac), &mac).is_ok());
    assert_eq!(
        failed(concluded(8, &answered(7, 0, &mac), &mac)),
        (
            Reason::Protocol,
            "the name server answered an update nobody sent".to_owned()
        )
    );
    assert_eq!(
        failed(concluded(7, &[0; 11], &mac)),
        (
            Reason::Protocol,
            "the name server sent a message that ends too early".to_owned()
        )
    );
    assert_eq!(
        failed(concluded(7, &answered(7, 0, &mac), &[8; 32])).0,
        Reason::Crypto
    );
    assert_eq!(
        failed(concluded(7, &answered(7, 5, &mac), &mac)),
        (
            Reason::Configuration,
            "192.0.2.53:5353: the name server refused the update; the key is not allowed to write this zone (code 5)"
                .to_owned()
        )
    );
    assert_eq!(answers(7, &answered(7, 5, &mac)).ok(), Some(5));
}

#[test]
fn every_code_has_a_reason_an_operator_can_act_on() {
    let reasons: Vec<Reason> = (0..=12).map(|code| refused(code, "s").reason()).collect();
    assert_eq!(
        reasons,
        vec![
            Reason::Protocol,
            Reason::Protocol,
            Reason::Server,
            Reason::Configuration,
            Reason::Configuration,
            Reason::Configuration,
            Reason::Protocol,
            Reason::Protocol,
            Reason::Protocol,
            Reason::Configuration,
            Reason::Configuration,
            Reason::Protocol,
            Reason::Protocol,
        ]
    );
    assert_eq!(
        refused(10, "s").detail(),
        "s: the name is not inside the zone this provider is configured with (code 10)"
    );
}

#[test]
fn a_message_travels_behind_its_length() {
    assert_eq!(framed(&[1, 2, 3]).expect("it fits"), vec![0, 3, 1, 2, 3]);
    assert_eq!(frame_length(0x01, 0x02), 258);
    let longest = vec![9_u8; 65_535];
    let bytes = framed(&longest).expect("it still fits");
    assert_eq!(frame_length(bytes[0], bytes[1]), 65_535);
    assert_eq!(
        failed(framed(&vec![0_u8; 65_536])),
        (
            Reason::Protocol,
            "the message is longer than the protocol carries".to_owned()
        )
    );
}

#[test]
fn a_name_that_is_not_there_is_no_value_rather_than_a_fault() {
    let mut answer = vec![0_u8; 12];
    answer[3] = 3;
    assert_eq!(txt(&answer, "s", NAME).ok(), Some(Vec::new()));
    answer[3] = 2;
    assert_eq!(
        failed(txt(&answer, "s", NAME)),
        (
            Reason::Protocol,
            format!("the name server at s answered the question about {NAME} with code 2")
        )
    );
    assert_eq!(failed(txt(&answer[..4], "s", NAME)).0, Reason::Protocol);
}

#[test]
fn a_resolver_configuration_names_its_servers() {
    let text = "# comment\nsearch example.org\nnameserver 192.0.2.1 # first\r\n  nameserver\tfe80::1%eth0\n#nameserver 192.0.2.9\nnameserver nonsense\n";
    assert_eq!(
        nameservers(text),
        vec!["192.0.2.1", "fe80::1", "nonsense"]
    );
    assert_eq!(nameservers(""), Vec::<String>::new());
}

#[test]
fn the_first_server_that_reads_as_an_address_is_asked() {
    assert_eq!(
        first_nameserver(&vec![None, Some(SERVER), None]),
        Some(SocketAddr {
            address: SERVER,
            port: 53,
        })
    );
    assert_eq!(first_nameserver(&vec![None]), None);
    assert_eq!(
        no_nameserver().detail(),
        "/etc/resolv.conf names no name server to ask"
    );
    assert_eq!(
        ek_ek::tls::dns::resolver::unreachable("192.0.2.53:53", "refused").text(),
        "acme.network: the name server at 192.0.2.53:53 did not answer: refused"
    );
}

#[test]
fn an_identity_is_the_two_bytes_that_were_drawn() {
    assert_eq!(identity_from(Ok([0x12, 0x34])).ok(), Some(0x1234));
    assert_eq!(
        failed(identity_from(Err("no entropy".to_owned()))),
        (
            Reason::Crypto,
            "a message identity could not be drawn: no entropy".to_owned()
        )
    );
}

#[test]
fn message_identities_are_not_counted_up() {
    let drawn: Vec<u16> = (0..16)
        .map(|_| message_id().expect("one can be drawn"))
        .collect();
    assert!(drawn.windows(2).any(|pair| pair[1] != pair[0].wrapping_add(1)));
    assert!(drawn.iter().any(|id| *id != drawn[0]));
}
