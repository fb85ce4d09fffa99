//! What an operator may upload, what has to be refused, and what an upload
//! leaves in the state.
//!
//! Every certificate here is built when the measurement runs, with the same
//! library the product serves handshakes with. A fixture file would be a key
//! in the repository, and a key in the repository is a leaked key.

use openssl::asn1::Asn1Time;
use openssl::bn::{BigNum, MsbOption};
use openssl::ec::{EcGroup, EcKey};
use openssl::hash::MessageDigest;
use openssl::nid::Nid;
use openssl::pkey::{PKey, Private};
use openssl::x509::extension::{
    BasicConstraints, KeyUsage, SubjectAlternativeName, SubjectKeyIdentifier,
};
use openssl::x509::{X509, X509Name, X509NameRef};

use ek_ek::tls::config::{Certificate, CertificateId, CertificateSource, Config};
use ek_ek::tls::inspect::inspect;
use ek_ek::tls::record::Snapshot;
use ek_ek::tls::validation::{ErrorCode, ParameterValue, WarningCode};
use ek_ek::tls::{carry_obtained, chain_id, install, key_id, remove, MOST_CERTIFICATES};

/// One certificate and the key that belongs to it.
struct Pair {
    certificate: X509,
    key: PKey<Private>,
}

impl Pair {
    /// The certificate in PEM.
    fn chain_pem(&self) -> Vec<u8> {
        self.certificate.to_pem().expect("a certificate writes out")
    }

    /// The key in PEM, with no passphrase.
    fn key_pem(&self) -> Vec<u8> {
        self.key
            .private_key_to_pem_pkcs8()
            .expect("a key writes out")
    }

    /// The key in PEM, behind a passphrase.
    fn key_pem_encrypted(&self, passphrase: &str) -> Vec<u8> {
        self.key
            .private_key_to_pem_pkcs8_passphrase(
                openssl::symm::Cipher::aes_256_cbc(),
                passphrase.as_bytes(),
            )
            .expect("a key writes out encrypted")
    }
}

/// A key of the kind this product's own certificates use.
fn key() -> PKey<Private> {
    let group = EcGroup::from_curve_name(Nid::X9_62_PRIME256V1).expect("P-256 exists");
    let key = EcKey::generate(&group).expect("a key is generated");
    PKey::from_ec_key(key).expect("the key wraps")
}

/// A name with one common name in it.
fn named(common_name: &str) -> X509Name {
    let mut builder = X509Name::builder().expect("a name builder");
    builder
        .append_entry_by_nid(Nid::COMMONNAME, common_name)
        .expect("a common name is appended");
    builder.build()
}

/// A serial number, because two certificates from one issuer need different
/// ones.
fn serial() -> openssl::asn1::Asn1Integer {
    let mut number = BigNum::new().expect("a number");
    number
        .rand(96, MsbOption::MAYBE_ZERO, false)
        .expect("a random serial");
    number.to_asn1_integer().expect("the serial converts")
}

/// A self-signed certificate authority.
fn authority(common_name: &str) -> Pair {
    let key = key();
    let name = named(common_name);

    let mut builder = X509::builder().expect("a certificate builder");
    builder.set_version(2).expect("version 3");
    builder.set_serial_number(&serial()).expect("a serial");
    builder.set_subject_name(&name).expect("a subject");
    builder.set_issuer_name(&name).expect("an issuer");
    builder.set_pubkey(&key).expect("a public key");
    builder
        .set_not_before(&Asn1Time::days_from_now(0).expect("a start"))
        .expect("the start is set");
    builder
        .set_not_after(&Asn1Time::days_from_now(3650).expect("an end"))
        .expect("the end is set");
    builder
        .append_extension(
            BasicConstraints::new()
                .critical()
                .ca()
                .build()
                .expect("basic constraints"),
        )
        .expect("the extension is appended");
    builder
        .append_extension(
            KeyUsage::new()
                .critical()
                .key_cert_sign()
                .crl_sign()
                .build()
                .expect("key usage"),
        )
        .expect("the extension is appended");
    builder
        .sign(&key, MessageDigest::sha256())
        .expect("the certificate is signed");

    Pair {
        certificate: builder.build(),
        key,
    }
}

/// An intermediate signed by an authority.
fn intermediate(common_name: &str, issuer: &Pair) -> Pair {
    let key = key();
    let mut builder = X509::builder().expect("a certificate builder");
    builder.set_version(2).expect("version 3");
    builder.set_serial_number(&serial()).expect("a serial");
    builder
        .set_subject_name(&named(common_name))
        .expect("a subject");
    builder
        .set_issuer_name(issuer.certificate.subject_name())
        .expect("an issuer");
    builder.set_pubkey(&key).expect("a public key");
    builder
        .set_not_before(&Asn1Time::days_from_now(0).expect("a start"))
        .expect("the start is set");
    builder
        .set_not_after(&Asn1Time::days_from_now(1825).expect("an end"))
        .expect("the end is set");
    builder
        .append_extension(
            BasicConstraints::new()
                .critical()
                .ca()
                .pathlen(0)
                .build()
                .expect("basic constraints"),
        )
        .expect("the extension is appended");
    builder
        .sign(&issuer.key, MessageDigest::sha256())
        .expect("the certificate is signed");

    Pair {
        certificate: builder.build(),
        key,
    }
}

/// A server certificate, signed by whoever is given.
///
/// The days are relative to now, so a measurement can build one that expired
/// last week without waiting for anything.
fn leaf(
    common_name: &str,
    alternatives: &[&str],
    issuer: &Pair,
    from_days: i64,
    to_days: i64,
) -> Pair {
    let key = key();
    let mut builder = X509::builder().expect("a certificate builder");
    builder.set_version(2).expect("version 3");
    builder.set_serial_number(&serial()).expect("a serial");
    builder
        .set_subject_name(&named(common_name))
        .expect("a subject");
    builder
        .set_issuer_name(issuer.certificate.subject_name())
        .expect("an issuer");
    builder.set_pubkey(&key).expect("a public key");
    builder
        .set_not_before(&from(from_days))
        .expect("the start is set");
    builder
        .set_not_after(&from(to_days))
        .expect("the end is set");
    builder
        .append_extension(
            BasicConstraints::new()
                .critical()
                .build()
                .expect("basic constraints"),
        )
        .expect("the extension is appended");
    builder
        .append_extension(
            SubjectKeyIdentifier::new()
                .build(&builder.x509v3_context(Some(&issuer.certificate), None))
                .expect("a subject key identifier"),
        )
        .expect("the extension is appended");

    if !alternatives.is_empty() {
        let mut names = SubjectAlternativeName::new();
        for name in alternatives {
            names.dns(name);
        }
        builder
            .append_extension(
                names
                    .build(&builder.x509v3_context(Some(&issuer.certificate), None))
                    .expect("subject alternative names"),
            )
            .expect("the extension is appended");
    }

    builder
        .sign(&issuer.key, MessageDigest::sha256())
        .expect("the certificate is signed");

    Pair {
        certificate: builder.build(),
        key,
    }
}

/// A time this many days from now, forwards or backwards.
fn from(days: i64) -> Asn1Time {
    if days >= 0 {
        let days = u32::try_from(days).expect("a day count fits");
        Asn1Time::days_from_now(days).expect("a time")
    } else {
        let days = u32::try_from(-days).expect("a day count fits");
        let seconds = i64::from(days) * 86_400;
        Asn1Time::from_unix(now() - seconds).expect("a time")
    }
}

/// Seconds since the epoch, as the measurements read them.
fn now() -> i64 {
    i64::try_from(
        std::time::SystemTime::now()
            .duration_since(std::time::UNIX_EPOCH)
            .expect("the clock is past the epoch")
            .as_secs(),
    )
    .expect("the epoch fits")
}

/// Several certificates in one file, in the order given.
fn joined(certificates: &[&X509]) -> Vec<u8> {
    let mut bytes = Vec::new();
    for certificate in certificates {
        bytes.extend_from_slice(&certificate.to_pem().expect("a certificate writes out"));
    }
    bytes
}

/// A name as text, for a measurement that checks which issuer was named.
fn text_of(name: &X509NameRef) -> String {
    name.entries()
        .filter_map(|entry| {
            let value = entry.data().as_utf8().ok()?;
            Some(format!(
                "{}={value}",
                entry.object().nid().short_name().unwrap_or("?")
            ))
        })
        .collect::<Vec<String>>()
        .join(",")
}

/// The measurements that only need one working certificate.
fn signed() -> (Pair, Pair) {
    let ca = authority("ek-ek test CA");
    let server = leaf("www.example.org", &["www.example.org"], &ca, 0, 90);
    (ca, server)
}

#[test]
fn a_certificate_and_its_key_are_read() {
    let (ca, server) = signed();
    let chain = joined(&[&server.certificate, &ca.certificate]);

    let upload = inspect(&chain, &server.key_pem(), None, now()).expect("this pair is good");

    assert_eq!(upload.sni_names, vec!["www.example.org".to_owned()]);
    assert!(upload.warnings.is_empty(), "{:?}", upload.warnings);
    assert!(upload.validity.not_before_unix <= now());
    assert!(upload.validity.not_after_unix > now());
    // What is stored is what was parsed, so a file with anything around the
    // PEM blocks is stored in one shape.
    let stored = String::from_utf8(upload.chain.expose().to_vec()).expect("PEM is text");
    assert_eq!(stored.matches("BEGIN CERTIFICATE").count(), 2);
    assert!(
        String::from_utf8_lossy(upload.key.expose()).contains("BEGIN PRIVATE KEY"),
        "the key is stored unencrypted, because the store seals it"
    );
}

#[test]
fn a_key_that_belongs_to_another_certificate_is_refused() {
    let (ca, server) = signed();
    let other = leaf("other.example.org", &["other.example.org"], &ca, 0, 90);

    let refused = inspect(&server.chain_pem(), &other.key_pem(), None, now())
        .err().expect("the pair does not match");

    assert_eq!(refused.codes(), vec![ErrorCode::CertificateKeyMismatch]);
    assert_eq!(refused.as_slice()[0].path, "private_key");

    // The other side: its own key is accepted, so the rule is about the pair
    // and not about the key being unreadable.
    assert!(inspect(&server.chain_pem(), &server.key_pem(), None, now()).is_ok());
}

#[test]
fn a_broken_certificate_is_refused() {
    let (_, server) = signed();

    // A file with no PEM block in it, which is what uploading the wrong file
    // looks like.
    let refused = inspect(b"this is not a certificate", &server.key_pem(), None, now())
        .err().expect("it holds no certificate");
    assert_eq!(refused.codes(), vec![ErrorCode::CertificateChainEmpty]);

    // An empty file lands in the same place.
    let refused = inspect(b"", &server.key_pem(), None, now()).err().expect("it is empty");
    assert_eq!(refused.codes(), vec![ErrorCode::CertificateChainEmpty]);

    // A file whose PEM body has been cut in half. It opens as PEM and does
    // not read as a certificate, which is a different fault and a different
    // code, because a truncated upload is not a wrong file.
    let mut damaged = server.chain_pem();
    let middle = damaged.len() / 2;
    damaged.drain(middle..middle + 40);
    let refused = inspect(&damaged, &server.key_pem(), None, now()).err().expect("it is damaged");
    assert_eq!(refused.codes(), vec![ErrorCode::CertificateChainUnreadable]);

    // The other side: the same file undamaged goes in, so the rule is about
    // the damage and not about the shape of the file.
    assert!(inspect(&server.chain_pem(), &server.key_pem(), None, now()).is_ok());
}

#[test]
fn a_broken_key_is_refused() {
    let (_, server) = signed();

    let refused = inspect(&server.chain_pem(), b"not a key", None, now())
        .err().expect("the key is not readable");

    assert_eq!(refused.codes(), vec![ErrorCode::CertificateKeyUnreadable]);
    assert_eq!(refused.as_slice()[0].path, "private_key");
}

#[test]
fn both_halves_are_blamed_at_once() {
    let refused = inspect(b"not a certificate", b"not a key", None, 0)
        .err().expect("neither is readable");
    assert_eq!(
        refused.codes(),
        vec![
            ErrorCode::CertificateChainEmpty,
            ErrorCode::CertificateKeyUnreadable
        ]
    );
    assert_eq!(refused.as_slice()[0].path, "chain");
    assert_eq!(refused.as_slice()[1].path, "private_key");
    let shown = format!("{refused:?}");
    assert!(!shown.contains("not a certificate"));
    assert!(!shown.contains("not a key"));

    // A passphrase that is missing is told beside a broken chain too.
    let (_, server) = signed();
    let locked = server.key_pem_encrypted("correct horse");
    let refused = inspect(b"", &locked, None, now()).err().expect("neither opens");
    assert_eq!(
        refused.codes(),
        vec![
            ErrorCode::CertificateChainEmpty,
            ErrorCode::CertificateKeyPassphraseRequired
        ]
    );
}

#[test]
fn a_locked_key_is_held_against_the_certificate_too() {
    let (ca, server) = signed();
    let other = leaf("other.example.org", &["other.example.org"], &ca, 0, 90);
    let word = Some("correct horse");

    let locked = server.key_pem_encrypted("correct horse");
    assert!(inspect(&server.chain_pem(), &locked, word, now()).is_ok());

    let foreign = other.key_pem_encrypted("correct horse");
    let refused = inspect(&server.chain_pem(), &foreign, word, now())
        .err().expect("the pair does not match");
    assert_eq!(refused.codes(), vec![ErrorCode::CertificateKeyMismatch]);
}

#[test]
fn a_chain_that_stops_short_of_a_root_is_taken_with_a_warning() {
    let ca = authority("ek-ek test CA");
    let middle = intermediate("ek-ek test issuing CA", &ca);
    let server = leaf("www.example.org", &["www.example.org"], &middle, 0, 90);

    // Leaf and intermediate, with the root left out. This is the shape of the
    // mistake: the file looks complete and every client that does not already
    // hold the root refuses the handshake.
    let short = joined(&[&server.certificate, &middle.certificate]);
    let upload = inspect(&short, &server.key_pem(), None, now()).expect("it is still installable");

    assert_eq!(
        upload
            .warnings
            .iter()
            .map(|warning| warning.code)
            .collect::<Vec<WarningCode>>(),
        vec![WarningCode::CertificateChainIncomplete]
    );
    // The warning names the issuer that is missing, which is what an operator
    // has to go and find.
    assert_eq!(
        upload.warnings[0].parameters.get("issuer"),
        Some(&ParameterValue::Identifier(text_of(
            middle.certificate.issuer_name()
        )))
    );

    // The other side: the whole chain produces no warning at all.
    let whole = joined(&[&server.certificate, &middle.certificate, &ca.certificate]);
    let upload = inspect(&whole, &server.key_pem(), None, now()).expect("it is good");
    assert!(upload.warnings.is_empty(), "{:?}", upload.warnings);
}

#[test]
fn a_chain_whose_links_do_not_meet_is_reported_rather_than_taken_quietly() {
    let ca = authority("ek-ek test CA");
    let other = authority("somebody else's CA");
    let server = leaf("www.example.org", &["www.example.org"], &ca, 0, 90);

    // The second certificate did not issue the first. A file like this comes
    // from copying the wrong intermediate, and it fails the same way a short
    // chain does.
    let wrong = joined(&[&server.certificate, &other.certificate]);
    let upload = inspect(&wrong, &server.key_pem(), None, now()).expect("it is still installable");

    assert_eq!(
        upload.warnings.first().map(|warning| warning.code),
        Some(WarningCode::CertificateChainIncomplete)
    );
}

#[test]
fn a_self_signed_certificate_alone_is_a_complete_chain() {
    // The other side of the chain rule. A self-signed certificate is the
    // whole chain, so warning about it would train an operator to ignore the
    // warning that matters.
    let ca = authority("ek-ek test CA");

    let upload = inspect(&ca.chain_pem(), &ca.key_pem(), None, now()).expect("it is readable");

    assert!(upload.warnings.is_empty(), "{:?}", upload.warnings);
}

#[test]
fn every_name_the_certificate_carries_is_read() {
    let ca = authority("ek-ek test CA");
    let server = leaf(
        "www.example.org",
        &[
            "www.example.org",
            "api.example.org",
            "*.internal.example.org",
        ],
        &ca,
        0,
        90,
    );

    let upload = inspect(&server.chain_pem(), &server.key_pem(), None, now()).expect("it is good");

    assert_eq!(
        upload.sni_names,
        vec![
            "www.example.org".to_owned(),
            "api.example.org".to_owned(),
            "*.internal.example.org".to_owned(),
        ],
        "the common name comes first and is not repeated"
    );

    // The other side: a certificate with no subject alternative name still
    // gives up its common name, because certificates from a company's own CA
    // often carry nothing else.
    let old = leaf("legacy.example.org", &[], &ca, 0, 90);
    let upload = inspect(&old.chain_pem(), &old.key_pem(), None, now()).expect("it is good");
    assert_eq!(upload.sni_names, vec!["legacy.example.org".to_owned()]);
}

#[test]
fn an_expired_certificate_goes_in_with_a_warning() {
    let ca = authority("ek-ek test CA");
    // Valid from a year ago until last week.
    let old = leaf("old.example.org", &["old.example.org"], &ca, -365, -7);
    // With its issuer, so the only thing wrong with it is the date.
    let chain = joined(&[&old.certificate, &ca.certificate]);

    let upload = inspect(&chain, &old.key_pem(), None, now()).expect("it is installable");

    assert_eq!(
        upload
            .warnings
            .iter()
            .map(|warning| warning.code)
            .collect::<Vec<WarningCode>>(),
        vec![WarningCode::CertificateExpired]
    );
    assert!(upload.validity.not_after_unix < now());

    // The other side: a certificate that is still valid produces no such
    // warning, so the warning means something when it appears.
    let (_, server) = signed();
    let upload = inspect(&server.chain_pem(), &server.key_pem(), None, now()).expect("it is good");
    assert!(
        !upload
            .warnings
            .iter()
            .any(|warning| warning.code == WarningCode::CertificateExpired)
    );
}

#[test]
fn an_encrypted_key_asks_for_its_passphrase() {
    let (_, server) = signed();
    let locked = server.key_pem_encrypted("correct horse");

    // With none given, the answer says which one of the two things to do.
    let refused =
        inspect(&server.chain_pem(), &locked, None, now()).err().expect("it needs a passphrase");
    assert_eq!(
        refused.codes(),
        vec![ErrorCode::CertificateKeyPassphraseRequired]
    );
    assert_eq!(refused.as_slice()[0].path, "passphrase");

    // With the wrong one, a different answer, because the operator has to do
    // something different about it.
    let refused = inspect(&server.chain_pem(), &locked, Some("wrong horse"), now())
        .err().expect("the passphrase does not open it");
    assert_eq!(
        refused.codes(),
        vec![ErrorCode::CertificateKeyPassphraseWrong]
    );

    // And with the right one it goes in, stored with no passphrase at all.
    let upload = inspect(&server.chain_pem(), &locked, Some("correct horse"), now())
        .expect("the passphrase opens it");
    let stored = String::from_utf8_lossy(upload.key.expose()).into_owned();
    assert!(stored.contains("BEGIN PRIVATE KEY"), "{stored:?}");
    assert!(!stored.contains("ENCRYPTED"), "the passphrase is not kept");
}

#[test]
fn a_passphrase_for_a_key_that_needs_none_is_not_an_error() {
    // An operator who types their passphrase for the wrong file should get
    // their certificate installed rather than a lecture.
    let (_, server) = signed();

    let upload = inspect(
        &server.chain_pem(),
        &server.key_pem(),
        Some("not needed"),
        now(),
    )
    .expect("the key opens without it");

    assert_eq!(upload.sni_names, vec!["www.example.org".to_owned()]);
}

#[test]
fn an_empty_passphrase_counts_as_none() {
    // An interface that always sends the field would otherwise turn "no
    // passphrase" into "the passphrase is the empty string".
    let (_, server) = signed();
    let locked = server.key_pem_encrypted("correct horse");

    let refused = inspect(&server.chain_pem(), &locked, Some(""), now())
        .err().expect("it still needs a passphrase");

    assert_eq!(
        refused.codes(),
        vec![ErrorCode::CertificateKeyPassphraseRequired]
    );
}

#[test]
fn a_file_holding_more_certificates_than_a_chain_ever_does_is_refused() {
    let ca = authority("ek-ek test CA");
    let server = leaf("www.example.org", &["www.example.org"], &ca, 0, 90);

    let mut many: Vec<&X509> = vec![&server.certificate];
    let filler: Vec<Pair> = (0..MOST_CERTIFICATES)
        .map(|at| authority(&format!("filler {at}")))
        .collect();
    many.extend(filler.iter().map(|pair| &pair.certificate));

    let refused =
        inspect(&joined(&many), &server.key_pem(), None, now()).err().expect("that is not a chain");

    assert_eq!(refused.codes(), vec![ErrorCode::CertificateChainTooLong]);

    // The other side: a file at the limit is taken.
    let at_limit: Vec<&X509> = many
        .into_iter()
        .take(MOST_CERTIFICATES)
        .collect();
    assert!(inspect(&joined(&at_limit), &server.key_pem(), None, now()).is_ok());
}

#[test]
fn no_error_carries_the_material_it_was_given() {
    // Every message ends up in a log eventually.
    let (_, server) = signed();
    let key = server.key_pem();
    let refused = inspect(b"not a certificate", &key, None, now()).err().expect("it is not readable");

    let written = format!("{refused:?}");
    assert!(!written.contains("PRIVATE KEY"), "{written}");
    assert!(!written.contains("not a certificate"), "{written}");

    // And the upload itself keeps the key out of what is written about it.
    let upload = inspect(&server.chain_pem(), &key, None, now()).expect("it is good");
    let written = upload.shown();
    assert!(!written.contains("PRIVATE KEY"), "{written}");
    assert!(written.contains("redacted"), "{written}");
}

#[test]
fn the_certificate_identity_decides_where_the_material_is_filed() {
    let id = CertificateId::new("cert-web");

    assert_eq!(chain_id(&id).as_str(), "cert-web.chain");
    assert_eq!(key_id(&id).as_str(), "cert-web.key");
    assert_ne!(chain_id(&id), key_id(&id));
}

/// A configuration with nothing in it.
fn empty() -> Config {
    Config {
        certificates: Vec::new(),
    }
}

#[test]
fn uploading_a_replacement_leaves_nothing_of_the_one_before_it() {
    let ca = authority("ek-ek test CA");
    let first = leaf("www.example.org", &["www.example.org"], &ca, 0, 90);
    let second = leaf("www.example.org", &["www.example.org"], &ca, 0, 365);
    let id = CertificateId::new("cert-web");

    let one = inspect(&first.chain_pem(), &first.key_pem(), None, now()).expect("it is good");
    let state = install(
        &Snapshot::new(empty()),
        &id,
        CertificateSource::ManualUpload,
        one,
    );
    let held_first = state
        .secrets
        .get(key_id(&id).as_str())
        .expect("the first key")
        .clone();

    let two = inspect(&second.chain_pem(), &second.key_pem(), None, now()).expect("it is good");
    let state = install(&state, &id, CertificateSource::ManualUpload, two);

    assert_eq!(state.config.certificates.len(), 1, "one record, not two");
    assert_eq!(state.secrets.len(), 2, "two pieces of material, not four");
    assert!(
        state.secrets.get(key_id(&id).as_str()) != Some(&held_first),
        "the old key is still there"
    );
}

#[test]
fn removing_a_certificate_takes_its_material_with_it() {
    let ca = authority("ek-ek test CA");
    let server = leaf("www.example.org", &["www.example.org"], &ca, 0, 90);
    let id = CertificateId::new("cert-web");

    let upload = inspect(&server.chain_pem(), &server.key_pem(), None, now()).expect("it is good");
    let state = install(
        &Snapshot::new(empty()),
        &id,
        CertificateSource::ManualUpload,
        upload,
    );
    assert_eq!(state.secrets.len(), 2);

    let after = remove(&state, &id);

    assert!(after.config.certificates.is_empty());
    assert!(
        after.secrets.is_empty(),
        "a private key nothing references is a key kept for no reason: {:?}",
        after.secrets.keys()
    );

    // The other side: removing one certificate leaves another one alone.
    let other = CertificateId::new("cert-mail");
    let upload = inspect(&server.chain_pem(), &server.key_pem(), None, now()).expect("it is good");
    let two = install(&state, &other, CertificateSource::ManualUpload, upload);
    let after = remove(&two, &id);
    assert_eq!(after.config.certificates.len(), 1);
    assert_eq!(after.secrets.len(), 2);
    assert!(after.secrets.contains_key(key_id(&other).as_str()));
}

#[test]
fn the_record_says_where_the_certificate_came_from() {
    let ca = authority("ek-ek test CA");
    let server = leaf("www.example.org", &["www.example.org"], &ca, 0, 90);

    // Renewal reads this field: an uploaded certificate is never renewed, and
    // one obtained through ACME is. Filing both the same way would either
    // renew somebody's own certificate over the top or let an ACME one expire.
    for source in [
        CertificateSource::ManualUpload,
        CertificateSource::AcmeHttp01,
    ] {
        let id = CertificateId::new("cert-web");
        let upload =
            inspect(&server.chain_pem(), &server.key_pem(), None, now()).expect("it is good");
        let state = install(&Snapshot::new(empty()), &id, source.clone(), upload);
        assert_eq!(
            state.config.certificates[0].source, source,
            "the record does not say where the certificate came from"
        );
    }
}

#[test]
fn what_an_order_produced_survives_the_document_being_written_over_it() {
    // The document an operator writes cannot carry a validity window: only an
    // order produces one. Replacing the stored configuration with the document
    // without this would leave every certificate looking unobtained, and
    // renewal would order all of them on every run.
    let ca = authority("ek-ek test CA");
    let server = leaf("www.example.org", &["www.example.org"], &ca, 0, 90);
    let id = CertificateId::new("cert-web");
    let upload = inspect(&server.chain_pem(), &server.key_pem(), None, now()).expect("it is good");
    let stored = install(
        &Snapshot::new(empty()),
        &id,
        CertificateSource::AcmeHttp01,
        upload,
    );

    // What an operator has on disk: the same certificate, nothing obtained.
    let mut document = empty();
    document.certificates = vec![Certificate {
        id: id.clone(),
        sni_names: vec!["www.example.org".to_owned()],
        source: CertificateSource::AcmeHttp01,
        validity: None,
        chain: None,
        private_key: None,
    }];

    let merged = carry_obtained(&document, &stored.config);

    assert_eq!(
        merged.certificates[0].validity, stored.config.certificates[0].validity,
        "the window the order produced was thrown away"
    );
    assert_eq!(merged.certificates[0].chain, Some(chain_id(&id)));
    assert_eq!(merged.certificates[0].private_key, Some(key_id(&id)));
}

#[test]
fn the_document_still_decides_what_exists_and_how_it_is_obtained() {
    // The other side. Carrying everything forward would make the document
    // unable to change a certificate at all.
    let ca = authority("ek-ek test CA");
    let server = leaf("www.example.org", &["www.example.org"], &ca, 0, 90);
    let id = CertificateId::new("cert-web");
    let upload = inspect(&server.chain_pem(), &server.key_pem(), None, now()).expect("it is good");
    let stored = install(
        &Snapshot::new(empty()),
        &id,
        CertificateSource::AcmeHttp01,
        upload,
    );

    let mut document = empty();
    document.certificates = vec![Certificate {
        id: id.clone(),
        sni_names: vec!["posta.example.org".to_owned()],
        source: CertificateSource::ManualUpload,
        validity: None,
        chain: None,
        private_key: None,
    }];

    let merged = carry_obtained(&document, &stored.config);

    assert_eq!(
        merged.certificates[0].source,
        CertificateSource::ManualUpload
    );
    assert_eq!(merged.certificates[0].sni_names, vec!["posta.example.org"]);
}

#[test]
fn a_stored_certificate_under_another_name_is_not_carried_across() {
    // The match is by identity. Taking the first stored record whatever it is
    // would file one certificate's window against another one's name.
    let ca = authority("ek-ek test CA");
    let server = leaf("www.example.org", &["www.example.org"], &ca, 0, 90);
    let upload = inspect(&server.chain_pem(), &server.key_pem(), None, now()).expect("it is good");
    let stored = install(
        &Snapshot::new(empty()),
        &CertificateId::new("cert-other"),
        CertificateSource::AcmeHttp01,
        upload,
    );

    let mut document = empty();
    document.certificates = vec![Certificate {
        id: CertificateId::new("cert-web"),
        sni_names: vec!["www.example.org".to_owned()],
        source: CertificateSource::AcmeHttp01,
        validity: None,
        chain: None,
        private_key: None,
    }];

    let merged = carry_obtained(&document, &stored.config);

    assert_eq!(merged.certificates[0].validity, None);
    assert_eq!(merged.certificates[0].chain, None);
}

#[test]
fn a_certificate_the_store_never_held_is_left_as_the_document_wrote_it() {
    let mut document = empty();
    document.certificates = vec![Certificate {
        id: CertificateId::new("cert-new"),
        sni_names: vec!["yeni.example.org".to_owned()],
        source: CertificateSource::AcmeHttp01,
        validity: None,
        chain: None,
        private_key: None,
    }];

    let merged = carry_obtained(&document, &empty());

    assert_eq!(merged.certificates[0].validity, None);
    assert_eq!(merged.certificates[0].chain, None);
}
