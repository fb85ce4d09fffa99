//! Reading what an operator uploaded, and refusing what cannot be served.
//!
//! A wrong upload breaks TLS silently: the handshake fails for every client
//! and nothing in the configuration looks wrong. So the material is read
//! before it is stored, and every fault is named with a stable code, all of
//! them at once. No fault carries the material it was given.

use vstd::prelude::*;
use vstd::string::*;
use vstd::utf8::encode_utf8;

use openssl::asn1::Asn1Time;
use openssl::error::ErrorStack;
use openssl::nid::Nid;
use openssl::pkey::PKey;
use openssl::x509::X509;

use crate::bytes::{push_all, same_bytes};
use crate::text::same;
use crate::tls::config::{join, joined, texts, CertificateValidity};
use crate::tls::crypto::{open_key, opened_key, MOST_BYTES};
use crate::tls::json::shown;
use crate::tls::record::Secret;
use crate::tls::validation::{
    errors_said, parameters_seen, warnings_said, ErrorCode, ErrorView, ParameterValue,
    ParameterView, Parameters, ValidationError, ValidationErrors, ValidationWarning, WarningCode,
    WarningView,
};

verus! {

/// How many certificates a chain may hold. One longer than this is a file
/// that was concatenated by accident.
pub const MOST_CERTIFICATES: usize = 16;

/// What an upload turned out to be.
///
/// There is one only when the material can actually be served. Anything that
/// cannot is an error, and anything an operator should know about but that
/// still works is a warning.
pub struct Upload {
    /// Names the handshake's SNI is matched against: the subject's common
    /// name first, then the subject alternative names.
    pub sni_names: Vec<String>,
    /// The window the leaf certificate is usable in.
    pub validity: CertificateValidity,
    /// The chain as it will be stored, leaf first, in PEM.
    pub chain: Secret,
    /// The private key as it will be stored, in PEM and with no passphrase.
    pub key: Secret,
    /// Worth telling the operator, but not a reason to refuse.
    pub warnings: Vec<ValidationWarning>,
}

/// The certificates a file holds, each in DER, in order.
pub uninterp spec fn certificates_of(pem: Seq<u8>) -> Option<Seq<Seq<u8>>>;

/// A certificate in PEM.
pub uninterp spec fn certificate_pem_of(der: Seq<u8>) -> Option<Seq<u8>>;

/// The common names in the subject of a certificate. One that is not text is
/// none.
pub uninterp spec fn common_names_of(der: Seq<u8>) -> Option<Seq<Option<Seq<char>>>>;

/// The alternative names of a certificate. One that is not a DNS name is
/// none.
pub uninterp spec fn alternatives_of(der: Seq<u8>) -> Option<Seq<Option<Seq<char>>>>;

/// The entries of a certificate's subject: the short name of each attribute
/// and its text.
pub uninterp spec fn subject_of(der: Seq<u8>) -> Option<
    Seq<(Option<Seq<char>>, Option<Seq<char>>)>,
>;

/// The entries of a certificate's issuer: the short name of each attribute
/// and its text.
pub uninterp spec fn issuer_of(der: Seq<u8>) -> Option<Seq<(Option<Seq<char>>, Option<Seq<char>>)>>;

/// How far the start of a certificate's window is from the epoch, in days and
/// seconds.
pub uninterp spec fn not_before_of(der: Seq<u8>) -> Option<(i32, i32)>;

/// How far the end of a certificate's window is from the epoch, in days and
/// seconds.
pub uninterp spec fn not_after_of(der: Seq<u8>) -> Option<(i32, i32)>;

/// Whether the public key of a certificate is that of the private key a file
/// holds without a passphrase.
pub uninterp spec fn belongs_to(der: Seq<u8>, pem: Seq<u8>) -> bool;

/// Whether the public key of a certificate is that of the private key a file
/// holds behind a passphrase.
pub uninterp spec fn belongs_locked_to(der: Seq<u8>, pem: Seq<u8>, word: Seq<u8>) -> bool;

/// The private key a passphrase opens, when it opens one, as PKCS#8 PEM, when
/// it can be written so.
pub uninterp spec fn unlocked_key(pem: Seq<u8>, word: Seq<u8>) -> Option<Option<Seq<u8>>>;

/// What a list of optional texts is.
pub open spec fn all_shown(list: Seq<Option<String>>) -> Seq<Option<Seq<char>>> {
    Seq::new(list.len(), |i: int| shown(list[i]))
}

/// What a list of entries is.
pub open spec fn entries_shown(list: Seq<(Option<String>, Option<String>)>) -> Seq<
    (Option<Seq<char>>, Option<Seq<char>>),
> {
    Seq::new(list.len(), |i: int| (shown(list[i].0), shown(list[i].1)))
}

/// What a list of byte strings is.
pub open spec fn bytes_shown(list: Seq<Vec<u8>>) -> Seq<Seq<u8>> {
    Seq::new(list.len(), |i: int| list[i]@)
}

/// `X509::stack_from_pem` reads the certificates of a file in order, and
/// `to_der` writes each. It fails on a file one of whose certificates cannot
/// be read; a file with none in it is an empty list. A longer file than
/// OpenSSL counts panics.
#[verifier::external_body]
fn certificates(pem: &[u8]) -> (r: Result<Vec<Vec<u8>>, ErrorStack>)
    requires
        pem@.len() <= MOST_BYTES,
    ensures
        match r {
            Ok(list) => certificates_of(pem@) == Some(bytes_shown(list@)),
            Err(_) => certificates_of(pem@) is None,
        },
{
    X509::stack_from_pem(pem)?.iter().map(|certificate| certificate.to_der()).collect()
}

/// `X509::to_pem` writes a certificate as PEM.
#[verifier::external_body]
fn certificate_pem(der: &[u8]) -> (r: Result<Vec<u8>, ErrorStack>)
    ensures
        match r {
            Ok(pem) => certificate_pem_of(der@) == Some(pem@),
            Err(_) => certificate_pem_of(der@) is None,
        },
{
    X509::from_der(der)?.to_pem()
}

/// `X509NameRef::entries_by_nid` gives the common names of a subject in
/// order, and `as_utf8` the text of each that has one.
#[verifier::external_body]
#[allow(deprecated)]
fn common_names(der: &[u8]) -> (r: Result<Vec<Option<String>>, ErrorStack>)
    ensures
        match r {
            Ok(list) => common_names_of(der@) == Some(all_shown(list@)),
            Err(_) => common_names_of(der@) is None,
        },
{
    let leaf = X509::from_der(der)?;
    let entries = leaf.subject_name().entries_by_nid(Nid::COMMONNAME);
    Ok(entries.map(|entry| entry.data().as_utf8().ok().map(|text| text.to_string())).collect())
}

/// `X509Ref::subject_alt_names` gives the alternative names of a certificate
/// in order, when it has any, and `dnsname` the text of each that is a DNS
/// name.
#[verifier::external_body]
fn alternatives(der: &[u8]) -> (r: Option<Vec<Option<String>>>)
    ensures
        match r {
            Some(list) => alternatives_of(der@) == Some(all_shown(list@)),
            None => alternatives_of(der@) is None,
        },
{
    let names = X509::from_der(der).ok()?.subject_alt_names()?;
    Some(names.iter().map(|name| name.dnsname().map(str::to_owned)).collect())
}

/// `X509NameRef::entries` gives the entries of a subject in order, `short_name`
/// the name of the attribute of each, and `as_utf8` its text.
#[verifier::external_body]
#[allow(deprecated)]
fn subject(der: &[u8]) -> (r: Result<Vec<(Option<String>, Option<String>)>, ErrorStack>)
    ensures
        match r {
            Ok(list) => subject_of(der@) == Some(entries_shown(list@)),
            Err(_) => subject_of(der@) is None,
        },
{
    let held = X509::from_der(der)?;
    Ok(held.subject_name().entries().map(|entry| (
        entry.object().nid().short_name().ok().map(str::to_owned),
        entry.data().as_utf8().ok().map(|text| text.to_string()),
    )).collect())
}

/// `X509NameRef::entries` gives the entries of an issuer in order, `short_name`
/// the name of the attribute of each, and `as_utf8` its text.
#[verifier::external_body]
#[allow(deprecated)]
fn issuer(der: &[u8]) -> (r: Result<Vec<(Option<String>, Option<String>)>, ErrorStack>)
    ensures
        match r {
            Ok(list) => issuer_of(der@) == Some(entries_shown(list@)),
            Err(_) => issuer_of(der@) is None,
        },
{
    let held = X509::from_der(der)?;
    Ok(held.issuer_name().entries().map(|entry| (
        entry.object().nid().short_name().ok().map(str::to_owned),
        entry.data().as_utf8().ok().map(|text| text.to_string()),
    )).collect())
}

/// `Asn1TimeRef::diff` gives how far the start of a certificate's window is
/// from the epoch.
#[verifier::external_body]
fn not_before(der: &[u8]) -> (r: Result<(i32, i32), ErrorStack>)
    ensures
        match r {
            Ok(far) => not_before_of(der@) == Some(far),
            Err(_) => not_before_of(der@) is None,
        },
{
    let far = Asn1Time::from_unix(0)?.diff(X509::from_der(der)?.not_before())?;
    Ok((far.days, far.secs))
}

/// `Asn1TimeRef::diff` gives how far the end of a certificate's window is
/// from the epoch.
#[verifier::external_body]
fn not_after(der: &[u8]) -> (r: Result<(i32, i32), ErrorStack>)
    ensures
        match r {
            Ok(far) => not_after_of(der@) == Some(far),
            Err(_) => not_after_of(der@) is None,
        },
{
    let far = Asn1Time::from_unix(0)?.diff(X509::from_der(der)?.not_after())?;
    Ok((far.days, far.secs))
}

/// `PKeyRef::public_eq` says whether the public key of a certificate is that
/// of the private key a file holds without a passphrase. A longer file than
/// OpenSSL counts panics.
#[verifier::external_body]
fn belongs(der: &[u8], pem: &[u8]) -> (r: bool)
    requires
        pem@.len() <= MOST_BYTES,
    ensures
        r == belongs_to(der@, pem@),
{
    let key = PKey::private_key_from_pem_callback(pem, |_| Ok(0));
    let leaf = X509::from_der(der).and_then(|leaf| leaf.public_key());
    leaf.is_ok_and(|public| key.is_ok_and(|key| public.public_eq(&key)))
}

/// `PKeyRef::public_eq` says whether the public key of a certificate is that
/// of the private key a file holds behind a passphrase. Opening it panics on
/// a passphrase with a zero byte in it, and on a longer file than OpenSSL
/// counts.
#[verifier::external_body]
fn belongs_locked(der: &[u8], pem: &[u8], word: &[u8]) -> (r: bool)
    requires
        pem@.len() <= MOST_BYTES,
        !word@.contains(0u8),
    ensures
        r == belongs_locked_to(der@, pem@, word@),
{
    let key = PKey::private_key_from_pem_passphrase(pem, word);
    let leaf = X509::from_der(der).and_then(|leaf| leaf.public_key());
    leaf.is_ok_and(|public| key.is_ok_and(|key| public.public_eq(&key)))
}

/// `PKey::private_key_from_pem_passphrase` opens a private key with a
/// passphrase, and `private_key_to_pem_pkcs8` writes it out without one. The
/// two can fail apart: the outer fault is of opening, the inner one of
/// writing. It panics on a passphrase with a zero byte in it, and on a longer
/// file than OpenSSL counts.
#[verifier::external_body]
fn unlock(pem: &[u8], word: &[u8]) -> (r: Result<Result<Vec<u8>, ErrorStack>, ErrorStack>)
    requires
        pem@.len() <= MOST_BYTES,
        !word@.contains(0u8),
    ensures
        match r {
            Ok(Ok(key)) => unlocked_key(pem@, word@) == Some(Some(key@)),
            Ok(Err(_)) => unlocked_key(pem@, word@) == Some(None::<Seq<u8>>),
            Err(_) => unlocked_key(pem@, word@) is None,
        },
{
    let opened = PKey::private_key_from_pem_passphrase(pem, word);
    opened.map(|key| key.private_key_to_pem_pkcs8())
}

/// Whether one run of bytes stands inside another.
pub open spec fn holds(bytes: Seq<u8>, wanted: Seq<u8>) -> bool {
    exists|at: int|
        0 <= at && at + wanted.len() <= bytes.len() && #[trigger] bytes.subrange(
            at,
            at + wanted.len(),
        ) == wanted
}

fn find(bytes: &[u8], wanted: &[u8]) -> (r: bool)
    ensures
        r == holds(bytes@, wanted@),
{
    let mut at: usize = 0;
    while bytes.len() - at >= wanted.len()
        invariant
            at <= bytes.len(),
            forall|i: int|
                0 <= i < at && i + wanted@.len() <= bytes@.len() ==> #[trigger] bytes@.subrange(
                    i,
                    i + wanted@.len(),
                ) != wanted@,
        decreases bytes.len() - at,
    {
        let window = vstd::slice::slice_subrange(bytes, at, at + wanted.len());
        if same_bytes(window, wanted) {
            return true;
        }
        if at == bytes.len() {
            return false;
        }
        at += 1;
    }
    false
}

/// Whether a key file says it is encrypted: with the words of PKCS#8, or with
/// the older PEM header.
///
/// Read from the file rather than from the failure, because OpenSSL reports a
/// missing passphrase and a broken file the same way.
pub open spec fn says_encrypted(pem: Seq<u8>) -> bool {
    holds(pem, encode_utf8("BEGIN ENCRYPTED PRIVATE KEY"@)) || holds(
        pem,
        encode_utf8("Proc-Type: 4,ENCRYPTED"@),
    )
}

/// Whether a key file says it is encrypted.
pub fn encrypted(pem: &[u8]) -> (r: bool)
    ensures
        r == says_encrypted(pem@),
{
    find(pem, "BEGIN ENCRYPTED PRIVATE KEY".as_bytes()) || find(
        pem,
        "Proc-Type: 4,ENCRYPTED".as_bytes(),
    )
}

/// A key file that opened.
pub struct KeyView {
    /// The passphrase it was opened with, when it was.
    pub word: Option<Seq<u8>>,
    /// The key written out, when it can be.
    pub written: Option<Seq<u8>>,
}

/// What reading a key comes to, out of what opening it with the passphrase
/// and without one gave.
///
/// The two passphrase faults are told apart, because they need different
/// things from the operator. A passphrase for a key that needs none is no
/// fault.
pub open spec fn key_outcome(
    word: Option<Seq<u8>>,
    with_word: Option<Option<Seq<u8>>>,
    plain: Option<Option<Seq<u8>>>,
    encrypted: bool,
) -> Result<KeyView, ErrorView> {
    match (word, with_word, plain) {
        (Some(_), Some(written), _) => Ok(KeyView { word, written }),
        (_, _, Some(written)) => Ok(KeyView { word: None, written }),
        _ => Err(
            if !encrypted {
                ErrorView::plain(ErrorCode::CertificateKeyUnreadable, "private_key"@)
            } else if word is Some {
                ErrorView::plain(ErrorCode::CertificateKeyPassphraseWrong, "passphrase"@)
            } else {
                ErrorView::plain(ErrorCode::CertificateKeyPassphraseRequired, "passphrase"@)
            },
        ),
    }
}

/// A passphrase that counts: an empty one is the same as none.
pub open spec fn word_of(passphrase: Option<&str>) -> Option<Seq<u8>> {
    match passphrase {
        Some(word) if word@.len() > 0 => Some(encode_utf8(word@)),
        _ => None,
    }
}

/// What reading a key file with a passphrase comes to.
pub open spec fn key_in(pem: Seq<u8>, word: Option<Seq<u8>>) -> Result<KeyView, ErrorView> {
    key_outcome(
        word,
        match word {
            Some(word) => unlocked_key(pem, word),
            None => None,
        },
        opened_key(pem),
        says_encrypted(pem),
    )
}

/// A key file that opened, and whether it was opened with the passphrase.
struct Opened {
    locked: bool,
    written: Option<Vec<u8>>,
}

impl Opened {
    spec fn is(self, key: KeyView) -> bool {
        &&& self.locked == (key.word is Some)
        &&& match self.written {
            Some(pem) => key.written == Some(pem@),
            None => key.written is None,
        }
    }
}

/// Reads the private key, with the passphrase first and then without.
fn read_key(pem: &[u8], word: Option<&str>) -> (r: Result<Opened, ValidationError>)
    requires
        pem@.len() <= MOST_BYTES,
        word matches Some(word) ==> word@.len() > 0 && !encode_utf8(word@).contains(0u8),
    ensures
        match r {
            Ok(key) => key_in(pem@, word_of(word)) matches Ok(held) && key.is(held),
            Err(error) => key_in(pem@, word_of(word)) == Err::<KeyView, ErrorView>(error@),
        },
{
    if let Some(word) = word {
        match unlock(pem, word.as_bytes()) {
            Ok(Ok(key)) => {
                return Ok(Opened { locked: true, written: Some(key) });
            },
            Ok(Err(_)) => {
                return Ok(Opened { locked: true, written: None });
            },
            Err(_) => {},
        }
    }
    match open_key(pem) {
        Ok(Ok(key)) => {
            return Ok(Opened { locked: false, written: Some(key) });
        },
        Ok(Err(_)) => {
            return Ok(Opened { locked: false, written: None });
        },
        Err(_) => {},
    }
    Err(
        if !encrypted(pem) {
            ValidationError::plain(ErrorCode::CertificateKeyUnreadable, "private_key")
        } else if word.is_some() {
            ValidationError::plain(ErrorCode::CertificateKeyPassphraseWrong, "passphrase")
        } else {
            ValidationError::plain(ErrorCode::CertificateKeyPassphraseRequired, "passphrase")
        },
    )
}

/// What is said about a file with too many certificates in it.
pub open spec fn too_long(count: int) -> ErrorView {
    ErrorView {
        code: ErrorCode::CertificateChainTooLong,
        path: "chain"@,
        parameters: seq![
            (
                "certificate_count"@,
                ParameterView::Number(
                    if count > i64::MAX {
                        i64::MAX
                    } else {
                        count as i64
                    },
                ),
            ),
            ("limit"@, ParameterView::Number(MOST_CERTIFICATES as i64)),
        ],
    }
}

/// What reading a chain comes to, out of the certificates a file holds.
pub open spec fn chain_outcome(read: Option<Seq<Seq<u8>>>) -> Result<Seq<Seq<u8>>, ErrorView> {
    match read {
        None => Err(ErrorView::plain(ErrorCode::CertificateChainUnreadable, "chain"@)),
        Some(list) => if list.len() == 0 {
            Err(ErrorView::plain(ErrorCode::CertificateChainEmpty, "chain"@))
        } else if list.len() > MOST_CERTIFICATES {
            Err(too_long(list.len() as int))
        } else {
            Ok(list)
        },
    }
}

/// Reads the chain, leaf first.
fn read_chain(pem: &[u8]) -> (r: Result<Vec<Vec<u8>>, ValidationError>)
    requires
        pem@.len() <= MOST_BYTES,
    ensures
        match r {
            Ok(list) => chain_outcome(certificates_of(pem@)) == Ok::<Seq<Seq<u8>>, ErrorView>(
                bytes_shown(list@),
            ),
            Err(error) => chain_outcome(certificates_of(pem@)) == Err::<Seq<Seq<u8>>, ErrorView>(
                error@,
            ),
        },
{
    let list = match certificates(pem) {
        Ok(list) => list,
        Err(_) => {
            return Err(ValidationError::plain(ErrorCode::CertificateChainUnreadable, "chain"));
        },
    };
    assert(bytes_shown(list@).len() == list@.len());
    if list.len() == 0 {
        return Err(ValidationError::plain(ErrorCode::CertificateChainEmpty, "chain"));
    }
    if list.len() > MOST_CERTIFICATES {
        let count: i64 = if list.len() as u128 > i64::MAX as u128 {
            i64::MAX
        } else {
            list.len() as i64
        };
        let pairs: Vec<(String, ParameterValue)> = vec![
            ("certificate_count".to_owned(), ParameterValue::Number(count)),
            ("limit".to_owned(), ParameterValue::Number(MOST_CERTIFICATES as i64)),
        ];
        let error = ValidationError {
            code: ErrorCode::CertificateChainTooLong,
            path: "chain".to_owned(),
            parameters: Parameters { pairs },
        };
        assert(error@.parameters =~= too_long(list@.len() as int).parameters);
        return Err(error);
    }
    Ok(list)
}

/// The names among what was found, without the empty ones and each only
/// once.
pub open spec fn gathered(found: Seq<Option<Seq<char>>>) -> Seq<Seq<char>>
    decreases found.len(),
{
    if found.len() == 0 {
        seq![]
    } else {
        let front = gathered(found.drop_last());
        match found.last() {
            Some(name) => if name.len() == 0 || front.contains(name) {
                front
            } else {
                front.push(name)
            },
            None => front,
        }
    }
}

/// The names a handshake is matched against, out of what a certificate
/// carries: the common names first, then the alternative ones.
pub fn names(found: &Vec<Option<String>>) -> (r: Vec<String>)
    ensures
        texts(r@) == gathered(all_shown(found@)),
{
    let ghost all = all_shown(found@);
    let mut kept: Vec<String> = Vec::new();
    let mut at: usize = 0;
    assert(texts(kept@) =~= gathered(all.take(0)));
    while at < found.len()
        invariant
            at <= found.len(),
            all == all_shown(found@),
            texts(kept@) == gathered(all.take(at as int)),
        decreases found.len() - at,
    {
        let ghost before = texts(kept@);
        proof {
            assert(all.take(at + 1).drop_last() =~= all.take(at as int));
            assert(all.take(at + 1).last() == shown(found@[at as int]));
        }
        if let Some(name) = &found[at] {
            if !name.as_str().is_empty() && !among(&kept, name.as_str()) {
                kept.push(name.clone());
                assert(texts(kept@) =~= before.push(name@));
            }
        }
        at += 1;
    }
    assert(all.take(all.len() as int) =~= all);
    kept
}

fn among(list: &Vec<String>, wanted: &str) -> (r: bool)
    ensures
        r == texts(list@).contains(wanted@),
{
    let mut at: usize = 0;
    while at < list.len()
        invariant
            at <= list.len(),
            forall|i: int| 0 <= i < at ==> #[trigger] texts(list@)[i] != wanted@,
        decreases list.len() - at,
    {
        if same(list[at].as_str(), wanted) {
            assert(texts(list@)[at as int] == wanted@);
            return true;
        }
        at += 1;
    }
    false
}

/// How one entry of a name is written.
pub open spec fn entry_text(short: Option<Seq<char>>, value: Seq<char>) -> Seq<char> {
    (match short {
        Some(short) => short,
        None => "?"@,
    }) + "="@ + value
}

/// The entries of a name that have a text, as they are written.
pub open spec fn written_entries(entries: Seq<(Option<Seq<char>>, Option<Seq<char>>)>) -> Seq<
    Seq<char>,
>
    decreases entries.len(),
{
    if entries.len() == 0 {
        seq![]
    } else {
        let front = written_entries(entries.drop_last());
        match entries.last().1 {
            Some(value) => front.push(entry_text(entries.last().0, value)),
            None => front,
        }
    }
}

/// A name as one comparable text.
pub open spec fn name_text(entries: Seq<(Option<Seq<char>>, Option<Seq<char>>)>) -> Seq<char> {
    joined(written_entries(entries), ","@)
}

/// A name as one comparable text.
pub fn text_of(entries: &Vec<(Option<String>, Option<String>)>) -> (r: String)
    ensures
        r@ == name_text(entries_shown(entries@)),
{
    let ghost all = entries_shown(entries@);
    let mut list: Vec<String> = Vec::new();
    let mut at: usize = 0;
    assert(texts(list@) =~= written_entries(all.take(0)));
    while at < entries.len()
        invariant
            at <= entries.len(),
            all == entries_shown(entries@),
            texts(list@) == written_entries(all.take(at as int)),
        decreases entries.len() - at,
    {
        let ghost before = texts(list@);
        proof {
            assert(all.take(at + 1).drop_last() =~= all.take(at as int));
            assert(all.take(at + 1).last() == all[at as int]);
        }
        if let Some(value) = &entries[at].1 {
            let mut one = match &entries[at].0 {
                Some(short) => short.clone(),
                None => "?".to_owned(),
            };
            one.append("=");
            one.append(value.as_str());
            assert(one@ == entry_text(all[at as int].0, value@));
            list.push(one);
            assert(texts(list@) =~= before.push(one@));
        }
        at += 1;
    }
    assert(all.take(all.len() as int) =~= all);
    join(list.as_slice(), ",")
}

/// Who issued a certificate, and whom it is about.
pub struct Link {
    pub issuer: String,
    pub subject: String,
}

/// Who issued a certificate, and whom it is about, apart from how it is held.
pub struct LinkView {
    pub issuer: Seq<char>,
    pub subject: Seq<char>,
}

impl View for Link {
    type V = LinkView;

    open spec fn view(&self) -> LinkView {
        LinkView { issuer: self.issuer@, subject: self.subject@ }
    }
}

/// What a list of links is.
pub open spec fn links_seen(links: Seq<Link>) -> Seq<LinkView> {
    Seq::new(links.len(), |i: int| links[i]@)
}

/// The issuer a chain stops at from one place on, when it stops short of a
/// root.
///
/// Each certificate's issuer has to be the next one's subject, and the last
/// one has to be its own issuer.
pub open spec fn missing_from(links: Seq<LinkView>, at: int) -> Option<Seq<char>>
    decreases links.len() - at,
{
    if at >= links.len() {
        None
    } else if at + 1 == links.len() {
        if links[at].issuer == links[at].subject {
            None
        } else {
            Some(links[at].issuer)
        }
    } else if links[at].issuer != links[at + 1].subject {
        Some(links[at].issuer)
    } else {
        missing_from(links, at + 1)
    }
}

/// The issuer the chain stops at, when it stops short of a root.
pub fn incomplete(links: &Vec<Link>) -> (r: Option<String>)
    ensures
        shown(r) == missing_from(links_seen(links@), 0),
{
    let ghost all = links_seen(links@);
    let mut at: usize = 0;
    while at < links.len()
        invariant
            at <= links.len(),
            all == links_seen(links@),
            missing_from(all, at as int) == missing_from(all, 0),
        decreases links.len() - at,
    {
        let last = at + 1 == links.len();
        let above = if last {
            &links[at]
        } else {
            &links[at + 1]
        };
        assert(all[at as int] == links@[at as int]@);
        if !same(links[at].issuer.as_str(), above.subject.as_str()) {
            return Some(links[at].issuer.clone());
        }
        at += 1;
    }
    None
}

/// A chain is complete exactly when every certificate was issued by the next
/// and the last one by itself.
pub proof fn lemma_a_complete_chain_ends_in_a_root(links: Seq<LinkView>, at: int)
    requires
        0 <= at < links.len(),
    ensures
        missing_from(links, at) is None <==> (forall|i: int|
            at <= i < links.len() - 1 ==> (#[trigger] links[i]).issuer == links[i + 1].subject)
            && links.last().issuer == links.last().subject,
    decreases links.len() - at,
{
    if at + 1 < links.len() {
        lemma_a_complete_chain_ends_in_a_root(links, at + 1);
        if missing_from(links, at) is None {
            assert forall|i: int| at <= i < links.len() - 1 implies (#[trigger] links[i]).issuer
                == links[i + 1].subject by {}
        }
        if forall|i: int| at <= i < links.len() - 1 ==> (#[trigger] links[i]).issuer == links[i
            + 1].subject {
            assert(links[at].issuer == links[at + 1].subject);
        }
    }
}

/// No name is gathered twice, and none is empty.
pub proof fn lemma_gathered_names_differ(found: Seq<Option<Seq<char>>>)
    ensures
        gathered(found).no_duplicates(),
        forall|i: int| 0 <= i < gathered(found).len() ==> (#[trigger] gathered(found)[i]).len() > 0,
        forall|name: Seq<char>| #[trigger]
            gathered(found).contains(name) <==> name.len() > 0 && found.contains(Some(name)),
    decreases found.len(),
{
    if found.len() > 0 {
        let front = found.drop_last();
        lemma_gathered_names_differ(front);
        let before = gathered(front);
        let after = gathered(found);
        assert forall|name: Seq<char>| #[trigger]
            after.contains(name) <==> name.len() > 0 && found.contains(Some(name)) by {
            if after.contains(name) {
                let i = choose|i: int| 0 <= i < after.len() && after[i] == name;
                if i < before.len() {
                    assert(before[i] == name);
                    assert(before.contains(name));
                    let j = choose|j: int| 0 <= j < front.len() && front[j] == Some(name);
                    assert(found[j] == Some(name));
                } else {
                    assert(found[found.len() - 1] == Some(name));
                }
            }
            if name.len() > 0 && found.contains(Some(name)) {
                let j = choose|j: int| 0 <= j < found.len() && found[j] == Some(name);
                if j < front.len() {
                    assert(front[j] == Some(name));
                    assert(front.contains(Some(name)));
                    assert(before.contains(name));
                }
                if before.contains(name) {
                    let i = choose|i: int| 0 <= i < before.len() && before[i] == name;
                    assert(after[i] == name);
                } else {
                    assert(after[before.len() as int] == name);
                }
            }
        }
    }
}

/// A distance from the epoch in seconds.
pub open spec fn seconds(far: (i32, i32)) -> i64 {
    (far.0 * 86_400 + far.1) as i64
}

fn unix(far: (i32, i32)) -> (r: i64)
    ensures
        r == seconds(far),
{
    far.0 as i64 * 86_400 + far.1 as i64
}

/// Everything a chain and its key say about themselves.
pub struct Inspected {
    /// Whether the key belongs to the leaf.
    pub belongs: bool,
    /// The window of the leaf, when it can be read.
    pub window: Option<CertificateValidity>,
    /// What the leaf carries as names.
    pub found: Vec<Option<String>>,
    /// Who issued whom, leaf first.
    pub links: Vec<Link>,
    /// The chain written back out, when it can be.
    pub chain_pem: Option<Vec<u8>>,
    /// The key written back out, when it can be.
    pub key_pem: Option<Vec<u8>>,
}

/// Everything a chain and its key say, apart from how it is held.
pub struct InspectedView {
    pub belongs: bool,
    pub window: Option<CertificateValidity>,
    pub found: Seq<Option<Seq<char>>>,
    pub links: Seq<LinkView>,
    pub chain_pem: Option<Seq<u8>>,
    pub key_pem: Option<Seq<u8>>,
}

impl View for Inspected {
    type V = InspectedView;

    open spec fn view(&self) -> InspectedView {
        InspectedView {
            belongs: self.belongs,
            window: self.window,
            found: all_shown(self.found@),
            links: links_seen(self.links@),
            chain_pem: match self.chain_pem {
                Some(pem) => Some(pem@),
                None => None,
            },
            key_pem: match self.key_pem {
                Some(pem) => Some(pem@),
                None => None,
            },
        }
    }
}

/// What is worth telling about a window and a chain.
pub open spec fn warned(
    window: CertificateValidity,
    links: Seq<LinkView>,
    now_unix: i64,
) -> Seq<WarningView> {
    let expired = if window.not_after_unix <= now_unix {
        seq![
            WarningView {
                code: WarningCode::CertificateExpired,
                path: "chain"@,
                parameters: seq![
                    ("not_after_unix"@, ParameterView::Number(window.not_after_unix)),
                ],
            },
        ]
    } else {
        seq![]
    };
    match missing_from(links, 0) {
        Some(issuer) => expired.push(
            WarningView {
                code: WarningCode::CertificateChainIncomplete,
                path: "chain"@,
                parameters: seq![("issuer"@, ParameterView::Identifier(issuer))],
            },
        ),
        None => expired,
    }
}

/// One fault when there is one.
pub open spec fn fault(there: bool, code: ErrorCode, field: Seq<char>) -> Seq<ErrorView> {
    if there {
        seq![ErrorView::plain(code, field)]
    } else {
        seq![]
    }
}

/// Everything a chain and a key that were both read are refused for: a key
/// that belongs to another certificate, a window that cannot be read, a chain
/// that cannot be written out and a key that cannot.
pub open spec fn faults(inspected: InspectedView) -> Seq<ErrorView> {
    fault(!inspected.belongs, ErrorCode::CertificateKeyMismatch, "private_key"@) + fault(
        inspected.window is None,
        ErrorCode::CertificateChainUnreadable,
        "chain"@,
    ) + fault(inspected.chain_pem is None, ErrorCode::CertificateChainUnreadable, "chain"@) + fault(
        inspected.key_pem is None,
        ErrorCode::CertificateKeyUnreadable,
        "private_key"@,
    )
}

impl Upload {
    /// Whether this is what inspected material turned out to be.
    pub open spec fn is(self, inspected: InspectedView, now_unix: i64) -> bool {
        &&& texts(self.sni_names@) == gathered(inspected.found)
        &&& Some(self.validity) == inspected.window
        &&& Some(self.chain.kept()) == inspected.chain_pem
        &&& Some(self.key.kept()) == inspected.key_pem
        &&& warnings_said(self.warnings@) == warned(self.validity, inspected.links, now_unix)
    }

    /// What may be written about an upload: what was read, and that the
    /// material is redacted.
    pub fn shown(&self) -> (r: String)
        ensures
            r@ == "Upload { sni_names: "@ + joined(texts(self.sni_names@), ", "@)
                + ", chain: [redacted], key: [redacted] }"@,
    {
        let mut out = "Upload { sni_names: ".to_owned();
        out.append(join(self.sni_names.as_slice(), ", ").as_str());
        out.append(", chain: [redacted], key: [redacted] }");
        out
    }
}

fn warn(code: WarningCode, name: &str, value: ParameterValue) -> (r: ValidationWarning)
    ensures
        r@ == (WarningView { code, path: "chain"@, parameters: seq![(name@, value@)] }),
{
    let ghost said = value@;
    let pairs: Vec<(String, ParameterValue)> = vec![(name.to_owned(), value)];
    assert(parameters_seen(pairs@) =~= seq![(name@, said)]);
    ValidationWarning { code, path: "chain".to_owned(), parameters: Parameters { pairs } }
}

fn blame(errors: &mut Vec<ValidationError>, there: bool, code: ErrorCode, field: &str)
    ensures
        errors_said(final(errors)@) == errors_said(old(errors)@) + fault(there, code, field@),
{
    let ghost before = errors_said(errors@);
    if there {
        errors.push(ValidationError::plain(code, field));
    }
    assert(errors_said(errors@) =~= before + fault(there, code, field@));
}

/// Decides about inspected material: refuses what cannot be served, for
/// everything that is wrong with it at once, and says what is worth knowing
/// about what can.
pub fn decide(inspected: Inspected, now_unix: i64) -> (r: Result<Upload, ValidationErrors>)
    ensures
        match r {
            Ok(upload) => faults(inspected@).len() == 0 && upload.is(inspected@, now_unix),
            Err(errors) => errors.said() == faults(inspected@) && errors.said().len() > 0,
        },
{
    let mut errors: Vec<ValidationError> = Vec::new();
    assert(errors_said(errors@) =~= seq![]);
    blame(
        &mut errors,
        !inspected.belongs,
        ErrorCode::CertificateKeyMismatch,
        "private_key",
    );
    blame(
        &mut errors,
        inspected.window.is_none(),
        ErrorCode::CertificateChainUnreadable,
        "chain",
    );
    blame(
        &mut errors,
        inspected.chain_pem.is_none(),
        ErrorCode::CertificateChainUnreadable,
        "chain",
    );
    blame(
        &mut errors,
        inspected.key_pem.is_none(),
        ErrorCode::CertificateKeyUnreadable,
        "private_key",
    );
    assert(errors_said(errors@) =~= faults(inspected@));
    let (validity, chain_pem, key_pem) = match (
        inspected.belongs,
        inspected.window,
        inspected.chain_pem,
        inspected.key_pem,
    ) {
        (true, Some(validity), Some(chain_pem), Some(key_pem)) => (validity, chain_pem, key_pem),
        _ => {
            return Err(ValidationErrors { errors });
        },
    };
    let mut warnings: Vec<ValidationWarning> = Vec::new();
    let ghost mut said: Seq<WarningView> = seq![];
    assert(warnings_said(warnings@) =~= said);
    if validity.not_after_unix <= now_unix {
        let warning = warn(
            WarningCode::CertificateExpired,
            "not_after_unix",
            ParameterValue::Number(validity.not_after_unix),
        );
        proof {
            said = seq![warning@];
        }
        warnings.push(warning);
        assert(warnings_said(warnings@) =~= said);
    }
    if let Some(issuer) = incomplete(&inspected.links) {
        let warning = warn(
            WarningCode::CertificateChainIncomplete,
            "issuer",
            ParameterValue::Identifier(issuer),
        );
        proof {
            said = said.push(warning@);
        }
        warnings.push(warning);
        assert(warnings_said(warnings@) =~= said);
    }
    assert(said == warned(validity, links_seen(inspected.links@), now_unix));
    Ok(
        Upload {
            sni_names: names(&inspected.found),
            validity,
            chain: Secret::new(chain_pem),
            key: Secret::new(key_pem),
            warnings,
        },
    )
}

/// Who issued a certificate and whom it is about, out of its entries. One
/// that cannot be read is nobody.
pub open spec fn link_of(der: Seq<u8>) -> LinkView {
    LinkView {
        issuer: match issuer_of(der) {
            Some(entries) => name_text(entries),
            None => seq![],
        },
        subject: match subject_of(der) {
            Some(entries) => name_text(entries),
            None => seq![],
        },
    }
}

/// A chain written out as PEM.
pub open spec fn chain_pem_of(chain: Seq<Seq<u8>>) -> Option<Seq<u8>>
    decreases chain.len(),
{
    if chain.len() == 0 {
        Some(seq![])
    } else {
        match (chain_pem_of(chain.drop_last()), certificate_pem_of(chain.last())) {
            (Some(front), Some(one)) => Some(front + one),
            _ => None,
        }
    }
}

/// What a leaf carries as names: the common names, then the alternative ones.
pub open spec fn found_in(leaf: Seq<u8>) -> Seq<Option<Seq<char>>> {
    (match common_names_of(leaf) {
        Some(names) => names,
        None => seq![],
    }) + (match alternatives_of(leaf) {
        Some(names) => names,
        None => seq![],
    })
}

/// The window of a leaf.
pub open spec fn window_of(leaf: Seq<u8>) -> Option<CertificateValidity> {
    match (not_before_of(leaf), not_after_of(leaf)) {
        (Some(before), Some(after)) => Some(
            CertificateValidity {
                not_before_unix: seconds(before),
                not_after_unix: seconds(after),
            },
        ),
        _ => None,
    }
}

/// Everything a chain and a key say about themselves.
pub open spec fn inspected_of(
    chain: Seq<Seq<u8>>,
    key_pem: Seq<u8>,
    key: KeyView,
) -> InspectedView {
    InspectedView {
        belongs: match key.word {
            Some(word) => belongs_locked_to(chain[0], key_pem, word),
            None => belongs_to(chain[0], key_pem),
        },
        window: window_of(chain[0]),
        found: found_in(chain[0]),
        links: Seq::new(chain.len(), |i: int| link_of(chain[i])),
        chain_pem: chain_pem_of(chain),
        key_pem: key.written,
    }
}

fn read_links(chain: &Vec<Vec<u8>>) -> (r: Vec<Link>)
    ensures
        links_seen(r@) == Seq::new(chain@.len(), |i: int| link_of(bytes_shown(chain@)[i])),
{
    let ghost all = Seq::new(chain@.len(), |i: int| link_of(bytes_shown(chain@)[i]));
    let mut links: Vec<Link> = Vec::new();
    let mut at: usize = 0;
    assert(links_seen(links@) =~= all.take(0));
    while at < chain.len()
        invariant
            at <= chain.len(),
            all == Seq::new(chain@.len(), |i: int| link_of(bytes_shown(chain@)[i])),
            links_seen(links@) == all.take(at as int),
        decreases chain.len() - at,
    {
        let ghost before = links_seen(links@);
        let der = chain[at].as_slice();
        let from = match issuer(der) {
            Ok(entries) => text_of(&entries),
            Err(_) => String::new(),
        };
        let to = match subject(der) {
            Ok(entries) => text_of(&entries),
            Err(_) => String::new(),
        };
        let link = Link { issuer: from, subject: to };
        proof {
            assert(link@.issuer =~= link_of(der@).issuer);
            assert(link@.subject =~= link_of(der@).subject);
            assert(all[at as int] == link@);
        }
        links.push(link);
        assert(links_seen(links@) =~= before.push(all[at as int]));
        assert(links_seen(links@) =~= all.take(at + 1));
        at += 1;
    }
    assert(all.take(all.len() as int) =~= all);
    links
}

/// The chain written back out as PEM, leaf first.
fn written(chain: &Vec<Vec<u8>>) -> (r: Option<Vec<u8>>)
    ensures
        match r {
            Some(pem) => chain_pem_of(bytes_shown(chain@)) == Some(pem@),
            None => chain_pem_of(bytes_shown(chain@)) is None,
        },
{
    let ghost all = bytes_shown(chain@);
    let mut bytes: Vec<u8> = Vec::new();
    let mut at: usize = 0;
    assert(bytes@ =~= seq![]);
    while at < chain.len()
        invariant
            at <= chain.len(),
            all == bytes_shown(chain@),
            chain_pem_of(all.take(at as int)) == Some(bytes@),
        decreases chain.len() - at,
    {
        proof {
            assert(all.take(at + 1).drop_last() =~= all.take(at as int));
            assert(all.take(at + 1).last() == chain@[at as int]@);
        }
        match certificate_pem(chain[at].as_slice()) {
            Ok(one) => {
                push_all(&mut bytes, one.as_slice());
            },
            Err(_) => {
                proof {
                    lemma_unwritten_stays_unwritten(all, at + 1);
                }
                return None;
            },
        }
        at += 1;
    }
    assert(all.take(all.len() as int) =~= all);
    Some(bytes)
}

proof fn lemma_unwritten_stays_unwritten(chain: Seq<Seq<u8>>, at: int)
    requires
        0 <= at <= chain.len(),
        chain_pem_of(chain.take(at)) is None,
    ensures
        chain_pem_of(chain) is None,
    decreases chain.len() - at,
{
    if at < chain.len() {
        assert(chain.take(at + 1).drop_last() =~= chain.take(at));
        lemma_unwritten_stays_unwritten(chain, at + 1);
    } else {
        assert(chain.take(at) =~= chain);
    }
}

fn read_names(leaf: &[u8]) -> (r: Vec<Option<String>>)
    ensures
        all_shown(r@) == found_in(leaf@),
{
    let mut found: Vec<Option<String>> = match common_names(leaf) {
        Ok(names) => names,
        Err(_) => Vec::new(),
    };
    let ghost first = all_shown(found@);
    assert(common_names_of(leaf@) is None ==> first =~= seq![]);
    let ghost mut second: Seq<Option<Seq<char>>> = seq![];
    if let Some(mut more) = alternatives(leaf) {
        proof {
            second = all_shown(more@);
        }
        found.append(&mut more);
    }
    assert(all_shown(found@) =~= first + second);
    found
}

fn read_window(leaf: &[u8]) -> (r: Option<CertificateValidity>)
    ensures
        r == window_of(leaf@),
{
    match (not_before(leaf), not_after(leaf)) {
        (Ok(before), Ok(after)) => Some(
            CertificateValidity { not_before_unix: unix(before), not_after_unix: unix(after) },
        ),
        _ => None,
    }
}

/// Everything an upload is refused for: what is wrong with the chain and what
/// is wrong with the key, or else what is wrong with the two together.
pub open spec fn upload_faults(
    chain_pem: Seq<u8>,
    key_pem: Seq<u8>,
    word: Option<Seq<u8>>,
) -> Seq<ErrorView> {
    match (chain_outcome(certificates_of(chain_pem)), key_in(key_pem, word)) {
        (Err(chain), Err(key)) => seq![chain, key],
        (Err(chain), Ok(_)) => seq![chain],
        (Ok(_), Err(key)) => seq![key],
        (Ok(chain), Ok(key)) => faults(inspected_of(chain, key_pem, key)),
    }
}

/// No fault carries the material it was found in: it blames one of the three
/// fields, and says nothing more than how long a chain is that is too long.
pub proof fn lemma_no_fault_carries_the_material(
    chain_pem: Seq<u8>,
    key_pem: Seq<u8>,
    word: Option<Seq<u8>>,
    at: int,
)
    requires
        0 <= at < upload_faults(chain_pem, key_pem, word).len(),
    ensures
        ({
            let fault = upload_faults(chain_pem, key_pem, word)[at];
            &&& fault.path == "chain"@ || fault.path == "private_key"@ || fault.path
                == "passphrase"@
            &&& fault == ErrorView::plain(fault.code, fault.path) || exists|count: int|
                count > MOST_CERTIFICATES && fault == #[trigger] too_long(count)
        }),
{
    if let (Ok(chain), Ok(key)) = (chain_outcome(certificates_of(chain_pem)), key_in(key_pem, word)) {
        lemma_faults_are_plain(inspected_of(chain, key_pem, key));
    }
}

proof fn lemma_faults_are_plain(inspected: InspectedView)
    ensures
        forall|i: int|
            0 <= i < faults(inspected).len() ==> {
                let fault = #[trigger] faults(inspected)[i];
                fault == ErrorView::plain(fault.code, fault.path) && (fault.path == "chain"@
                    || fault.path == "private_key"@)
            },
{
}

/// What two halves of an upload are refused for, when one of them cannot be
/// read.
fn unread(chain: Option<ValidationError>, key: Option<ValidationError>) -> (r: ValidationErrors)
    ensures
        r.said() == (match chain {
            Some(chain) => seq![chain@],
            None => seq![],
        }) + (match key {
            Some(key) => seq![key@],
            None => seq![],
        }),
{
    let mut errors: Vec<ValidationError> = Vec::new();
    let ghost mut said: Seq<ErrorView> = seq![];
    if let Some(chain) = chain {
        proof {
            said = said.push(chain@);
        }
        errors.push(chain);
    }
    if let Some(key) = key {
        proof {
            said = said.push(key@);
        }
        errors.push(key);
    }
    assert(errors_said(errors@) =~= said);
    ValidationErrors { errors }
}

/// Reads an uploaded certificate and its key.
///
/// The passphrase is only used when the key is encrypted. Passing one for a
/// key that is not encrypted is not an error.
///
/// Every fault is returned at once, each with a stable code and the field it
/// blames, so that they can be shown together rather than one per attempt.
pub fn inspect(chain_pem: &[u8], key_pem: &[u8], passphrase: Option<&str>, now_unix: i64) -> (r:
    Result<Upload, ValidationErrors>)
    requires
        chain_pem@.len() <= MOST_BYTES,
        key_pem@.len() <= MOST_BYTES,
        word_of(passphrase) matches Some(word) ==> !word.contains(0u8),
    ensures
        match r {
            Ok(upload) => upload_faults(chain_pem@, key_pem@, word_of(passphrase)).len() == 0
                && upload.is(
                inspected_of(
                    certificates_of(chain_pem@)->0,
                    key_pem@,
                    key_in(key_pem@, word_of(passphrase))->Ok_0,
                ),
                now_unix,
            ),
            Err(errors) => errors.said() == upload_faults(
                chain_pem@,
                key_pem@,
                word_of(passphrase),
            ) && errors.said().len() > 0,
        },
{
    let word = match passphrase {
        Some(word) => if word.is_empty() {
            None
        } else {
            Some(word)
        },
        None => None,
    };
    assert(word_of(word) == word_of(passphrase));
    let (chain, key) = match (read_chain(chain_pem), read_key(key_pem, word)) {
        (Ok(chain), Ok(key)) => (chain, key),
        (Err(chain), Ok(_)) => {
            return Err(unread(Some(chain), None));
        },
        (Ok(_), Err(key)) => {
            return Err(unread(None, Some(key)));
        },
        (Err(chain), Err(key)) => {
            return Err(unread(Some(chain), Some(key)));
        },
    };
    let ghost held = bytes_shown(chain@);
    let ghost opened = key_in(key_pem@, word_of(passphrase))->Ok_0;
    let leaf = chain[0].as_slice();
    assert(held[0] == leaf@);
    let links = read_links(&chain);
    assert(links_seen(links@) =~= inspected_of(held, key_pem@, opened).links);
    let ours = match (key.locked, word) {
        (true, Some(word)) => belongs_locked(leaf, key_pem, word.as_bytes()),
        _ => belongs(leaf, key_pem),
    };
    let inspected = Inspected {
        belongs: ours,
        window: read_window(leaf),
        found: read_names(leaf),
        links,
        chain_pem: written(&chain),
        key_pem: key.written,
    };
    decide(inspected, now_unix)
}

/// A stored chain begins with its leaf: it is the first certificate written
/// out, with the rest of the chain written out behind it.
pub proof fn lemma_the_leaf_is_stored_first(chain: Seq<Seq<u8>>)
    requires
        chain.len() > 0,
    ensures
        match (
            certificate_pem_of(chain[0]),
            chain_pem_of(chain.subrange(1, chain.len() as int)),
        ) {
            (Some(leaf), Some(rest)) => chain_pem_of(chain) == Some(leaf + rest)
                && leaf.is_prefix_of(leaf + rest),
            _ => chain_pem_of(chain) is None,
        },
    decreases chain.len(),
{
    let rest = chain.subrange(1, chain.len() as int);
    let front = chain.drop_last();
    if chain.len() == 1 {
        assert(front =~= seq![]);
        assert(rest =~= seq![]);
        if let Some(leaf) = certificate_pem_of(chain[0]) {
            assert(Seq::<u8>::empty() + leaf =~= leaf + Seq::<u8>::empty());
        }
    } else {
        lemma_the_leaf_is_stored_first(front);
        assert(front[0] == chain[0]);
        assert(front.subrange(1, front.len() as int) =~= rest.drop_last());
        assert(rest.last() == chain.last());
        if let (Some(leaf), Some(between), Some(one)) = (
            certificate_pem_of(chain[0]),
            chain_pem_of(rest.drop_last()),
            certificate_pem_of(chain.last()),
        ) {
            assert(leaf + between + one =~= leaf + (between + one));
        }
    }
}

/// A chain is stored whole or not at all: it can be written out exactly when
/// every certificate in it can, and each of them stands in what is stored,
/// behind the ones before it.
#[verifier::spinoff_prover]
#[verifier::rlimit(40)]
pub proof fn lemma_a_chain_is_stored_whole(chain: Seq<Seq<u8>>, at: int)
    requires
        0 <= at < chain.len(),
    ensures
        chain_pem_of(chain) is Some <==> forall|i: int|
            0 <= i < chain.len() ==> certificate_pem_of(#[trigger] chain[i]) is Some,
        chain_pem_of(chain) matches Some(stored) ==> (chain_pem_of(chain.take(at)) matches Some(
            before,
        ) && certificate_pem_of(chain[at]) matches Some(one) && (before + one).is_prefix_of(
            stored,
        )),
    decreases chain.len(),
{
    let front = chain.drop_last();
    let last = chain.len() - 1;
    if front.len() > 0 {
        lemma_a_chain_is_stored_whole(
            front,
            if at < last {
                at
            } else {
                0
            },
        );
        assert(forall|i: int| 0 <= i < front.len() ==> front[i] == chain[i]);
    }
    if chain_pem_of(chain) is Some {
        assert forall|i: int| 0 <= i < chain.len() implies certificate_pem_of(
            #[trigger] chain[i],
        ) is Some by {
            if i < last {
                assert(front[i] == chain[i]);
            }
        }
    }
    if forall|i: int| 0 <= i < chain.len() ==> certificate_pem_of(#[trigger] chain[i]) is Some {
        assert(certificate_pem_of(chain[last]) is Some);
        assert forall|i: int| 0 <= i < front.len() implies certificate_pem_of(
            #[trigger] front[i],
        ) is Some by {
            assert(front[i] == chain[i]);
        }
    }
    if let Some(stored) = chain_pem_of(chain) {
        if at < last {
            assert(front.take(at) =~= chain.take(at));
            let held = chain_pem_of(front)->0;
            let early = chain_pem_of(chain.take(at))->0 + certificate_pem_of(chain[at])->0;
            assert(early.is_prefix_of(held));
            assert(early =~= stored.subrange(0, early.len() as int)) by {
                assert(early =~= held.subrange(0, early.len() as int));
            }
        } else {
            assert(chain.take(at) =~= front);
            assert(stored =~= stored.subrange(0, stored.len() as int));
        }
    }
}

/// What an upload keeps is what was uploaded: its chain begins with the leaf,
/// its window is the leaf's, and its key is the key that was opened.
pub proof fn lemma_an_upload_is_about_its_leaf(
    upload: Upload,
    chain: Seq<Seq<u8>>,
    key_pem: Seq<u8>,
    key: KeyView,
    now_unix: i64,
)
    requires
        chain.len() > 0,
        upload.is(inspected_of(chain, key_pem, key), now_unix),
    ensures
        certificate_pem_of(chain[0]) matches Some(leaf) && leaf.is_prefix_of(upload.chain.kept()),
        not_before_of(chain[0]) matches Some(before) && upload.validity.not_before_unix == 86_400
            * before.0 + before.1,
        not_after_of(chain[0]) matches Some(after) && upload.validity.not_after_unix == 86_400
            * after.0 + after.1,
        Some(upload.key.kept()) == key.written,
{
    lemma_the_leaf_is_stored_first(chain);
}

/// Names keep the order they were found in: of two that are kept, the one
/// that was found first comes first.
pub proof fn lemma_names_keep_the_order_they_were_found_in(
    found: Seq<Option<Seq<char>>>,
    first: int,
    second: int,
    later: int,
)
    requires
        0 <= first < second < gathered(found).len(),
        0 <= later < found.len(),
        found[later] == Some(gathered(found)[second]),
    ensures
        exists|earlier: int|
            0 <= earlier < later && #[trigger] found[earlier] == Some(gathered(found)[first]),
    decreases found.len(),
{
    let front = found.drop_last();
    let before = gathered(front);
    let after = gathered(found);
    let last = found.len() - 1;
    assert(first < before.len());
    assert(after[first] == before[first]);
    lemma_gathered_names_differ(front);
    if second < before.len() {
        assert(after[second] == before[second]);
        if later < last {
            assert(front[later] == found[later]);
            lemma_names_keep_the_order_they_were_found_in(front, first, second, later);
            let earlier = choose|earlier: int|
                0 <= earlier < later && #[trigger] front[earlier] == Some(before[first]);
            assert(found[earlier] == Some(after[first]));
        } else {
            assert(before.contains(before[first]));
            let earlier = choose|earlier: int|
                0 <= earlier < front.len() && front[earlier] == Some(before[first]);
            assert(found[earlier] == Some(after[first]));
        }
    } else {
        if later < last {
            assert(front[later] == found[later]);
            assert(front.contains(Some(after[second])));
            lemma_gathered_names_differ(found);
            assert(after.contains(after[second]));
            assert(before.contains(after[second]));
        }
        assert(before.contains(before[first]));
        let earlier = choose|earlier: int|
            0 <= earlier < front.len() && front[earlier] == Some(before[first]);
        assert(found[earlier] == Some(after[first]));
    }
}

/// The common names of a leaf come before its alternative names, and nothing
/// else is among its names.
pub proof fn lemma_common_names_come_first(leaf: Seq<u8>)
    ensures
        common_names_of(leaf) matches Some(common) ==> gathered(common).is_prefix_of(
            gathered(found_in(leaf)),
        ),
        forall|name: Seq<char>| #[trigger]
            gathered(found_in(leaf)).contains(name) <==> name.len() > 0 && ((common_names_of(
                leaf,
            ) matches Some(common) && common.contains(Some(name))) || (alternatives_of(
                leaf,
            ) matches Some(more) && more.contains(Some(name)))),
{
    let common = match common_names_of(leaf) {
        Some(names) => names,
        None => seq![],
    };
    let more = match alternatives_of(leaf) {
        Some(names) => names,
        None => seq![],
    };
    lemma_more_names_come_behind(common, more);
    lemma_gathered_names_differ(found_in(leaf));
    let all = common + more;
    assert(found_in(leaf) == all);
    assert forall|name: Seq<char>| all.contains(Some(name)) <==> (common.contains(Some(name))
        || more.contains(Some(name))) by {
        if common.contains(Some(name)) {
            let i = choose|i: int| 0 <= i < common.len() && common[i] == Some(name);
            assert(all[i] == Some(name));
        }
        if more.contains(Some(name)) {
            let i = choose|i: int| 0 <= i < more.len() && more[i] == Some(name);
            assert(all[common.len() + i] == Some(name));
        }
    }
}

proof fn lemma_more_names_come_behind(found: Seq<Option<Seq<char>>>, more: Seq<Option<Seq<char>>>)
    ensures
        gathered(found).is_prefix_of(gathered(found + more)),
    decreases more.len(),
{
    if more.len() == 0 {
        assert(found + more =~= found);
    } else {
        lemma_more_names_come_behind(found, more.drop_last());
        assert((found + more).drop_last() =~= found + more.drop_last());
    }
}

/// A chain stops short at the first certificate that was not issued by the
/// next one, or at a last one that was not issued by itself, and what is
/// missing is the issuer of that certificate.
pub proof fn lemma_what_is_missing_is_the_next_issuer(links: Seq<LinkView>, at: int)
    requires
        0 <= at < links.len(),
    ensures
        missing_from(links, at) matches Some(issuer) ==> exists|i: int|
            {
                &&& at <= i < links.len()
                &&& #[trigger] links[i].issuer == issuer
                &&& (i + 1 < links.len() ==> links[i + 1].subject != issuer)
                &&& (i + 1 == links.len() ==> links[i].subject != issuer)
                &&& forall|j: int|
                    at <= j < i ==> (#[trigger] links[j]).issuer == links[j + 1].subject
            },
    decreases links.len() - at,
{
    if at + 1 < links.len() && links[at].issuer == links[at + 1].subject {
        lemma_what_is_missing_is_the_next_issuer(links, at + 1);
        if let Some(issuer) = missing_from(links, at) {
            let i = choose|i: int|
                {
                    &&& at + 1 <= i < links.len()
                    &&& #[trigger] links[i].issuer == issuer
                    &&& (i + 1 < links.len() ==> links[i + 1].subject != issuer)
                    &&& (i + 1 == links.len() ==> links[i].subject != issuer)
                    &&& forall|j: int|
                        at + 1 <= j < i ==> (#[trigger] links[j]).issuer == links[j + 1].subject
                };
            assert(links[i].issuer == issuer);
            assert forall|j: int| at <= j < i implies (#[trigger] links[j]).issuer == links[j
                + 1].subject by {}
        }
    } else if let Some(issuer) = missing_from(links, at) {
        assert(links[at].issuer == issuer);
    }
}

/// A certificate is warned about as expired exactly from the second its
/// window ends on, and as incomplete exactly when its chain is; each at most
/// once, and nothing else is warned about.
pub proof fn lemma_what_is_warned_about(
    window: CertificateValidity,
    links: Seq<LinkView>,
    now_unix: i64,
)
    ensures
        ({
            let warnings = warned(window, links, now_unix);
            let expired = now_unix >= window.not_after_unix;
            let incomplete = missing_from(links, 0) is Some;
            &&& warnings.len() == (if expired {
                1int
            } else {
                0
            }) + (if incomplete {
                1int
            } else {
                0
            })
            &&& expired ==> warnings[0].code == WarningCode::CertificateExpired
                && warnings[0].parameters == seq![
                ("not_after_unix"@, ParameterView::Number(window.not_after_unix)),
            ]
            &&& incomplete ==> warnings.last().code == WarningCode::CertificateChainIncomplete
                && warnings.last().parameters == seq![
                ("issuer"@, ParameterView::Identifier(missing_from(links, 0)->0)),
            ]
        }),
{
}

/// Material can be served exactly when the key belongs to the leaf, the
/// window can be read and both halves can be written out; every other
/// material is blamed on the half at fault, with a key that belongs to
/// another certificate first.
#[verifier::spinoff_prover]
#[verifier::rlimit(40)]
pub proof fn lemma_what_cannot_be_served_is_blamed(inspected: InspectedView)
    ensures
        faults(inspected).len() == 0 <==> inspected.belongs && inspected.window is Some
            && inspected.chain_pem is Some && inspected.key_pem is Some,
        !inspected.belongs ==> faults(inspected).len() > 0 && faults(inspected)[0]
            == ErrorView::plain(ErrorCode::CertificateKeyMismatch, "private_key"@),
        faults(inspected).contains(
            ErrorView::plain(ErrorCode::CertificateKeyMismatch, "private_key"@),
        ) <==> !inspected.belongs,
        faults(inspected).contains(
            ErrorView::plain(ErrorCode::CertificateChainUnreadable, "chain"@),
        ) <==> inspected.window is None || inspected.chain_pem is None,
        faults(inspected).contains(
            ErrorView::plain(ErrorCode::CertificateKeyUnreadable, "private_key"@),
        ) <==> inspected.key_pem is None,
{
    let first = fault(!inspected.belongs, ErrorCode::CertificateKeyMismatch, "private_key"@);
    let second = fault(
        inspected.window is None,
        ErrorCode::CertificateChainUnreadable,
        "chain"@,
    );
    let third = fault(
        inspected.chain_pem is None,
        ErrorCode::CertificateChainUnreadable,
        "chain"@,
    );
    let fourth = fault(
        inspected.key_pem is None,
        ErrorCode::CertificateKeyUnreadable,
        "private_key"@,
    );
    let all = faults(inspected);
    assert(all == first + second + third + fourth);
    if !inspected.belongs {
        assert(all[0] == first[0]);
    }
    if inspected.window is None {
        assert(all[first.len() as int] == second[0]);
    }
    if inspected.chain_pem is None {
        assert(all[(first.len() + second.len()) as int] == third[0]);
    }
    if inspected.key_pem is None {
        assert(all[all.len() - 1] == fourth[0]);
    }
}

/// A key that opens without a passphrase is taken whatever passphrase came
/// with it; one that opens with the passphrase is taken too. What opens
/// neither way is blamed on the passphrase exactly where the file says that
/// it is encrypted: as missing when there was none, as wrong when there was.
pub proof fn lemma_a_key_is_refused_only_when_nothing_opens_it(
    pem: Seq<u8>,
    word: Option<Seq<u8>>,
)
    ensures
        key_in(pem, word) is Ok <==> opened_key(pem) is Some || (word matches Some(word)
            && unlocked_key(pem, word) is Some),
        key_in(pem, word) matches Ok(key) ==> Some(key.written) == opened_key(pem) || (
        word matches Some(word) && Some(key.written) == unlocked_key(pem, word)),
        key_in(pem, word) matches Err(error) ==> error.parameters.len() == 0 && (
        if !says_encrypted(pem) {
            error.code == ErrorCode::CertificateKeyUnreadable && error.path == "private_key"@
        } else {
            error.path == "passphrase"@ && error.code == (if word is None {
                ErrorCode::CertificateKeyPassphraseRequired
            } else {
                ErrorCode::CertificateKeyPassphraseWrong
            })
        }),
{
}

/// An empty passphrase is none at all.
pub proof fn lemma_an_empty_passphrase_is_none(word: &str)
    ensures
        word_of(Some(word)) is None <==> word@.len() == 0,
        word@.len() > 0 ==> word_of(Some(word)) == Some(encode_utf8(word@)),
        word_of(None) is None,
{
}

/// A chain is kept as it was read when it holds one certificate to sixteen;
/// an empty one and a longer one are refused, the longer one with how many
/// there were and how many there may be.
pub proof fn lemma_a_chain_holds_one_to_sixteen(list: Seq<Seq<u8>>)
    ensures
        1 <= list.len() <= 16 ==> chain_outcome(Some(list)) == Ok::<Seq<Seq<u8>>, ErrorView>(list),
        list.len() == 0 ==> (chain_outcome(Some(list)) matches Err(error) && error.code
            == ErrorCode::CertificateChainEmpty),
        16 < list.len() <= i64::MAX ==> (chain_outcome(Some(list)) matches Err(error) && error.code
            == ErrorCode::CertificateChainTooLong && error.parameters == seq![
            ("certificate_count"@, ParameterView::Number(list.len() as i64)),
            ("limit"@, ParameterView::Number(16)),
        ]),
        chain_outcome(None) matches Err(error) && error.code
            == ErrorCode::CertificateChainUnreadable,
{
}

/// What is wrong with the chain and what is wrong with the key is said at
/// once, the chain first, and only where both were read is anything said of
/// the two together.
pub proof fn lemma_both_halves_are_blamed_at_once(
    chain_pem: Seq<u8>,
    key_pem: Seq<u8>,
    word: Option<Seq<u8>>,
)
    ensures
        ({
            let said = upload_faults(chain_pem, key_pem, word);
            &&& (chain_outcome(certificates_of(chain_pem)) matches Err(chain) ==> said.len() > 0
                && said[0] == chain)
            &&& (key_in(key_pem, word) matches Err(key) ==> said.len() > 0 && said.last() == key)
            &&& (chain_outcome(certificates_of(chain_pem)) is Err && key_in(key_pem, word) is Err)
                ==> said.len() == 2
            &&& (chain_outcome(certificates_of(chain_pem)) is Err != key_in(key_pem, word) is Err)
                ==> said.len() == 1
        }),
{
}

/// A name is written entry by entry, in their order and with commas between
/// them; an entry whose value is no text is left out.
pub proof fn lemma_a_name_is_written_entry_by_entry(
    entries: Seq<(Option<Seq<char>>, Option<Seq<char>>)>,
    short: Option<Seq<char>>,
    value: Seq<char>,
)
    ensures
        name_text(entries.push((short, None))) == name_text(entries),
        written_entries(entries).len() == 0 ==> name_text(entries.push((short, Some(value)))) == (
        match short {
            Some(short) => short,
            None => "?"@,
        }) + "="@ + value,
        written_entries(entries).len() > 0 ==> name_text(entries.push((short, Some(value))))
            == name_text(entries) + ","@ + ((match short {
            Some(short) => short,
            None => "?"@,
        }) + "="@ + value),
{
    assert(entries.push((short, None)).drop_last() =~= entries);
    assert(entries.push((short, Some(value))).drop_last() =~= entries);
    let written = written_entries(entries);
    let more = written_entries(entries.push((short, Some(value))));
    assert(more.drop_last() =~= written);
}

/// What is said about a chain and its key is said about the leaf: its names,
/// its window, and whether the key is its own, opened with the passphrase
/// exactly where that was needed. Who issued whom is read certificate by
/// certificate, in their order.
pub proof fn lemma_what_is_inspected_is_the_leaf(
    chain: Seq<Seq<u8>>,
    key_pem: Seq<u8>,
    key: KeyView,
    at: int,
)
    requires
        0 <= at < chain.len(),
    ensures
        ({
            let seen = inspected_of(chain, key_pem, key);
            &&& key.word is None ==> seen.belongs == belongs_to(chain[0], key_pem)
            &&& key.word matches Some(word) ==> seen.belongs == belongs_locked_to(
                chain[0],
                key_pem,
                word,
            )
            &&& seen.window == window_of(chain[0])
            &&& seen.found == found_in(chain[0])
            &&& seen.links.len() == chain.len()
            &&& issuer_of(chain[at]) matches Some(entries) ==> seen.links[at].issuer == name_text(
                entries,
            )
            &&& subject_of(chain[at]) matches Some(entries) ==> seen.links[at].subject == name_text(
                entries,
            )
            &&& issuer_of(chain[at]) is None ==> seen.links[at].issuer.len() == 0
            &&& subject_of(chain[at]) is None ==> seen.links[at].subject.len() == 0
            &&& seen.window is Some <==> not_before_of(chain[0]) is Some && not_after_of(
                chain[0],
            ) is Some
        }),
{
}

/// A window moves with the clock: one more day is 86400 seconds, one more
/// second is one, and the epoch is zero.
pub proof fn lemma_a_day_has_its_seconds(days: i32, secs: i32)
    requires
        days < i32::MAX,
        secs < i32::MAX,
    ensures
        seconds(((days + 1) as i32, secs)) == seconds((days, secs)) + 86_400,
        seconds((days, (secs + 1) as i32)) == seconds((days, secs)) + 1,
        seconds((0, 0)) == 0,
{
}

/// A key file says that it is encrypted by either of the two headers there
/// are, wherever in it the header stands.
pub proof fn lemma_a_header_says_that_a_key_is_encrypted(before: Seq<u8>, behind: Seq<u8>)
    ensures
        says_encrypted(before + encode_utf8("BEGIN ENCRYPTED PRIVATE KEY"@) + behind),
        says_encrypted(before + encode_utf8("Proc-Type: 4,ENCRYPTED"@) + behind),
{
    lemma_what_is_put_in_is_held(before, encode_utf8("BEGIN ENCRYPTED PRIVATE KEY"@), behind);
    lemma_what_is_put_in_is_held(before, encode_utf8("Proc-Type: 4,ENCRYPTED"@), behind);
}

proof fn lemma_what_is_put_in_is_held(before: Seq<u8>, wanted: Seq<u8>, behind: Seq<u8>)
    ensures
        holds(before + wanted + behind, wanted),
{
    let bytes = before + wanted + behind;
    let at = before.len() as int;
    assert(bytes.subrange(at, at + wanted.len()) =~= wanted);
}

} // verus!
