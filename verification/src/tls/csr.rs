//! The certificate signing request an order is finalised with.
//!
//! A fresh private key per order, never the account key. The account key
//! identifies the account to the server; a certificate key is served to
//! clients.

use vstd::prelude::*;
use vstd::string::*;
use vstd::utf8::encode_utf8;

use openssl::error::ErrorStack;
use openssl::hash::MessageDigest;
use openssl::nid::Nid;
use openssl::pkey::PKey;
use openssl::stack::Stack;
use openssl::x509::extension::SubjectAlternativeName;
use openssl::x509::{X509Name, X509Req};

use crate::tls::config::texts;
use crate::tls::crypto::{opened_key, point_of, told, MOST_BYTES};
use crate::tls::error::{failed, told_as, Failure, FailureView, Reason};
use crate::tls::jws::{
    base64url, base64url_text, crypto, fresh_key, key_in, keyless, reads_back, unopened, PrivateKey,
};
use crate::tls::csr::Trouble::{
    Added, Alternatives, Begin, Carried, Key, Name, Named, Pushed, Sign, Stacked, Version, Write,
};

verus! {

/// The names a certificate is asked for.
#[verifier::external_type_specification]
#[verifier::external_body]
pub struct ExSubjectAlternativeName(SubjectAlternativeName);

/// The DNS names an extension lists, in order.
pub uninterp spec fn listed_names(held: SubjectAlternativeName) -> Seq<Seq<char>>;

/// The subject whose common name is this text, in DER.
pub uninterp spec fn subject_der(name: Seq<char>) -> Option<Seq<u8>>;

/// The version a signing request carries: zero stands for the first and only
/// one there is.
pub const REQUEST_VERSION: i32 = 0;

/// Whether bytes are a certificate signing request in DER, of this version,
/// with this subject, listing these names, carrying the public half of the
/// key in a PEM and signed by it with SHA-256.
pub uninterp spec fn requests(
    der: Seq<u8>,
    version: i32,
    subject: Seq<u8>,
    names: Seq<Seq<char>>,
    pem: Seq<u8>,
) -> bool;

/// Which step of building a request could not be taken, and what was said
/// about it.
pub(crate) enum Trouble {
    Name(ErrorStack),
    Named(ErrorStack),
    Begin(ErrorStack),
    Version(ErrorStack),
    Carried(ErrorStack),
    Key(ErrorStack),
    Alternatives(ErrorStack),
    Stacked(ErrorStack),
    Pushed(ErrorStack),
    Added(ErrorStack),
    Sign(ErrorStack),
    Write(ErrorStack),
}

/// `SubjectAlternativeName::new` lists no names.
#[verifier::external_body]
fn no_names() -> (r: SubjectAlternativeName)
    ensures
        listed_names(r) == Seq::<Seq<char>>::empty(),
{
    SubjectAlternativeName::new()
}

/// `SubjectAlternativeName::dns` lists one more DNS name behind the others.
#[verifier::external_body]
fn list_name(held: &mut SubjectAlternativeName, name: &str)
    ensures
        listed_names(*final(held)) == listed_names(*old(held)).push(name@),
{
    held.dns(name);
}

/// `X509NameBuilder::append_entry_by_nid` makes a name with one common name
/// in it, and `to_der` writes it. It fails on a text that cannot be one. A
/// longer text than OpenSSL counts panics.
#[verifier::external_body]
fn subject(name: &str) -> (r: Result<Vec<u8>, Trouble>)
    requires
        encode_utf8(name@).len() <= MOST_BYTES,
    ensures
        match r {
            Ok(der) => subject_der(name@) == Some(der@),
            Err(_) => subject_der(name@) is None,
        },
{
    let mut builder = X509Name::builder().map_err(Name)?;
    builder.append_entry_by_nid(Nid::COMMONNAME, name).map_err(Named)?;
    builder.build().to_der().map_err(Named)
}

/// `X509ReqBuilder` builds a signing request of a version with a subject, an
/// extension and a public key, and signs it; `to_der` writes it. The
/// signature is one of many, so which bytes come out is left to chance. A
/// longer file, or a longer name in the extension, than OpenSSL counts
/// panics.
#[verifier::external_body]
fn build(version: i32, subject: &[u8], names: &SubjectAlternativeName, pem: &[u8]) -> (r: Result<
    Vec<u8>,
    Trouble,
>)
    requires
        pem@.len() <= MOST_BYTES,
        forall|i: int|
            0 <= i < listed_names(*names).len() ==> encode_utf8(
                #[trigger] listed_names(*names)[i],
            ).len() <= MOST_BYTES,
    ensures
        r matches Ok(der) ==> requests(der@, version, subject@, listed_names(*names), pem@),
{
    let key = PKey::private_key_from_pem_callback(pem, |_| Ok(0)).map_err(Key)?;
    let name = X509Name::from_der(subject).map_err(Carried)?;
    let mut builder = X509Req::builder().map_err(Begin)?;
    builder.set_version(version).map_err(Version)?;
    builder.set_subject_name(&name).map_err(Carried)?;
    builder.set_pubkey(&key).map_err(Key)?;
    let mut stack = Stack::new().map_err(Stacked)?;
    let extension = names.build(&builder.x509v3_context(None)).map_err(Alternatives)?;
    stack.push(extension).map_err(Pushed)?;
    builder.add_extensions(&stack).map_err(Added)?;
    builder.sign(&key, MessageDigest::sha256()).map_err(Sign)?;
    builder.build().to_der().map_err(Write)
}

/// A signing request and the key it belongs to. Neither is ever printed.
pub struct Request {
    /// The key the certificate will be issued against.
    pub key: PrivateKey,
    /// The request itself, in DER.
    pub der: Vec<u8>,
}

impl Request {
    /// Whether this is a request that covers these names with this key.
    pub open spec fn covers(self, names: Seq<Seq<char>>, key: Seq<u8>) -> bool {
        &&& self.key.stored() == key
        &&& names.len() > 0
        &&& subject_der(names[0]) is Some
        &&& requests(self.der@, REQUEST_VERSION, subject_der(names[0])->0, names, key)
    }

    /// The request as ACME carries it: base64url, no padding.
    pub fn encoded(&self) -> (r: String)
        ensures
            r@ == base64url_text(self.der@),
    {
        base64url(self.der.as_slice())
    }

    /// The key in PEM, which is what the store keeps and the traffic path
    /// loads.
    pub fn key_pem(&self) -> (r: Result<Vec<u8>, Failure>)
        ensures
            r matches Ok(pem) && pem@ == self.key.stored(),
    {
        key_to_pem(&self.key)
    }
}

/// Builds a signing request covering every name, with a fresh key.
pub fn request(names: &[String]) -> (r: Result<Request, Failure>)
    requires
        countable(texts(names@)),
    ensures
        match r {
            Ok(request) => request.covers(texts(names@), request.key.stored()) && point_of(
                request.key.stored(),
            ) is Some,
            Err(failure) => keyless(failure@) || (if names@.len() == 0 {
                failure@ == nameless()
            } else {
                unbuilt(failure@)
            }),
        },
        names@.len() == 0 ==> r is Err,
{
    let key = generate()?;
    request_with(names, key)
}

/// Generates one certificate key. What it is stored as reads back as the same
/// key.
///
/// Separate from [`request`] because a replicated order stores the key before
/// it places anything.
pub fn generate() -> (r: Result<PrivateKey, Failure>)
    ensures
        match r {
            Ok(key) => point_of(key.stored()) is Some && reads_back(key.stored()),
            Err(failure) => keyless(failure@),
        },
{
    fresh_key()
}

/// Reads a stored certificate key back.
pub fn key_from_pem(pem: &[u8]) -> (r: Result<PrivateKey, Failure>)
    requires
        pem@.len() <= MOST_BYTES,
    ensures
        match r {
            Ok(key) => opened_key(pem@) == Some(Some(key.stored())),
            Err(failure) => unopened(
                failure@,
                pem@,
                "the stored certificate key does not open: "@,
            ),
        },
{
    key_in(pem, "the stored certificate key does not open: ")
}

/// Writes a certificate key out for the store to seal.
pub fn key_to_pem(key: &PrivateKey) -> (r: Result<Vec<u8>, Failure>)
    ensures
        r matches Ok(pem) && pem@ == key.stored() && pem@.len() <= MOST_BYTES,
{
    Ok(vstd::slice::slice_to_vec(key.pem()))
}

/// Whether no name is longer than OpenSSL counts.
pub open spec fn countable(names: Seq<Seq<char>>) -> bool {
    forall|i: int| 0 <= i < names.len() ==> encode_utf8(#[trigger] names[i]).len() <= MOST_BYTES
}

/// What is said about a certificate for nothing.
pub open spec fn nameless() -> FailureView {
    failed(Reason::Configuration, "a certificate covering no name was asked for"@)
}

/// Whether this is why a request could not be built: the step that could not
/// be taken, and what OpenSSL said about it.
pub open spec fn unbuilt(failure: FailureView) -> bool {
    ||| told_as(failure, "no name builder: "@)
    ||| told_as(failure, "no common name: "@)
    ||| told_as(failure, "no request builder: "@)
    ||| told_as(failure, "no version: "@)
    ||| told_as(failure, "no subject: "@)
    ||| told_as(failure, "no public key: "@)
    ||| told_as(failure, "no alternative names: "@)
    ||| told_as(failure, "no extension stack: "@)
    ||| told_as(failure, "no extension: "@)
    ||| told_as(failure, "no extensions: "@)
    ||| told_as(failure, "the request does not sign: "@)
    ||| told_as(failure, "the request does not write: "@)
}

/// What is said first about a step that could not be taken.
spec fn about(trouble: Trouble) -> Seq<char> {
    match trouble {
        Trouble::Name(_) => "no name builder: "@,
        Trouble::Named(_) => "no common name: "@,
        Trouble::Begin(_) => "no request builder: "@,
        Trouble::Version(_) => "no version: "@,
        Trouble::Carried(_) => "no subject: "@,
        Trouble::Key(_) => "no public key: "@,
        Trouble::Alternatives(_) => "no alternative names: "@,
        Trouble::Stacked(_) => "no extension stack: "@,
        Trouble::Pushed(_) => "no extension: "@,
        Trouble::Added(_) => "no extensions: "@,
        Trouble::Sign(_) => "the request does not sign: "@,
        Trouble::Write(_) => "the request does not write: "@,
    }
}

/// What is said about a step that could not be taken, with OpenSSL's own
/// words behind it.
fn failure_of(trouble: Trouble) -> (r: Failure)
    ensures
        told_as(r@, about(trouble)),
        unbuilt(r@),
{
    let (before, error) = match trouble {
        Trouble::Name(error) => ("no name builder: ", error),
        Trouble::Named(error) => ("no common name: ", error),
        Trouble::Begin(error) => ("no request builder: ", error),
        Trouble::Version(error) => ("no version: ", error),
        Trouble::Carried(error) => ("no subject: ", error),
        Trouble::Key(error) => ("no public key: ", error),
        Trouble::Alternatives(error) => ("no alternative names: ", error),
        Trouble::Stacked(error) => ("no extension stack: ", error),
        Trouble::Pushed(error) => ("no extension: ", error),
        Trouble::Added(error) => ("no extensions: ", error),
        Trouble::Sign(error) => ("the request does not sign: ", error),
        Trouble::Write(error) => ("the request does not write: ", error),
    };
    crypto(before, told(&error).as_str())
}

/// Builds a signing request against a key the caller already holds.
///
/// The names go into the subject alternative name extension, and the first of
/// them into the common name as well. Building and signing it is OpenSSL's to
/// do; when it cannot, that is a fault of kind [`Reason::Crypto`].
pub fn request_with(names: &[String], key: PrivateKey) -> (r: Result<Request, Failure>)
    requires
        countable(texts(names@)),
    ensures
        match r {
            Ok(request) => request.covers(texts(names@), key.stored()),
            Err(failure) => if names@.len() == 0 {
                failure@ == nameless()
            } else {
                unbuilt(failure@)
            },
        },
{
    let ghost all = texts(names@);
    if names.len() == 0 {
        return Err(
            Failure::said(Reason::Configuration, "a certificate covering no name was asked for"),
        );
    }
    assert(all[0] == names@[0]@);
    let held = match subject(names[0].as_str()) {
        Ok(held) => held,
        Err(trouble) => {
            return Err(failure_of(trouble));
        },
    };
    let mut alternatives = no_names();
    let mut at: usize = 0;
    assert(listed_names(alternatives) =~= all.take(0));
    while at < names.len()
        invariant
            at <= names.len(),
            all == texts(names@),
            listed_names(alternatives) == all.take(at as int),
        decreases names.len() - at,
    {
        list_name(&mut alternatives, names[at].as_str());
        assert(listed_names(alternatives) =~= all.take(at + 1));
        at += 1;
    }
    assert(all.take(all.len() as int) =~= all);
    match build(REQUEST_VERSION, held.as_slice(), &alternatives, key.pem()) {
        Ok(der) => Ok(Request { key, der }),
        Err(trouble) => Err(failure_of(trouble)),
    }
}

/// A request covers all of its names, in their order, carries the first of
/// them as its subject, is of the first version and holds the key it is for.
pub proof fn lemma_a_request_covers_its_names(
    request: Request,
    names: Seq<Seq<char>>,
    key: Seq<u8>,
)
    requires
        request.covers(names, key),
    ensures
        names.len() > 0,
        request.key.stored() == key,
        subject_der(names[0]) matches Some(subject) && requests(
            request.der@,
            0,
            subject,
            names,
            key,
        ),
{
}

} // verus!
