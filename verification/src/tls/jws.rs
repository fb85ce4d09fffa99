//! The signed envelope every ACME request travels in.

use vstd::prelude::*;
use vstd::string::*;
use vstd::utf8::encode_utf8;

use crate::bytes::same_bytes;
use crate::tls::crypto::{
    draw_key, es256, es256_signs, open_key, opened_key, point_of, public_point, sha256,
    sha256_of, told, KeyTrouble, MOST_BYTES,
};
use crate::tls::error::{failed, told_as, Failure, FailureView, Reason};
use crate::tls::json::{escape, json_escaped, lent};

verus! {

/// A private key, as the PKCS#8 PEM it is stored in. It is never printed.
pub struct PrivateKey {
    pem: Vec<u8>,
}

/// The key that identifies an account to an ACME server.
pub type Account = PrivateKey;

impl PrivateKey {
    /// No longer than OpenSSL counts.
    #[verifier::type_invariant]
    closed spec fn sound(self) -> bool {
        self.pem@.len() <= MOST_BYTES
    }

    /// The PEM the key is stored in.
    pub closed spec fn stored(self) -> Seq<u8> {
        self.pem@
    }

    /// The PEM the key is stored in.
    pub fn pem(&self) -> (r: &[u8])
        ensures
            r@ == self.stored(),
            r@.len() <= MOST_BYTES,
    {
        proof {
            use_type_invariant(self);
        }
        self.pem.as_slice()
    }

    /// The same key once more.
    pub fn copy(&self) -> (r: Self)
        ensures
            r.stored() == self.stored(),
    {
        proof {
            use_type_invariant(self);
        }
        PrivateKey { pem: vstd::slice::slice_to_vec(self.pem.as_slice()) }
    }
}

/// A fault of the kind that has to do with keys.
pub(crate) fn crypto(before: &str, error: &str) -> (r: Failure)
    ensures
        r@ == failed(Reason::Crypto, before@ + error@),
        told_as(r@, before@),
{
    let mut said = before.to_owned();
    said.append(error);
    assert(said@.subrange(0, before@.len() as int) =~= before@);
    Failure::new(Reason::Crypto, said)
}

/// What is said about a key that is longer than OpenSSL counts.
pub open spec fn too_long() -> FailureView {
    failed(Reason::Crypto, "the key is longer than can be counted"@)
}

/// What is said about a key that does not read back as it was written.
pub open spec fn lost_in_writing() -> FailureView {
    failed(Reason::Crypto, "the key does not read back as it was written"@)
}

/// Whether this is why no key could be made.
pub open spec fn keyless(failure: FailureView) -> bool {
    ||| told_as(failure, "no P-256 group: "@)
    ||| told_as(failure, "no key: "@)
    ||| told_as(failure, "the key does not wrap: "@)
    ||| told_as(failure, "the key does not write: "@)
    ||| failure == too_long()
    ||| failure == lost_in_writing()
}

/// Whether this is why a stored key cannot be held: what it holds is no key
/// that opens without a passphrase, or one that cannot be written, or one
/// longer than OpenSSL counts.
pub open spec fn unopened(failure: FailureView, pem: Seq<u8>, before: Seq<char>) -> bool {
    match opened_key(pem) {
        None => told_as(failure, before),
        Some(None) => told_as(failure, "the key does not write: "@),
        Some(Some(key)) => key.len() > MOST_BYTES && failure == too_long(),
    }
}

/// Whether a stored key reads back as itself.
pub open spec fn reads_back(pem: Seq<u8>) -> bool {
    opened_key(pem) == Some(Some(pem))
}

fn held(pem: Vec<u8>) -> (r: Result<PrivateKey, Failure>)
    ensures
        match r {
            Ok(key) => key.stored() == pem@ && pem@.len() <= MOST_BYTES,
            Err(failure) => pem@.len() > MOST_BYTES && failure@ == too_long(),
        },
{
    if pem.len() > MOST_BYTES {
        return Err(Failure::said(Reason::Crypto, "the key is longer than can be counted"));
    }
    Ok(PrivateKey { pem })
}

/// What is said first about a step of making a key that could not be taken.
spec fn about(trouble: KeyTrouble) -> Seq<char> {
    match trouble {
        KeyTrouble::Group(_) => "no P-256 group: "@,
        KeyTrouble::Draw(_) => "no key: "@,
        KeyTrouble::Wrap(_) => "the key does not wrap: "@,
        KeyTrouble::Write(_) => "the key does not write: "@,
    }
}

/// What is said about a step of making a key that could not be taken, with
/// OpenSSL's own words behind it.
fn failure_of(trouble: KeyTrouble) -> (r: Failure)
    ensures
        told_as(r@, about(trouble)),
        keyless(r@),
{
    let (before, error) = match trouble {
        KeyTrouble::Group(error) => ("no P-256 group: ", error),
        KeyTrouble::Draw(error) => ("no key: ", error),
        KeyTrouble::Wrap(error) => ("the key does not wrap: ", error),
        KeyTrouble::Write(error) => ("the key does not write: ", error),
    };
    crypto(before, told(&error).as_str())
}

/// Generates a private key on the curve P-256.
///
/// It is read back before anything rests on it: an account whose stored key
/// is another key is an account nobody can use.
pub(crate) fn fresh_key() -> (r: Result<PrivateKey, Failure>)
    ensures
        match r {
            Ok(key) => point_of(key.stored()) is Some && reads_back(key.stored()),
            Err(failure) => keyless(failure@),
        },
{
    let pem = match draw_key() {
        Ok(pem) => pem,
        Err(trouble) => {
            return Err(failure_of(trouble));
        },
    };
    let key = held(pem)?;
    if let Ok(Ok(again)) = open_key(key.pem()) {
        if same_bytes(again.as_slice(), key.pem()) {
            return Ok(key);
        }
    }
    Err(Failure::said(Reason::Crypto, "the key does not read back as it was written"))
}

/// A key that reads back opens as itself, and nothing says that it does not
/// open.
pub proof fn lemma_a_key_that_reads_back_opens(pem: Seq<u8>, failure: FailureView, before: Seq<char>)
    requires
        reads_back(pem),
        pem.len() <= MOST_BYTES,
    ensures
        opened_key(pem) == Some(Some(pem)),
        !unopened(failure, pem, before),
{
}

/// Generates an account key. What it is stored as reads back as the same key.
pub fn account_key() -> (r: Result<Account, Failure>)
    ensures
        match r {
            Ok(key) => point_of(key.stored()) is Some && reads_back(key.stored()),
            Err(failure) => keyless(failure@),
        },
{
    fresh_key()
}

/// Reads a stored key, whatever it is about.
pub(crate) fn key_in(pem: &[u8], before: &str) -> (r: Result<PrivateKey, Failure>)
    requires
        pem@.len() <= MOST_BYTES,
    ensures
        match r {
            Ok(key) => opened_key(pem@) == Some(Some(key.stored())),
            Err(failure) => unopened(failure@, pem@, before@),
        },
{
    match open_key(pem) {
        Ok(Ok(written)) => held(written),
        Ok(Err(error)) => Err(crypto("the key does not write: ", told(&error).as_str())),
        Err(error) => Err(crypto(before, told(&error).as_str())),
    }
}

/// Reads a stored account key back.
pub fn account_from_pem(pem: &[u8]) -> (r: Result<Account, Failure>)
    requires
        pem@.len() <= MOST_BYTES,
    ensures
        match r {
            Ok(key) => opened_key(pem@) == Some(Some(key.stored())),
            Err(failure) => unopened(failure@, pem@, "the stored account key does not open: "@),
        },
{
    key_in(pem, "the stored account key does not open: ")
}

/// Writes an account key out for the store to seal.
pub fn account_to_pem(key: &Account) -> (r: Result<Vec<u8>, Failure>)
    ensures
        r matches Ok(pem) && pem@ == key.stored() && pem@.len() <= MOST_BYTES,
{
    Ok(vstd::slice::slice_to_vec(key.pem()))
}

/// One digit of the URL safe alphabet.
pub open spec fn digit64(v: int) -> char {
    if v < 26 {
        (65 + v) as char
    } else if v < 52 {
        (71 + v) as char
    } else if v < 62 {
        (v - 4) as char
    } else if v == 62 {
        '-'
    } else {
        '_'
    }
}

/// Bytes in base64, with the URL safe alphabet and without padding
/// (RFC 4648): three bytes make four digits, and what is left over makes as
/// many as it needs.
pub open spec fn base64url_text(s: Seq<u8>) -> Seq<char>
    decreases s.len(),
{
    if s.len() == 0 {
        seq![]
    } else if s.len() == 1 {
        seq![digit64(s[0] as int / 4), digit64(s[0] as int % 4 * 16)]
    } else if s.len() == 2 {
        seq![
            digit64(s[0] as int / 4),
            digit64(s[0] as int % 4 * 16 + s[1] as int / 16),
            digit64(s[1] as int % 16 * 4),
        ]
    } else {
        seq![
            digit64(s[0] as int / 4),
            digit64(s[0] as int % 4 * 16 + s[1] as int / 16),
            digit64(s[1] as int % 16 * 4 + s[2] as int / 64),
            digit64(s[2] as int % 64),
        ] + base64url_text(s.skip(3))
    }
}

fn push_digit(out: &mut String, v: u8)
    requires
        v < 64,
    ensures
        final(out)@ == old(out)@.push(digit64(v as int)),
{
    let c = if v < 26 {
        (65 + v) as char
    } else if v < 52 {
        (71 + v) as char
    } else if v < 62 {
        (v - 4) as char
    } else if v == 62 {
        '-'
    } else {
        '_'
    };
    out.push(c);
}

/// Bytes as ACME carries them: base64url, no padding.
pub fn base64url(bytes: &[u8]) -> (r: String)
    ensures
        r@ == base64url_text(bytes@),
{
    let mut out = String::new();
    let mut at: usize = 0;
    assert(bytes@.skip(0) =~= bytes@);
    assert(out@ + base64url_text(bytes@.skip(0)) =~= base64url_text(bytes@));
    while bytes.len() - at >= 3
        invariant
            at <= bytes.len(),
            out@ + base64url_text(bytes@.skip(at as int)) == base64url_text(bytes@),
        decreases bytes.len() - at,
    {
        let (a, b, c) = (bytes[at], bytes[at + 1], bytes[at + 2]);
        let ghost before = out@;
        push_digit(&mut out, a / 4);
        push_digit(&mut out, a % 4 * 16 + b / 16);
        push_digit(&mut out, b % 16 * 4 + c / 64);
        push_digit(&mut out, c % 64);
        proof {
            let rest = bytes@.skip(at as int);
            assert(rest.skip(3) =~= bytes@.skip(at + 3));
            assert(out@ + base64url_text(bytes@.skip(at + 3)) =~= before + base64url_text(rest));
        }
        at += 3;
    }
    let ghost before = out@;
    let ghost rest = bytes@.skip(at as int);
    if bytes.len() - at == 1 {
        let a: u8 = bytes[at];
        push_digit(&mut out, a / 4);
        push_digit(&mut out, a % 4 * 16);
    } else if bytes.len() - at == 2 {
        let (a, b) = (bytes[at], bytes[at + 1]);
        push_digit(&mut out, a / 4);
        push_digit(&mut out, a % 4 * 16 + b / 16);
        push_digit(&mut out, b % 16 * 4);
    }
    assert(out@ =~= before + base64url_text(rest));
    out
}

/// Whether a character is one of the URL safe alphabet.
pub open spec fn url_safe(c: char) -> bool {
    ('A' <= c && c <= 'Z') || ('a' <= c && c <= 'z') || ('0' <= c && c <= '9') || c == '-' || c
        == '_'
}

/// Encoded bytes hold nothing but the URL safe alphabet: no `+`, no `/` and
/// no padding. And how long they are follows from how many bytes there were.
pub proof fn lemma_encoded_bytes_are_url_safe(s: Seq<u8>)
    ensures
        forall|i: int|
            0 <= i < base64url_text(s).len() ==> url_safe(#[trigger] base64url_text(s)[i]),
        base64url_text(s).len() == (s.len() * 4 + 2) / 3,
    decreases s.len(),
{
    if s.len() > 2 {
        lemma_encoded_bytes_are_url_safe(s.skip(3));
        let rest = base64url_text(s.skip(3));
        let whole = base64url_text(s);
        assert forall|i: int| 0 <= i < whole.len() implies url_safe(#[trigger] whole[i]) by {
            if i >= 4 {
                assert(whole[i] == rest[i - 4]);
            }
        }
    }
}

/// No two runs of bytes are encoded alike.
pub proof fn lemma_encoding_loses_nothing(left: Seq<u8>, right: Seq<u8>)
    requires
        base64url_text(left) == base64url_text(right),
    ensures
        left == right,
    decreases left.len(),
{
    let l = base64url_text(left);
    let r = base64url_text(right);
    lemma_encoded_bytes_are_url_safe(left);
    lemma_encoded_bytes_are_url_safe(right);
    assert(left.len() == right.len());
    if left.len() == 0 {
        assert(left =~= right);
    } else {
        let (a, d) = (left[0] as int, right[0] as int);
        assert(l[0] == digit64(a / 4) && r[0] == digit64(d / 4));
        lemma_digits_differ(a / 4, d / 4);
        if left.len() == 1 {
            assert(l[1] == digit64(a % 4 * 16) && r[1] == digit64(d % 4 * 16));
            lemma_digits_differ(a % 4 * 16, d % 4 * 16);
            assert(left =~= right);
        } else {
            let (b, e) = (left[1] as int, right[1] as int);
            assert(l[1] == digit64(a % 4 * 16 + b / 16) && r[1] == digit64(d % 4 * 16 + e / 16));
            lemma_digits_differ(a % 4 * 16 + b / 16, d % 4 * 16 + e / 16);
            if left.len() == 2 {
                assert(l[2] == digit64(b % 16 * 4) && r[2] == digit64(e % 16 * 4));
                lemma_digits_differ(b % 16 * 4, e % 16 * 4);
                assert(left =~= right);
            } else {
                let (c, f) = (left[2] as int, right[2] as int);
                assert(l[2] == digit64(b % 16 * 4 + c / 64) && r[2] == digit64(
                    e % 16 * 4 + f / 64,
                ));
                assert(l[3] == digit64(c % 64) && r[3] == digit64(f % 64));
                lemma_digits_differ(b % 16 * 4 + c / 64, e % 16 * 4 + f / 64);
                lemma_digits_differ(c % 64, f % 64);
                assert(base64url_text(left.skip(3)) =~= l.skip(4));
                assert(base64url_text(right.skip(3)) =~= r.skip(4));
                lemma_encoding_loses_nothing(left.skip(3), right.skip(3));
                assert(left =~= seq![left[0], left[1], left[2]] + left.skip(3));
                assert(right =~= seq![right[0], right[1], right[2]] + right.skip(3));
            }
        }
    }
}

proof fn lemma_digits_differ(left: int, right: int)
    requires
        0 <= left < 64,
        0 <= right < 64,
        digit64(left) == digit64(right),
    ensures
        left == right,
{
    assert('-' as int == 45);
    assert('_' as int == 95);
}

/// A public key as a JSON Web Key, in the one order a thumbprint is taken
/// over (RFC 7638): the required fields, sorted, with no white space.
pub open spec fn jwk_text(point: (Seq<u8>, Seq<u8>)) -> Seq<char> {
    "{\"crv\":\"P-256\",\"kty\":\"EC\",\"x\":\""@ + base64url_text(point.0) + "\",\"y\":\""@
        + base64url_text(point.1) + "\"}"@
}

/// A public key as a JSON Web Key, out of the coordinates of its point.
pub fn jwk_from(x: &[u8], y: &[u8]) -> (r: String)
    ensures
        r@ == jwk_text((x@, y@)),
{
    let mut out = "{\"crv\":\"P-256\",\"kty\":\"EC\",\"x\":\"".to_owned();
    out.append(base64url(x).as_str());
    out.append("\",\"y\":\"");
    out.append(base64url(y).as_str());
    out.append("\"}");
    out
}

/// Whether this is said about a key that has no point on the curve.
pub open spec fn pointless(failure: FailureView) -> bool {
    told_as(failure, "the account key has no public point: "@)
}

/// Whether this is said when no digest could be computed.
pub open spec fn undigested(failure: FailureView) -> bool {
    told_as(failure, "no digest: "@)
}

/// The public half of a key as a JSON Web Key.
pub fn jwk(key: &Account) -> (r: Result<String, Failure>)
    ensures
        match r {
            Ok(text) => point_of(key.stored()) matches Some(point) && text@ == jwk_text(point),
            Err(failure) => point_of(key.stored()) is None && pointless(failure@),
        },
{
    match public_point(key.pem()) {
        Ok((x, y)) => Ok(jwk_from(x.as_slice(), y.as_slice())),
        Err(error) => Err(crypto("the account key has no public point: ", told(&error).as_str())),
    }
}

/// The digest of a text, as ACME carries it.
pub open spec fn digest_text(text: Seq<char>) -> Seq<char> {
    base64url_text(sha256_of(encode_utf8(text)))
}

fn digest(text: &str) -> (r: Result<String, Failure>)
    ensures
        match r {
            Ok(digest) => digest@ == digest_text(text@) && digest@.len() == 43,
            Err(failure) => undigested(failure@),
        },
{
    match sha256(text.as_bytes()) {
        Ok(bytes) => {
            proof {
                lemma_encoded_bytes_are_url_safe(bytes@);
            }
            Ok(base64url(bytes.as_slice()))
        },
        Err(error) => Err(crypto("no digest: ", told(&error).as_str())),
    }
}

/// The thumbprint of a key: the digest of the JSON Web Key that is sent.
pub fn thumbprint(key: &Account) -> (r: Result<String, Failure>)
    ensures
        match r {
            Ok(text) => point_of(key.stored()) matches Some(point) && text@ == digest_text(
                jwk_text(point),
            ) && text@.len() == 43,
            Err(failure) => (point_of(key.stored()) is None && pointless(failure@)) || undigested(
                failure@,
            ),
        },
{
    let written = jwk(key)?;
    digest(written.as_str())
}

/// The answer to a challenge: the token tied to the account key.
pub open spec fn answer_text(token: Seq<char>, thumbprint: Seq<char>) -> Seq<char> {
    token + "."@ + thumbprint
}

/// The answer to a challenge: the token tied to the account key.
pub fn key_authorization(token: &str, thumbprint: &str) -> (r: String)
    ensures
        r@ == answer_text(token@, thumbprint@),
{
    let mut out = token.to_owned();
    out.append(".");
    out.append(thumbprint);
    out
}

/// The value a DNS record answers a challenge with: a digest of the answer
/// and not the answer itself.
pub fn record_value(token: &str, thumbprint: &str) -> (r: Result<String, Failure>)
    ensures
        match r {
            Ok(value) => value@ == digest_text(answer_text(token@, thumbprint@)) && value@.len()
                == 43,
            Err(failure) => undigested(failure@),
        },
{
    let answer = key_authorization(token, thumbprint);
    digest(answer.as_str())
}

/// How the account is named in an envelope.
#[derive(Clone, Copy, Debug, PartialEq, Eq, Structural)]
pub enum Identify {
    /// By its key, for a server that does not know it yet.
    Key,
    /// By the address the server gave it.
    Account,
}

/// The header of an envelope, with what names the account in it.
pub open spec fn header_text(naming: Seq<char>, nonce: Seq<char>, url: Seq<char>) -> Seq<char> {
    "{\"alg\":\"ES256\","@ + naming + ",\"nonce\":\""@ + json_escaped(nonce) + "\",\"url\":\""@
        + json_escaped(url) + "\"}"@
}

/// What names the account by its key.
pub open spec fn by_key(jwk: Seq<char>) -> Seq<char> {
    "\"jwk\":"@ + jwk
}

/// What names the account by its address.
pub open spec fn by_address(account: Seq<char>) -> Seq<char> {
    "\"kid\":\""@ + json_escaped(account) + "\""@
}

/// The header of an envelope.
///
/// What comes from outside is escaped, so a quote in it cannot write another
/// field.
pub fn header(naming: &str, nonce: &str, url: &str) -> (r: String)
    ensures
        r@ == header_text(naming@, nonce@, url@),
{
    let mut out = "{\"alg\":\"ES256\",".to_owned();
    out.append(naming);
    out.append(",\"nonce\":\"");
    out.append(escape(nonce).as_str());
    out.append("\",\"url\":\"");
    out.append(escape(url).as_str());
    out.append("\"}");
    out
}

/// A text as it travels inside an envelope.
pub open spec fn carried(text: Seq<char>) -> Seq<char> {
    base64url_text(encode_utf8(text))
}

/// What a request that only reads signs over is empty, not absent.
pub open spec fn payload_text(payload: Option<Seq<char>>) -> Seq<char> {
    match payload {
        Some(payload) => carried(payload),
        None => seq![],
    }
}

/// The signed envelope.
pub open spec fn envelope_text(
    protected: Seq<char>,
    payload: Seq<char>,
    signature: Seq<u8>,
) -> Seq<char> {
    "{\"protected\":\""@ + protected + "\",\"payload\":\""@ + payload + "\",\"signature\":\""@
        + base64url_text(signature) + "\"}"@
}

/// What an envelope is signed over.
pub open spec fn signed_text(protected: Seq<char>, payload: Seq<char>) -> Seq<char> {
    protected + "."@ + payload
}

/// The signed envelope, out of a signature over its parts.
pub fn envelope(protected: &str, payload: &str, signature: &[u8]) -> (r: String)
    ensures
        r@ == envelope_text(protected@, payload@, signature@),
{
    let mut out = "{\"protected\":\"".to_owned();
    out.append(protected);
    out.append("\",\"payload\":\"");
    out.append(payload);
    out.append("\",\"signature\":\"");
    out.append(base64url(signature).as_str());
    out.append("\"}");
    out
}

/// Whether a text is an envelope that a key signed over a header and a
/// payload, with the two numbers of the signature and nothing around them.
pub open spec fn is_signed(
    text: Seq<char>,
    key: Seq<u8>,
    header: Seq<char>,
    payload: Seq<char>,
) -> bool {
    exists|signature: Seq<u8>| #[trigger]
        es256_signs(signature, key, encode_utf8(signed_text(carried(header), payload)))
            && signature.len() == 64 && text == envelope_text(carried(header), payload, signature)
}

/// What is said about signing as an account nobody named.
pub open spec fn nameless() -> FailureView {
    failed(Reason::Protocol, "the server has not named the account to sign as"@)
}

/// Whether a text is a request that a key signed, with the account named by
/// its key or by its address.
pub open spec fn signs(
    text: Seq<char>,
    key: Seq<u8>,
    identify: Identify,
    account: Option<Seq<char>>,
    url: Seq<char>,
    nonce: Seq<char>,
    payload: Option<Seq<char>>,
) -> bool {
    match (identify, account) {
        (Identify::Key, _) => is_signed(
            text,
            key,
            header_text(by_key(jwk_text(point_of(key)->0)), nonce, url),
            payload_text(payload),
        ),
        (Identify::Account, Some(account)) => is_signed(
            text,
            key,
            header_text(by_address(account), nonce, url),
            payload_text(payload),
        ),
        (Identify::Account, None) => false,
    }
}

/// Whether this is why a request is not signed: nobody named the account to
/// sign as, or OpenSSL could not sign.
pub open spec fn unsigned(
    failure: FailureView,
    identify: Identify,
    account: Option<Seq<char>>,
) -> bool {
    if identify == Identify::Account && account is None {
        failure == nameless()
    } else {
        told_as(failure, "no signature: "@) || (identify == Identify::Key && pointless(failure))
    }
}

/// Signs one request.
///
/// The account is named by its key or by its address, never by both. The
/// signature itself is OpenSSL's to make; when it cannot, that is a fault of
/// kind [`Reason::Crypto`].
pub fn sign(
    key: &Account,
    identify: Identify,
    account: Option<&str>,
    url: &str,
    nonce: &str,
    payload: Option<&str>,
) -> (r: Result<String, Failure>)
    ensures
        match r {
            Ok(text) => signs(
                text@,
                key.stored(),
                identify,
                lent(account),
                url@,
                nonce@,
                lent(payload),
            ),
            Err(failure) => unsigned(failure@, identify, lent(account)),
        },
{
    let mut naming = String::new();
    match identify {
        Identify::Key => {
            let written = jwk(key)?;
            naming = "\"jwk\":".to_owned();
            naming.append(written.as_str());
        },
        Identify::Account => match account {
            Some(account) => {
                naming = "\"kid\":\"".to_owned();
                naming.append(escape(account).as_str());
                naming.append("\"");
            },
            None => {
                return Err(
                    Failure::said(
                        Reason::Protocol,
                        "the server has not named the account to sign as",
                    ),
                );
            },
        },
    }
    let head = header(naming.as_str(), nonce, url);
    let protected = base64url(head.as_str().as_bytes());
    let mut body = String::new();
    assert(body@ =~= seq![]);
    if let Some(payload) = payload {
        body = base64url(payload.as_bytes());
    }
    let mut over = protected.clone();
    over.append(".");
    over.append(body.as_str());
    match es256(key.pem(), over.as_str().as_bytes()) {
        Ok((first, second)) => {
            let mut signature = first;
            let ghost half = signature@;
            crate::bytes::push_all(&mut signature, second.as_slice());
            assert(es256_signs(
                signature@,
                key.stored(),
                encode_utf8(signed_text(carried(head@), payload_text(lent(payload)))),
            ));
            Ok(envelope(protected.as_str(), body.as_str(), signature.as_slice()))
        },
        Err(error) => Err(crypto("no signature: ", told(&error).as_str())),
    }
}

/// What one digit of the URL safe alphabet is worth.
pub open spec fn worth64(c: char) -> int {
    if 65 <= c as u32 <= 90 {
        c as u32 - 65
    } else if 97 <= c as u32 <= 122 {
        c as u32 - 97 + 26
    } else if 48 <= c as u32 <= 57 {
        c as u32 - 48 + 52
    } else if c as u32 == 45 {
        62
    } else if c as u32 == 95 {
        63
    } else {
        -1
    }
}

proof fn lemma_a_digit_is_worth_its_value(v: int)
    requires
        0 <= v < 64,
    ensures
        worth64(digit64(v)) == v,
{
    assert('-' as u32 == 45 && '_' as u32 == 95);
}

/// Three bytes and the four digits they are written as are worth the same,
/// most significant first; and what is left over at the end is worth the same
/// with as many zeros behind it as the digits need.
pub proof fn lemma_digits_are_worth_what_the_bytes_are(s: Seq<u8>)
    ensures
        ({
            let text = base64url_text(s);
            &&& s.len() >= 3 ==> text.len() >= 4 && worth64(text[0]) * 262144 + worth64(text[1])
                * 4096 + worth64(text[2]) * 64 + worth64(text[3]) == s[0] * 65536 + s[1] * 256 + s[2]
                && text.skip(4) == base64url_text(s.skip(3))
            &&& s.len() == 2 ==> text.len() == 3 && worth64(text[0]) * 4096 + worth64(text[1]) * 64
                + worth64(text[2]) == (s[0] * 256 + s[1]) * 4
            &&& s.len() == 1 ==> text.len() == 2 && worth64(text[0]) * 64 + worth64(text[1]) == s[0]
                * 16
            &&& s.len() == 0 ==> text.len() == 0
        }),
{
    let text = base64url_text(s);
    if s.len() == 1 {
        lemma_a_digit_is_worth_its_value(s[0] as int / 4);
        lemma_a_digit_is_worth_its_value(s[0] as int % 4 * 16);
    } else if s.len() == 2 {
        lemma_a_digit_is_worth_its_value(s[0] as int / 4);
        lemma_a_digit_is_worth_its_value(s[0] as int % 4 * 16 + s[1] as int / 16);
        lemma_a_digit_is_worth_its_value(s[1] as int % 16 * 4);
    } else if s.len() >= 3 {
        lemma_a_digit_is_worth_its_value(s[0] as int / 4);
        lemma_a_digit_is_worth_its_value(s[0] as int % 4 * 16 + s[1] as int / 16);
        lemma_a_digit_is_worth_its_value(s[1] as int % 16 * 4 + s[2] as int / 64);
        lemma_a_digit_is_worth_its_value(s[2] as int % 64);
        assert(text.skip(4) =~= base64url_text(s.skip(3)));
    }
}

/// A signed request says in its header how it is signed, as whom, with which
/// nonce and for which address; it carries the payload behind the header, or
/// nothing where there is none; and it is signed over exactly those two with
/// a dot between them.
pub proof fn lemma_a_signed_request_is_laid_out_so(
    text: Seq<char>,
    key: Seq<u8>,
    identify: Identify,
    account: Option<Seq<char>>,
    url: Seq<char>,
    nonce: Seq<char>,
    payload: Option<Seq<char>>,
    naming: Seq<char>,
    first: Seq<char>,
    second: Seq<char>,
)
    requires
        signs(text, key, identify, account, url, nonce, payload),
        naming == (match identify {
            Identify::Key => "\"jwk\":"@ + jwk_text(point_of(key)->0),
            Identify::Account => "\"kid\":\""@ + json_escaped(account->0) + "\""@,
        }),
        first == base64url_text(
            encode_utf8(
                "{\"alg\":\"ES256\","@ + naming + ",\"nonce\":\""@ + json_escaped(nonce)
                    + "\",\"url\":\""@ + json_escaped(url) + "\"}"@,
            ),
        ),
        second == (match payload {
            Some(payload) => base64url_text(encode_utf8(payload)),
            None => Seq::<char>::empty(),
        }),
    ensures
        identify == Identify::Account ==> account is Some,
        exists|signature: Seq<u8>|
            {
                &&& #[trigger] es256_signs(signature, key, encode_utf8(first + "."@ + second))
                &&& signature.len() == 64
                &&& text == "{\"protected\":\""@ + first + "\",\"payload\":\""@ + second
                    + "\",\"signature\":\""@ + base64url_text(signature) + "\"}"@
            },
{
    let header = match identify {
        Identify::Key => header_text(by_key(jwk_text(point_of(key)->0)), nonce, url),
        Identify::Account => header_text(by_address(account->0), nonce, url),
    };
    assert(first == carried(header));
    assert(second == payload_text(payload));
    assert(is_signed(text, key, header, second));
    let signature = choose|signature: Seq<u8>| #[trigger]
        es256_signs(signature, key, encode_utf8(signed_text(carried(header), second)))
            && signature.len() == 64 && text == envelope_text(carried(header), second, signature);
    assert(es256_signs(signature, key, encode_utf8(first + "."@ + second)));
}

/// A key is written with its fields sorted and its two coordinates in their
/// order, which is what makes its fingerprint the same everywhere.
pub proof fn lemma_a_key_is_written_in_one_order(x: Seq<u8>, y: Seq<u8>)
    ensures
        jwk_text((x, y)) == "{\"crv\":\"P-256\",\"kty\":\"EC\",\"x\":\""@ + base64url_text(x)
            + "\",\"y\":\""@ + base64url_text(y) + "\"}"@,
{
}

/// An answer ties the token to the account: the token, a dot and the
/// fingerprint, and nothing else.
pub proof fn lemma_an_answer_ties_the_token_to_the_account(
    token: Seq<char>,
    thumbprint: Seq<char>,
)
    ensures
        token.is_prefix_of(answer_text(token, thumbprint)),
        answer_text(token, thumbprint).len() == token.len() + 1 + thumbprint.len(),
        answer_text(token, thumbprint)[token.len() as int] == '.',
        answer_text(token, thumbprint).skip((token.len() + 1) as int) == thumbprint,
{
    reveal_strlit(".");
    let text = answer_text(token, thumbprint);
    assert(text.subrange(0, token.len() as int) =~= token);
    assert(text.skip((token.len() + 1) as int) =~= thumbprint);
}

} // verus!
