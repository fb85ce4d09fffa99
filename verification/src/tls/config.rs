//! The parts of the configuration that certificates are about.

use vstd::prelude::*;
use vstd::string::*;

use crate::net::IpAddr;

verus! {

/// The address of the Cloudflare API, when none is configured.
pub const CLOUDFLARE_API_BASE: &'static str = "https://api.cloudflare.com/client/v4";

/// The identity of a certificate.
#[derive(Clone, Debug, PartialEq, Eq, PartialOrd, Ord, Hash)]
pub struct CertificateId {
    pub text: String,
}

/// The identity of a stored secret.
#[derive(Clone, Debug, PartialEq, Eq, PartialOrd, Ord, Hash)]
pub struct SecretId {
    pub text: String,
}

/// The identity of a DNS provider.
#[derive(Clone, Debug, PartialEq, Eq, PartialOrd, Ord, Hash)]
pub struct DnsProviderId {
    pub text: String,
}

impl CertificateId {
    pub fn new(text: &str) -> (r: Self)
        ensures
            r.text@ == text@,
    {
        CertificateId { text: text.to_owned() }
    }

    pub fn as_str(&self) -> (r: &str)
        ensures
            r@ == self.text@,
    {
        self.text.as_str()
    }

    pub fn copy(&self) -> (r: Self)
        ensures
            r == *self,
    {
        CertificateId { text: self.text.clone() }
    }
}

impl SecretId {
    pub fn new(text: &str) -> (r: Self)
        ensures
            r.text@ == text@,
    {
        SecretId { text: text.to_owned() }
    }

    pub fn as_str(&self) -> (r: &str)
        ensures
            r@ == self.text@,
    {
        self.text.as_str()
    }

    pub fn copy(&self) -> (r: Self)
        ensures
            r == *self,
    {
        SecretId { text: self.text.clone() }
    }
}

impl DnsProviderId {
    pub fn new(text: &str) -> (r: Self)
        ensures
            r.text@ == text@,
    {
        DnsProviderId { text: text.to_owned() }
    }

    pub fn as_str(&self) -> (r: &str)
        ensures
            r@ == self.text@,
    {
        self.text.as_str()
    }
}

/// Where a certificate comes from.
#[derive(Clone, Debug, PartialEq, Eq)]
pub enum CertificateSource {
    /// An ACME server, with the challenge answered over HTTP.
    AcmeHttp01,
    /// An ACME server, with the challenge answered in DNS.
    AcmeDns01 { provider: DnsProviderId },
    /// Somebody uploaded it.
    ManualUpload,
}

impl CertificateSource {
    pub fn copy(&self) -> (r: Self)
        ensures
            r == *self,
    {
        match self {
            CertificateSource::AcmeHttp01 => CertificateSource::AcmeHttp01,
            CertificateSource::AcmeDns01 { provider } => CertificateSource::AcmeDns01 {
                provider: DnsProviderId { text: provider.text.clone() },
            },
            CertificateSource::ManualUpload => CertificateSource::ManualUpload,
        }
    }
}

/// The window a certificate is usable in, in seconds since the epoch.
#[derive(Clone, Copy, Debug, PartialEq, Eq, Structural)]
pub struct CertificateValidity {
    pub not_before_unix: i64,
    pub not_after_unix: i64,
}

/// One certificate.
#[derive(Clone, Debug, PartialEq, Eq)]
pub struct Certificate {
    pub id: CertificateId,
    /// The names a handshake is matched against.
    pub sni_names: Vec<String>,
    pub source: CertificateSource,
    /// The window it is usable in, once it has been obtained.
    pub validity: Option<CertificateValidity>,
    /// Where its chain is stored, once it has been obtained.
    pub chain: Option<SecretId>,
    /// Where its private key is stored, once it has been obtained.
    pub private_key: Option<SecretId>,
}

/// What texts a list holds.
pub open spec fn texts(list: Seq<String>) -> Seq<Seq<char>> {
    Seq::new(list.len(), |i: int| list[i]@)
}

/// What a certificate is, apart from how it is held.
pub struct CertificateView {
    pub id: Seq<char>,
    pub sni_names: Seq<Seq<char>>,
    pub source: CertificateSource,
    pub validity: Option<CertificateValidity>,
    pub chain: Option<Seq<char>>,
    pub private_key: Option<Seq<char>>,
}

/// What an optional identity is.
pub open spec fn identity(id: Option<SecretId>) -> Option<Seq<char>> {
    match id {
        Some(id) => Some(id.text@),
        None => None,
    }
}

impl View for Certificate {
    type V = CertificateView;

    open spec fn view(&self) -> CertificateView {
        CertificateView {
            id: self.id.text@,
            sni_names: texts(self.sni_names@),
            source: self.source,
            validity: self.validity,
            chain: identity(self.chain),
            private_key: identity(self.private_key),
        }
    }
}

/// The same texts once more.
pub fn copy_texts(list: &[String]) -> (r: Vec<String>)
    ensures
        texts(r@) == texts(list@),
        r@ == list@,
{
    let mut out: Vec<String> = Vec::new();
    let mut at: usize = 0;
    while at < list.len()
        invariant
            at <= list.len(),
            out@ == list@.take(at as int),
        decreases list.len() - at,
    {
        out.push(list[at].clone());
        assert(out@ =~= list@.take(at + 1));
        at += 1;
    }
    assert(list@.take(list@.len() as int) =~= list@);
    out
}

/// Texts with something between them.
pub open spec fn joined(list: Seq<Seq<char>>, between: Seq<char>) -> Seq<char>
    decreases list.len(),
{
    if list.len() == 0 {
        seq![]
    } else if list.len() == 1 {
        list[0]
    } else {
        joined(list.drop_last(), between) + between + list.last()
    }
}

/// Texts with something between them.
pub fn join(list: &[String], between: &str) -> (r: String)
    ensures
        r@ == joined(texts(list@), between@),
{
    let ghost all = texts(list@);
    let mut out = String::new();
    let mut at: usize = 0;
    assert(out@ =~= joined(all.take(0), between@));
    while at < list.len()
        invariant
            at <= list.len(),
            all == texts(list@),
            out@ == joined(all.take(at as int), between@),
        decreases list.len() - at,
    {
        proof {
            assert(all.take(at + 1).drop_last() =~= all.take(at as int));
            assert(all.take(at + 1).last() == list@[at as int]@);
        }
        if at > 0 {
            out.append(between);
        }
        out.append(list[at].as_str());
        assert(out@ =~= joined(all.take(at + 1), between@));
        at += 1;
    }
    assert(all.take(all.len() as int) =~= all);
    out
}

/// The same identity once more.
pub fn copy_identity(id: &Option<SecretId>) -> (r: Option<SecretId>)
    ensures
        r == *id,
{
    match id {
        Some(held) => Some(held.copy()),
        None => None,
    }
}

impl Certificate {
    /// The same certificate once more.
    pub fn copy(&self) -> (r: Self)
        ensures
            r@ == self@,
    {
        Certificate {
            id: self.id.copy(),
            sni_names: copy_texts(self.sni_names.as_slice()),
            source: self.source.copy(),
            validity: self.validity,
            chain: copy_identity(&self.chain),
            private_key: copy_identity(&self.private_key),
        }
    }
}

/// What a list of certificates is, apart from how it is held.
pub open spec fn certificates_seen(list: Seq<Certificate>) -> Seq<CertificateView> {
    Seq::new(list.len(), |i: int| list[i]@)
}

/// How an ACME server is reached.
#[derive(Clone, Debug, PartialEq, Eq)]
pub struct AcmeSettings {
    pub directory_url: String,
    pub contact_email: String,
    pub accepted_terms: bool,
    /// The root to trust besides the machine's own, when there is one.
    pub trusted_root_pem: String,
}

/// The algorithm a transaction signature uses.
#[derive(Clone, Copy, Debug, PartialEq, Eq, Structural)]
pub enum TsigAlgorithm {
    HmacSha256,
    HmacSha512,
}

/// How a DNS provider is reached.
#[derive(Clone, Debug, PartialEq, Eq)]
pub enum DnsProviderConnection {
    /// By dynamic updates of a name server.
    Rfc2136 {
        server: IpAddr,
        port: u16,
        zone: String,
        tsig_key_name: String,
        tsig_algorithm: TsigAlgorithm,
    },
    /// By the Cloudflare API.
    Cloudflare { zone_id: String, api_base: String },
}

/// Somewhere challenge records can be written.
#[derive(Clone, Debug, PartialEq, Eq)]
pub struct DnsProvider {
    pub id: DnsProviderId,
    pub connection: DnsProviderConnection,
    /// How long a written record may take to become visible.
    pub propagation_timeout_secs: u32,
}

/// The configuration, as far as certificates go.
#[derive(Clone, Debug, PartialEq, Eq)]
pub struct Config {
    pub certificates: Vec<Certificate>,
}

/// Texts are joined in their order, with what goes between them between each
/// two and at neither end.
pub proof fn lemma_texts_are_joined_in_order(
    list: Seq<Seq<char>>,
    text: Seq<char>,
    between: Seq<char>,
)
    ensures
        joined(seq![], between) == Seq::<char>::empty(),
        joined(seq![text], between) == text,
        list.len() > 0 ==> joined(list.push(text), between) == joined(list, between) + between
            + text,
{
    assert(list.push(text).drop_last() =~= list);
}

} // verus!
