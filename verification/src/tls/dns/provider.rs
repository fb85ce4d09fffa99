//! Where challenge records go, and how a provider is reached.

use vstd::prelude::*;
use vstd::string::*;
use vstd::utf8::encode_utf8;

use crate::net::SocketAddr;
use crate::text::{
    behind_prefix, characters, from_characters, strip_prefix, trim, trim_trailing, trimmed,
    without_trailing,
};
use crate::tls::config::{
    DnsProvider, DnsProviderConnection, TsigAlgorithm, CLOUDFLARE_API_BASE,
};
use crate::tls::crypto::{base64_decode, base64_decoded, told, MOST_BYTES};
use crate::tls::error::{failed, Failure, FailureView, Reason};

verus! {

/// The label a challenge record sits under (RFC 8555 section 8.4).
pub const CHALLENGE_LABEL: &'static str = "_acme-challenge";

/// How long one API call may take, in seconds.
pub const API_TIMEOUT: u64 = 30;

/// The name a wildcard stands for, and any other name itself.
pub open spec fn stood_for(identifier: Seq<char>) -> Seq<char> {
    match behind_prefix(identifier, "*."@) {
        Some(base) => base,
        None => identifier,
    }
}

/// The record name that answers the challenge for one identifier.
pub open spec fn challenge_at(identifier: Seq<char>) -> Seq<char> {
    CHALLENGE_LABEL@ + "."@ + stood_for(identifier)
}

/// The record name that answers the challenge for one identifier.
///
/// A wildcard is proven at the name it stands for, which is why one name can
/// carry two values.
pub fn challenge_name(identifier: &str) -> (r: String)
    ensures
        r@ == challenge_at(identifier@),
{
    let held = characters(identifier);
    let mut out = CHALLENGE_LABEL.to_owned();
    out.append(".");
    match strip_prefix(held.as_slice(), "*.") {
        Some(base) => {
            out.append(from_characters(base).as_str());
        },
        None => {
            out.append(identifier);
        },
    }
    out
}

/// An apex and its wildcard are both answered at one name.
pub proof fn lemma_a_wildcard_is_proven_at_its_base(base: Seq<char>)
    requires
        behind_prefix(base, "*."@) is None,
    ensures
        challenge_at("*."@ + base) == challenge_at(base),
{
    reveal_strlit("*.");
    let starred = "*."@ + base;
    assert(starred.take(2) =~= "*."@);
    assert(starred.skip(2) =~= base);
}

/// What is said about a provider that is reached as another kind than it is.
pub open spec fn mismatch(id: Seq<char>) -> FailureView {
    failed(Reason::Configuration, id + " was reached as a kind of provider it is not"@)
}

fn mismatched(provider: &DnsProvider) -> (r: Failure)
    ensures
        r@ == mismatch(provider.id.text@),
{
    let mut said = provider.id.text.clone();
    said.append(" was reached as a kind of provider it is not");
    Failure::new(Reason::Configuration, said)
}

/// What one dynamic update needs to reach its name server.
pub struct Update {
    /// Where the update goes.
    pub server: SocketAddr,
    /// The zone the record is written into.
    pub zone: String,
    /// The name of the shared key.
    pub key_name: String,
    /// The algorithm the signature uses.
    pub algorithm: TsigAlgorithm,
    /// The shared key itself, decoded.
    pub secret: Vec<u8>,
}

impl Update {
    /// Whether this is how a provider's name server is reached with a key.
    pub open spec fn reaches(self, connection: DnsProviderConnection, secret: Seq<u8>) -> bool {
        connection matches DnsProviderConnection::Rfc2136 {
            server,
            port,
            zone,
            tsig_key_name,
            tsig_algorithm,
        } && {
            &&& self.server == (SocketAddr { address: server, port })
            &&& self.zone@ == zone@
            &&& self.key_name@ == tsig_key_name@
            &&& self.algorithm == tsig_algorithm
            &&& self.secret@ == secret
        }
    }
}

/// How a provider's name server is reached, out of what its stored key
/// decodes to.
pub fn update_from(provider: &DnsProvider, decoded: Result<Vec<u8>, String>) -> (r: Result<
    Update,
    Failure,
>)
    ensures
        match provider.connection {
            DnsProviderConnection::Cloudflare { .. } => r matches Err(failure) && failure@
                == mismatch(provider.id.text@),
            DnsProviderConnection::Rfc2136 { .. } => match decoded {
                Err(error) => r matches Err(failure) && failure@ == failed(
                    Reason::Configuration,
                    "the shared key of "@ + provider.id.text@ + " is not readable as base64: "@
                        + error@,
                ),
                Ok(secret) => if secret@.len() == 0 {
                    r matches Err(failure) && failure@ == failed(
                        Reason::Configuration,
                        "the shared key of "@ + provider.id.text@ + " is empty"@,
                    )
                } else {
                    r matches Ok(update) && update.reaches(provider.connection, secret@)
                },
            },
        },
{
    match &provider.connection {
        DnsProviderConnection::Cloudflare { .. } => Err(mismatched(provider)),
        DnsProviderConnection::Rfc2136 { server, port, zone, tsig_key_name, tsig_algorithm } => {
            let secret = match decoded {
                Ok(secret) => secret,
                Err(error) => {
                    let mut said = "the shared key of ".to_owned();
                    said.append(provider.id.as_str());
                    said.append(" is not readable as base64: ");
                    said.append(error.as_str());
                    return Err(Failure::new(Reason::Configuration, said));
                },
            };
            if secret.len() == 0 {
                let mut said = "the shared key of ".to_owned();
                said.append(provider.id.as_str());
                said.append(" is empty");
                return Err(Failure::new(Reason::Configuration, said));
            }
            Ok(
                Update {
                    server: SocketAddr { address: *server, port: *port },
                    zone: zone.clone(),
                    key_name: tsig_key_name.clone(),
                    algorithm: *tsig_algorithm,
                    secret,
                },
            )
        },
    }
}

/// Whether this is what comes of reaching a provider's name server with the
/// key an operator stored.
///
/// What is said about a key that is not base64 ends in OpenSSL's own words.
pub open spec fn update_reached(
    provider: DnsProvider,
    secret: Seq<char>,
    outcome: Result<Update, Failure>,
) -> bool {
    match provider.connection {
        DnsProviderConnection::Cloudflare { .. } => outcome matches Err(failure) && failure@
            == mismatch(provider.id.text@),
        DnsProviderConnection::Rfc2136 { .. } => match base64_decoded(trimmed(secret)) {
            None => outcome matches Err(failure) && failure@.reason == Reason::Configuration && (
            "the shared key of "@ + provider.id.text@
                + " is not readable as base64: "@).is_prefix_of(failure@.detail),
            Some(decoded) => if decoded.len() == 0 {
                outcome matches Err(failure) && failure@ == failed(
                    Reason::Configuration,
                    "the shared key of "@ + provider.id.text@ + " is empty"@,
                )
            } else {
                outcome matches Ok(update) && update.reaches(provider.connection, decoded)
            },
        },
    }
}

/// How a provider's name server is reached.
///
/// The stored value is what an operator copies out of the name server's own
/// configuration, which is base64.
pub fn update_connection(provider: &DnsProvider, secret: &str) -> (r: Result<Update, Failure>)
    requires
        encode_utf8(trimmed(secret@)).len() <= MOST_BYTES,
    ensures
        update_reached(*provider, secret@, r),
{
    let held = characters(secret);
    let text = from_characters(trim(held.as_slice()));
    let decoded = match base64_decode(text.as_str()) {
        Ok(decoded) => Ok(decoded),
        Err(error) => Err(told(&error)),
    };
    update_from(provider, decoded)
}

/// What one API call needs.
pub struct Api {
    /// Where the API lives, with no trailing slash.
    pub base: String,
    /// The zone the record is written into.
    pub zone_id: String,
    /// The bearer token.
    pub token: String,
}

/// The address of an API: the one that is configured, or the usual one, with
/// no slash at its end.
pub open spec fn api_at(configured: Seq<char>) -> Seq<char> {
    without_trailing(
        if configured.len() == 0 {
            CLOUDFLARE_API_BASE@
        } else {
            configured
        },
        '/',
    )
}

/// Whether this is what comes of reaching a provider's API with the token an
/// operator stored.
pub open spec fn api_reached(
    provider: DnsProvider,
    secret: Seq<char>,
    outcome: Result<Api, Failure>,
) -> bool {
    match provider.connection {
        DnsProviderConnection::Rfc2136 { .. } => outcome matches Err(failure) && failure@
            == mismatch(provider.id.text@),
        DnsProviderConnection::Cloudflare { zone_id, api_base } => if trimmed(secret).len() == 0 {
            outcome matches Err(failure) && failure@ == failed(
                Reason::Configuration,
                "the API token of "@ + provider.id.text@ + " is empty"@,
            )
        } else {
            outcome matches Ok(api) && api.base@ == api_at(api_base@) && api.zone_id@ == zone_id@
                && api.token@ == trimmed(secret)
        },
    }
}

/// How a provider's API is reached.
pub fn api_connection(provider: &DnsProvider, secret: &str) -> (r: Result<Api, Failure>)
    ensures
        api_reached(*provider, secret@, r),
{
    match &provider.connection {
        DnsProviderConnection::Rfc2136 { .. } => Err(mismatched(provider)),
        DnsProviderConnection::Cloudflare { zone_id, api_base } => {
            let held = characters(secret);
            let token = trim(held.as_slice());
            if token.len() == 0 {
                let mut said = "the API token of ".to_owned();
                said.append(provider.id.as_str());
                said.append(" is empty");
                return Err(Failure::new(Reason::Configuration, said));
            }
            let configured = characters(api_base.as_str());
            let usual = characters(CLOUDFLARE_API_BASE);
            let base = if configured.len() == 0 {
                trim_trailing(usual.as_slice(), '/')
            } else {
                trim_trailing(configured.as_slice(), '/')
            };
            Ok(
                Api {
                    base: from_characters(base),
                    zone_id: zone_id.clone(),
                    token: from_characters(token),
                },
            )
        },
    }
}

/// How a provider is reached, whichever kind it is.
pub enum Reach {
    /// With a dynamic update.
    Update(Update),
    /// Over an API.
    Api(Api),
}

/// How a provider is reached, by the kind it is.
pub fn reach(provider: &DnsProvider, secret: &str) -> (r: Result<Reach, Failure>)
    requires
        encode_utf8(trimmed(secret@)).len() <= MOST_BYTES,
    ensures
        match provider.connection {
            DnsProviderConnection::Rfc2136 { .. } => update_reached(
                *provider,
                secret@,
                match r {
                    Ok(reach) => Ok(reach->Update_0),
                    Err(failure) => Err(failure),
                },
            ) && (r is Ok ==> r->Ok_0 is Update),
            DnsProviderConnection::Cloudflare { .. } => api_reached(
                *provider,
                secret@,
                match r {
                    Ok(reach) => Ok(reach->Api_0),
                    Err(failure) => Err(failure),
                },
            ) && (r is Ok ==> r->Ok_0 is Api),
        },
{
    match &provider.connection {
        DnsProviderConnection::Rfc2136 { .. } => match update_connection(provider, secret) {
            Ok(update) => Ok(Reach::Update(update)),
            Err(failure) => Err(failure),
        },
        DnsProviderConnection::Cloudflare { .. } => match api_connection(provider, secret) {
            Ok(api) => Ok(Reach::Api(api)),
            Err(failure) => Err(failure),
        },
    }
}

/// Which name server is asked whether a record is visible: the one that was
/// updated, when there is one, and otherwise the machine's own.
pub fn asking(provider: &DnsProvider) -> (r: Option<SocketAddr>)
    ensures
        match provider.connection {
            DnsProviderConnection::Rfc2136 { server, port, .. } => r == Some(
                SocketAddr { address: server, port },
            ),
            DnsProviderConnection::Cloudflare { .. } => r is None,
        },
{
    match &provider.connection {
        DnsProviderConnection::Rfc2136 { server, port, .. } => Some(
            SocketAddr { address: *server, port: *port },
        ),
        DnsProviderConnection::Cloudflare { .. } => None,
    }
}

/// A challenge is answered under `_acme-challenge.` and the name: the name
/// behind the star for a wildcard, and the name itself for any other.
pub proof fn lemma_a_challenge_is_answered_under_its_label(name: Seq<char>)
    ensures
        challenge_at("*."@ + name) == "_acme-challenge"@ + "."@ + name,
        !(name.len() >= 2 && name[0] == '*' && name[1] == '.') ==> challenge_at(name)
            == "_acme-challenge"@ + "."@ + name,
{
    reveal_strlit("*.");
    let starred = "*."@ + name;
    assert(starred.take(2) =~= "*."@);
    assert(starred.skip(2) =~= name);
    if name.len() >= 2 && name.take(2) == "*."@ {
        assert(name.take(2)[0] == name[0] && name.take(2)[1] == name[1]);
    }
}

/// An API is called where it is configured to live, or where it usually does,
/// and never with a slash at the end of that.
pub proof fn lemma_an_api_lives_without_a_slash(configured: Seq<char>)
    ensures
        configured.len() > 0 ==> api_at(configured).is_prefix_of(configured),
        configured.len() > 0 ==> forall|i: int|
            api_at(configured).len() <= i < configured.len() ==> #[trigger] configured[i] == '/',
        configured.len() == 0 ==> api_at(configured) == "https://api.cloudflare.com/client/v4"@,
        api_at(configured).len() > 0 ==> api_at(configured).last() != '/',
{
    if configured.len() > 0 {
        crate::text::lemma_only_the_end_is_taken_off(configured, '/');
    } else {
        reveal_strlit("https://api.cloudflare.com/client/v4");
        assert(CLOUDFLARE_API_BASE@.last() == '4');
    }
}

/// An API is reached with the stored token and without the white space
/// around it, at the zone that is configured; one that holds nothing else is
/// none.
pub proof fn lemma_a_token_is_used_without_the_space_around_it(
    provider: DnsProvider,
    secret: Seq<char>,
    padded: Seq<char>,
    outcome: Result<Api, Failure>,
)
    requires
        provider.connection is Cloudflare,
        trimmed(padded) == trimmed(secret),
    ensures
        api_reached(provider, secret, outcome) == api_reached(provider, padded, outcome),
        api_reached(provider, secret, outcome) ==> (outcome is Ok <==> trimmed(secret).len() > 0),
        api_reached(provider, secret, outcome) ==> match outcome {
            Ok(api) => {
                &&& api.token@ == trimmed(secret)
                &&& provider.connection matches DnsProviderConnection::Cloudflare { zone_id, .. }
                &&& api.zone_id@ == zone_id@
            },
            Err(failure) => failure@.reason == Reason::Configuration,
        },
{
}

/// A name server is reached at the address and with the key that are
/// configured, and the key is what its text decodes to without the white space
/// around it.
pub proof fn lemma_a_shared_key_is_used_as_it_decodes(
    provider: DnsProvider,
    secret: Seq<char>,
    padded: Seq<char>,
    outcome: Result<Update, Failure>,
)
    requires
        provider.connection is Rfc2136,
        trimmed(padded) == trimmed(secret),
    ensures
        update_reached(provider, secret, outcome) == update_reached(provider, padded, outcome),
        update_reached(provider, secret, outcome) ==> match outcome {
            Ok(update) => {
                &&& base64_decoded(trimmed(secret)) == Some(update.secret@)
                &&& update.secret@.len() > 0
                &&& provider.connection matches DnsProviderConnection::Rfc2136 {
                    server,
                    port,
                    zone,
                    tsig_key_name,
                    tsig_algorithm,
                }
                &&& update.server.address == server
                &&& update.server.port == port
                &&& update.zone@ == zone@
                &&& update.key_name@ == tsig_key_name@
                &&& update.algorithm == tsig_algorithm
            },
            Err(failure) => failure@.reason == Reason::Configuration,
        },
{
}

/// A provider is reached only as the kind of provider it is.
pub proof fn lemma_a_provider_is_reached_as_what_it_is(
    provider: DnsProvider,
    secret: Seq<char>,
    update: Result<Update, Failure>,
    api: Result<Api, Failure>,
)
    requires
        update_reached(provider, secret, update),
        api_reached(provider, secret, api),
    ensures
        update is Err || api is Err,
        provider.connection is Cloudflare ==> update is Err,
        provider.connection is Rfc2136 ==> api is Err,
{
}

} // verus!
