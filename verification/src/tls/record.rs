//! Putting an inspected upload into a store state.
//!
//! The certificate record and the two pieces of material it references have
//! to arrive together. A record that names material nobody stored is a
//! frontend that answers no handshake, and material nobody references is a
//! private key kept for no reason.

use vstd::prelude::*;
use vstd::string::*;

use crate::text::same;
use crate::tls::config::{
    certificates_seen, copy_identity, texts, Certificate, CertificateId, CertificateSource,
    CertificateValidity, CertificateView, Config, SecretId,
};
use crate::tls::inspect::Upload;
use crate::tls::shelf::Shelf;

verus! {

/// The suffix the stored chain is filed under.
pub const CHAIN_SUFFIX: &'static str = ".chain";

/// The suffix the stored private key is filed under.
pub const KEY_SUFFIX: &'static str = ".key";

/// The suffix the key of a running order is filed under.
pub const ORDER_KEY_SUFFIX: &'static str = ".order-key";

/// A piece of material. It is never printed.
#[derive(Clone, PartialEq, Eq)]
pub struct Secret {
    bytes: Vec<u8>,
}

impl Secret {
    /// What is kept.
    pub closed spec fn kept(self) -> Seq<u8> {
        self.bytes@
    }

    pub fn new(bytes: Vec<u8>) -> (r: Self)
        ensures
            r.kept() == bytes@,
    {
        Secret { bytes }
    }

    /// The material itself.
    pub fn expose(&self) -> (r: &[u8])
        ensures
            r@ == self.kept(),
    {
        self.bytes.as_slice()
    }
}

/// Everything the store holds: the configuration, and the material it
/// references.
pub struct Snapshot {
    pub config: Config,
    pub secrets: Shelf<Secret>,
}

impl Snapshot {
    /// The material is filed one piece to a name.
    pub open spec fn wf(self) -> bool {
        self.secrets.wf()
    }

    /// The certificates it holds.
    pub open spec fn certificates(self) -> Seq<CertificateView> {
        certificates_seen(self.config.certificates@)
    }

    /// A state with nothing filed.
    pub fn new(config: Config) -> (r: Self)
        ensures
            r.wf(),
            r.config == config,
            forall|name: Seq<char>| !r.secrets.has(name),
    {
        Snapshot { config, secrets: Shelf::new() }
    }
}

/// The same material once more.
fn copy_secrets(secrets: &Shelf<Secret>) -> (r: Shelf<Secret>)
    requires
        secrets.wf(),
    ensures
        r.wf(),
        forall|name: Seq<char>|
            #![trigger r.has(name)]
            #![trigger r.value(name)]
            r.has(name) == secrets.has(name) && (secrets.has(name) ==> r.value(name).kept()
                == secrets.value(name).kept()),
{
    let mut out: Shelf<Secret> = Shelf::new();
    let mut at: usize = 0;
    while at < secrets.len()
        invariant
            at <= secrets.held().len(),
            secrets.wf(),
            out.wf(),
            forall|name: Seq<char>| #[trigger]
                out.has(name) ==> exists|i: int|
                    0 <= i < at && #[trigger] secrets.names()[i] == name,
            forall|i: int|
                #![trigger secrets.names()[i]]
                0 <= i < at ==> out.has(secrets.names()[i]) && out.value(secrets.names()[i]).kept()
                    == secrets.held()[i].1.kept(),
        decreases secrets.held().len() - at,
    {
        let (name, secret) = secrets.pair(at);
        proof {
            assert(secrets.names()[at as int] == name@);
            assert forall|i: int| 0 <= i < at implies #[trigger] secrets.names()[i] != name@ by {
                secrets.lemma_one_place(name@, at as int);
                if secrets.names()[i] == name@ {
                    secrets.lemma_one_place(name@, i);
                }
            }
        }
        let ghost before = out;
        out.insert(name.clone(), Secret::new(vstd::slice::slice_to_vec(secret.expose())));
        proof {
            assert forall|i: int|
                #![trigger secrets.names()[i]]
                0 <= i < at + 1 implies out.has(secrets.names()[i]) && out.value(
                secrets.names()[i],
            ).kept() == secrets.held()[i].1.kept() by {
                if i < at {
                    assert(before.has(secrets.names()[i]));
                    assert(out.has(secrets.names()[i]));
                }
            }
        }
        at += 1;
    }
    proof {
        assert forall|name: Seq<char>|
            #![trigger out.has(name)]
            #![trigger out.value(name)]
            out.has(name) == secrets.has(name) && (secrets.has(name) ==> out.value(name).kept()
                == secrets.value(name).kept()) by {
            if secrets.has(name) {
                let i = secrets.at(name);
                assert(secrets.names()[i] == name);
            }
            if out.has(name) {
                let i = choose|i: int| 0 <= i < at && #[trigger] secrets.names()[i] == name;
                assert(secrets.names().contains(name));
            }
        }
    }
    out
}

fn copy_certificates(certificates: &Vec<Certificate>) -> (r: Vec<Certificate>)
    ensures
        certificates_seen(r@) == certificates_seen(certificates@),
{
    let mut out: Vec<Certificate> = Vec::new();
    let mut at: usize = 0;
    let ghost all = certificates_seen(certificates@);
    while at < certificates.len()
        invariant
            at <= certificates.len(),
            all == certificates_seen(certificates@),
            certificates_seen(out@) == all.take(at as int),
        decreases certificates.len() - at,
    {
        let ghost before = certificates_seen(out@);
        out.push(certificates[at].copy());
        assert(certificates_seen(out@) =~= before.push(all[at as int]));
        assert(certificates_seen(out@) =~= all.take(at + 1));
        at += 1;
    }
    assert(all.take(all.len() as int) =~= all);
    out
}

/// The identity the chain of one certificate is stored under.
pub open spec fn chain_name(certificate: Seq<char>) -> Seq<char> {
    certificate + CHAIN_SUFFIX@
}

/// The identity the private key of one certificate is stored under.
pub open spec fn key_name(certificate: Seq<char>) -> Seq<char> {
    certificate + KEY_SUFFIX@
}

/// The identity the signing key of a running order is stored under.
pub open spec fn order_key_name(certificate: Seq<char>) -> Seq<char> {
    certificate + ORDER_KEY_SUFFIX@
}

fn suffixed(certificate: &CertificateId, suffix: &str) -> (r: SecretId)
    ensures
        r.text@ == certificate.text@ + suffix@,
{
    let mut text = certificate.text.clone();
    text.append(suffix);
    SecretId { text }
}

/// The identity the chain of one certificate is stored under.
pub fn chain_id(certificate: &CertificateId) -> (r: SecretId)
    ensures
        r.text@ == chain_name(certificate.text@),
{
    suffixed(certificate, CHAIN_SUFFIX)
}

/// The identity the private key of one certificate is stored under.
pub fn key_id(certificate: &CertificateId) -> (r: SecretId)
    ensures
        r.text@ == key_name(certificate.text@),
{
    suffixed(certificate, KEY_SUFFIX)
}

/// The identity the signing key of a running order is stored under.
///
/// Separate from [`key_id`] on purpose. The order key is written before the
/// certificate authority is asked anything, so filing it under the serving
/// identity would replace the key of the certificate being served.
pub fn order_key_id(certificate: &CertificateId) -> (r: SecretId)
    ensures
        r.text@ == order_key_name(certificate.text@),
{
    suffixed(certificate, ORDER_KEY_SUFFIX)
}

/// The three identities of a certificate are three different ones.
pub proof fn lemma_the_identities_differ(certificate: Seq<char>)
    ensures
        chain_name(certificate) != key_name(certificate),
        chain_name(certificate) != order_key_name(certificate),
        key_name(certificate) != order_key_name(certificate),
{
    reveal_strlit(".chain");
    reveal_strlit(".key");
    reveal_strlit(".order-key");
    let n = certificate.len();
    assert(chain_name(certificate).len() == n + 6);
    assert(key_name(certificate).len() == n + 4);
    assert(order_key_name(certificate).len() == n + 10);
}

/// The record of an installed certificate.
pub open spec fn installed_record(
    id: Seq<char>,
    source: CertificateSource,
    sni_names: Seq<Seq<char>>,
    validity: CertificateValidity,
) -> CertificateView {
    CertificateView {
        id,
        sni_names,
        source,
        validity: Some(validity),
        chain: Some(chain_name(id)),
        private_key: Some(key_name(id)),
    }
}

/// Where the first certificate with an identity stands, or the length when
/// there is none.
pub open spec fn first_at(certificates: Seq<CertificateView>, id: Seq<char>) -> int
    decreases certificates.len(),
{
    if certificates.len() == 0 {
        0
    } else if certificates[0].id == id {
        0
    } else {
        1 + first_at(certificates.skip(1), id)
    }
}

/// The records with one of them in place of the first of its identity, or
/// behind the others when there is none.
pub open spec fn with_record(
    certificates: Seq<CertificateView>,
    record: CertificateView,
) -> Seq<CertificateView> {
    let at = first_at(certificates, record.id);
    if at < certificates.len() {
        certificates.update(at, record)
    } else {
        certificates.push(record)
    }
}

proof fn lemma_first_at(certificates: Seq<CertificateView>, id: Seq<char>, at: int)
    requires
        0 <= at <= certificates.len(),
        forall|i: int| 0 <= i < at ==> (#[trigger] certificates[i]).id != id,
        at < certificates.len() ==> certificates[at].id == id,
    ensures
        first_at(certificates, id) == at,
    decreases certificates.len(),
{
    if certificates.len() > 0 && at > 0 {
        assert(certificates[0].id != id);
        assert forall|i: int| 0 <= i < at - 1 implies (#[trigger] certificates.skip(1)[i]).id
            != id by {
            assert(certificates.skip(1)[i] == certificates[i + 1]);
        }
        if at < certificates.len() {
            assert(certificates.skip(1)[at - 1] == certificates[at]);
        }
        lemma_first_at(certificates.skip(1), id, at - 1);
    }
}

fn find(certificates: &Vec<Certificate>, id: &str) -> (r: usize)
    ensures
        r == first_at(certificates_seen(certificates@), id@),
        r <= certificates@.len(),
        r < certificates@.len() ==> certificates@[r as int].id.text@ == id@,
{
    let ghost all = certificates_seen(certificates@);
    let mut at: usize = 0;
    while at < certificates.len()
        invariant
            at <= certificates.len(),
            all == certificates_seen(certificates@),
            forall|i: int| 0 <= i < at ==> (#[trigger] all[i]).id != id@,
        decreases certificates.len() - at,
    {
        assert(all[at as int].id == certificates@[at as int].id.text@);
        if same(certificates[at].id.as_str(), id) {
            proof {
                lemma_first_at(all, id@, at as int);
            }
            return at;
        }
        at += 1;
    }
    proof {
        lemma_first_at(all, id@, at as int);
    }
    at
}

/// Puts an upload into a state, replacing any certificate of the same name.
///
/// Derived identities rather than fresh ones: a replacement writes over the
/// two entries the old certificate used, so nothing is left behind. The
/// source says whether renewal ever asks for the certificate again.
pub fn install(
    state: &Snapshot,
    id: &CertificateId,
    source: CertificateSource,
    upload: Upload,
) -> (r: Snapshot)
    requires
        state.wf(),
    ensures
        r.wf(),
        r.certificates() == with_record(
            state.certificates(),
            installed_record(id.text@, source, texts(upload.sni_names@), upload.validity),
        ),
        r.secrets.has(chain_name(id.text@)),
        r.secrets.has(key_name(id.text@)),
        r.secrets.value(chain_name(id.text@)).kept() == upload.chain.kept(),
        r.secrets.value(key_name(id.text@)).kept() == upload.key.kept(),
        forall|other: Seq<char>|
            #![trigger r.secrets.has(other)]
            #![trigger r.secrets.value(other)]
            other != chain_name(id.text@) && other != key_name(id.text@) ==> r.secrets.has(other)
                == state.secrets.has(other) && (state.secrets.has(other) ==> r.secrets.value(
                other,
            ).kept() == state.secrets.value(other).kept()),
{
    proof {
        lemma_the_identities_differ(id.text@);
    }
    let ghost before = state.certificates();
    let record = Certificate {
        id: id.copy(),
        sni_names: upload.sni_names,
        source,
        validity: Some(upload.validity),
        chain: Some(chain_id(id)),
        private_key: Some(key_id(id)),
    };
    let ghost wanted = record@;
    let mut certificates = copy_certificates(&state.config.certificates);
    let at: usize = find(&certificates, id.as_str());
    if at < certificates.len() {
        certificates.set(at, record);
        assert(certificates_seen(certificates@) =~= before.update(at as int, wanted));
    } else {
        certificates.push(record);
        assert(certificates_seen(certificates@) =~= before.push(wanted));
    }
    let mut secrets = copy_secrets(&state.secrets);
    secrets.insert(chain_id(id).text, upload.chain);
    secrets.insert(key_id(id).text, upload.key);
    Snapshot { config: Config { certificates }, secrets }
}

/// A record with what the stored one of its identity has obtained.
pub open spec fn carried(
    certificate: CertificateView,
    stored: Seq<CertificateView>,
) -> CertificateView {
    let at = first_at(stored, certificate.id);
    if 0 <= at < stored.len() {
        CertificateView {
            validity: stored[at].validity,
            chain: stored[at].chain,
            private_key: stored[at].private_key,
            ..certificate
        }
    } else {
        certificate
    }
}

/// A document with what has already been obtained carried into it.
///
/// The document says which certificates exist, which names they cover and
/// how they are obtained. What an order produced exists only in the store,
/// and without this renewal would see every certificate as one that has
/// never been obtained.
pub fn carry_obtained(document: &Config, stored: &Config) -> (r: Config)
    ensures
        r.certificates@.len() == document.certificates@.len(),
        forall|i: int|
            0 <= i < r.certificates@.len() ==> (#[trigger] r.certificates@[i])@ == carried(
                document.certificates@[i]@,
                certificates_seen(stored.certificates@),
            ),
{
    let ghost whole = certificates_seen(document.certificates@);
    let ghost held = certificates_seen(stored.certificates@);
    let mut certificates = copy_certificates(&document.certificates);
    assert(certificates@.len() == certificates_seen(certificates@).len());
    assert forall|i: int| 0 <= i < whole.len() implies (#[trigger] certificates@[i])@
        == whole[i] by {
        assert(certificates_seen(certificates@)[i] == certificates@[i]@);
    }
    let mut at: usize = 0;
    while at < certificates.len()
        invariant
            at <= certificates.len(),
            certificates@.len() == whole.len(),
            held == certificates_seen(stored.certificates@),
            forall|i: int|
                0 <= i < at ==> (#[trigger] certificates@[i])@ == carried(whole[i], held),
            forall|i: int| at <= i < whole.len() ==> (#[trigger] certificates@[i])@ == whole[i],
        decreases certificates.len() - at,
    {
        let found: usize = find(&stored.certificates, certificates[at].id.as_str());
        if found < stored.certificates.len() {
            let one = &certificates[at];
            let from = &stored.certificates[found];
            assert(held[found as int] == from@);
            let next = Certificate {
                id: one.id.copy(),
                sni_names: crate::tls::config::copy_texts(one.sni_names.as_slice()),
                source: one.source.copy(),
                validity: from.validity,
                chain: copy_identity(&from.chain),
                private_key: copy_identity(&from.private_key),
            };
            assert(next@ == carried(whole[at as int], held));
            certificates.set(at, next);
        }
        at += 1;
    }
    Config { certificates }
}

/// The records that do not have an identity.
pub open spec fn without(certificates: Seq<CertificateView>, id: Seq<char>) -> Seq<CertificateView>
    decreases certificates.len(),
{
    if certificates.len() == 0 {
        seq![]
    } else {
        let front = without(certificates.drop_last(), id);
        if certificates.last().id == id {
            front
        } else {
            front.push(certificates.last())
        }
    }
}

/// Takes a certificate and its material out of a state.
///
/// Whether it may go is a question for the validation layer. This does the
/// removal itself and leaves no material behind.
pub fn remove(state: &Snapshot, id: &CertificateId) -> (r: Snapshot)
    requires
        state.wf(),
    ensures
        r.wf(),
        r.certificates() == without(state.certificates(), id.text@),
        !r.secrets.has(chain_name(id.text@)),
        !r.secrets.has(key_name(id.text@)),
        forall|other: Seq<char>|
            #![trigger r.secrets.has(other)]
            #![trigger r.secrets.value(other)]
            other != chain_name(id.text@) && other != key_name(id.text@) ==> r.secrets.has(other)
                == state.secrets.has(other) && (state.secrets.has(other) ==> r.secrets.value(
                other,
            ).kept() == state.secrets.value(other).kept()),
{
    proof {
        lemma_the_identities_differ(id.text@);
    }
    let ghost all = state.certificates();
    let mut certificates: Vec<Certificate> = Vec::new();
    let mut at: usize = 0;
    assert(certificates_seen(certificates@) =~= without(all.take(0), id.text@));
    while at < state.config.certificates.len()
        invariant
            at <= state.config.certificates.len(),
            all == state.certificates(),
            certificates_seen(certificates@) == without(all.take(at as int), id.text@),
        decreases state.config.certificates.len() - at,
    {
        let one = &state.config.certificates[at];
        let ghost before = certificates_seen(certificates@);
        proof {
            assert(all.take(at + 1).drop_last() =~= all.take(at as int));
            assert(all.take(at + 1).last() == one@);
        }
        if !same(one.id.as_str(), id.as_str()) {
            certificates.push(one.copy());
            assert(certificates_seen(certificates@) =~= before.push(one@));
        }
        at += 1;
    }
    assert(all.take(all.len() as int) =~= all);
    let mut secrets = copy_secrets(&state.secrets);
    secrets.remove(chain_id(id).as_str());
    secrets.remove(key_id(id).as_str());
    Snapshot { config: Config { certificates }, secrets }
}

proof fn lemma_first_is_first(certificates: Seq<CertificateView>, id: Seq<char>)
    ensures
        0 <= first_at(certificates, id) <= certificates.len(),
        forall|i: int| 0 <= i < first_at(certificates, id) ==> (#[trigger] certificates[i]).id != id,
        first_at(certificates, id) < certificates.len() ==> certificates[first_at(
            certificates,
            id,
        )].id == id,
    decreases certificates.len(),
{
    if certificates.len() > 0 && certificates[0].id != id {
        lemma_first_is_first(certificates.skip(1), id);
        assert forall|i: int| 0 <= i < first_at(certificates, id) implies (
        #[trigger] certificates[i]).id != id by {
            if i > 0 {
                assert(certificates.skip(1)[i - 1] == certificates[i]);
            }
        }
    }
}

/// Installing a certificate again replaces the record of the first time:
/// there is one record, not two, and every other one stays where it was.
pub proof fn lemma_installing_again_replaces(
    certificates: Seq<CertificateView>,
    first: CertificateView,
    second: CertificateView,
)
    requires
        first.id == second.id,
    ensures
        with_record(with_record(certificates, first), second) == with_record(certificates, second),
        with_record(with_record(certificates, first), second).len() == with_record(
            certificates,
            first,
        ).len(),
{
    let at = first_at(certificates, first.id);
    lemma_first_is_first(certificates, first.id);
    let once = with_record(certificates, first);
    lemma_first_at(once, first.id, at);
    if at < certificates.len() {
        assert(once.update(at, second) =~= certificates.update(at, second));
    } else {
        assert(once.update(at, second) =~= certificates.push(second));
    }
}

/// A removed certificate is not among the records, and every record of
/// another identity still is.
pub proof fn lemma_removal_is_exact(
    certificates: Seq<CertificateView>,
    id: Seq<char>,
    one: CertificateView,
)
    ensures
        without(certificates, id).contains(one) <==> certificates.contains(one) && one.id != id,
    decreases certificates.len(),
{
    if certificates.len() > 0 {
        lemma_removal_is_exact(certificates.drop_last(), id, one);
        let front = without(certificates.drop_last(), id);
        let whole = without(certificates, id);
        if whole.contains(one) {
            let i = choose|i: int| 0 <= i < whole.len() && whole[i] == one;
            if i < front.len() {
                assert(front[i] == one);
                let j = choose|j: int|
                    0 <= j < certificates.drop_last().len() && certificates.drop_last()[j] == one;
                assert(certificates[j] == one);
            } else {
                assert(certificates[certificates.len() - 1] == one);
            }
        }
        if certificates.contains(one) && one.id != id {
            let j = choose|j: int| 0 <= j < certificates.len() && certificates[j] == one;
            if j < certificates.len() - 1 {
                assert(certificates.drop_last()[j] == one);
                let i = choose|i: int| 0 <= i < front.len() && front[i] == one;
                assert(whole[i] == one);
            } else {
                assert(whole[front.len() as int] == one);
            }
        }
    }
}

/// Removing what was just installed under a fresh identity leaves the
/// records as they were.
pub proof fn lemma_removal_undoes_a_fresh_install(
    certificates: Seq<CertificateView>,
    record: CertificateView,
)
    requires
        forall|i: int| 0 <= i < certificates.len() ==> (#[trigger] certificates[i]).id != record.id,
    ensures
        without(with_record(certificates, record), record.id) == certificates,
{
    lemma_first_is_first(certificates, record.id);
    let once = with_record(certificates, record);
    assert(first_at(certificates, record.id) == certificates.len()) by {
        lemma_first_at(certificates, record.id, certificates.len() as int);
    }
    assert(once.drop_last() =~= certificates);
    lemma_nothing_to_remove(certificates, record.id);
}

proof fn lemma_nothing_to_remove(certificates: Seq<CertificateView>, id: Seq<char>)
    requires
        forall|i: int| 0 <= i < certificates.len() ==> (#[trigger] certificates[i]).id != id,
    ensures
        without(certificates, id) == certificates,
    decreases certificates.len(),
{
    if certificates.len() > 0 {
        assert forall|i: int| 0 <= i < certificates.drop_last().len() implies (
        #[trigger] certificates.drop_last()[i]).id != id by {
            assert(certificates.drop_last()[i] == certificates[i]);
        }
        lemma_nothing_to_remove(certificates.drop_last(), id);
        assert(certificates.last() == certificates[certificates.len() - 1]);
        assert(without(certificates, id) =~= certificates);
    } else {
        assert(without(certificates, id) =~= certificates);
    }
}

/// Carrying what was obtained never changes which certificates exist, which
/// names they cover or how they are obtained: the document decides those.
pub proof fn lemma_the_document_decides(
    certificate: CertificateView,
    stored: Seq<CertificateView>,
)
    ensures
        carried(certificate, stored).id == certificate.id,
        carried(certificate, stored).sni_names == certificate.sni_names,
        carried(certificate, stored).source == certificate.source,
{
}

/// A certificate the store never held stays as the document wrote it.
pub proof fn lemma_nothing_is_carried_across_identities(
    certificate: CertificateView,
    stored: Seq<CertificateView>,
)
    requires
        forall|i: int| 0 <= i < stored.len() ==> (#[trigger] stored[i]).id != certificate.id,
    ensures
        carried(certificate, stored) == certificate,
{
    lemma_first_at(stored, certificate.id, stored.len() as int);
}

/// An installed record names the material it came with, by the identity of
/// the certificate and what the material is, and carries its names, its
/// source and its window.
pub proof fn lemma_an_installed_record_names_its_material(
    id: Seq<char>,
    source: CertificateSource,
    sni_names: Seq<Seq<char>>,
    validity: CertificateValidity,
)
    ensures
        ({
            let record = installed_record(id, source, sni_names, validity);
            &&& record.id == id
            &&& record.sni_names == sni_names
            &&& record.source == source
            &&& record.validity == Some(validity)
            &&& record.chain == Some(id + ".chain"@)
            &&& record.private_key == Some(id + ".key"@)
        }),
        order_key_name(id) == id + ".order-key"@,
{
}

/// An installed record is the first of its identity, at the place the one it
/// replaces had or behind all others; every other record stays where it was.
pub proof fn lemma_an_installed_record_is_found(
    certificates: Seq<CertificateView>,
    record: CertificateView,
)
    ensures
        ({
            let after = with_record(certificates, record);
            let at = first_at(certificates, record.id);
            &&& first_at(after, record.id) == at
            &&& 0 <= at < after.len()
            &&& after[at] == record
            &&& forall|i: int| 0 <= i < certificates.len() && i != at ==> after[i] == certificates[i]
            &&& after.len() == (if certificates.len() > at {
                certificates.len()
            } else {
                certificates.len() + 1
            })
        }),
{
    let after = with_record(certificates, record);
    let at = first_at(certificates, record.id);
    lemma_first_is_first(certificates, record.id);
    assert forall|i: int| 0 <= i < at implies (#[trigger] after[i]).id != record.id by {
        assert(after[i] == certificates[i]);
    }
    lemma_first_at(after, record.id, at);
}

/// What is left after a removal keeps its order: the records before a place
/// are followed by those behind it.
pub proof fn lemma_what_is_left_keeps_its_order(
    before: Seq<CertificateView>,
    behind: Seq<CertificateView>,
    id: Seq<char>,
)
    ensures
        without(before + behind, id) == without(before, id) + without(behind, id),
    decreases behind.len(),
{
    if behind.len() == 0 {
        assert(before + behind =~= before);
        assert(without(before, id) + without(behind, id) =~= without(before, id));
    } else {
        assert((before + behind).drop_last() =~= before + behind.drop_last());
        lemma_what_is_left_keeps_its_order(before, behind.drop_last(), id);
        assert(without(before + behind, id) =~= without(before, id) + without(behind, id));
    }
}

/// What an order produced comes along into a document: the window and the
/// material of the first stored record of the same identity, and nothing else
/// of it.
pub proof fn lemma_what_was_obtained_comes_along(
    certificate: CertificateView,
    stored: Seq<CertificateView>,
    at: int,
)
    requires
        0 <= at < stored.len(),
        stored[at].id == certificate.id,
        forall|i: int| 0 <= i < at ==> (#[trigger] stored[i]).id != certificate.id,
    ensures
        ({
            let after = carried(certificate, stored);
            &&& after.validity == stored[at].validity
            &&& after.chain == stored[at].chain
            &&& after.private_key == stored[at].private_key
            &&& after.id == certificate.id
            &&& after.sni_names == certificate.sni_names
            &&& after.source == certificate.source
        }),
{
    lemma_first_at(stored, certificate.id, at);
}

} // verus!
