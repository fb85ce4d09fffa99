//! What is asked of OpenSSL.
//!
//! Everything here takes and gives bytes and text. A key is held as the PEM
//! it is stored in.

use vstd::prelude::*;

use openssl::bn::{BigNum, BigNumContext};
use openssl::ec::{EcGroup, EcKey};
use openssl::ecdsa::EcdsaSig;
use openssl::error::ErrorStack;
use openssl::hash::{hash, MessageDigest};
use openssl::nid::Nid;
use openssl::pkey::PKey;
use openssl::sign::Signer;

verus! {

/// What OpenSSL says went wrong.
#[verifier::external_type_specification]
#[verifier::external_body]
pub struct ExErrorStack(ErrorStack);

/// The `Display` of `openssl::error::ErrorStack` writes down what went wrong.
/// Nothing is said of the words.
#[verifier::external_body]
pub(crate) fn told(error: &ErrorStack) -> (r: String)
{
    error.to_string()
}

/// Which step of a signature could not be taken, and what was said about it.
pub(crate) enum Trouble {
    /// The key could not be used.
    Key(ErrorStack),
    /// The signature could not be started.
    Start(ErrorStack),
    /// The signature could not be computed.
    Compute(ErrorStack),
    /// The signature could not be finished.
    Finish(ErrorStack),
}

/// The HMAC-SHA256 of a message under a key.
pub uninterp spec fn hmac_sha256_of(key: Seq<u8>, over: Seq<u8>) -> Seq<u8>;

/// The HMAC-SHA512 of a message under a key.
pub uninterp spec fn hmac_sha512_of(key: Seq<u8>, over: Seq<u8>) -> Seq<u8>;

/// The SHA-256 digest of some bytes.
pub uninterp spec fn sha256_of(over: Seq<u8>) -> Seq<u8>;

/// What a base64 text stands for, when it can be read.
pub uninterp spec fn base64_decoded(text: Seq<char>) -> Option<Seq<u8>>;

/// The longest run of bytes OpenSSL's own length type counts.
pub const MOST_BYTES: usize = 0x7FFF_FFFF;

/// `openssl::sign::Signer` over `PKey::hmac` with SHA-256 computes the
/// HMAC-SHA256 of the message, which is 32 bytes. Whether OpenSSL can do it
/// on this machine is not said. A longer key than OpenSSL counts panics.
#[verifier::external_body]
pub(crate) fn hmac_sha256(key: &[u8], over: &[u8]) -> (r: Result<Vec<u8>, Trouble>)
    requires
        key@.len() <= MOST_BYTES,
    ensures
        r matches Ok(mac) ==> mac@ == hmac_sha256_of(key@, over@) && mac@.len() == 32,
{
    let key = PKey::hmac(key).map_err(Trouble::Key)?;
    let digest = MessageDigest::sha256();
    let mut signer = Signer::new(digest, &key).map_err(Trouble::Start)?;
    signer.update(over).map_err(Trouble::Compute)?;
    signer.sign_to_vec().map_err(Trouble::Finish)
}

/// `openssl::sign::Signer` over `PKey::hmac` with SHA-512 computes the
/// HMAC-SHA512 of the message, which is 64 bytes. Whether OpenSSL can do it
/// on this machine is not said. A longer key than OpenSSL counts panics.
#[verifier::external_body]
pub(crate) fn hmac_sha512(key: &[u8], over: &[u8]) -> (r: Result<Vec<u8>, Trouble>)
    requires
        key@.len() <= MOST_BYTES,
    ensures
        r matches Ok(mac) ==> mac@ == hmac_sha512_of(key@, over@) && mac@.len() == 64,
{
    let key = PKey::hmac(key).map_err(Trouble::Key)?;
    let digest = MessageDigest::sha512();
    let mut signer = Signer::new(digest, &key).map_err(Trouble::Start)?;
    signer.update(over).map_err(Trouble::Compute)?;
    signer.sign_to_vec().map_err(Trouble::Finish)
}

/// `openssl::hash::hash` with SHA-256 computes the SHA-256 digest, which is
/// 32 bytes. Whether OpenSSL can do it on this machine is not said.
#[verifier::external_body]
pub(crate) fn sha256(over: &[u8]) -> (r: Result<Vec<u8>, ErrorStack>)
    ensures
        r matches Ok(digest) ==> digest@ == sha256_of(over@) && digest@.len() == 32,
{
    Ok(hash(MessageDigest::sha256(), over)?.to_vec())
}

/// `openssl::memcmp::eq` says whether two runs of bytes are the same, and
/// takes as long either way. It panics on runs of different lengths.
#[verifier::external_body]
pub(crate) fn equal_in_constant_time(left: &[u8], right: &[u8]) -> (r: bool)
    requires
        left@.len() == right@.len(),
    ensures
        r == (left@ == right@),
{
    openssl::memcmp::eq(left, right)
}

/// `openssl::base64::decode_block` gives what a base64 text stands for, and
/// fails on one it cannot read. A longer text than OpenSSL counts panics.
#[verifier::external_body]
pub(crate) fn base64_decode(text: &str) -> (r: Result<Vec<u8>, ErrorStack>)
    requires
        vstd::utf8::encode_utf8(text@).len() <= MOST_BYTES,
    ensures
        match r {
            Ok(bytes) => base64_decoded(text@) == Some(bytes@),
            Err(_) => base64_decoded(text@) is None,
        },
{
    openssl::base64::decode_block(text)
}

/// `openssl::rand::rand_bytes` draws two random bytes. Nothing is said of
/// which.
#[verifier::external_body]
pub(crate) fn random_pair() -> (r: Result<[u8; 2], ErrorStack>)
{
    let mut bytes = [0_u8; 2];
    openssl::rand::rand_bytes(&mut bytes)?;
    Ok(bytes)
}

/// Which step of making a key could not be taken, and what was said about
/// it.
pub(crate) enum KeyTrouble {
    /// The curve is not there.
    Group(ErrorStack),
    /// No key could be drawn.
    Draw(ErrorStack),
    /// The key could not be wrapped.
    Wrap(ErrorStack),
    /// The key could not be written out.
    Write(ErrorStack),
}

/// The private key that a PEM holds without a passphrase, when it holds one,
/// as PKCS#8 PEM, when it can be written so.
pub uninterp spec fn opened_key(pem: Seq<u8>) -> Option<Option<Seq<u8>>>;

/// The coordinates, in 32 bytes each, of the public point of the private key
/// that a PEM holds, when it has one of that size.
pub uninterp spec fn point_of(pem: Seq<u8>) -> Option<(Seq<u8>, Seq<u8>)>;

/// Whether bytes are the two numbers of an ECDSA signature, by the key in a
/// PEM, over a digest.
pub uninterp spec fn ecdsa_signs(signature: Seq<u8>, pem: Seq<u8>, digest: Seq<u8>) -> bool;

/// Whether bytes are the two numbers of an ECDSA signature, by the key in a
/// PEM, over the SHA-256 digest of a message.
pub open spec fn es256_signs(signature: Seq<u8>, pem: Seq<u8>, message: Seq<u8>) -> bool {
    ecdsa_signs(signature, pem, sha256_of(message))
}

/// `openssl::ec::EcKey::generate` on the group `X9_62_PRIME256V1` draws a
/// private key on the curve P-256, and `private_key_to_pem_pkcs8` writes it
/// out. Which key it is, is left to chance. It has a public point.
#[verifier::external_body]
pub(crate) fn draw_key() -> (r: Result<Vec<u8>, KeyTrouble>)
    ensures
        r matches Ok(pem) ==> point_of(pem@) is Some,
{
    let group = EcGroup::from_curve_name(Nid::X9_62_PRIME256V1).map_err(KeyTrouble::Group)?;
    let drawn = EcKey::generate(&group).map_err(KeyTrouble::Draw)?;
    let key = PKey::from_ec_key(drawn).map_err(KeyTrouble::Wrap)?;
    key.private_key_to_pem_pkcs8().map_err(KeyTrouble::Write)
}

/// `PKey::private_key_from_pem_callback` with an empty passphrase reads a
/// private key, and `private_key_to_pem_pkcs8` writes it out as PKCS#8. The
/// two can fail apart: the outer fault is of reading, the inner one of
/// writing. Whether what was written reads back as itself is not said. A
/// longer file than OpenSSL counts panics.
#[verifier::external_body]
pub(crate) fn open_key(pem: &[u8]) -> (r: Result<Result<Vec<u8>, ErrorStack>, ErrorStack>)
    requires
        pem@.len() <= MOST_BYTES,
    ensures
        match r {
            Ok(Ok(key)) => opened_key(pem@) == Some(Some(key@)),
            Ok(Err(_)) => opened_key(pem@) == Some(None::<Seq<u8>>),
            Err(_) => opened_key(pem@) is None,
        },
{
    let read = PKey::private_key_from_pem_callback(pem, |_| Ok(0));
    read.map(|key| key.private_key_to_pem_pkcs8())
}

/// `EcPointRef::affine_coordinates` gives the two coordinates of a key's
/// public point, which `to_vec_padded` writes in 32 bytes each. It fails on a
/// key that is not on a curve or whose coordinates are longer. A longer file
/// than OpenSSL counts panics.
#[verifier::external_body]
pub(crate) fn public_point(pem: &[u8]) -> (r: Result<(Vec<u8>, Vec<u8>), ErrorStack>)
    requires
        pem@.len() <= MOST_BYTES,
    ensures
        match r {
            Ok((x, y)) => point_of(pem@) == Some((x@, y@)) && x@.len() == 32 && y@.len() == 32,
            Err(_) => point_of(pem@) is None,
        },
{
    let key = PKey::private_key_from_pem_callback(pem, |_| Ok(0))?.ec_key()?;
    let (mut x, mut y) = (BigNum::new()?, BigNum::new()?);
    let mut context = BigNumContext::new()?;
    key.public_key().affine_coordinates(key.group(), &mut x, &mut y, &mut context)?;
    Ok((x.to_vec_padded(32)?, y.to_vec_padded(32)?))
}

/// `EcdsaSig::sign` over a digest gives the two numbers of a signature by the
/// key, which `to_vec_padded` writes in 32 bytes each. Which of the many
/// signatures it is, is left to chance. A longer file or digest than OpenSSL
/// counts panics.
#[verifier::external_body]
pub(crate) fn ecdsa(pem: &[u8], digest: &[u8]) -> (r: Result<(Vec<u8>, Vec<u8>), ErrorStack>)
    requires
        pem@.len() <= MOST_BYTES,
        digest@.len() <= MOST_BYTES,
    ensures
        r matches Ok((first, second)) ==> first@.len() == 32 && second@.len() == 32 && ecdsa_signs(
            first@ + second@,
            pem@,
            digest@,
        ),
{
    let key = PKey::private_key_from_pem_callback(pem, |_| Ok(0))?.ec_key()?;
    let signature = EcdsaSig::sign(digest, &key)?;
    Ok((signature.r().to_vec_padded(32)?, signature.s().to_vec_padded(32)?))
}

/// The two numbers of a signature by the key over the SHA-256 digest of a
/// message.
pub(crate) fn es256(pem: &[u8], message: &[u8]) -> (r: Result<(Vec<u8>, Vec<u8>), ErrorStack>)
    requires
        pem@.len() <= MOST_BYTES,
    ensures
        r matches Ok((first, second)) ==> first@.len() == 32 && second@.len() == 32 && es256_signs(
            first@ + second@,
            pem@,
            message@,
        ),
{
    match sha256(message) {
        Ok(digest) => ecdsa(pem, digest.as_slice()),
        Err(error) => Err(error),
    }
}

} // verus!
