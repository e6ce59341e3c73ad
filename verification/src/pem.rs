//! Certificates and private keys in PEM files.

use crate::erasure;
use vstd::prelude::*;

verus! {

/// Why a PEM file is refused.
#[derive(Clone, Copy, Debug, PartialEq, Eq, Structural)]
pub enum PemError {
    /// It cannot be parsed.
    Malformed,
    /// It holds nothing of the kind that is looked for.
    Empty,
}

/// How a private key is encoded.
#[derive(Clone, Copy, Debug, PartialEq, Eq, Structural)]
pub enum KeyKind {
    Pkcs1,
    Sec1,
    Pkcs8,
    /// In a way that is none of these.
    Other,
}

/// A private key in DER.
#[derive(Debug)]
pub struct PrivateKey {
    pub kind: KeyKind,
    pub der: Vec<u8>,
}

/// The certificates in a PEM file, in DER, if it can be parsed.
pub uninterp spec fn pem_certificates(pem: Seq<u8>) -> Option<Seq<Seq<u8>>>;

/// The first private key in a PEM file, in DER, if the file can be parsed up to it
/// and holds one.
pub uninterp spec fn pem_private_key(pem: Seq<u8>) -> Option<Option<(KeyKind, Seq<u8>)>>;

/// Calls `rustls_pemfile::certs` and collects what it yields, up to the first error.
/// Claims that the outcome is a function of the bytes alone.
#[verifier::external_body]
pub(crate) fn read_certificates(pem: &[u8]) -> (list: Result<Vec<Vec<u8>>, std::io::Error>)
    ensures
        match list {
            Ok(found) => pem_certificates(pem@) == Some(erasure::shard_views(found@)),
            Err(_) => pem_certificates(pem@) is None,
        },
{
    let mut reader = pem;
    rustls_pemfile::certs(&mut reader).map(|found| found.map(|der| der.to_vec())).collect()
}

/// Calls `rustls_pemfile::private_key`. Claims that the outcome is a function of the
/// bytes alone.
#[verifier::external_body]
pub(crate) fn read_private_key(pem: &[u8]) -> (key: Result<Option<PrivateKey>, std::io::Error>)
    ensures
        match key {
            Ok(Some(found)) => pem_private_key(pem@) == Some(Some((found.kind, found.der@))),
            Ok(None) => pem_private_key(pem@) == Some(None::<(KeyKind, Seq<u8>)>),
            Err(_) => pem_private_key(pem@) is None,
        },
{
    let mut reader = pem;
    Ok(
        rustls_pemfile::private_key(&mut reader)?.map(
            |key|
                PrivateKey {
                    kind: match key {
                        quinn::rustls::pki_types::PrivateKeyDer::Pkcs1(_) => KeyKind::Pkcs1,
                        quinn::rustls::pki_types::PrivateKeyDer::Sec1(_) => KeyKind::Sec1,
                        quinn::rustls::pki_types::PrivateKeyDer::Pkcs8(_) => KeyKind::Pkcs8,
                        _ => KeyKind::Other,
                    },
                    der: key.secret_der().to_vec(),
                },
        ),
    )
}

/// The certificates that a file must hold, given what was found in it, if it could be
/// parsed.
pub fn some_certificates(found: Option<Vec<Vec<u8>>>) -> (list: Result<Vec<Vec<u8>>, PemError>)
    ensures
        match found {
            None => list == Err::<Vec<Vec<u8>>, PemError>(PemError::Malformed),
            Some(all) => if all@.len() == 0 {
                list == Err::<Vec<Vec<u8>>, PemError>(PemError::Empty)
            } else {
                list == Ok::<Vec<Vec<u8>>, PemError>(all)
            },
        },
{
    match found {
        None => Err(PemError::Malformed),
        Some(all) => {
            if all.len() == 0 {
                return Err(PemError::Empty);
            }
            Ok(all)
        },
    }
}

/// The certificates in a PEM file.
pub fn certificates(pem: &[u8]) -> (list: Result<Vec<Vec<u8>>, PemError>)
    ensures
        match pem_certificates(pem@) {
            None => list == Err::<Vec<Vec<u8>>, PemError>(PemError::Malformed),
            Some(all) => if all.len() == 0 {
                list == Err::<Vec<Vec<u8>>, PemError>(PemError::Empty)
            } else {
                list matches Ok(found) && erasure::shard_views(found@) == all
            },
        },
{
    match read_certificates(pem) {
        Ok(found) => {
            assert(erasure::shard_views(found@).len() == found@.len());
            some_certificates(Some(found))
        },
        Err(_) => some_certificates(None),
    }
}

/// The private key that a file must hold, given what was found in it, if it could be
/// parsed.
pub fn some_private_key(found: Option<Option<PrivateKey>>) -> (key: Result<PrivateKey, PemError>)
    ensures
        key == match found {
            None => Err::<PrivateKey, PemError>(PemError::Malformed),
            Some(None) => Err(PemError::Empty),
            Some(Some(k)) => Ok(k),
        },
{
    match found {
        None => Err(PemError::Malformed),
        Some(None) => Err(PemError::Empty),
        Some(Some(key)) => Ok(key),
    }
}

/// The first private key in a PEM file.
pub fn private_key(pem: &[u8]) -> (key: Result<PrivateKey, PemError>)
    ensures
        match pem_private_key(pem@) {
            None => key == Err::<PrivateKey, PemError>(PemError::Malformed),
            Some(None) => key == Err::<PrivateKey, PemError>(PemError::Empty),
            Some(Some((kind, der))) => key matches Ok(k) && k.kind == kind && k.der@ == der,
        },
{
    match read_private_key(pem) {
        Ok(found) => some_private_key(Some(found)),
        Err(_) => some_private_key(None),
    }
}

/// A file that cannot be parsed is malformed, one that holds nothing of the kind is empty,
/// and from any other all certificates come in order, and the first key with its kind.
pub proof fn law_pem_files_give_what_they_hold(
    pem: &[u8],
    list: Result<Vec<Vec<u8>>, PemError>,
    key: Result<PrivateKey, PemError>,
)
    requires
        call_ensures(certificates, (pem,), list),
        call_ensures(private_key, (pem,), key),
    ensures
        pem_certificates(pem@) is None <==> list == Err::<Vec<Vec<u8>>, PemError>(
            PemError::Malformed,
        ),
        list matches Ok(found) ==> {
            &&& found@.len() > 0
            &&& pem_certificates(pem@)->0.len() == found@.len()
            &&& forall|i: int|
                0 <= i < found@.len() ==> #[trigger] found@[i]@ == pem_certificates(pem@)->0[i]
        },
        list == Err::<Vec<Vec<u8>>, PemError>(PemError::Empty) <==> pem_certificates(pem@) is Some
            && pem_certificates(pem@)->0.len() == 0,
        pem_private_key(pem@) is None <==> key == Err::<PrivateKey, PemError>(PemError::Malformed),
        pem_private_key(pem@) == Some(None::<(KeyKind, Seq<u8>)>) <==> key == Err::<
            PrivateKey,
            PemError,
        >(PemError::Empty),
        key matches Ok(k) ==> pem_private_key(pem@) == Some(Some((k.kind, k.der@))),
{
    match list {
        Ok(found) => {
            assert forall|i: int| 0 <= i < found@.len() implies #[trigger] found@[i]@
                == pem_certificates(pem@)->0[i] by {
                assert(erasure::shard_views(found@)[i] == found@[i]@);
            }
        },
        Err(_) => {},
    }
}

} // verus!
