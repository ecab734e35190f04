//! What the TLS library decides: names of servers, the settings of both ends, and the
//! certificates and keys in PEM files.
use rustls::pki_types::pem::PemObject;
use rustls::pki_types::{CertificateDer, InvalidDnsNameError, PrivateKeyDer, ServerName};
use rustls::{ClientConfig, RootCertStore, ServerConfig};
use std::sync::Arc;
use vstd::prelude::*;

use crate::command::list_bytes;

verus! {

/// A name under which a server is asked for.
#[verifier::external_type_specification]
#[verifier::external_body]
pub struct ExServerName<'a>(ServerName<'a>);

/// The error of a name that no server can have.
#[verifier::external_type_specification]
#[verifier::external_body]
pub struct ExInvalidDnsNameError(InvalidDnsNameError);

/// The settings of a client's end.
#[verifier::external_type_specification]
#[verifier::external_body]
pub struct ExClientConfig(ClientConfig);

/// The settings of a server's end.
#[verifier::external_type_specification]
#[verifier::external_body]
pub struct ExServerConfig(ServerConfig);

/// The errors of the TLS library.
#[verifier::external_type_specification]
#[verifier::external_body]
pub struct ExTlsError(rustls::Error);

/// The errors of reading PEM.
#[verifier::external_type_specification]
#[verifier::external_body]
pub struct ExPemError(rustls::pki_types::pem::Error);

/// The name that `ServerName::try_from` makes of `host`, if `host` is a DNS name or an IP address.
pub uninterp spec fn server_name_of(host: Seq<char>) -> Option<ServerName<'static>>;

/// `ServerName::try_from` on a string: the name depends on the string alone, and exactly the DNS
/// names and IP addresses have one.
#[verifier::external_body]
pub(crate) fn parse_server_name(host: String) -> (r: Result<
    ServerName<'static>,
    InvalidDnsNameError,
>)
    ensures
        match r {
            Ok(name) => server_name_of(host@) == Some(name),
            Err(_) => server_name_of(host@) is None,
        },
{
    ServerName::try_from(host)
}

/// The settings have servers show a certificate that goes back to one of
/// `webpki_roots::TLS_SERVER_ROOTS`, and show no certificate themselves.
pub uninterp spec fn trusts_public_roots(config: ClientConfig) -> bool;

/// `rustls::ClientConfig`, built on *ring* with the default protocol versions, the roots of
/// `webpki_roots::TLS_SERVER_ROOTS` and no certificate of its own. *ring* has cipher suites and
/// key exchanges for those versions, so that none of this is refused, and the settings trust those
/// roots and no others. What else the settings hold is not stated.
#[verifier::external_body]
pub(crate) fn build_client_config() -> (r: Result<ClientConfig, rustls::Error>)
    ensures
        r is Ok,
        r matches Ok(config) ==> trusts_public_roots(config),
{
    let mut root_store = RootCertStore::empty();
    root_store.extend(webpki_roots::TLS_SERVER_ROOTS.iter().cloned());
    let provider = Arc::new(rustls::crypto::ring::default_provider());
    let builder = ClientConfig::builder_with_provider(provider);
    let versions = builder.with_safe_default_protocol_versions()?;
    Ok(versions.with_root_certificates(root_store).with_no_client_auth())
}

/// What `CertificateDer::pem_reader_iter` gives of a PEM file, in order: each certificate, in DER,
/// and nothing for each fault.
pub uninterp spec fn pem_items(pem: Seq<u8>) -> Seq<Option<Seq<u8>>>;

/// Items, with what they hold.
pub open spec fn item_bytes(items: Seq<Option<Vec<u8>>>) -> Seq<Option<Seq<u8>>> {
    items.map_values(
        |item: Option<Vec<u8>>|
            match item {
                Some(der) => Some(der@),
                None => None,
            },
    )
}

/// `CertificateDer::pem_reader_iter`, to its end: the certificates and the faults of `pem`.
#[verifier::external_body]
fn read_items(pem: &[u8]) -> (r: Vec<Option<Vec<u8>>>)
    ensures
        item_bytes(r@) == pem_items(pem@),
{
    CertificateDer::pem_reader_iter(pem).map(|item| item.ok().map(|der| der.to_vec())).collect()
}

/// The certificates of a PEM file in order, in DER, if there is no fault in it.
pub open spec fn pem_certificates(pem: Seq<u8>) -> Option<Seq<Seq<u8>>> {
    let items = pem_items(pem);
    if forall|i: int| 0 <= i < items.len() ==> (#[trigger] items[i]) is Some {
        Some(items.map_values(|item: Option<Seq<u8>>| item->0))
    } else {
        None
    }
}

/// The certificates of a file are its items, one for one and in the order of the file, and a file
/// has certificates exactly if none of its items is a fault.
pub proof fn law_certificates_in_file_order(pem: Seq<u8>, i: int)
    ensures
        pem_certificates(pem) matches Some(chain) ==> chain.len() == pem_items(pem).len() && (0 <= i
            < chain.len() ==> pem_items(pem)[i] == Some(chain[i])),
        pem_certificates(pem) is None <==> exists|k: int|
            0 <= k < pem_items(pem).len() && (#[trigger] pem_items(pem)[k]) is None,
{
}

/// Items are taken one by one.
pub proof fn law_items_one_by_one(items: Seq<Option<Vec<u8>>>, i: int)
    ensures
        item_bytes(items).len() == items.len(),
        0 <= i < items.len() ==> (item_bytes(items)[i] is Some <==> items[i] is Some),
        0 <= i < items.len() ==> (items[i] matches Some(der) ==> item_bytes(items)[i] == Some(der@)),
{
}

/// The certificates of a PEM file in order, in DER, if there is no fault in it.
pub(crate) fn read_certificates(pem: &[u8]) -> (r: Option<Vec<Vec<u8>>>)
    ensures
        match r {
            Some(list) => pem_certificates(pem@) == Some(list_bytes(list@)),
            None => pem_certificates(pem@) is None,
        },
        r matches Some(list) ==> list@.len() == pem_items(pem@).len() && forall|i: int|
            0 <= i < list@.len() ==> #[trigger] pem_items(pem@)[i] == Some(list@[i]@),
{
    let mut items = read_items(pem);
    let ghost given = items@;
    let ghost all = pem_items(pem@);
    let mut list: Vec<Vec<u8>> = Vec::new();
    let mut i: usize = 0;
    while i < items.len()
        invariant
            i <= items@.len() == given.len(),
            all == item_bytes(given),
            all == pem_items(pem@),
            forall|j: int| i <= j < given.len() ==> items@[j] == given[j],
            list@.len() == i,
            forall|j: int| 0 <= j < i ==> #[trigger] all[j] == Some(list@[j]@),
        decreases items@.len() - i,
    {
        let mut item: Option<Vec<u8>> = None;
        std::mem::swap(&mut item, &mut items[i]);
        assert(item == given[i as int]);
        match item {
            Some(der) => {
                assert(all[i as int] == Some(der@));
                list.push(der);
            },
            None => {
                assert(all[i as int] is None);
                return None;
            },
        }
        i = i + 1;
    }
    assert(all.map_values(|item: Option<Seq<u8>>| item->0) =~= list_bytes(list@));
    Some(list)
}

/// How a private key is encoded.
#[derive(Clone, Copy, Debug, PartialEq, Eq, Structural)]
pub enum KeyEncoding {
    Pkcs1,
    Sec1,
    Pkcs8,
}

/// A private key in DER.
pub struct PrivateKey {
    pub encoding: KeyEncoding,
    pub der: Vec<u8>,
}

/// The first private key of a PEM file, if one is reached before a fault.
pub uninterp spec fn pem_private_key(pem: Seq<u8>) -> Option<(KeyEncoding, Seq<u8>)>;

/// `PrivateKeyDer::from_pem_reader`: the first private key in `pem`, or the fault that goes
/// before it or stands in its place.
#[verifier::external_body]
pub(crate) fn read_private_key(pem: &[u8]) -> (r: Result<
    PrivateKey,
    rustls::pki_types::pem::Error,
>)
    ensures
        r is Ok <==> pem_private_key(pem@) is Some,
        r matches Ok(key) ==> Some((key.encoding, key.der@)) == pem_private_key(pem@),
{
    let key = PrivateKeyDer::from_pem_reader(pem)?;
    let encoding = match key {
        PrivateKeyDer::Pkcs1(_) => KeyEncoding::Pkcs1,
        PrivateKeyDer::Sec1(_) => KeyEncoding::Sec1,
        PrivateKeyDer::Pkcs8(_) => KeyEncoding::Pkcs8,
        _ => return Err(rustls::pki_types::pem::Error::NoItemsFound),
    };
    Ok(PrivateKey { encoding, der: key.secret_der().to_vec() })
}

/// The settings answer every client with the certificates of `chain` and sign with the key.
pub uninterp spec fn presents(
    config: Arc<ServerConfig>,
    chain: Seq<Seq<u8>>,
    encoding: KeyEncoding,
    der: Seq<u8>,
) -> bool;

/// The chain and the key are taken wherever the system gives random numbers: the key can be used,
/// and it is the key of the first certificate of the chain.
pub uninterp spec fn identity_accepted(
    chain: Seq<Seq<u8>>,
    encoding: KeyEncoding,
    der: Seq<u8>,
) -> bool;

/// Making the key ready draws random numbers, as it does with ECDSA keys.
pub uninterp spec fn draws_random(encoding: KeyEncoding, der: Seq<u8>) -> bool;

/// `with_single_cert` of a `rustls::ServerConfig` on *ring*, with the default protocol versions
/// and without client certificates: it takes no chain without a certificate and no identity that
/// is not accepted, and the settings that it makes answer with that chain and that key. It takes
/// every accepted identity whose key is made ready without random numbers, and a key in PKCS #1
/// always is. With random numbers that is not stated, since the system can fail to give them.
#[verifier::external_body]
pub(crate) fn build_server_config(chain: Vec<Vec<u8>>, key: PrivateKey) -> (r: Result<
    Arc<ServerConfig>,
    rustls::Error,
>)
    ensures
        chain@.len() == 0 ==> r is Err,
        r is Ok ==> identity_accepted(list_bytes(chain@), key.encoding, key.der@),
        r is Err ==> !identity_accepted(list_bytes(chain@), key.encoding, key.der@)
            || draws_random(key.encoding, key.der@),
        key.encoding is Pkcs1 && r is Err ==> !identity_accepted(
            list_bytes(chain@),
            key.encoding,
            key.der@,
        ),
        r matches Ok(config) ==> presents(config, list_bytes(chain@), key.encoding, key.der@),
{
    let provider = Arc::new(rustls::crypto::ring::default_provider());
    let certs = chain.into_iter().map(CertificateDer::from).collect();
    let der = match key.encoding {
        KeyEncoding::Pkcs1 => PrivateKeyDer::Pkcs1(key.der.into()),
        KeyEncoding::Sec1 => PrivateKeyDer::Sec1(key.der.into()),
        KeyEncoding::Pkcs8 => PrivateKeyDer::Pkcs8(key.der.into()),
    };
    let builder = ServerConfig::builder_with_provider(provider);
    let versions = builder.with_safe_default_protocol_versions()?;
    versions.with_no_client_auth().with_single_cert(certs, der).map(Arc::new)
}

} // verus!
