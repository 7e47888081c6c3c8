//! TLS authority used to terminate guest `CONNECT` tunnels.
//!
//! The browser cannot expose a raw socket, so HTTPS proxying has to decrypt the
//! guest's TLS locally and hand the resulting HTTP request to `fetch()`. This
//! module owns one ephemeral CA and leaf signing key, plans the CA certificate
//! and a hostname-specific certificate on demand, and creates rustls server
//! sessions for the tunnel. The embedding signs the certificates that are
//! planned here.

use vstd::prelude::*;
use std::sync::Arc;
use crate::session::{chain_fits, config_of, session_of, HostConfig, Session, SessionView};
use crate::text::{chars_of, same, string_of};

verus! {

/// The error of the system's entropy source.
#[verifier::external_type_specification]
#[verifier::external_body]
pub struct ExEntropyError(getrandom::Error);

/// The error of the PKCS#8 encoder.
#[verifier::external_type_specification]
#[verifier::external_body]
pub struct ExPkcs8Error(ed25519_dalek::pkcs8::Error);

/// The error of the PEM encoder.
#[verifier::external_type_specification]
#[verifier::external_body]
pub struct ExPemError(pem_rfc7468::Error);

/// The root certificates that a TLS client trusts.
#[verifier::external_type_specification]
#[verifier::external_body]
pub struct ExRootCertStore(rustls::RootCertStore);

/// What a TLS client accepts.
#[verifier::external_type_specification]
#[verifier::external_body]
pub struct ExClientConfig(rustls::ClientConfig);

/// The SHA-256 digest of a message.
pub uninterp spec fn sha256(message: Seq<u8>) -> Seq<u8>;

/// The Ed25519 public key that belongs to a seed.
pub uninterp spec fn ed25519_public(seed: Seq<u8>) -> Seq<u8>;

/// The Ed25519 signature of a message under the key of a seed.
pub uninterp spec fn ed25519_signature(seed: Seq<u8>, message: Seq<u8>) -> Seq<u8>;

/// The PKCS#8 document of the key of a seed, where it can be encoded.
pub uninterp spec fn pkcs8_document(seed: Seq<u8>) -> Option<Seq<u8>>;

/// The PEM document of some data under a label, with line feeds at the ends of
/// its lines, where it can be encoded.
pub uninterp spec fn pem_document(label: Seq<char>, data: Seq<u8>) -> Option<Seq<char>>;

/// The sections of a PEM bundle that could be certificates, in order: the DER of
/// each, or that it cannot be read.
pub uninterp spec fn pem_sections(pem: Seq<u8>) -> Seq<Option<Seq<u8>>>;

/// How many of some certificates can be root certificates.
pub uninterp spec fn usable_roots(certificates: Seq<Seq<u8>>) -> nat;

/// `getrandom::getrandom` on 32 bytes: the bytes are the system's choice, and so
/// is whether there are any.
#[verifier::external_body]
fn random_seed() -> (seed: Result<[u8; 32], getrandom::Error>) {
    let mut seed = [0u8; 32];
    getrandom::getrandom(&mut seed).map(|_| seed)
}

/// `sha2::Sha256::digest`: 32 bytes that depend on the message alone.
#[verifier::external_body]
fn digest_of(message: &[u8]) -> (digest: Vec<u8>)
    ensures
        digest@ == sha256(message@),
        digest@.len() == 32,
{
    <sha2::Sha256 as sha2::Digest>::digest(message).to_vec()
}

/// `ed25519_dalek::SigningKey::from_bytes` and its verifying key: the public key
/// depends on the seed alone.
#[verifier::external_body]
fn public_of(seed: &[u8; 32]) -> (public: [u8; 32])
    ensures
        public@ == ed25519_public(seed@),
{
    *ed25519_dalek::SigningKey::from_bytes(seed).verifying_key().as_bytes()
}

/// `ed25519_dalek`'s `to_pkcs8_der`: the document, or that there is none,
/// depends on the seed alone.
#[verifier::external_body]
fn pkcs8_of(seed: &[u8; 32]) -> (der: Result<Vec<u8>, ed25519_dalek::pkcs8::Error>)
    ensures
        match der {
            Ok(der) => pkcs8_document(seed@) == Some(der@),
            Err(_) => pkcs8_document(seed@) is None,
        },
{
    let key = ed25519_dalek::SigningKey::from_bytes(seed);
    ed25519_dalek::pkcs8::EncodePrivateKey::to_pkcs8_der(&key).map(|der| der.as_bytes().to_vec())
}

/// `ed25519_dalek`'s `Signer::sign`: 64 bytes that depend on the seed and the
/// message alone.
#[verifier::external_body]
fn signature_of(seed: &[u8; 32], message: &[u8]) -> (signature: Vec<u8>)
    ensures
        signature@ == ed25519_signature(seed@, message@),
        signature@.len() == 64,
{
    let key = ed25519_dalek::SigningKey::from_bytes(seed);
    ed25519_dalek::Signer::sign(&key, message).to_bytes().to_vec()
}

/// Whether a text starts and ends as a PEM document with this label does.
pub open spec fn is_framed(text: Seq<char>, label: Seq<char>) -> bool {
    let first = "-----BEGIN "@ + label + "-----\n"@;
    let last = "\n-----END "@ + label + "-----\n"@;
    &&& text.len() >= first.len() + last.len()
    &&& text.subrange(0, first.len() as int) == first
    &&& text.subrange(text.len() - last.len(), text.len() as int) == last
}

/// `pem_rfc7468::encode_string` with `LineEnding::LF`: the document, or that
/// there is none, depends on the label and the data alone. A document lies
/// between the two boundary lines of its label. How the data is spelled between
/// them is left to the name.
#[verifier::external_body]
fn pem_of(label: &str, data: &[u8]) -> (text: Result<String, pem_rfc7468::Error>)
    ensures
        match text {
            Ok(text) => pem_document(label@, data@) == Some(text@) && is_framed(text@, label@),
            Err(_) => pem_document(label@, data@) is None,
        },
{
    pem_rfc7468::encode_string(label, pem_rfc7468::LineEnding::LF, data)
}

// ---- trust ---------------------------------------------------------------

/// What sections of a PEM bundle hold.
pub open spec fn section_views(sections: Seq<Option<Vec<u8>>>) -> Seq<Option<Seq<u8>>> {
    sections.map_values(
        |s: Option<Vec<u8>>|
            match s {
                Some(der) => Some(der@),
                None => None,
            },
    )
}

/// What several certificates hold.
pub open spec fn ders(certificates: Seq<Vec<u8>>) -> Seq<Seq<u8>> {
    certificates.map_values(|der: Vec<u8>| der@)
}

/// `rustls_pki_types`'s `pem_slice_iter` for certificates: the sections of a
/// bundle, each with its DER or failed. They depend on the bundle alone.
#[verifier::external_body]
fn sections_of(pem: &[u8]) -> (sections: Vec<Option<Vec<u8>>>)
    ensures
        section_views(sections@) == pem_sections(pem@),
{
    <rustls_pki_types::CertificateDer as rustls_pki_types::pem::PemObject>::pem_slice_iter(pem)
        .map(|section| section.ok().map(|der| der.to_vec()))
        .collect()
}

/// The certificates among the sections of a bundle. A section that cannot be
/// read is left out.
pub open spec fn readable(sections: Seq<Option<Seq<u8>>>) -> Seq<Seq<u8>>
    decreases sections.len(),
{
    if sections.len() == 0 {
        Seq::empty()
    } else {
        match sections.last() {
            Some(der) => readable(sections.drop_last()).push(der),
            None => readable(sections.drop_last()),
        }
    }
}

/// Keep the sections that could be read.
pub fn certificates_among(sections: &Vec<Option<Vec<u8>>>) -> (certificates: Vec<Vec<u8>>)
    ensures
        ders(certificates@) == readable(section_views(sections@)),
{
    let mut certificates: Vec<Vec<u8>> = Vec::new();
    let mut i: usize = 0;
    assert(ders(certificates@) =~= readable(section_views(sections@).take(0)));
    while i < sections.len()
        invariant
            i <= sections@.len(),
            ders(certificates@) == readable(section_views(sections@).take(i as int)),
        decreases sections@.len() - i,
    {
        let ghost before = certificates@;
        let ghost taken = section_views(sections@).take(i + 1);
        assert(taken.drop_last() =~= section_views(sections@).take(i as int));
        if let Some(der) = &sections[i] {
            let der: Vec<u8> = vstd::slice::slice_to_vec(der.as_slice());
            certificates.push(der);
            assert(ders(certificates@) =~= ders(before).push(der@));
        }
        i = i + 1;
    }
    assert(section_views(sections@).take(i as int) =~= section_views(sections@));
    certificates
}

/// Root certificates, and what they were made from.
struct Roots {
    store: rustls::RootCertStore,
    offered: Ghost<Seq<Seq<u8>>>,
}

/// What clients accept that trust some certificates.
pub struct Trust {
    config: Arc<rustls::ClientConfig>,
    offered: Ghost<Seq<Seq<u8>>>,
}

impl Trust {
    /// The certificates that are trusted, as far as they can be root
    /// certificates.
    pub closed spec fn offered(&self) -> Seq<Seq<u8>> {
        self.offered@
    }

    /// The configuration of clients.
    pub closed spec fn spec_config(&self) -> Arc<rustls::ClientConfig> {
        self.config
    }

    /// The configuration of clients.
    pub fn config(&self) -> (config: &Arc<rustls::ClientConfig>)
        ensures
            *config == self.spec_config(),
    {
        &self.config
    }
}

/// `rustls::RootCertStore::add_parsable_certificates` on an empty store: how many
/// certificates were added depends on them alone. How each is read is left to
/// the store.
#[verifier::external_body]
fn roots_of(certificates: Vec<Vec<u8>>) -> (r: (usize, Roots))
    ensures
        r.0 == usable_roots(ders(certificates@)),
        r.1.offered@ == ders(certificates@),
{
    let mut store = rustls::RootCertStore::empty();
    let (added, _) = store.add_parsable_certificates(
        certificates.into_iter().map(rustls_pki_types::CertificateDer::from));
    (added, Roots { store, offered: Ghost(Seq::empty()) })
}

/// `rustls::ClientConfig` for these roots, without client authentication and
/// without protocol negotiation, on the provider of
/// `oxitls_rustcrypto_provider`. The error is that of
/// `with_safe_default_protocol_versions`, which never comes: it looks at the
/// provider's cipher suites and groups alone, and they suit.
#[verifier::external_body]
fn client_of(roots: Roots) -> (trust: Result<Trust, rustls::Error>)
    ensures
        trust is Ok,
        trust->Ok_0.offered() == roots.offered@,
{
    rustls::ClientConfig::builder_with_provider(Arc::new(oxitls_rustcrypto_provider::provider()))
        .with_safe_default_protocol_versions()
        .map(|b| Arc::new(b.with_root_certificates(roots.store).with_no_client_auth()))
        .map(|config| Trust { config, offered: Ghost(Seq::empty()) })
}

/// Why there is no client configuration.
pub enum TrustError {
    /// The bundle holds no usable certificate.
    NoCertificates,
    Versions(rustls::Error),
}

/// The configuration of clients that trust the certificates of a PEM bundle. It
/// negotiates no protocol, so that servers select HTTP/1.1.
pub fn client_config(pem: &[u8]) -> (r: Result<Trust, TrustError>)
    ensures
        match r {
            Ok(trust) => {
                &&& trust.offered() == readable(pem_sections(pem@))
                &&& usable_roots(readable(pem_sections(pem@))) > 0
            },
            Err(e) => e is NoCertificates && usable_roots(readable(pem_sections(pem@))) == 0,
        },
{
    let sections: Vec<Option<Vec<u8>>> = sections_of(pem);
    let (added, roots): (usize, Roots) = roots_of(certificates_among(&sections));
    if added == 0 {
        return Err(TrustError::NoCertificates);
    }
    match client_of(roots) {
        Ok(trust) => Ok(trust),
        Err(e) => Err(TrustError::Versions(e)),
    }
}

// ---- keys ----------------------------------------------------------------

/// Why there is no key.
#[derive(Debug)]
pub enum KeyError {
    Entropy(getrandom::Error),
    Pkcs8(ed25519_dalek::pkcs8::Error),
}

/// An Ed25519 key with what certificates need of it.
pub struct EdKey {
    seed: [u8; 32],
    public: [u8; 32],
    pkcs8: Vec<u8>,
}

/// A key identifier cut to the length of a serial number, with the top bit
/// cleared: a positive number of twenty bytes.
pub open spec fn serial_of(key_id: Seq<u8>) -> Seq<u8> {
    key_id.subrange(0, 20).update(0, (key_id[0] % 128) as u8)
}

impl EdKey {
    pub closed spec fn spec_seed(&self) -> Seq<u8> {
        self.seed@
    }

    /// The public key and the document belong to the seed.
    pub closed spec fn wf(&self) -> bool {
        &&& self.public@ == ed25519_public(self.seed@)
        &&& pkcs8_document(self.seed@) == Some(self.pkcs8@)
    }

    /// A key from the system's entropy. Whether there is one is up to the
    /// system; a key that comes is as [`from_seed`](EdKey::from_seed) makes it.
    pub fn generate() -> (r: Result<EdKey, KeyError>)
        ensures
            r matches Ok(key) ==> key.wf(),
    {
        match random_seed() {
            Err(e) => Err(KeyError::Entropy(e)),
            Ok(seed) => EdKey::from_seed(seed),
        }
    }

    /// The key of a seed.
    pub fn from_seed(seed: [u8; 32]) -> (r: Result<EdKey, KeyError>)
        ensures
            r is Ok <==> pkcs8_document(seed@) is Some,
            r matches Ok(key) ==> key.wf() && key.spec_seed() == seed@,
            r matches Err(e) ==> e is Pkcs8,
    {
        let public: [u8; 32] = public_of(&seed);
        match pkcs8_of(&seed) {
            Err(e) => Err(KeyError::Pkcs8(e)),
            Ok(pkcs8) => Ok(EdKey { seed, public, pkcs8 }),
        }
    }

    /// The public key.
    pub fn public(&self) -> (public: &[u8; 32])
        requires
            self.wf(),
        ensures
            public@ == ed25519_public(self.spec_seed()),
    {
        &self.public
    }

    /// The private key as a PKCS#8 document.
    pub fn pkcs8(&self) -> (der: &Vec<u8>)
        requires
            self.wf(),
        ensures
            pkcs8_document(self.spec_seed()) == Some(der@),
    {
        &self.pkcs8
    }

    /// The identifier of the key: the digest of its public key.
    pub fn key_id(&self) -> (id: Vec<u8>)
        requires
            self.wf(),
        ensures
            id@ == sha256(ed25519_public(self.spec_seed())),
            id@.len() == 32,
    {
        digest_of(self.public.as_slice())
    }

    /// The serial number of a certificate for the key.
    pub fn serial(&self) -> (serial: Vec<u8>)
        requires
            self.wf(),
        ensures
            serial@ == serial_of(sha256(ed25519_public(self.spec_seed()))),
            serial@.len() == 20,
            serial@[0] < 128,
    {
        let id: Vec<u8> = self.key_id();
        cut_serial(id.as_slice())
    }

    /// The signature of a message.
    pub fn sign(&self, message: &[u8]) -> (signature: Vec<u8>)
        ensures
            signature@ == ed25519_signature(self.spec_seed(), message@),
            signature@.len() == 64,
    {
        signature_of(&self.seed, message)
    }
}

/// A serial number from a key identifier.
pub fn cut_serial(key_id: &[u8]) -> (serial: Vec<u8>)
    requires
        key_id@.len() >= 20,
    ensures
        serial@ == serial_of(key_id@),
        serial@.len() == 20,
        serial@[0] < 128,
{
    let mut serial: Vec<u8> = crate::bytes::copy_range(key_id, 0, 20);
    let top: u8 = serial[0] % 128;
    serial.set(0, top);
    serial
}

// ---- certificates --------------------------------------------------------

/// What a certificate allows its key.
#[derive(Debug, Clone, Copy, PartialEq, Eq, Structural)]
pub enum KeyUsage {
    KeyCertSign,
    DigitalSignature,
    CrlSign,
}

/// A certificate that the embedding is to sign.
pub struct CertificatePlan {
    pub common_name: String,
    pub subject_alt_names: Vec<String>,
    pub serial: Vec<u8>,
    pub key_id: Vec<u8>,
    pub is_ca: bool,
    pub key_usages: Vec<KeyUsage>,
    /// Whether the certificate is for TLS servers.
    pub server_auth: bool,
    /// Whether the certificate names the key of its issuer.
    pub authority_key_id: bool,
}

impl CertificatePlan {
    /// The serial number and the identifier are those of a seed's key.
    pub open spec fn is_for(&self, seed: Seq<u8>) -> bool {
        &&& self.key_id@ == sha256(ed25519_public(seed))
        &&& self.serial@ == serial_of(sha256(ed25519_public(seed)))
    }
}

/// The certificate of the authority itself, to be signed with its own key.
pub fn ca_plan(key: &EdKey) -> (plan: CertificatePlan)
    requires
        key.wf(),
    ensures
        plan.is_for(key.spec_seed()),
        plan.common_name@ == "rv64.js ephemeral proxy CA"@,
        plan.subject_alt_names@.len() == 0,
        plan.is_ca,
        plan.key_usages@ == seq![
            KeyUsage::KeyCertSign,
            KeyUsage::DigitalSignature,
            KeyUsage::CrlSign,
        ],
        !plan.server_auth,
        !plan.authority_key_id,
{
    let mut key_usages: Vec<KeyUsage> = Vec::new();
    key_usages.push(KeyUsage::KeyCertSign);
    key_usages.push(KeyUsage::DigitalSignature);
    key_usages.push(KeyUsage::CrlSign);
    assert(key_usages@ =~= seq![
        KeyUsage::KeyCertSign,
        KeyUsage::DigitalSignature,
        KeyUsage::CrlSign,
    ]);
    let name: Vec<char> = chars_of("rv64.js ephemeral proxy CA");
    CertificatePlan {
        common_name: string_of(name.as_slice()),
        subject_alt_names: Vec::new(),
        serial: key.serial(),
        key_id: key.key_id(),
        is_ca: true,
        key_usages,
        server_auth: false,
        authority_key_id: false,
    }
}

/// The certificate of one host, to be signed with the authority's key.
pub fn leaf_plan(key: &EdKey, host: &str) -> (plan: CertificatePlan)
    requires
        key.wf(),
    ensures
        plan.is_for(key.spec_seed()),
        plan.common_name@ == host@,
        plan.subject_alt_names@.len() == 1,
        plan.subject_alt_names@[0]@ == host@,
        !plan.is_ca,
        plan.key_usages@ == seq![KeyUsage::DigitalSignature],
        plan.server_auth,
        plan.authority_key_id,
{
    let mut key_usages: Vec<KeyUsage> = Vec::new();
    key_usages.push(KeyUsage::DigitalSignature);
    assert(key_usages@ =~= seq![KeyUsage::DigitalSignature]);
    let name: Vec<char> = chars_of(host);
    let mut subject_alt_names: Vec<String> = Vec::new();
    subject_alt_names.push(string_of(name.as_slice()));
    CertificatePlan {
        common_name: string_of(name.as_slice()),
        subject_alt_names,
        serial: key.serial(),
        key_id: key.key_id(),
        is_ca: false,
        key_usages,
        server_auth: true,
        authority_key_id: true,
    }
}

// ---- the authority -------------------------------------------------------

/// Why a session cannot be had.
#[derive(Debug)]
pub enum TlsError {
    Versions(rustls::Error),
    Certificate(rustls::Error),
    Server(rustls::Error),
}

impl TlsError {
    /// What a report of the failure starts with: at which stage it came.
    pub open spec fn stage(self) -> Seq<char> {
        match self {
            TlsError::Versions(_) => "TLS versions: "@,
            TlsError::Certificate(_) => "TLS certificate/key: "@,
            TlsError::Server(_) => "TLS server: "@,
        }
    }
}

/// An ephemeral MITM CA plus hostname-specific rustls configuration cache.
pub struct TlsAuthority {
    ca_key: EdKey,
    leaf_key: EdKey,
    ca_der: Vec<u8>,
    ca_pem: String,
    configs: Vec<(Vec<char>, HostConfig)>,
}

impl TlsAuthority {
    /// The hosts that have a configuration, in the order in which they came.
    pub closed spec fn hosts(&self) -> Seq<Seq<char>> {
        self.configs@.map_values(|c: (Vec<char>, HostConfig)| c.0@)
    }

    /// The certificate that was signed for a host.
    pub closed spec fn leaf_of(&self, host: Seq<char>) -> Seq<u8> {
        self.configs@[self.hosts().index_of(host)].1.leaf()
    }

    /// The certificate of every host that has a configuration.
    pub open spec fn leaves(&self) -> Map<Seq<char>, Seq<u8>> {
        Map::new(|host: Seq<char>| self.hosts().contains(host), |host: Seq<char>| self.leaf_of(host))
    }

    /// The private key of host certificates as a PKCS#8 document.
    pub open spec fn leaf_key_document(&self) -> Seq<u8> {
        pkcs8_document(self.spec_leaf_seed())->0
    }

    pub closed spec fn spec_ca_seed(&self) -> Seq<u8> {
        self.ca_key.spec_seed()
    }

    pub closed spec fn spec_leaf_seed(&self) -> Seq<u8> {
        self.leaf_key.spec_seed()
    }

    pub closed spec fn spec_ca_der(&self) -> Seq<u8> {
        self.ca_der@
    }

    closed spec fn keys_wf(&self) -> bool {
        &&& self.ca_key.wf()
        &&& self.leaf_key.wf()
        &&& pem_document("CERTIFICATE"@, self.ca_der@) == Some(self.ca_pem@)
        &&& is_framed(self.ca_pem@, "CERTIFICATE"@)
    }

    /// The keys are whole, the PEM document is that of the certificate, and no
    /// host has two configurations.
    pub closed spec fn wf(&self) -> bool {
        &&& self.keys_wf()
        &&& self.hosts().no_duplicates()
    }

    /// An authority whose certificate, as [`ca_plan`] has it, was signed with
    /// `ca_key`. The error is that of the PEM encoder.
    pub fn new(ca_key: EdKey, leaf_key: EdKey, ca_der: Vec<u8>) -> (r: Result<
        TlsAuthority,
        pem_rfc7468::Error,
    >)
        requires
            ca_key.wf(),
            leaf_key.wf(),
        ensures
            r is Ok <==> pem_document("CERTIFICATE"@, ca_der@) is Some,
            r matches Ok(ca) ==> {
                &&& ca.wf()
                &&& ca.hosts() == Seq::<Seq<char>>::empty()
                &&& ca.spec_ca_seed() == ca_key.spec_seed()
                &&& ca.spec_leaf_seed() == leaf_key.spec_seed()
                &&& ca.spec_ca_der() == ca_der@
            },
    {
        match pem_of("CERTIFICATE", ca_der.as_slice()) {
            Err(e) => Err(e),
            Ok(ca_pem) => {
                let ca = TlsAuthority { ca_key, leaf_key, ca_der, ca_pem, configs: Vec::new() };
                assert(ca.hosts() =~= Seq::<Seq<char>>::empty());
                Ok(ca)
            },
        }
    }

    /// The certificate of the authority.
    pub fn ca_der(&self) -> (der: &[u8])
        ensures
            der@ == self.spec_ca_der(),
    {
        self.ca_der.as_slice()
    }

    /// The certificate of the authority as a PEM document.
    pub fn ca_pem(&self) -> (pem: &str)
        requires
            self.wf(),
        ensures
            pem_document("CERTIFICATE"@, self.spec_ca_der()) == Some(pem@),
            is_framed(pem@, "CERTIFICATE"@),
    {
        self.ca_pem.as_str()
    }

    /// The key that signs host certificates.
    pub fn ca_key(&self) -> (key: &EdKey)
        requires
            self.wf(),
        ensures
            key.wf(),
            key.spec_seed() == self.spec_ca_seed(),
    {
        &self.ca_key
    }

    /// The key that host certificates are for.
    pub fn leaf_key(&self) -> (key: &EdKey)
        requires
            self.wf(),
        ensures
            key.wf(),
            key.spec_seed() == self.spec_leaf_seed(),
    {
        &self.leaf_key
    }

    fn find(&self, host: &[char]) -> (at: Option<usize>)
        ensures
            match at {
                Some(i) => i < self.hosts().len() && self.hosts()[i as int] == host@,
                None => !self.hosts().contains(host@),
            },
            self.hosts().len() == self.configs@.len(),
    {
        let mut i: usize = 0;
        while i < self.configs.len()
            invariant
                i <= self.configs@.len(),
                forall|k: int| 0 <= k < i ==> #[trigger] self.hosts()[k] != host@,
            decreases self.configs@.len() - i,
        {
            assert(self.hosts()[i as int] == self.configs@[i as int].0@);
            if same(self.configs[i].0.as_slice(), host) {
                return Some(i);
            }
            i = i + 1;
        }
        None
    }

    /// How many hosts have a configuration.
    pub fn config_count(&self) -> (n: usize)
        ensures
            n == self.hosts().len(),
    {
        self.configs.len()
    }

    /// Whether a host has a configuration.
    pub fn certifies(&self, host: &str) -> (r: bool)
        ensures
            r == self.hosts().contains(host@),
    {
        let name: Vec<char> = chars_of(host);
        self.find(name.as_slice()).is_some()
    }

    /// A session for a host that has a configuration: it presents the
    /// certificate of that host. A host that has none needs a certificate first:
    /// see [`leaf_plan`] and [`enroll`](TlsAuthority::enroll).
    pub fn server(&self, host: &str) -> (session: Option<Result<Session, TlsError>>)
        requires
            self.wf(),
        ensures
            match session {
                Some(s) => {
                    &&& self.hosts().contains(host@)
                    &&& s matches Ok(s) && s@ == SessionView::fresh(self.leaf_of(host@))
                },
                None => !self.hosts().contains(host@),
            },
    {
        let name: Vec<char> = chars_of(host);
        match self.find(name.as_slice()) {
            None => None,
            Some(i) => {
                assert(self.hosts().index_of(host@) == i);
                match session_of(&self.configs[i].1) {
                    Ok(session) => Some(Ok(session)),
                    Err(e) => Some(Err(TlsError::Server(e))),
                }
            },
        }
    }

    /// Build and keep the configuration of a host from its certificate, and
    /// open a session. A certificate that is refused leaves nothing behind.
    pub fn enroll(&mut self, host: &str, leaf_der: Vec<u8>) -> (session: Result<Session, TlsError>)
        requires
            old(self).wf(),
            !old(self).hosts().contains(host@),
        ensures
            final(self).wf(),
            final(self).spec_ca_seed() == old(self).spec_ca_seed(),
            final(self).spec_leaf_seed() == old(self).spec_leaf_seed(),
            final(self).spec_ca_der() == old(self).spec_ca_der(),
            forall|h: Seq<char>| #[trigger]
                old(self).hosts().contains(h) ==> final(self).leaf_of(h) == old(self).leaf_of(h),
            pkcs8_document(old(self).spec_leaf_seed()) is Some,
            if chain_fits(leaf_der@, old(self).spec_ca_der(), old(self).leaf_key_document()) {
                &&& session matches Ok(s) && s@ == SessionView::fresh(leaf_der@)
                &&& final(self).hosts() == old(self).hosts().push(host@)
                &&& final(self).leaf_of(host@) == leaf_der@
            } else {
                &&& session matches Err(e) && e is Certificate
                &&& final(self).hosts() == old(self).hosts()
            },
    {
        let ca_der: Vec<u8> = vstd::slice::slice_to_vec(self.ca_der.as_slice());
        let pkcs8: Vec<u8> = vstd::slice::slice_to_vec(self.leaf_key.pkcs8.as_slice());
        let config: HostConfig = match config_of(leaf_der, ca_der, pkcs8) {
            Err(e) => {
                return Err(TlsError::Versions(e));
            },
            Ok(Err(e)) => {
                return Err(TlsError::Certificate(e));
            },
            Ok(Ok(config)) => config,
        };
        let name: Vec<char> = chars_of(host);
        let session: Result<Session, rustls::Error> = session_of(&config);
        self.configs.push((name, config));
        proof {
            let was = old(self).hosts();
            assert(self.hosts() =~= was.push(host@));
            assert forall|h: Seq<char>| #[trigger] was.contains(h) implies self.leaf_of(h)
                == old(self).leaf_of(h) by {
                let i = was.index_of(h);
                assert(self.hosts()[i] == h);
                assert(self.hosts().index_of(h) == i);
            }
            assert(self.hosts()[was.len() as int] == host@);
            assert(self.hosts().index_of(host@) == was.len());
        }
        match session {
            Ok(session) => Ok(session),
            Err(e) => Err(TlsError::Server(e)),
        }
    }
}

} // verus!
