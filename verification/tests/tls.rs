use rcgen::{
    BasicConstraints, CertificateParams, DistinguishedName, DnType, ExtendedKeyUsagePurpose, IsCa,
    Issuer, KeyIdMethod, KeyUsagePurpose, PublicKeyData, SerialNumber, SignatureAlgorithm,
    SigningKey, PKCS_ED25519,
};
use rv64_system::session::Session;
use rv64_system::tls::{
    ca_plan, cut_serial, leaf_plan, CertificatePlan, EdKey, KeyUsage, TlsAuthority,
};

struct Signer<'a>(&'a EdKey);

impl PublicKeyData for Signer<'_> {
    fn der_bytes(&self) -> &[u8] {
        self.0.public()
    }

    fn algorithm(&self) -> &'static SignatureAlgorithm {
        &PKCS_ED25519
    }
}

impl SigningKey for Signer<'_> {
    fn sign(&self, msg: &[u8]) -> Result<Vec<u8>, rcgen::Error> {
        Ok(self.0.sign(msg))
    }
}

fn params_of(plan: &CertificatePlan) -> CertificateParams {
    let mut distinguished_name = DistinguishedName::new();
    distinguished_name.push(DnType::CommonName, plan.common_name.as_str());
    let mut params = CertificateParams::new(plan.subject_alt_names.clone()).unwrap();
    params.serial_number = Some(SerialNumber::from(plan.serial.clone()));
    params.distinguished_name = distinguished_name;
    if plan.is_ca {
        params.is_ca = IsCa::Ca(BasicConstraints::Unconstrained);
    }
    params.key_usages = plan
        .key_usages
        .iter()
        .map(|usage| match usage {
            KeyUsage::KeyCertSign => KeyUsagePurpose::KeyCertSign,
            KeyUsage::DigitalSignature => KeyUsagePurpose::DigitalSignature,
            KeyUsage::CrlSign => KeyUsagePurpose::CrlSign,
        })
        .collect();
    if plan.server_auth {
        params.extended_key_usages = vec![ExtendedKeyUsagePurpose::ServerAuth];
    }
    params.use_authority_key_identifier_extension = plan.authority_key_id;
    params.key_identifier_method = KeyIdMethod::PreSpecified(plan.key_id.clone());
    params
}

fn authority() -> (TlsAuthority, CertificateParams) {
    let ca_key = EdKey::generate().unwrap();
    let leaf_key = EdKey::generate().unwrap();
    let params = params_of(&ca_plan(&ca_key));
    let ca_der = params.self_signed(&Signer(&ca_key)).unwrap().der().to_vec();
    let ca = TlsAuthority::new(ca_key, leaf_key, ca_der).unwrap();
    (ca, params)
}

fn serve(
    ca: &mut TlsAuthority,
    ca_params: &CertificateParams,
    host: &str,
) -> Session {
    if let Some(session) = ca.server(host) {
        return session.unwrap();
    }
    let signer = Signer(ca.ca_key());
    let issuer = Issuer::from_params(ca_params, &signer);
    let leaf_der = params_of(&leaf_plan(ca.leaf_key(), host))
        .signed_by(&Signer(ca.leaf_key()), &issuer)
        .unwrap()
        .der()
        .to_vec();
    ca.enroll(host, leaf_der).unwrap()
}

#[test]
fn mints_a_server_config_and_reuses_it() {
    let (mut ca, params) = authority();
    assert!(ca.ca_der().len() > 200);
    assert!(ca.ca_pem().starts_with("-----BEGIN CERTIFICATE-----\n"));
    assert!(ca.ca_pem().ends_with("-----END CERTIFICATE-----\n"));
    let a = serve(&mut ca, &params, "example.test");
    let b = serve(&mut ca, &params, "example.test");
    assert!(a.connection().is_handshaking());
    assert!(b.connection().is_handshaking());
    assert_eq!(ca.config_count(), 1);
}

#[test]
fn each_host_has_a_configuration_of_its_own() {
    let (mut ca, params) = authority();
    assert!(ca.server("a.test").is_none());
    serve(&mut ca, &params, "a.test");
    assert!(ca.server("a.test").is_some());
    assert!(ca.server("b.test").is_none());
    serve(&mut ca, &params, "b.test");
    assert_eq!(ca.config_count(), 2);
}

fn hex(text: &str) -> Vec<u8> {
    (0..text.len() / 2)
        .map(|i| u8::from_str_radix(&text[i * 2..i * 2 + 2], 16).unwrap())
        .collect()
}

/// First test vector of RFC 8032.
const SEED: &str = "9d61b19deffd5a60ba844af492ec2cc44449c5697b326919703bac031cae7f60";
const PUBLIC: &str = "d75a980182b10ab7d54bfed3c964073a0ee172f3daa62325af021a68f707511a";
const SIGNATURE: &str = "e5564300c360ac729086e2cc806e828a84877f1eb8e5d974d873e065224901555fb8821590a33bacc61e39701cf9b46bd25bf5f0595bbe24655141438e7a100b";

fn vector_key() -> EdKey {
    let seed: [u8; 32] = hex(SEED).try_into().unwrap();
    EdKey::from_seed(seed).unwrap()
}

#[test]
fn a_seed_gives_the_published_key_and_signature() {
    let key = vector_key();
    assert_eq!(key.public().to_vec(), hex(PUBLIC));
    assert_eq!(key.sign(b""), hex(SIGNATURE));
}

#[test]
fn the_private_key_document_holds_the_seed() {
    let key = vector_key();
    let seed = hex(SEED);
    assert!(key.pkcs8().len() > 32);
    assert!(key.pkcs8().windows(32).any(|window| window == seed));
}

#[test]
fn the_serial_is_the_cut_digest_of_the_public_key() {
    let key = vector_key();
    let id = key.key_id();
    assert_eq!(id.len(), 32);
    assert_ne!(id, key.public().to_vec());
    let serial = key.serial();
    assert_eq!(serial, cut_serial(&id));
    assert_eq!(serial[1..], id[1..20]);
    assert_eq!(serial[0], id[0] & 0x7f);
    assert_eq!(cut_serial(&[0xff; 32])[0], 0x7f);
}

#[test]
fn plans_say_what_the_certificates_are_for() {
    let key = vector_key();
    let ca = ca_plan(&key);
    assert_eq!(ca.common_name, "rv64.js ephemeral proxy CA");
    assert!(ca.is_ca);
    assert_eq!(
        ca.key_usages,
        vec![KeyUsage::KeyCertSign, KeyUsage::DigitalSignature, KeyUsage::CrlSign],
    );
    let leaf = leaf_plan(&key, "host.test");
    assert_eq!(leaf.common_name, "host.test");
    assert_eq!(leaf.subject_alt_names, vec!["host.test".to_string()]);
    assert!(!leaf.is_ca && leaf.server_auth && leaf.authority_key_id);
    assert_eq!(leaf.serial, key.serial());
    assert_eq!(leaf.key_id, key.key_id());
}
