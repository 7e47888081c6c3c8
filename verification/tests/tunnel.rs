//! Tunnels, with a TLS client at the other end.

use rcgen::{
    BasicConstraints, CertificateParams, DistinguishedName, DnType, ExtendedKeyUsagePurpose, IsCa,
    Issuer, KeyIdMethod, KeyUsagePurpose, PublicKeyData, SerialNumber, SignatureAlgorithm,
    SigningKey, PKCS_ED25519,
};
use rustls::pki_types::ServerName;
use rv64_system::proxy::{Proxy, ProxyAction, CA_9P_DER_PATH, CA_9P_PEM_PATH, CA_URL_HTTP};
use rv64_system::tls::{
    ca_plan, certificates_among, client_config, leaf_plan, CertificatePlan, EdKey, KeyUsage,
    TlsAuthority, TlsError, TrustError,
};
use rv64_system::tunnel::{ca_export, report, Output, TunnelProxy};
use rv64_system::wire::{Completion, Request};
use std::io::{Read, Write};

struct Signer<'a>(&'a EdKey);

impl PublicKeyData for Signer<'_> {
    fn der_bytes(&self) -> &[u8] {
        self.0.public()
    }

    fn algorithm(&self) -> &'static SignatureAlgorithm {
        &PKCS_ED25519
    }
}

impl SigningKey for Signer<'_> {
    fn sign(&self, msg: &[u8]) -> Result<Vec<u8>, rcgen::Error> {
        Ok(self.0.sign(msg))
    }
}

fn params_of(plan: &CertificatePlan) -> CertificateParams {
    let mut distinguished_name = DistinguishedName::new();
    distinguished_name.push(DnType::CommonName, plan.common_name.as_str());
    let mut params = CertificateParams::new(plan.subject_alt_names.clone()).unwrap();
    params.serial_number = Some(SerialNumber::from(plan.serial.clone()));
    params.distinguished_name = distinguished_name;
    if plan.is_ca {
        params.is_ca = IsCa::Ca(BasicConstraints::Unconstrained);
    }
    params.key_usages = plan
        .key_usages
        .iter()
        .map(|usage| match usage {
            KeyUsage::KeyCertSign => KeyUsagePurpose::KeyCertSign,
            KeyUsage::DigitalSignature => KeyUsagePurpose::DigitalSignature,
            KeyUsage::CrlSign => KeyUsagePurpose::CrlSign,
        })
        .collect();
    if plan.server_auth {
        params.extended_key_usages = vec![ExtendedKeyUsagePurpose::ServerAuth];
    }
    params.use_authority_key_identifier_extension = plan.authority_key_id;
    params.key_identifier_method = KeyIdMethod::PreSpecified(plan.key_id.clone());
    params
}


fn authority() -> (TlsAuthority, CertificateParams) {
    let ca_key = EdKey::generate().unwrap();
    let leaf_key = EdKey::generate().unwrap();
    let params = params_of(&ca_plan(&ca_key));
    let ca_der = params.self_signed(&Signer(&ca_key)).unwrap().der().to_vec();
    (TlsAuthority::new(ca_key, leaf_key, ca_der).unwrap(), params)
}

/// The embedding of a proxy: it signs certificates and keeps what comes out.
struct Host {
    tunnels: TunnelProxy,
    ca: CertificateParams,
    wire: Vec<u8>,
    closed: bool,
    submitted: Vec<(u64, Request)>,
}

impl Host {
    fn new() -> Host {
        let (authority, ca) = authority();
        let mut tunnels = TunnelProxy::new(Proxy::new());
        tunnels.set_authority(authority);
        tunnels.on_opened(1);
        Host { tunnels, ca, wire: Vec::new(), closed: false, submitted: Vec::new() }
    }

    fn certificate(&self, host: &str) -> Vec<u8> {
        let authority = self.tunnels.authority().unwrap();
        let signer = Signer(authority.ca_key());
        let issuer = Issuer::from_params(&self.ca, &signer);
        params_of(&leaf_plan(authority.leaf_key(), host))
            .signed_by(&Signer(authority.leaf_key()), &issuer)
            .unwrap()
            .der()
            .to_vec()
    }

    fn run(&mut self, actions: Vec<ProxyAction>) {
        for action in actions {
            let (outputs, more) = self.tunnels.perform(action);
            for output in outputs {
                match output {
                    Output::Wire(_, bytes) => self.wire.extend(bytes),
                    Output::Records(_, records) => self.wire.extend(records.into_bytes()),
                    Output::Close(_, _) => self.closed = true,
                    Output::Submit(id, request) => self.submitted.push((id, request)),
                    Output::Certify(id, host) => {
                        let leaf = self.certificate(&host);
                        let more = self.tunnels.certified(id, &host, leaf);
                        self.run(more);
                    }
                    Output::MakeAuthority(_) => panic!("there is an authority"),
                }
            }
            self.run(more);
        }
    }

    fn data(&mut self, bytes: Vec<u8>) {
        let actions = self.tunnels.on_data(1, bytes);
        self.run(actions);
    }

    fn complete(&mut self, completion: Completion) {
        let actions = self.tunnels.on_completion(completion);
        self.run(actions);
    }
}

fn client(ca_pem: &str, name: &str) -> rustls::ClientConnection {
    let Ok(trust) = client_config(ca_pem.as_bytes()) else {
        panic!("the authority is trusted");
    };
    let name = ServerName::try_from(name.to_string()).unwrap();
    rustls::ClientConnection::new(trust.config().clone(), name).unwrap()
}

/// Move records between a client and the proxy until neither has any.
fn exchange(client: &mut rustls::ClientConnection, host: &mut Host) -> Vec<u8> {
    let mut plain = Vec::new();
    for _ in 0..200 {
        while client.wants_write() {
            let mut out = Vec::new();
            client.write_tls(&mut out).unwrap();
            for piece in out.chunks(1400) {
                host.data(piece.to_vec());
            }
        }
        let wire = std::mem::take(&mut host.wire);
        if wire.is_empty() {
            break;
        }
        let mut rest = &wire[..];
        while !rest.is_empty() {
            client.read_tls(&mut rest).unwrap();
            client.process_new_packets().unwrap();
            let _ = client.reader().read_to_end(&mut plain);
        }
    }
    plain
}

fn open_tunnel(host: &mut Host) -> rustls::ClientConnection {
    let ca_pem = host.tunnels.authority().unwrap().ca_pem().to_string();
    let mut client = client(&ca_pem, "example.test");
    host.data(b"CONNECT example.test:443 HTTP/1.1\r\nHost: example.test\r\n\r\n".to_vec());
    assert_eq!(
        std::mem::take(&mut host.wire),
        b"HTTP/1.1 200 Connection Established\r\n\r\n",
    );
    exchange(&mut client, host);
    assert!(!client.is_handshaking());
    client
}

#[test]
fn a_request_goes_through_the_tunnel_and_its_response_comes_back() {
    let mut host = Host::new();
    let mut client = open_tunnel(&mut host);
    client.writer().write_all(b"GET /x HTTP/1.1\r\nHost: example.test\r\n\r\n").unwrap();
    exchange(&mut client, &mut host);
    assert_eq!(host.submitted.len(), 1);
    assert_eq!(host.submitted[0].1.url, "https://example.test/x");
    assert_eq!(host.tunnels.request_count(), 1);

    let id = host.submitted[0].0;
    let body: Vec<u8> = (0..200_000u32).map(|i| (i % 251) as u8).collect();
    host.complete(Completion::Head { id, status: 200, headers: Vec::new() });
    host.complete(Completion::Body { id, bytes: body.clone() });
    host.complete(Completion::End { id });
    assert!(host.closed);
    assert!(!host.wire.windows(64).any(|window| window == &body[..64]));
    let plain = exchange(&mut client, &mut host);
    assert!(plain.starts_with(b"HTTP/1.1 200 OK\r\n"));
    assert!(plain.ends_with(&body));
}

#[test]
fn a_failed_session_closes_its_connection() {
    let mut host = Host::new();
    open_tunnel(&mut host);
    host.data(b"this is no record".to_vec());
    assert!(host.closed);
    assert!(host.submitted.is_empty());
}

#[test]
fn a_second_tunnel_reuses_the_certificate() {
    let mut host = Host::new();
    open_tunnel(&mut host);
    host.tunnels.on_closed(1);
    host.tunnels.on_opened(1);
    open_tunnel(&mut host);
    assert_eq!(host.tunnels.authority().unwrap().config_count(), 1);
    assert!(host.tunnels.authority().unwrap().certifies("example.test"));
    assert!(host.tunnels.certified(1, "example.test", Vec::new()).is_empty());
}

#[test]
fn a_failure_is_reported_with_its_stage() {
    let e = TlsError::Versions(rustls::Error::DecryptError);
    assert_eq!(report(&e, "none"), "TLS versions: none");
    let e = TlsError::Certificate(rustls::Error::DecryptError);
    assert_eq!(report(&e, "no match"), "TLS certificate/key: no match");
    let e = TlsError::Server(rustls::Error::DecryptError);
    assert_eq!(report(&e, ""), "TLS server: ");
}

#[test]
fn without_an_authority_the_embedding_is_asked() {
    let mut tunnels = TunnelProxy::new(Proxy::new());
    tunnels.on_opened(1);
    assert!(tunnels.authority().is_none());
    let (outputs, more) = tunnels.perform(ProxyAction::OpenTunnel(1, "h".to_string()));
    assert!(matches!(&outputs[..], [Output::Certify(1, host)] if host == "h"));
    assert!(more.is_empty());
    let (outputs, more) = tunnels.perform(ProxyAction::ServeCa(1));
    assert!(matches!(outputs[..], [Output::MakeAuthority(1)]));
    assert!(more.is_empty());
    let more = tunnels.refuse_ca(1, "entropy: none".to_string());
    assert_eq!(more.len(), 3);
    tunnels.on_opened(2);
    let more = tunnels.refuse(2, "entropy: none".to_string());
    let mut wire = Vec::new();
    for action in more {
        for output in tunnels.perform(action).0 {
            if let Output::Wire(2, bytes) = output {
                wire.extend(bytes);
            }
        }
    }
    let text = String::from_utf8(wire).unwrap();
    assert!(text.starts_with("HTTP/1.1 500 Internal Server Error\r\n"), "{}", text);
    assert!(text.ends_with("500 Internal Server Error: entropy: none\n"), "{}", text);
}

#[test]
fn the_certificate_is_served_and_exported() {
    let mut host = Host::new();
    let der = host.tunnels.authority().unwrap().ca_der().to_vec();
    let pem = host.tunnels.authority().unwrap().ca_pem().to_string();
    let fs = ca_export(host.tunnels.authority().unwrap());
    host.data(format!("GET {} HTTP/1.1\r\n\r\n", CA_URL_HTTP).into_bytes());
    assert!(host.closed);
    assert!(host.wire.ends_with(&der));
    let mut buf = vec![0u8; 4096];
    let n = fs.read(CA_9P_DER_PATH, 0, &mut buf).unwrap();
    assert_eq!(&buf[..n], &der[..]);
    let n = fs.read(CA_9P_PEM_PATH, 0, &mut buf).unwrap();
    assert_eq!(&buf[..n], pem.as_bytes());
    assert_eq!(fs.lstat(CA_9P_PEM_PATH).unwrap().mode & 0o777, 0o444);
}

#[test]
fn a_bundle_without_certificates_is_refused() {
    assert!(matches!(client_config(b""), Err(TrustError::NoCertificates)));
    let broken = b"-----BEGIN CERTIFICATE-----\nAAAA\n-----END CERTIFICATE-----\n";
    assert!(matches!(client_config(broken), Err(TrustError::NoCertificates)));
}

#[test]
fn a_broken_section_is_left_out_of_a_bundle() {
    let host = Host::new();
    let authority = host.tunnels.authority().unwrap();
    let broken = "-----BEGIN CERTIFICATE-----\n!!\n-----END CERTIFICATE-----\n";
    let bundle = format!("{}{}", broken, authority.ca_pem());
    assert!(client_config(bundle.as_bytes()).is_ok());
    let sections = vec![None, Some(vec![1, 2]), None, Some(vec![3])];
    assert_eq!(certificates_among(&sections), vec![vec![1, 2], vec![3]]);
}

#[test]
fn each_tunnel_presents_the_certificate_of_its_host() {
    let mut host = Host::new();
    open_tunnel(&mut host);
    host.tunnels.on_opened(2);
    let more = host.tunnels.on_data(2, b"CONNECT second.test:443 HTTP/1.1\r\n\r\n".to_vec());
    host.run(more);
    host.wire.clear();
    let ca_pem = host.tunnels.authority().unwrap().ca_pem().to_string();
    let mut client = client(&ca_pem, "second.test");
    for _ in 0..4 {
        let mut out = Vec::new();
        while client.wants_write() {
            client.write_tls(&mut out).unwrap();
        }
        let more = host.tunnels.on_data(2, out);
        host.run(more);
        let wire = std::mem::take(&mut host.wire);
        let mut rest = &wire[..];
        while !rest.is_empty() {
            client.read_tls(&mut rest).unwrap();
            client.process_new_packets().unwrap();
        }
    }
    assert!(!client.is_handshaking());
}

#[test]
fn a_client_refuses_a_host_of_another_name() {
    let mut host = Host::new();
    let ca_pem = host.tunnels.authority().unwrap().ca_pem().to_string();
    let mut client = client(&ca_pem, "other.test");
    host.data(b"CONNECT example.test:443 HTTP/1.1\r\n\r\n".to_vec());
    host.wire.clear();
    let mut out = Vec::new();
    client.write_tls(&mut out).unwrap();
    host.data(out);
    let mut rest = &host.wire[..];
    client.read_tls(&mut rest).unwrap();
    assert!(client.process_new_packets().is_err());
}
