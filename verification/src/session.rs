//! TLS sessions of tunnels.
//!
//! A session keeps a record of everything that was done with it, so that what
//! goes over a tunnel can be held against what its session was given and gave.

use vstd::prelude::*;
use std::sync::Arc;

verus! {

/// The error of the TLS library.
#[verifier::external_type_specification]
#[verifier::external_body]
pub struct ExTlsError(rustls::Error);

/// What a TLS server offers.
#[verifier::external_type_specification]
#[verifier::external_body]
pub struct ExServerConfig(rustls::ServerConfig);

/// One TLS session of a server.
#[verifier::external_type_specification]
#[verifier::external_body]
pub struct ExServerConnection(rustls::ServerConnection);

/// Whether a certificate, with that of its issuer behind it, and a PKCS#8 key
/// make a server.
pub uninterp spec fn chain_fits(leaf: Seq<u8>, ca: Seq<u8>, pkcs8: Seq<u8>) -> bool;

// ---- what is known of a session ------------------------------------------

/// One thing that was done with a session, and what came of it.
pub enum Call {
    /// Bytes from the wire were handed to it, and it took or refused them.
    Fed(Seq<u8>, bool),
    /// It looked at what it took: whether the records were in order.
    Processed(bool),
    /// It was asked for plaintext, and gave some or broke off.
    Read(Option<Seq<u8>>),
    /// Plaintext was handed to it, and it took that many bytes or failed.
    Accepted(Seq<u8>, Option<nat>),
    /// It gave records for the wire.
    Sent(Seq<u8>),
    /// It was told to say goodbye.
    Closed,
}

/// What is known of a [`Session`]: the certificate that it presents, what was
/// done with it, and how many bytes of records wait to be sent.
#[verifier::ext_equal]
pub struct SessionView {
    pub leaf: Seq<u8>,
    pub log: Seq<Call>,
    pub waiting: nat,
}

impl SessionView {
    /// A session that nothing was done with.
    pub open spec fn fresh(leaf: Seq<u8>) -> SessionView {
        SessionView { leaf, log: Seq::empty(), waiting: 0 }
    }

    /// Whether `now` is this session after these calls.
    pub open spec fn after(self, calls: Seq<Call>, now: SessionView) -> bool {
        now.leaf == self.leaf && now.log == self.log + calls
    }

    /// Whether `now` is this session after it took in bytes of plaintext and
    /// handed over the records that `calls` say. It took all of them, and no
    /// record waits, unless it refused the rest when that was handed to it.
    pub open spec fn took(self, bytes: Seq<u8>, calls: Seq<Call>, now: SessionView) -> bool {
        &&& self.after(calls, now)
        &&& forall|i: int|
            0 <= i < calls.len() ==> (#[trigger] calls[i] is Accepted || calls[i] is Sent)
        &&& if refused(calls) {
            &&& accepted(calls).len() < bytes.len()
            &&& bytes == accepted(calls) + calls.last()->Accepted_0
        } else {
            accepted(calls) == bytes && (bytes.len() > 0 ==> now.waiting == 0)
        }
        &&& bytes.len() == 0 ==> calls.len() == 0
    }

    /// Whether `end` is this session after it said goodbye and gave these
    /// records, which are all that waited.
    pub open spec fn parted(self, wires: Seq<Seq<u8>>, end: SessionView) -> bool {
        self.after(seq![Call::Closed] + givings(wires), end) && end.waiting == 0
    }
}

/// The plaintext that calls made a session take.
pub open spec fn accepted(calls: Seq<Call>) -> Seq<u8>
    decreases calls.len(),
{
    if calls.len() == 0 {
        Seq::empty()
    } else {
        accepted(calls.drop_last()) + match calls.last() {
            Call::Accepted(bytes, Some(n)) => bytes.take(n as int),
            _ => Seq::empty(),
        }
    }
}

/// The records that calls made a session give, in order.
pub open spec fn given(calls: Seq<Call>) -> Seq<Seq<u8>>
    decreases calls.len(),
{
    if calls.len() == 0 {
        Seq::empty()
    } else {
        match calls.last() {
            Call::Sent(wire) => given(calls.drop_last()).push(wire),
            _ => given(calls.drop_last()),
        }
    }
}

/// Whether the last call is one in which a session took no plaintext.
pub open spec fn refused(calls: Seq<Call>) -> bool {
    &&& calls.len() > 0
    &&& calls.last() matches Call::Accepted(_, taken)
    &&& taken is None || taken == Some(0nat)
}

/// The calls in which a session gives these records.
pub open spec fn givings(wires: Seq<Seq<u8>>) -> Seq<Call> {
    wires.map_values(|wire: Seq<u8>| Call::Sent(wire))
}

/// What a session makes of bytes from the wire.
pub enum Heard {
    /// It refuses the bytes.
    Refused,
    /// The records are not in order.
    Disorder,
    /// It gives plaintext, or breaks off.
    Plain(Option<Seq<u8>>),
}

impl Heard {
    /// The calls in which bytes are heard so.
    pub open spec fn calls(self, bytes: Seq<u8>) -> Seq<Call> {
        match self {
            Heard::Refused => seq![Call::Fed(bytes, false)],
            Heard::Disorder => seq![Call::Fed(bytes, true), Call::Processed(false)],
            Heard::Plain(plain) => seq![
                Call::Fed(bytes, true),
                Call::Processed(true),
                Call::Read(plain),
            ],
        }
    }

    /// The plaintext that was heard.
    pub open spec fn plain(self) -> Option<Seq<u8>> {
        match self {
            Heard::Plain(plain) => plain,
            _ => None,
        }
    }
}

// ---- the TLS library -----------------------------------------------------

/// What sessions with one host offer: its certificate.
pub struct HostConfig {
    config: Arc<rustls::ServerConfig>,
    leaf: Ghost<Seq<u8>>,
}

impl HostConfig {
    /// The certificate that sessions present.
    pub closed spec fn leaf(&self) -> Seq<u8> {
        self.leaf@
    }
}

/// One TLS session of a server.
pub struct Session {
    connection: rustls::ServerConnection,
    state: Ghost<SessionView>,
}

impl View for Session {
    type V = SessionView;

    closed spec fn view(&self) -> SessionView {
        self.state@
    }
}

/// What is known of a session that has said goodbye.
pub struct Ended {
    state: Ghost<SessionView>,
}

impl View for Ended {
    type V = SessionView;

    closed spec fn view(&self) -> SessionView {
        self.state@
    }
}

/// Bytes that a session gave for the wire.
pub struct Records {
    wire: Vec<u8>,
}

impl View for Records {
    type V = Seq<u8>;

    closed spec fn view(&self) -> Seq<u8> {
        self.wire@
    }
}

impl Records {
    /// The bytes, as they go over the wire.
    pub fn into_bytes(self) -> (bytes: Vec<u8>)
        ensures
            bytes@ == self@,
    {
        self.wire
    }
}

/// What several records hold.
pub open spec fn wires(records: Seq<Records>) -> Seq<Seq<u8>> {
    records.map_values(|r: Records| r@)
}

/// `rustls::ServerConfig` for one certificate chain and its PKCS#8 key, without
/// client authentication, on the provider of `oxitls_rustcrypto_provider`. The
/// outer error is that of `with_safe_default_protocol_versions`, which never
/// comes: it looks at the provider's cipher suites and groups alone, and they
/// suit. The inner one is that of `with_single_cert`: whether it comes depends on
/// the certificates and the key alone. The configuration presents `leaf_der`.
#[verifier::external_body]
pub(crate) fn config_of(leaf_der: Vec<u8>, ca_der: Vec<u8>, pkcs8: Vec<u8>) -> (config: Result<
    Result<HostConfig, rustls::Error>,
    rustls::Error,
>)
    ensures
        config is Ok,
        (config->Ok_0 is Ok) == chain_fits(leaf_der@, ca_der@, pkcs8@),
        config->Ok_0 is Ok ==> config->Ok_0->Ok_0.leaf() == leaf_der@,
{
    let chain = vec![
        rustls::pki_types::CertificateDer::from(leaf_der),
        rustls::pki_types::CertificateDer::from(ca_der),
    ];
    let key = rustls::pki_types::PrivatePkcs8KeyDer::from(pkcs8);
    rustls::ServerConfig::builder_with_provider(Arc::new(oxitls_rustcrypto_provider::provider()))
        .with_safe_default_protocol_versions()
        .map(|b| b.with_no_client_auth().with_single_cert(chain, key.into()))
        .map(|made| made.map(|c| HostConfig { config: Arc::new(c), leaf: Ghost(Seq::empty()) }))
}

/// `rustls::ServerConnection::new` on a configuration that [`config_of`] made. It
/// fails only over a fragment size, which `config_of` leaves unset. No record
/// waits in a new session.
#[verifier::external_body]
pub(crate) fn session_of(config: &HostConfig) -> (session: Result<Session, rustls::Error>)
    ensures
        session is Ok,
        session->Ok_0@ == SessionView::fresh(config.leaf()),
{
    rustls::ServerConnection::new(config.config.clone())
        .map(|connection| Session { connection, state: Ghost(SessionView::fresh(Seq::empty())) })
}

/// `rustls::ServerConnection::read_tls` on the bytes: whether it took from them.
/// It reads once, and what it cannot buffer is left out. No record is made.
#[verifier::external_body]
fn feed(session: &mut Session, bytes: &[u8]) -> (taken: bool)
    ensures
        old(session)@.after(seq![Call::Fed(bytes@, taken)], final(session)@),
        final(session)@.waiting == old(session)@.waiting,
{
    let mut input = bytes;
    session.connection.read_tls(&mut input).is_ok()
}

/// `rustls::ServerConnection::process_new_packets`: whether the records were in
/// order. That depends on keys that the session drew at random.
#[verifier::external_body]
fn process(session: &mut Session) -> (in_order: bool)
    ensures
        old(session)@.after(seq![Call::Processed(in_order)], final(session)@),
{
    session.connection.process_new_packets().is_ok()
}

/// `rustls::Reader`'s `read_to_end`: the plaintext that has arrived so far, or
/// `None` if the peer broke off. That there is no more yet is no failure. What
/// the plaintext is depends on keys that the session drew at random. No record is
/// made.
#[verifier::external_body]
fn plaintext(session: &mut Session) -> (bytes: Option<Vec<u8>>)
    ensures
        old(session)@.after(seq![Call::Read(opened(bytes))], final(session)@),
        final(session)@.waiting == old(session)@.waiting,
{
    let mut bytes = Vec::new();
    match std::io::Read::read_to_end(&mut session.connection.reader(), &mut bytes) {
        Ok(_) => Some(bytes),
        Err(e) if e.kind() == std::io::ErrorKind::WouldBlock => Some(bytes),
        Err(_) => None,
    }
}

/// `rustls::Writer`'s `write`: how many of the bytes it took, which is bounded
/// by what it buffers, or `None` if the session has failed.
#[verifier::external_body]
fn accept(session: &mut Session, bytes: &[u8]) -> (taken: Option<usize>)
    ensures
        taken matches Some(n) ==> n <= bytes@.len(),
        old(session)@.after(seq![Call::Accepted(bytes@, counted(taken))], final(session)@),
{
    std::io::Write::write(&mut session.connection.writer(), bytes).ok()
}

/// `rustls::ServerConnection::wants_write`: whether records wait to be sent.
#[verifier::external_body]
fn wants_write(session: &Session) -> (r: bool)
    ensures
        r == (session@.waiting > 0),
{
    session.connection.wants_write()
}

/// `rustls::ServerConnection::write_tls` into memory, which never fails: records
/// for the peer, which then wait no more. Where any wait, some come. What they
/// hold depends on keys that the session drew at random.
#[verifier::external_body]
fn records(session: &mut Session) -> (records: Records)
    ensures
        old(session)@.waiting > 0 ==> records@.len() > 0,
        final(session)@.waiting + records@.len() == old(session)@.waiting,
        old(session)@.after(seq![Call::Sent(records@)], final(session)@),
{
    let mut wire = Vec::new();
    let _ = session.connection.write_tls(&mut wire);
    Records { wire }
}

/// `rustls::ServerConnection::send_close_notify`: a record that says so waits to
/// be sent, unless the session has said so before or has failed.
#[verifier::external_body]
fn notify_close(session: &mut Session)
    ensures
        old(session)@.after(seq![Call::Closed], final(session)@),
{
    session.connection.send_close_notify()
}

/// What a session gave as plaintext.
pub open spec fn opened(bytes: Option<Vec<u8>>) -> Option<Seq<u8>> {
    match bytes {
        Some(bytes) => Some(bytes@),
        None => None,
    }
}

/// How many bytes a session took.
pub open spec fn counted(taken: Option<usize>) -> Option<nat> {
    match taken {
        Some(n) => Some(n as nat),
        None => None,
    }
}

// ---- one session ---------------------------------------------------------

impl Session {
    /// The connection inside.
    pub closed spec fn spec_connection(&self) -> rustls::ServerConnection {
        self.connection
    }

    /// The connection inside, to look at.
    pub fn connection(&self) -> (connection: &rustls::ServerConnection)
        ensures
            *connection == self.spec_connection(),
    {
        &self.connection
    }

    /// Hand over the records that wait to be sent, all of them.
    pub fn drain(&mut self) -> (out: Vec<Records>)
        ensures
            old(self)@.after(givings(wires(out@)), final(self)@),
            final(self)@.waiting == 0,
    {
        let mut out: Vec<Records> = Vec::new();
        assert(old(self)@.log + givings(wires(out@)) =~= old(self)@.log);
        while wants_write(self)
            invariant
                old(self)@.after(givings(wires(out@)), self@),
            decreases self@.waiting,
        {
            let ghost before = out@;
            let sent: Records = records(self);
            out.push(sent);
            proof {
                assert(wires(out@) =~= wires(before).push(sent@));
                assert(givings(wires(out@)) =~= givings(wires(before)) + seq![Call::Sent(sent@)]);
                assert(old(self)@.log + givings(wires(before)) + seq![Call::Sent(sent@)]
                    =~= old(self)@.log + givings(wires(out@)));
            }
        }
        out
    }

    /// Feed bytes from the wire. Returns the plaintext that they made complete,
    /// or `None` if the session fails.
    pub fn decrypt(&mut self, bytes: &[u8]) -> (plain: Option<Vec<u8>>)
        ensures
            exists|heard: Heard|
                opened(plain) == heard.plain() && old(self)@.after(
                    #[trigger] heard.calls(bytes@),
                    final(self)@,
                ),
    {
        let ghost log = self@.log;
        if !feed(self, bytes) {
            assert(Heard::Refused.calls(bytes@) =~= seq![Call::Fed(bytes@, false)]);
            return None;
        }
        if !process(self) {
            proof {
                let calls = Heard::Disorder.calls(bytes@);
                assert(log + seq![Call::Fed(bytes@, true)] + seq![Call::Processed(false)] =~= log
                    + calls);
            }
            return None;
        }
        let plain: Option<Vec<u8>> = plaintext(self);
        proof {
            let heard = Heard::Plain(opened(plain));
            assert(log + seq![Call::Fed(bytes@, true)] + seq![Call::Processed(true)]
                + seq![Call::Read(opened(plain))] =~= log + heard.calls(bytes@));
            assert(opened(plain) == heard.plain());
        }
        plain
    }

    /// Send bytes. A session bounds what it buffers, so a large piece goes in
    /// several parts, and the records of each are handed over before the next.
    pub fn encrypt(&mut self, bytes: &[u8]) -> (out: Vec<Records>)
        ensures
            exists|calls: Seq<Call>| #[trigger]
                old(self)@.took(bytes@, calls, final(self)@) && given(calls) == wires(out@),
    {
        let mut out: Vec<Records> = Vec::new();
        let ghost mut calls: Seq<Call> = Seq::empty();
        let ghost start = self@;
        let mut at: usize = 0;
        assert(wires(out@) =~= Seq::<Seq<u8>>::empty());
        assert(start.log + calls =~= start.log);
        assert(bytes@.take(0) =~= Seq::<u8>::empty());
        while at < bytes.len()
            invariant
                at <= bytes@.len(),
                start == old(self)@,
                start.after(calls, self@),
                forall|i: int|
                    0 <= i < calls.len() ==> (#[trigger] calls[i] is Accepted || calls[i] is Sent),
                accepted(calls) == bytes@.take(at as int),
                given(calls) == wires(out@),
                !refused(calls),
                at > 0 ==> self@.waiting == 0,
                at == 0 ==> calls.len() == 0,
            decreases bytes@.len() - at,
        {
            let rest: &[u8] = vstd::slice::slice_subrange(bytes, at, bytes.len());
            let taken: Option<usize> = accept(self, rest);
            let ghost more = calls.push(Call::Accepted(rest@, counted(taken)));
            proof {
                assert(start.log + calls + seq![Call::Accepted(rest@, counted(taken))]
                    =~= start.log + more);
                assert(more.drop_last() =~= calls);
            }
            let n: usize = match taken {
                Some(n) => n,
                None => 0,
            };
            if n == 0 {
                proof {
                    assert(rest@.take(0) =~= Seq::<u8>::empty());
                    assert(accepted(more) =~= bytes@.take(at as int));
                    assert(bytes@ =~= bytes@.take(at as int) + rest@);
                    assert(start.took(bytes@, more, self@));
                }
                return out;
            }
            let ghost was = self@;
            let mut sent: Vec<Records> = self.drain();
            let ghost after = more + givings(wires(sent@));
            proof {
                lemma_givings(more, wires(sent@));
                assert(bytes@.take(at as int) + rest@.take(n as int) =~= bytes@.take(at + n));
                assert(start.log + more + givings(wires(sent@)) =~= start.log + after);
                assert(wires(out@ + sent@) =~= wires(out@) + wires(sent@));
                assert forall|i: int| 0 <= i < after.len() implies (#[trigger] after[i] is Accepted
                    || after[i] is Sent) by {
                    if i < more.len() {
                        assert(after[i] == more[i]);
                    }
                }
                if wires(sent@).len() == 0 {
                    assert(after =~= more);
                } else {
                    assert(after.last() == givings(wires(sent@)).last());
                }
                calls = after;
            }
            out.append(&mut sent);
            at = at + n;
        }
        proof {
            assert(bytes@.take(at as int) =~= bytes@);
            assert(start.took(bytes@, calls, self@));
        }
        out
    }

    /// Say goodbye, and hand over the records that do.
    pub fn close(self) -> (r: (Vec<Records>, Ended))
        ensures
            self@.parted(wires(r.0@), r.1@),
    {
        let mut session = self;
        let ghost log = self@.log;
        notify_close(&mut session);
        let out: Vec<Records> = session.drain();
        assert(log + seq![Call::Closed] + givings(wires(out@)) =~= log + (seq![Call::Closed]
            + givings(wires(out@))));
        (out, Ended { state: Ghost(session@) })
    }
}

proof fn lemma_givings(calls: Seq<Call>, wires: Seq<Seq<u8>>)
    ensures
        given(calls + givings(wires)) == given(calls) + wires,
        accepted(calls + givings(wires)) == accepted(calls),
    decreases wires.len(),
{
    let all = calls + givings(wires);
    if wires.len() == 0 {
        assert(all =~= calls);
        assert(given(calls) + wires =~= given(calls));
    } else {
        let rest = wires.drop_last();
        lemma_givings(calls, rest);
        assert(all.drop_last() =~= calls + givings(rest));
        assert(all.last() == Call::Sent(wires.last()));
        assert((given(calls) + rest).push(wires.last()) =~= given(calls) + wires);
        assert(accepted(all) =~= accepted(calls));
    }
}

} // verus!
