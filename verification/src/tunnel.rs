//! The proxy together with the TLS sessions of its tunnels.
//!
//! The proxy decides what goes over a connection; a connection that is a tunnel
//! has a TLS session, through which everything goes that is sent or received.

use std::collections::HashMap;
use vstd::prelude::*;
use vstd::utf8::encode_utf8;
use crate::memfs::{
    components, components_of, fresh_node, moded, BodyView, FsView, MemFs, S_IFREG,
};
use crate::proxy::{
    actions, ActionView, Proxy, ProxyAction, ProxyStep, ProxyView, CA_9P_DER_PATH, CA_9P_PEM_PATH,
};
use crate::session::{
    chain_fits, given, givings, opened, wires, Call, Ended, Heard, Records, Session, SessionView,
};
use crate::text::{chars_of, find_char, pieces_from, string_of};
use crate::tls::{pem_document, TlsAuthority, TlsError};
use crate::wire::{Completion, Request, RequestView};

verus! {

broadcast use vstd::std_specs::hash::group_hash_axioms;

// ---- the TLS library -----------------------------------------------------

/// The `Display` text of a `rustls::Error`. Nothing is claimed of it: the error
/// may carry one of another library, which chooses its own words.
#[verifier::external_body]
fn text_of_error(e: &rustls::Error) -> (text: String) {
    format!("{}", e)
}

// ---- what the embedding is asked for -------------------------------------

/// What the embedding does for the proxy and its tunnels.
pub enum Output {
    /// Send bytes to the guest as they are.
    Wire(u64, Vec<u8>),
    /// Send what the session of a tunnel gave.
    Records(u64, Records),
    /// Close a connection. If it is a tunnel whose session said goodbye, that
    /// session has ended.
    Close(u64, Option<Ended>),
    /// Perform a request.
    Submit(u64, Request),
    /// A tunnel to this host needs a certificate.
    Certify(u64, String),
    /// The certificate of the authority is asked for, and there is none yet.
    MakeAuthority(u64),
}

/// What an [`Output`] asks for.
pub enum OutputView {
    Wire(u64, Seq<u8>),
    Records(u64, Seq<u8>),
    Close(u64, Option<SessionView>),
    Submit(u64, RequestView),
    Certify(u64, Seq<char>),
    MakeAuthority(u64),
}

impl View for Output {
    type V = OutputView;

    open spec fn view(&self) -> OutputView {
        match *self {
            Output::Wire(id, bytes) => OutputView::Wire(id, bytes@),
            Output::Records(id, records) => OutputView::Records(id, records@),
            Output::Close(id, ended) => OutputView::Close(
                id,
                match ended {
                    Some(ended) => Some(ended@),
                    None => None,
                },
            ),
            Output::Submit(id, request) => OutputView::Submit(id, request@),
            Output::Certify(id, host) => OutputView::Certify(id, host@),
            Output::MakeAuthority(id) => OutputView::MakeAuthority(id),
        }
    }
}

/// What several outputs ask for.
pub open spec fn outputs(v: Seq<Output>) -> Seq<OutputView> {
    v.map_values(|o: Output| o@)
}

/// The outputs that send these records on one connection.
pub open spec fn records_for(id: u64, wires: Seq<Seq<u8>>) -> Seq<OutputView> {
    wires.map_values(|wire: Seq<u8>| OutputView::Records(id, wire))
}

/// Send records on a connection.
fn sending(id: u64, records: Vec<Records>) -> (out: Vec<Output>)
    ensures
        outputs(out@) == records_for(id, wires(records@)),
{
    let mut out: Vec<Output> = Vec::new();
    let mut rest: Vec<Records> = records;
    let ghost all = rest@;
    while rest.len() > 0
        invariant
            out@.len() + rest@.len() == all.len(),
            rest@ == all.skip(out@.len() as int),
            forall|i: int|
                0 <= i < out@.len() ==> (#[trigger] out@[i])@ == OutputView::Records(id, all[i]@),
        decreases rest@.len(),
    {
        let next: Records = rest.remove(0);
        out.push(Output::Records(id, next));
    }
    assert(outputs(out@) =~= records_for(id, wires(all)));
    out
}

// ---- the proxy and its sessions ------------------------------------------

/// The proxy with the sessions of its tunnels, and the authority behind them.
pub struct TunnelProxy {
    proxy: Proxy,
    sessions: HashMap<u64, Session>,
    authority: Option<TlsAuthority>,
}

/// The state of a [`TunnelProxy`]: the sessions of connections, the certificate
/// of the authority and the private key of host certificates, and the hosts that
/// it has certified, each with its certificate.
#[verifier::ext_equal]
pub struct TunnelView {
    pub proxy: ProxyView,
    pub sessions: Map<u64, SessionView>,
    pub ca_der: Option<Seq<u8>>,
    pub leaf_key: Option<Seq<u8>>,
    pub hosts: Map<Seq<char>, Seq<u8>>,
}

impl View for TunnelProxy {
    type V = TunnelView;

    closed spec fn view(&self) -> TunnelView {
        TunnelView {
            proxy: self.proxy@,
            sessions: self.sessions@.map_values(|session: Session| session@),
            ca_der: match self.authority {
                Some(authority) => Some(authority.spec_ca_der()),
                None => None,
            },
            leaf_key: match self.authority {
                Some(authority) => Some(authority.leaf_key_document()),
                None => None,
            },
            hosts: match self.authority {
                Some(authority) => authority.leaves(),
                None => Map::empty(),
            },
        }
    }
}

impl TunnelView {
    /// Whether `now` is this state after the session of a connection made these
    /// calls, and nothing else.
    pub open spec fn session_made(self, id: u64, calls: Seq<Call>, now: TunnelView) -> bool {
        &&& now.sessions.contains_key(id)
        &&& self.sessions[id].after(calls, now.sessions[id])
        &&& now == (TunnelView {
            sessions: self.sessions.insert(id, now.sessions[id]),
            ..self
        })
    }

    /// Whether `now` is this state, and `out` what is asked for, after a tunnel
    /// took plaintext in these calls.
    pub open spec fn carried(
        self,
        id: u64,
        bytes: Seq<u8>,
        now: TunnelView,
        out: Seq<OutputView>,
        calls: Seq<Call>,
    ) -> bool {
        &&& self.session_made(id, calls, now)
        &&& self.sessions[id].took(bytes, calls, now.sessions[id])
        &&& out == records_for(id, given(calls))
    }

    /// Whether `now` is this state, and `out` what is asked for, after bytes were
    /// sent: as they are, or as records of the connection's session, which took
    /// them.
    pub open spec fn sent(
        self,
        id: u64,
        bytes: Seq<u8>,
        now: TunnelView,
        out: Seq<OutputView>,
    ) -> bool {
        if self.sessions.contains_key(id) {
            exists|calls: Seq<Call>| #[trigger] self.carried(id, bytes, now, out, calls)
        } else {
            out == seq![OutputView::Wire(id, bytes)] && now == self
        }
    }

    /// Whether outputs close a connection after its session said goodbye with
    /// these records.
    pub open spec fn parted(
        self,
        id: u64,
        out: Seq<OutputView>,
        wires: Seq<Seq<u8>>,
        end: SessionView,
    ) -> bool {
        &&& self.sessions[id].parted(wires, end)
        &&& out == records_for(id, wires).push(OutputView::Close(id, Some(end)))
    }

    /// Whether outputs close a connection. Its session says so first where it is
    /// to.
    pub open spec fn shut(self, id: u64, notify: bool, out: Seq<OutputView>) -> bool {
        if notify && self.sessions.contains_key(id) {
            exists|wires: Seq<Seq<u8>>, end: SessionView| #[trigger]
                self.parted(id, out, wires, end)
        } else {
            out == seq![OutputView::Close(id, None)]
        }
    }

    /// The state without a connection.
    pub open spec fn without(self, id: u64) -> TunnelView {
        TunnelView {
            proxy: self.proxy.closed(id),
            sessions: self.sessions.remove(id),
            ..self
        }
    }

    /// Whether `now` is the state after an action was carried out, `out` what
    /// the embedding is asked for, and `more` what the proxy asks for next.
    pub open spec fn performed(
        self,
        action: ActionView,
        now: TunnelView,
        out: Seq<OutputView>,
        more: Seq<ActionView>,
    ) -> bool {
        match action {
            ActionView::Send(id, bytes) => self.sent(id, bytes, now, out) && more.len() == 0,
            ActionView::SendRaw(id, bytes) => {
                &&& out == seq![OutputView::Wire(id, bytes)]
                &&& now == self
                &&& more.len() == 0
            },
            ActionView::Close(id, notify) => {
                &&& self.shut(id, notify, out)
                &&& now == self.without(id)
                &&& more.len() == 0
            },
            ActionView::Submit(id, request) => {
                &&& out == seq![OutputView::Submit(id, request)]
                &&& now == self
                &&& more.len() == 0
            },
            ActionView::Decrypt(id, bytes) => self.received(id, bytes, now, out, more),
            ActionView::OpenTunnel(id, host) => if self.hosts.contains_key(host) {
                out.len() == 0 && self.opened(id, self.hosts[host], now, more)
            } else {
                out == seq![OutputView::Certify(id, host)] && now == self && more.len() == 0
            },
            ActionView::ServeCa(id) => match self.ca_der {
                Some(der) => out.len() == 0 && self.goes_on(
                    now,
                    more,
                    self.proxy.ca_served(id, Ok(der)),
                ),
                None => out == seq![OutputView::MakeAuthority(id)] && now == self && more.len()
                    == 0,
            },
        }
    }

    /// Whether `now` is this state, `out` what is asked for and `more` what the
    /// proxy asks for next, after the session of a connection was fed bytes and
    /// heard them so, and then gave these records. Handshake messages and alerts
    /// are given even where it failed.
    pub open spec fn heard(
        self,
        id: u64,
        bytes: Seq<u8>,
        now: TunnelView,
        out: Seq<OutputView>,
        more: Seq<ActionView>,
        heard: Heard,
        wires: Seq<Seq<u8>>,
    ) -> bool {
        let step = self.proxy.decrypted(id, heard.plain());
        &&& self.session_made(
            id,
            heard.calls(bytes) + givings(wires),
            TunnelView { proxy: self.proxy, ..now },
        )
        &&& now.sessions[id].waiting == 0
        &&& now.proxy == step.proxy
        &&& out == records_for(id, wires)
        &&& more == step.actions
    }

    /// Whether `now` is this state, `out` what is asked for and `more` what the
    /// proxy asks for next, after bytes arrived for the session of a connection.
    /// Where there is no session, there is no plaintext.
    pub open spec fn received(
        self,
        id: u64,
        bytes: Seq<u8>,
        now: TunnelView,
        out: Seq<OutputView>,
        more: Seq<ActionView>,
    ) -> bool {
        if self.sessions.contains_key(id) {
            exists|heard: Heard, wires: Seq<Seq<u8>>| #[trigger]
                self.heard(id, bytes, now, out, more, heard, wires)
        } else {
            out.len() == 0 && self.goes_on(now, more, self.proxy.decrypted(id, None))
        }
    }

    /// Whether `now` is this state after a step of the proxy that asks for
    /// `more`.
    pub open spec fn goes_on(self, now: TunnelView, more: Seq<ActionView>, step: ProxyStep) -> bool {
        now == (TunnelView { proxy: step.proxy, ..self }) && more == step.actions
    }

    /// Whether `now` is this state after a session was created for a tunnel that
    /// presents a certificate.
    pub open spec fn opened(
        self,
        id: u64,
        leaf: Seq<u8>,
        now: TunnelView,
        more: Seq<ActionView>,
    ) -> bool {
        let step = self.proxy.tunneled(id, None);
        &&& now == (TunnelView {
            proxy: step.proxy,
            sessions: if self.proxy.conns.contains_key(id) {
                self.sessions.insert(id, SessionView::fresh(leaf))
            } else {
                self.sessions
            },
            ..self
        })
        &&& more == step.actions
    }

    /// Whether `now` is this state after no session could be created for a
    /// tunnel, and the guest was told at which stage that failed.
    pub open spec fn failed_at(
        self,
        id: u64,
        now: TunnelView,
        more: Seq<ActionView>,
        stage: Seq<char>,
    ) -> bool {
        exists|error: Seq<char>|
            reports(error, stage) && self.goes_on(
                now,
                more,
                #[trigger] self.proxy.tunneled(id, Some(error)),
            )
    }

    /// Every tunnel has a session.
    pub open spec fn wf(self) -> bool {
        forall|id: u64| #[trigger]
            self.proxy.conns.contains_key(id) && self.proxy.conns[id].tls
                ==> self.sessions.contains_key(id)
    }
}

/// Whether a text says that a stage failed, in front of what it says of the
/// reason.
pub open spec fn reports(text: Seq<char>, stage: Seq<char>) -> bool {
    exists|reason: Seq<char>| text == #[trigger] (stage + reason)
}

/// What a failure is called in an answer to the guest: its stage, and then the
/// reason.
pub fn report(e: &TlsError, reason: &str) -> (text: String)
    ensures
        text@ == e.stage() + reason@,
{
    let stage: &str = match e {
        TlsError::Versions(_) => "TLS versions: ",
        TlsError::Certificate(_) => "TLS certificate/key: ",
        TlsError::Server(_) => "TLS server: ",
    };
    let mut text: Vec<char> = chars_of(stage);
    let mut rest: Vec<char> = chars_of(reason);
    text.append(&mut rest);
    string_of(text.as_slice())
}

/// The report of a failure with the words of the TLS library as its reason.
fn failure_text(e: TlsError) -> (text: String)
    ensures
        reports(text@, e.stage()),
{
    let reason: String = match &e {
        TlsError::Versions(cause) => text_of_error(cause),
        TlsError::Certificate(cause) => text_of_error(cause),
        TlsError::Server(cause) => text_of_error(cause),
    };
    report(&e, reason.as_str())
}

fn asked(output: Output) -> (out: Vec<Output>)
    ensures
        outputs(out@) == seq![output@],
{
    let mut out: Vec<Output> = Vec::new();
    out.push(output);
    assert(outputs(out@) =~= seq![output@]);
    out
}

impl TunnelProxy {
    /// The authority is sound, and every tunnel has a session.
    pub closed spec fn wf(&self) -> bool {
        &&& self.authority matches Some(authority) ==> authority.wf()
        &&& self@.wf()
    }

    /// A proxy without tunnels or an authority.
    pub fn new(proxy: Proxy) -> (t: TunnelProxy)
        requires
            forall|id: u64| #[trigger]
                proxy@.conns.contains_key(id) ==> !proxy@.conns[id].tls,
        ensures
            t.wf(),
            t@ == (TunnelView {
                proxy: proxy@,
                sessions: Map::empty(),
                ca_der: None,
                leaf_key: None,
                hosts: Map::empty(),
            }),
    {
        let t = TunnelProxy { proxy, sessions: HashMap::new(), authority: None };
        assert(t@.sessions =~= Map::empty());
        t
    }

    /// Requests submitted since start, for status reporting.
    pub fn request_count(&self) -> (n: u64)
        ensures
            n == self@.proxy.requests,
    {
        self.proxy.request_count()
    }

    /// The authority behind the tunnels, once there is one.
    pub fn authority(&self) -> (authority: Option<&TlsAuthority>)
        requires
            self.wf(),
        ensures
            match authority {
                Some(a) => {
                    &&& a.wf()
                    &&& self@.ca_der == Some(a.spec_ca_der())
                    &&& self@.leaf_key == Some(a.leaf_key_document())
                    &&& self@.hosts == a.leaves()
                },
                None => self@.ca_der is None,
            },
    {
        match &self.authority {
            Some(authority) => Some(authority),
            None => None,
        }
    }

    /// Use this authority, unless there is one.
    pub fn set_authority(&mut self, authority: TlsAuthority)
        requires
            old(self).wf(),
            authority.wf(),
        ensures
            final(self).wf(),
            final(self)@ == if old(self)@.ca_der is None {
                TunnelView {
                    ca_der: Some(authority.spec_ca_der()),
                    leaf_key: Some(authority.leaf_key_document()),
                    hosts: authority.leaves(),
                    ..old(self)@
                }
            } else {
                old(self)@
            },
    {
        if self.authority.is_none() {
            self.authority = Some(authority);
        }
    }

    /// The guest opened a connection.
    pub fn on_opened(&mut self, id: u64)
        requires
            old(self).wf(),
        ensures
            final(self).wf(),
            final(self)@ == (TunnelView {
                proxy: old(self)@.proxy.opened(id),
                sessions: old(self)@.sessions.remove(id),
                ..old(self)@
            }),
    {
        self.proxy.on_opened(id);
        self.sessions.remove(&id);
        assert(self@.sessions =~= old(self)@.sessions.remove(id));
    }

    /// The guest closed a connection.
    pub fn on_closed(&mut self, id: u64)
        requires
            old(self).wf(),
        ensures
            final(self).wf(),
            final(self)@ == old(self)@.without(id),
    {
        self.proxy.on_closed(id);
        self.sessions.remove(&id);
        assert(self@.sessions =~= old(self)@.sessions.remove(id));
    }

    /// The guest sent bytes on a connection.
    pub fn on_data(&mut self, id: u64, bytes: Vec<u8>) -> (more: Vec<ProxyAction>)
        requires
            old(self).wf(),
        ensures
            final(self).wf(),
            old(self)@.goes_on(
                final(self)@,
                actions(more@),
                old(self)@.proxy.received(id, bytes@),
            ),
    {
        self.proxy.on_data(id, bytes)
    }

    /// Carry out what the proxy asks for: sessions encrypt and decrypt, and what
    /// is left goes to the embedding. Returns that, and what the proxy asks for
    /// next, which is carried out before anything else is.
    pub fn perform(&mut self, action: ProxyAction) -> (r: (Vec<Output>, Vec<ProxyAction>))
        requires
            old(self).wf(),
        ensures
            final(self).wf(),
            old(self)@.performed(action@, final(self)@, outputs(r.0@), actions(r.1@)),
    {
        match action {
            ProxyAction::Send(id, bytes) => (self.send(id, bytes), Vec::new()),
            ProxyAction::SendRaw(id, bytes) => (asked(Output::Wire(id, bytes)), Vec::new()),
            ProxyAction::Close(id, notify) => (self.close(id, notify), Vec::new()),
            ProxyAction::Submit(id, request) => (asked(Output::Submit(id, request)), Vec::new()),
            ProxyAction::Decrypt(id, bytes) => self.receive(id, bytes),
            ProxyAction::OpenTunnel(id, host) => self.open(id, host),
            ProxyAction::ServeCa(id) => self.serve_ca(id),
        }
    }

    fn serve_ca(&mut self, id: u64) -> (r: (Vec<Output>, Vec<ProxyAction>))
        requires
            old(self).wf(),
        ensures
            final(self).wf(),
            old(self)@.performed(
                ActionView::ServeCa(id),
                final(self)@,
                outputs(r.0@),
                actions(r.1@),
            ),
    {
        let der: Option<Vec<u8>> = match &self.authority {
            Some(authority) => Some(vstd::slice::slice_to_vec(authority.ca_der())),
            None => None,
        };
        match der {
            Some(der) => {
                let more: Vec<ProxyAction> = self.proxy.on_ca(id, Ok(der));
                assert forall|x: u64| #[trigger]
                    self@.proxy.conns.contains_key(x)
                        && self@.proxy.conns[x].tls implies self@.sessions.contains_key(x) by {
                    assert(old(self)@.proxy.conns.contains_key(x));
                }
                (Vec::new(), more)
            },
            None => (asked(Output::MakeAuthority(id)), Vec::new()),
        }
    }

    fn send(&mut self, id: u64, bytes: Vec<u8>) -> (out: Vec<Output>)
        requires
            old(self).wf(),
        ensures
            final(self).wf(),
            old(self)@.sent(id, bytes@, final(self)@, outputs(out@)),
    {
        match self.sessions.remove(&id) {
            Some(session) => {
                let mut session = session;
                let ghost before = session@;
                assert(before == old(self)@.sessions[id]);
                let records: Vec<Records> = session.encrypt(bytes.as_slice());
                let ghost calls = choose|calls: Seq<Call>| #[trigger]
                    before.took(bytes@, calls, session@) && given(calls) == wires(records@);
                let out: Vec<Output> = sending(id, records);
                self.sessions.insert(id, session);
                proof {
                    assert(self@ =~= TunnelView {
                        sessions: old(self)@.sessions.insert(id, session@),
                        ..old(self)@
                    });
                    assert(old(self)@.carried(id, bytes@, self@, outputs(out@), calls));
                }
                out
            },
            None => {
                assert(self@ =~= old(self)@);
                asked(Output::Wire(id, bytes))
            },
        }
    }

    fn close(&mut self, id: u64, notify: bool) -> (out: Vec<Output>)
        requires
            old(self).wf(),
        ensures
            final(self).wf(),
            final(self)@ == old(self)@.without(id),
            old(self)@.shut(id, notify, outputs(out@)),
    {
        let session: Option<Session> = self.sessions.remove(&id);
        self.proxy.on_closed(id);
        assert(self@ =~= old(self)@.without(id));
        match session {
            Some(session) if notify => {
                assert(session@ == old(self)@.sessions[id]);
                let (records, end): (Vec<Records>, Ended) = session.close();
                let ghost given = wires(records@);
                let mut out: Vec<Output> = sending(id, records);
                out.push(Output::Close(id, Some(end)));
                proof {
                    assert(outputs(out@) =~= records_for(id, given).push(
                        OutputView::Close(id, Some(end@)),
                    ));
                    assert(old(self)@.parted(id, outputs(out@), given, end@));
                }
                out
            },
            _ => asked(Output::Close(id, None)),
        }
    }

    fn receive(&mut self, id: u64, bytes: Vec<u8>) -> (r: (Vec<Output>, Vec<ProxyAction>))
        requires
            old(self).wf(),
        ensures
            final(self).wf(),
            old(self)@.performed(
                ActionView::Decrypt(id, bytes@),
                final(self)@,
                outputs(r.0@),
                actions(r.1@),
            ),
    {
        match self.sessions.remove(&id) {
            Some(session) => {
                let mut session = session;
                let ghost before = session@;
                assert(before == old(self)@.sessions[id]);
                let plain: Option<Vec<u8>> = session.decrypt(bytes.as_slice());
                let ghost heard = choose|heard: Heard|
                    opened(plain) == heard.plain() && before.after(
                        #[trigger] heard.calls(bytes@),
                        session@,
                    );
                // Handshake messages and alerts wait even where that failed.
                let records: Vec<Records> = session.drain();
                let ghost given = wires(records@);
                let out: Vec<Output> = sending(id, records);
                self.sessions.insert(id, session);
                let more: Vec<ProxyAction> = self.proxy.on_plaintext(id, plain);
                proof {
                    assert(before.log + heard.calls(bytes@) + givings(given) =~= before.log + (
                    heard.calls(bytes@) + givings(given)));
                    assert(self@.sessions =~= old(self)@.sessions.insert(id, session@));
                    assert(old(self)@.heard(
                        id,
                        bytes@,
                        self@,
                        outputs(out@),
                        actions(more@),
                        heard,
                        given,
                    ));
                    assert forall|x: u64| #[trigger]
                        self@.proxy.conns.contains_key(x)
                            && self@.proxy.conns[x].tls implies self@.sessions.contains_key(x) by {
                        assert(old(self)@.proxy.conns.contains_key(x));
                    }
                }
                (out, more)
            },
            None => {
                assert(self@ =~= old(self)@);
                let more: Vec<ProxyAction> = self.proxy.on_plaintext(id, None);
                let out: Vec<Output> = Vec::new();
                assert(outputs(out@).len() == 0);
                assert forall|x: u64| #[trigger]
                    self@.proxy.conns.contains_key(x)
                        && self@.proxy.conns[x].tls implies self@.sessions.contains_key(x) by {
                    assert(old(self)@.proxy.conns.contains_key(x));
                }
                (out, more)
            },
        }
    }

    /// Take in a session for a tunnel, or that there is none.
    fn tunnel(&mut self, id: u64, session: Result<Session, TlsError>) -> (more: Vec<ProxyAction>)
        requires
            old(self).wf(),
            session matches Ok(s) ==> s@ == SessionView::fresh(s@.leaf),
        ensures
            final(self).wf(),
            match session {
                Ok(s) => old(self)@.opened(id, s@.leaf, final(self)@, actions(more@)),
                Err(e) => old(self)@.failed_at(id, final(self)@, actions(more@), e.stage()),
            },
    {
        match session {
            Ok(session) => {
                let more: Vec<ProxyAction> = self.proxy.on_tunnel(id, None);
                if self.proxy.is_tunnel(id) {
                    self.sessions.insert(id, session);
                }
                assert(self@.sessions =~= if old(self)@.proxy.conns.contains_key(id) {
                    old(self)@.sessions.insert(id, session@)
                } else {
                    old(self)@.sessions
                });
                more
            },
            Err(e) => self.refuse(id, failure_text(e)),
        }
    }

    /// Answer a CONNECT with an error: there is no session for its tunnel.
    pub fn refuse(&mut self, id: u64, error: String) -> (more: Vec<ProxyAction>)
        requires
            old(self).wf(),
        ensures
            final(self).wf(),
            old(self)@.goes_on(
                final(self)@,
                actions(more@),
                old(self)@.proxy.tunneled(id, Some(error@)),
            ),
    {
        self.proxy.on_tunnel(id, Some(error))
    }

    /// Answer a request for the certificate of the authority with an error:
    /// there is none.
    pub fn refuse_ca(&mut self, id: u64, error: String) -> (more: Vec<ProxyAction>)
        requires
            old(self).wf(),
        ensures
            final(self).wf(),
            old(self)@.goes_on(
                final(self)@,
                actions(more@),
                old(self)@.proxy.ca_served(id, Err(error@)),
            ),
    {
        self.proxy.on_ca(id, Err(error))
    }

    fn open(&mut self, id: u64, host: String) -> (r: (Vec<Output>, Vec<ProxyAction>))
        requires
            old(self).wf(),
        ensures
            final(self).wf(),
            old(self)@.performed(
                ActionView::OpenTunnel(id, host@),
                final(self)@,
                outputs(r.0@),
                actions(r.1@),
            ),
    {
        let session: Option<Result<Session, TlsError>> = match &self.authority {
            Some(authority) => authority.server(host.as_str()),
            None => None,
        };
        match session {
            Some(session) => (Vec::new(), self.tunnel(id, session)),
            None => (asked(Output::Certify(id, host)), Vec::new()),
        }
    }

    /// Take in the certificate of a host that a tunnel goes to, signed by the
    /// authority, and open the tunnel. The certificate is kept unless it is
    /// refused. Does nothing without an authority, or for a host that is
    /// certified already.
    pub fn certified(&mut self, id: u64, host: &str, leaf_der: Vec<u8>) -> (more: Vec<ProxyAction>)
        requires
            old(self).wf(),
        ensures
            final(self).wf(),
            match (old(self)@.ca_der, old(self)@.leaf_key) {
                (Some(ca_der), Some(key)) if !old(self)@.hosts.contains_key(host@) => {
                    if chain_fits(leaf_der@, ca_der, key) {
                        (TunnelView {
                            hosts: old(self)@.hosts.insert(host@, leaf_der@),
                            ..old(self)@
                        }).opened(id, leaf_der@, final(self)@, actions(more@))
                    } else {
                        old(self)@.failed_at(
                            id,
                            final(self)@,
                            actions(more@),
                            "TLS certificate/key: "@,
                        )
                    }
                },
                _ => final(self)@ == old(self)@ && more@.len() == 0,
            },
    {
        let known: bool = match &self.authority {
            Some(authority) => authority.certifies(host),
            None => true,
        };
        if known {
            return Vec::new();
        }
        let mut authority: Option<TlsAuthority> = None;
        core::mem::swap(&mut authority, &mut self.authority);
        match authority {
            None => Vec::new(),
            Some(ca) => {
                let mut ca = ca;
                let session: Result<Session, TlsError> = ca.enroll(host, leaf_der);
                self.authority = Some(ca);
                proof {
                    let was = old(self).authority->0;
                    let leaves = was.leaves();
                    assert forall|h: Seq<char>| #[trigger]
                        ca.hosts().contains(h) == (was.hosts().contains(h) || session is Ok && h
                            == host@) by {
                        if session is Ok {
                            assert(ca.hosts()[was.hosts().len() as int] == host@);
                            if was.hosts().contains(h) {
                                assert(ca.hosts()[was.hosts().index_of(h)] == h);
                            }
                        }
                    }
                    assert(self@.hosts =~= if session is Ok {
                        leaves.insert(host@, leaf_der@)
                    } else {
                        leaves
                    });
                }
                self.tunnel(id, session)
            },
        }
    }

    /// Egress made progress on a request.
    pub fn on_completion(&mut self, completion: Completion) -> (more: Vec<ProxyAction>)
        requires
            old(self).wf(),
        ensures
            final(self).wf(),
            old(self)@.goes_on(
                final(self)@,
                actions(more@),
                old(self)@.proxy.completed(completion),
            ),
    {
        self.proxy.on_completion(completion)
    }
}

// ---- the authority as files ----------------------------------------------

proof fn lemma_no_slash(s: Seq<char>, from: int)
    requires
        0 <= from,
        forall|i: int| from <= i < s.len() ==> s[i] != '/',
    ensures
        find_char(s, '/', from) is None,
    decreases s.len() - from,
{
    if from < s.len() {
        lemma_no_slash(s, from + 1);
    }
}

/// A path to an entry of the root directory has one component.
proof fn lemma_root_entry(path: Seq<char>)
    requires
        path.len() > 2,
        path[0] == '/',
        forall|i: int| 1 <= i < path.len() ==> path[i] != '/',
    ensures
        components(path) == seq![path.subrange(1, path.len() as int)],
{
    let name = path.subrange(1, path.len() as int);
    lemma_no_slash(path, 1);
    assert(find_char(path, '/', 0) == Some(0int));
    assert(pieces_from(path, '/', 1) == seq![name]);
    let parts = pieces_from(path, '/', 0);
    assert(parts =~= seq![path.subrange(0, 0), name]);
    reveal_strlit(".");
    assert(name.len() != "."@.len());
    assert(components_of(parts, 0) =~= Seq::empty());
    assert(components_of(parts, 1) =~= Seq::empty());
    assert(components_of(parts, 2) =~= seq![name]);
}

/// A file that the guest may read, in the root directory of an export.
pub open spec fn exported(fs: FsView, path: Seq<char>, data: Seq<u8>) -> FsView {
    fs.with_path(path, fresh_node(BodyView::File(data), moded(S_IFREG, 0o444)))
}

/// A tiny tree that holds the certificate of the authority. Only the public
/// certificate enters the guest; the signing key stays with the authority. DER
/// remains available for existing guests. PEM lets small guests install the CA
/// without OpenSSL.
pub fn ca_export(authority: &TlsAuthority) -> (fs: MemFs)
    requires
        authority.wf(),
    ensures
        fs.wf(),
        pem_document("CERTIFICATE"@, authority.spec_ca_der()) matches Some(pem) && fs@ == exported(
            exported(FsView::fresh(), CA_9P_DER_PATH@, authority.spec_ca_der()),
            CA_9P_PEM_PATH@,
            encode_utf8(pem),
        ),
{
    proof {
        reveal_strlit("/ca.der");
        reveal_strlit("/ca.pem");
        lemma_root_entry(CA_9P_DER_PATH@);
        lemma_root_entry(CA_9P_PEM_PATH@);
    }
    let mut fs: MemFs = MemFs::new();
    fs.add_file(CA_9P_DER_PATH, authority.ca_der(), 0o444);
    fs.add_file(CA_9P_PEM_PATH, authority.ca_pem().as_bytes(), 0o444);
    fs
}

// ---- laws ----------------------------------------------------------------

/// What goes to a tunnel goes through its session: of the bytes that the proxy
/// sends, none reach the wire of a tunnel as they are. The session takes them,
/// and what goes out is the records that it gave, all of them and in order.
pub proof fn law_tunnels_carry_records_only(
    t: TunnelView,
    id: u64,
    bytes: Seq<u8>,
    now: TunnelView,
    out: Seq<OutputView>,
    more: Seq<ActionView>,
) -> (calls: Seq<Call>)
    requires
        t.wf(),
        t.proxy.conns.contains_key(id),
        t.proxy.conns[id].tls,
        t.performed(ActionView::Send(id, bytes), now, out, more),
    ensures
        forall|i: int| 0 <= i < out.len() ==> #[trigger] out[i] is Records,
        now.sessions.contains_key(id),
        t.sessions[id].took(bytes, calls, now.sessions[id]),
        out == records_for(id, given(calls)),
        now == (TunnelView { sessions: t.sessions.insert(id, now.sessions[id]), ..t }),
{
    choose|calls: Seq<Call>| #[trigger] t.carried(id, bytes, now, out, calls)
}

/// What arrives for a tunnel is fed to its session as it is, and what the proxy
/// reads is what the session gives back as plaintext.
pub proof fn law_tunnels_are_read_through_their_session(
    t: TunnelView,
    id: u64,
    bytes: Seq<u8>,
    now: TunnelView,
    out: Seq<OutputView>,
    more: Seq<ActionView>,
)
    requires
        t.sessions.contains_key(id),
        t.performed(ActionView::Decrypt(id, bytes), now, out, more),
    ensures
        ({
            let before = t.sessions[id].log.len() as int;
            let log = now.sessions[id].log;
            &&& log.len() > before
            &&& log[before] == Call::Fed(bytes, true) || log[before] == Call::Fed(bytes, false)
            &&& more == t.proxy.decrypted(
                id,
                if log.len() > before + 2 && log[before + 2] is Read {
                    log[before + 2]->Read_0
                } else {
                    None
                },
            ).actions
        }),
{
    let (heard, wires) = choose|heard: Heard, wires: Seq<Seq<u8>>| #[trigger]
        t.heard(id, bytes, now, out, more, heard, wires);
    let log = now.sessions[id].log;
    let front = t.sessions[id].log;
    let calls = heard.calls(bytes);
    assert(log == front + (calls + givings(wires)));
    assert forall|i: int| calls.len() <= i < log.len() - front.len() implies #[trigger] log[front.len()
        + i] is Sent by {
        assert(log[front.len() + i] == givings(wires)[i - calls.len()]);
    }
    assert forall|i: int| 0 <= i < calls.len() implies #[trigger] log[front.len() + i] == calls[i] by {
    }
    assert(log[front.len() + 0int] == calls[0]);
    if log.len() > front.len() + 2 {
        assert(log[front.len() + 2int] == log[front.len() + 2int]);
    }
}

/// Only what a session decrypted can submit a request over a tunnel, and nothing
/// is decrypted where there is no session: the connection is then closed.
pub proof fn law_no_session_no_request(
    t: TunnelView,
    id: u64,
    bytes: Seq<u8>,
    now: TunnelView,
    out: Seq<OutputView>,
    more: Seq<ActionView>,
)
    requires
        !t.sessions.contains_key(id),
        t.performed(ActionView::Decrypt(id, bytes), now, out, more),
    ensures
        more == seq![ActionView::Close(id, false)],
        now.proxy.inflight == t.proxy.inflight,
        !now.proxy.conns.contains_key(id),
{
}

} // verus!
