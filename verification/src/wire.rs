//! Proxy requests and responses, and the form in which they cross into the
//! embedding.
//!
//! A request has to cross into JavaScript (where `fetch` lives) and a response
//! has to come back. Both are encoded as explicit length-prefixed fields rather
//! than JSON: no escaping questions, no dependency, and a DataView reads it in a
//! dozen lines. All lengths are little-endian u32.

use vstd::prelude::*;
use vstd::string::StringSliceAdditionalSpecFns;
use vstd::utf8::encode_utf8;
use crate::bytes::{copy_range, le_bytes, le_value, push_all, push_le, read_le};
use crate::text::{lemma_text_round_trip, lossy_text, text_of};

verus! {

/// A request the proxy wants performed on the guest's behalf.
#[derive(Clone, Debug, PartialEq, Eq)]
pub struct Request {
    pub method: String,
    /// Absolute URL, with the scheme [`Egress`] should use.
    pub url: String,
    pub headers: Vec<(String, String)>,
    pub body: Vec<u8>,
}

/// A response to a [`Request`].
#[derive(Clone, Debug, PartialEq, Eq)]
pub struct Response {
    pub status: u16,
    pub headers: Vec<(String, String)>,
    pub body: Vec<u8>,
}

/// Identifies an in-flight request.
pub type ReqId = u64;

/// Header names and values.
pub type Headers = Seq<(Seq<char>, Seq<char>)>;

/// What a [`Request`] says.
#[verifier::ext_equal]
pub struct RequestView {
    pub method: Seq<char>,
    pub url: Seq<char>,
    pub headers: Headers,
    pub body: Seq<u8>,
}

/// The names and values of headers.
pub open spec fn header_view(headers: Seq<(String, String)>) -> Headers {
    headers.map_values(|h: (String, String)| (h.0@, h.1@))
}

impl View for Request {
    type V = RequestView;

    open spec fn view(&self) -> RequestView {
        RequestView {
            method: self.method@,
            url: self.url@,
            headers: header_view(self.headers@),
            body: self.body@,
        }
    }
}

/// A field on the wire: its length, then its bytes.
pub open spec fn field(b: Seq<u8>) -> Seq<u8> {
    le_bytes(b.len(), 4) + b
}

/// The first `n` headers on the wire.
pub open spec fn header_fields(headers: Headers, n: int) -> Seq<u8>
    decreases n,
{
    if n <= 0 {
        Seq::empty()
    } else {
        header_fields(headers, n - 1) + field(encode_utf8(headers[n - 1].0)) + field(
            encode_utf8(headers[n - 1].1),
        )
    }
}

impl RequestView {
    /// `method | url | nheaders | (name, value)* | body`
    pub open spec fn encoded(self) -> Seq<u8> {
        field(encode_utf8(self.method)) + field(encode_utf8(self.url)) + le_bytes(
            self.headers.len(),
            4,
        ) + header_fields(self.headers, self.headers.len() as int) + field(self.body)
    }
}

/// A response head on the wire: `status | nheaders | (name, value)*`.
pub open spec fn head_encoded(status: u16, headers: Headers) -> Seq<u8> {
    le_bytes(status as nat, 4) + le_bytes(headers.len(), 4) + header_fields(
        headers,
        headers.len() as int,
    )
}

/// The length at offset `p`, if all of it is there.
pub open spec fn length_at(b: Seq<u8>, p: int) -> Option<int> {
    if 0 <= p && p + 4 <= b.len() {
        Some(le_value(b.subrange(p, p + 4)) as int)
    } else {
        None
    }
}

/// The field at offset `p` and where it ends, if all of it is there.
pub open spec fn field_at(b: Seq<u8>, p: int) -> Option<(Seq<u8>, int)> {
    match length_at(b, p) {
        Some(n) if p + 4 + n <= b.len() => Some((b.subrange(p + 4, p + 4 + n), p + 4 + n)),
        _ => None,
    }
}

/// The `n` headers at offset `p` and where they end, if all of them are there.
pub open spec fn headers_at(b: Seq<u8>, p: int, n: nat) -> Option<(Headers, int)>
    decreases n,
{
    if n == 0 {
        Some((Seq::empty(), p))
    } else {
        match headers_at(b, p, (n - 1) as nat) {
            None => None,
            Some((headers, q)) => match field_at(b, q) {
                None => None,
                Some((name, r)) => match field_at(b, r) {
                    None => None,
                    Some((value, end)) => Some((headers.push((text_of(name), text_of(value))), end)),
                },
            },
        }
    }
}

/// The request at the start of `b` and where it ends, if all of it is there.
pub open spec fn request_at(b: Seq<u8>) -> Option<(RequestView, int)> {
    match field_at(b, 0) {
        None => None,
        Some((method, p)) => match field_at(b, p) {
            None => None,
            Some((url, q)) => match length_at(b, q) {
                None => None,
                Some(n) => match headers_at(b, q + 4, n as nat) {
                    None => None,
                    Some((headers, r)) => match field_at(b, r) {
                        None => None,
                        Some((body, end)) => Some(
                            (
                                RequestView {
                                    method: text_of(method),
                                    url: text_of(url),
                                    headers,
                                    body,
                                },
                                end,
                            ),
                        ),
                    },
                },
            },
        },
    }
}

/// The response head at the start of `b` and where it ends, if all of it is
/// there.
pub open spec fn head_at(b: Seq<u8>) -> Option<((u16, Headers), int)> {
    match (length_at(b, 0), length_at(b, 4)) {
        (Some(status), Some(n)) => match headers_at(b, 8, n as nat) {
            None => None,
            Some((headers, end)) => Some((((status % 0x1_0000) as u16, headers), end)),
        },
        _ => None,
    }
}

// ---- laws ----------------------------------------------------------------

proof fn lemma_field_at(b: Seq<u8>, p: int, data: Seq<u8>)
    requires
        0 <= p,
        data.len() <= u32::MAX,
        p + 4 + data.len() <= b.len(),
        b.subrange(p, p + 4 + data.len()) == field(data),
    ensures
        field_at(b, p) == Some((data, p + 4 + data.len())),
{
    crate::bytes::lemma_le_bytes_len(data.len(), 4);
    crate::bytes::lemma_byte_spans();
    crate::bytes::lemma_le_round_trip(data.len(), 4);
    let whole = b.subrange(p, p + 4 + data.len());
    assert(b.subrange(p, p + 4) =~= whole.subrange(0, 4));
    assert(whole.subrange(0, 4) =~= le_bytes(data.len(), 4));
    assert(b.subrange(p + 4, p + 4 + data.len()) =~= whole.subrange(4, 4 + data.len() as int));
    assert(whole.subrange(4, 4 + data.len() as int) =~= data);
}

proof fn lemma_length_at(b: Seq<u8>, p: int, n: nat)
    requires
        0 <= p,
        n <= u32::MAX,
        p + 4 <= b.len(),
        b.subrange(p, p + 4) == le_bytes(n, 4),
    ensures
        length_at(b, p) == Some(n as int),
{
    crate::bytes::lemma_byte_spans();
    crate::bytes::lemma_le_round_trip(n, 4);
}

proof fn lemma_header_fields_len(headers: Headers, m: int, n: int)
    requires
        0 <= m <= n,
    ensures
        header_fields(headers, m).len() <= header_fields(headers, n).len(),
        header_fields(headers, n).subrange(0, header_fields(headers, m).len() as int)
            == header_fields(headers, m),
    decreases n,
{
    let a = header_fields(headers, m);
    if m < n {
        lemma_header_fields_len(headers, m, n - 1);
        let b = header_fields(headers, n - 1);
        let c = header_fields(headers, n);
        assert(c.subrange(0, a.len() as int) =~= b.subrange(0, a.len() as int));
    } else {
        assert(a.subrange(0, a.len() as int) =~= a);
    }
}

/// Whether every length in these headers fits on the wire.
pub open spec fn headers_fit(headers: Headers) -> bool {
    &&& headers.len() <= u32::MAX
    &&& forall|i: int|
        0 <= i < headers.len() ==> encode_utf8((#[trigger] headers[i]).0).len() <= u32::MAX
            && encode_utf8(headers[i].1).len() <= u32::MAX
}

proof fn lemma_headers_at(b: Seq<u8>, p: int, headers: Headers, n: nat)
    requires
        0 <= p,
        headers_fit(headers),
        n <= headers.len(),
        p + header_fields(headers, n as int).len() <= b.len(),
        b.subrange(p, p + header_fields(headers, n as int).len()) == header_fields(
            headers,
            n as int,
        ),
    ensures
        headers_at(b, p, n) == Some(
            (headers.subrange(0, n as int), p + header_fields(headers, n as int).len()),
        ),
    decreases n,
{
    if n > 0 {
        let all = header_fields(headers, n as int);
        let before = header_fields(headers, n - 1);
        let name = encode_utf8(headers[n - 1].0);
        let value = encode_utf8(headers[n - 1].1);
        let whole = b.subrange(p, p + all.len());
        crate::bytes::lemma_le_bytes_len(name.len(), 4);
        crate::bytes::lemma_le_bytes_len(value.len(), 4);
        assert(b.subrange(p, p + before.len()) =~= whole.subrange(0, before.len() as int));
        assert(whole.subrange(0, before.len() as int) =~= before);
        lemma_headers_at(b, p, headers, (n - 1) as nat);
        let q = p + before.len();
        let r = q + 4 + name.len();
        let at_name = before.len() as int;
        let at_value = at_name + 4 + name.len();
        assert(b.subrange(q, r) =~= whole.subrange(at_name, at_value));
        assert(whole.subrange(at_name, at_value) =~= field(name));
        lemma_field_at(b, q, name);
        assert(b.subrange(r, r + 4 + value.len()) =~= whole.subrange(
            at_value,
            at_value + 4 + value.len(),
        ));
        assert(whole.subrange(at_value, at_value + 4 + value.len()) =~= field(value));
        lemma_field_at(b, r, value);
        lemma_text_round_trip(headers[n - 1].0);
        lemma_text_round_trip(headers[n - 1].1);
        assert(headers.subrange(0, n - 1).push(headers[n - 1]) =~= headers.subrange(0, n as int));
    } else {
        assert(headers.subrange(0, 0) =~= Seq::empty());
    }
}

/// A request that is encoded and decoded again is the request that it was.
pub proof fn law_request_round_trips(r: RequestView)
    requires
        encode_utf8(r.method).len() <= u32::MAX,
        encode_utf8(r.url).len() <= u32::MAX,
        headers_fit(r.headers),
        r.body.len() <= u32::MAX,
    ensures
        request_at(r.encoded()) == Some((r, r.encoded().len() as int)),
{
    let b = r.encoded();
    let method = encode_utf8(r.method);
    let url = encode_utf8(r.url);
    let n = r.headers.len();
    let hs = header_fields(r.headers, n as int);
    crate::bytes::lemma_le_bytes_len(method.len(), 4);
    crate::bytes::lemma_le_bytes_len(url.len(), 4);
    crate::bytes::lemma_le_bytes_len(n, 4);
    crate::bytes::lemma_le_bytes_len(r.body.len(), 4);
    let p = 4 + method.len();
    let q = p + 4 + url.len();
    let s = q + 4 + hs.len();
    let end = s + 4 + r.body.len();
    assert(b.len() == end);
    assert(b.subrange(0, p as int) =~= field(method));
    lemma_field_at(b, 0, method);
    assert(b.subrange(p as int, q as int) =~= field(url));
    lemma_field_at(b, p as int, url);
    assert(b.subrange(q as int, q as int + 4) =~= le_bytes(n, 4));
    lemma_length_at(b, q as int, n);
    assert(b.subrange(q as int + 4, s as int) =~= hs);
    lemma_headers_at(b, q as int + 4, r.headers, n);
    assert(r.headers.subrange(0, n as int) =~= r.headers);
    assert(b.subrange(s as int, end as int) =~= field(r.body));
    lemma_field_at(b, s as int, r.body);
    lemma_text_round_trip(r.method);
    lemma_text_round_trip(r.url);
}

/// A response head that is encoded and decoded again is the head that it was.
pub proof fn law_head_round_trips(status: u16, headers: Headers)
    requires
        headers_fit(headers),
    ensures
        head_at(head_encoded(status, headers)) == Some(
            ((status, headers), head_encoded(status, headers).len() as int),
        ),
{
    let b = head_encoded(status, headers);
    let n = headers.len();
    let hs = header_fields(headers, n as int);
    crate::bytes::lemma_le_bytes_len(status as nat, 4);
    crate::bytes::lemma_le_bytes_len(n, 4);
    assert(b.subrange(0, 4) =~= le_bytes(status as nat, 4));
    lemma_length_at(b, 0, status as nat);
    assert(b.subrange(4, 8) =~= le_bytes(n, 4));
    lemma_length_at(b, 4, n);
    assert(b.subrange(8, 8 + hs.len() as int) =~= hs);
    lemma_headers_at(b, 8, headers, n);
    assert(headers.subrange(0, n as int) =~= headers);
}

proof fn lemma_prefix_field(a: Seq<u8>, b: Seq<u8>, p: int)
    requires
        a.len() <= b.len(),
        b.subrange(0, a.len() as int) == a,
    ensures
        length_at(a, p) is Some ==> length_at(b, p) == length_at(a, p),
        field_at(a, p) is Some ==> field_at(b, p) == field_at(a, p),
        field_at(a, p) matches Some((data, end)) ==> end <= a.len(),
{
    if length_at(a, p) is Some {
        assert(b.subrange(p, p + 4) =~= a.subrange(p, p + 4));
        if let Some((data, end)) = field_at(a, p) {
            assert(b.subrange(p + 4, end) =~= a.subrange(p + 4, end));
        }
    }
}

proof fn lemma_prefix_headers(a: Seq<u8>, b: Seq<u8>, p: int, n: nat)
    requires
        a.len() <= b.len(),
        b.subrange(0, a.len() as int) == a,
        headers_at(a, p, n) is Some,
    ensures
        headers_at(b, p, n) == headers_at(a, p, n),
        p <= a.len() ==> (headers_at(a, p, n)->0).1 <= a.len(),
    decreases n,
{
    if n > 0 {
        lemma_prefix_headers(a, b, p, (n - 1) as nat);
        let q = (headers_at(a, p, (n - 1) as nat)->0).1;
        lemma_prefix_field(a, b, q);
        lemma_prefix_field(a, b, (field_at(a, q)->0).1);
    }
}

/// What decodes from the start of some bytes decodes the same with more bytes
/// behind it, and ends within them.
pub proof fn law_decoding_reads_no_further(a: Seq<u8>, b: Seq<u8>)
    requires
        a.len() <= b.len(),
        b.subrange(0, a.len() as int) == a,
    ensures
        request_at(a) is Some ==> request_at(b) == request_at(a) && (request_at(a)->0).1 <= a.len(),
        head_at(a) is Some ==> head_at(b) == head_at(a) && (head_at(a)->0).1 <= a.len(),
{
    if request_at(a) is Some {
        lemma_prefix_field(a, b, 0);
        let p = (field_at(a, 0)->0).1;
        lemma_prefix_field(a, b, p);
        let q = (field_at(a, p)->0).1;
        lemma_prefix_field(a, b, q);
        let n = length_at(a, q)->0 as nat;
        lemma_prefix_headers(a, b, q + 4, n);
        lemma_prefix_field(a, b, (headers_at(a, q + 4, n)->0).1);
    }
    if head_at(a) is Some {
        lemma_prefix_field(a, b, 0);
        lemma_prefix_field(a, b, 4);
        lemma_prefix_headers(a, b, 8, length_at(a, 4)->0 as nat);
    }
}

/// Truncation is an error: no proper prefix of an encoded request or response
/// head decodes.
#[verifier::spinoff_prover]
#[verifier::rlimit(60)]
pub proof fn law_truncation_is_an_error(r: RequestView, status: u16, headers: Headers, cut: int)
    requires
        encode_utf8(r.method).len() <= u32::MAX,
        encode_utf8(r.url).len() <= u32::MAX,
        headers_fit(r.headers),
        r.body.len() <= u32::MAX,
        headers_fit(headers),
        0 <= cut,
    ensures
        cut < r.encoded().len() ==> request_at(r.encoded().subrange(0, cut)) is None,
        cut < head_encoded(status, headers).len() ==> head_at(
            head_encoded(status, headers).subrange(0, cut),
        ) is None,
{
    if cut < r.encoded().len() {
        law_request_round_trips(r);
        law_decoding_reads_no_further(r.encoded().subrange(0, cut), r.encoded());
    }
    if cut < head_encoded(status, headers).len() {
        law_head_round_trips(status, headers);
        law_decoding_reads_no_further(
            head_encoded(status, headers).subrange(0, cut),
            head_encoded(status, headers),
        );
    }
}

// ---- encoding ------------------------------------------------------------

fn put_bytes(out: &mut Vec<u8>, b: &[u8])
    ensures
        final(out)@ == old(out)@ + field(b@),
{
    push_le(out, b.len() as u64, 4);
    push_all(out, b);
    assert(out@ =~= old(out)@ + field(b@));
}

fn put_headers(out: &mut Vec<u8>, headers: &[(String, String)])
    ensures
        final(out)@ == old(out)@ + header_fields(header_view(headers@), headers@.len() as int),
{
    let ghost view = header_view(headers@);
    let mut i: usize = 0;
    assert(out@ =~= old(out)@ + header_fields(view, 0));
    while i < headers.len()
        invariant
            i <= headers@.len(),
            view == header_view(headers@),
            out@ == old(out)@ + header_fields(view, i as int),
        decreases headers@.len() - i,
    {
        put_bytes(out, headers[i].0.as_str().as_bytes());
        put_bytes(out, headers[i].1.as_str().as_bytes());
        i = i + 1;
        assert(view[i - 1] == (headers@[i - 1].0@, headers@[i - 1].1@));
        assert(out@ =~= old(out)@ + header_fields(view, i as int));
    }
}

/// A place in bytes that are being decoded.
struct Cursor<'a> {
    b: &'a [u8],
    p: usize,
}

impl<'a> Cursor<'a> {
    spec fn wf(&self) -> bool {
        self.p <= self.b@.len()
    }

    fn u32(&mut self) -> (v: Option<u32>)
        requires
            old(self).wf(),
        ensures
            final(self).wf(),
            final(self).b@ == old(self).b@,
            match (v, length_at(old(self).b@, old(self).p as int)) {
                (Some(a), Some(n)) => a == n && final(self).p == old(self).p + 4,
                (None, None) => true,
                _ => false,
            },
    {
        if self.b.len() - self.p < 4 {
            return None;
        }
        proof {
            crate::bytes::lemma_byte_spans();
            crate::bytes::lemma_le_value_bound(self.b@.subrange(self.p as int, self.p + 4));
        }
        let v: u32 = read_le(self.b, self.p, 4) as u32;
        self.p = self.p + 4;
        Some(v)
    }

    fn bytes(&mut self) -> (v: Option<Vec<u8>>)
        requires
            old(self).wf(),
        ensures
            final(self).wf(),
            final(self).b@ == old(self).b@,
            match (v, field_at(old(self).b@, old(self).p as int)) {
                (Some(a), Some((data, end))) => a@ == data && final(self).p == end,
                (None, None) => true,
                _ => false,
            },
    {
        let n: u32 = match self.u32() {
            Some(n) => n,
            None => {
                return None;
            },
        };
        if ((self.b.len() - self.p) as u64) < n as u64 {
            return None;
        }
        let start: usize = self.p;
        self.p = start + n as usize;
        Some(copy_range(self.b, start, self.p))
    }

    fn string(&mut self) -> (v: Option<String>)
        requires
            old(self).wf(),
        ensures
            final(self).wf(),
            final(self).b@ == old(self).b@,
            match (v, field_at(old(self).b@, old(self).p as int)) {
                (Some(a), Some((data, end))) => a@ == text_of(data) && final(self).p == end,
                (None, None) => true,
                _ => false,
            },
    {
        match self.bytes() {
            Some(bytes) => Some(lossy_text(bytes.as_slice())),
            None => None,
        }
    }

    fn headers(&mut self, n: u32) -> (v: Option<Vec<(String, String)>>)
        requires
            old(self).wf(),
        ensures
            final(self).wf(),
            final(self).b@ == old(self).b@,
            match (v, headers_at(old(self).b@, old(self).p as int, n as nat)) {
                (Some(a), Some((headers, end))) => header_view(a@) == headers && final(self).p
                    == end,
                (None, None) => true,
                _ => false,
            },
    {
        let mut headers: Vec<(String, String)> = Vec::new();
        let mut i: u32 = 0;
        assert(header_view(headers@) =~= Seq::empty());
        while i < n
            invariant
                i <= n,
                self.wf(),
                self.b@ == old(self).b@,
                headers_at(self.b@, old(self).p as int, i as nat) == Some(
                    (header_view(headers@), self.p as int),
                ),
            decreases n - i,
        {
            let ghost before = header_view(headers@);
            proof {
                lemma_headers_missing(self.b@, old(self).p as int, (i + 1) as nat, n as nat);
            }
            let name: String = match self.string() {
                Some(name) => name,
                None => {
                    return None;
                },
            };
            let value: String = match self.string() {
                Some(value) => value,
                None => {
                    return None;
                },
            };
            headers.push((name, value));
            assert(header_view(headers@) =~= before.push((name@, value@)));
            i = i + 1;
        }
        Some(headers)
    }
}

proof fn lemma_headers_missing(b: Seq<u8>, p: int, m: nat, n: nat)
    requires
        m <= n,
    ensures
        headers_at(b, p, m) is None ==> headers_at(b, p, n) is None,
    decreases n,
{
    if m < n {
        lemma_headers_missing(b, p, m, (n - 1) as nat);
    }
}

impl Request {
    /// `method | url | nheaders | (name, value)* | body`
    pub fn encode(&self) -> (out: Vec<u8>)
        ensures
            out@ == self@.encoded(),
    {
        let mut out: Vec<u8> = Vec::new();
        put_bytes(&mut out, self.method.as_str().as_bytes());
        assert(out@ =~= field(encode_utf8(self.method@)));
        put_bytes(&mut out, self.url.as_str().as_bytes());
        push_le(&mut out, self.headers.len() as u64, 4);
        put_headers(&mut out, self.headers.as_slice());
        put_bytes(&mut out, self.body.as_slice());
        out
    }

    /// The request at the start of `b`, or `None` if some of it is missing.
    pub fn decode(b: &[u8]) -> (request: Option<Request>)
        ensures
            match (request, request_at(b@)) {
                (Some(a), Some((view, end))) => a@ == view,
                (None, None) => true,
                _ => false,
            },
    {
        let mut c = Cursor { b, p: 0 };
        let method: String = match c.string() {
            Some(method) => method,
            None => {
                return None;
            },
        };
        let url: String = match c.string() {
            Some(url) => url,
            None => {
                return None;
            },
        };
        let n: u32 = match c.u32() {
            Some(n) => n,
            None => {
                return None;
            },
        };
        let headers: Vec<(String, String)> = match c.headers(n) {
            Some(headers) => headers,
            None => {
                return None;
            },
        };
        match c.bytes() {
            Some(body) => Some(Request { method, url, headers, body }),
            None => None,
        }
    }
}

/// Encode a response head for the embedding: `status | nheaders |
/// (name, value)*`. Bodies cross separately as raw chunks, so they need no
/// framing.
pub fn encode_head(status: u16, headers: &[(String, String)]) -> (out: Vec<u8>)
    ensures
        out@ == head_encoded(status, header_view(headers@)),
{
    let mut out: Vec<u8> = Vec::new();
    push_le(&mut out, status as u64, 4);
    assert(out@ =~= le_bytes(status as nat, 4));
    push_le(&mut out, headers.len() as u64, 4);
    put_headers(&mut out, headers);
    out
}

/// The response head at the start of `b`, or `None` if some of it is missing.
pub fn decode_head(b: &[u8]) -> (head: Option<(u16, Vec<(String, String)>)>)
    ensures
        match (head, head_at(b@)) {
            (Some(a), Some((view, end))) => a.0 == view.0 && header_view(a.1@) == view.1,
            (None, None) => true,
            _ => false,
        },
{
    let mut c = Cursor { b, p: 0 };
    let status: u32 = match c.u32() {
        Some(status) => status,
        None => {
            return None;
        },
    };
    let n: u32 = match c.u32() {
        Some(n) => n,
        None => {
            return None;
        },
    };
    match c.headers(n) {
        Some(headers) => Some(((status % 0x1_0000) as u16, headers)),
        None => None,
    }
}

/// What egress reports back about an in-flight request.
///
/// Responses are **streamed**, not delivered whole: an SSE or chunked API
/// response must reach the guest as it arrives rather than after the upstream
/// finishes, and a large body must never be buffered in full on the way past.
#[derive(Clone, Debug, PartialEq, Eq)]
pub enum Completion {
    /// Status and headers. Exactly one per request, before any `Body`.
    Head { id: ReqId, status: u16, headers: Vec<(String, String)> },
    /// A run of body bytes.
    Body { id: ReqId, bytes: Vec<u8> },
    /// The response is complete.
    End { id: ReqId },
    /// The request could not be performed, or failed part way through.
    Failed { id: ReqId, error: String },
}

impl Completion {
    /// The request that this is about.
    pub open spec fn request(&self) -> ReqId {
        match *self {
            Completion::Head { id, .. } => id,
            Completion::Body { id, .. } => id,
            Completion::End { id } => id,
            Completion::Failed { id, .. } => id,
        }
    }

    /// The request that this is about.
    pub fn id(&self) -> (id: ReqId)
        ensures
            id == self.request(),
    {
        match self {
            Completion::Head { id, .. } => *id,
            Completion::Body { id, .. } => *id,
            Completion::End { id } => *id,
            Completion::Failed { id, .. } => *id,
        }
    }
}

/// How requests actually leave the host.
///
/// Deliberately submit-then-poll rather than blocking: `fetch()` is async and
/// the guest's TCP connection has to stay open across it, so completion cannot
/// be a return value. Native implementations can complete immediately.
pub trait Egress {
    fn submit(&mut self, id: ReqId, req: Request);

    /// Progress since the last call, in order per request.
    fn poll(&mut self) -> Vec<Completion>;
}

} // verus!
