//! What holds of the proxy's requests and responses: a request is read as it was
//! written, and a response is written so that it can be read.

use vstd::prelude::*;
use vstd::string::StringSliceAdditionalSpecFns;
use vstd::utf8::encode_utf8;
use crate::bytes::{dec_text, hex_text};
use crate::egress::{
    authority_end, before_extension, carried, carried_lines, dechunked, reply_head, response_behind,
    upstream_head, url_target, ReplyHead, ResponseView, TargetView,
};
use crate::http::{
    absolute, as_chars, head_line, head_of, hop_by_hop, in_chunks, lemma_hex_text, lemma_no_crlf,
    lemma_no_white, request_behind, HeadView, ParseError,
};
use crate::proxy::{header_lines, response_head};
use crate::text::{
    digits_value, find_break, find_char, has_prefix, is_white, lemma_text_round_trip,
    lines_from, lowered, number, rfind_char, text_of, trimmed, white_end, white_tail, word_end,
    words, words_from,
};
use crate::wire::{Headers, RequestView};

verus! {

/// Text without white space.
pub open spec fn solid(s: Seq<char>) -> bool {
    forall|i: int| 0 <= i < s.len() ==> !is_white(#[trigger] s[i])
}

/// Text that neither starts nor ends with white space and has no line end in it.
pub open spec fn neat(s: Seq<char>) -> bool {
    &&& s.len() > 0 ==> !is_white(s[0]) && !is_white(s[s.len() - 1])
    &&& forall|i: int| 0 <= i < s.len() ==> #[trigger] s[i] != '\r'
}

/// A header whose name is one word without a colon.
pub open spec fn is_header(h: (Seq<char>, Seq<char>)) -> bool {
    &&& h.0.len() > 0
    &&& solid(h.0)
    &&& forall|i: int| 0 <= i < h.0.len() ==> #[trigger] h.0[i] != ':'
    &&& neat(h.1)
}

/// A header as a line.
pub open spec fn line_of(h: (Seq<char>, Seq<char>)) -> Seq<char> {
    h.0 + seq![':', ' '] + h.1
}

/// The first line of a request.
pub open spec fn request_line(method: Seq<char>, target: Seq<char>) -> Seq<char> {
    method + seq![' '] + target + seq![' '] + "HTTP/1.1"@
}

/// Lines from the `k`-th on, with CR LF between them.
pub open spec fn joined(lines: Seq<Seq<char>>, k: int) -> Seq<char>
    decreases lines.len() - k,
{
    if k < 0 || k >= lines.len() {
        Seq::empty()
    } else if k + 1 == lines.len() {
        lines[k]
    } else {
        lines[k] + seq!['\r', '\n'] + joined(lines, k + 1)
    }
}

/// The lines of a request's head.
pub open spec fn request_lines(method: Seq<char>, target: Seq<char>, headers: Headers) -> Seq<
    Seq<char>,
> {
    Seq::new(
        headers.len() + 1,
        |i: int|
            if i == 0 {
                request_line(method, target)
            } else {
                line_of(headers[i - 1])
            },
    )
}

/// The text of a request's head, without the empty line behind it.
pub open spec fn request_text(method: Seq<char>, target: Seq<char>, headers: Headers) -> Seq<char> {
    joined(request_lines(method, target, headers), 0)
}

proof fn lemma_break_at(s: Seq<char>, from: int, at: int)
    requires
        0 <= from <= at,
        at + 2 <= s.len(),
        s[at] == '\r',
        s[at + 1] == '\n',
        forall|i: int| from <= i < at ==> s[i] != '\r',
    ensures
        find_break(s, from) == Some(at),
    decreases at - from,
{
    if from < at {
        lemma_break_at(s, from + 1, at);
    }
}

proof fn lemma_no_break(s: Seq<char>, from: int)
    requires
        0 <= from <= s.len(),
        forall|i: int| from <= i < s.len() ==> s[i] != '\r',
    ensures
        find_break(s, from) is None,
    decreases s.len() - from,
{
    if from + 2 <= s.len() {
        lemma_no_break(s, from + 1);
    }
}

proof fn lemma_lines(s: Seq<char>, from: int, lines: Seq<Seq<char>>, k: int)
    requires
        0 <= k < lines.len(),
        0 <= from <= s.len(),
        s.subrange(from, s.len() as int) == joined(lines, k),
        forall|l: int, i: int|
            0 <= l < lines.len() && 0 <= i < lines[l].len() ==> #[trigger] lines[l][i] != '\r',
    ensures
        lines_from(s, from) == lines.subrange(k, lines.len() as int),
    decreases lines.len() - k,
{
    let rest = s.subrange(from, s.len() as int);
    let n = lines[k].len() as int;
    if k + 1 == lines.len() {
        assert forall|i: int| from <= i < s.len() implies s[i] != '\r' by {
            assert(rest[i - from] == lines[k][i - from]);
        }
        lemma_no_break(s, from);
        assert(lines.subrange(k, lines.len() as int) =~= seq![lines[k]]);
    } else {
        let tail = joined(lines, k + 1);
        assert(rest == lines[k] + seq!['\r', '\n'] + tail);
        assert forall|i: int| from <= i < from + n implies s[i] != '\r' by {
            assert(rest[i - from] == lines[k][i - from]);
        }
        assert(s[from + n] == rest[n]);
        assert(s[from + n + 1] == rest[n + 1]);
        lemma_break_at(s, from, from + n);
        assert(s.subrange(from, from + n) =~= lines[k]) by {
            assert forall|i: int| 0 <= i < n implies s.subrange(from, from + n)[i]
                == lines[k][i] by {
                assert(rest[i] == lines[k][i]);
            }
        }
        assert(s.subrange(from + n + 2, s.len() as int) =~= tail) by {
            assert forall|i: int| 0 <= i < tail.len() implies s[from + n + 2 + i] == tail[i] by {
                assert(rest[n + 2 + i] == tail[i]);
            }
        }
        lemma_lines(s, from + n + 2, lines, k + 1);
        assert(lines.subrange(k, lines.len() as int) =~= seq![lines[k]] + lines.subrange(
            k + 1,
            lines.len() as int,
        ));
    }
}

proof fn lemma_word_end(s: Seq<char>, from: int, end: int)
    requires
        0 <= from <= end <= s.len(),
        forall|i: int| from <= i < end ==> !is_white(s[i]),
        end < s.len() ==> is_white(s[end]),
    ensures
        word_end(s, from) == end,
    decreases end - from,
{
    if from < end {
        lemma_word_end(s, from + 1, end);
    }
}

proof fn lemma_request_words(method: Seq<char>, target: Seq<char>)
    requires
        method.len() > 0,
        target.len() > 0,
        solid(method),
        solid(target),
    ensures
        words(request_line(method, target)).len() >= 2,
        words(request_line(method, target))[0] == method,
        words(request_line(method, target))[1] == target,
{
    let s = request_line(method, target);
    let m = method.len() as int;
    let t = target.len() as int;
    assert(is_white(' '));
    assert forall|i: int| 0 <= i < m implies !is_white(s[i]) by {
        assert(s[i] == method[i]);
    }
    assert(s[m] == ' ');
    assert forall|i: int| m + 1 <= i < m + 1 + t implies !is_white(s[i]) by {
        assert(s[i] == target[i - m - 1]);
    }
    assert(s[m + 1 + t] == ' ');
    lemma_word_end(s, 0, m);
    lemma_word_end(s, m + 1, m + 1 + t);
    assert(white_end(s, 0) == 0);
    assert(white_end(s, m + 1) == m + 1);
    assert(white_end(s, m) == m + 1);
    assert(s.subrange(0, m) =~= method);
    assert(s.subrange(m + 1, m + 1 + t) =~= target);
    reveal_with_fuel(words_from, 3);
}

pub(crate) proof fn lemma_connect_words(target: Seq<char>)
    requires
        target.len() > 0,
        solid(target),
    ensures
        words(request_line("CONNECT"@, target)) == seq!["CONNECT"@, target, "HTTP/1.1"@],
        has_prefix("HTTP/1.1"@, "HTTP/"@),
{
    let method = "CONNECT"@;
    reveal_strlit("CONNECT");
    reveal_strlit("HTTP/1.1");
    reveal_strlit("HTTP/");
    assert(method.len() == 7 && "HTTP/1.1"@.len() == 8 && "HTTP/"@.len() == 5);
    assert("HTTP/1.1"@.subrange(0, 5) =~= "HTTP/"@);
    let s = request_line(method, target);
    let m = method.len() as int;
    let t = target.len() as int;
    let v = m + t + 2;
    assert(is_white(' '));
    assert forall|i: int| 0 <= i < m implies !is_white(s[i]) by {
        assert(s[i] == method[i]);
    }
    assert(s[m] == ' ');
    assert forall|i: int| m + 1 <= i < m + 1 + t implies !is_white(s[i]) by {
        assert(s[i] == target[i - m - 1]);
    }
    assert(s[m + 1 + t] == ' ');
    assert forall|i: int| v <= i < s.len() implies !is_white(s[i]) by {
        assert(s[i] == "HTTP/1.1"@[i - v]);
    }
    lemma_word_end(s, 0, m);
    lemma_word_end(s, m + 1, m + 1 + t);
    lemma_last_word(s, v);
    assert(white_end(s, 0) == 0);
    assert(white_end(s, m + 1) == m + 1);
    assert(white_end(s, m) == m + 1);
    assert(white_end(s, v) == v);
    assert(white_end(s, m + 1 + t) == v);
    assert(s.subrange(0, m) =~= method);
    assert(s.subrange(m + 1, m + 1 + t) =~= target);
    assert(s.subrange(v, s.len() as int) =~= "HTTP/1.1"@);
    assert(words_from(s, s.len() as int) =~= Seq::<Seq<char>>::empty());
    assert(words_from(s, m + 1 + t) =~= seq!["HTTP/1.1"@]);
    assert(words_from(s, m) =~= seq![target, "HTTP/1.1"@]);
    assert(words_from(s, 0) =~= seq![method, target, "HTTP/1.1"@]);
}

proof fn lemma_last_word(s: Seq<char>, from: int)
    requires
        0 <= from <= s.len(),
        forall|i: int| from <= i < s.len() ==> !is_white(s[i]),
    ensures
        word_end(s, from) == s.len(),
    decreases s.len() - from,
{
    if from < s.len() {
        lemma_last_word(s, from + 1);
    }
}

proof fn lemma_white_tail(s: Seq<char>, to: int)
    requires
        0 < to <= s.len(),
        !is_white(s[to - 1]),
    ensures
        white_tail(s, to) == to,
{
}

proof fn lemma_solid_is_trimmed(s: Seq<char>)
    requires
        s.len() > 0,
        solid(s),
    ensures
        trimmed(s) == s,
{
    assert(!is_white(s[0]));
    assert(!is_white(s[s.len() - 1]));
    lemma_white_tail(s, s.len() as int);
    assert(s.subrange(0, s.len() as int) =~= s);
}

proof fn lemma_value_is_trimmed(v: Seq<char>)
    requires
        neat(v),
    ensures
        trimmed(seq![' '] + v) == v,
{
    let s = seq![' '] + v;
    assert(is_white(' '));
    assert(s[0] == ' ');
    if v.len() == 0 {
        assert(white_tail(s, 0) == 0);
        assert(white_tail(s, 1) == 0);
        assert(white_end(s, 1) == 1);
        assert(white_end(s, 0) == 1);
        assert(trimmed(s) =~= v);
    } else {
        assert(s[1] == v[0]);
        assert(s[s.len() - 1] == v[v.len() - 1]);
        assert(white_end(s, 1) == 1);
        assert(white_end(s, 0) == 1);
        lemma_white_tail(s, s.len() as int);
        assert(s.subrange(1, s.len() as int) =~= v);
    }
}

proof fn lemma_colon(s: Seq<char>, at: int, from: int)
    requires
        0 <= from <= at < s.len(),
        s[at] == ':',
        forall|i: int| from <= i < at ==> s[i] != ':',
    ensures
        find_char(s, ':', from) == Some(at),
    decreases at - from,
{
    if from < at {
        lemma_colon(s, at, from + 1);
    }
}

/// A header line is read as the header that it was written from: it joins those
/// that are forwarded unless it is of this hop only or a length, `host` names the
/// host, and `content-length` the length of the body.
pub proof fn law_header_is_read(head: HeadView, h: (Seq<char>, Seq<char>))
    requires
        is_header(h),
    ensures
        ({
            let low = lowered(h.0);
            let now = head_line(head, line_of(h));
            &&& (!hop_by_hop(low) && low != "content-length"@ && low != "host"@ && low
                != "transfer-encoding"@ ==> now == Ok::<HeadView, ParseError>(
                HeadView { headers: head.headers.push(h), ..head },
            ))
            &&& (low == "host"@ && !hop_by_hop(low) && low != "content-length"@ ==> now == Ok::<
                HeadView,
                ParseError,
            >(HeadView { headers: head.headers.push(h), host: h.1, ..head }))
            &&& (hop_by_hop(low) && low != "content-length"@ && low != "host"@ && low
                != "transfer-encoding"@ ==> now == Ok::<HeadView, ParseError>(head))
        }),
{
    let s = line_of(h);
    let n = h.0.len() as int;
    assert(s[n] == ':');
    assert forall|i: int| 0 <= i < n implies s[i] != ':' by {
        assert(s[i] == h.0[i]);
    }
    lemma_colon(s, n, 0);
    assert(s.subrange(0, n) =~= h.0);
    assert(s.subrange(n + 1, s.len() as int) =~= seq![' '] + h.1);
    lemma_solid_is_trimmed(h.0);
    lemma_value_is_trimmed(h.1);
}

/// A header that says nothing of framing, of the host or of this hop.
pub open spec fn is_plain(h: (Seq<char>, Seq<char>)) -> bool {
    let low = lowered(h.0);
    &&& is_header(h)
    &&& !hop_by_hop(low)
    &&& low != "content-length"@
    &&& low != "host"@
    &&& low != "transfer-encoding"@
}

proof fn lemma_plain_head(lines: Seq<Seq<char>>, headers: Headers, n: int)
    requires
        1 <= n <= lines.len(),
        lines.len() == headers.len() + 1,
        forall|i: int| 1 <= i < lines.len() ==> #[trigger] lines[i] == line_of(headers[i - 1]),
        forall|i: int| 0 <= i < headers.len() ==> is_plain(#[trigger] headers[i]),
    ensures
        head_of(lines, n) == Ok::<HeadView, ParseError>(
            HeadView {
                headers: headers.subrange(0, n - 1),
                host: Seq::empty(),
                length: None,
                codings: Seq::empty(),
            },
        ),
    decreases n,
{
    if n == 1 {
        assert(headers.subrange(0, 0) =~= Seq::empty());
    } else {
        lemma_plain_head(lines, headers, n - 1);
        let head = head_of(lines, n - 1)->Ok_0;
        assert(is_plain(headers[n - 2]));
        law_header_is_read(head, headers[n - 2]);
        assert(lines[n - 1] == line_of(headers[n - 2]));
        assert(headers.subrange(0, n - 2).push(headers[n - 2]) =~= headers.subrange(0, n - 1));
    }
}

/// A request without a body is read as it was written: its method, the URL that it
/// asks for, and its headers in order.
pub proof fn law_request_is_read_as_written(
    buf: Seq<u8>,
    end: int,
    method: Seq<char>,
    target: Seq<char>,
    headers: Headers,
)
    requires
        0 <= end <= buf.len(),
        method.len() > 0,
        solid(method),
        lowered(method) != lowered("CONNECT"@),
        solid(target),
        has_prefix(target, "http://"@) || has_prefix(target, "https://"@),
        forall|i: int| 0 <= i < headers.len() ==> is_plain(#[trigger] headers[i]),
    ensures
        request_behind(buf, request_text(method, target, headers), end, false) == Ok::<
            Option<RequestView>,
            ParseError,
        >(Some(RequestView { method, url: target, headers, body: Seq::empty() })),
{
    let lines = request_lines(method, target, headers);
    let text = request_text(method, target, headers);
    reveal_strlit("http://");
    reveal_strlit("https://");
    reveal_strlit("HTTP/1.1");
    assert(target.len() > 0);
    assert(is_white('\r'));
    assert forall|l: int, i: int|
        0 <= l < lines.len() && 0 <= i < lines[l].len() implies #[trigger] lines[l][i] != '\r' by {
        if l == 0 {
            lemma_no_return(method, target, i);
        } else {
            let h = headers[l - 1];
            assert(is_plain(h));
            let n = h.0.len() as int;
            if i < n {
                assert(lines[l][i] == h.0[i]);
                assert(!is_white(h.0[i]));
            } else if i >= n + 2 {
                assert(lines[l][i] == h.1[i - n - 2]);
            }
        }
    }
    assert(text.subrange(0, text.len() as int) =~= text);
    lemma_lines(text, 0, lines, 0);
    assert(lines.subrange(0, lines.len() as int) =~= lines);
    assert(lines_from(text, 0) == lines);
    lemma_request_words(method, target);
    lemma_plain_head(lines, headers, lines.len() as int);
    assert(headers.subrange(0, headers.len() as int) =~= headers);
    assert(buf.subrange(end, end) =~= Seq::<u8>::empty());
}

proof fn lemma_no_return(method: Seq<char>, target: Seq<char>, i: int)
    requires
        solid(method),
        solid(target),
        0 <= i < request_line(method, target).len(),
    ensures
        request_line(method, target)[i] != '\r',
{
    reveal_strlit("HTTP/1.1");
    let s = request_line(method, target);
    let m = method.len() as int;
    let t = target.len() as int;
    assert(is_white('\r'));
    if i < m {
        assert(s[i] == method[i]);
    } else if m < i <= m + t {
        assert(s[i] == target[i - m - 1]);
    } else if i > m + t + 1 {
        assert(s[i] == "HTTP/1.1"@[i - m - t - 2]);
    }
}

/// Whether `part` stands in `whole` at `at`.
pub open spec fn stands(whole: Seq<u8>, part: Seq<u8>, at: int) -> bool {
    0 <= at && at + part.len() <= whole.len() && whole.subrange(at, at + part.len()) == part
}

/// A header as it goes out.
pub open spec fn sent_line(h: (Seq<char>, Seq<char>)) -> Seq<u8> {
    encode_utf8(h.0) + ": ".spec_bytes() + encode_utf8(h.1) + "\r\n".spec_bytes()
}

proof fn lemma_line_is_there(headers: Headers, n: int, i: int) -> (at: int)
    requires
        0 <= i < n <= headers.len(),
        crate::proxy::forwarded(headers[i].0),
    ensures
        stands(header_lines(headers, n), sent_line(headers[i]), at),
    decreases n,
{
    let all = header_lines(headers, n);
    let before = header_lines(headers, n - 1);
    if i < n - 1 {
        let at = lemma_line_is_there(headers, n - 1, i);
        let part = sent_line(headers[i]);
        assert(all.subrange(at, at + part.len()) =~= before.subrange(at, at + part.len()));
        at
    } else {
        let part = sent_line(headers[i]);
        assert(all =~= before + part);
        assert(all.subrange(before.len() as int, before.len() as int + part.len()) =~= part);
        before.len() as int
    }
}

/// A response head says its status in the first line, says that the connection
/// closes and ends with an empty line, and has a line for every header but those
/// of one hop, the length and the coding of the content.
pub proof fn law_response_head_says_all(status: u16, headers: Headers, i: int)
    requires
        0 <= i < headers.len(),
    ensures
        ({
            let head = response_head(status, headers);
            let low = lowered(headers[i].0);
            let start = "HTTP/1.1 ".spec_bytes() + dec_text(status as nat) + " ".spec_bytes();
            let last = "Connection: close\r\n\r\n".spec_bytes();
            &&& stands(head, start, 0)
            &&& stands(head, last, head.len() - last.len())
            &&& (!hop_by_hop(low) && low != "content-length"@ && low != "content-encoding"@
                ==> exists|at: int| #[trigger] stands(head, sent_line(headers[i]), at))
        }),
{
    let head = response_head(status, headers);
    let lines = header_lines(headers, headers.len() as int);
    let line = crate::proxy::status_line(status, crate::proxy::phrase(status)@);
    let last = "Connection: close\r\n\r\n".spec_bytes();
    let start = "HTTP/1.1 ".spec_bytes() + dec_text(status as nat) + " ".spec_bytes();
    assert(head =~= line + lines + last);
    assert(head.subrange(0, start.len() as int) =~= start);
    assert(head.subrange(head.len() - last.len(), head.len() as int) =~= last);
    let low = lowered(headers[i].0);
    if !hop_by_hop(low) && low != "content-length"@ && low != "content-encoding"@ {
        let at = lemma_line_is_there(headers, headers.len() as int, i);
        let part = sent_line(headers[i]);
        assert(head.subrange(line.len() + at, line.len() + at + part.len()) =~= lines.subrange(
            at,
            at + part.len(),
        ));
        assert(stands(head, part, line.len() + at));
    }
}


/// The headers of one hop are those that describe a connection, by their names in
/// lower case.
pub proof fn law_headers_of_one_hop(name: Seq<char>)
    ensures
        hop_by_hop(name) <==> name == "connection"@ || name == "proxy-connection"@ || name
            == "keep-alive"@ || name == "proxy-authenticate"@ || name == "proxy-authorization"@
            || name == "te"@ || name == "trailer"@ || name == "transfer-encoding"@ || name
            == "upgrade"@ || name == "accept-encoding"@,
{
}

/// A number in decimal, as text.
pub open spec fn decimal(n: nat) -> Seq<char> {
    dec_text(n).map_values(|b: u8| b as char)
}

pub(crate) proof fn lemma_decimal(n: nat)
    ensures
        decimal(n).len() > 0,
        digits_value(decimal(n), 10) == Some(n),
        forall|i: int| 0 <= i < decimal(n).len() ==> '0' <= #[trigger] decimal(n)[i] <= '9',
    decreases n,
{
    let s = decimal(n);
    if n < 10 {
        assert(s.drop_last() =~= Seq::<char>::empty());
        assert(s.last() == (48 + n) as u8 as char);
        reveal_with_fuel(digits_value, 2);
    } else {
        lemma_decimal(n / 10);
        assert(dec_text(n) == dec_text(n / 10).push((48 + n % 10) as u8));
        assert(s.drop_last() =~= decimal(n / 10));
        assert(s.last() == (48 + n % 10) as u8 as char);
        assert forall|i: int| 0 <= i < s.len() implies '0' <= #[trigger] s[i] <= '9' by {
            if i < s.len() - 1 {
                assert(s[i] == decimal(n / 10)[i]);
            }
        }
    }
}

/// A number reads back from its decimal text.
pub proof fn law_decimal_reads_back(n: nat, max: nat)
    ensures
        number(decimal(n), 10, max) == if n <= max {
            Some(n)
        } else {
            None
        },
{
    lemma_decimal(n);
    assert('0' <= decimal(n)[0]);
}

proof fn lemma_decimal_is_neat(n: nat)
    ensures
        neat(decimal(n)),
        decimal(n).len() > 0,
        decimal(n)[0] != '+',
{
    lemma_decimal(n);
    let s = decimal(n);
    assert('0' <= s[0] <= '9');
    assert('0' <= s[s.len() - 1] <= '9');
    assert forall|i: int| 0 <= i < s.len() implies #[trigger] s[i] != '\r' by {
        assert('0' <= s[i] <= '9');
    }
}

proof fn lemma_length_name()
    ensures
        lowered("Content-Length"@) == "content-length"@,
        solid("Content-Length"@),
        "Content-Length"@.len() == 14,
        forall|i: int|
            0 <= i < "Content-Length"@.len() ==> #[trigger] "Content-Length"@[i] != ':',
        "content-length"@ != "host"@,
        "content-length"@ != "transfer-encoding"@,
{
    reveal_strlit("Content-Length");
    reveal_strlit("content-length");
    reveal_strlit("host");
    reveal_strlit("transfer-encoding");
    assert("content-length"@.len() == 14 && "host"@.len() == 4 && "transfer-encoding"@.len() == 17);
    assert(lowered("Content-Length"@) =~= "content-length"@);
}

/// A declared length is the length of the body, and is not forwarded as a header.
pub proof fn law_length_is_read(head: HeadView, n: nat)
    requires
        n <= usize::MAX,
        head.length is None,
    ensures
        head_line(head, line_of(("Content-Length"@, decimal(n)))) == Ok::<HeadView, ParseError>(
            HeadView { length: Some(n), ..head },
        ),
{
    let h = ("Content-Length"@, decimal(n));
    let s = line_of(h);
    let k = h.0.len() as int;
    lemma_length_name();
    lemma_decimal_is_neat(n);
    law_decimal_reads_back(n, usize::MAX as nat);
    assert(s[k] == ':');
    assert forall|i: int| 0 <= i < k implies s[i] != ':' by {
        assert(s[i] == h.0[i]);
    }
    lemma_colon(s, k, 0);
    assert(s.subrange(0, k) =~= h.0);
    assert(s.subrange(k + 1, s.len() as int) =~= seq![' '] + h.1);
    lemma_solid_is_trimmed(h.0);
    lemma_value_is_trimmed(h.1);
}

/// The body of a request with a declared length is as many bytes behind its head,
/// once they have arrived; until then the request waits.
pub proof fn law_body_is_as_long_as_declared(
    buf: Seq<u8>,
    end: int,
    method: Seq<char>,
    target: Seq<char>,
    headers: Headers,
    n: nat,
)
    requires
        0 <= end <= buf.len(),
        method.len() > 0,
        solid(method),
        lowered(method) != lowered("CONNECT"@),
        solid(target),
        has_prefix(target, "http://"@) || has_prefix(target, "https://"@),
        forall|i: int| 0 <= i < headers.len() ==> is_plain(#[trigger] headers[i]),
        n <= crate::http::MAX_BODY,
    ensures
        request_behind(
            buf,
            request_text(method, target, headers.push(("Content-Length"@, decimal(n)))),
            end,
            false,
        ) == if end + n <= buf.len() {
            Ok::<Option<RequestView>, ParseError>(
                Some(
                    RequestView {
                        method,
                        url: target,
                        headers,
                        body: buf.subrange(end, end + n as int),
                    },
                ),
            )
        } else {
            Ok(None)
        },
{
    let all = headers.push(("Content-Length"@, decimal(n)));
    let lines = request_lines(method, target, all);
    let short = request_lines(method, target, headers);
    let text = request_text(method, target, all);
    let count = lines.len() as int;
    reveal_strlit("http://");
    reveal_strlit("https://");
    assert(target.len() > 0);
    assert(is_white('\r'));
    lemma_length_name();
    lemma_decimal_is_neat(n);
    assert forall|l: int, i: int|
        0 <= l < lines.len() && 0 <= i < lines[l].len() implies #[trigger] lines[l][i] != '\r' by {
        if l == 0 {
            lemma_no_return(method, target, i);
        } else {
            let h = all[l - 1];
            assert(l - 1 < headers.len() ==> is_plain(headers[l - 1]));
            let k = h.0.len() as int;
            if i < k {
                assert(lines[l][i] == h.0[i]);
                assert(!is_white(h.0[i]));
            } else if i >= k + 2 {
                assert(lines[l][i] == h.1[i - k - 2]);
            }
        }
    }
    assert(text.subrange(0, text.len() as int) =~= text);
    lemma_lines(text, 0, lines, 0);
    assert(lines.subrange(0, lines.len() as int) =~= lines);
    lemma_request_words(method, target);
    lemma_plain_head(short, headers, short.len() as int);
    lemma_head_same(short, lines, short.len() as int);
    let head = head_of(lines, count - 1)->Ok_0;
    assert(headers.subrange(0, headers.len() as int) =~= headers);
    law_length_is_read(head, n);
    assert(lines[count - 1] == line_of(("Content-Length"@, decimal(n))));
    assert(head_of(lines, count) == Ok::<HeadView, ParseError>(
        HeadView { length: Some(n), ..head },
    ));
}

proof fn lemma_head_same(a: Seq<Seq<char>>, b: Seq<Seq<char>>, n: int)
    requires
        n <= a.len(),
        a.len() <= b.len(),
        forall|i: int| 0 <= i < a.len() ==> #[trigger] a[i] == b[i],
    ensures
        head_of(a, n) == head_of(b, n),
    decreases n,
{
    if n > 1 {
        lemma_head_same(a, b, n - 1);
        assert(a[n - 1] == b[n - 1]);
    }
}

// ---- upstream ------------------------------------------------------------

proof fn lemma_carried_line(headers: Headers, n: int, i: int) -> (at: int)
    requires
        0 <= i < n <= headers.len(),
        carried(headers[i].0),
    ensures
        stands(carried_lines(headers, n), sent_line(headers[i]), at),
    decreases n,
{
    let all = carried_lines(headers, n);
    let before = carried_lines(headers, n - 1);
    let part = sent_line(headers[i]);
    if i < n - 1 {
        let at = lemma_carried_line(headers, n - 1, i);
        assert(all.subrange(at, at + part.len()) =~= before.subrange(at, at + part.len()));
        at
    } else {
        assert(all =~= before + part);
        assert(all.subrange(before.len() as int, before.len() as int + part.len()) =~= part);
        before.len() as int
    }
}

/// A request goes upstream as the guest made it: its method and path in the first
/// line, the authority as the host, a line for every header but the host and the
/// length, and the length of the body that follows.
pub proof fn law_upstream_request_says_all(request: RequestView, target: TargetView, i: int)
    requires
        0 <= i < request.headers.len(),
    ensures
        ({
            let head = upstream_head(request, target);
            let low = lowered(request.headers[i].0);
            let start = encode_utf8(request.method) + " ".spec_bytes() + encode_utf8(target.path)
                + " HTTP/1.1\r\nHost: ".spec_bytes() + encode_utf8(target.authority)
                + "\r\n".spec_bytes();
            let last = "Content-Length: ".spec_bytes() + dec_text(request.body.len())
                + "\r\nConnection: close\r\n\r\n".spec_bytes();
            &&& stands(head, start, 0)
            &&& stands(head, last, head.len() - last.len())
            &&& (low != lowered("host"@) && low != lowered("content-length"@) ==> exists|at: int|
                #[trigger] stands(head, sent_line(request.headers[i]), at))
        }),
{
    let head = upstream_head(request, target);
    let lines = carried_lines(request.headers, request.headers.len() as int);
    let start = encode_utf8(request.method) + " ".spec_bytes() + encode_utf8(target.path)
        + " HTTP/1.1\r\nHost: ".spec_bytes() + encode_utf8(target.authority) + "\r\n".spec_bytes();
    let last = "Content-Length: ".spec_bytes() + dec_text(request.body.len())
        + "\r\nConnection: close\r\n\r\n".spec_bytes();
    assert(head =~= start + lines + last);
    assert(head.subrange(0, start.len() as int) =~= start);
    assert(head.subrange(head.len() - last.len(), head.len() as int) =~= last);
    if carried(request.headers[i].0) {
        let at = lemma_carried_line(request.headers, request.headers.len() as int, i);
        let part = sent_line(request.headers[i]);
        assert(head.subrange(start.len() + at, start.len() + at + part.len()) =~= lines.subrange(
            at,
            at + part.len(),
        ));
        assert(stands(head, part, start.len() + at));
    }
}

/// Text that can be a host name: no slash, question mark, at sign, colon or
/// bracket.
pub open spec fn is_name(s: Seq<char>) -> bool {
    &&& s.len() > 0
    &&& forall|i: int|
        0 <= i < s.len() ==> #[trigger] s[i] != '/' && s[i] != '?' && s[i] != '@' && s[i] != ':'
            && s[i] != '['
}

proof fn lemma_authority_end(s: Seq<char>, from: int, at: int)
    requires
        0 <= from <= at <= s.len(),
        forall|i: int| from <= i < at ==> s[i] != '/' && s[i] != '?',
        at < s.len() ==> s[at] == '/' || s[at] == '?',
    ensures
        authority_end(s, from) == at,
    decreases at - from,
{
    if from < at {
        lemma_authority_end(s, from + 1, at);
    }
}

pub(crate) proof fn lemma_not_there(s: Seq<char>, c: char, from: int)
    requires
        0 <= from <= s.len(),
        forall|i: int| from <= i < s.len() ==> s[i] != c,
    ensures
        find_char(s, c, from) is None,
    decreases s.len() - from,
{
    if from < s.len() {
        lemma_not_there(s, c, from + 1);
    }
}

proof fn lemma_not_there_back(s: Seq<char>, c: char, to: int)
    requires
        0 <= to <= s.len(),
        forall|i: int| 0 <= i < to ==> s[i] != c,
    ensures
        rfind_char(s, c, to) is None,
    decreases to,
{
    if to > 0 {
        lemma_not_there_back(s, c, to - 1);
    }
}

pub(crate) proof fn lemma_there_back(s: Seq<char>, c: char, at: int, to: int)
    requires
        0 <= at < to <= s.len(),
        s[at] == c,
        forall|i: int| at < i < to ==> s[i] != c,
    ensures
        rfind_char(s, c, to) == Some(at),
    decreases to,
{
    if at < to - 1 {
        lemma_there_back(s, c, at, to - 1);
    }
}

/// A URL of a host and a path is taken apart into them: the port is 80, or 443
/// where the scheme is `https`, and that it is decides whether there is TLS.
pub proof fn law_url_is_taken_apart(host: Seq<char>, path: Seq<char>, tls: bool)
    requires
        is_name(host),
        path.len() > 0,
        path[0] == '/',
    ensures
        url_target(
            (if tls {
                "https://"@
            } else {
                "http://"@
            }) + host + path,
        ) == Ok::<TargetView, Seq<char>>(
            TargetView {
                tls,
                host,
                authority: host,
                port: if tls {
                    443
                } else {
                    80
                },
                path,
            },
        ),
{
    let scheme = if tls {
        "https://"@
    } else {
        "http://"@
    };
    let url = scheme + host + path;
    let rest = host + path;
    let n = host.len() as int;
    reveal_strlit("http://");
    reveal_strlit("https://");
    lemma_scheme(rest, tls);
    assert(url =~= scheme + rest);
    assert(url.subrange(scheme.len() as int, url.len() as int) =~= rest);
    assert forall|i: int| 0 <= i < n implies rest[i] != '/' && rest[i] != '?' by {
        assert(rest[i] == host[i]);
    }
    assert(rest[n] == path[0]);
    lemma_authority_end(rest, 0, n);
    assert(rest.subrange(0, n) =~= host);
    assert(rest.subrange(n, rest.len() as int) =~= path);
    lemma_not_there(host, '@', 0);
    lemma_not_there_back(host, ':', n);
    assert(host[0] != '[');
}

proof fn lemma_scheme(rest: Seq<char>, tls: bool)
    ensures
        tls ==> has_prefix("https://"@ + rest, "https://"@) && !has_prefix(
            "https://"@ + rest,
            "http://"@,
        ),
        !tls ==> has_prefix("http://"@ + rest, "http://"@),
{
    reveal_strlit("http://");
    reveal_strlit("https://");
    let a = "https://"@ + rest;
    let b = "http://"@ + rest;
    assert(a.subrange(0, 8) =~= "https://"@);
    assert(b.subrange(0, 7) =~= "http://"@);
    assert(a.subrange(0, 7)[4] == 's');
    assert("http://"@[4] == ':');
}

/// A URL that names a port is taken apart into the host and that port.
pub proof fn law_port_in_a_url_is_read(host: Seq<char>, port: nat, path: Seq<char>)
    requires
        is_name(host),
        port <= 65535,
        path.len() > 0,
        path[0] == '/',
    ensures
        url_target("http://"@ + (host + seq![':'] + decimal(port)) + path) == Ok::<
            TargetView,
            Seq<char>,
        >(
            TargetView {
                tls: false,
                host,
                authority: host + seq![':'] + decimal(port),
                port,
                path,
            },
        ),
{
    let authority = host + seq![':'] + decimal(port);
    let url = "http://"@ + authority + path;
    let rest = authority + path;
    let n = authority.len() as int;
    let h = host.len() as int;
    reveal_strlit("http://");
    lemma_scheme(rest, false);
    lemma_decimal(port);
    law_decimal_reads_back(port, 65535);
    assert(url =~= "http://"@ + rest);
    assert(url.subrange(7, url.len() as int) =~= rest);
    assert forall|i: int| 0 <= i < n implies authority[i] != '/' && authority[i] != '?'
        && authority[i] != '@' by {
        if i < h {
            assert(authority[i] == host[i]);
        } else if i > h {
            assert(authority[i] == decimal(port)[i - h - 1]);
            assert('0' <= decimal(port)[i - h - 1] <= '9');
        }
    }
    assert forall|i: int| 0 <= i < n implies rest[i] != '/' && rest[i] != '?' by {
        assert(rest[i] == authority[i]);
    }
    assert(rest[n] == path[0]);
    lemma_authority_end(rest, 0, n);
    assert(rest.subrange(0, n) =~= authority);
    assert(rest.subrange(n, rest.len() as int) =~= path);
    lemma_not_there(authority, '@', 0);
    assert(authority[h] == ':');
    assert forall|i: int| h < i < n implies authority[i] != ':' by {
        assert(authority[i] == decimal(port)[i - h - 1]);
        assert('0' <= decimal(port)[i - h - 1] <= '9');
    }
    lemma_there_back(authority, ':', h, n);
    assert(authority.subrange(0, h) =~= host);
    assert(authority.subrange(h + 1, n) =~= decimal(port));
    lemma_not_there(host, ':', 0);
    assert(authority[0] == host[0]);
}

/// A response that is neither sized nor in chunks is read as it was written: its
/// status, its headers in order, and everything behind its head as its body.
pub proof fn law_response_is_read_as_written(status: nat, headers: Headers, rest: Seq<u8>)
    requires
        status <= 65535,
        forall|i: int| 0 <= i < headers.len() ==> is_plain(#[trigger] headers[i]),
    ensures
        response_behind(
            joined(response_lines(status, headers), 0),
            rest,
        ) == Ok::<ResponseView, Seq<char>>(
            ResponseView { status: status as u16, headers, body: rest },
        ),
{
    let lines = response_lines(status, headers);
    let text = joined(lines, 0);
    assert(is_white('\r'));
    assert(is_white(' '));
    lemma_decimal(status);
    law_decimal_reads_back(status, 65535);
    reveal_strlit("HTTP/1.1");
    assert("HTTP/1.1"@.len() == 8);
    let code = decimal(status);
    assert(solid("HTTP/1.1"@));
    assert(solid(code)) by {
        assert forall|i: int| 0 <= i < code.len() implies !is_white(#[trigger] code[i]) by {
            assert('0' <= code[i] <= '9');
        }
    }
    assert forall|l: int, i: int|
        0 <= l < lines.len() && 0 <= i < lines[l].len() implies #[trigger] lines[l][i] != '\r' by {
        if l == 0 {
            lemma_no_return("HTTP/1.1"@, code, i);
        } else {
            let h = headers[l - 1];
            assert(is_plain(h));
            let n = h.0.len() as int;
            if i < n {
                assert(lines[l][i] == h.0[i]);
                assert(!is_white(h.0[i]));
            } else if i >= n + 2 {
                assert(lines[l][i] == h.1[i - n - 2]);
            }
        }
    }
    assert(text.subrange(0, text.len() as int) =~= text);
    lemma_lines(text, 0, lines, 0);
    assert(lines.subrange(0, lines.len() as int) =~= lines);
    lemma_request_words("HTTP/1.1"@, code);
    lemma_reply_head(lines, headers, lines.len() as int);
    assert(headers.subrange(0, headers.len() as int) =~= headers);
}

/// The lines of a response's head: the version, the status and a phrase, and a
/// line for each header.
pub open spec fn response_lines(status: nat, headers: Headers) -> Seq<Seq<char>> {
    Seq::new(
        headers.len() + 1,
        |i: int|
            if i == 0 {
                request_line("HTTP/1.1"@, decimal(status))
            } else {
                line_of(headers[i - 1])
            },
    )
}

proof fn lemma_reply_head(lines: Seq<Seq<char>>, headers: Headers, n: int)
    requires
        1 <= n <= lines.len(),
        lines.len() == headers.len() + 1,
        forall|i: int| 1 <= i < lines.len() ==> #[trigger] lines[i] == line_of(headers[i - 1]),
        forall|i: int| 0 <= i < headers.len() ==> is_plain(#[trigger] headers[i]),
    ensures
        reply_head(lines, n) == (ReplyHead {
            headers: headers.subrange(0, n - 1),
            length: None,
            chunked: false,
        }),
    decreases n,
{
    if n == 1 {
        assert(headers.subrange(0, 0) =~= Seq::empty());
    } else {
        lemma_reply_head(lines, headers, n - 1);
        let h = headers[n - 2];
        let s = line_of(h);
        let k = h.0.len() as int;
        assert(is_plain(h));
        assert(lines[n - 1] == s);
        assert(s[k] == ':');
        assert forall|i: int| 0 <= i < k implies s[i] != ':' by {
            assert(s[i] == h.0[i]);
        }
        lemma_colon(s, k, 0);
        assert(s.subrange(0, k) =~= h.0);
        assert(s.subrange(k + 1, s.len() as int) =~= seq![' '] + h.1);
        lemma_solid_is_trimmed(h.0);
        lemma_value_is_trimmed(h.1);
        assert(headers.subrange(0, n - 2).push(h) =~= headers.subrange(0, n - 1));
    }
}

/// A response that declares its length has a body of that length: what is behind
/// it is left out, and a body that is cut short is what there is.
pub proof fn law_response_length_is_honoured(
    status: nat,
    headers: Headers,
    n: nat,
    rest: Seq<u8>,
)
    requires
        status <= 65535,
        n <= usize::MAX,
        forall|i: int| 0 <= i < headers.len() ==> is_plain(#[trigger] headers[i]),
    ensures
        ({
            let all = headers.push(("Content-Length"@, decimal(n)));
            response_behind(joined(response_lines(status, all), 0), rest) == Ok::<
                ResponseView,
                Seq<char>,
            >(
                ResponseView {
                    status: status as u16,
                    headers: all,
                    body: if n < rest.len() {
                        rest.subrange(0, n as int)
                    } else {
                        rest
                    },
                },
            )
        }),
{
    let h = ("Content-Length"@, decimal(n));
    let all = headers.push(h);
    let lines = response_lines(status, all);
    let short = response_lines(status, headers);
    let text = joined(lines, 0);
    let count = lines.len() as int;
    assert(is_white('\r'));
    assert(is_white(' '));
    lemma_decimal(status);
    law_decimal_reads_back(status, 65535);
    lemma_decimal_is_neat(n);
    law_decimal_reads_back(n, usize::MAX as nat);
    lemma_length_name();
    reveal_strlit("HTTP/1.1");
    assert("HTTP/1.1"@.len() == 8);
    let code = decimal(status);
    assert(solid("HTTP/1.1"@));
    assert(solid(code)) by {
        assert forall|i: int| 0 <= i < code.len() implies !is_white(#[trigger] code[i]) by {
            assert('0' <= code[i] <= '9');
        }
    }
    assert forall|l: int, i: int|
        0 <= l < lines.len() && 0 <= i < lines[l].len() implies #[trigger] lines[l][i] != '\r' by {
        if l == 0 {
            lemma_no_return("HTTP/1.1"@, code, i);
        } else {
            let g = all[l - 1];
            assert(l - 1 < headers.len() ==> is_plain(headers[l - 1]));
            let k = g.0.len() as int;
            if i < k {
                assert(lines[l][i] == g.0[i]);
                assert(!is_white(g.0[i]));
            } else if i >= k + 2 {
                assert(lines[l][i] == g.1[i - k - 2]);
            }
        }
    }
    assert(text.subrange(0, text.len() as int) =~= text);
    lemma_lines(text, 0, lines, 0);
    assert(lines.subrange(0, lines.len() as int) =~= lines);
    lemma_request_words("HTTP/1.1"@, code);
    lemma_reply_head(short, headers, short.len() as int);
    lemma_reply_same(short, lines, short.len() as int);
    assert(headers.subrange(0, headers.len() as int) =~= headers);
    let s = line_of(h);
    let k = h.0.len() as int;
    assert(lines[count - 1] == s);
    assert(s[k] == ':');
    assert forall|i: int| 0 <= i < k implies s[i] != ':' by {
        assert(s[i] == h.0[i]);
    }
    lemma_colon(s, k, 0);
    assert(s.subrange(0, k) =~= h.0);
    assert(s.subrange(k + 1, s.len() as int) =~= seq![' '] + h.1);
    lemma_solid_is_trimmed(h.0);
    lemma_value_is_trimmed(h.1);
    assert(reply_head(lines, count) == (ReplyHead {
        headers: all,
        length: Some(n),
        chunked: false,
    }));
}

proof fn lemma_reply_same(a: Seq<Seq<char>>, b: Seq<Seq<char>>, n: int)
    requires
        n <= a.len(),
        a.len() <= b.len(),
        forall|i: int| 0 <= i < a.len() ==> #[trigger] a[i] == b[i],
    ensures
        reply_head(a, n) == reply_head(b, n),
    decreases n,
{
    if n > 1 {
        lemma_reply_same(a, b, n - 1);
        assert(a[n - 1] == b[n - 1]);
    }
}

/// A response in chunks is put together again, one part behind another.
pub proof fn law_chunked_response_is_joined(
    data: Seq<u8>,
    pos: int,
    parts: Seq<Seq<u8>>,
    so_far: Seq<u8>,
)
    requires
        0 <= pos,
        data.len() <= usize::MAX,
        pos + in_chunks(parts).len() == data.len(),
        data.subrange(pos, data.len() as int) == in_chunks(parts),
        forall|i: int| 0 <= i < parts.len() ==> (#[trigger] parts[i]).len() > 0,
    ensures
        dechunked(data, pos, so_far) == Ok::<Seq<u8>, Seq<char>>(
            so_far + crate::http::joined(parts),
        ),
    decreases parts.len(),
{
    let wire = in_chunks(parts);
    assert forall|i: int| 0 <= i < wire.len() implies #[trigger] data[pos + i] == wire[i] by {
        assert(data.subrange(pos, data.len() as int)[i] == wire[i]);
    }
    if parts.len() == 0 {
        assert(data[pos + 0] == 48);
        assert(data[pos + 1] == 13);
        assert(data[pos + 2] == 10);
        lemma_no_crlf(data, pos, pos + 1);
        lemma_chunk_line(0);
        assert(data.subrange(pos, pos + 1) =~= hex_text(0));
        assert(so_far + crate::http::joined(parts) =~= so_far);
    } else {
        let size = parts[0].len();
        let hex = hex_text(size);
        let h = hex.len() as int;
        let rest = in_chunks(parts.drop_first());
        lemma_hex_text(size);
        lemma_chunk_line(size);
        assert(wire.len() == h + 2 + size + 2 + rest.len());
        assert forall|i: int| pos <= i < pos + h implies data[i] != 13 by {
            assert(data[pos + (i - pos)] == wire[i - pos]);
            assert(wire[i - pos] == hex[i - pos]);
        }
        assert(data[pos + h] == wire[h] && wire[h] == 13);
        assert(data[pos + (h + 1)] == wire[h + 1] && wire[h + 1] == 10);
        lemma_no_crlf(data, pos, pos + h);
        assert(data.subrange(pos, pos + h) =~= hex) by {
            assert forall|i: int| 0 <= i < h implies data[pos + i] == hex[i] by {
                assert(wire[i] == hex[i]);
            }
        }
        let next = pos + h + 2;
        assert(data.subrange(next, next + size as int) =~= parts[0]) by {
            assert forall|i: int| 0 <= i < size implies data[next + i] == parts[0][i] by {
                assert(data[pos + (h + 2 + i)] == wire[h + 2 + i]);
            }
        }
        let after = next + size + 2;
        assert(data.subrange(after, data.len() as int) =~= rest) by {
            assert forall|i: int| 0 <= i < rest.len() implies data[after + i] == rest[i] by {
                assert(data[pos + (h + 4 + size + i)] == wire[h + 4 + size + i]);
            }
        }
        assert forall|i: int| 0 <= i < parts.drop_first().len() implies (#[trigger]
        parts.drop_first()[i]).len() > 0 by {
            assert(parts[i + 1].len() > 0);
        }
        law_chunked_response_is_joined(data, after, parts.drop_first(), so_far + parts[0]);
        assert(so_far + parts[0] + crate::http::joined(parts.drop_first()) =~= so_far
            + crate::http::joined(parts));
    }
}

proof fn lemma_chunk_line(n: nat)
    requires
        n <= usize::MAX,
    ensures
        number(trimmed(before_extension(text_of(hex_text(n)))), 16, usize::MAX as nat) == Some(n),
{
    let s = hex_text(n);
    let chars = as_chars(s);
    lemma_hex_text(n);
    assert(vstd::utf8::is_ascii_chars(chars)) by {
        assert forall|i: int| 0 <= i < chars.len() implies 0 <= #[trigger] chars[i] as nat && (
        chars[i] as nat) < 128 by {
            assert(48 <= s[i] <= 57 || 97 <= s[i] <= 102);
        }
    }
    vstd::utf8::is_ascii_chars_encode_utf8(chars);
    assert(encode_utf8(chars) =~= s);
    lemma_text_round_trip(chars);
    assert forall|i: int| 0 <= i < chars.len() implies chars[i] != ';' by {
        assert(48 <= s[i] <= 57 || 97 <= s[i] <= 102);
    }
    lemma_not_there(chars, ';', 0);
    assert(48 <= s[0] <= 57 || 97 <= s[0] <= 102);
    assert(48 <= s[s.len() - 1] <= 57 || 97 <= s[s.len() - 1] <= 102);
    lemma_no_white(chars);
}

/// The host that a request names is read, and goes on as a header; a path alone
/// then stands for the URL of that host.
pub proof fn law_origin_form_names_its_host(head: HeadView, host: Seq<char>, path: Seq<char>)
    requires
        neat(host),
        host.len() > 0,
        path.len() > 0,
        path[0] == '/',
    ensures
        head_line(head, line_of(("Host"@, host))) == Ok::<HeadView, ParseError>(
            HeadView { headers: head.headers.push(("Host"@, host)), host, ..head },
        ),
        absolute(path, host) == Some("http://"@ + host + path),
{
    let h = ("Host"@, host);
    let s = line_of(h);
    reveal_strlit("Host");
    reveal_strlit("host");
    reveal_strlit("http://");
    reveal_strlit("https://");
    assert("Host"@.len() == 4 && "host"@.len() == 4);
    assert(lowered("Host"@) =~= "host"@);
    assert(solid("Host"@));
    lemma_host_is_forwarded();
    let k = 4int;
    assert(s[k] == ':');
    assert forall|i: int| 0 <= i < k implies s[i] != ':' by {
        assert(s[i] == h.0[i]);
    }
    lemma_colon(s, k, 0);
    assert(s.subrange(0, k) =~= h.0);
    assert(s.subrange(k + 1, s.len() as int) =~= seq![' '] + h.1);
    lemma_solid_is_trimmed(h.0);
    lemma_value_is_trimmed(h.1);
    assert("http://"@[0] == 'h' && "https://"@[0] == 'h');
    assert(path.subrange(0, path.len() as int)[0] == '/');
    if has_prefix(path, "http://"@) {
        assert(path.subrange(0, 7)[0] == '/');
    }
    if has_prefix(path, "https://"@) {
        assert(path.subrange(0, 8)[0] == '/');
    }
}

proof fn lemma_host_is_forwarded()
    ensures
        !hop_by_hop("host"@),
        "host"@ != "content-length"@,
{
    reveal_strlit("host");
    reveal_strlit("content-length");
    reveal_strlit("connection");
    reveal_strlit("proxy-connection");
    reveal_strlit("keep-alive");
    reveal_strlit("proxy-authenticate");
    reveal_strlit("proxy-authorization");
    reveal_strlit("te");
    reveal_strlit("trailer");
    reveal_strlit("transfer-encoding");
    reveal_strlit("upgrade");
    reveal_strlit("accept-encoding");
    assert("host"@.len() == 4 && "te"@.len() == 2 && "trailer"@.len() == 7 && "upgrade"@.len() == 7);
    assert("connection"@.len() == 10 && "proxy-connection"@.len() == 16 && "keep-alive"@.len()
        == 10 && "proxy-authenticate"@.len() == 18 && "proxy-authorization"@.len() == 19
        && "transfer-encoding"@.len() == 17 && "accept-encoding"@.len() == 15
        && "content-length"@.len() == 14);
}

} // verus!
