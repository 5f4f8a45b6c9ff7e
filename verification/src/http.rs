//! The HTTP front end: reading a request, choosing what it asks for, and the answers.

use base64::Engine;
use sha1::Digest;
use vstd::prelude::*;
use vstd::slice::slice_subrange;
use vstd::string::*;
use vstd::utf8::{decode_utf8, encode_utf8, valid_utf8};

use crate::crypto::NodeKey;
use crate::metrics::prometheus_text;
use crate::relay::Relay;
use crate::text::{
    chars_of, decimal, hex_text, lower_text, push_decimal, same_text, text_of, to_lower, trim,
    trimmed,
};
use crate::wire::{same_bytes, to_vec};

verus! {

/// The most bytes of a request's head that are read: 32 KiB.
pub const MAX_HTTP_HEADER: usize = 32768;

/// The most header lines of a request.
pub const MAX_HEADERS: usize = 64;

/// The bytes that end a request's head.
pub const HEAD_END: [u8; 4] = [0x0d, 0x0a, 0x0d, 0x0a];

/// Whether a head ends at `end`, and no sooner.
pub open spec fn head_ends(data: Seq<u8>, end: int) -> bool {
    &&& 4 <= end <= data.len()
    &&& data.subrange(end - 4, end) == HEAD_END@
    &&& forall|e: int| 4 <= e < end ==> #[trigger] data.subrange(e - 4, e) != HEAD_END@
}

/// Whether data holds no end of a head.
pub open spec fn head_open(data: Seq<u8>) -> bool {
    forall|e: int| 4 <= e <= data.len() ==> #[trigger] data.subrange(e - 4, e) != HEAD_END@
}

/// How far the reading of a request's head has come.
#[derive(Clone, Copy, Debug, PartialEq, Eq, Structural)]
pub enum Progress {
    /// The head ends here; what follows belongs to the connection.
    Complete(usize),
    /// There is more of it than is read.
    TooLarge,
    /// More is to be read.
    More,
}

/// Where the head ends in what was read, if it does.
fn find_head_end(data: &[u8]) -> (r: Option<usize>)
    ensures
        match r {
            Some(end) => head_ends(data@, end as int),
            None => head_open(data@),
        },
{
    let mut end: usize = 4;
    while end <= data.len()
        invariant
            4 <= end,
            end <= data.len() + 4,
            forall|e: int| 4 <= e < end && e <= data.len() ==> #[trigger] data@.subrange(e - 4, e)
                != HEAD_END@,
            data.len() <= usize::MAX - 4 || end <= data.len(),
        decreases data.len() + 5 - end,
    {
        if same_bytes(slice_subrange(data, end - 4, end), HEAD_END.as_slice()) {
            return Some(end);
        }
        if end == data.len() {
            return None;
        }
        end += 1;
    }
    None
}

/// How far the reading of a request's head has come, after what was read so far.
pub fn progress(data: &[u8]) -> (r: Progress)
    ensures
        match r {
            Progress::Complete(end) => head_ends(data@, end as int),
            Progress::TooLarge => head_open(data@) && data@.len() >= MAX_HTTP_HEADER,
            Progress::More => head_open(data@) && data@.len() < MAX_HTTP_HEADER,
        },
{
    match find_head_end(data) {
        Some(end) => Progress::Complete(end),
        None => if data.len() >= MAX_HTTP_HEADER {
            Progress::TooLarge
        } else {
            Progress::More
        },
    }
}

/// A header line.
#[derive(Debug)]
pub struct Header {
    pub name: String,
    pub value: String,
}

impl View for Header {
    type V = (Seq<char>, Seq<char>);

    open spec fn view(&self) -> (Seq<char>, Seq<char>) {
        (self.name@, self.value@)
    }
}

/// The header lines as pairs of texts.
pub open spec fn header_views(headers: Seq<Header>) -> Seq<(Seq<char>, Seq<char>)> {
    headers.map_values(|h: Header| h@)
}

/// A header line as it was sent.
pub struct RawHeader {
    pub name: String,
    pub value: Vec<u8>,
}

/// The header lines as they were sent, as pairs of name and bytes.
pub open spec fn raw_views(headers: Seq<RawHeader>) -> Seq<(Seq<char>, Seq<u8>)> {
    headers.map_values(|h: RawHeader| (h.name@, h.value@))
}

/// What an HTTP parser makes of a request's head.
pub enum Head {
    Malformed,
    Incomplete,
    Complete { method: Option<String>, path: Option<String>, headers: Vec<RawHeader> },
}

/// The model of what an HTTP parser makes of a request's head.
pub enum HeadView {
    Malformed,
    Incomplete,
    Complete {
        method: Option<Seq<char>>,
        path: Option<Seq<char>>,
        headers: Seq<(Seq<char>, Seq<u8>)>,
    },
}

/// The model of an optional text.
pub open spec fn text_view(text: Option<String>) -> Option<Seq<char>> {
    match text {
        Some(t) => Some(t@),
        None => None,
    }
}

impl View for Head {
    type V = HeadView;

    open spec fn view(&self) -> HeadView {
        match self {
            Head::Malformed => HeadView::Malformed,
            Head::Incomplete => HeadView::Incomplete,
            Head::Complete { method, path, headers } => HeadView::Complete {
                method: text_view(*method),
                path: text_view(*path),
                headers: raw_views(headers@),
            },
        }
    }
}

/// What `httparse` makes of a request's head, with room for so many header lines.
pub uninterp spec fn http_head(data: Seq<u8>, max_headers: nat) -> HeadView;

/// `httparse::Request::parse`: method, path and header lines of a request are a function of its
/// bytes and of how many header lines there is room for.
#[verifier::external_body]
fn parse_head(data: &[u8], max_headers: usize) -> (r: Head)
    ensures
        r@ == http_head(data@, max_headers as nat),
{
    let mut lines = vec![httparse::EMPTY_HEADER; max_headers];
    let mut head = httparse::Request::new(&mut lines);
    match head.parse(data) {
        Ok(httparse::Status::Complete(_)) => Head::Complete {
            method: head.method.map(|m| m.to_string()),
            path: head.path.map(|p| p.to_string()),
            headers: head.headers.iter().map(
                |h| RawHeader { name: h.name.to_string(), value: h.value.to_vec() },
            ).collect(),
        },
        Ok(httparse::Status::Partial) => Head::Incomplete,
        Err(_) => Head::Malformed,
    }
}

/// The text that bytes spell in UTF-8, with a sign in place of what is not UTF-8.
pub uninterp spec fn lossy_text(data: Seq<u8>) -> Seq<char>;

/// `String::from_utf8_lossy`: the text is a function of the bytes. Bytes that are UTF-8 are read
/// as such; where they are not, only this is claimed.
#[verifier::external_body]
pub(crate) fn lossy(data: &[u8]) -> (r: String)
    ensures
        r@ == lossy_text(data@),
        valid_utf8(data@) ==> r@ == decode_utf8(data@),
{
    String::from_utf8_lossy(data).into_owned()
}

/// A request: its header names are in lower case, its values trimmed.
#[derive(Debug)]
pub struct Request {
    pub method: String,
    pub path: String,
    pub headers: Vec<Header>,
}

/// The model of a request.
#[verifier::ext_equal]
pub struct RequestView {
    pub method: Seq<char>,
    pub path: Seq<char>,
    pub headers: Seq<(Seq<char>, Seq<char>)>,
}

impl View for Request {
    type V = RequestView;

    open spec fn view(&self) -> RequestView {
        RequestView {
            method: self.method@,
            path: self.path@,
            headers: header_views(self.headers@),
        }
    }
}

/// Why a request's head is no request.
#[derive(Clone, Copy, Debug, PartialEq, Eq, Structural)]
pub enum RequestError {
    Malformed,
    Incomplete,
    MissingMethod,
    MissingPath,
}

/// A header line as it is kept: its name in lower case, its value as trimmed text.
pub open spec fn kept_header(raw: (Seq<char>, Seq<u8>)) -> (Seq<char>, Seq<char>) {
    (lower_text(raw.0), trimmed(lossy_text(raw.1)))
}

/// The request that a parsed head is, or what it lacks.
pub open spec fn request_of(head: HeadView) -> Result<RequestView, RequestError> {
    match head {
        HeadView::Malformed => Err(RequestError::Malformed),
        HeadView::Incomplete => Err(RequestError::Incomplete),
        HeadView::Complete { method, path, headers } => match (method, path) {
            (None, _) => Err(RequestError::MissingMethod),
            (Some(_), None) => Err(RequestError::MissingPath),
            (Some(method), Some(path)) => Ok(
                RequestView {
                    method,
                    path,
                    headers: headers.map_values(|h: (Seq<char>, Seq<u8>)| kept_header(h)),
                },
            ),
        },
    }
}

/// Reads a request from its head.
pub fn parse_request(data: &[u8]) -> (r: Result<Request, RequestError>)
    ensures
        match r {
            Ok(q) => request_of(http_head(data@, MAX_HEADERS as nat)) == Ok::<
                RequestView,
                RequestError,
            >(q@),
            Err(e) => request_of(http_head(data@, MAX_HEADERS as nat)) == Err::<
                RequestView,
                RequestError,
            >(e),
        },
{
    request_from(parse_head(data, MAX_HEADERS))
}

/// The request that a parsed head is, or what it lacks.
pub fn request_from(head: Head) -> (r: Result<Request, RequestError>)
    ensures
        match r {
            Ok(q) => request_of(head@) == Ok::<RequestView, RequestError>(q@),
            Err(e) => request_of(head@) == Err::<RequestView, RequestError>(e),
        },
{
    match head {
        Head::Malformed => Err(RequestError::Malformed),
        Head::Incomplete => Err(RequestError::Incomplete),
        Head::Complete { method, path, headers: raw } => {
            let method = match method {
                Some(method) => method,
                None => {
                    return Err(RequestError::MissingMethod);
                },
            };
            let path = match path {
                Some(path) => path,
                None => {
                    return Err(RequestError::MissingPath);
                },
            };
            let mut headers: Vec<Header> = Vec::new();
            let mut i: usize = 0;
            while i < raw.len()
                invariant
                    i <= raw.len(),
                    header_views(headers@) =~= raw_views(raw@).take(i as int).map_values(
                        |h: (Seq<char>, Seq<u8>)| kept_header(h),
                    ),
                decreases raw.len() - i,
            {
                let name = to_lower(raw[i].name.as_str());
                let text = lossy(raw[i].value.as_slice());
                let value = trim(text.as_str()).to_owned();
                let ghost before = header_views(headers@);
                headers.push(Header { name, value });
                proof {
                    let views = raw_views(raw@);
                    assert(views[i as int] == (raw@[i as int].name@, raw@[i as int].value@));
                    assert((name@, value@) == kept_header(views[i as int]));
                    assert(header_views(headers@) =~= before.push((name@, value@)));
                    assert(views.take(i + 1) =~= views.take(i as int).push(views[i as int]));
                }
                i += 1;
            }
            proof {
                assert(raw_views(raw@).take(i as int) =~= raw_views(raw@));
            }
            Ok(Request { method, path, headers })
        },
    }
}

/// The value of a header; the last one counts where it is given more than once.
pub open spec fn header_value(
    headers: Seq<(Seq<char>, Seq<char>)>,
    name: Seq<char>,
) -> Option<Seq<char>>
    decreases headers.len(),
{
    if headers.len() == 0 {
        None
    } else if headers.last().0 == name {
        Some(headers.last().1)
    } else {
        header_value(headers.drop_last(), name)
    }
}

impl Request {
    /// The value of a header; the last one counts where it is given more than once.
    pub fn header(&self, name: &str) -> (r: Option<&str>)
        ensures
            match r {
                Some(v) => header_value(self@.headers, name@) == Some(v@),
                None => header_value(self@.headers, name@) is None,
            },
    {
        let mut n = self.headers.len();
        let ghost all = self@.headers;
        proof {
            assert(all.take(n as int) =~= all);
        }
        while n > 0
            invariant
                n <= self.headers.len(),
                all == self@.headers,
                header_value(all, name@) == header_value(all.take(n as int), name@),
            decreases n,
        {
            let h = &self.headers[n - 1];
            proof {
                assert(all.take(n as int).last() == h@);
                assert(all.take(n as int).drop_last() =~= all.take(n - 1));
            }
            if same_text(h.name.as_str(), name) {
                return Some(h.value.as_str());
            }
            n -= 1;
        }
        None
    }
}

/// Whether one of the parts of a text between commas is `word`, white space around it left out.
pub open spec fn lists_word(text: Seq<char>, word: Seq<char>) -> bool {
    exists|from: int, to: int|
        {
            &&& #[trigger] is_part(text, from, to)
            &&& trimmed(text.subrange(from, to)) == word
        }
}

/// Whether a part of a text between commas starts and ends here.
pub open spec fn is_part(text: Seq<char>, from: int, to: int) -> bool {
    &&& 0 <= from <= to <= text.len()
    &&& from == 0 || text[from - 1] == ','
    &&& to == text.len() || text[to] == ','
    &&& forall|i: int| from <= i < to ==> text[i] != ','
}

/// Whether one of the parts of a text between commas is `word`, white space around it left out.
fn has_word(text: &str, word: &str) -> (r: bool)
    ensures
        r == lists_word(text@, word@),
{
    let chars = chars_of(text);
    let mut from: usize = 0;
    let mut i: usize = 0;
    while i < chars.len()
        invariant
            chars@ == text@,
            from <= i <= chars.len(),
            from == 0 || text@[from - 1] == ',',
            forall|k: int| from <= k < i ==> text@[k] != ',',
            forall|a: int, b: int|
                b < i && #[trigger] is_part(text@, a, b) && text@[b] == ',' ==> trimmed(
                    text@.subrange(a, b),
                ) != word@,
        decreases chars.len() - i,
    {
        if chars[i] == ',' {
            let part = text_of(slice_subrange(chars.as_slice(), from, i));
            if same_text(trim(part.as_str()), word) {
                proof {
                    assert(is_part(text@, from as int, i as int));
                    assert(part@ == text@.subrange(from as int, i as int));
                }
                return true;
            }
            proof {
                assert forall|a: int, b: int|
                    b < i + 1 && #[trigger] is_part(text@, a, b) && text@[b]
                        == ',' implies trimmed(text@.subrange(a, b)) != word@ by {
                    if b == i {
                        if a < from {
                            assert(text@[from - 1] == ',');
                        } else if a > from {
                            assert(text@[a - 1] != ',');
                        }
                    }
                }
            }
            from = i + 1;
        }
        i += 1;
    }
    let part = text_of(slice_subrange(chars.as_slice(), from, i));
    let r = same_text(trim(part.as_str()), word);
    proof {
        assert(is_part(text@, from as int, i as int));
        if !r {
            assert forall|a: int, b: int| #[trigger] is_part(text@, a, b) implies trimmed(
                text@.subrange(a, b),
            ) != word@ by {
                if b == text@.len() {
                    if a < from {
                        assert(text@[from - 1] == ',');
                    } else if a > from {
                        assert(text@[a - 1] != ',');
                    }
                }
            }
        }
    }
    r
}

/// The text before the first question mark.
pub open spec fn before_query(path: Seq<char>) -> Seq<char>
    decreases path.len(),
{
    if path.len() == 0 || path[0] == '?' {
        Seq::empty()
    } else {
        seq![path[0]] + before_query(path.drop_first())
    }
}

/// The text before the first question mark.
fn cut_query(path: &str) -> (r: String)
    ensures
        r@ == before_query(path@),
{
    let chars = chars_of(path);
    let mut i: usize = 0;
    proof {
        assert(path@.take(0) + before_query(path@.skip(0)) =~= before_query(path@)) by {
            assert(path@.skip(0) =~= path@);
        }
    }
    while i < chars.len() && chars[i] != '?'
        invariant
            chars@ == path@,
            i <= chars.len(),
            path@.take(i as int) + before_query(path@.skip(i as int)) == before_query(path@),
        decreases chars.len() - i,
    {
        proof {
            let rest = path@.skip(i as int);
            assert(rest[0] == path@[i as int]);
            assert(rest.drop_first() =~= path@.skip(i + 1));
            assert(path@.take(i as int) + (seq![rest[0]] + before_query(path@.skip(i + 1)))
                =~= path@.take(i + 1) + before_query(path@.skip(i + 1)));
        }
        i += 1;
    }
    proof {
        assert(before_query(path@.skip(i as int)) =~= Seq::empty());
        assert(path@.take(i as int) + Seq::empty() =~= path@.take(i as int));
        assert(path@.take(i as int) =~= chars@.subrange(0, i as int));
    }
    text_of(slice_subrange(chars.as_slice(), 0, i))
}

/// What a request asks for.
#[derive(Clone, Copy, Debug, PartialEq, Eq, Structural)]
pub enum Page {
    /// DERP over WebSocket.
    WebSocket,
    /// DERP without an upgrade.
    UpgradeRequired,
    /// DERP; with a fast start the client expects no HTTP answer.
    Derp { fast: bool },
    Probe,
    BogusProbe,
    Generate204,
    BootstrapDns,
    Metrics,
    Check,
    Robots,
    Home,
    NotFound,
}

/// What a request's upgrade header asks for, in lower case; nothing where there is none.
pub open spec fn upgrade_of(q: RequestView) -> Seq<char> {
    match header_value(q.headers, "upgrade"@) {
        Some(v) => lower_text(v),
        None => Seq::empty(),
    }
}

/// Whether a request asks for the WebSocket protocol `derp`.
pub open spec fn asks_for_websocket(q: RequestView) -> bool {
    &&& upgrade_of(q) == "websocket"@
    &&& header_value(q.headers, "sec-websocket-protocol"@) matches Some(v)
    &&& lists_word(v, "derp"@)
}

/// What a request asks for.
pub open spec fn page_of(q: RequestView) -> Page {
    let path = before_query(q.path);
    if q.path == "/derp"@ {
        if asks_for_websocket(q) {
            Page::WebSocket
        } else if upgrade_of(q) != "derp"@ && upgrade_of(q) != "websocket"@ {
            Page::UpgradeRequired
        } else {
            Page::Derp { fast: header_value(q.headers, "derp-fast-start"@) == Some("1"@) }
        }
    } else if path == "/derp/probe"@ || path == "/derp/latency-check"@ {
        if q.method == "GET"@ || q.method == "HEAD"@ {
            Page::Probe
        } else {
            Page::BogusProbe
        }
    } else if path == "/generate_204"@ {
        Page::Generate204
    } else if path == "/bootstrap-dns"@ {
        Page::BootstrapDns
    } else if path == "/metrics"@ || path == "/debug/vars"@ {
        Page::Metrics
    } else if path == "/debug/check"@ {
        Page::Check
    } else if path == "/robots.txt"@ {
        Page::Robots
    } else if path == "/"@ {
        Page::Home
    } else {
        Page::NotFound
    }
}

impl Request {
    /// What the request asks for.
    pub fn page(&self) -> (r: Page)
        ensures
            r == page_of(self@),
    {
        if same_text(self.path.as_str(), "/derp") {
            let upgrade = match self.header("upgrade") {
                Some(v) => to_lower(v),
                None => String::new(),
            };
            proof {
                assert(upgrade@ =~= upgrade_of(self@));
            }
            let is_websocket = same_text(upgrade.as_str(), "websocket");
            if is_websocket {
                if let Some(v) = self.header("sec-websocket-protocol") {
                    if has_word(v, "derp") {
                        return Page::WebSocket;
                    }
                }
            }
            if !is_websocket && !same_text(upgrade.as_str(), "derp") {
                return Page::UpgradeRequired;
            }
            let fast = match self.header("derp-fast-start") {
                Some(v) => same_text(v, "1"),
                None => false,
            };
            return Page::Derp { fast };
        }
        let base = cut_query(self.path.as_str());
        let path = base.as_str();
        if same_text(path, "/derp/probe") || same_text(path, "/derp/latency-check") {
            if same_text(self.method.as_str(), "GET") || same_text(self.method.as_str(), "HEAD") {
                Page::Probe
            } else {
                Page::BogusProbe
            }
        } else if same_text(path, "/generate_204") {
            Page::Generate204
        } else if same_text(path, "/bootstrap-dns") {
            Page::BootstrapDns
        } else if same_text(path, "/metrics") || same_text(path, "/debug/vars") {
            Page::Metrics
        } else if same_text(path, "/debug/check") {
            Page::Check
        } else if same_text(path, "/robots.txt") {
            Page::Robots
        } else if same_text(path, "/") {
            Page::Home
        } else {
            Page::NotFound
        }
    }

    /// Whether the client says that this is not the node that it would like to use.
    pub fn not_ideal(&self) -> (r: bool)
        ensures
            r == header_value(self@.headers, "ideal-node"@) is Some,
    {
        match self.header("ideal-node") {
            Some(_) => true,
            None => false,
        }
    }
}

/// The header lines of an answer.
pub open spec fn header_lines(headers: Seq<(Seq<char>, Seq<char>)>) -> Seq<char>
    decreases headers.len(),
{
    if headers.len() == 0 {
        Seq::empty()
    } else {
        header_lines(headers.drop_last()) + headers.last().0 + ": "@ + headers.last().1 + "\r\n"@
    }
}

/// An answer's head.
pub open spec fn response_head(
    status: u16,
    reason: Seq<char>,
    headers: Seq<(Seq<char>, Seq<char>)>,
    body_len: nat,
) -> Seq<char> {
    "HTTP/1.1 "@ + decimal(status as nat) + " "@ + reason + "\r\nContent-Length: "@ + decimal(
        body_len,
    ) + "\r\nConnection: close\r\n"@ + header_lines(headers) + "\r\n"@
}

/// An answer: its head and its body.
pub open spec fn response(
    status: u16,
    reason: Seq<char>,
    headers: Seq<(Seq<char>, Seq<char>)>,
    body: Seq<u8>,
) -> Seq<u8> {
    encode_utf8(response_head(status, reason, headers, body.len())) + body
}

/// Makes an answer.
pub fn write_response(status: u16, reason: &str, headers: &[Header], body: &[u8]) -> (r: Vec<u8>)
    ensures
        r@ == response(status, reason@, header_views(headers@), body@),
{
    let mut head = String::from_str("HTTP/1.1 ");
    push_decimal(&mut head, status as u64);
    head.append(" ");
    head.append(reason);
    head.append("\r\nContent-Length: ");
    push_decimal(&mut head, body.len() as u64);
    head.append("\r\nConnection: close\r\n");
    let ghost start = head@;
    let ghost views = header_views(headers@);
    let mut i: usize = 0;
    proof {
        assert(views.take(0) =~= Seq::empty());
        assert(start + header_lines(views.take(0)) =~= start);
    }
    while i < headers.len()
        invariant
            i <= headers.len(),
            views == header_views(headers@),
            head@ == start + header_lines(views.take(i as int)),
        decreases headers.len() - i,
    {
        head.append(headers[i].name.as_str());
        head.append(": ");
        head.append(headers[i].value.as_str());
        head.append("\r\n");
        proof {
            let next = views.take(i + 1);
            assert(next.drop_last() =~= views.take(i as int));
            assert(next.last() == headers@[i as int]@);
            assert(head@ =~= start + header_lines(next));
        }
        i += 1;
    }
    head.append("\r\n");
    proof {
        assert(views.take(i as int) =~= views);
        assert(head@ =~= response_head(status, reason@, views, body@.len()));
    }
    let mut out: Vec<u8> = Vec::new();
    out.extend_from_slice(head.as_str().as_bytes());
    out.extend_from_slice(body);
    proof {
        assert(out@ =~= response(status, reason@, views, body@));
    }
    out
}

/// Whether a character may stand in a challenge: ASCII letters, digits, `.`, `-`, `_` and `:`.
pub open spec fn challenge_char(c: char) -> bool {
    ||| 'a' <= c <= 'z'
    ||| 'A' <= c <= 'Z'
    ||| '0' <= c <= '9'
    ||| c == '.'
    ||| c == '-'
    ||| c == '_'
    ||| c == ':'
}

/// Whether a character may stand in a challenge.
fn valid_challenge(c: char) -> (r: bool)
    ensures
        r == challenge_char(c),
{
    ('a' <= c && c <= 'z') || ('A' <= c && c <= 'Z') || ('0' <= c && c <= '9') || c == '.' || c
        == '-' || c == '_' || c == ':'
}

/// Whether a challenge is answered: it has 64 characters at most, all of which may stand in one.
pub open spec fn is_challenge(text: Seq<char>) -> bool {
    text.len() <= 64 && forall|i: int| 0 <= i < text.len() ==> challenge_char(#[trigger] text[i])
}

/// Whether a challenge is answered.
fn answers_challenge(text: &str) -> (r: bool)
    ensures
        r == is_challenge(text@),
{
    let chars = chars_of(text);
    if chars.len() > 64 {
        return false;
    }
    let mut i: usize = 0;
    while i < chars.len()
        invariant
            i <= chars.len(),
            chars@ == text@,
            forall|j: int| 0 <= j < i ==> challenge_char(#[trigger] text@[j]),
        decreases chars.len() - i,
    {
        if !valid_challenge(chars[i]) {
            return false;
        }
        i += 1;
    }
    true
}

/// The header lines that forbid to keep an answer, and answer the challenge, if there is one.
pub open spec fn generate_204_headers(q: RequestView) -> Seq<(Seq<char>, Seq<char>)> {
    let uncached = seq![
        (
            "Cache-Control"@,
            "no-cache, no-store, must-revalidate, no-transform, max-age=0"@,
        ),
    ];
    match header_value(q.headers, "x-tailscale-challenge"@) {
        Some(c) => if is_challenge(c) {
            uncached.push(("X-Tailscale-Response"@, "response "@ + c))
        } else {
            uncached
        },
        None => uncached,
    }
}

/// The bytes of a text.
pub open spec fn body_of(text: Seq<char>) -> Seq<u8> {
    encode_utf8(text)
}

/// The text of a consistency check.
pub open spec fn check_text(sessions: nat, peers: nat) -> Seq<char> {
    "derp-rs consistency check okay; "@ + decimal(sessions) + " sessions, "@ + decimal(peers)
        + " peers\n"@
}

/// One header line that names the type of a body.
pub open spec fn typed(content_type: Seq<char>) -> Seq<(Seq<char>, Seq<char>)> {
    seq![("Content-Type"@, content_type)]
}

/// The answer to a request for a page, if it is answered by HTTP and nothing else. `sessions` and
/// `peers` are how many there are, `counters` the metrics text, `dns` what is known for bootstrap.
pub open spec fn page_response(
    q: RequestView,
    sessions: nat,
    peers: nat,
    counters: Seq<char>,
    dns: Option<Seq<u8>>,
) -> Option<Seq<u8>> {
    match page_of(q) {
        Page::WebSocket => None,
        Page::Derp { .. } => None,
        Page::UpgradeRequired => Some(
            response(
                426,
                "Upgrade Required"@,
                typed("text/plain"@),
                body_of("DERP requires connection upgrade\n"@),
            ),
        ),
        Page::Probe => Some(
            response(200, "OK"@, seq![("Access-Control-Allow-Origin"@, "*"@)], Seq::empty()),
        ),
        Page::BogusProbe => Some(
            response(
                405,
                "Method Not Allowed"@,
                Seq::empty(),
                body_of("bogus probe method\n"@),
            ),
        ),
        Page::Generate204 => Some(
            response(204, "No Content"@, generate_204_headers(q), Seq::empty()),
        ),
        Page::BootstrapDns => Some(
            response(
                200,
                "OK"@,
                typed("application/json"@).push(("Access-Control-Allow-Origin"@, "*"@)),
                match dns {
                    Some(body) => body,
                    None => body_of("{}\n"@),
                },
            ),
        ),
        Page::Metrics => Some(
            response(200, "OK"@, typed("text/plain; version=0.0.4"@), body_of(counters)),
        ),
        Page::Check => Some(
            response(200, "OK"@, typed("text/plain"@), body_of(check_text(sessions, peers))),
        ),
        Page::Robots => Some(
            response(
                200,
                "OK"@,
                typed("text/plain"@),
                body_of("User-agent: *\nDisallow: /\n"@),
            ),
        ),
        Page::Home => Some(
            response(
                200,
                "OK"@,
                typed("text/html; charset=utf-8"@),
                body_of(
                    "<!doctype html><html><body><h1>DERP</h1><p>High-performance Tailscale DERP relay implemented in Rust.</p></body></html>\n"@,
                ),
            ),
        ),
        Page::NotFound => Some(
            response(404, "Not Found"@, typed("text/plain"@), body_of("not found\n"@)),
        ),
    }
}

/// One header line.
fn line(name: &str, value: &str) -> (r: Header)
    ensures
        r@ == (name@, value@),
{
    Header { name: name.to_owned(), value: value.to_owned() }
}

/// An answer with one header line and a text as its body.
fn one_line_response(
    status: u16,
    reason: &str,
    name: &str,
    value: &str,
    body: &[u8],
) -> (r: Vec<u8>)
    ensures
        r@ == response(status, reason@, seq![(name@, value@)], body@),
{
    let mut headers: Vec<Header> = Vec::new();
    headers.push(line(name, value));
    proof {
        assert(header_views(headers@) =~= seq![(name@, value@)]);
    }
    write_response(status, reason, headers.as_slice(), body)
}

impl Request {
    /// Answers the request, if it is answered by HTTP and nothing else. `dns` is what was read of
    /// the bootstrap file, if that was possible.
    pub fn respond(&self, relay: &Relay, dns: Option<Vec<u8>>) -> (r: Option<Vec<u8>>)
        requires
            relay.wf(),
        ensures
            ({
                let want = page_response(
                    self@,
                    relay@.connected().len(),
                    relay@.peers.len(),
                    prometheus_text(relay@.metrics),
                    match dns {
                        Some(body) => Some(body@),
                        None => None,
                    },
                );
                match r {
                    Some(answer) => want == Some(answer@),
                    None => want is None,
                }
            }),
    {
        match self.page() {
            Page::WebSocket => None,
            Page::Derp { .. } => None,
            Page::UpgradeRequired => Some(
                one_line_response(
                    426,
                    "Upgrade Required",
                    "Content-Type",
                    "text/plain",
                    "DERP requires connection upgrade\n".as_bytes(),
                ),
            ),
            Page::Probe => {
                let body: Vec<u8> = Vec::new();
                Some(
                    one_line_response(
                        200,
                        "OK",
                        "Access-Control-Allow-Origin",
                        "*",
                        body.as_slice(),
                    ),
                )
            },
            Page::BogusProbe => {
                let headers: Vec<Header> = Vec::new();
                proof {
                    assert(header_views(headers@) =~= Seq::empty());
                }
                Some(
                    write_response(
                        405,
                        "Method Not Allowed",
                        headers.as_slice(),
                        "bogus probe method\n".as_bytes(),
                    ),
                )
            },
            Page::Generate204 => {
                let mut headers: Vec<Header> = Vec::new();
                headers.push(
                    line(
                        "Cache-Control",
                        "no-cache, no-store, must-revalidate, no-transform, max-age=0",
                    ),
                );
                if let Some(challenge) = self.header("x-tailscale-challenge") {
                    if answers_challenge(challenge) {
                        let mut value = String::from_str("response ");
                        value.append(challenge);
                        headers.push(line("X-Tailscale-Response", value.as_str()));
                    }
                }
                let body: Vec<u8> = Vec::new();
                proof {
                    assert(header_views(headers@) =~= generate_204_headers(self@));
                }
                Some(write_response(204, "No Content", headers.as_slice(), body.as_slice()))
            },
            Page::BootstrapDns => {
                let mut headers: Vec<Header> = Vec::new();
                headers.push(line("Content-Type", "application/json"));
                headers.push(line("Access-Control-Allow-Origin", "*"));
                let body = match dns {
                    Some(body) => body,
                    None => to_vec("{}\n".as_bytes()),
                };
                proof {
                    assert(header_views(headers@) =~= typed("application/json"@).push(
                        ("Access-Control-Allow-Origin"@, "*"@),
                    ));
                }
                Some(write_response(200, "OK", headers.as_slice(), body.as_slice()))
            },
            Page::Metrics => {
                let text = relay.prometheus();
                Some(
                    one_line_response(
                        200,
                        "OK",
                        "Content-Type",
                        "text/plain; version=0.0.4",
                        text.as_str().as_bytes(),
                    ),
                )
            },
            Page::Check => {
                let mut text = String::from_str("derp-rs consistency check okay; ");
                push_decimal(&mut text, relay.client_count() as u64);
                text.append(" sessions, ");
                push_decimal(&mut text, relay.public_peer_count() as u64);
                text.append(" peers\n");
                Some(
                    one_line_response(
                        200,
                        "OK",
                        "Content-Type",
                        "text/plain",
                        text.as_str().as_bytes(),
                    ),
                )
            },
            Page::Robots => Some(
                one_line_response(
                    200,
                    "OK",
                    "Content-Type",
                    "text/plain",
                    "User-agent: *\nDisallow: /\n".as_bytes(),
                ),
            ),
            Page::Home => Some(
                one_line_response(
                    200,
                    "OK",
                    "Content-Type",
                    "text/html; charset=utf-8",
                    "<!doctype html><html><body><h1>DERP</h1><p>High-performance Tailscale DERP relay implemented in Rust.</p></body></html>\n".as_bytes(),
                ),
            ),
            Page::NotFound => Some(
                one_line_response(
                    404,
                    "Not Found",
                    "Content-Type",
                    "text/plain",
                    "not found\n".as_bytes(),
                ),
            ),
        }
    }
}

/// How many bytes wait between a WebSocket and the connection behind it at most: 256 KiB.
pub const BRIDGE_ROOM: usize = 262_144;

/// How many bytes go into one WebSocket message at most: 64 KiB.
pub const BRIDGE_CHUNK: usize = 65_536;

/// The HTTP answer to a client that asks for DERP.
pub open spec fn derp_upgrade_text(key: Seq<u8>) -> Seq<char> {
    "HTTP/1.1 101 Switching Protocols\r\nUpgrade: DERP\r\nConnection: Upgrade\r\nDerp-Version: 2\r\nDerp-Public-Key: "@
        + hex_text(key) + "\r\n\r\n"@
}

/// The HTTP answer to a client that asks for DERP: it names the server's key.
pub fn derp_upgrade(key: NodeKey) -> (r: String)
    ensures
        r@ == derp_upgrade_text(key@),
{
    let mut out = String::from_str(
        "HTTP/1.1 101 Switching Protocols\r\nUpgrade: DERP\r\nConnection: Upgrade\r\nDerp-Version: 2\r\nDerp-Public-Key: ",
    );
    out.append(key.to_hex().as_str());
    out.append("\r\n\r\n");
    out
}

/// The SHA-1 digest of a byte string.
pub uninterp spec fn sha1_of(data: Seq<u8>) -> Seq<u8>;

/// `sha1::Sha1::digest`: a digest of twenty bytes, which is a function of the data.
#[verifier::external_body]
fn sha1(data: &[u8]) -> (r: Vec<u8>)
    ensures
        r@ == sha1_of(data@),
        r@.len() == 20,
{
    sha1::Sha1::digest(data).to_vec()
}

/// The character that stands for six bits in base64.
pub open spec fn base64_char(n: int) -> char {
    if n < 26 {
        (65 + n) as char
    } else if n < 52 {
        (71 + n) as char
    } else if n < 62 {
        (n - 4) as char
    } else if n == 62 {
        '+'
    } else {
        '/'
    }
}

/// A byte of the data, zero past its end.
pub open spec fn byte_at(data: Seq<u8>, i: int) -> int {
    if i < data.len() {
        data[i] as int
    } else {
        0
    }
}

/// The data in base64: four characters for each three bytes, with `=` where bytes are missing.
pub open spec fn base64_text(data: Seq<u8>) -> Seq<char> {
    Seq::new(
        ((data.len() + 2) / 3 * 4) as nat,
        |i: int|
            {
                let at = i / 4 * 3;
                let a = byte_at(data, at);
                let b = byte_at(data, at + 1);
                let c = byte_at(data, at + 2);
                if i % 4 == 0 {
                    base64_char(a / 4)
                } else if i % 4 == 1 {
                    base64_char(a % 4 * 16 + b / 16)
                } else if i % 4 == 2 {
                    if at + 1 < data.len() {
                        base64_char(b % 16 * 4 + c / 64)
                    } else {
                        '='
                    }
                } else if at + 2 < data.len() {
                    base64_char(c % 64)
                } else {
                    '='
                }
            },
    )
}

/// `base64::Engine::encode` with the standard alphabet and padding. It panics where the text does
/// not fit in memory.
#[verifier::external_body]
fn base64_encode(data: &[u8]) -> (r: String)
    requires
        data@.len() <= 0x1000_0000,
    ensures
        r@ == base64_text(data@),
{
    base64::engine::general_purpose::STANDARD.encode(data)
}

/// What proves to a WebSocket client that its request was understood.
pub open spec fn websocket_accept(key: Seq<char>) -> Seq<char> {
    base64_text(sha1_of(encode_utf8(key) + encode_utf8("258EAFA5-E914-47DA-95CA-C5AB0DC85B11"@)))
}

/// The HTTP answer to a client that asks for DERP over WebSocket.
pub open spec fn websocket_upgrade_text(accept: Seq<char>) -> Seq<char> {
    "HTTP/1.1 101 Switching Protocols\r\nUpgrade: websocket\r\nConnection: Upgrade\r\nSec-WebSocket-Accept: "@
        + accept + "\r\nSec-WebSocket-Protocol: derp\r\n\r\n"@
}

/// The HTTP answer with this proof.
pub fn websocket_upgrade_with(accept: &str) -> (r: String)
    ensures
        r@ == websocket_upgrade_text(accept@),
{
    let mut out = String::from_str(
        "HTTP/1.1 101 Switching Protocols\r\nUpgrade: websocket\r\nConnection: Upgrade\r\nSec-WebSocket-Accept: ",
    );
    out.append(accept);
    out.append("\r\nSec-WebSocket-Protocol: derp\r\n\r\n");
    out
}

impl Request {
    /// The HTTP answer to a client that asks for DERP over WebSocket, where it gives the key that
    /// the answer must prove.
    pub fn websocket_upgrade(&self) -> (r: Option<String>)
        ensures
            match r {
                Some(answer) => header_value(self@.headers, "sec-websocket-key"@) matches Some(
                    key,
                ) && answer@ == websocket_upgrade_text(websocket_accept(key)),
                None => header_value(self@.headers, "sec-websocket-key"@) is None,
            },
    {
        match self.header("sec-websocket-key") {
            Some(key) => {
                let mut data: Vec<u8> = Vec::new();
                data.extend_from_slice(key.as_bytes());
                data.extend_from_slice("258EAFA5-E914-47DA-95CA-C5AB0DC85B11".as_bytes());
                proof {
                    assert(data@ =~= encode_utf8(key@) + encode_utf8(
                        "258EAFA5-E914-47DA-95CA-C5AB0DC85B11"@,
                    ));
                }
                let digest = sha1(data.as_slice());
                let accept = base64_encode(digest.as_slice());
                Some(websocket_upgrade_with(accept.as_str()))
            },
            None => None,
        }
    }
}

/// What came over a WebSocket.
#[derive(Clone, Copy, Debug, PartialEq, Eq, Structural)]
pub enum Incoming {
    Binary,
    Ping,
    Close,
    Other,
    End,
}

/// What a WebSocket bridge does with it.
#[derive(Clone, Copy, Debug, PartialEq, Eq, Structural)]
pub enum BridgeAction {
    /// It hands the data on.
    HandOn,
    /// It answers with a pong of the same data.
    Pong,
    /// It ends.
    Stop,
    /// It does nothing.
    Ignore,
}

/// What a WebSocket bridge does with what came in: binary messages carry the stream, pings are
/// answered, and a close or the end of the messages ends it.
pub fn bridge(incoming: Incoming) -> (r: BridgeAction)
    ensures
        r == (match incoming {
            Incoming::Binary => BridgeAction::HandOn,
            Incoming::Ping => BridgeAction::Pong,
            Incoming::Close => BridgeAction::Stop,
            Incoming::End => BridgeAction::Stop,
            Incoming::Other => BridgeAction::Ignore,
        }),
{
    match incoming {
        Incoming::Binary => BridgeAction::HandOn,
        Incoming::Ping => BridgeAction::Pong,
        Incoming::Close => BridgeAction::Stop,
        Incoming::End => BridgeAction::Stop,
        Incoming::Other => BridgeAction::Ignore,
    }
}

/// Bytes that were read before they were wanted, to be handed out before anything else.
pub struct Prefix {
    data: Vec<u8>,
    pos: usize,
}

impl View for Prefix {
    type V = Seq<u8>;

    /// What is still to be handed out.
    closed spec fn view(&self) -> Seq<u8> {
        self.data@.subrange(self.pos as int, self.data@.len() as int)
    }
}

impl Prefix {
    #[verifier::type_invariant]
    spec fn within(self) -> bool {
        self.pos <= self.data@.len()
    }

    /// All of these bytes are to be handed out.
    pub fn new(data: Vec<u8>) -> (r: Prefix)
        ensures
            r@ == data@,
    {
        let r = Prefix { data, pos: 0 };
        proof {
            assert(r@ =~= data@);
        }
        r
    }

    /// Whether nothing is left to hand out.
    pub fn is_empty(&self) -> (r: bool)
        ensures
            r == (self@.len() == 0),
    {
        proof {
            use_type_invariant(self);
        }
        self.pos == self.data.len()
    }

    /// Hands out what there is room for, from the front.
    pub fn hand_out(&mut self, room: usize) -> (r: Vec<u8>)
        ensures
            r@ == old(self)@.take(
                if room <= old(self)@.len() {
                    room as int
                } else {
                    old(self)@.len() as int
                },
            ),
            r@ + final(self)@ == old(self)@,
    {
        proof {
            use_type_invariant(&*self);
        }
        let left = self.data.len() - self.pos;
        let n = if room <= left {
            room
        } else {
            left
        };
        let end = self.pos + n;
        let out = to_vec(slice_subrange(self.data.as_slice(), self.pos, end));
        proof {
            assert(out@ =~= self@.take(n as int));
            assert(out@ + self.data@.subrange(end as int, self.data@.len() as int) =~= self@);
        }
        self.pos = end;
        out
    }
}

/// Only one page asks for DERP, and it is answered by HTTP alone exactly where no upgrade is asked
/// for; every other page is answered by HTTP alone.
pub proof fn law_every_other_page_is_answered(
    q: RequestView,
    sessions: nat,
    peers: nat,
    counters: Seq<char>,
    dns: Option<Seq<u8>>,
)
    ensures
        page_response(q, sessions, peers, counters, dns) is None ==> q.path == "/derp"@ && (
        upgrade_of(q) == "derp"@ || upgrade_of(q) == "websocket"@),
        q.path == "/derp"@ && (upgrade_of(q) == "derp"@ || upgrade_of(q) == "websocket"@)
            ==> page_response(q, sessions, peers, counters, dns) is None,
{
}

/// A challenge that is not answered leaves no trace in the answer.
pub proof fn law_bad_challenges_are_not_echoed(q: RequestView)
    requires
        header_value(q.headers, "x-tailscale-challenge"@) matches Some(c) ==> !is_challenge(c),
    ensures
        generate_204_headers(q).len() == 1,
{
}

} // verus!
