//! How requests are read, what they ask for and what is answered.

use vstd::prelude::*;
use vstd::utf8::encode_utf8;

use crate::crypto::NodeKey;
use crate::http::{
    base64_text, before_query, bridge, derp_upgrade, header_lines, header_value, header_views,
    http_head, kept_header, lists_word, lossy_text, parse_request, progress, raw_views,
    request_from, response, sha1_of, typed, upgrade_of, websocket_upgrade_with, write_response,
    BridgeAction, Head, Header, Incoming, Page, Prefix, Progress, Request, RequestError, HEAD_END,
};
use crate::laws::plain::{
    is_hex, is_lower, is_trim, lemma_hex, lemma_lowered, lemma_spelled, lemma_trimmed, spells,
};
use crate::relay::Relay;
use crate::text::{decimal, hex_text};

verus! {

/// Whether an empty line ends here: a carriage return and a line feed, twice.
pub open spec fn ends_at(data: Seq<u8>, e: int) -> bool {
    &&& 4 <= e <= data.len()
    &&& data[e - 4] == 13
    &&& data[e - 3] == 10
    &&& data[e - 2] == 13
    &&& data[e - 1] == 10
}

proof fn lemma_ends(data: Seq<u8>, e: int)
    requires
        4 <= e <= data.len(),
    ensures
        ends_at(data, e) <==> data.subrange(e - 4, e) == HEAD_END@,
{
    let s = data.subrange(e - 4, e);
    assert(forall|i: int| 0 <= i < 4 ==> s[i] == data[e - 4 + i]);
    if ends_at(data, e) {
        assert(s =~= HEAD_END@);
    }
    if s == HEAD_END@ {
        assert(s[0] == 13 && s[1] == 10 && s[2] == 13 && s[3] == 10);
    }
}

/// A request's head is complete with its first empty line, and too large with 32 KiB without one.
pub proof fn law_heads_end(data: &[u8], r: Progress)
    requires
        call_ensures(progress, (data,), r),
    ensures
        match r {
            Progress::Complete(end) => ends_at(data@, end as int) && (forall|e: int|
                e < end ==> !#[trigger] ends_at(data@, e)),
            Progress::TooLarge => data@.len() >= 32768 && (forall|e: int|
                !#[trigger] ends_at(data@, e)),
            Progress::More => data@.len() < 32768 && (forall|e: int| !#[trigger] ends_at(data@, e)),
        },
{
    let d = data@;
    assert forall|e: int| #[trigger] ends_at(d, e) implies d.subrange(e - 4, e) == HEAD_END@ by {
        lemma_ends(d, e);
    }
    if let Progress::Complete(end) = r {
        lemma_ends(d, end as int);
    }
}

/// A head is a request where it has a method and a path. Its header lines are kept in their order,
/// each name in lower case and each value without white space around it.
pub proof fn law_requests_are_read(head: Head, r: Result<Request, RequestError>)
    requires
        call_ensures(request_from, (head,), r),
    ensures
        match head {
            Head::Malformed => r == Err::<Request, RequestError>(RequestError::Malformed),
            Head::Incomplete => r == Err::<Request, RequestError>(RequestError::Incomplete),
            Head::Complete { method, path, headers } => if method is None {
                r == Err::<Request, RequestError>(RequestError::MissingMethod)
            } else if path is None {
                r == Err::<Request, RequestError>(RequestError::MissingPath)
            } else {
                r matches Ok(q) && {
                    &&& q.method@ == method->0@
                    &&& q.path@ == path->0@
                    &&& q.headers@.len() == headers@.len()
                    &&& forall|i: int|
                        0 <= i < headers@.len() ==> is_lower(
                            (#[trigger] q.headers@[i]).name@,
                            headers@[i].name@,
                        ) && is_trim(q.headers@[i].value@, lossy_text(headers@[i].value@))
                }
            },
        },
{
    if let Head::Complete { method, path, headers } = head {
        if let Ok(q) = r {
            let kept = raw_views(headers@).map_values(
                |h: (Seq<char>, Seq<u8>)| kept_header(h),
            );
            assert(header_views(q.headers@) == kept);
            assert(header_views(q.headers@).len() == q.headers@.len());
            assert forall|i: int| 0 <= i < headers@.len() implies is_lower(
                (#[trigger] q.headers@[i]).name@,
                headers@[i].name@,
            ) && is_trim(q.headers@[i].value@, lossy_text(headers@[i].value@)) by {
                assert(header_views(q.headers@)[i] == q.headers@[i]@);
                assert(raw_views(headers@)[i] == (headers@[i].name@, headers@[i].value@));
                assert(kept[i] == kept_header(raw_views(headers@)[i]));
                lemma_lowered(headers@[i].name@);
                lemma_trimmed(lossy_text(headers@[i].value@));
            }
        }
    }
}

/// Bytes are read as a request with up to 64 header lines, as `httparse` finds them.
pub proof fn law_bytes_are_read(
    data: &[u8],
    r: Result<Request, RequestError>,
    head: Head,
    q: Result<Request, RequestError>,
)
    requires
        call_ensures(parse_request, (data,), r),
        call_ensures(request_from, (head,), q),
        head@ == http_head(data@, 64),
    ensures
        r is Ok == q is Ok,
        r matches Ok(x) ==> (q matches Ok(y) && x@ == y@),
        r matches Err(e) ==> q == Err::<Request, RequestError>(e),
{
}

/// Whether the last header line of this name has this value.
pub open spec fn is_last(q: Request, name: Seq<char>, value: Seq<char>) -> bool {
    exists|i: int|
        {
            &&& 0 <= i < q.headers@.len()
            &&& (#[trigger] q.headers@[i]).name@ == name
            &&& q.headers@[i].value@ == value
            &&& forall|j: int|
                i < j < q.headers@.len() ==> (#[trigger] q.headers@[j]).name@ != name
        }
}

/// Whether no header line has this name.
pub open spec fn lacks(q: Request, name: Seq<char>) -> bool {
    forall|i: int| 0 <= i < q.headers@.len() ==> (#[trigger] q.headers@[i]).name@ != name
}

proof fn lemma_header(q: Request, name: Seq<char>, n: int)
    requires
        0 <= n <= q.headers@.len(),
        forall|j: int| n <= j < q.headers@.len() ==> (#[trigger] q.headers@[j]).name@ != name,
    ensures
        header_value(q@.headers.take(n), name) matches Some(v) ==> is_last(q, name, v),
        header_value(q@.headers.take(n), name) is None ==> lacks(q, name),
    decreases n,
{
    let views = q@.headers;
    if n > 0 {
        let t = views.take(n);
        assert(t.last() == q.headers@[n - 1]@);
        assert(t.drop_last() =~= views.take(n - 1));
        if q.headers@[n - 1].name@ != name {
            lemma_header(q, name, n - 1);
        }
    }
}

proof fn lemma_headers(q: Request, name: Seq<char>)
    ensures
        header_value(q@.headers, name) matches Some(v) ==> is_last(q, name, v),
        header_value(q@.headers, name) is None ==> lacks(q, name),
{
    assert(q@.headers.take(q.headers@.len() as int) =~= q@.headers);
    lemma_header(q, name, q.headers@.len() as int);
}

/// The value of a header is that of its last line; there is none where it has no line.
pub proof fn law_last_header_counts(q: Request, name: &str, r: Option<&str>)
    requires
        call_ensures(Request::header, (&q, name), r),
    ensures
        r matches Some(v) ==> is_last(q, name@, v@),
        r is None ==> lacks(q, name@),
{
    lemma_headers(q, name@);
}

/// A client says that this is not its ideal node by any header of that name.
pub proof fn law_ideal_nodes(q: Request, r: bool)
    requires
        call_ensures(Request::not_ideal, (&q,), r),
    ensures
        r <==> !lacks(q, "ideal-node"@),
{
    lemma_headers(q, "ideal-node"@);
}

/// Whether a path is this one, with or without a query behind it.
pub open spec fn leads_to(path: Seq<char>, base: Seq<char>) -> bool {
    path == base || (path.len() > base.len() && path.take(base.len() as int) == base
        && path[base.len() as int] == '?')
}

proof fn lemma_before_query(path: Seq<char>)
    ensures
        before_query(path).len() <= path.len(),
        before_query(path) == path.take(before_query(path).len() as int),
        before_query(path).len() < path.len() ==> path[before_query(path).len() as int] == '?',
        !before_query(path).contains('?'),
    decreases path.len(),
{
    if path.len() > 0 && path[0] != '?' {
        let rest = path.drop_first();
        lemma_before_query(rest);
        let b = before_query(rest);
        let all = before_query(path);
        assert(all =~= path.take(1 + b.len() as int)) by {
            assert forall|i: int| 0 <= i < all.len() implies all[i] == path[i] by {
                if i > 0 {
                    assert(all[i] == b[i - 1]);
                    assert(b[i - 1] == rest.take(b.len() as int)[i - 1]);
                }
            }
        }
        if all.contains('?') {
            let i = choose|i: int| 0 <= i < all.len() && all[i] == '?';
            assert(b[i - 1] == '?');
        }
    } else {
        assert(before_query(path) =~= path.take(0));
    }
}

proof fn lemma_leads(path: Seq<char>, base: Seq<char>)
    requires
        !base.contains('?'),
    ensures
        before_query(path) == base <==> leads_to(path, base),
{
    lemma_before_query(path);
    let b = before_query(path);
    if b == base {
        if b.len() == path.len() {
            assert(path.take(b.len() as int) =~= path);
        }
    }
    if leads_to(path, base) {
        if b.len() < base.len() {
            assert(base[b.len() as int] == path[b.len() as int]) by {
                if path != base {
                    assert(path.take(base.len() as int)[b.len() as int] == path[b.len() as int]);
                }
            }
            assert(base.contains('?'));
        }
        if b.len() > base.len() {
            assert(b[base.len() as int] == path[base.len() as int]);
            assert(b.contains('?'));
        }
        assert(b =~= base);
    }
}

proof fn lemma_paths()
    ensures
        !"/derp/probe"@.contains('?'),
        !"/derp/latency-check"@.contains('?'),
        !"/generate_204"@.contains('?'),
        !"/bootstrap-dns"@.contains('?'),
        !"/metrics"@.contains('?'),
        !"/debug/vars"@.contains('?'),
        !"/debug/check"@.contains('?'),
        !"/robots.txt"@.contains('?'),
        !"/"@.contains('?'),
{
    reveal_strlit("/derp/probe");
    reveal_strlit("/derp/latency-check");
    reveal_strlit("/generate_204");
    reveal_strlit("/bootstrap-dns");
    reveal_strlit("/metrics");
    reveal_strlit("/debug/vars");
    reveal_strlit("/debug/check");
    reveal_strlit("/robots.txt");
    reveal_strlit("/");
}

/// Every path but `/derp` itself leads to its page with or without a query: probes are for GET and
/// HEAD.
#[verifier::rlimit(40)]
pub proof fn law_paths_lead_to_pages(q: Request, r: Page)
    requires
        call_ensures(Request::page, (&q,), r),
        q.path@ != "/derp"@,
    ensures
        ({
            let p = q.path@;
            let probe = leads_to(p, "/derp/probe"@) || leads_to(p, "/derp/latency-check"@);
            let reads = q.method@ == "GET"@ || q.method@ == "HEAD"@;
            match r {
                Page::Probe => probe && reads,
                Page::BogusProbe => probe && !reads,
                Page::Generate204 => leads_to(p, "/generate_204"@),
                Page::BootstrapDns => leads_to(p, "/bootstrap-dns"@),
                Page::Metrics => leads_to(p, "/metrics"@) || leads_to(p, "/debug/vars"@),
                Page::Check => leads_to(p, "/debug/check"@),
                Page::Robots => leads_to(p, "/robots.txt"@),
                Page::Home => leads_to(p, "/"@),
                Page::NotFound => {
                    &&& !probe
                    &&& !leads_to(p, "/generate_204"@)
                    &&& !leads_to(p, "/bootstrap-dns"@)
                    &&& !leads_to(p, "/metrics"@)
                    &&& !leads_to(p, "/debug/vars"@)
                    &&& !leads_to(p, "/debug/check"@)
                    &&& !leads_to(p, "/robots.txt"@)
                    &&& !leads_to(p, "/"@)
                },
                _ => false,
            }
        }),
{
    let p = q.path@;
    lemma_paths();
    lemma_leads(p, "/derp/probe"@);
    lemma_leads(p, "/derp/latency-check"@);
    lemma_leads(p, "/generate_204"@);
    lemma_leads(p, "/bootstrap-dns"@);
    lemma_leads(p, "/metrics"@);
    lemma_leads(p, "/debug/vars"@);
    lemma_leads(p, "/debug/check"@);
    lemma_leads(p, "/robots.txt"@);
    lemma_leads(p, "/"@);
}

/// Whether a request's upgrade header is this word, in letters of either case.
pub open spec fn upgrades_to(q: Request, word: Seq<char>) -> bool {
    exists|v: Seq<char>| #[trigger] is_last(q, "upgrade"@, v) && is_lower(word, v)
}

/// Whether one part of a text between commas is a word, once white space around it is left out.
pub open spec fn names(text: Seq<char>, word: Seq<char>) -> bool {
    exists|from: int, to: int| #[trigger]
        between_commas(text, from, to) && is_trim(word, text.subrange(from, to))
}

/// Whether this is a part of a text between commas.
pub open spec fn between_commas(text: Seq<char>, from: int, to: int) -> bool {
    &&& 0 <= from <= to <= text.len()
    &&& !text.subrange(from, to).contains(',')
    &&& from > 0 ==> text[from - 1] == ','
    &&& to < text.len() ==> text[to] == ','
}

proof fn lemma_last_unique(q: Request, name: Seq<char>, v: Seq<char>, w: Seq<char>)
    requires
        is_last(q, name, v),
        is_last(q, name, w),
    ensures
        v == w,
{
}

proof fn lemma_lower_unique(a: Seq<char>, b: Seq<char>, s: Seq<char>)
    requires
        is_lower(a, s),
        is_lower(b, s),
    ensures
        a == b,
{
    assert forall|i: int| 0 <= i < a.len() implies a[i] == b[i] by {
        assert(a[i] as int == b[i] as int);
    }
    assert(a =~= b);
}

proof fn lemma_trim_unique(a: Seq<char>, b: Seq<char>, s: Seq<char>)
    requires
        is_trim(a, s),
        is_trim(b, s),
    ensures
        a == b,
{
    let (i, j) = choose|i: int, j: int| #[trigger]
        crate::laws::plain::is_inside(s, i, j) && a == s.subrange(i, j);
    let (k, l) = choose|k: int, l: int| #[trigger]
        crate::laws::plain::is_inside(s, k, l) && b == s.subrange(k, l);
    if i == j {
        if k < l {
            assert(crate::laws::plain::is_white(s[k]));
        }
        assert(a =~= b);
    } else if k == l {
        assert(crate::laws::plain::is_white(s[i]));
    } else {
        assert(i == k && j == l);
    }
}

proof fn lemma_upgrade(q: Request, word: Seq<char>)
    requires
        word.len() > 0,
    ensures
        upgrade_of(q@) == word <==> upgrades_to(q, word),
{
    lemma_headers(q, "upgrade"@);
    match header_value(q@.headers, "upgrade"@) {
        Some(v) => {
            lemma_lowered(v);
            if upgrades_to(q, word) {
                let w = choose|w: Seq<char>| #[trigger]
                    is_last(q, "upgrade"@, w) && is_lower(word, w);
                lemma_last_unique(q, "upgrade"@, v, w);
                lemma_lower_unique(word, upgrade_of(q@), v);
            }
        },
        None => {},
    }
}

proof fn lemma_names(text: Seq<char>, word: Seq<char>)
    ensures
        lists_word(text, word) <==> names(text, word),
{
    if lists_word(text, word) {
        let (from, to) = choose|from: int, to: int|
            {
                &&& #[trigger] crate::http::is_part(text, from, to)
                &&& crate::text::trimmed(text.subrange(from, to)) == word
            };
        lemma_trimmed(text.subrange(from, to));
        assert(between_commas(text, from, to));
    }
    if names(text, word) {
        let (from, to) = choose|from: int, to: int| #[trigger]
            between_commas(text, from, to) && is_trim(word, text.subrange(from, to));
        let t = text.subrange(from, to);
        lemma_trimmed(t);
        lemma_trim_unique(word, crate::text::trimmed(t), t);
        assert forall|i: int| from <= i < to implies text[i] != ',' by {
            assert(t[i - from] == text[i]);
            assert(text[i] == ',' ==> t.contains(','));
        }
        assert(crate::http::is_part(text, from, to));
    }
}

/// `/derp` asks for a WebSocket where it upgrades to one and names `derp` among its protocols; else
/// for DERP where it upgrades to `derp` or `websocket`, with a fast start where that header is `1`;
/// else it lacks an upgrade.
#[verifier::rlimit(40)]
pub proof fn law_derp_asks_for_an_upgrade(q: Request, r: Page)
    requires
        call_ensures(Request::page, (&q,), r),
        q.path@ == "/derp"@,
    ensures
        ({
            let websocket = upgrades_to(q, "websocket"@);
            let derp = upgrades_to(q, "derp"@);
            let named = exists|v: Seq<char>| #[trigger]
                is_last(q, "sec-websocket-protocol"@, v) && names(v, "derp"@);
            match r {
                Page::WebSocket => websocket && named,
                Page::Derp { fast } => (derp || (websocket && !named)) && fast == is_last(
                    q,
                    "derp-fast-start"@,
                    "1"@,
                ),
                Page::UpgradeRequired => !derp && !websocket,
                _ => false,
            }
        }),
{
    assert("websocket"@.len() > 0 && "derp"@.len() > 0 && "websocket"@.len() != "derp"@.len()) by {
        reveal_strlit("websocket");
        reveal_strlit("derp");
    }
    lemma_upgrade(q, "websocket"@);
    lemma_upgrade(q, "derp"@);
    lemma_headers(q, "sec-websocket-protocol"@);
    lemma_headers(q, "derp-fast-start"@);
    let protocols = header_value(q@.headers, "sec-websocket-protocol"@);
    if let Some(v) = protocols {
        lemma_names(v, "derp"@);
        if exists|w: Seq<char>| #[trigger]
            is_last(q, "sec-websocket-protocol"@, w) && names(w, "derp"@) {
            let w = choose|w: Seq<char>| #[trigger]
                is_last(q, "sec-websocket-protocol"@, w) && names(w, "derp"@);
            lemma_last_unique(q, "sec-websocket-protocol"@, v, w);
        }
    }
    if let Some(v) = header_value(q@.headers, "derp-fast-start"@) {
        if is_last(q, "derp-fast-start"@, "1"@) {
            lemma_last_unique(q, "derp-fast-start"@, v, "1"@);
        }
    }
}

/// Whether bytes are an answer: its status, how long its body is, these header lines and the body.
pub open spec fn is_answer(
    bytes: Seq<u8>,
    status: nat,
    reason: Seq<char>,
    lines: Seq<char>,
    body: Seq<u8>,
) -> bool {
    exists|s: Seq<char>, n: Seq<char>| #[trigger]
        spells(s, status) && #[trigger] spells(n, body.len()) && bytes == encode_utf8(
            "HTTP/1.1 "@ + s + " "@ + reason + "\r\nContent-Length: "@ + n
                + "\r\nConnection: close\r\n"@ + lines + "\r\n"@,
        ) + body
}

/// One header line of an answer.
pub open spec fn one(name: Seq<char>, value: Seq<char>) -> Seq<char> {
    name + ": "@ + value + "\r\n"@
}

proof fn lemma_answer(status: u16, reason: Seq<char>, headers: Seq<(Seq<char>, Seq<char>)>, body: Seq<u8>)
    ensures
        is_answer(
            response(status, reason, headers, body),
            status as nat,
            reason,
            header_lines(headers),
            body,
        ),
{
    lemma_spelled(status as nat);
    lemma_spelled(body.len());
    assert(spells(decimal(status as nat), status as nat) && spells(
        decimal(body.len()),
        body.len(),
    ));
}

proof fn lemma_lines(headers: Seq<(Seq<char>, Seq<char>)>)
    ensures
        headers.len() == 0 ==> header_lines(headers) == Seq::<char>::empty(),
        headers.len() == 1 ==> header_lines(headers) == one(headers[0].0, headers[0].1),
        headers.len() == 2 ==> header_lines(headers) == one(headers[0].0, headers[0].1) + one(
            headers[1].0,
            headers[1].1,
        ),
{
    reveal_with_fuel(header_lines, 3);
    if headers.len() == 1 {
        assert(header_lines(headers) =~= one(headers[0].0, headers[0].1));
    }
    if headers.len() == 2 {
        let first = headers.drop_last();
        assert(first.len() == 1 && first.last() == headers[0]);
        assert(header_lines(first) =~= one(headers[0].0, headers[0].1));
        assert(header_lines(headers) =~= one(headers[0].0, headers[0].1) + one(
            headers[1].0,
            headers[1].1,
        ));
    }
}

/// An answer is its status line, how long its body is, the header lines in their order, and the
/// body.
pub proof fn law_answers_are_written(
    status: u16,
    reason: &str,
    headers: &[Header],
    body: &[u8],
    r: Vec<u8>,
)
    requires
        call_ensures(write_response, (status, reason, headers, body), r),
    ensures
        headers@.len() == 0 ==> is_answer(r@, status as nat, reason@, seq![], body@),
        headers@.len() == 1 ==> is_answer(
            r@,
            status as nat,
            reason@,
            one(headers@[0].name@, headers@[0].value@),
            body@,
        ),
        headers@.len() == 2 ==> is_answer(
            r@,
            status as nat,
            reason@,
            one(headers@[0].name@, headers@[0].value@) + one(headers@[1].name@, headers@[1].value@),
            body@,
        ),
{
    let views = header_views(headers@);
    lemma_answer(status, reason@, views, body@);
    lemma_lines(views);
}

/// Whether a challenge is answered: it has 64 characters at most, and only ASCII letters, digits,
/// dots, hyphens, underscores and colons.
pub open spec fn is_answered(c: Seq<char>) -> bool {
    &&& c.len() <= 64
    &&& forall|i: int|
        0 <= i < c.len() ==> {
            let n = #[trigger] c[i] as int;
            48 <= n <= 58 || 65 <= n <= 90 || 97 <= n <= 122 || n == 45 || n == 46 || n == 95
        }
}

/// What a page is answered with, if it is answered by HTTP alone.
pub open spec fn is_page(
    q: Request,
    page: Page,
    answer: Seq<u8>,
    dns: Option<Seq<u8>>,
    sessions: nat,
    nodes: nat,
    counters: Seq<char>,
) -> bool {
    let plain = one("Content-Type"@, "text/plain"@);
    let any = one("Access-Control-Allow-Origin"@, "*"@);
    let uncached = one(
        "Cache-Control"@,
        "no-cache, no-store, must-revalidate, no-transform, max-age=0"@,
    );
    match page {
        Page::UpgradeRequired => is_answer(
            answer,
            426,
            "Upgrade Required"@,
            plain,
            encode_utf8("DERP requires connection upgrade\n"@),
        ),
        Page::Probe => is_answer(answer, 200, "OK"@, any, seq![]),
        Page::BogusProbe => is_answer(
            answer,
            405,
            "Method Not Allowed"@,
            seq![],
            encode_utf8("bogus probe method\n"@),
        ),
        Page::Generate204 => exists|lines: Seq<char>| #[trigger]
            is_answer(answer, 204, "No Content"@, lines, seq![]) && {
                ||| lines == uncached && (forall|c: Seq<char>| #[trigger]
                    is_last(q, "x-tailscale-challenge"@, c) ==> !is_answered(c))
                ||| exists|c: Seq<char>| #[trigger]
                    is_last(q, "x-tailscale-challenge"@, c) && is_answered(c) && lines == uncached
                        + one("X-Tailscale-Response"@, "response "@ + c)
            },
        Page::BootstrapDns => is_answer(
            answer,
            200,
            "OK"@,
            one("Content-Type"@, "application/json"@) + any,
            match dns {
                Some(body) => body,
                None => encode_utf8("{}\n"@),
            },
        ),
        Page::Metrics => is_answer(
            answer,
            200,
            "OK"@,
            one("Content-Type"@, "text/plain; version=0.0.4"@),
            encode_utf8(counters),
        ),
        Page::Check => exists|s: Seq<char>, n: Seq<char>| #[trigger]
            spells(s, sessions) && #[trigger] spells(n, nodes) && is_answer(
                answer,
                200,
                "OK"@,
                plain,
                encode_utf8(
                    "derp-rs consistency check okay; "@ + s + " sessions, "@ + n + " peers\n"@,
                ),
            ),
        Page::Robots => is_answer(
            answer,
            200,
            "OK"@,
            plain,
            encode_utf8("User-agent: *\nDisallow: /\n"@),
        ),
        Page::Home => is_answer(
            answer,
            200,
            "OK"@,
            one("Content-Type"@, "text/html; charset=utf-8"@),
            encode_utf8(
                "<!doctype html><html><body><h1>DERP</h1><p>High-performance Tailscale DERP relay implemented in Rust.</p></body></html>\n"@,
            ),
        ),
        Page::NotFound => is_answer(
            answer,
            404,
            "Not Found"@,
            plain,
            encode_utf8("not found\n"@),
        ),
        _ => false,
    }
}

proof fn lemma_typed(kind: Seq<char>)
    ensures
        header_lines(typed(kind)) == one("Content-Type"@, kind),
{
    lemma_lines(typed(kind));
}

/// Every page but DERP itself is answered by HTTP alone, each with its own status, header lines and
/// body. The metrics page has what the relay counts, and the check how many connections and nodes
/// there are.
#[verifier::rlimit(40)]
pub proof fn law_pages_are_answered(
    q: Request,
    relay: &Relay,
    dns: Option<Vec<u8>>,
    r: Option<Vec<u8>>,
    page: Page,
    sessions: usize,
    nodes: usize,
    counters: String,
)
    requires
        call_ensures(Request::respond, (&q, relay, dns), r),
        call_ensures(Request::page, (&q,), page),
        call_ensures(Relay::client_count, (relay,), sessions),
        call_ensures(Relay::public_peer_count, (relay,), nodes),
        call_ensures(Relay::prometheus, (relay,), counters),
    ensures
        r is None <==> page is WebSocket || page is Derp,
        r matches Some(answer) ==> is_page(
            q,
            page,
            answer@,
            match dns {
                Some(body) => Some(body@),
                None => None,
            },
            sessions as nat,
            nodes as nat,
            counters@,
        ),
{
    if let Some(answer) = r {
        let plain = typed("text/plain"@);
        lemma_typed("text/plain"@);
        match page {
            Page::UpgradeRequired => {
                lemma_answer(
                    426,
                    "Upgrade Required"@,
                    plain,
                    encode_utf8("DERP requires connection upgrade\n"@),
                );
            },
            Page::Probe => {
                let any = seq![("Access-Control-Allow-Origin"@, "*"@)];
                lemma_lines(any);
                lemma_answer(200, "OK"@, any, seq![]);
            },
            Page::BogusProbe => {
                lemma_lines(seq![]);
                lemma_answer(
                    405,
                    "Method Not Allowed"@,
                    seq![],
                    encode_utf8("bogus probe method\n"@),
                );
            },
            Page::Generate204 => {
                lemma_uncached(q, answer@);
            },
            Page::BootstrapDns => {
                let headers = typed("application/json"@).push(
                    ("Access-Control-Allow-Origin"@, "*"@),
                );
                lemma_lines(headers);
                let body = match dns {
                    Some(body) => body@,
                    None => encode_utf8("{}\n"@),
                };
                lemma_answer(200, "OK"@, headers, body);
            },
            Page::Metrics => {
                lemma_typed("text/plain; version=0.0.4"@);
                lemma_answer(
                    200,
                    "OK"@,
                    typed("text/plain; version=0.0.4"@),
                    encode_utf8(counters@),
                );
            },
            Page::Check => {
                let (s, n) = (decimal(sessions as nat), decimal(nodes as nat));
                lemma_spelled(sessions as nat);
                lemma_spelled(nodes as nat);
                let text = "derp-rs consistency check okay; "@ + s + " sessions, "@ + n + " peers\n"@;
                lemma_answer(200, "OK"@, plain, encode_utf8(text));
                assert(relay@.peers.len() == relay@.peers.dom().len());
                assert(spells(s, sessions as nat) && spells(n, nodes as nat));
            },
            Page::Robots => {
                lemma_answer(200, "OK"@, plain, encode_utf8("User-agent: *\nDisallow: /\n"@));
            },
            Page::Home => {
                lemma_typed("text/html; charset=utf-8"@);
                lemma_answer(
                    200,
                    "OK"@,
                    typed("text/html; charset=utf-8"@),
                    encode_utf8(
                        "<!doctype html><html><body><h1>DERP</h1><p>High-performance Tailscale DERP relay implemented in Rust.</p></body></html>\n"@,
                    ),
                );
            },
            Page::NotFound => {
                lemma_answer(404, "Not Found"@, plain, encode_utf8("not found\n"@));
            },
            _ => {},
        }
    }
}

/// What a check for a captive portal is answered with.
proof fn lemma_uncached(q: Request, answer: Seq<u8>)
    requires
        answer == response(204, "No Content"@, crate::http::generate_204_headers(q@), Seq::empty()),
    ensures
        is_page(q, Page::Generate204, answer, None, 0, 0, seq![]),
{
    let headers = crate::http::generate_204_headers(q@);
    lemma_lines(headers);
    lemma_answer(204, "No Content"@, headers, seq![]);
    lemma_headers(q, "x-tailscale-challenge"@);
    let lines = header_lines(headers);
    let uncached = one(
        "Cache-Control"@,
        "no-cache, no-store, must-revalidate, no-transform, max-age=0"@,
    );
    assert(is_answer(answer, 204, "No Content"@, lines, seq![]));
    match header_value(q@.headers, "x-tailscale-challenge"@) {
        Some(c) => {
            assert(crate::http::is_challenge(c) == is_answered(c));
            assert forall|d: Seq<char>| #[trigger]
                is_last(q, "x-tailscale-challenge"@, d) implies d == c by {
                lemma_last_unique(q, "x-tailscale-challenge"@, c, d);
            }
        },
        None => {},
    }
}

/// The answer to a client that asks for DERP names the server's key in hexadecimal.
pub proof fn law_derp_is_granted(key: NodeKey, r: String)
    requires
        call_ensures(derp_upgrade, (key,), r),
    ensures
        exists|hex: Seq<char>| #[trigger]
            is_hex(hex, key@) && r@
                == "HTTP/1.1 101 Switching Protocols\r\nUpgrade: DERP\r\nConnection: Upgrade\r\nDerp-Version: 2\r\nDerp-Public-Key: "@
                + hex + "\r\n\r\n"@,
{
    lemma_hex(key@);
    assert(is_hex(hex_text(key@), key@));
}

/// A WebSocket is granted with this proof.
pub proof fn law_websockets_are_granted_with(accept: &str, r: String)
    requires
        call_ensures(websocket_upgrade_with, (accept,), r),
    ensures
        r@
            == "HTTP/1.1 101 Switching Protocols\r\nUpgrade: websocket\r\nConnection: Upgrade\r\nSec-WebSocket-Accept: "@
            + accept@ + "\r\nSec-WebSocket-Protocol: derp\r\n\r\n"@,
{
}

/// A WebSocket is granted to a client that gives a key, with the digest of that key and of the
/// protocol's own number, in base64; there is no answer without a key.
pub proof fn law_websockets_are_granted(q: Request, r: Option<String>)
    requires
        call_ensures(Request::websocket_upgrade, (&q,), r),
    ensures
        r is None <==> lacks(q, "sec-websocket-key"@),
        r matches Some(answer) ==> exists|key: Seq<char>| #[trigger]
            is_last(q, "sec-websocket-key"@, key) && answer@
                == "HTTP/1.1 101 Switching Protocols\r\nUpgrade: websocket\r\nConnection: Upgrade\r\nSec-WebSocket-Accept: "@
                + base64_text(
                sha1_of(encode_utf8(key) + encode_utf8("258EAFA5-E914-47DA-95CA-C5AB0DC85B11"@)),
            ) + "\r\nSec-WebSocket-Protocol: derp\r\n\r\n"@,
{
    lemma_headers(q, "sec-websocket-key"@);
}

/// Over a WebSocket binary messages are handed on, pings are answered, and a close or the end
/// stops.
pub proof fn law_bridges(incoming: Incoming, r: BridgeAction)
    requires
        call_ensures(bridge, (incoming,), r),
    ensures
        r is HandOn <==> incoming is Binary,
        r is Pong <==> incoming is Ping,
        r is Stop <==> incoming is Close || incoming is End,
        r is Ignore <==> incoming is Other,
{
}

/// What was read before it was wanted is handed out from the front, as much as there is room for,
/// and nothing of it is lost or handed out twice.
pub proof fn law_prefixes_are_handed_out(
    data: Vec<u8>,
    fresh: Prefix,
    p: &mut Prefix,
    room: usize,
    r: Vec<u8>,
    empty: bool,
)
    requires
        call_ensures(Prefix::new, (data,), fresh),
        call_ensures(Prefix::is_empty, (&*p,), empty),
        call_ensures(Prefix::hand_out, (p, room), r),
    ensures
        fresh@ == data@,
        empty <==> old(p)@.len() == 0,
        r@ + final(p)@ == old(p)@,
        r@.len() <= room,
        r@.len() == room || final(p)@.len() == 0,
{
}

} // verus!
