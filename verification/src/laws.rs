//! What holds of the server as a whole.

use vstd::prelude::*;

use crate::config;
use crate::config::{CommandView, ConfigView, ResolvedView};
use crate::path;
use crate::request;
use crate::request::{ProgressView, RequestView};
use crate::response;
use crate::saving;
use crate::saving::{Event, SaveView};
use crate::serial;
use crate::serial::{SerialView, SerialsView};
use crate::server;
use crate::server::{DoingView, FoundView, NextView, SavingView};
use crate::text;

verus! {

/// The head of a request, as a client writes it.
pub open spec fn request_text(
    method: Seq<char>,
    target: Seq<char>,
    version: Seq<char>,
    fields: Seq<(Seq<char>, Seq<char>)>,
) -> Seq<char> {
    method.push(' ') + (target.push(' ') + version) + "\r\n"@ + (response::field_lines(fields)
        + "\r\n"@)
}

/// The fields `headers` with the fields `fields`, as they are looked up.
pub open spec fn with_fields(
    headers: Map<Seq<char>, Seq<char>>,
    fields: Seq<(Seq<char>, Seq<char>)>,
) -> Map<Seq<char>, Seq<char>>
    decreases fields.len(),
{
    if fields.len() == 0 {
        headers
    } else {
        with_fields(
            headers.insert(text::lower(text::trim(fields[0].0)), text::trim(fields[0].1)),
            fields.skip(1),
        )
    }
}

proof fn lemma_crlf()
    ensures
        "\r\n"@ == seq!['\r', '\n'],
{
    reveal_strlit("\r\n");
    assert("\r\n"@ =~= seq!['\r', '\n']);
}

/// A line that is written ends where it is read to end.
proof fn lemma_line(line: Seq<char>, rest: Seq<u8>)
    requires
        !line.contains('\n'),
    ensures
        request::first_line(vstd::utf8::encode_utf8(line + "\r\n"@) + rest)
            == vstd::utf8::encode_utf8(line + "\r\n"@),
        vstd::utf8::encode_utf8(line + "\r\n"@).len() > 0,
{
    lemma_crlf();
    let start = line.push('\r');
    let whole = line + "\r\n"@;
    assert(whole =~= start + seq!['\n']);
    text::lemma_encode_concat(start, seq!['\n']);
    assert(!start.contains('\n')) by {
        if start.contains('\n') {
            let i = choose|i: int| 0 <= i < start.len() && start[i] == '\n';
            assert(line[i] == '\n');
        }
    }
    text::lemma_encode_ascii(start, '\n');
    let bytes = vstd::utf8::encode_utf8(start);
    assert(vstd::utf8::encode_utf8(seq!['\n']) =~= seq![10u8]) by {
        reveal_with_fuel(vstd::utf8::encode_utf8, 2);
        assert(10u32 & 0x7f == 10u32) by (bit_vector);
        assert(seq!['\n'].drop_first() =~= Seq::<char>::empty());
    }
    text::lemma_around(bytes, 10u8, rest);
    assert(vstd::utf8::encode_utf8(whole) =~= bytes.push(10u8));
    assert((bytes.push(10u8) + rest).take(bytes.len() as int + 1) =~= bytes.push(10u8));
}

proof fn lemma_request_line(method: Seq<char>, target: Seq<char>, version: Seq<char>)
    requires
        !method.contains(' '),
        !target.contains(' '),
    ensures
        request::parse_request_line(method.push(' ') + (target.push(' ') + version) + "\r\n"@)
            == Some((method, text::before(target, '?'))),
{
    let line = method.push(' ') + (target.push(' ') + version) + "\r\n"@;
    let m = text::lemma_trim_newlines_end(line);
    let n = method.len() + 1 + target.len();
    assert(line[n as int] == ' ');
    assert(m > n);
    let tail = (version + "\r\n"@).take(m - n - 1);
    assert(line.take(m) =~= method.push(' ') + (target.push(' ') + tail));
    text::lemma_around(method, ' ', target.push(' ') + tail);
    text::lemma_around(target, ' ', tail);
}

/// A request line needs no version.
pub proof fn law_version_may_be_left_out(method: Seq<char>, target: Seq<char>)
    requires
        !method.contains(' '),
        !target.contains(' '),
        target.len() > 0 ==> target.last() != '\r' && target.last() != '\n',
    ensures
        request::parse_request_line(method.push(' ') + target + "\r\n"@) == Some(
            (method, text::before(target, '?')),
        ),
{
    let start = method.push(' ') + target;
    let line = start + "\r\n"@;
    lemma_crlf();
    assert(start.last() != '\r' && start.last() != '\n');
    text::lemma_trim_end_is(line, |c: char| c == '\r' || c == '\n', start.len() as int);
    assert(line.take(start.len() as int) =~= start);
    text::lemma_around(method, ' ', target);
    text::lemma_before(target, ' ');
}

proof fn lemma_field_line(
    headers: Map<Seq<char>, Seq<char>>,
    name: Seq<char>,
    value: Seq<char>,
)
    requires
        !name.contains(':'),
    ensures
        text::trim_newlines(response::field_line(name, value)).len() > 0,
        request::add_field(headers, text::trim_newlines(response::field_line(name, value)))
            == headers.insert(text::lower(text::trim(name)), text::trim(value)),
{
    let line = response::field_line(name, value);
    reveal_strlit(": ");
    lemma_crlf();
    let m = text::lemma_trim_newlines_end(line);
    let n = name.len() as int;
    assert(line[n] == ':');
    assert(line[n + 1] == ' ');
    assert(m > n + 1);
    let all = value + "\r\n"@;
    let rest = seq![' '] + all.take(m - n - 2);
    assert(line.take(m) =~= name.push(':') + rest);
    text::lemma_around(name, ':', rest);
    let (a, b) = text::lemma_trim_bounds(value);
    assert forall|j: int| m - n - 2 <= j < all.len() implies all[j] == '\r' || all[j] == '\n' by {
        assert(line[j + n + 2] == all[j]);
    }
    if a < b {
        assert(b <= m - n - 2) by {
            if b > m - n - 2 {
                assert(all[b - 1] == value[b - 1]);
            }
        }
        text::lemma_trim_is(rest, a + 1, b + 1);
        assert(rest.subrange(a + 1, b + 1) =~= value.subrange(a, b));
    } else {
        assert forall|j: int| 0 <= j < rest.len() implies text::is_white_space(rest[j]) by {
            if j > 0 {
                assert(rest[j] == all[j - 1]);
                if j - 1 < value.len() {
                    assert(text::is_white_space(value[j - 1]));
                }
            }
        }
        text::lemma_trim_is(rest, 0, 0);
        assert(rest.subrange(0, 0) =~= value.subrange(a, b));
    }
}

proof fn lemma_field_lines_front(fields: Seq<(Seq<char>, Seq<char>)>)
    requires
        fields.len() > 0,
    ensures
        response::field_lines(fields) == response::field_line(fields[0].0, fields[0].1)
            + response::field_lines(fields.skip(1)),
    decreases fields.len(),
{
    let first = response::field_line(fields[0].0, fields[0].1);
    if fields.len() == 1 {
        reveal_with_fuel(response::field_lines, 2);
        assert(fields.drop_last() =~= Seq::empty());
        assert(fields.skip(1) =~= Seq::empty());
        assert(response::field_lines(fields) =~= first + response::field_lines(fields.skip(1)));
    } else {
        lemma_field_lines_front(fields.drop_last());
        assert(fields.drop_last().skip(1) =~= fields.skip(1).drop_last());
        assert(response::field_lines(fields) =~= first + response::field_lines(fields.skip(1)));
    }
}

proof fn lemma_read_fields(
    request: RequestView,
    total: int,
    fields: Seq<(Seq<char>, Seq<char>)>,
    body: Seq<u8>,
)
    requires
        forall|i: int|
            0 <= i < fields.len() ==> !(#[trigger] fields[i]).0.contains(':')
                && !fields[i].0.contains('\n') && !fields[i].1.contains('\n'),
        0 <= total,
        total + vstd::utf8::encode_utf8(response::field_lines(fields) + "\r\n"@).len()
            <= request::MAX_HEADER_BYTES,
    ensures
        request::read_lines(
            ProgressView::Fields { request, total },
            vstd::utf8::encode_utf8(response::field_lines(fields) + "\r\n"@) + body,
        ) == (
            Ok::<RequestView, request::RequestError>(
                RequestView { headers: with_fields(request.headers, fields), ..request },
            ),
            body,
        ),
    decreases fields.len(),
{
    let lines = response::field_lines(fields);
    let input = vstd::utf8::encode_utf8(lines + "\r\n"@) + body;
    lemma_crlf();
    if fields.len() == 0 {
        let none = Seq::<char>::empty();
        assert(lines + "\r\n"@ =~= none + "\r\n"@);
        let line = vstd::utf8::encode_utf8(none + "\r\n"@);
        lemma_line(none, body);
        vstd::utf8::encode_utf8_valid_utf8(none + "\r\n"@);
        vstd::utf8::encode_utf8_decode_utf8(none + "\r\n"@);
        let m = text::lemma_trim_newlines_end(none + "\r\n"@);
        assert(m == 0) by {
            if m > 0 {
                assert((none + "\r\n"@)[m - 1] == '\r' || (none + "\r\n"@)[m - 1] == '\n');
            }
        }
        assert(input.skip(line.len() as int) =~= body);
    } else {
        let (name, value) = fields[0];
        let rest = fields.skip(1);
        lemma_field_lines_front(fields);
        let text = response::field_line(name, value);
        let start = name + ": "@ + value;
        reveal_strlit(": ");
        assert(!start.contains('\n')) by {
            if start.contains('\n') {
                let i = choose|i: int| 0 <= i < start.len() && start[i] == '\n';
                if i < name.len() {
                    assert(name[i] == '\n');
                } else if i >= name.len() + 2 {
                    assert(value[i - name.len() - 2] == '\n');
                }
            }
        }
        let line = vstd::utf8::encode_utf8(text);
        let others = vstd::utf8::encode_utf8(response::field_lines(rest) + "\r\n"@);
        assert(lines + "\r\n"@ =~= text + (response::field_lines(rest) + "\r\n"@));
        text::lemma_encode_concat(text, response::field_lines(rest) + "\r\n"@);
        assert(input =~= line + (others + body));
        lemma_line(start, others + body);
        vstd::utf8::encode_utf8_valid_utf8(text);
        vstd::utf8::encode_utf8_decode_utf8(text);
        lemma_field_line(request.headers, name, value);
        assert(input.skip(line.len() as int) =~= others + body);
        let next = RequestView {
            headers: request.headers.insert(
                text::lower(text::trim(name)),
                text::trim(value),
            ),
            ..request
        };
        lemma_read_fields(next, total + line.len(), rest, body);
    }
}

/// A request that a client writes is read back: its method, its path without the query
/// string, and its header fields. The body behind it is left unread.
pub proof fn law_requests_are_read_back(
    method: Seq<char>,
    target: Seq<char>,
    version: Seq<char>,
    fields: Seq<(Seq<char>, Seq<char>)>,
    body: Seq<u8>,
)
    requires
        !method.contains(' ') && !method.contains('\n'),
        !target.contains(' ') && !target.contains('\n'),
        !version.contains('\n'),
        forall|i: int|
            0 <= i < fields.len() ==> !(#[trigger] fields[i]).0.contains(':')
                && !fields[i].0.contains('\n') && !fields[i].1.contains('\n'),
        vstd::utf8::encode_utf8(response::field_lines(fields) + "\r\n"@).len()
            <= request::MAX_HEADER_BYTES,
    ensures
        request::read_lines(
            ProgressView::RequestLine,
            vstd::utf8::encode_utf8(request_text(method, target, version, fields)) + body,
        ) == (
            Ok::<RequestView, request::RequestError>(
                RequestView {
                    method,
                    path: text::before(target, '?'),
                    headers: with_fields(Map::empty(), fields),
                },
            ),
            body,
        ),
{
    let start = method.push(' ') + (target.push(' ') + version);
    let first = start + "\r\n"@;
    let others = response::field_lines(fields) + "\r\n"@;
    let line = vstd::utf8::encode_utf8(first);
    let input = vstd::utf8::encode_utf8(request_text(method, target, version, fields)) + body;
    assert(!start.contains('\n')) by {
        if start.contains('\n') {
            let i = choose|i: int| 0 <= i < start.len() && start[i] == '\n';
            if i < method.len() {
                assert(method[i] == '\n');
            } else if i > method.len() && i < method.len() + 1 + target.len() {
                assert(target[i - method.len() - 1] == '\n');
            } else if i > method.len() + 1 + target.len() {
                assert(version[i - method.len() - 2 - target.len()] == '\n');
            }
        }
    }
    text::lemma_encode_concat(first, others);
    assert(input =~= line + (vstd::utf8::encode_utf8(others) + body));
    lemma_line(start, vstd::utf8::encode_utf8(others) + body);
    vstd::utf8::encode_utf8_valid_utf8(first);
    vstd::utf8::encode_utf8_decode_utf8(first);
    lemma_request_line(method, target, version);
    assert(input.skip(line.len() as int) =~= vstd::utf8::encode_utf8(others) + body);
    lemma_read_fields(
        RequestView { method, path: text::before(target, '?'), headers: Map::empty() },
        0,
        fields,
        body,
    );
}

/// The name under which a header field is looked up.
pub open spec fn lookup_name(name: Seq<char>) -> Seq<char> {
    text::lower(text::trim(name))
}

proof fn lemma_other_fields(
    headers: Map<Seq<char>, Seq<char>>,
    fields: Seq<(Seq<char>, Seq<char>)>,
    name: Seq<char>,
)
    requires
        forall|i: int| 0 <= i < fields.len() ==> lookup_name((#[trigger] fields[i]).0) != name,
    ensures
        with_fields(headers, fields).dom().contains(name) == headers.dom().contains(name),
        headers.dom().contains(name) ==> with_fields(headers, fields)[name] == headers[name],
    decreases fields.len(),
{
    if fields.len() > 0 {
        let rest = fields.skip(1);
        assert forall|i: int| 0 <= i < rest.len() implies lookup_name((#[trigger] rest[i]).0)
            != name by {
            assert(rest[i] == fields[i + 1]);
        }
        assert(lookup_name(fields[0].0) != name);
        lemma_other_fields(
            headers.insert(lookup_name(fields[0].0), text::trim(fields[0].1)),
            rest,
            name,
        );
    }
}

/// Of the header fields with one name, the last one is found.
proof fn lemma_found_field(
    headers: Map<Seq<char>, Seq<char>>,
    fields: Seq<(Seq<char>, Seq<char>)>,
    at: int,
)
    requires
        0 <= at < fields.len(),
        forall|i: int|
            at < i < fields.len() ==> lookup_name((#[trigger] fields[i]).0) != lookup_name(
                fields[at].0,
            ),
    ensures
        with_fields(headers, fields).dom().contains(lookup_name(fields[at].0)),
        with_fields(headers, fields)[lookup_name(fields[at].0)] == text::trim(fields[at].1),
    decreases fields.len(),
{
    let rest = fields.skip(1);
    let next = headers.insert(lookup_name(fields[0].0), text::trim(fields[0].1));
    assert forall|i: int| 0 <= i < rest.len() implies rest[i] == fields[i + 1] by {}
    if at == 0 {
        lemma_other_fields(next, rest, lookup_name(fields[0].0));
    } else {
        lemma_found_field(next, rest, at - 1);
    }
}

proof fn lemma_decimal_is_trimmed(n: nat)
    ensures
        text::trim(text::decimal(n)) == text::decimal(n),
        !text::decimal(n).contains('\n'),
        !text::decimal(n).contains(' '),
        !text::decimal(n).contains('/'),
        !text::decimal(n).contains('?'),
        text::decimal(n).len() > 0,
{
    let s = text::decimal(n);
    text::lemma_decimal(n);
    text::lemma_trim_is(s, 0, s.len() as int);
    assert(s.subrange(0, s.len() as int) =~= s);
}

proof fn lemma_content_length()
    ensures
        lookup_name("Content-Length"@) == "content-length"@,
        !"Content-Length"@.contains(':'),
        !"Content-Length"@.contains('\n'),
{
    reveal_strlit("Content-Length");
    reveal_strlit("content-length");
    text::lemma_trim_is("Content-Length"@, 0, 14);
    assert("Content-Length"@.subrange(0, 14) =~= "Content-Length"@);
    assert(text::lower("Content-Length"@) =~= "content-length"@);
}

proof fn lemma_reason(status: u16)
    ensures
        !response::reason(status).contains('\n'),
{
    reveal_strlit("OK");
    reveal_strlit("No Content");
    reveal_strlit("Bad Request");
    reveal_strlit("Forbidden");
    reveal_strlit("Not Found");
    reveal_strlit("Method Not Allowed");
    reveal_strlit("Length Required");
    reveal_strlit("Payload Too Large");
    reveal_strlit("Internal Server Error");
}

/// A client that reads a response by the rules of requests finds its status, its header
/// fields and the length of its body, and has the body left to read.
pub proof fn law_responses_are_read_back(
    status: u16,
    content_type: Seq<char>,
    body: Seq<u8>,
    extra: Seq<(Seq<char>, Seq<char>)>,
)
    requires
        !content_type.contains('\n'),
        forall|i: int|
            0 <= i < extra.len() ==> !(#[trigger] extra[i]).0.contains(':')
                && !extra[i].0.contains('\n') && !extra[i].1.contains('\n') && lookup_name(
                extra[i].0,
            ) != "content-length"@,
        vstd::utf8::encode_utf8(
            response::field_lines(response::response_fields(content_type, body.len(), extra))
                + "\r\n"@,
        ).len() <= request::MAX_HEADER_BYTES,
    ensures
        ({
            let fields = response::response_fields(content_type, body.len(), extra);
            let headers = with_fields(Map::empty(), fields);
            &&& request::read_lines(
                ProgressView::RequestLine,
                response::response(status, content_type, body, false, extra),
            ) == (
                Ok::<RequestView, request::RequestError>(
                    RequestView {
                        method: "HTTP/1.1"@,
                        path: text::decimal(status as nat),
                        headers,
                    },
                ),
                body,
            )
            &&& headers.dom().contains("content-length"@)
            &&& headers["content-length"@] == text::decimal(body.len())
        }),
{
    let fields = response::response_fields(content_type, body.len(), extra);
    let target = text::decimal(status as nat);
    let reason = response::reason(status);
    let at: int = if content_type.len() == 0 { 3 } else { 4 };
    lemma_decimal_is_trimmed(status as nat);
    lemma_decimal_is_trimmed(body.len());
    lemma_content_length();
    lemma_reason(status);
    reveal_strlit("HTTP/1.1");
    reveal_strlit("HTTP/1.1 ");
    reveal_strlit(" ");
    reveal_strlit("Server");
    reveal_strlit("kanaweb-server");
    reveal_strlit("Connection");
    reveal_strlit("close");
    reveal_strlit("Cache-Control");
    reveal_strlit("no-store");
    reveal_strlit("Content-Type");
    assert(fields[at] == ("Content-Length"@, text::decimal(body.len())));
    assert forall|i: int| 0 <= i < fields.len() implies !(#[trigger] fields[i]).0.contains(':')
        && !fields[i].0.contains('\n') && !fields[i].1.contains('\n') && (i > at
        ==> lookup_name(fields[i].0) != "content-length"@) by {
        if i > at {
            assert(fields[i] == extra[i - at - 1]);
        }
    }
    assert(request_text("HTTP/1.1"@, target, reason, fields) =~= response::response_head(
        status,
        content_type,
        body.len(),
        extra,
    ));
    law_requests_are_read_back("HTTP/1.1"@, target, reason, fields, body);
    text::lemma_before(target, '?');
    lemma_found_field(Map::empty(), fields, at);
}

proof fn lemma_saved_name(name: Seq<char>)
    requires
        server::may_be_saved(name),
    ensures
        path::is_plain(vstd::utf8::encode_utf8(name)),
        !name.contains(' ') && !name.contains('\n') && !name.contains('?') && !name.contains('/'),
        name.len() == 10 || name.len() == 11,
        name[0] != '/',
{
    reveal_strlit("vocab.json");
    reveal_strlit(".vocab.json");
    vstd::utf8::is_ascii_chars_encode_utf8(name);
    text::lemma_encode_ascii(name, '/');
}

/// Only PUT requests save a file, and only the vocabulary files of the app, directly in
/// the served directory, and no more than `MAX_BODY_BYTES` bytes: the body that is received
/// has the announced length.
pub proof fn law_only_vocabulary_is_saved(
    config: ConfigView,
    request: RequestView,
    body: Seq<u8>,
    serial: SerialView,
)
    requires
        server::request_step(config, Some(request)) is Receive,
        body.len() == server::request_step(config, Some(request))->len,
    ensures
        server::request_step(config, Some(request)) matches NextView::Receive {
            name,
            target,
            len,
        } && {
            &&& request.method == "PUT"@
            &&& server::may_be_saved(name)
            &&& target == path::join(config.dir, vstd::utf8::encode_utf8(name))
            &&& path::names(target) == path::names(config.dir).push(
                vstd::utf8::encode_utf8(name),
            )
            &&& len <= server::MAX_BODY_BYTES
            &&& server::body_step(config, name, target, body, serial) matches SavingView::Store {
                target: saved,
                contents,
                ..
            } ==> saved == target && contents.len() <= server::MAX_BODY_BYTES
        },
{
    let name = text::trim_slashes(request.path);
    lemma_saved_name(name);
    path::law_plain_name_is_safe(config.dir, vstd::utf8::encode_utf8(name));
    path::lemma_names_join(config.dir, vstd::utf8::encode_utf8(name));
}

/// Every PUT request for a vocabulary file that announces an acceptable length is taken.
pub proof fn law_vocabulary_is_taken(config: ConfigView, request: RequestView, len: nat)
    requires
        request.method == "PUT"@,
        server::may_be_saved(text::trim_slashes(request.path)),
        server::announced_length(request) == Some(len),
        len <= server::MAX_BODY_BYTES,
    ensures
        server::request_step(config, Some(request)) == (NextView::Receive {
            name: text::trim_slashes(request.path),
            target: path::join(
                config.dir,
                vstd::utf8::encode_utf8(text::trim_slashes(request.path)),
            ),
            len,
        }),
{
    let name = text::trim_slashes(request.path);
    lemma_saved_name(name);
    path::law_plain_name_is_safe(config.dir, vstd::utf8::encode_utf8(name));
    reveal_strlit("GET");
    reveal_strlit("HEAD");
    reveal_strlit("PUT");
    assert("GET"@[0] == 'G' && "HEAD"@[0] == 'H' && "PUT"@[0] == 'P');
}

proof fn lemma_last_part(a: Seq<char>, d: Seq<char>, b: Seq<char>, e: Seq<char>)
    requires
        a + "."@ + d == b + "."@ + e,
        !d.contains('.'),
        !e.contains('.'),
    ensures
        a == b,
        d == e,
{
    let s = a + "."@ + d;
    reveal_strlit(".");
    assert forall|j: int| a.len() < j < s.len() implies s[j] != '.' by {
        assert(s[j] == d[j - a.len() - 1]);
    }
    assert forall|j: int| b.len() < j < s.len() implies s[j] != '.' by {
        assert(s[j] == e[j - b.len() - 1]);
    }
    text::lemma_find_last_is(s, '.', a.len() as int);
    text::lemma_find_last_is(s, '.', b.len() as int);
    assert(a =~= s.take(a.len() as int));
    assert(b =~= s.take(b.len() as int));
    assert(d =~= s.skip(a.len() as int + 1));
    assert(e =~= s.skip(b.len() as int + 1));
}

proof fn lemma_decimal_has_no_dot(n: nat)
    ensures
        !text::decimal(n).contains('.'),
{
    text::lemma_decimal(n);
}

proof fn lemma_temporary_names_differ(
    name: Seq<char>,
    serial: SerialView,
    other: Seq<char>,
    other_serial: SerialView,
)
    requires
        serial != other_serial,
    ensures
        server::temporary_name(name, serial) != server::temporary_name(other, other_serial),
{
    let (p, q) = (serial.pid as nat, other_serial.pid as nat);
    let (m, n) = (serial.number as nat, other_serial.number as nat);
    if server::temporary_name(name, serial) == server::temporary_name(other, other_serial) {
        lemma_decimal_has_no_dot(p);
        lemma_decimal_has_no_dot(q);
        lemma_decimal_has_no_dot(m);
        lemma_decimal_has_no_dot(n);
        lemma_last_part(
            "."@ + name + ".tmp."@ + text::decimal(p),
            text::decimal(m),
            "."@ + other + ".tmp."@ + text::decimal(q),
            text::decimal(n),
        );
        reveal_strlit(".");
        reveal_strlit(".tmp.");
        let a = "."@ + name + ".tmp."@.take(4);
        let b = "."@ + other + ".tmp."@.take(4);
        assert("."@ + name + ".tmp."@ =~= a + "."@);
        assert("."@ + other + ".tmp."@ =~= b + "."@);
        lemma_last_part(a, text::decimal(p), b, text::decimal(q));
        text::lemma_decimal(p);
        text::lemma_decimal(q);
        text::lemma_decimal(m);
        text::lemma_decimal(n);
    }
}

proof fn lemma_temporary_name(name: Seq<char>, serial: SerialView)
    requires
        server::may_be_saved(name),
    ensures
        path::is_plain(vstd::utf8::encode_utf8(server::temporary_name(name, serial))),
        server::temporary_name(name, serial).len() > 11,
{
    let t = server::temporary_name(name, serial);
    let p = text::decimal(serial.pid as nat);
    lemma_saved_name(name);
    lemma_decimal_is_trimmed(serial.pid as nat);
    lemma_decimal_is_trimmed(serial.number as nat);
    reveal_strlit(".");
    reveal_strlit(".tmp.");
    assert(!t.contains('/')) by {
        if t.contains('/') {
            let i = choose|i: int| 0 <= i < t.len() && t[i] == '/';
            let n = name.len() as int;
            if 1 <= i < n + 1 {
                assert(name[i - 1] == '/');
            } else if n + 6 <= i < n + 6 + p.len() {
                assert(p[i - n - 6] == '/');
            } else if i > n + 6 + p.len() {
                assert(text::decimal(serial.number as nat)[i - n - 7 - p.len()] == '/');
            }
        }
    }
    text::lemma_encode_ascii(t, '/');
    let dot = seq!['.'];
    let dots = seq!['.', '.'];
    vstd::utf8::is_ascii_chars_encode_utf8(dot);
    vstd::utf8::is_ascii_chars_encode_utf8(dots);
    assert(vstd::utf8::encode_utf8(dot) =~= seq![46u8]);
    assert(vstd::utf8::encode_utf8(dots) =~= path::dot_dot());
    text::lemma_encode_injective(t, dot);
    text::lemma_encode_injective(t, dots);
    text::lemma_encode_injective(t, Seq::empty());
    assert(vstd::utf8::encode_utf8(Seq::<char>::empty()) =~= Seq::empty());
    assert(t != dot && t != dots && t != Seq::<char>::empty());
    assert(vstd::utf8::encode_utf8(t).len() > 0) by {
        if vstd::utf8::encode_utf8(t).len() == 0 {
            assert(vstd::utf8::encode_utf8(t) =~= Seq::empty());
        }
    }
}

/// A body is saved if and only if it starts like a JSON object. All of it, and nothing
/// else, goes to another file of the same directory first, which is none of the files that
/// may be saved.
pub proof fn law_bodies_are_saved_whole(
    config: ConfigView,
    name: Seq<char>,
    body: Seq<u8>,
    serial: SerialView,
    other: Seq<char>,
)
    requires
        server::may_be_saved(name),
        server::may_be_saved(other),
    ensures
        ({
            let target = path::join(config.dir, vstd::utf8::encode_utf8(name));
            match server::body_step(config, name, target, body, serial) {
                SavingView::Store { temporary, target: saved, contents, doing } => {
                    &&& server::starts_with_brace(body)
                    &&& doing is Create
                    &&& contents == body
                    &&& saved == target
                    &&& path::names(temporary) == path::names(config.dir).push(
                        vstd::utf8::encode_utf8(server::temporary_name(name, serial)),
                    )
                    &&& temporary != path::join(config.dir, vstd::utf8::encode_utf8(other))
                },
                SavingView::Respond(bytes) => {
                    &&& !server::starts_with_brace(body)
                    &&& bytes == response::response(
                        400,
                        "text/plain; charset=utf-8"@,
                        vstd::utf8::encode_utf8("body must be a JSON object"@),
                        false,
                        Seq::empty(),
                    )
                },
            }
        }),
{
    let t = server::temporary_name(name, serial);
    let a = vstd::utf8::encode_utf8(t);
    let b = vstd::utf8::encode_utf8(other);
    lemma_temporary_name(name, serial);
    lemma_saved_name(other);
    let target = path::join(config.dir, vstd::utf8::encode_utf8(name));
    lemma_saved_name(name);
    path::lemma_names_join(config.dir, vstd::utf8::encode_utf8(name));
    path::law_parent_drops_the_last_name(target);
    assert(path::names(target).drop_last() =~= path::names(config.dir));
    path::lemma_names_join(path::parent(target)->0, a);
    path::lemma_names_join(config.dir, b);
    text::lemma_encode_injective(t, other);
    assert(path::names(config.dir).push(a).last() == a);
    assert(path::names(config.dir).push(b).last() == b);
}

/// An upload of a vocabulary file, with its serial number.
pub struct UploadView {
    pub name: Seq<char>,
    pub body: Seq<u8>,
    pub serial: SerialView,
}

/// Whether the file may be saved, and the body is acceptable.
pub open spec fn is_taken(upload: UploadView) -> bool {
    server::may_be_saved(upload.name) && server::starts_with_brace(upload.body)
}

/// What the body of an upload leads to.
pub open spec fn upload_step(config: ConfigView, upload: UploadView) -> SavingView {
    server::body_step(
        config,
        upload.name,
        path::join(config.dir, vstd::utf8::encode_utf8(upload.name)),
        upload.body,
        upload.serial,
    )
}

/// The save that an upload that is taken leads to.
pub open spec fn save_of(config: ConfigView, upload: UploadView) -> SaveView {
    SaveView {
        temporary: upload_step(config, upload)->temporary,
        target: upload_step(config, upload)->target,
        contents: upload_step(config, upload)->contents,
    }
}

/// Two uploads do not share their temporary files, unless they have the same serial
/// number, and no temporary file is one that may be saved.
pub proof fn law_uploads_are_apart(config: ConfigView, upload: UploadView, other: UploadView)
    requires
        is_taken(upload),
        is_taken(other),
        upload.serial != other.serial,
    ensures
        upload_step(config, upload) is Store,
        upload_step(config, other) is Store,
        save_of(config, upload).temporary != save_of(config, other).temporary,
        forall|name: Seq<char>| #[trigger]
            server::may_be_saved(name) ==> {
                let file = path::join(config.dir, vstd::utf8::encode_utf8(name));
                save_of(config, upload).temporary != file && save_of(config, other).temporary
                    != file
            },
{
    assert forall|name: Seq<char>| #[trigger] server::may_be_saved(name) implies {
        let file = path::join(config.dir, vstd::utf8::encode_utf8(name));
        save_of(config, upload).temporary != file && save_of(config, other).temporary != file
    } by {
        law_bodies_are_saved_whole(
            config,
            upload.name,
            upload.body,
            upload.serial,
            name,
        );
        law_bodies_are_saved_whole(config, other.name, other.body, other.serial, name);
    }
    law_bodies_are_saved_whole(
        config,
        upload.name,
        upload.body,
        upload.serial,
        upload.name,
    );
    law_bodies_are_saved_whole(
        config,
        other.name,
        other.body,
        other.serial,
        other.name,
    );
    let t = server::temporary_name(upload.name, upload.serial);
    let u = server::temporary_name(other.name, other.serial);
    lemma_temporary_names_differ(
        upload.name,
        upload.serial,
        other.name,
        other.serial,
    );
    text::lemma_encode_injective(t, u);
    let names = path::names(config.dir);
    assert(names.push(vstd::utf8::encode_utf8(t)).last() == vstd::utf8::encode_utf8(t));
    assert(names.push(vstd::utf8::encode_utf8(u)).last() == vstd::utf8::encode_utf8(u));
}

/// Saving is atomic. Whatever the order in which any number of uploads do their
/// steps, and wherever they stop, a file that may be saved is as it was before, or holds all
/// of the body of one of the uploads of that file, and nothing else. The latter is so from
/// when the first of them has moved its file.
pub proof fn law_saving_is_atomic(
    config: ConfigView,
    uploads: Seq<UploadView>,
    files: Map<Seq<u8>, Seq<u8>>,
    events: Seq<(int, Event)>,
    name: Seq<char>,
)
    requires
        forall|i: int| 0 <= i < uploads.len() ==> is_taken(#[trigger] uploads[i]),
        forall|i: int, j: int|
            0 <= i < j < uploads.len() ==> (#[trigger] uploads[i]).serial != (
            #[trigger] uploads[j]).serial,
        server::may_be_saved(name),
        saving::can_run(
            uploads.map_values(|upload: UploadView| save_of(config, upload)),
            saving::before_saves(files, uploads.len()),
            events,
        ),
    ensures
        ({
            let saves = uploads.map_values(|upload: UploadView| save_of(config, upload));
            let disk = saving::run(saves, saving::before_saves(files, saves.len()), events);
            let file = path::join(config.dir, vstd::utf8::encode_utf8(name));
            ||| {
                &&& disk.files.dom().contains(file) == files.dom().contains(file)
                &&& files.dom().contains(file) ==> disk.files[file] == files[file]
                &&& forall|i: int|
                    0 <= i < uploads.len() && (#[trigger] uploads[i]).name == name
                        ==> !saving::has_moved(disk, i)
            }
            ||| exists|i: int|
                0 <= i < uploads.len() && (#[trigger] uploads[i]).name == name
                    && saving::has_moved(disk, i) && disk.files.dom().contains(file)
                    && disk.files[file] == uploads[i].body
        }),
{
    let saves = uploads.map_values(|upload: UploadView| save_of(config, upload));
    let disk = saving::run(saves, saving::before_saves(files, saves.len()), events);
    let file = path::join(config.dir, vstd::utf8::encode_utf8(name));
    assert forall|i: int| 0 <= i < saves.len() implies {
        &&& (#[trigger] saves[i]).temporary != file
        &&& saves[i].temporary != saves[i].target
        &&& saves[i].contents == uploads[i].body
        &&& saves[i].target == file <==> uploads[i].name == name
    } by {
        let upload = uploads[i];
        assert(is_taken(upload));
        law_bodies_are_saved_whole(
            config,
            upload.name,
            upload.body,
            upload.serial,
            name,
        );
        law_bodies_are_saved_whole(
            config,
            upload.name,
            upload.body,
            upload.serial,
            upload.name,
        );
        lemma_saved_name(name);
        lemma_saved_name(upload.name);
        let a = vstd::utf8::encode_utf8(name);
        let b = vstd::utf8::encode_utf8(upload.name);
        path::lemma_names_join(config.dir, a);
        path::lemma_names_join(config.dir, b);
        assert(path::names(config.dir).push(a).last() == a);
        assert(path::names(config.dir).push(b).last() == b);
        text::lemma_encode_injective(name, upload.name);
    }
    assert forall|i: int, j: int|
        0 <= i < saves.len() && 0 <= j < saves.len() && i != j implies (#[trigger] saves[i]).temporary
        != (#[trigger] saves[j]).temporary && saves[i].temporary != saves[j].target by {
        assert(is_taken(uploads[i]) && is_taken(uploads[j]));
        law_uploads_are_apart(config, uploads[i], uploads[j]);
    }
    saving::law_saves_do_not_mix(saves, files, events, file);
    if saving::is_untouched(saves, files, disk, file) {
        assert forall|i: int| 0 <= i < uploads.len() && (#[trigger] uploads[i]).name == name implies
        !saving::has_moved(disk, i) by {
            assert(saves[i].target == file);
        }
    } else {
        let i = choose|i: int| saving::is_saved(saves, disk, file, i);
        assert(saves[i].target == file);
        assert(uploads[i].name == name);
    }
}

/// The uploads of one process are saved atomically: those whose serial numbers were handed
/// out by the same counter, each by a call of its own.
pub proof fn law_uploads_of_a_process_are_atomic(
    config: ConfigView,
    serials: SerialsView,
    count: nat,
    calls: Seq<int>,
    uploads: Seq<UploadView>,
    files: Map<Seq<u8>, Seq<u8>>,
    events: Seq<(int, Event)>,
    name: Seq<char>,
)
    requires
        calls.len() == uploads.len(),
        calls.no_duplicates(),
        forall|i: int|
            0 <= i < calls.len() ==> 0 <= #[trigger] calls[i] < serial::handed_out(
                serials,
                count,
            ).len() && uploads[i].serial == serial::handed_out(serials, count)[calls[i]],
        forall|i: int| 0 <= i < uploads.len() ==> is_taken(#[trigger] uploads[i]),
        server::may_be_saved(name),
        saving::can_run(
            uploads.map_values(|upload: UploadView| save_of(config, upload)),
            saving::before_saves(files, uploads.len()),
            events,
        ),
    ensures
        ({
            let saves = uploads.map_values(|upload: UploadView| save_of(config, upload));
            let disk = saving::run(saves, saving::before_saves(files, saves.len()), events);
            let file = path::join(config.dir, vstd::utf8::encode_utf8(name));
            ||| {
                &&& disk.files.dom().contains(file) == files.dom().contains(file)
                &&& files.dom().contains(file) ==> disk.files[file] == files[file]
                &&& forall|i: int|
                    0 <= i < uploads.len() && (#[trigger] uploads[i]).name == name
                        ==> !saving::has_moved(disk, i)
            }
            ||| exists|i: int|
                0 <= i < uploads.len() && (#[trigger] uploads[i]).name == name
                    && saving::has_moved(disk, i) && disk.files.dom().contains(file)
                    && disk.files[file] == uploads[i].body
        }),
{
    assert forall|i: int, j: int| 0 <= i < j < uploads.len() implies (#[trigger] uploads[i]).serial
        != (#[trigger] uploads[j]).serial by {
        assert(calls[i] != calls[j]);
        serial::law_serials_differ(serials, count, calls[i], calls[j]);
    }
    law_saving_is_atomic(config, uploads, files, events, name);
}

proof fn lemma_status_digit(
    status: u16,
    content_type: Seq<char>,
    body: Seq<u8>,
    head_only: bool,
    extra: Seq<(Seq<char>, Seq<char>)>,
)
    ensures
        response::response(status, content_type, body, head_only, extra).len() > 9,
        response::response(status, content_type, body, head_only, extra)[9] == text::decimal(
            status as nat,
        )[0] as u8,
{
    let head = response::response_head(status, content_type, body.len(), extra);
    let number = text::decimal(status as nat);
    let start = "HTTP/1.1 "@ + number.take(1);
    text::lemma_decimal(status as nat);
    reveal_strlit("HTTP/1.1 ");
    assert(text::is_digit(number[0]));
    vstd::utf8::is_ascii_chars_encode_utf8(start);
    assert(head =~= start + head.skip(10));
    text::lemma_encode_concat(start, head.skip(10));
    assert(start[9] == number[0]);
}

/// A PUT request whose file was moved to its place is answered with the status 204, and no
/// other is.
pub proof fn law_only_saved_uploads_are_confirmed(reason: Seq<char>)
    ensures
        server::put_answer(None) == response::response(
            204,
            Seq::empty(),
            Seq::empty(),
            false,
            Seq::empty(),
        ),
        server::put_answer(Some(reason)) != server::put_answer(None),
{
    lemma_status_digit(204, Seq::empty(), Seq::empty(), false, Seq::empty());
    lemma_status_digit(
        500,
        server::PLAIN_TEXT@,
        vstd::utf8::encode_utf8("rename failed: "@ + reason),
        false,
        Seq::empty(),
    );
    reveal_with_fuel(text::decimal, 3);
    assert(text::decimal(204)[0] == '2' && text::decimal(500)[0] == '5');
}

/// The upload of a PUT request with the body `body`.
pub open spec fn put_upload(put: RequestView, body: Seq<u8>, serial: SerialView) -> UploadView {
    UploadView { name: text::trim_slashes(put.path), body, serial }
}

/// The save that a PUT request with the body `body` leads to.
pub open spec fn put_save(
    config: ConfigView,
    put: RequestView,
    body: Seq<u8>,
    serial: SerialView,
) -> SaveView {
    let next = server::put_step(config, put);
    let step = server::body_step(config, next->name, next->target, body, serial);
    SaveView {
        temporary: step->temporary,
        target: step->target,
        contents: step->contents,
    }
}

/// Two PUT requests for the same file at the same time, in one process: at every moment the
/// file is as it was before, or holds one of the two bodies, and once both are answered
/// with the status 204, it holds one of the two bodies.
pub proof fn law_two_uploads_at_once(
    config: ConfigView,
    put: RequestView,
    other: RequestView,
    a: Seq<u8>,
    b: Seq<u8>,
    serials: SerialsView,
    count: nat,
    i: int,
    j: int,
    files: Map<Seq<u8>, Seq<u8>>,
    events: Seq<(int, Event)>,
)
    requires
        server::put_step(config, put) is Receive,
        server::put_step(config, other) is Receive,
        server::put_step(config, put)->target == server::put_step(config, other)->target,
        a.len() == server::put_step(config, put)->len,
        b.len() == server::put_step(config, other)->len,
        server::starts_with_brace(a),
        server::starts_with_brace(b),
        0 <= i < serial::handed_out(serials, count).len(),
        0 <= j < serial::handed_out(serials, count).len(),
        i != j,
        saving::can_run(
            seq![
                put_save(config, put, a, serial::handed_out(serials, count)[i]),
                put_save(config, other, b, serial::handed_out(serials, count)[j]),
            ],
            saving::before_saves(files, 2),
            events,
        ),
    ensures
        ({
            let file = server::put_step(config, put)->target;
            let saves = seq![
                put_save(config, put, a, serial::handed_out(serials, count)[i]),
                put_save(config, other, b, serial::handed_out(serials, count)[j]),
            ];
            let disk = saving::run(saves, saving::before_saves(files, 2), events);
            let is_as_before = disk.files.dom().contains(file) == files.dom().contains(file) && (
            files.dom().contains(file) ==> disk.files[file] == files[file]);
            let is_a_body = disk.files.dom().contains(file) && (disk.files[file] == a
                || disk.files[file] == b);
            &&& is_as_before || is_a_body
            &&& saving::has_moved(disk, 0) && saving::has_moved(disk, 1) ==> is_a_body
        }),
{
    let first = put_upload(put, a, serial::handed_out(serials, count)[i]);
    let second = put_upload(other, b, serial::handed_out(serials, count)[j]);
    let uploads = seq![first, second];
    let saves = seq![
        put_save(config, put, a, first.serial),
        put_save(config, other, b, second.serial),
    ];
    lemma_saved_name(first.name);
    lemma_saved_name(second.name);
    let x = vstd::utf8::encode_utf8(first.name);
    let y = vstd::utf8::encode_utf8(second.name);
    path::law_plain_name_is_safe(config.dir, x);
    path::law_plain_name_is_safe(config.dir, y);
    path::lemma_names_join(config.dir, x);
    path::lemma_names_join(config.dir, y);
    assert(path::names(config.dir).push(x).last() == x);
    assert(path::names(config.dir).push(y).last() == y);
    text::lemma_encode_injective(first.name, second.name);
    assert(uploads.map_values(|upload: UploadView| save_of(config, upload)) =~= saves);
    law_uploads_of_a_process_are_atomic(
        config,
        serials,
        count,
        seq![i, j],
        uploads,
        files,
        events,
        first.name,
    );
    assert(uploads[0].name == first.name && uploads[1].name == first.name);
}

/// Only GET and HEAD requests read a file, and only one below the served directory.
pub proof fn law_files_are_served_from_below(config: ConfigView, request: RequestView)
    requires
        server::request_step(config, Some(request)) is Load,
    ensures
        server::request_step(config, Some(request)) matches NextView::Load { path, head_only } && {
            let wanted = path::names(
                vstd::utf8::encode_utf8(server::wanted_file(config.index, request.path)),
            );
            &&& request.method == if head_only {
                "HEAD"@
            } else {
                "GET"@
            }
            &&& config.dir.is_prefix_of(path)
            &&& path::names(path) == path::names(config.dir) + wanted
            &&& forall|i: int| 0 <= i < wanted.len() ==> path::is_plain(#[trigger] wanted[i])
        },
{
    path::law_safe_path_stays_below(
        config.dir,
        vstd::utf8::encode_utf8(server::wanted_file(config.index, request.path)),
    );
}

/// The body of the answer to a request for what was found.
pub open spec fn found_body(found: FoundView) -> Seq<u8> {
    match found {
        FoundView::Missing => vstd::utf8::encode_utf8("not found"@),
        FoundView::Unreadable => vstd::utf8::encode_utf8("read error"@),
        FoundView::Contents(contents) => contents,
    }
}

proof fn lemma_media_type_is_on_one_line(ext: Seq<u8>)
    ensures
        response::is_on_one_line(path::media_type(ext)),
{
    assert(response::is_on_one_line("text/html; charset=utf-8"@)) by {
        reveal_strlit("text/html; charset=utf-8");
    }
    assert(response::is_on_one_line("application/javascript; charset=utf-8"@)) by {
        reveal_strlit("application/javascript; charset=utf-8");
    }
    assert(response::is_on_one_line("text/css; charset=utf-8"@)) by {
        reveal_strlit("text/css; charset=utf-8");
    }
    assert(response::is_on_one_line("application/json; charset=utf-8"@)) by {
        reveal_strlit("application/json; charset=utf-8");
    }
    assert(response::is_on_one_line("image/svg+xml"@)) by {
        reveal_strlit("image/svg+xml");
    }
    assert(response::is_on_one_line("image/png"@)) by {
        reveal_strlit("image/png");
    }
    assert(response::is_on_one_line("image/jpeg"@)) by {
        reveal_strlit("image/jpeg");
    }
    assert(response::is_on_one_line("image/gif"@)) by {
        reveal_strlit("image/gif");
    }
    assert(response::is_on_one_line("image/webp"@)) by {
        reveal_strlit("image/webp");
    }
    assert(response::is_on_one_line("image/x-icon"@)) by {
        reveal_strlit("image/x-icon");
    }
    assert(response::is_on_one_line("text/plain; charset=utf-8"@)) by {
        reveal_strlit("text/plain; charset=utf-8");
    }
    assert(response::is_on_one_line("font/woff"@)) by {
        reveal_strlit("font/woff");
    }
    assert(response::is_on_one_line("font/woff2"@)) by {
        reveal_strlit("font/woff2");
    }
    assert(response::is_on_one_line("font/ttf"@)) by {
        reveal_strlit("font/ttf");
    }
    assert(response::is_on_one_line("font/otf"@)) by {
        reveal_strlit("font/otf");
    }
    assert(response::is_on_one_line("application/wasm"@)) by {
        reveal_strlit("application/wasm");
    }
    assert(response::is_on_one_line("application/octet-stream"@)) by {
        reveal_strlit("application/octet-stream");
    }
}

proof fn lemma_plain_text_is_on_one_line()
    ensures
        response::is_on_one_line(server::PLAIN_TEXT@),
{
    reveal_strlit("text/plain; charset=utf-8");
}

/// Whether `head` is `whole` without the body behind its head: `whole` cut off right behind
/// its first empty line.
pub open spec fn is_without_body(head: Seq<u8>, whole: Seq<u8>, body: Seq<u8>) -> bool {
    whole == head + body && head == response::cut_body(whole)
}

/// Where only the head is asked for, the answer to a request is the whole answer without
/// the body: it is cut off right behind its first empty line. That holds of a file that is
/// there, of one that is missing or cannot be read, and of a path that leads out.
pub proof fn law_head_only_cuts_the_body(
    config: ConfigView,
    request: RequestView,
    found: FoundView,
)
    ensures
        match (
            server::get_step(config, request, false),
            server::get_step(config, request, true),
        ) {
            (
                NextView::Load { path: a, head_only: x },
                NextView::Load { path: b, head_only: y },
            ) => a == b && !x && y && is_without_body(
                server::get_answer(b, y, found),
                server::get_answer(a, x, found),
                found_body(found),
            ),
            (NextView::Respond(a), NextView::Respond(b)) => is_without_body(
                b,
                a,
                vstd::utf8::encode_utf8("forbidden"@),
            ),
            _ => false,
        },
{
    let wanted = vstd::utf8::encode_utf8(server::wanted_file(config.index, request.path));
    lemma_plain_text_is_on_one_line();
    let (status, content_type, body) = match path::safe_path(config.dir, wanted) {
        Some(path) => match found {
            FoundView::Missing => (404u16, server::PLAIN_TEXT@, found_body(found)),
            FoundView::Unreadable => (500u16, server::PLAIN_TEXT@, found_body(found)),
            FoundView::Contents(contents) => {
                lemma_media_type_is_on_one_line(path::extension(path));
                (200u16, path::media_type(path::extension(path)), contents)
            },
        },
        None => (403u16, server::PLAIN_TEXT@, vstd::utf8::encode_utf8("forbidden"@)),
    };
    response::law_head_is_get_without_body(status, content_type, body, Seq::empty());
    response::law_head_is_get_cut_off(status, content_type, body, Seq::empty());
}

/// A HEAD request is answered as the GET request for the same path is, without the body:
/// the answer is cut off right behind its first empty line.
pub proof fn law_head_is_answered_like_get(
    config: ConfigView,
    get: RequestView,
    head: RequestView,
    found: FoundView,
)
    requires
        get.method == "GET"@,
        head.method == "HEAD"@,
        get.path == head.path,
    ensures
        match (
            server::request_step(config, Some(get)),
            server::request_step(config, Some(head)),
        ) {
            (
                NextView::Load { path: a, head_only: x },
                NextView::Load { path: b, head_only: y },
            ) => a == b && !x && y && is_without_body(
                server::get_answer(b, y, found),
                server::get_answer(a, x, found),
                found_body(found),
            ),
            (NextView::Respond(a), NextView::Respond(b)) => is_without_body(
                b,
                a,
                vstd::utf8::encode_utf8("forbidden"@),
            ),
            _ => false,
        },
{
    reveal_strlit("GET");
    reveal_strlit("HEAD");
    assert(get.method.len() != head.method.len());
    law_head_only_cuts_the_body(config, get, found);
}

/// A GET request for the root reads the index file of the served directory.
pub proof fn law_root_is_the_index(config: ConfigView, request: RequestView)
    requires
        request.method == "GET"@,
        request.path == "/"@,
        path::is_plain(vstd::utf8::encode_utf8(config.index)),
    ensures
        server::request_step(config, Some(request)) == (NextView::Load {
            path: path::join(config.dir, vstd::utf8::encode_utf8(config.index)),
            head_only: false,
        }),
{
    path::law_plain_name_is_safe(config.dir, vstd::utf8::encode_utf8(config.index));
}

/// Whatever the command line sets, and whatever directory is found for it, the index file
/// is a file of that directory, and so what a GET request for the root reads.
pub proof fn law_every_command_line_keeps_the_index(
    cwd: Seq<u8>,
    args: Seq<Seq<char>>,
    dir: Seq<u8>,
    request: RequestView,
)
    requires
        config::parse_arguments(config::default_config(cwd), args) is Serve,
        request.method == "GET"@,
        request.path == "/"@,
    ensures
        config::parse_arguments(config::default_config(cwd), args) matches CommandView::Serve(
            config,
        ) && config::with_directory(config, ResolvedView::Directory(dir)) matches Ok(config)
            && server::request_step(config, Some(request)) == (NextView::Load {
            path: path::join(dir, vstd::utf8::encode_utf8(config::DEFAULT_INDEX@)),
            head_only: false,
        }),
{
    let index = config::DEFAULT_INDEX@;
    config::lemma_index_is_kept(config::default_config(cwd), args);
    reveal_strlit("Flashcards.html");
    vstd::utf8::is_ascii_chars_encode_utf8(index);
    text::lemma_encode_ascii(index, '/');
    let config = config::parse_arguments(config::default_config(cwd), args)->Serve_0;
    law_root_is_the_index(ConfigView { dir, ..config }, request);
}

/// What a PUT request saves, a GET request for the same file gives back: it reads the file
/// that was saved, and sends its contents as JSON.
pub proof fn law_get_gives_back_what_put_saved(
    config: ConfigView,
    put: RequestView,
    get: RequestView,
    body: Seq<u8>,
    serial: SerialView,
)
    requires
        server::request_step(config, Some(put)) is Receive,
        body.len() == server::request_step(config, Some(put))->len,
        server::body_step(
            config,
            server::request_step(config, Some(put))->name,
            server::request_step(config, Some(put))->target,
            body,
            serial,
        ) is Store,
        get.method == "GET"@,
        text::trim_slashes(get.path) == text::trim_slashes(put.path),
    ensures
        ({
            let name = server::request_step(config, Some(put))->name;
            let target = server::request_step(config, Some(put))->target;
            match server::body_step(config, name, target, body, serial) {
                SavingView::Store { target: saved, contents, .. } => {
                    &&& server::request_step(config, Some(get)) == (NextView::Load {
                        path: saved,
                        head_only: false,
                    })
                    &&& server::get_answer(saved, false, FoundView::Contents(contents))
                        == response::response(
                        200,
                        "application/json; charset=utf-8"@,
                        body,
                        false,
                        Seq::empty(),
                    )
                },
                _ => false,
            }
        }),
{
    law_only_vocabulary_is_saved(config, put, body, serial);
    let name = text::trim_slashes(put.path);
    let bytes = vstd::utf8::encode_utf8(name);
    let saved = path::join(config.dir, bytes);
    lemma_saved_name(name);
    path::law_plain_name_is_safe(config.dir, bytes);
    assert(get.path != "/"@) by {
        reveal_strlit("/");
        text::lemma_trim_start_is("/"@, |c: char| c == '/', 1);
    }
    reveal_strlit("vocab.json");
    reveal_strlit(".vocab.json");
    reveal_strlit("json");
    vstd::utf8::is_ascii_chars_encode_utf8(name);
    vstd::utf8::is_ascii_chars_encode_utf8("json"@);
    let dot = name.len() - 5;
    text::lemma_find_last_is(bytes, 46u8, dot);
    assert(path::names(saved).last() == bytes);
    assert(path::extension(saved) =~= vstd::utf8::encode_utf8("json"@));
    lemma_json_is_json();
}

proof fn lemma_json_is_json()
    ensures
        path::media_type(vstd::utf8::encode_utf8("json"@)) == "application/json; charset=utf-8"@,
{
    reveal_strlit("html");
    reveal_strlit("htm");
    reveal_strlit("js");
    reveal_strlit("mjs");
    reveal_strlit("css");
    reveal_strlit("json");
    text::lemma_encode_injective("json"@, "html"@);
    text::lemma_encode_injective("json"@, "htm"@);
    text::lemma_encode_injective("json"@, "js"@);
    text::lemma_encode_injective("json"@, "mjs"@);
    text::lemma_encode_injective("json"@, "css"@);
    assert("json"@[0] == 'j' && "html"@[0] == 'h');
}

/// A PUT request for a vocabulary file, as a client writes it, is read and taken: the
/// bytes behind its head are the body that is saved.
pub proof fn law_written_uploads_are_taken(
    config: ConfigView,
    name: Seq<char>,
    version: Seq<char>,
    fields: Seq<(Seq<char>, Seq<char>)>,
    at: int,
    body: Seq<u8>,
)
    requires
        server::may_be_saved(name),
        !version.contains('\n'),
        forall|i: int|
            0 <= i < fields.len() ==> !(#[trigger] fields[i]).0.contains(':')
                && !fields[i].0.contains('\n') && !fields[i].1.contains('\n'),
        vstd::utf8::encode_utf8(response::field_lines(fields) + "\r\n"@).len()
            <= request::MAX_HEADER_BYTES,
        0 <= at < fields.len(),
        lookup_name(fields[at].0) == "content-length"@,
        text::trim(fields[at].1) == text::decimal(body.len()),
        forall|i: int|
            at < i < fields.len() ==> lookup_name((#[trigger] fields[i]).0) != "content-length"@,
        body.len() <= server::MAX_BODY_BYTES,
    ensures
        ({
            let read = request::read_lines(
                ProgressView::RequestLine,
                vstd::utf8::encode_utf8(
                    request_text("PUT"@, seq!['/'] + name, version, fields),
                ) + body,
            );
            &&& read.0 is Ok
            &&& read.1 == body
            &&& server::request_step(config, Some(read.0->Ok_0)) == (NextView::Receive {
                name,
                target: path::join(config.dir, vstd::utf8::encode_utf8(name)),
                len: body.len(),
            })
        }),
{
    let target = seq!['/'] + name;
    lemma_saved_name(name);
    reveal_strlit("PUT");
    assert forall|c: char| target.contains(c) implies c == '/' || name.contains(c) by {
        let i = choose|i: int| 0 <= i < target.len() && target[i] == c;
        if i > 0 {
            assert(name[i - 1] == c);
        }
    }
    law_requests_are_read_back("PUT"@, target, version, fields, body);
    text::lemma_before(target, '?');
    lemma_found_field(Map::empty(), fields, at);
    text::law_number_round_trip(body.len(), usize::MAX as nat);
    text::lemma_trim_start_is(target, |c: char| c == '/', 1);
    assert(target.skip(1) =~= name);
    let request = RequestView {
        method: "PUT"@,
        path: target,
        headers: with_fields(Map::empty(), fields),
    };
    law_vocabulary_is_taken(config, request, body.len());
}

/// A GET request for a file, as a client writes it, reads the file of that name in the
/// served directory. A query string behind the name makes no difference.
pub proof fn law_written_gets_are_served(
    config: ConfigView,
    name: Seq<char>,
    target: Seq<char>,
    version: Seq<char>,
    fields: Seq<(Seq<char>, Seq<char>)>,
    body: Seq<u8>,
)
    requires
        path::is_plain(vstd::utf8::encode_utf8(name)),
        text::before(target, '?') == seq!['/'] + name,
        !target.contains(' ') && !target.contains('\n'),
        !version.contains('\n'),
        forall|i: int|
            0 <= i < fields.len() ==> !(#[trigger] fields[i]).0.contains(':')
                && !fields[i].0.contains('\n') && !fields[i].1.contains('\n'),
        vstd::utf8::encode_utf8(response::field_lines(fields) + "\r\n"@).len()
            <= request::MAX_HEADER_BYTES,
    ensures
        ({
            let read = request::read_lines(
                ProgressView::RequestLine,
                vstd::utf8::encode_utf8(request_text("GET"@, target, version, fields)) + body,
            );
            &&& read.0 is Ok
            &&& server::request_step(config, Some(read.0->Ok_0)) == (NextView::Load {
                path: path::join(config.dir, vstd::utf8::encode_utf8(name)),
                head_only: false,
            })
        }),
{
    let asked = seq!['/'] + name;
    reveal_strlit("GET");
    reveal_strlit("/");
    law_requests_are_read_back("GET"@, target, version, fields, body);
    text::lemma_encode_ascii(name, '/');
    assert(name.len() > 0) by {
        if name.len() == 0 {
            assert(vstd::utf8::encode_utf8(name).len() == 0);
        }
    }
    assert(name.contains(name[0]));
    assert(asked.len() != "/"@.len());
    text::lemma_trim_start_is(asked, |c: char| c == '/', 1);
    assert(asked.skip(1) =~= name);
    path::law_plain_name_is_safe(config.dir, vstd::utf8::encode_utf8(name));
}

} // verus!
