//! Writing responses.

use vstd::prelude::*;
use vstd::string::*;

use crate::text;

verus! {

/// The reason phrase of a status code.
pub open spec fn reason(code: u16) -> Seq<char> {
    match code {
        200 => "OK"@,
        204 => "No Content"@,
        400 => "Bad Request"@,
        403 => "Forbidden"@,
        404 => "Not Found"@,
        405 => "Method Not Allowed"@,
        411 => "Length Required"@,
        413 => "Payload Too Large"@,
        500 => "Internal Server Error"@,
        _ => "OK"@,
    }
}

/// The reason phrase of a status code.
pub fn status_reason(code: u16) -> (r: &'static str)
    ensures
        r@ == reason(code),
{
    match code {
        200 => "OK",
        204 => "No Content",
        400 => "Bad Request",
        403 => "Forbidden",
        404 => "Not Found",
        405 => "Method Not Allowed",
        411 => "Length Required",
        413 => "Payload Too Large",
        500 => "Internal Server Error",
        _ => "OK",
    }
}

/// The line of a header field.
pub open spec fn field_line(name: Seq<char>, value: Seq<char>) -> Seq<char> {
    name + ": "@ + value + "\r\n"@
}

/// The lines of header fields, in order.
pub open spec fn field_lines(fields: Seq<(Seq<char>, Seq<char>)>) -> Seq<char>
    decreases fields.len(),
{
    if fields.len() == 0 {
        Seq::empty()
    } else {
        field_lines(fields.drop_last()) + field_line(fields.last().0, fields.last().1)
    }
}

/// The status line of a response.
pub open spec fn status_line(status: u16) -> Seq<char> {
    "HTTP/1.1 "@ + text::decimal(status as nat) + " "@ + reason(status) + "\r\n"@
}

/// The header fields of every response, for a body of `length` bytes. An empty content
/// type stands for none.
pub open spec fn response_fields(
    content_type: Seq<char>,
    length: nat,
    extra: Seq<(Seq<char>, Seq<char>)>,
) -> Seq<(Seq<char>, Seq<char>)> {
    seq![
        ("Server"@, "kanaweb-server"@),
        ("Connection"@, "close"@),
        ("Cache-Control"@, "no-store"@),
    ] + (if content_type.len() == 0 {
        Seq::empty()
    } else {
        seq![("Content-Type"@, content_type)]
    }) + seq![("Content-Length"@, text::decimal(length))] + extra
}

/// The head of a response, up to the empty line that ends it.
pub open spec fn response_head(
    status: u16,
    content_type: Seq<char>,
    length: nat,
    extra: Seq<(Seq<char>, Seq<char>)>,
) -> Seq<char> {
    status_line(status) + field_lines(response_fields(content_type, length, extra)) + "\r\n"@
}

/// The bytes of a response. The answer to a HEAD request has no body.
pub open spec fn response(
    status: u16,
    content_type: Seq<char>,
    body: Seq<u8>,
    head_only: bool,
    extra: Seq<(Seq<char>, Seq<char>)>,
) -> Seq<u8> {
    vstd::utf8::encode_utf8(response_head(status, content_type, body.len(), extra)) + (
    if head_only {
        Seq::empty()
    } else {
        body
    })
}

/// The names and values that pairs of strings hold.
pub open spec fn pairs(extra: Seq<(&str, &str)>) -> Seq<(Seq<char>, Seq<char>)> {
    extra.map_values(|pair: (&str, &str)| (pair.0@, pair.1@))
}

/// Appends the line of a header field to `head`.
fn push_field(
    head: &mut String,
    name: &str,
    value: &str,
    Ghost(start): Ghost<Seq<char>>,
    Ghost(fields): Ghost<Seq<(Seq<char>, Seq<char>)>>,
)
    requires
        old(head)@ == start + field_lines(fields),
    ensures
        final(head)@ == start + field_lines(fields.push((name@, value@))),
{
    head.append(name);
    head.append(": ");
    head.append(value);
    head.append("\r\n");
    proof {
        let all = fields.push((name@, value@));
        assert(all.drop_last() =~= fields);
        assert(head@ =~= start + field_lines(all));
    }
}

/// Appends a response with the header fields `extra` to `w`.
pub fn write_response_ex(
    w: &mut Vec<u8>,
    status: u16,
    content_type: &str,
    body: &[u8],
    head_only: bool,
    extra: &[(&str, &str)],
)
    ensures
        final(w)@ == old(w)@ + response(status, content_type@, body@, head_only, pairs(extra@)),
{
    let mut head: String = String::new();
    head.append("HTTP/1.1 ");
    head.append(text::write_number(status as u64).as_str());
    head.append(" ");
    head.append(status_reason(status));
    head.append("\r\n");
    let ghost start = status_line(status);
    let ghost mut fields: Seq<(Seq<char>, Seq<char>)> = Seq::empty();
    proof {
        assert(head@ =~= start + field_lines(fields));
    }
    push_field(&mut head, "Server", "kanaweb-server", Ghost(start), Ghost(fields));
    proof {
        fields = fields.push(("Server"@, "kanaweb-server"@));
    }
    push_field(&mut head, "Connection", "close", Ghost(start), Ghost(fields));
    proof {
        fields = fields.push(("Connection"@, "close"@));
    }
    push_field(&mut head, "Cache-Control", "no-store", Ghost(start), Ghost(fields));
    proof {
        fields = fields.push(("Cache-Control"@, "no-store"@));
    }
    if !content_type.is_empty() {
        push_field(&mut head, "Content-Type", content_type, Ghost(start), Ghost(fields));
        proof {
            fields = fields.push(("Content-Type"@, content_type@));
        }
    }
    let length: String = text::write_number(body.len() as u64);
    push_field(&mut head, "Content-Length", length.as_str(), Ghost(start), Ghost(fields));
    let ghost own = fields.push(("Content-Length"@, length@));
    let ghost all = pairs(extra@);
    proof {
        assert(own + all.take(0) =~= own);
    }
    let mut i: usize = 0;
    while i < extra.len()
        invariant
            i <= extra@.len(),
            all == pairs(extra@),
            head@ == start + field_lines(own + all.take(i as int)),
        decreases extra@.len() - i,
    {
        push_field(&mut head, extra[i].0, extra[i].1, Ghost(start), Ghost(own + all.take(i as int)));
        proof {
            assert((own + all.take(i as int)).push(all[i as int]) =~= own + all.take(i + 1));
        }
        i = i + 1;
    }
    head.append("\r\n");
    proof {
        assert(own + all.take(all.len() as int) =~= response_fields(
            content_type@,
            body@.len(),
            all,
        ));
    }
    w.extend_from_slice(head.as_str().as_bytes());
    if !head_only {
        w.extend_from_slice(body);
    }
    proof {
        assert(w@ =~= old(w)@ + response(status, content_type@, body@, head_only, all));
    }
}

/// Appends a response to `w`.
pub fn write_response(
    w: &mut Vec<u8>,
    status: u16,
    content_type: &str,
    body: &[u8],
    head_only: bool,
)
    ensures
        final(w)@ == old(w)@ + response(status, content_type@, body@, head_only, Seq::empty()),
{
    write_response_ex(w, status, content_type, body, head_only, &[]);
    proof {
        let none: [(&str, &str); 0] = [];
        assert(pairs(none@) =~= Seq::empty());
    }
}

/// The answer to a HEAD request is the answer to the GET request, without its body.
pub proof fn law_head_is_get_without_body(
    status: u16,
    content_type: Seq<char>,
    body: Seq<u8>,
    extra: Seq<(Seq<char>, Seq<char>)>,
)
    ensures
        response(status, content_type, body, false, extra) == response(
            status,
            content_type,
            body,
            true,
            extra,
        ) + body,
{
    let head = vstd::utf8::encode_utf8(response_head(status, content_type, body.len(), extra));
    assert(head + body =~= (head + Seq::empty()) + body);
}

/// The number of bytes up to the end of the first empty line, or of all where there is no
/// empty line.
pub open spec fn head_len(bytes: Seq<u8>) -> nat
    decreases bytes.len(),
{
    if bytes.len() < 4 {
        bytes.len()
    } else if bytes.take(4) == seq![13u8, 10, 13, 10] {
        4
    } else {
        1 + head_len(bytes.skip(1))
    }
}

/// `bytes` cut off right behind the first empty line.
pub open spec fn cut_body(bytes: Seq<u8>) -> Seq<u8> {
    bytes.take(head_len(bytes) as int)
}

/// Whether `s` stays on one line.
pub open spec fn is_on_one_line(s: Seq<char>) -> bool {
    !s.contains('\r') && !s.contains('\n')
}

/// Whether the names and values of all fields stay on one line each.
pub open spec fn are_on_one_line(fields: Seq<(Seq<char>, Seq<char>)>) -> bool {
    forall|i: int|
        0 <= i < fields.len() ==> is_on_one_line((#[trigger] fields[i]).0) && is_on_one_line(
            fields[i].1,
        )
}

/// Whether `bytes` are lines of which none is empty.
spec fn are_full_lines(bytes: Seq<u8>) -> bool {
    &&& bytes.len() >= 2
    &&& bytes[0] != 13
    &&& bytes[bytes.len() - 2] == 13
    &&& bytes.last() == 10
    &&& forall|k: int, l: int|
        0 <= k && l == k + 1 && l < bytes.len() && #[trigger] bytes[k] == 10
            ==> #[trigger] bytes[l] != 13
}

proof fn lemma_head_len(bytes: Seq<u8>, n: int)
    requires
        0 <= n <= bytes.len() - 4,
        bytes.subrange(n, n + 4) == seq![13u8, 10, 13, 10],
        forall|k: int, l: int|
            0 <= k <= n && l == k + 1 && #[trigger] bytes[k] == 10 ==> #[trigger] bytes[l] != 13,
    ensures
        head_len(bytes) == n + 4,
    decreases n,
{
    if n == 0 {
        assert(bytes.take(4) =~= bytes.subrange(0, 4));
    } else {
        let rest = bytes.skip(1);
        assert(bytes.take(4) != seq![13u8, 10, 13, 10]) by {
            assert(bytes.take(4)[1] == bytes[1] && bytes.take(4)[2] == bytes[2]);
            assert(seq![13u8, 10, 13, 10][1] == 10 && seq![13u8, 10, 13, 10][2] == 13);
        }
        assert(rest.subrange(n - 1, n + 3) =~= bytes.subrange(n, n + 4));
        assert forall|k: int, l: int|
            0 <= k <= n - 1 && l == k + 1 && #[trigger] rest[k] == 10 implies #[trigger] rest[l]
            != 13 by {
            assert(rest[k] == bytes[k + 1] && rest[l] == bytes[l + 1]);
        }
        lemma_head_len(rest, n - 1);
    }
}

proof fn lemma_full_lines_end(lines: Seq<u8>, body: Seq<u8>)
    requires
        are_full_lines(lines),
    ensures
        head_len(lines + seq![13u8, 10] + body) == lines.len() + 2,
{
    let bytes = lines + seq![13u8, 10] + body;
    let n = lines.len() - 2;
    assert(bytes.subrange(n, n + 4) =~= seq![13u8, 10, 13, 10]);
    assert forall|k: int, l: int|
        0 <= k <= n && l == k + 1 && #[trigger] bytes[k] == 10 implies #[trigger] bytes[l] != 13 by {
        assert(bytes[k] == lines[k] && bytes[l] == lines[l]);
    }
    lemma_head_len(bytes, n);
}

proof fn lemma_full_line(line: Seq<char>)
    requires
        is_on_one_line(line),
        line.len() > 0,
    ensures
        are_full_lines(vstd::utf8::encode_utf8(line + "\r\n"@)),
{
    let text = vstd::utf8::encode_utf8(line);
    let bytes = vstd::utf8::encode_utf8(line + "\r\n"@);
    reveal_strlit("\r\n");
    vstd::utf8::is_ascii_chars_encode_utf8("\r\n"@);
    assert(vstd::utf8::encode_utf8("\r\n"@) =~= seq![13u8, 10]);
    text::lemma_encode_concat(line, "\r\n"@);
    assert(bytes == text + seq![13u8, 10]);
    text::lemma_encode_ascii(line, '\r');
    text::lemma_encode_ascii(line, '\n');
    text::lemma_encode_injective(line, Seq::empty());
    assert(text.len() > 0) by {
        if text.len() == 0 {
            assert(text =~= vstd::utf8::encode_utf8(Seq::<char>::empty()));
        }
    }
    assert forall|i: int| 0 <= i < text.len() implies #[trigger] text[i] != 10 && text[i] != 13 by {
        assert(text.contains(text[i]));
    }
}

proof fn lemma_full_lines_concat(a: Seq<u8>, b: Seq<u8>)
    requires
        are_full_lines(a),
        are_full_lines(b),
    ensures
        are_full_lines(a + b),
{
    let bytes = a + b;
    assert forall|k: int, l: int|
        0 <= k && l == k + 1 && l < bytes.len() && #[trigger] bytes[k] == 10 implies #[trigger] bytes[l]
        != 13 by {
        if l < a.len() {
            assert(a[k] == 10 && a[l] == bytes[l]);
        } else if k >= a.len() {
            assert(b[k - a.len()] == 10 && b[l - a.len()] == bytes[l]);
        }
    }
}

proof fn lemma_full_field_lines(start: Seq<char>, fields: Seq<(Seq<char>, Seq<char>)>)
    requires
        are_full_lines(vstd::utf8::encode_utf8(start)),
        are_on_one_line(fields),
    ensures
        are_full_lines(vstd::utf8::encode_utf8(start + field_lines(fields))),
    decreases fields.len(),
{
    if fields.len() == 0 {
        assert(start + field_lines(fields) =~= start);
    } else {
        let (name, value) = fields.last();
        let line = name + ": "@ + value;
        let front = start + field_lines(fields.drop_last());
        lemma_full_field_lines(start, fields.drop_last());
        assert(is_on_one_line(fields[fields.len() - 1].0));
        reveal_strlit(": ");
        assert forall|c: char| line.contains(c) implies name.contains(c) || value.contains(c) || c
            == ':' || c == ' ' by {
            let i = choose|i: int| 0 <= i < line.len() && line[i] == c;
            let n = name.len() as int;
            if i < n {
                assert(name[i] == c);
            } else if i >= n + 2 {
                assert(value[i - n - 2] == c);
            }
        }
        lemma_full_line(line);
        text::lemma_encode_concat(front, line + "\r\n"@);
        lemma_full_lines_concat(
            vstd::utf8::encode_utf8(front),
            vstd::utf8::encode_utf8(line + "\r\n"@),
        );
        assert(start + field_lines(fields) =~= front + (line + "\r\n"@));
    }
}

proof fn lemma_full_status_line(status: u16)
    ensures
        are_full_lines(vstd::utf8::encode_utf8(status_line(status))),
{
    let number = text::decimal(status as nat);
    let words = reason(status);
    let line = "HTTP/1.1 "@ + number + " "@ + words;
    text::lemma_decimal(status as nat);
    reveal_strlit("HTTP/1.1 ");
    reveal_strlit(" ");
    assert(is_on_one_line("OK"@)) by {
        reveal_strlit("OK");
    }
    assert(is_on_one_line("No Content"@)) by {
        reveal_strlit("No Content");
    }
    assert(is_on_one_line("Bad Request"@)) by {
        reveal_strlit("Bad Request");
    }
    assert(is_on_one_line("Forbidden"@)) by {
        reveal_strlit("Forbidden");
    }
    assert(is_on_one_line("Not Found"@)) by {
        reveal_strlit("Not Found");
    }
    assert(is_on_one_line("Method Not Allowed"@)) by {
        reveal_strlit("Method Not Allowed");
    }
    assert(is_on_one_line("Length Required"@)) by {
        reveal_strlit("Length Required");
    }
    assert(is_on_one_line("Payload Too Large"@)) by {
        reveal_strlit("Payload Too Large");
    }
    assert(is_on_one_line("Internal Server Error"@)) by {
        reveal_strlit("Internal Server Error");
    }
    assert forall|c: char| line.contains(c) implies c != '\r' && c != '\n' by {
        let i = choose|i: int| 0 <= i < line.len() && line[i] == c;
        let n = number.len() as int;
        if 9 <= i < 9 + n {
            assert(text::is_digit(number[i - 9]));
        } else if i >= 10 + n {
            assert(words[i - 10 - n] == c);
        }
    }
    lemma_full_line(line);
}

/// The answer to a HEAD request is the answer to the GET request, cut off right behind its
/// first empty line, where the content type and the fields stay on one line each.
pub proof fn law_head_is_get_cut_off(
    status: u16,
    content_type: Seq<char>,
    body: Seq<u8>,
    extra: Seq<(Seq<char>, Seq<char>)>,
)
    requires
        is_on_one_line(content_type),
        are_on_one_line(extra),
    ensures
        response(status, content_type, body, true, extra) == cut_body(
            response(status, content_type, body, false, extra),
        ),
{
    let fields = response_fields(content_type, body.len(), extra);
    let lines = status_line(status) + field_lines(fields);
    let bytes = vstd::utf8::encode_utf8(lines);
    let number = text::decimal(body.len());
    text::lemma_decimal(body.len());
    assert(is_on_one_line(number)) by {
        if number.contains('\r') {
            let i = choose|i: int| 0 <= i < number.len() && number[i] == '\r';
            assert(text::is_digit(number[i]));
        }
        if number.contains('\n') {
            let i = choose|i: int| 0 <= i < number.len() && number[i] == '\n';
            assert(text::is_digit(number[i]));
        }
    }
    reveal_strlit("Server");
    reveal_strlit("kanaweb-server");
    reveal_strlit("Connection");
    reveal_strlit("close");
    reveal_strlit("Cache-Control");
    reveal_strlit("no-store");
    reveal_strlit("Content-Type");
    reveal_strlit("Content-Length");
    assert forall|i: int| 0 <= i < fields.len() implies is_on_one_line((#[trigger] fields[i]).0)
        && is_on_one_line(fields[i].1) by {
        let own = fields.len() - extra.len();
        if i >= own {
            assert(fields[i] == extra[i - own]);
        }
    }
    lemma_full_status_line(status);
    lemma_full_field_lines(status_line(status), fields);
    lemma_full_lines_end(bytes, body);
    reveal_strlit("\r\n");
    vstd::utf8::is_ascii_chars_encode_utf8("\r\n"@);
    assert(vstd::utf8::encode_utf8("\r\n"@) =~= seq![13u8, 10]);
    text::lemma_encode_concat(lines, "\r\n"@);
    let whole = bytes + seq![13u8, 10] + body;
    assert(response(status, content_type, body, false, extra) =~= whole);
    assert(response(status, content_type, body, true, extra) =~= whole.take(
        bytes.len() as int + 2,
    ));
}

/// The reason phrases of the status codes that the server sends; every other code has the
/// one of success.
pub proof fn law_reasons(code: u16)
    ensures
        code == 200 ==> reason(code) == "OK"@,
        code == 204 ==> reason(code) == "No Content"@,
        code == 400 ==> reason(code) == "Bad Request"@,
        code == 403 ==> reason(code) == "Forbidden"@,
        code == 404 ==> reason(code) == "Not Found"@,
        code == 405 ==> reason(code) == "Method Not Allowed"@,
        code == 411 ==> reason(code) == "Length Required"@,
        code == 413 ==> reason(code) == "Payload Too Large"@,
        code == 500 ==> reason(code) == "Internal Server Error"@,
        code != 200 && code != 204 && code != 400 && code != 403 && code != 404
            && code != 405 && code != 411 && code != 413 && code != 500 ==> reason(code) == "OK"@,
{
}

proof fn lemma_own_lines()
    ensures
        field_line("Server"@, "kanaweb-server"@) == "Server: kanaweb-server\r\n"@,
        field_line("Connection"@, "close"@) == "Connection: close\r\n"@,
        field_line("Cache-Control"@, "no-store"@) == "Cache-Control: no-store\r\n"@,
{
    reveal_strlit(": ");
    reveal_strlit("\r\n");
    assert(field_line("Server"@, "kanaweb-server"@) =~= "Server: kanaweb-server\r\n"@) by {
        reveal_strlit("Server");
        reveal_strlit("kanaweb-server");
        reveal_strlit("Server: kanaweb-server\r\n");
    }
    assert(field_line("Connection"@, "close"@) =~= "Connection: close\r\n"@) by {
        reveal_strlit("Connection");
        reveal_strlit("close");
        reveal_strlit("Connection: close\r\n");
    }
    assert(field_line("Cache-Control"@, "no-store"@) =~= "Cache-Control: no-store\r\n"@) by {
        reveal_strlit("Cache-Control");
        reveal_strlit("no-store");
        reveal_strlit("Cache-Control: no-store\r\n");
    }
}

proof fn lemma_field_lines_flat(fields: Seq<(Seq<char>, Seq<char>)>)
    ensures
        field_lines(fields) == fields.map_values(
            |field: (Seq<char>, Seq<char>)| field.0 + ": "@ + field.1 + "\r\n"@,
        ).flatten(),
    decreases fields.len(),
{
    let f = |field: (Seq<char>, Seq<char>)| field.0 + ": "@ + field.1 + "\r\n"@;
    let lines = fields.map_values(f);
    if fields.len() > 0 {
        lemma_field_lines_flat(fields.drop_last());
        assert(lines.drop_last() =~= fields.drop_last().map_values(f));
        text::lemma_flatten_last(lines);
    }
}

proof fn lemma_field_lines_concat(
    a: Seq<(Seq<char>, Seq<char>)>,
    b: Seq<(Seq<char>, Seq<char>)>,
)
    ensures
        field_lines(a + b) == field_lines(a) + field_lines(b),
    decreases b.len(),
{
    if b.len() == 0 {
        assert(a + b =~= a);
        assert(field_lines(a) + field_lines(b) =~= field_lines(a));
    } else {
        lemma_field_lines_concat(a, b.drop_last());
        assert((a + b).drop_last() =~= a + b.drop_last());
        assert(field_lines(a + b) =~= field_lines(a) + field_lines(b));
    }
}

proof fn lemma_one_field_line(name: Seq<char>, value: Seq<char>)
    ensures
        field_lines(seq![(name, value)]) == field_line(name, value),
{
    let fields = seq![(name, value)];
    reveal_with_fuel(field_lines, 2);
    assert(fields.drop_last() =~= Seq::empty());
    assert(field_lines(fields) =~= field_line(name, value));
}

proof fn lemma_own_field_lines()
    ensures
        field_lines(
            seq![
                ("Server"@, "kanaweb-server"@),
                ("Connection"@, "close"@),
                ("Cache-Control"@, "no-store"@),
            ],
        ) == "Server: kanaweb-server\r\n"@ + "Connection: close\r\n"@
            + "Cache-Control: no-store\r\n"@,
{
    let a = seq![("Server"@, "kanaweb-server"@)];
    let b = seq![("Connection"@, "close"@)];
    let c = seq![("Cache-Control"@, "no-store"@)];
    lemma_own_lines();
    lemma_one_field_line("Server"@, "kanaweb-server"@);
    lemma_one_field_line("Connection"@, "close"@);
    lemma_one_field_line("Cache-Control"@, "no-store"@);
    lemma_field_lines_concat(a, b);
    lemma_field_lines_concat(a + b, c);
    assert(a + b + c =~= seq![
        ("Server"@, "kanaweb-server"@),
        ("Connection"@, "close"@),
        ("Cache-Control"@, "no-store"@),
    ]);
}

proof fn lemma_body_field_lines(content_type: Seq<char>, length: nat)
    ensures
        field_lines(seq![("Content-Type"@, content_type)]) == "Content-Type: "@ + content_type
            + "\r\n"@,
        field_lines(seq![("Content-Length"@, text::decimal(length))]) == "Content-Length: "@
            + text::decimal(length) + "\r\n"@,
{
    lemma_one_field_line("Content-Type"@, content_type);
    lemma_one_field_line("Content-Length"@, text::decimal(length));
    reveal_strlit(": ");
    assert("Content-Type"@ + ": "@ =~= "Content-Type: "@) by {
        reveal_strlit("Content-Type");
        reveal_strlit("Content-Type: ");
    }
    assert("Content-Length"@ + ": "@ =~= "Content-Length: "@) by {
        reveal_strlit("Content-Length");
        reveal_strlit("Content-Length: ");
    }
}

/// A response is a status line, the fields that every response has, the content type where
/// there is one, the length of the body, the further fields, and an empty line. The body
/// follows, unless only the head is asked for.
pub proof fn law_responses(
    status: u16,
    content_type: Seq<char>,
    body: Seq<u8>,
    head_only: bool,
    extra: Seq<(Seq<char>, Seq<char>)>,
)
    ensures
        response(status, content_type, body, head_only, extra) == vstd::utf8::encode_utf8(
            "HTTP/1.1 "@ + text::decimal(status as nat) + " "@ + reason(status) + "\r\n"@ + (
            "Server: kanaweb-server\r\n"@ + "Connection: close\r\n"@
                + "Cache-Control: no-store\r\n"@) + (if content_type.len() == 0 {
                Seq::empty()
            } else {
                "Content-Type: "@ + content_type + "\r\n"@
            }) + ("Content-Length: "@ + text::decimal(body.len()) + "\r\n"@) + extra.map_values(
                |field: (Seq<char>, Seq<char>)| field.0 + ": "@ + field.1 + "\r\n"@,
            ).flatten() + "\r\n"@,
        ) + if head_only {
            Seq::empty()
        } else {
            body
        },
{
    let own = seq![
        ("Server"@, "kanaweb-server"@),
        ("Connection"@, "close"@),
        ("Cache-Control"@, "no-store"@),
    ];
    let kinds = if content_type.len() == 0 {
        Seq::<(Seq<char>, Seq<char>)>::empty()
    } else {
        seq![("Content-Type"@, content_type)]
    };
    let lengths = seq![("Content-Length"@, text::decimal(body.len()))];
    lemma_own_field_lines();
    lemma_body_field_lines(content_type, body.len());
    lemma_field_lines_flat(extra);
    lemma_field_lines_concat(own + kinds + lengths, extra);
    lemma_field_lines_concat(own + kinds, lengths);
    lemma_field_lines_concat(own, kinds);
    let (a, b, c, d) = (
        field_lines(own),
        field_lines(kinds),
        field_lines(lengths),
        field_lines(extra),
    );
    let first = status_line(status);
    assert(first + (a + b + c + d) + "\r\n"@ =~= first + a + b + c + d + "\r\n"@);
}

proof fn lemma_status_line_of(status: u16)
    ensures
        status == 200 ==> status_line(status) == "HTTP/1.1 200 OK\r\n"@,
        status == 204 ==> status_line(status) == "HTTP/1.1 204 No Content\r\n"@,
        status == 400 ==> status_line(status) == "HTTP/1.1 400 Bad Request\r\n"@,
        status == 403 ==> status_line(status) == "HTTP/1.1 403 Forbidden\r\n"@,
        status == 404 ==> status_line(status) == "HTTP/1.1 404 Not Found\r\n"@,
        status == 405 ==> status_line(status) == "HTTP/1.1 405 Method Not Allowed\r\n"@,
        status == 411 ==> status_line(status) == "HTTP/1.1 411 Length Required\r\n"@,
        status == 413 ==> status_line(status) == "HTTP/1.1 413 Payload Too Large\r\n"@,
        status == 500 ==> status_line(status) == "HTTP/1.1 500 Internal Server Error\r\n"@,
{
    reveal_strlit("HTTP/1.1 ");
    reveal_strlit(" ");
    reveal_strlit("\r\n");
    reveal_with_fuel(text::decimal, 3);
    assert(status == 200 ==> status_line(status) =~= "HTTP/1.1 200 OK\r\n"@) by {
        reveal_strlit("OK");
        reveal_strlit("HTTP/1.1 200 OK\r\n");
        assert(text::decimal(200) =~= seq!['2', '0', '0']);
    }
    assert(status == 204 ==> status_line(status) =~= "HTTP/1.1 204 No Content\r\n"@) by {
        reveal_strlit("No Content");
        reveal_strlit("HTTP/1.1 204 No Content\r\n");
        assert(text::decimal(204) =~= seq!['2', '0', '4']);
    }
    assert(status == 400 ==> status_line(status) =~= "HTTP/1.1 400 Bad Request\r\n"@) by {
        reveal_strlit("Bad Request");
        reveal_strlit("HTTP/1.1 400 Bad Request\r\n");
        assert(text::decimal(400) =~= seq!['4', '0', '0']);
    }
    assert(status == 403 ==> status_line(status) =~= "HTTP/1.1 403 Forbidden\r\n"@) by {
        reveal_strlit("Forbidden");
        reveal_strlit("HTTP/1.1 403 Forbidden\r\n");
        assert(text::decimal(403) =~= seq!['4', '0', '3']);
    }
    assert(status == 404 ==> status_line(status) =~= "HTTP/1.1 404 Not Found\r\n"@) by {
        reveal_strlit("Not Found");
        reveal_strlit("HTTP/1.1 404 Not Found\r\n");
        assert(text::decimal(404) =~= seq!['4', '0', '4']);
    }
    assert(status == 405 ==> status_line(status) =~= "HTTP/1.1 405 Method Not Allowed\r\n"@) by {
        reveal_strlit("Method Not Allowed");
        reveal_strlit("HTTP/1.1 405 Method Not Allowed\r\n");
        assert(text::decimal(405) =~= seq!['4', '0', '5']);
    }
    assert(status == 411 ==> status_line(status) =~= "HTTP/1.1 411 Length Required\r\n"@) by {
        reveal_strlit("Length Required");
        reveal_strlit("HTTP/1.1 411 Length Required\r\n");
        assert(text::decimal(411) =~= seq!['4', '1', '1']);
    }
    assert(status == 413 ==> status_line(status) =~= "HTTP/1.1 413 Payload Too Large\r\n"@) by {
        reveal_strlit("Payload Too Large");
        reveal_strlit("HTTP/1.1 413 Payload Too Large\r\n");
        assert(text::decimal(413) =~= seq!['4', '1', '3']);
    }
    assert(status == 500 ==> status_line(status) =~= "HTTP/1.1 500 Internal Server Error\r\n"@) by {
        reveal_strlit("Internal Server Error");
        reveal_strlit("HTTP/1.1 500 Internal Server Error\r\n");
        assert(text::decimal(500) =~= seq!['5', '0', '0']);
    }
}

/// A response begins with the status line of its status code.
pub proof fn law_status_lines(
    status: u16,
    content_type: Seq<char>,
    body: Seq<u8>,
    head_only: bool,
    extra: Seq<(Seq<char>, Seq<char>)>,
)
    ensures
        status == 200 ==> vstd::utf8::encode_utf8("HTTP/1.1 200 OK\r\n"@).is_prefix_of(
            response(status, content_type, body, head_only, extra),
        ),
        status == 204 ==> vstd::utf8::encode_utf8("HTTP/1.1 204 No Content\r\n"@).is_prefix_of(
            response(status, content_type, body, head_only, extra),
        ),
        status == 400 ==> vstd::utf8::encode_utf8("HTTP/1.1 400 Bad Request\r\n"@).is_prefix_of(
            response(status, content_type, body, head_only, extra),
        ),
        status == 403 ==> vstd::utf8::encode_utf8("HTTP/1.1 403 Forbidden\r\n"@).is_prefix_of(
            response(status, content_type, body, head_only, extra),
        ),
        status == 404 ==> vstd::utf8::encode_utf8("HTTP/1.1 404 Not Found\r\n"@).is_prefix_of(
            response(status, content_type, body, head_only, extra),
        ),
        status == 405 ==> vstd::utf8::encode_utf8("HTTP/1.1 405 Method Not Allowed\r\n"@).is_prefix_of(
            response(status, content_type, body, head_only, extra),
        ),
        status == 411 ==> vstd::utf8::encode_utf8("HTTP/1.1 411 Length Required\r\n"@).is_prefix_of(
            response(status, content_type, body, head_only, extra),
        ),
        status == 413 ==> vstd::utf8::encode_utf8("HTTP/1.1 413 Payload Too Large\r\n"@).is_prefix_of(
            response(status, content_type, body, head_only, extra),
        ),
        status == 500 ==> vstd::utf8::encode_utf8("HTTP/1.1 500 Internal Server Error\r\n"@).is_prefix_of(
            response(status, content_type, body, head_only, extra),
        ),
{
    let head = response_head(status, content_type, body.len(), extra);
    let first = status_line(status);
    let rest = field_lines(response_fields(content_type, body.len(), extra)) + "\r\n"@;
    lemma_status_line_of(status);
    assert(head =~= first + rest);
    text::lemma_encode_concat(first, rest);
    let bytes = vstd::utf8::encode_utf8(first);
    let all = response(status, content_type, body, head_only, extra);
    assert(bytes =~= all.subrange(0, bytes.len() as int));
}

/// Pairs of strings stand for the texts that they hold.
pub proof fn law_pairs_are_seen(extra: Seq<(&str, &str)>, i: int)
    requires
        0 <= i < extra.len(),
    ensures
        pairs(extra).len() == extra.len(),
        pairs(extra)[i] == (extra[i].0@, extra[i].1@),
{
}

} // verus!
