//! Reading the head of a request: the request line and the header fields.

use vstd::prelude::*;
use vstd::slice::slice_subrange;

use crate::headers::Headers;
use crate::text;

verus! {

/// The most bytes that the header lines of a request may have.
pub const MAX_HEADER_BYTES: usize = 16384;

/// The head of a request.
#[derive(Debug)]
pub struct Request {
    pub method: String,
    /// The path that was asked for, without its query string.
    pub path: String,
    pub headers: Headers,
}

/// What a request asks for.
pub struct RequestView {
    pub method: Seq<char>,
    pub path: Seq<char>,
    pub headers: Map<Seq<char>, Seq<char>>,
}

impl View for Request {
    type V = RequestView;

    open spec fn view(&self) -> RequestView {
        RequestView { method: self.method@, path: self.path@, headers: self.headers@ }
    }
}

/// Why the head of a request could not be read.
#[derive(Debug, Clone, Copy, PartialEq, Eq, Structural)]
pub enum RequestError {
    /// The input ended before the request line.
    Empty,
    /// The request line holds no path.
    NoPath,
    /// The header lines hold more than `MAX_HEADER_BYTES`.
    HeadersTooLarge,
    /// A line is not valid UTF-8.
    NotUtf8,
}

/// The message that describes `error`.
pub open spec fn error_message(error: RequestError) -> Seq<char> {
    match error {
        RequestError::Empty => "empty request"@,
        RequestError::NoPath => "no path"@,
        RequestError::HeadersTooLarge => "headers too large"@,
        RequestError::NotUtf8 => "stream did not contain valid UTF-8"@,
    }
}

impl RequestError {
    /// The message that describes the error.
    pub fn message(&self) -> (r: &'static str)
        ensures
            r@ == error_message(*self),
    {
        match self {
            RequestError::Empty => "empty request",
            RequestError::NoPath => "no path",
            RequestError::HeadersTooLarge => "headers too large",
            RequestError::NotUtf8 => "stream did not contain valid UTF-8",
        }
    }
}

/// How far the reading of a head has come.
#[derive(Debug)]
pub enum Progress {
    /// The request line comes next.
    RequestLine,
    /// A header line comes next, behind header lines of `total` bytes.
    Fields { request: Request, total: usize },
}

/// How far the reading of a head has come.
pub enum ProgressView {
    RequestLine,
    Fields { request: RequestView, total: int },
}

impl View for Progress {
    type V = ProgressView;

    open spec fn view(&self) -> ProgressView {
        match self {
            Progress::RequestLine => ProgressView::RequestLine,
            Progress::Fields { request, total } => ProgressView::Fields {
                request: request@,
                total: *total as int,
            },
        }
    }
}

/// What one more line leads to.
#[derive(Debug)]
pub enum Step {
    /// Another line is needed.
    More(Progress),
    /// The head is complete.
    Done(Request),
    /// The head cannot be read.
    Failed(RequestError),
}

/// What one more line leads to.
pub enum StepView {
    More(ProgressView),
    Done(RequestView),
    Failed(RequestError),
}

impl View for Step {
    type V = StepView;

    open spec fn view(&self) -> StepView {
        match self {
            Step::More(progress) => StepView::More(progress@),
            Step::Done(request) => StepView::Done(request@),
            Step::Failed(error) => StepView::Failed(*error),
        }
    }
}

/// The method and the path of a request line: the method is what stands before the
/// first space, the path what stands behind it, up to the next space or question mark.
pub open spec fn parse_request_line(line: Seq<char>) -> Option<(Seq<char>, Seq<char>)> {
    let line = text::trim_newlines(line);
    if line.contains(' ') {
        let target = text::before(text::behind(line, ' '), ' ');
        Some((text::before(line, ' '), text::before(target, '?')))
    } else {
        None
    }
}

/// The fields `headers` with the one of a header line. The first colon ends the name,
/// names are in lower case, and a line without a colon is passed over.
pub open spec fn add_field(headers: Map<Seq<char>, Seq<char>>, line: Seq<char>) -> Map<
    Seq<char>,
    Seq<char>,
> {
    if line.contains(':') {
        headers.insert(
            text::lower(text::trim(text::before(line, ':'))),
            text::trim(text::behind(line, ':')),
        )
    } else {
        headers
    }
}

/// What the line `line` leads to. No bytes at all are the end of the input.
pub open spec fn next_step(progress: ProgressView, line: Seq<u8>) -> StepView {
    match progress {
        ProgressView::RequestLine => if line.len() == 0 {
            StepView::Failed(RequestError::Empty)
        } else if !vstd::utf8::valid_utf8(line) {
            StepView::Failed(RequestError::NotUtf8)
        } else {
            match parse_request_line(vstd::utf8::decode_utf8(line)) {
                Some((method, path)) => StepView::More(
                    ProgressView::Fields {
                        request: RequestView { method, path, headers: Map::empty() },
                        total: 0,
                    },
                ),
                None => StepView::Failed(RequestError::NoPath),
            }
        },
        ProgressView::Fields { request, total } => if line.len() == 0 {
            StepView::Done(request)
        } else if !vstd::utf8::valid_utf8(line) {
            StepView::Failed(RequestError::NotUtf8)
        } else if total + line.len() > MAX_HEADER_BYTES {
            StepView::Failed(RequestError::HeadersTooLarge)
        } else {
            let field = text::trim_newlines(vstd::utf8::decode_utf8(line));
            if field.len() == 0 {
                StepView::Done(request)
            } else {
                StepView::More(
                    ProgressView::Fields {
                        request: RequestView {
                            headers: add_field(request.headers, field),
                            ..request
                        },
                        total: total + line.len(),
                    },
                )
            }
        },
    }
}

/// Reads a request line.
fn request_line(line: &str) -> (r: Option<Request>)
    ensures
        match r {
            Some(request) => parse_request_line(line@) == Some((request.method@, request.path@))
                && request.headers@ == Map::<Seq<char>, Seq<char>>::empty(),
            None => parse_request_line(line@) is None,
        },
{
    let chars = text::chars_of(line);
    let end: usize = text::end_without_newlines(chars.as_slice());
    let whole: &[char] = slice_subrange(chars.as_slice(), 0, end);
    proof {
        text::lemma_find(whole@, ' ');
    }
    let space: usize = text::find_char(whole, ' ');
    if space == whole.len() {
        return None;
    }
    let rest: &[char] = slice_subrange(whole, space + 1, whole.len());
    let target: &[char] = slice_subrange(rest, 0, text::find_char(rest, ' '));
    let path: usize = text::find_char(target, '?');
    Some(
        Request {
            method: text::string_of(whole, 0, space),
            path: text::string_of(target, 0, path),
            headers: Headers::new(),
        },
    )
}

/// Adds the field of a header line, without its line end, to `headers`.
fn header_line(headers: &mut Headers, line: &[char])
    ensures
        final(headers)@ == add_field(old(headers)@, line@),
{
    proof {
        text::lemma_find(line@, ':');
    }
    let colon: usize = text::find_char(line, ':');
    if colon < line.len() {
        let name: (usize, usize) = text::trim_between(line, 0, colon);
        let value: (usize, usize) = text::trim_between(line, colon + 1, line.len());
        headers.insert(
            text::lower_between(line, name.0, name.1),
            text::string_of(line, value.0, value.1),
        );
    }
}

impl Progress {
    /// Takes the next line of the input, with its line end. An empty line is the end of
    /// the input.
    pub fn next_line(self, line: &[u8]) -> (r: Step)
        ensures
            r@ == next_step(self@, line@),
    {
        match self {
            Progress::RequestLine => {
                if line.len() == 0 {
                    return Step::Failed(RequestError::Empty);
                }
                match text::from_utf8(line) {
                    Some(line) => match request_line(line) {
                        Some(request) => Step::More(Progress::Fields { request, total: 0 }),
                        None => Step::Failed(RequestError::NoPath),
                    },
                    None => Step::Failed(RequestError::NotUtf8),
                }
            },
            Progress::Fields { request, total } => {
                if line.len() == 0 {
                    return Step::Done(request);
                }
                let chars: Vec<char> = match text::from_utf8(line) {
                    Some(line) => text::chars_of(line),
                    None => {
                        return Step::Failed(RequestError::NotUtf8);
                    },
                };
                if line.len() > MAX_HEADER_BYTES || total > MAX_HEADER_BYTES - line.len() {
                    return Step::Failed(RequestError::HeadersTooLarge);
                }
                let end: usize = text::end_without_newlines(chars.as_slice());
                if end == 0 {
                    return Step::Done(request);
                }
                let mut request = request;
                header_line(&mut request.headers, slice_subrange(chars.as_slice(), 0, end));
                Step::More(Progress::Fields { request, total: total + line.len() })
            },
        }
    }
}

/// The first line of `input`, with its line end.
pub open spec fn first_line(input: Seq<u8>) -> Seq<u8> {
    if input.contains(10u8) {
        input.take(text::find(input, 10u8) + 1)
    } else {
        input
    }
}

/// What the lines of `input` lead to, and what they leave unread.
pub open spec fn read_lines(progress: ProgressView, input: Seq<u8>) -> (
    Result<RequestView, RequestError>,
    Seq<u8>,
)
    decreases input.len(),
{
    let line = first_line(input);
    let rest = input.skip(line.len() as int);
    match next_step(progress, line) {
        StepView::Done(request) => (Ok(request), rest),
        StepView::Failed(error) => (Err(error), rest),
        StepView::More(progress) => {
            proof {
                lemma_first_line(input);
            }
            read_lines(progress, rest)
        },
    }
}

/// The first line is a part of the input, and empty only at its end.
pub proof fn lemma_first_line(input: Seq<u8>)
    ensures
        first_line(input).len() <= input.len(),
        first_line(input) == input.take(first_line(input).len() as int),
        first_line(input).len() == 0 <==> input.len() == 0,
{
    text::lemma_find(input, 10u8);
    assert(input.take(input.len() as int) =~= input);
}

/// Reads the head of a request off the front of `reader`, line by line. What follows the
/// head, such as a body, is left in `reader`.
pub fn read_request(reader: &mut &[u8]) -> (r: Result<Request, RequestError>)
    ensures
        match r {
            Ok(request) => read_lines(ProgressView::RequestLine, old(reader)@).0 == Ok::<
                RequestView,
                RequestError,
            >(request@),
            Err(error) => read_lines(ProgressView::RequestLine, old(reader)@).0 == Err::<
                RequestView,
                RequestError,
            >(error),
        },
        final(reader)@ == read_lines(ProgressView::RequestLine, old(reader)@).1,
{
    let input: &[u8] = *reader;
    proof {
        assert(input@.skip(0) =~= input@);
    }
    let mut progress = Progress::RequestLine;
    let mut at: usize = 0;
    loop
        invariant
            at <= input@.len(),
            input@ == old(reader)@,
            read_lines(progress@, input@.skip(at as int)) == read_lines(
                ProgressView::RequestLine,
                input@,
            ),
        decreases input@.len() - at,
    {
        let ghost unread = input@.skip(at as int);
        let rest: &[u8] = slice_subrange(input, at, input.len());
        let newline: usize = text::find_byte(rest, 10u8);
        let len: usize = if newline < rest.len() {
            newline + 1
        } else {
            rest.len()
        };
        let line: &[u8] = slice_subrange(rest, 0, len);
        proof {
            text::lemma_find(unread, 10u8);
            lemma_first_line(unread);
            assert(line@ =~= first_line(unread));
            assert(unread.skip(len as int) =~= input@.skip(at + len));
        }
        at = at + len;
        match progress.next_line(line) {
            Step::Done(request) => {
                *reader = slice_subrange(input, at, input.len());
                return Ok(request);
            },
            Step::Failed(error) => {
                *reader = slice_subrange(input, at, input.len());
                return Err(error);
            },
            Step::More(next) => {
                progress = next;
            },
        }
    }
}

/// The names of header fields do not tell upper from lower case.
pub proof fn law_field_names_ignore_case(
    headers: Map<Seq<char>, Seq<char>>,
    name: Seq<char>,
    other: Seq<char>,
    value: Seq<char>,
)
    requires
        text::lower(name) == text::lower(other),
        !name.contains(':'),
        !other.contains(':'),
    ensures
        add_field(headers, name.push(':') + value) == add_field(headers, other.push(':') + value),
{
    text::lemma_around(name, ':', value);
    text::lemma_around(other, ':', value);
    text::lemma_trim_lower(name);
    text::lemma_trim_lower(other);
}

/// Of two header fields with the same name the last one counts.
pub proof fn law_last_field_counts(
    headers: Map<Seq<char>, Seq<char>>,
    name: Seq<char>,
    first: Seq<char>,
    last: Seq<char>,
)
    requires
        !name.contains(':'),
    ensures
        add_field(add_field(headers, name.push(':') + first), name.push(':') + last) == add_field(
            headers,
            name.push(':') + last,
        ),
{
    text::lemma_around(name, ':', first);
    text::lemma_around(name, ':', last);
    assert(add_field(add_field(headers, name.push(':') + first), name.push(':') + last)
        =~= add_field(headers, name.push(':') + last));
}

/// Whether a header line is empty: it holds nothing but line ends.
pub open spec fn is_empty_line(line: Seq<u8>) -> bool {
    line.len() > 0 && forall|i: int|
        0 <= i < line.len() ==> #[trigger] line[i] == 13 || line[i] == 10
}

/// Whether `lines` are header lines, of which the last is empty, and no other.
pub open spec fn end_with_empty_line(lines: Seq<u8>) -> bool
    decreases lines.len(),
{
    let line = first_line(lines);
    if lines.len() == 0 {
        false
    } else if is_empty_line(line) {
        line.len() == lines.len() && line.last() == 10
    } else {
        proof {
            lemma_first_line(lines);
        }
        end_with_empty_line(lines.skip(line.len() as int))
    }
}

/// Whether `head` is a whole head: a line, and header lines up to the first empty one.
pub open spec fn is_head(head: Seq<u8>) -> bool {
    head.contains(10u8) && end_with_empty_line(head.skip(first_line(head).len() as int))
}

/// The number of bytes of the header lines at the front of `lines`: those up to the first
/// empty line, and with it, or all where none is empty.
pub open spec fn fields_len(lines: Seq<u8>) -> nat
    decreases lines.len(),
{
    let line = first_line(lines);
    if lines.len() == 0 || is_empty_line(line) {
        line.len()
    } else {
        proof {
            lemma_first_line(lines);
        }
        line.len() + fields_len(lines.skip(line.len() as int))
    }
}

proof fn lemma_empty_line(line: Seq<u8>)
    requires
        line.len() > 0,
    ensures
        is_empty_line(line) <==> vstd::utf8::valid_utf8(line) && text::trim_newlines(
            vstd::utf8::decode_utf8(line),
        ).len() == 0,
{
    if is_empty_line(line) {
        let chars = Seq::new(
            line.len(),
            |i: int|
                if line[i] == 13 {
                    '\r'
                } else {
                    '\n'
                },
        );
        vstd::utf8::is_ascii_chars_encode_utf8(chars);
        assert(vstd::utf8::encode_utf8(chars) =~= line);
        vstd::utf8::encode_utf8_valid_utf8(chars);
        vstd::utf8::encode_utf8_decode_utf8(chars);
        text::lemma_trim_newlines_end(chars);
    }
    if vstd::utf8::valid_utf8(line) {
        let chars = vstd::utf8::decode_utf8(line);
        vstd::utf8::decode_utf8_encode_utf8(line);
        if text::trim_newlines(chars).len() == 0 {
            text::lemma_trim_newlines_end(chars);
            vstd::utf8::is_ascii_chars_encode_utf8(chars);
            assert forall|i: int| 0 <= i < line.len() implies #[trigger] line[i] == 13 || line[i]
                == 10 by {
                assert(chars[i] == '\r' || chars[i] == '\n');
            }
        }
    }
}

proof fn lemma_first_line_of(line: Seq<u8>, rest: Seq<u8>)
    requires
        line.contains(10u8),
    ensures
        first_line(line + rest) == first_line(line),
{
    text::lemma_find(line, 10u8);
    text::lemma_find_prefix(line, rest, 10u8);
    text::lemma_find(line + rest, 10u8);
    assert((line + rest)[text::find(line, 10u8)] == 10);
    assert(first_line(line + rest) =~= first_line(line));
}

proof fn lemma_fields_are_read(request: RequestView, total: int, lines: Seq<u8>, tail: Seq<u8>)
    requires
        end_with_empty_line(lines),
    ensures
        ({
            let progress = ProgressView::Fields { request, total };
            let read = read_lines(progress, lines);
            &&& read_lines(progress, lines + tail) == (read.0, read.1 + tail)
            &&& read.0 is Ok ==> read.1.len() == 0
        }),
    decreases lines.len(),
{
    let line = first_line(lines);
    let n = line.len() as int;
    let rest = lines.skip(n);
    lemma_first_line(lines);
    lemma_empty_line(line);
    text::lemma_find(lines, 10u8);
    if !lines.contains(10u8) {
        assert(line == lines && rest.len() == 0);
        assert(!end_with_empty_line(rest));
        assert(lines[lines.len() - 1] == 10);
    }
    assert(lines.contains(10u8));
    lemma_first_line_of(lines, tail);
    assert((lines + tail).skip(n) =~= rest + tail);
    match next_step(ProgressView::Fields { request, total }, line) {
        StepView::More(ProgressView::Fields { request, total }) => {
            lemma_fields_are_read(request, total, rest, tail);
        },
        _ => {},
    }
}

/// Reading a whole head does not depend on what follows it, and leaves that unread: a head
/// that can be read is read to its end, and no further.
pub proof fn law_body_is_left(head: Seq<u8>, tail: Seq<u8>)
    requires
        is_head(head),
    ensures
        ({
            let read = read_lines(ProgressView::RequestLine, head);
            let all = read_lines(ProgressView::RequestLine, head + tail);
            &&& all == (read.0, read.1 + tail)
            &&& all.0 is Ok ==> all.1 == tail
        }),
{
    let line = first_line(head);
    let n = line.len() as int;
    let rest = head.skip(n);
    lemma_first_line(head);
    lemma_first_line_of(head, tail);
    assert((head + tail).skip(n) =~= rest + tail);
    match next_step(ProgressView::RequestLine, line) {
        StepView::More(ProgressView::Fields { request, total }) => {
            lemma_fields_are_read(request, total, rest, tail);
            let read = read_lines(ProgressView::RequestLine, head);
            assert(read.1.len() == 0 ==> read.1 + tail =~= tail);
        },
        _ => {},
    }
}

proof fn lemma_valid_lines(bytes: Seq<u8>)
    requires
        vstd::utf8::valid_utf8(bytes),
    ensures
        vstd::utf8::valid_utf8(first_line(bytes)),
        vstd::utf8::valid_utf8(bytes.skip(first_line(bytes).len() as int)),
{
    let chars = vstd::utf8::decode_utf8(bytes);
    vstd::utf8::decode_utf8_encode_utf8(bytes);
    text::lemma_encode_ascii(chars, '\n');
    if bytes.contains(10u8) {
        let n = text::find(chars, '\n');
        text::lemma_find(chars, '\n');
        let line = chars.take(n + 1);
        let rest = chars.skip(n + 1);
        assert(line + rest =~= chars);
        assert(line =~= chars.take(n) + seq!['\n']);
        text::lemma_encode_concat(line, rest);
        text::lemma_encode_concat(chars.take(n), seq!['\n']);
        vstd::utf8::is_ascii_chars_encode_utf8(seq!['\n']);
        assert(vstd::utf8::encode_utf8(seq!['\n']) =~= seq![10u8]);
        assert(!chars.take(n).contains('\n')) by {
            if chars.take(n).contains('\n') {
                let i = choose|i: int| 0 <= i < n && chars.take(n)[i] == '\n';
                assert(chars[i] == '\n');
            }
        }
        text::lemma_encode_ascii(chars.take(n), '\n');
        let front = vstd::utf8::encode_utf8(chars.take(n));
        let behind = vstd::utf8::encode_utf8(rest);
        assert(bytes =~= front.push(10u8) + behind);
        text::lemma_around(front, 10u8, behind);
        assert(first_line(bytes) =~= vstd::utf8::encode_utf8(line));
        assert(bytes.skip(first_line(bytes).len() as int) =~= behind);
        vstd::utf8::encode_utf8_valid_utf8(line);
        vstd::utf8::encode_utf8_valid_utf8(rest);
    } else {
        assert(bytes.skip(bytes.len() as int) =~= Seq::empty());
    }
}

proof fn lemma_fields_len(lines: Seq<u8>)
    ensures
        first_line(lines).len() <= fields_len(lines) <= lines.len(),
    decreases lines.len(),
{
    lemma_first_line(lines);
    if lines.len() > 0 && !is_empty_line(first_line(lines)) {
        lemma_fields_len(lines.skip(first_line(lines).len() as int));
    }
}

proof fn lemma_first_line_of_front(lines: Seq<u8>)
    ensures
        first_line(lines.take(fields_len(lines) as int)) == first_line(lines),
{
    let line = first_line(lines);
    let n = fields_len(lines) as int;
    lemma_first_line(lines);
    lemma_fields_len(lines);
    text::lemma_find(lines, 10u8);
    if lines.contains(10u8) {
        let front = lines.take(n);
        assert(front[text::find(lines, 10u8)] == 10);
        assert(front.contains(10u8));
        assert(front + lines.skip(n) =~= lines);
        lemma_first_line_of(front, lines.skip(n));
    } else {
        assert(lines.take(n) =~= lines);
    }
}

proof fn lemma_fields_cap(request: RequestView, total: int, lines: Seq<u8>)
    requires
        0 <= total <= MAX_HEADER_BYTES,
        vstd::utf8::valid_utf8(lines.take(fields_len(lines) as int)),
    ensures
        fields_len(lines) <= lines.len(),
        ({
            let read = read_lines(ProgressView::Fields { request, total }, lines);
            if total + fields_len(lines) > MAX_HEADER_BYTES {
                read.0 == Err::<RequestView, RequestError>(RequestError::HeadersTooLarge)
            } else {
                read.0 is Ok && read.1 == lines.skip(fields_len(lines) as int)
            }
        }),
    decreases lines.len(),
{
    let line = first_line(lines);
    let n = line.len() as int;
    let rest = lines.skip(n);
    lemma_first_line(lines);
    if lines.len() > 0 {
        lemma_empty_line(line);
        lemma_fields_len(lines);
        let all = lines.take(fields_len(lines) as int);
        lemma_first_line_of_front(lines);
        lemma_valid_lines(all);
        if !is_empty_line(line) {
            assert(all.skip(n) =~= rest.take(fields_len(rest) as int));
            if total + n <= MAX_HEADER_BYTES {
                let field = text::trim_newlines(vstd::utf8::decode_utf8(line));
                lemma_fields_cap(
                    RequestView { headers: add_field(request.headers, field), ..request },
                    total + n,
                    rest,
                );
                assert(rest.skip(fields_len(rest) as int) =~= lines.skip(
                    fields_len(lines) as int,
                ));
            }
        }
    } else {
        assert(lines.skip(0) =~= rest);
    }
}

/// A head with a path, all in UTF-8, is refused if and only if its header lines, with the
/// empty one at their end, have more than `MAX_HEADER_BYTES` bytes. One
/// that is not refused is read to its end.
pub proof fn law_header_cap_is_exact(input: Seq<u8>)
    requires
        vstd::utf8::valid_utf8(first_line(input)),
        parse_request_line(vstd::utf8::decode_utf8(first_line(input))) is Some,
        ({
            let lines = input.skip(first_line(input).len() as int);
            vstd::utf8::valid_utf8(lines.take(fields_len(lines) as int))
        }),
    ensures
        ({
            let lines = input.skip(first_line(input).len() as int);
            let read = read_lines(ProgressView::RequestLine, input);
            if fields_len(lines) > MAX_HEADER_BYTES {
                read.0 == Err::<RequestView, RequestError>(RequestError::HeadersTooLarge)
            } else {
                read.0 is Ok && read.1 == lines.skip(fields_len(lines) as int)
            }
        }),
{
    let line = first_line(input);
    lemma_first_line(input);
    if line.len() == 0 {
        let chars = vstd::utf8::decode_utf8(line);
        assert(chars.len() == 0);
        text::lemma_trim_newlines_end(chars);
    }
    match next_step(ProgressView::RequestLine, line) {
        StepView::More(ProgressView::Fields { request, total }) => {
            lemma_fields_cap(request, total, input.skip(line.len() as int));
        },
        _ => {},
    }
}

proof fn lemma_header_cap(request: RequestView, total: int, input: Seq<u8>)
    requires
        0 <= total <= MAX_HEADER_BYTES,
        read_lines(ProgressView::Fields { request, total }, input).0 is Ok,
    ensures
        input.len() - read_lines(ProgressView::Fields { request, total }, input).1.len() + total
            <= MAX_HEADER_BYTES,
    decreases input.len(),
{
    lemma_first_line(input);
    let line = first_line(input);
    let rest = input.skip(line.len() as int);
    match next_step(ProgressView::Fields { request, total }, line) {
        StepView::More(ProgressView::Fields { request, total }) => {
            lemma_header_cap(request, total, rest);
        },
        _ => {},
    }
}

/// Behind its request line, the head of a request that is read has no more than
/// `MAX_HEADER_BYTES` bytes.
pub proof fn law_header_cap(input: Seq<u8>)
    requires
        read_lines(ProgressView::RequestLine, input).0 is Ok,
    ensures
        input.len() - first_line(input).len() - read_lines(ProgressView::RequestLine, input).1.len()
            <= MAX_HEADER_BYTES,
{
    lemma_first_line(input);
    let line = first_line(input);
    match next_step(ProgressView::RequestLine, line) {
        StepView::More(ProgressView::Fields { request, total }) => {
            lemma_header_cap(request, total, input.skip(line.len() as int));
        },
        _ => {},
    }
}

/// Whether a request has the shape that every request has that was read: no space in its
/// method and its path, no query string, names in lower case and without a colon, no white
/// space around names and values, and no line feed anywhere.
pub open spec fn is_normal(request: RequestView) -> bool {
    &&& !request.method.contains(' ') && !request.method.contains('\n')
    &&& !request.path.contains(' ') && !request.path.contains('\n')
    &&& !request.path.contains('?')
    &&& forall|name: Seq<char>| #[trigger]
        request.headers.dom().contains(name) ==> {
            &&& text::lower(name) == name
            &&& text::trim(name) == name
            &&& !name.contains(':') && !name.contains('\n')
            &&& text::trim(request.headers[name]) == request.headers[name]
            &&& !request.headers[name].contains('\n')
        }
}

proof fn lemma_line_feed_ends_line(input: Seq<u8>)
    requires
        vstd::utf8::valid_utf8(first_line(input)),
    ensures
        !text::trim_newlines(vstd::utf8::decode_utf8(first_line(input))).contains('\n'),
{
    let line = first_line(input);
    let chars = vstd::utf8::decode_utf8(line);
    vstd::utf8::decode_utf8_encode_utf8(line);
    text::lemma_find(input, 10u8);
    assert forall|i: int| 0 <= i < chars.len() - 1 implies chars[i] != '\n' by {
        if chars[i] == '\n' {
            let front = chars.take(i + 1);
            let rest = chars.skip(i + 1);
            assert(front + rest =~= chars);
            text::lemma_encode_concat(front, rest);
            assert(front[i] == '\n');
            text::lemma_encode_ascii(front, '\n');
            let bytes = vstd::utf8::encode_utf8(front);
            let k = choose|k: int| 0 <= k < bytes.len() && bytes[k] == 10;
            text::lemma_encode_injective(rest, Seq::empty());
            assert(vstd::utf8::encode_utf8(rest).len() > 0) by {
                if vstd::utf8::encode_utf8(rest).len() == 0 {
                    assert(vstd::utf8::encode_utf8(rest) =~= vstd::utf8::encode_utf8(
                        Seq::<char>::empty(),
                    ));
                }
            }
            assert(line[k] == 10 && k < line.len() - 1);
            assert(input[k] == 10);
        }
    }
    let m = text::lemma_trim_newlines_end(chars);
    let text = chars.take(m);
    if text.contains('\n') {
        let i = choose|i: int| 0 <= i < text.len() && text[i] == '\n';
        assert(chars[i] == '\n');
    }
}

proof fn lemma_part(s: Seq<char>, c: char, x: char)
    requires
        s.contains(x),
    ensures
        text::before(s, x).contains(c) ==> s.contains(c),
        text::behind(s, x).contains(c) ==> s.contains(c),
{
    text::lemma_before(s, x);
    text::lemma_find(s, x);
    if text::behind(s, x).contains(c) {
        let rest = text::behind(s, x);
        let i = choose|i: int| 0 <= i < rest.len() && rest[i] == c;
        assert(s[text::find(s, x) + 1 + i] == c);
    }
}

proof fn lemma_trim_part(s: Seq<char>, c: char)
    requires
        c == ':' || c == '\n',
    ensures
        text::trim(s).contains(c) ==> s.contains(c),
        text::lower(s).contains(c) ==> s.contains(c),
{
    let (a, b) = text::lemma_trim_bounds(s);
    if text::trim(s).contains(c) {
        let i = choose|i: int| 0 <= i < text::trim(s).len() && text::trim(s)[i] == c;
        assert(s[a + i] == c);
    }
    if text::lower(s).contains(c) {
        let i = choose|i: int| 0 <= i < text::lower(s).len() && text::lower(s)[i] == c;
        assert(s[i] == c);
    }
}

proof fn lemma_normal(progress: ProgressView, input: Seq<u8>)
    requires
        progress matches ProgressView::Fields { request, .. } ==> is_normal(request),
        read_lines(progress, input).0 is Ok,
    ensures
        is_normal(read_lines(progress, input).0->Ok_0),
    decreases input.len(),
{
    lemma_first_line(input);
    let line = first_line(input);
    match next_step(progress, line) {
        StepView::More(next) => {
            lemma_line_feed_ends_line(input);
            match progress {
                ProgressView::RequestLine => {
                    let whole = text::trim_newlines(vstd::utf8::decode_utf8(line));
                    let rest = text::behind(whole, ' ');
                    let target = text::before(rest, ' ');
                    text::lemma_before(whole, ' ');
                    text::lemma_before(rest, ' ');
                    text::lemma_before(target, '?');
                    lemma_part(whole, '\n', ' ');
                },
                ProgressView::Fields { request, total } => {
                    let field = text::trim_newlines(vstd::utf8::decode_utf8(line));
                    let name = text::before(field, ':');
                    let value = text::behind(field, ':');
                    text::lemma_trim_lower(name);
                    text::lemma_trim_twice(text::lower(name));
                    text::lemma_lower_twice(text::trim(name));
                    text::lemma_trim_twice(value);
                    text::lemma_before(field, ':');
                    if field.contains(':') {
                        lemma_part(field, '\n', ':');
                    }
                    lemma_trim_part(name, ':');
                    lemma_trim_part(name, '\n');
                    lemma_trim_part(text::trim(name), ':');
                    lemma_trim_part(text::trim(name), '\n');
                    lemma_trim_part(value, '\n');
                },
            }
            lemma_normal(next, input.skip(line.len() as int));
        },
        _ => {},
    }
}

/// Every request that is read is normal.
pub proof fn law_requests_are_normal(input: Seq<u8>)
    requires
        read_lines(ProgressView::RequestLine, input).0 is Ok,
    ensures
        is_normal(read_lines(ProgressView::RequestLine, input).0->Ok_0),
{
    lemma_normal(ProgressView::RequestLine, input);
}

/// The first line ends with the first line feed, and all is one line where there is none.
pub proof fn law_first_line(line: Seq<u8>, rest: Seq<u8>)
    requires
        !line.contains(10u8),
    ensures
        first_line(line.push(10u8) + rest) == line.push(10u8),
        first_line(line) == line,
{
    text::lemma_around(line, 10u8, rest);
    assert((line.push(10u8) + rest).take(line.len() as int + 1) =~= line.push(10u8));
}

/// A request line is a method, a space and a path. What follows the path begins with a
/// space or a question mark, and makes no difference, nor do line ends.
pub proof fn law_request_lines(
    method: Seq<char>,
    path: Seq<char>,
    rest: Seq<char>,
    ends: Seq<char>,
)
    requires
        !method.contains(' '),
        !path.contains(' ') && !path.contains('?'),
        rest.len() > 0 ==> rest[0] == ' ' || rest[0] == '?',
        (method + seq![' '] + path + rest).last() != '\r',
        (method + seq![' '] + path + rest).last() != '\n',
        forall|j: int| 0 <= j < ends.len() ==> ends[j] == '\r' || ends[j] == '\n',
    ensures
        parse_request_line(method + seq![' '] + path + rest + ends) == Some((method, path)),
{
    let line = method + seq![' '] + path + rest;
    let behind = path + rest;
    text::law_newlines_are_trimmed(line, ends);
    assert(line =~= method.push(' ') + behind);
    text::lemma_around(method, ' ', behind);
    let target = text::before(behind, ' ');
    text::lemma_find(behind, ' ');
    text::lemma_find(rest, ' ');
    let n = path.len() as int;
    let m = text::find(rest, ' ');
    assert forall|j: int| 0 <= j < n + m implies behind[j] != ' ' by {
        if j < n {
            assert(path.contains(path[j]));
        } else {
            assert(behind[j] == rest[j - n]);
        }
    }
    text::lemma_find_is(behind, ' ', n + m);
    assert forall|j: int| 0 <= j < n implies target[j] != '?' by {
        assert(path.contains(path[j]));
    }
    if m > 0 {
        assert(target[n] == rest[0] && rest[0] == '?');
    }
    text::lemma_find_is(target, '?', n);
    assert(text::before(target, '?') =~= path);
}

/// A line without a space is no request line.
pub proof fn law_lines_without_a_path(line: Seq<char>)
    requires
        !line.contains(' '),
    ensures
        parse_request_line(line) is None,
{
    let m = text::lemma_trim_newlines_end(line);
    let short = line.take(m);
    if short.contains(' ') {
        let i = choose|i: int| 0 <= i < short.len() && short[i] == ' ';
        assert(line[i] == ' ');
    }
}

/// A header line is a name, a colon and a value. The value is found under the name in lower
/// case, both without white space around them, and no other field changes. A line without a
/// colon changes nothing.
pub proof fn law_header_lines(
    headers: Map<Seq<char>, Seq<char>>,
    name: Seq<char>,
    value: Seq<char>,
)
    requires
        !name.contains(':'),
    ensures
        add_field(headers, name + seq![':'] + value) == headers.insert(
            text::lower(text::trim(name)),
            text::trim(value),
        ),
        add_field(headers, name) == headers,
{
    assert(name + seq![':'] + value =~= name.push(':') + value);
    text::lemma_around(name, ':', value);
}

/// The request line comes first. No bytes, bytes that are no text and a text without a
/// space are refused.
pub proof fn law_the_request_line_is_read(
    line: Seq<u8>,
    method: Seq<char>,
    path: Seq<char>,
    rest: Seq<char>,
    ends: Seq<char>,
)
    ensures
        next_step(ProgressView::RequestLine, Seq::empty()) == StepView::Failed(
            RequestError::Empty,
        ),
        line.len() > 0 && !vstd::utf8::valid_utf8(line) ==> next_step(
            ProgressView::RequestLine,
            line,
        ) == StepView::Failed(RequestError::NotUtf8),
        line.len() > 0 && vstd::utf8::valid_utf8(line) && !vstd::utf8::decode_utf8(line).contains(
            ' ',
        ) ==> next_step(ProgressView::RequestLine, line) == StepView::Failed(
            RequestError::NoPath,
        ),
        line == vstd::utf8::encode_utf8(method + seq![' '] + path + rest + ends)
            && !method.contains(' ') && !path.contains(' ') && !path.contains('?') && (rest.len()
            > 0 ==> rest[0] == ' ' || rest[0] == '?') && (method + seq![' '] + path + rest).last()
            != '\r' && (method + seq![' '] + path + rest).last() != '\n' && (forall|j: int|
            0 <= j < ends.len() ==> ends[j] == '\r' || ends[j] == '\n') ==> next_step(
            ProgressView::RequestLine,
            line,
        ) == StepView::More(
            ProgressView::Fields {
                request: RequestView { method, path, headers: Map::empty() },
                total: 0,
            },
        ),
{
    if line.len() > 0 && vstd::utf8::valid_utf8(line) && !vstd::utf8::decode_utf8(line).contains(
        ' ',
    ) {
        law_lines_without_a_path(vstd::utf8::decode_utf8(line));
    }
    let all = method + seq![' '] + path + rest + ends;
    if line == vstd::utf8::encode_utf8(all) && !method.contains(' ') && !path.contains(' ')
        && !path.contains('?') && (rest.len() > 0 ==> rest[0] == ' ' || rest[0] == '?') && (method
        + seq![' '] + path + rest).last() != '\r' && (method + seq![' '] + path + rest).last()
        != '\n' && (forall|j: int| 0 <= j < ends.len() ==> ends[j] == '\r' || ends[j] == '\n') {
        law_request_lines(method, path, rest, ends);
        vstd::utf8::encode_utf8_valid_utf8(all);
        vstd::utf8::encode_utf8_decode_utf8(all);
        assert(all[method.len() as int] == ' ');
        text::lemma_encode_ascii(all, ' ');
    }
}

/// Header lines follow, until one that is empty, or the end of the input. Each counts with
/// its line end; bytes that are no text, and more than 16 KiB in all, are refused. Nothing
/// but the fields changes on the way.
pub proof fn law_the_header_lines_are_read(
    request: RequestView,
    total: int,
    line: Seq<u8>,
    field: Seq<char>,
    ends: Seq<char>,
)
    ensures
        next_step(ProgressView::Fields { request, total }, Seq::empty()) == StepView::Done(request),
        line.len() > 0 && !vstd::utf8::valid_utf8(line) ==> next_step(
            ProgressView::Fields { request, total },
            line,
        ) == StepView::Failed(RequestError::NotUtf8),
        line.len() > 0 && vstd::utf8::valid_utf8(line) && total + line.len() > 16384 ==> next_step(
            ProgressView::Fields { request, total },
            line,
        ) == StepView::Failed(RequestError::HeadersTooLarge),
        line.len() > 0 && total + line.len() <= 16384 && (forall|j: int|
            0 <= j < line.len() ==> line[j] == 13 || line[j] == 10) ==> next_step(
            ProgressView::Fields { request, total },
            line,
        ) == StepView::Done(request),
        line == vstd::utf8::encode_utf8(field + ends) && total + line.len() <= 16384 && field.len()
            > 0 && field.last() != '\r' && field.last() != '\n' && (forall|j: int|
            0 <= j < ends.len() ==> ends[j] == '\r' || ends[j] == '\n') ==> next_step(
            ProgressView::Fields { request, total },
            line,
        ) == StepView::More(
            ProgressView::Fields {
                request: RequestView {
                    method: request.method,
                    path: request.path,
                    headers: add_field(request.headers, field),
                },
                total: total + line.len(),
            },
        ),
{
    if line.len() > 0 && (forall|j: int| 0 <= j < line.len() ==> line[j] == 13 || line[j] == 10) {
        assert(is_empty_line(line));
        lemma_empty_line(line);
    }
    let all = field + ends;
    if line == vstd::utf8::encode_utf8(all) && field.len() > 0 && field.last() != '\r'
        && field.last() != '\n' && (forall|j: int|
        0 <= j < ends.len() ==> ends[j] == '\r' || ends[j] == '\n') {
        text::law_newlines_are_trimmed(field, ends);
        vstd::utf8::encode_utf8_valid_utf8(all);
        vstd::utf8::encode_utf8_decode_utf8(all);
        text::lemma_encode_injective(all, Seq::empty());
        if line.len() == 0 {
            assert(line =~= vstd::utf8::encode_utf8(Seq::<char>::empty()));
        }
    }
}

/// A head is read line by line: the first line leads on to the rest of the input, or decides
/// and leaves the rest unread.
pub proof fn law_heads_are_read_line_by_line(
    progress: ProgressView,
    line: Seq<u8>,
    rest: Seq<u8>,
)
    requires
        !line.contains(10u8),
    ensures
        read_lines(progress, line.push(10u8) + rest) == match next_step(
            progress,
            line.push(10u8),
        ) {
            StepView::More(next) => read_lines(next, rest),
            StepView::Done(request) => (Ok(request), rest),
            StepView::Failed(error) => (Err(error), rest),
        },
        read_lines(progress, line) == match next_step(progress, line) {
            StepView::More(next) => read_lines(next, Seq::empty()),
            StepView::Done(request) => (Ok(request), Seq::empty()),
            StepView::Failed(error) => (Err(error), Seq::empty()),
        },
{
    law_first_line(line, rest);
    let input = line.push(10u8) + rest;
    assert(input.skip(line.len() as int + 1) =~= rest);
    assert(line.skip(line.len() as int) =~= Seq::empty());
}

/// The errors are told by their messages.
pub proof fn law_error_messages()
    ensures
        error_message(RequestError::Empty) == "empty request"@,
        error_message(RequestError::NoPath) == "no path"@,
        error_message(RequestError::HeadersTooLarge) == "headers too large"@,
        error_message(RequestError::NotUtf8) == "stream did not contain valid UTF-8"@,
{
}

/// A request, and how far its reading has come, are what the fields hold.
pub proof fn law_requests_are_seen(request: Request, progress: Progress, step: Step)
    ensures
        request@.method == request.method@ && request@.path == request.path@ && request@.headers
            == request.headers@,
        match progress {
            Progress::RequestLine => progress@ is RequestLine,
            Progress::Fields { request, total } => progress@ == (ProgressView::Fields {
                request: request@,
                total: total as int,
            }),
        },
        match step {
            Step::More(next) => step@ == StepView::More(next@),
            Step::Done(request) => step@ == StepView::Done(request@),
            Step::Failed(error) => step@ == StepView::Failed(error),
        },
{
}

} // verus!
