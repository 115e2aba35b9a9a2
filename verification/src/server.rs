//! What the server does with a request: which file it serves, which upload it saves, and
//! what it answers.
//!
//! The work on files and connections is left to the caller. Each function says what to do
//! next, and takes what came of it.

use vstd::prelude::*;
use vstd::slice::slice_to_vec;
use vstd::string::*;

use crate::config::{Config, ConfigView};
use crate::path;
use crate::request::{Request, RequestView};
use crate::response;
use crate::serial::{Serial, SerialView};
use crate::text;

verus! {

/// The most bytes that an upload may have.
pub const MAX_BODY_BYTES: usize = 8388608;

/// The media type of the server's own messages.
pub const PLAIN_TEXT: &'static str = "text/plain; charset=utf-8";

/// The methods that the server understands.
pub const ALLOWED_METHODS: &'static str = "GET, HEAD, PUT, OPTIONS";

/// The file that a GET or HEAD request asks for.
#[derive(Debug)]
pub struct Load {
    pub path: Vec<u8>,
    pub head_only: bool,
}

/// The file that a PUT request wants to save.
#[derive(Debug)]
pub struct Upload {
    /// Its name in the served directory.
    pub name: String,
    /// Its path.
    pub target: Vec<u8>,
    /// The number of bytes that the request announces.
    pub len: usize,
}

/// What to do with a request.
#[derive(Debug)]
pub enum Next {
    /// Send these bytes, and be done.
    Respond(Vec<u8>),
    /// Read this file, and send what `Load::answer` makes of it.
    Load(Load),
    /// Read the body of the request, and go on with `Upload::receive`.
    Receive(Upload),
}

/// What to do with a request.
pub enum NextView {
    Respond(Seq<u8>),
    Load { path: Seq<u8>, head_only: bool },
    Receive { name: Seq<char>, target: Seq<u8>, len: nat },
}

impl View for Next {
    type V = NextView;

    open spec fn view(&self) -> NextView {
        match self {
            Next::Respond(bytes) => NextView::Respond(bytes@),
            Next::Load(load) => NextView::Load { path: load.path@, head_only: load.head_only },
            Next::Receive(upload) => NextView::Receive {
                name: upload.name@,
                target: upload.target@,
                len: upload.len as nat,
            },
        }
    }
}

/// What was found under the path of a `Load`.
#[derive(Debug)]
pub enum Found {
    /// There is no file.
    Missing,
    /// There is a file, and it could not be read.
    Unreadable,
    /// There is a file with these contents.
    Contents(Vec<u8>),
}

/// What was found under a path.
pub enum FoundView {
    Missing,
    Unreadable,
    Contents(Seq<u8>),
}

impl View for Found {
    type V = FoundView;

    open spec fn view(&self) -> FoundView {
        match self {
            Found::Missing => FoundView::Missing,
            Found::Unreadable => FoundView::Unreadable,
            Found::Contents(bytes) => FoundView::Contents(bytes@),
        }
    }
}

/// What to do next to save a file.
#[derive(Debug)]
pub enum Doing {
    /// Create the temporary file, or empty it where it is there.
    Create,
    /// Write all of the contents to it.
    Write,
    /// Wait until they are on the disk, and close the file.
    Sync,
    /// Move the temporary file to the target, in the place of what is there.
    Move,
    /// Remove the temporary file, which could not be moved for this reason.
    Remove(String),
    /// Send what `Store::answer` makes of this, and be done.
    Answer(Option<String>),
    /// End the connection.
    GiveUp,
}

/// What to do next to save a file.
pub enum DoingView {
    Create,
    Write,
    Sync,
    Move,
    Remove(Seq<char>),
    Answer(Option<Seq<char>>),
    GiveUp,
}

impl View for Doing {
    type V = DoingView;

    open spec fn view(&self) -> DoingView {
        match self {
            Doing::Create => DoingView::Create,
            Doing::Write => DoingView::Write,
            Doing::Sync => DoingView::Sync,
            Doing::Move => DoingView::Move,
            Doing::Remove(reason) => DoingView::Remove(reason@),
            Doing::Answer(Some(reason)) => DoingView::Answer(Some(reason@)),
            Doing::Answer(None) => DoingView::Answer(None),
            Doing::GiveUp => DoingView::GiveUp,
        }
    }
}

/// A file to save: its contents go to `temporary` first, which is moved to `target` when
/// it is complete.
#[derive(Debug)]
pub struct Store {
    pub temporary: Vec<u8>,
    pub target: Vec<u8>,
    pub contents: Vec<u8>,
    /// How far saving it has come.
    pub steps: Steps,
}

/// How far the saving of a file has come. Only `Store::next` goes on.
#[derive(Debug)]
pub struct Steps {
    doing: Doing,
}

impl View for Steps {
    type V = DoingView;

    closed spec fn view(&self) -> DoingView {
        self.doing@
    }
}

/// What to do with an upload.
#[derive(Debug)]
pub enum Saving {
    /// Send these bytes, and be done.
    Respond(Vec<u8>),
    /// Save this file: do what `Store::doing` says, and tell `Store::next` what came of it.
    Store(Store),
}

/// What to do with an upload.
pub enum SavingView {
    Respond(Seq<u8>),
    Store { temporary: Seq<u8>, target: Seq<u8>, contents: Seq<u8>, doing: DoingView },
}

impl View for Saving {
    type V = SavingView;

    open spec fn view(&self) -> SavingView {
        match self {
            Saving::Respond(bytes) => SavingView::Respond(bytes@),
            Saving::Store(store) => SavingView::Store {
                temporary: store.temporary@,
                target: store.target@,
                contents: store.contents@,
                doing: store.steps@,
            },
        }
    }
}

/// A response with a message.
pub open spec fn message(status: u16, message: Seq<char>, head_only: bool) -> Seq<u8> {
    response::response(
        status,
        PLAIN_TEXT@,
        vstd::utf8::encode_utf8(message),
        head_only,
        Seq::empty(),
    )
}

/// A response with a message.
fn write_message(status: u16, text: &str, head_only: bool) -> (r: Vec<u8>)
    ensures
        r@ == message(status, text@, head_only),
{
    let mut r: Vec<u8> = Vec::new();
    response::write_response(&mut r, status, PLAIN_TEXT, text.as_bytes(), head_only);
    proof {
        assert(r@ =~= message(status, text@, head_only));
    }
    r
}

/// The file that `path` stands for, relative to the served directory.
pub open spec fn wanted_file(index: Seq<char>, path: Seq<char>) -> Seq<char> {
    if path == "/"@ {
        index
    } else {
        text::trim_slashes(path)
    }
}

/// What a GET or HEAD request leads to.
pub open spec fn get_step(config: ConfigView, request: RequestView, head_only: bool) -> NextView {
    match path::safe_path(
        config.dir,
        vstd::utf8::encode_utf8(wanted_file(config.index, request.path)),
    ) {
        Some(path) => NextView::Load { path, head_only },
        None => NextView::Respond(message(403, "forbidden"@, head_only)),
    }
}

/// The string `s` without the slashes at its front.
fn without_slashes(s: &str) -> (r: String)
    ensures
        r@ == text::trim_slashes(s@),
{
    let chars: Vec<char> = text::chars_of(s);
    let n: usize = text::leading_slashes(chars.as_slice());
    text::string_of(chars.as_slice(), n, chars.len())
}

/// Handles a GET request, or a HEAD request if `head_only`.
pub fn handle_get(config: &Config, request: &Request, head_only: bool) -> (r: Next)
    ensures
        r@ == get_step(config@, request@, head_only),
{
    let wanted: String = if text::same_text(request.path.as_str(), "/") {
        config.index.clone()
    } else {
        without_slashes(request.path.as_str())
    };
    match path::safe_join(config.dir.as_slice(), wanted.as_str()) {
        Some(path) => Next::Load(Load { path, head_only }),
        None => Next::Respond(write_message(403, "forbidden", head_only)),
    }
}

/// The answer to a GET or HEAD request for the file at `path`.
pub open spec fn get_answer(path: Seq<u8>, head_only: bool, found: FoundView) -> Seq<u8> {
    match found {
        FoundView::Missing => message(404, "not found"@, head_only),
        FoundView::Unreadable => message(500, "read error"@, head_only),
        FoundView::Contents(contents) => response::response(
            200,
            path::media_type(path::extension(path)),
            contents,
            head_only,
            Seq::empty(),
        ),
    }
}

impl Load {
    /// The answer to the request.
    pub fn answer(&self, found: &Found) -> (r: Vec<u8>)
        ensures
            r@ == get_answer(self.path@, self.head_only, found@),
    {
        match found {
            Found::Missing => write_message(404, "not found", self.head_only),
            Found::Unreadable => write_message(500, "read error", self.head_only),
            Found::Contents(contents) => {
                let mut r: Vec<u8> = Vec::new();
                response::write_response(
                    &mut r,
                    200,
                    path::mime_for(self.path.as_slice()),
                    contents.as_slice(),
                    self.head_only,
                );
                proof {
                    assert(r@ =~= get_answer(self.path@, self.head_only, found@));
                }
                r
            },
        }
    }
}

/// Whether the app may save a file of this name.
pub open spec fn may_be_saved(name: Seq<char>) -> bool {
    name == "vocab.json"@ || name == ".vocab.json"@
}

/// The number of bytes that a request announces.
pub open spec fn announced_length(request: RequestView) -> Option<nat> {
    if request.headers.dom().contains("content-length"@) {
        text::parse_number(request.headers["content-length"@], usize::MAX as nat)
    } else {
        None
    }
}

/// What a PUT request leads to.
pub open spec fn put_step(config: ConfigView, request: RequestView) -> NextView {
    let name = text::trim_slashes(request.path);
    if !may_be_saved(name) {
        NextView::Respond(message(403, "PUT not allowed for this path"@, false))
    } else {
        match (
            path::safe_path(config.dir, vstd::utf8::encode_utf8(name)),
            announced_length(request),
        ) {
            (None, _) => NextView::Respond(message(403, "forbidden"@, false)),
            (Some(_), None) => NextView::Respond(message(411, "length required"@, false)),
            (Some(target), Some(len)) => if len > MAX_BODY_BYTES {
                NextView::Respond(message(413, "payload too large"@, false))
            } else {
                NextView::Receive { name, target, len }
            },
        }
    }
}

/// Handles a PUT request, up to its body.
pub fn handle_put(config: &Config, request: &Request) -> (r: Next)
    ensures
        r@ == put_step(config@, request@),
{
    let name: String = without_slashes(request.path.as_str());
    if !text::same_text(name.as_str(), "vocab.json") && !text::same_text(
        name.as_str(),
        ".vocab.json",
    ) {
        return Next::Respond(write_message(403, "PUT not allowed for this path", false));
    }
    let target: Vec<u8> = match path::safe_join(config.dir.as_slice(), name.as_str()) {
        Some(target) => target,
        None => {
            return Next::Respond(write_message(403, "forbidden", false));
        },
    };
    let announced: Option<u64> = match request.headers.get("content-length") {
        Some(value) => text::read_number(value.as_str(), usize::MAX as u64),
        None => None,
    };
    match announced {
        Some(len) => {
            if len > MAX_BODY_BYTES as u64 {
                Next::Respond(write_message(413, "payload too large", false))
            } else {
                Next::Receive(Upload { name, target, len: len as usize })
            }
        },
        None => Next::Respond(write_message(411, "length required", false)),
    }
}

/// Whether `b` is white space between the parts of a JSON text.
pub open spec fn is_json_space(b: u8) -> bool {
    b == 32 || b == 9 || b == 13 || b == 10
}

/// The number of bytes of the byte order mark at the front of `body`.
pub open spec fn mark_len(body: Seq<u8>) -> int {
    if body.len() >= 3 && body[0] == 0xef && body[1] == 0xbb && body[2] == 0xbf {
        3
    } else {
        0
    }
}

/// Whether the first byte of `body`, behind a byte order mark and white space, is an
/// opening brace.
pub open spec fn starts_with_brace(body: Seq<u8>) -> bool {
    exists|i: int|
        mark_len(body) <= i < body.len() && #[trigger] body[i] == 123 && forall|j: int|
            mark_len(body) <= j < i ==> is_json_space(#[trigger] body[j])
}

/// Whether `body` looks like a JSON object: its first byte, behind a byte order mark and
/// white space, is an opening brace.
pub fn looks_like_json_object(body: &[u8]) -> (r: bool)
    ensures
        r == starts_with_brace(body@),
{
    let mut i: usize = 0;
    if body.len() >= 3 && body[0] == 0xef && body[1] == 0xbb && body[2] == 0xbf {
        i = 3;
    }
    while i < body.len() && (body[i] == 32 || body[i] == 9 || body[i] == 13 || body[i] == 10)
        invariant
            mark_len(body@) <= i <= body@.len(),
            forall|j: int| mark_len(body@) <= j < i ==> is_json_space(#[trigger] body@[j]),
        decreases body@.len() - i,
    {
        i = i + 1;
    }
    i < body.len() && body[i] == 123
}

/// The name of the file that an upload of `name` with the number `serial` goes to first.
pub open spec fn temporary_name(name: Seq<char>, serial: SerialView) -> Seq<char> {
    "."@ + name + ".tmp."@ + text::decimal(serial.pid as nat) + "."@ + text::decimal(
        serial.number as nat,
    )
}

/// What the body of the upload with the number `serial` leads to.
pub open spec fn body_step(
    config: ConfigView,
    name: Seq<char>,
    target: Seq<u8>,
    body: Seq<u8>,
    serial: SerialView,
) -> SavingView {
    if starts_with_brace(body) {
        let dir = match path::parent(target) {
            Some(dir) => dir,
            None => config.dir,
        };
        SavingView::Store {
            temporary: path::join(dir, vstd::utf8::encode_utf8(temporary_name(name, serial))),
            target,
            contents: body,
            doing: DoingView::Create,
        }
    } else {
        SavingView::Respond(message(400, "body must be a JSON object"@, false))
    }
}

impl Upload {
    /// Handles the body of the request, which has the announced length. The file is saved
    /// next to its target first, under a name that no upload with another number has.
    pub fn receive(self, config: &Config, body: Vec<u8>, serial: Serial) -> (r: Saving)
        requires
            body@.len() == self.len,
        ensures
            r@ == body_step(config@, self.name@, self.target@, body@, serial@),
    {
        if !looks_like_json_object(body.as_slice()) {
            return Saving::Respond(write_message(400, "body must be a JSON object", false));
        }
        let name: String = ".".to_string().concat(self.name.as_str()).concat(".tmp.").concat(
            text::write_number(serial.pid() as u64).as_str(),
        ).concat(".").concat(text::write_number(serial.number()).as_str());
        let mut temporary: Vec<u8> = match path::parent_of(self.target.as_slice()) {
            Some(dir) => dir,
            None => slice_to_vec(config.dir.as_slice()),
        };
        path::push_name(&mut temporary, name.as_str().as_bytes());
        Saving::Store(
            Store { temporary, target: self.target, contents: body, steps: Steps { doing: Doing::Create } },
        )
    }
}

/// The answer to a PUT request, where moving the file failed for the reason `failure` if
/// it did.
pub open spec fn put_answer(failure: Option<Seq<char>>) -> Seq<u8> {
    match failure {
        Some(reason) => message(500, "rename failed: "@ + reason, false),
        None => response::response(204, Seq::empty(), Seq::empty(), false, Seq::empty()),
    }
}

/// What to do next to save a file, once what was to do is done, or failed for the reason
/// `failure`. A file that could not be moved is removed, whether or not that fails too;
/// another failure ends the connection.
pub open spec fn save_step(doing: DoingView, failure: Option<Seq<char>>) -> DoingView {
    match (doing, failure) {
        (DoingView::Create, None) => DoingView::Write,
        (DoingView::Write, None) => DoingView::Sync,
        (DoingView::Sync, None) => DoingView::Move,
        (DoingView::Move, None) => DoingView::Answer(None),
        (DoingView::Move, Some(reason)) => DoingView::Remove(reason),
        (DoingView::Remove(reason), _) => DoingView::Answer(Some(reason)),
        (DoingView::Answer(failure), _) => DoingView::Answer(failure),
        _ => DoingView::GiveUp,
    }
}

impl Store {
    /// What to do next.
    pub fn doing(&self) -> (r: &Doing)
        ensures
            r@ == self.steps@,
    {
        &self.steps.doing
    }

    /// Goes on when what was to do is done, or failed for the reason `failure`.
    pub fn next(&mut self, failure: Option<&str>)
        ensures
            final(self).steps@ == save_step(
                old(self).steps@,
                match failure {
                    Some(reason) => Some(reason@),
                    None => None,
                },
            ),
            final(self).temporary == old(self).temporary,
            final(self).target == old(self).target,
            final(self).contents == old(self).contents,
    {
        let doing: Doing = match (&self.steps.doing, failure) {
            (Doing::Create, None) => Doing::Write,
            (Doing::Write, None) => Doing::Sync,
            (Doing::Sync, None) => Doing::Move,
            (Doing::Move, None) => Doing::Answer(None),
            (Doing::Move, Some(reason)) => Doing::Remove(reason.to_string()),
            (Doing::Remove(reason), _) => Doing::Answer(Some(reason.clone())),
            (Doing::Answer(Some(reason)), _) => Doing::Answer(Some(reason.clone())),
            (Doing::Answer(None), _) => Doing::Answer(None),
            _ => Doing::GiveUp,
        };
        self.steps = Steps { doing };
    }

    /// The answer to the request, where moving the file failed for the reason `failure` if
    /// it did.
    pub fn answer(&self, failure: Option<&str>) -> (r: Vec<u8>)
        ensures
            r@ == put_answer(
                match failure {
                    Some(reason) => Some(reason@),
                    None => None,
                },
            ),
    {
        match failure {
            Some(reason) => write_message(
                500,
                "rename failed: ".to_string().concat(reason).as_str(),
                false,
            ),
            None => {
                let mut r: Vec<u8> = Vec::new();
                response::write_response(&mut r, 204, "", "".as_bytes(), false);
                proof {
                    reveal_strlit("");
                    assert(""@ =~= Seq::empty());
                    assert(r@ =~= put_answer(None));
                }
                r
            },
        }
    }
}

/// The header field that names the methods.
pub open spec fn allow_field() -> Seq<(Seq<char>, Seq<char>)> {
    seq![("Allow"@, ALLOWED_METHODS@)]
}

/// What a request leads to; none stands for a request that could not be read.
pub open spec fn request_step(config: ConfigView, request: Option<RequestView>) -> NextView {
    match request {
        None => NextView::Respond(message(400, "bad request"@, false)),
        Some(request) => if request.method == "GET"@ {
            get_step(config, request, false)
        } else if request.method == "HEAD"@ {
            get_step(config, request, true)
        } else if request.method == "PUT"@ {
            put_step(config, request)
        } else if request.method == "OPTIONS"@ {
            NextView::Respond(
                response::response(204, Seq::empty(), Seq::empty(), false, allow_field()),
            )
        } else {
            NextView::Respond(
                response::response(
                    405,
                    PLAIN_TEXT@,
                    vstd::utf8::encode_utf8("method not allowed"@),
                    false,
                    allow_field(),
                ),
            )
        },
    }
}

/// A response that names the methods that the server understands.
fn write_allowed(status: u16, content_type: &str, body: &str) -> (r: Vec<u8>)
    ensures
        r@ == response::response(
            status,
            content_type@,
            vstd::utf8::encode_utf8(body@),
            false,
            allow_field(),
        ),
{
    let mut r: Vec<u8> = Vec::new();
    let extra: [(&str, &str); 1] = [("Allow", ALLOWED_METHODS)];
    response::write_response_ex(&mut r, status, content_type, body.as_bytes(), false, &extra);
    proof {
        assert(response::pairs(extra@) =~= allow_field());
        assert(r@ =~= response::response(
            status,
            content_type@,
            vstd::utf8::encode_utf8(body@),
            false,
            allow_field(),
        ));
    }
    r
}

/// Handles the request of a connection; none stands for one that could not be read.
pub fn handle_connection(config: &Config, request: Option<&Request>) -> (r: Next)
    ensures
        r@ == request_step(
            config@,
            match request {
                Some(request) => Some(request@),
                None => None,
            },
        ),
{
    let request: &Request = match request {
        Some(request) => request,
        None => {
            return Next::Respond(write_message(400, "bad request", false));
        },
    };
    let method: &str = request.method.as_str();
    if text::same_text(method, "GET") {
        handle_get(config, request, false)
    } else if text::same_text(method, "HEAD") {
        handle_get(config, request, true)
    } else if text::same_text(method, "PUT") {
        handle_put(config, request)
    } else if text::same_text(method, "OPTIONS") {
        proof {
            reveal_strlit("");
            assert(""@ =~= Seq::empty());
        }
        Next::Respond(write_allowed(204, "", ""))
    } else {
        Next::Respond(write_allowed(405, PLAIN_TEXT, "method not allowed"))
    }
}

} // verus!
