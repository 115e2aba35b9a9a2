//! What each request leads to, and what it is answered.

use vstd::prelude::*;

use crate::config::ConfigView;
use crate::path;
use crate::request::RequestView;
use crate::response;
use crate::serial;
use crate::serial::{SerialView, SerialsView};
use crate::server;
use crate::server::{
    Doing, DoingView, Found, FoundView, Next, NextView, Saving, SavingView,
};
use crate::text;

verus! {

proof fn lemma_methods_differ()
    ensures
        "GET"@ != "HEAD"@,
        "GET"@ != "PUT"@,
        "GET"@ != "OPTIONS"@,
        "HEAD"@ != "PUT"@,
        "HEAD"@ != "OPTIONS"@,
        "PUT"@ != "OPTIONS"@,
{
    reveal_strlit("GET");
    reveal_strlit("HEAD");
    reveal_strlit("PUT");
    reveal_strlit("OPTIONS");
    assert("GET"@[0] == 'G' && "PUT"@[0] == 'P');
    assert("GET"@.len() == 3 && "HEAD"@.len() == 4 && "PUT"@.len() == 3 && "OPTIONS"@.len() == 7);
}

/// GET and HEAD ask for a file, without its contents in the case of HEAD, and PUT wants to
/// save one. OPTIONS is told the methods, and so is every other method, which is refused. A
/// request that could not be read is refused, too.
pub proof fn law_methods(config: ConfigView, request: RequestView)
    ensures
        request.method == "GET"@ ==> server::request_step(config, Some(request))
            == server::get_step(config, request, false),
        request.method == "HEAD"@ ==> server::request_step(config, Some(request))
            == server::get_step(config, request, true),
        request.method == "PUT"@ ==> server::request_step(config, Some(request))
            == server::put_step(config, request),
        request.method == "OPTIONS"@ ==> server::request_step(config, Some(request))
            == NextView::Respond(
            response::response(
                204,
                Seq::empty(),
                Seq::empty(),
                false,
                seq![("Allow"@, "GET, HEAD, PUT, OPTIONS"@)],
            ),
        ),
        request.method != "GET"@ && request.method != "HEAD"@ && request.method != "PUT"@
            && request.method != "OPTIONS"@ ==> server::request_step(config, Some(request))
            == NextView::Respond(
            response::response(
                405,
                "text/plain; charset=utf-8"@,
                vstd::utf8::encode_utf8("method not allowed"@),
                false,
                seq![("Allow"@, "GET, HEAD, PUT, OPTIONS"@)],
            ),
        ),
        server::request_step(config, None) == NextView::Respond(
            response::response(
                400,
                "text/plain; charset=utf-8"@,
                vstd::utf8::encode_utf8("bad request"@),
                false,
                Seq::empty(),
            ),
        ),
{
    lemma_methods_differ();
}

/// A single slash stands for the index file. Of every other path the slashes at its front
/// are left out, and what follows them is looked for in the served directory; where it leads
/// out of it, the request is refused.
pub proof fn law_files_are_looked_for(
    config: ConfigView,
    request: RequestView,
    head_only: bool,
    slashes: int,
)
    requires
        0 <= slashes <= request.path.len(),
        forall|j: int| 0 <= j < slashes ==> request.path[j] == '/',
        slashes < request.path.len() ==> request.path[slashes] != '/',
    ensures
        ({
            let wanted = if request.path == seq!['/'] {
                config.index
            } else {
                request.path.skip(slashes)
            };
            match path::safe_path(config.dir, vstd::utf8::encode_utf8(wanted)) {
                Some(path) => server::get_step(config, request, head_only) == (NextView::Load {
                    path,
                    head_only,
                }),
                None => server::get_step(config, request, head_only) == NextView::Respond(
                    response::response(
                        403,
                        "text/plain; charset=utf-8"@,
                        vstd::utf8::encode_utf8("forbidden"@),
                        head_only,
                        Seq::empty(),
                    ),
                ),
            }
        }),
{
    text::law_slashes_are_trimmed(request.path, slashes);
    reveal_strlit("/");
    assert("/"@ =~= seq!['/']);
}

/// A file that was read is sent whole, with the status 200 and its media type. One that is
/// missing is answered with 404, and one that cannot be read with 500.
pub proof fn law_files_are_answered(path: Seq<u8>, head_only: bool, contents: Seq<u8>)
    ensures
        server::get_answer(path, head_only, FoundView::Contents(contents)) == response::response(
            200,
            path::media_type(path::extension(path)),
            contents,
            head_only,
            Seq::empty(),
        ),
        server::get_answer(path, head_only, FoundView::Missing) == response::response(
            404,
            "text/plain; charset=utf-8"@,
            vstd::utf8::encode_utf8("not found"@),
            head_only,
            Seq::empty(),
        ),
        server::get_answer(path, head_only, FoundView::Unreadable) == response::response(
            500,
            "text/plain; charset=utf-8"@,
            vstd::utf8::encode_utf8("read error"@),
            head_only,
            Seq::empty(),
        ),
{
}

/// The answer to a request for a file begins with the status line of 200 if and only if the
/// file was read, with that of 404 if and only if it is missing, and with that of 500 if and
/// only if it could not be read. What was read stands at its end.
pub proof fn law_status_tells_what_was_found(path: Seq<u8>, head_only: bool, found: FoundView)
    ensures
        found is Contents <==> vstd::utf8::encode_utf8("HTTP/1.1 200 OK\r\n"@).is_prefix_of(
            server::get_answer(path, head_only, found),
        ),
        found is Missing <==> vstd::utf8::encode_utf8("HTTP/1.1 404 Not Found\r\n"@).is_prefix_of(
            server::get_answer(path, head_only, found),
        ),
        found is Unreadable <==> vstd::utf8::encode_utf8(
            "HTTP/1.1 500 Internal Server Error\r\n"@,
        ).is_prefix_of(server::get_answer(path, head_only, found)),
        !head_only ==> (found matches FoundView::Contents(contents) ==> contents.is_suffix_of(
            server::get_answer(path, false, found),
        )),
{
    let answer = server::get_answer(path, head_only, found);
    let (status, kind, body) = match found {
        FoundView::Contents(contents) => (
            200u16,
            path::media_type(path::extension(path)),
            contents,
        ),
        FoundView::Missing => (
            404u16,
            "text/plain; charset=utf-8"@,
            vstd::utf8::encode_utf8("not found"@),
        ),
        FoundView::Unreadable => (
            500u16,
            "text/plain; charset=utf-8"@,
            vstd::utf8::encode_utf8("read error"@),
        ),
    };
    response::law_status_lines(status, kind, body, head_only, Seq::empty());
    lemma_ninth_byte("HTTP/1.1 200 OK\r\n"@, '2');
    lemma_ninth_byte("HTTP/1.1 404 Not Found\r\n"@, '4');
    lemma_ninth_byte("HTTP/1.1 500 Internal Server Error\r\n"@, '5');
    assert forall|line: Seq<u8>| line.is_prefix_of(answer) && line.len() > 9 implies answer[9]
        == line[9] by {}
    if !head_only {
        let head = vstd::utf8::encode_utf8(
            response::response_head(status, kind, body.len(), Seq::empty()),
        );
        assert(answer == head + body);
        assert(body =~= answer.subrange(answer.len() - body.len(), answer.len() as int));
    }
}

proof fn lemma_ninth_byte(line: Seq<char>, c: char)
    requires
        (line == "HTTP/1.1 200 OK\r\n"@ && c == '2') || (line == "HTTP/1.1 404 Not Found\r\n"@ && c
            == '4') || (line == "HTTP/1.1 500 Internal Server Error\r\n"@ && c == '5'),
    ensures
        vstd::utf8::encode_utf8(line).len() > 9,
        vstd::utf8::encode_utf8(line)[9] == c as u8,
{
    reveal_strlit("HTTP/1.1 200 OK\r\n");
    reveal_strlit("HTTP/1.1 404 Not Found\r\n");
    reveal_strlit("HTTP/1.1 500 Internal Server Error\r\n");
    assert(line.len() > 9 && line[9] == c);
    vstd::utf8::is_ascii_chars_encode_utf8(line);
}

/// A PUT request for `vocab.json` or `.vocab.json`, behind any number of slashes, that
/// announces a number of bytes of at most 8 MiB, is taken: the file of that name in the
/// served directory is to be saved. Every other name is refused with the status 403, a
/// length that is missing or no number with 411, and a larger one with 413.
pub proof fn law_uploads_are_taken_or_refused(
    config: ConfigView,
    request: RequestView,
    slashes: int,
)
    requires
        0 <= slashes <= request.path.len(),
        forall|j: int| 0 <= j < slashes ==> request.path[j] == '/',
        slashes < request.path.len() ==> request.path[slashes] != '/',
    ensures
        ({
            let name = request.path.skip(slashes);
            let bytes = vstd::utf8::encode_utf8(name);
            let step = server::put_step(config, request);
            if name != "vocab.json"@ && name != ".vocab.json"@ {
                step == NextView::Respond(
                    response::response(
                        403,
                        "text/plain; charset=utf-8"@,
                        vstd::utf8::encode_utf8("PUT not allowed for this path"@),
                        false,
                        Seq::empty(),
                    ),
                )
            } else if !request.headers.dom().contains("content-length"@) || text::parse_number(
                request.headers["content-length"@],
                usize::MAX as nat,
            ) is None {
                step == NextView::Respond(
                    response::response(
                        411,
                        "text/plain; charset=utf-8"@,
                        vstd::utf8::encode_utf8("length required"@),
                        false,
                        Seq::empty(),
                    ),
                )
            } else {
                let len = text::parse_number(
                    request.headers["content-length"@],
                    usize::MAX as nat,
                )->0;
                if len > 8388608 {
                    step == NextView::Respond(
                        response::response(
                            413,
                            "text/plain; charset=utf-8"@,
                            vstd::utf8::encode_utf8("payload too large"@),
                            false,
                            Seq::empty(),
                        ),
                    )
                } else {
                    step == (NextView::Receive {
                        name,
                        target: if config.dir.len() == 0 || config.dir.last() == 47 {
                            config.dir + bytes
                        } else {
                            config.dir + seq![47u8] + bytes
                        },
                        len,
                    })
                }
            }
        }),
{
    let name = request.path.skip(slashes);
    text::law_slashes_are_trimmed(request.path, slashes);
    if name == "vocab.json"@ || name == ".vocab.json"@ {
        reveal_strlit("vocab.json");
        reveal_strlit(".vocab.json");
        vstd::utf8::is_ascii_chars_encode_utf8(name);
        text::lemma_encode_ascii(name, '/');
        path::law_single_parts_are_joined(config.dir, vstd::utf8::encode_utf8(name));
    }
}

/// A body looks like a JSON object if and only if its first byte is an opening brace, behind
/// white space, and before that a byte order mark, which may both be missing.
pub proof fn law_json_objects(mark: Seq<u8>, spaces: Seq<u8>, b: u8, rest: Seq<u8>)
    requires
        mark == seq![0xefu8, 0xbb, 0xbf] || mark.len() == 0 && !seq![
            0xefu8,
            0xbb,
            0xbf,
        ].is_prefix_of(spaces + seq![b] + rest),
        forall|j: int|
            0 <= j < spaces.len() ==> spaces[j] == 32 || spaces[j] == 9 || spaces[j] == 13
                || spaces[j] == 10,
        b != 32 && b != 9 && b != 13 && b != 10,
    ensures
        server::starts_with_brace(mark + spaces + seq![b] + rest) <==> b == 123,
{
    let body = mark + spaces + seq![b] + rest;
    let n = mark.len() as int;
    let k = n + spaces.len();
    assert(server::mark_len(body) == n) by {
        if mark.len() == 0 {
            assert(body =~= spaces + seq![b] + rest);
            if server::mark_len(body) == 3 {
                assert(seq![0xefu8, 0xbb, 0xbf] =~= body.subrange(0, 3));
            }
        } else {
            assert(body[0] == mark[0] && body[1] == mark[1] && body[2] == mark[2]);
        }
    }
    assert(body[k] == b);
    assert forall|j: int| n <= j < k implies server::is_json_space(#[trigger] body[j]) by {
        assert(body[j] == spaces[j - n]);
    }
    if server::starts_with_brace(body) {
        let i = choose|i: int|
            server::mark_len(body) <= i < body.len() && #[trigger] body[i] == 123 && forall|j: int|
                server::mark_len(body) <= j < i ==> server::is_json_space(#[trigger] body[j]);
        if i < k {
            assert(server::is_json_space(body[i]));
        } else if i > k {
            assert(server::is_json_space(body[k]));
        }
    }
}

/// White space alone, with a byte order mark before it or not, looks like no JSON object.
pub proof fn law_no_json(mark: Seq<u8>, spaces: Seq<u8>)
    requires
        mark == seq![0xefu8, 0xbb, 0xbf] || mark.len() == 0,
        forall|j: int|
            0 <= j < spaces.len() ==> spaces[j] == 32 || spaces[j] == 9 || spaces[j] == 13
                || spaces[j] == 10,
    ensures
        !server::starts_with_brace(mark + spaces),
{
    let body = mark + spaces;
    if server::starts_with_brace(body) {
        let i = choose|i: int|
            server::mark_len(body) <= i < body.len() && #[trigger] body[i] == 123 && forall|j: int|
                server::mark_len(body) <= j < i ==> server::is_json_space(#[trigger] body[j]);
        if i < mark.len() {
            assert(body[i] == mark[i]);
        } else {
            assert(body[i] == spaces[i - mark.len()]);
        }
    }
}

/// A body that looks like a JSON object is to be stored whole at its target, by way of a
/// hidden file in the directory of the target that is named after the file, the process and
/// the number of the upload. Every other body is refused with the status 400, which is not
/// what a saved file is answered.
pub proof fn law_bodies_are_stored_or_refused(
    config: ConfigView,
    name: Seq<char>,
    target: Seq<u8>,
    body: Seq<u8>,
    serial: SerialView,
)
    ensures
        server::starts_with_brace(body) ==> server::body_step(config, name, target, body, serial)
            == (SavingView::Store {
            temporary: path::join(
                if path::parent(target) is Some {
                    path::parent(target)->0
                } else {
                    config.dir
                },
                vstd::utf8::encode_utf8(
                    seq!['.'] + name + ".tmp."@ + text::decimal(serial.pid as nat) + seq!['.']
                        + text::decimal(serial.number as nat),
                ),
            ),
            target,
            contents: body,
            doing: DoingView::Create,
        }),
        !server::starts_with_brace(body) ==> server::body_step(config, name, target, body, serial)
            == SavingView::Respond(
            response::response(
                400,
                "text/plain; charset=utf-8"@,
                vstd::utf8::encode_utf8("body must be a JSON object"@),
                false,
                Seq::empty(),
            ),
        ),
        server::body_step(config, name, target, body, serial) matches SavingView::Respond(bytes)
            ==> bytes != server::put_answer(None) && vstd::utf8::encode_utf8(
            "HTTP/1.1 400 Bad Request\r\n"@,
        ).is_prefix_of(bytes),
{
    reveal_strlit(".");
    assert("."@ =~= seq!['.']);
    let text = vstd::utf8::encode_utf8("body must be a JSON object"@);
    let refused = response::response(
        400,
        "text/plain; charset=utf-8"@,
        text,
        false,
        Seq::empty(),
    );
    response::law_status_lines(400, "text/plain; charset=utf-8"@, text, false, Seq::empty());
    response::law_status_lines(204, Seq::empty(), Seq::empty(), false, Seq::empty());
    let line = vstd::utf8::encode_utf8("HTTP/1.1 400 Bad Request\r\n"@);
    let other = vstd::utf8::encode_utf8("HTTP/1.1 204 No Content\r\n"@);
    reveal_strlit("HTTP/1.1 400 Bad Request\r\n");
    reveal_strlit("HTTP/1.1 204 No Content\r\n");
    vstd::utf8::is_ascii_chars_encode_utf8("HTTP/1.1 400 Bad Request\r\n"@);
    vstd::utf8::is_ascii_chars_encode_utf8("HTTP/1.1 204 No Content\r\n"@);
    assert("HTTP/1.1 400 Bad Request\r\n"@[9] == '4' && "HTTP/1.1 204 No Content\r\n"@[9] == '2');
    assert(line[9] == 52 && other[9] == 50);
    assert(refused[9] == line[9]);
    assert(server::put_answer(None)[9] == other[9]);
}

/// A file that was saved is answered with the status 204 and no body, and one that could not
/// be moved to its place with 500 and the reason.
pub proof fn law_saves_are_answered(reason: Seq<char>)
    ensures
        server::put_answer(None) == response::response(
            204,
            Seq::empty(),
            Seq::empty(),
            false,
            Seq::empty(),
        ),
        server::put_answer(Some(reason)) == response::response(
            500,
            "text/plain; charset=utf-8"@,
            vstd::utf8::encode_utf8("rename failed: "@ + reason),
            false,
            Seq::empty(),
        ),
{
}

/// A save goes from creating the temporary file to writing, to syncing, to moving it, and to
/// the answer that confirms it. If moving fails, the temporary file is removed, and the
/// answer tells the reason, whether or not it could be removed. If an earlier step fails,
/// there is no answer. Nothing comes behind the end.
pub proof fn law_steps_of_a_save(reason: Seq<char>, came: Option<Seq<char>>)
    ensures
        server::save_step(DoingView::Create, None) is Write,
        server::save_step(DoingView::Write, None) is Sync,
        server::save_step(DoingView::Sync, None) is Move,
        server::save_step(DoingView::Move, None) == DoingView::Answer(None),
        server::save_step(DoingView::Create, Some(reason)) is GiveUp,
        server::save_step(DoingView::Write, Some(reason)) is GiveUp,
        server::save_step(DoingView::Sync, Some(reason)) is GiveUp,
        server::save_step(DoingView::Move, Some(reason)) == DoingView::Remove(reason),
        server::save_step(DoingView::Remove(reason), came) == DoingView::Answer(Some(reason)),
        server::save_step(DoingView::Answer(None), came) == DoingView::Answer(None),
        server::save_step(DoingView::Answer(Some(reason)), came) == DoingView::Answer(Some(reason)),
        server::save_step(DoingView::GiveUp, came) is GiveUp,
{
}

/// The numbers of a process are handed out in order, from nought on, each with the number of
/// the process, until there are no more.
pub proof fn law_numbers_are_handed_out(serials: SerialsView)
    ensures
        serials.taken < u64::MAX ==> serial::next_serial(serials) == Some(
            SerialView { pid: serials.pid, number: serials.taken },
        ),
        serials.taken == u64::MAX ==> serial::next_serial(serials) is None,
        serial::without_next(serials).pid == serials.pid,
        serials.taken < u64::MAX ==> serial::without_next(serials).taken == serials.taken + 1,
        serials.taken == u64::MAX ==> serial::without_next(serials).taken == u64::MAX,
{
}

/// What to do next, what was found, and how far a save has come, are what the values hold.
pub proof fn law_steps_are_seen(next: Next, found: Found, saving: Saving, doing: Doing)
    ensures
        match next {
            Next::Respond(bytes) => next@ == NextView::Respond(bytes@),
            Next::Load(load) => next@ == (NextView::Load {
                path: load.path@,
                head_only: load.head_only,
            }),
            Next::Receive(upload) => next@ == (NextView::Receive {
                name: upload.name@,
                target: upload.target@,
                len: upload.len as nat,
            }),
        },
        match found {
            Found::Missing => found@ is Missing,
            Found::Unreadable => found@ is Unreadable,
            Found::Contents(contents) => found@ == FoundView::Contents(contents@),
        },
        match saving {
            Saving::Respond(bytes) => saving@ == SavingView::Respond(bytes@),
            Saving::Store(store) => saving@ == (SavingView::Store {
                temporary: store.temporary@,
                target: store.target@,
                contents: store.contents@,
                doing: store.steps@,
            }),
        },
        match doing {
            Doing::Create => doing@ is Create,
            Doing::Write => doing@ is Write,
            Doing::Sync => doing@ is Sync,
            Doing::Move => doing@ is Move,
            Doing::Remove(reason) => doing@ == DoingView::Remove(reason@),
            Doing::Answer(Some(reason)) => doing@ == DoingView::Answer(Some(reason@)),
            Doing::Answer(None) => doing@ == DoingView::Answer(None),
            Doing::GiveUp => doing@ is GiveUp,
        },
{
}

} // verus!
