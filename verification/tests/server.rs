use std::collections::BTreeMap;

use kanaweb_server::config::Config;
use kanaweb_server::headers::Headers;
use kanaweb_server::request::{read_request, Request};
use kanaweb_server::serial::{Serial, Serials};
use kanaweb_server::server::{
    handle_connection, handle_get, handle_put, looks_like_json_object, Doing, Found, Load, Next,
    Saving, Store, Upload, MAX_BODY_BYTES,
};

fn config() -> Config {
    Config {
        host: "127.0.0.1".to_string(),
        port: 8080,
        dir: b"/srv".to_vec(),
        index: "Flashcards.html".to_string(),
    }
}

fn request(method: &str, path: &str, length: Option<&str>) -> Request {
    let mut headers = Headers::new();
    if let Some(length) = length {
        headers.insert("content-length".to_string(), length.to_string());
    }
    Request { method: method.to_string(), path: path.to_string(), headers }
}

fn plain(status: &str, message: &str) -> String {
    format!(
        "HTTP/1.1 {status}\r\nServer: kanaweb-server\r\nConnection: close\r\nCache-Control: no-store\r\nContent-Type: text/plain; charset=utf-8\r\nContent-Length: {}\r\n\r\n{message}",
        message.len()
    )
}

fn answer(next: Next) -> String {
    match next {
        Next::Respond(bytes) => String::from_utf8(bytes).unwrap(),
        other => panic!("{other:?}"),
    }
}

fn load(next: Next) -> Load {
    match next {
        Next::Load(load) => load,
        other => panic!("{other:?}"),
    }
}

fn upload(next: Next) -> Upload {
    match next {
        Next::Receive(upload) => upload,
        other => panic!("{other:?}"),
    }
}

fn serial(pid: u32, number: usize) -> Serial {
    let mut serials = Serials::new(pid);
    for _ in 0..number {
        assert!(serials.take().is_some());
    }
    serials.take().unwrap()
}

fn store(saving: Saving) -> Store {
    match saving {
        Saving::Store(store) => store,
        other => panic!("{other:?}"),
    }
}

#[test]
fn unreadable_requests() {
    assert_eq!(answer(handle_connection(&config(), None)), plain("400 Bad Request", "bad request"));
}

#[test]
fn options_and_other_methods() {
    let options = answer(handle_connection(&config(), Some(&request("OPTIONS", "*", None))));
    assert_eq!(
        options,
        "HTTP/1.1 204 No Content\r\nServer: kanaweb-server\r\nConnection: close\r\nCache-Control: no-store\r\nContent-Length: 0\r\nAllow: GET, HEAD, PUT, OPTIONS\r\n\r\n"
    );
    for method in ["POST", "DELETE", "get", ""] {
        let refused = answer(handle_connection(&config(), Some(&request(method, "/", None))));
        assert_eq!(
            refused,
            "HTTP/1.1 405 Method Not Allowed\r\nServer: kanaweb-server\r\nConnection: close\r\nCache-Control: no-store\r\nContent-Type: text/plain; charset=utf-8\r\nContent-Length: 18\r\nAllow: GET, HEAD, PUT, OPTIONS\r\n\r\nmethod not allowed"
        );
    }
}

#[test]
fn files_are_found_below_the_directory() {
    for (path, file) in [
        ("/", "/srv/Flashcards.html"),
        ("/Quiz.html", "/srv/Quiz.html"),
        ("//etc/passwd", "/srv/etc/passwd"),
        ("static/foo.js", "/srv/static/foo.js"),
        ("", "/srv"),
        ("//", "/srv"),
    ] {
        let found = load(handle_connection(&config(), Some(&request("GET", path, None))));
        assert_eq!(found.path, file.as_bytes(), "{path}");
        assert!(!found.head_only);
        let found = load(handle_connection(&config(), Some(&request("HEAD", path, None))));
        assert_eq!(found.path, file.as_bytes(), "{path}");
        assert!(found.head_only);
    }
}

#[test]
fn paths_that_lead_out_are_forbidden() {
    for path in ["/..", "/../x", "/a/../../etc/passwd", ".."] {
        let refused = answer(handle_get(&config(), &request("GET", path, None), false));
        assert_eq!(refused, plain("403 Forbidden", "forbidden"));
        let refused = answer(handle_get(&config(), &request("HEAD", path, None), true));
        assert_eq!(refused + "forbidden", plain("403 Forbidden", "forbidden"));
    }
}

#[test]
fn answers_to_get_and_head() {
    for head_only in [false, true] {
        let load = Load { path: b"/srv/a.css".to_vec(), head_only };
        let body = |s: &'static str| if head_only { s } else { "" };
        let text = |found: Found| String::from_utf8(load.answer(&found)).unwrap();
        assert_eq!(text(Found::Missing) + body("not found"), plain("404 Not Found", "not found"));
        assert_eq!(
            text(Found::Unreadable) + body("read error"),
            plain("500 Internal Server Error", "read error")
        );
        assert_eq!(
            text(Found::Contents(b"p{}".to_vec())) + body("p{}"),
            "HTTP/1.1 200 OK\r\nServer: kanaweb-server\r\nConnection: close\r\nCache-Control: no-store\r\nContent-Type: text/css; charset=utf-8\r\nContent-Length: 3\r\n\r\np{}"
        );
    }
}

#[test]
fn only_vocabulary_files_can_be_put() {
    for path in ["/", "/x.json", "/a/vocab.json", "/Vocab.json", "/vocab.json/", "/./vocab.json", "/../vocab.json", ""] {
        let refused = answer(handle_put(&config(), &request("PUT", path, Some("2"))));
        assert_eq!(refused, plain("403 Forbidden", "PUT not allowed for this path"), "{path}");
    }
    for (path, name) in [("/vocab.json", "vocab.json"), ("/.vocab.json", ".vocab.json"), ("vocab.json", "vocab.json"), ("//vocab.json", "vocab.json")] {
        let taken = upload(handle_connection(&config(), Some(&request("PUT", path, Some("+02")))));
        assert_eq!(taken.name, name);
        assert_eq!(taken.target, format!("/srv/{name}").into_bytes());
        assert_eq!(taken.len, 2);
    }
}

#[test]
fn the_length_of_an_upload() {
    assert_eq!(MAX_BODY_BYTES, 8 * 1024 * 1024);
    for length in [None, Some(""), Some("x"), Some("-1"), Some("1.5"), Some("99999999999999999999999")] {
        let refused = answer(handle_put(&config(), &request("PUT", "/vocab.json", length)));
        assert_eq!(refused, plain("411 Length Required", "length required"));
    }
    let refused = answer(handle_put(&config(), &request("PUT", "/vocab.json", Some("8388609"))));
    assert_eq!(refused, plain("413 Payload Too Large", "payload too large"));
    let taken = upload(handle_put(&config(), &request("PUT", "/vocab.json", Some("8388608"))));
    assert_eq!(taken.len, 8388608);
    assert_eq!(upload(handle_put(&config(), &request("PUT", "/vocab.json", Some("0")))).len, 0);
}

#[test]
fn bodies_that_look_like_json_objects() {
    for body in ["{", "{}", " \t\r\n{", "\u{feff}{\"a\":1}", "\u{feff} {"] {
        assert!(looks_like_json_object(body.as_bytes()), "{body:?}");
    }
    for body in ["", " ", "[]", "x{", "\u{feff}", " \u{feff}{", "\u{feff}\u{feff}{", "\u{a0}{", "\u{b}{"] {
        assert!(!looks_like_json_object(body.as_bytes()), "{body:?}");
    }
    assert!(!looks_like_json_object(b"\xef\xbb{"));
}

#[test]
fn uploads_are_saved_next_to_their_target() {
    let put = request("PUT", "/.vocab.json", Some("2"));
    let saving = upload(handle_put(&config(), &put)).receive(
        &config(),
        b"{}".to_vec(),
        serial(4294967295, 12),
    );
    let saved = store(saving);
    assert_eq!(saved.temporary, b"/srv/..vocab.json.tmp.4294967295.12");
    assert_eq!(saved.target, b"/srv/.vocab.json");
    assert_eq!(saved.contents, b"{}");
    assert_eq!(
        saved.answer(None),
        b"HTTP/1.1 204 No Content\r\nServer: kanaweb-server\r\nConnection: close\r\nCache-Control: no-store\r\nContent-Length: 0\r\n\r\n"
    );
    assert_eq!(
        String::from_utf8(saved.answer(Some("no space"))).unwrap(),
        plain("500 Internal Server Error", "rename failed: no space")
    );
}

#[test]
fn uploads_that_are_no_objects() {
    let put = request("PUT", "/vocab.json", Some("2"));
    match upload(handle_put(&config(), &put)).receive(&config(), b"[]".to_vec(), serial(1, 0)) {
        Saving::Respond(bytes) => assert_eq!(
            String::from_utf8(bytes).unwrap(),
            plain("400 Bad Request", "body must be a JSON object")
        ),
        other => panic!("{other:?}"),
    }
}

fn temporary(name: &str, serial: Serial) -> Vec<u8> {
    let put = request("PUT", name, Some("2"));
    store(upload(handle_put(&config(), &put)).receive(&config(), b"{}".to_vec(), serial)).temporary
}

#[test]
fn uploads_do_not_share_their_temporary_files() {
    let mut all = Vec::new();
    for name in ["/vocab.json", "/.vocab.json"] {
        for (pid, number) in [(1, 0), (1, 1), (1, 11), (11, 0), (11, 1), (111, 1)] {
            all.push(temporary(name, serial(pid, number)));
        }
    }
    for (i, path) in all.iter().enumerate() {
        assert!(!all[..i].contains(path), "{path:?}");
        assert_ne!(path, b"/srv/vocab.json");
        assert_ne!(path, b"/srv/.vocab.json");
    }
    assert_eq!(all[0], b"/srv/.vocab.json.tmp.1.0");
    assert_eq!(all[1], b"/srv/.vocab.json.tmp.1.1");
}

/// Files, by their paths.
type Files = BTreeMap<Vec<u8>, Vec<u8>>;

/// Does what a save has to do next. Writing takes two turns.
fn do_next(store: &mut Store, files: &mut Files) {
    match store.doing() {
        Doing::Create => {
            files.insert(store.temporary.clone(), Vec::new());
        }
        Doing::Write => {
            let file = files.get_mut(&store.temporary).unwrap();
            let (first, rest) = store.contents.split_at(2);
            if file.is_empty() {
                file.extend_from_slice(first);
                return;
            }
            file.extend_from_slice(rest);
        }
        Doing::Sync => {}
        Doing::Move => {
            let contents = files.remove(&store.temporary).unwrap();
            files.insert(store.target.clone(), contents);
        }
        other => panic!("{other:?}"),
    }
    store.next(None);
}

/// What the file holds after each step when the steps of two uploads are done in the given
/// order.
fn saved_together(order: &[usize]) -> Vec<Option<Vec<u8>>> {
    let put = request("PUT", "/vocab.json", Some("4"));
    let mut serials = Serials::new(5);
    let mut stores: Vec<Store> = [b"{1 }", b"{ 2}"]
        .iter()
        .map(|body| {
            let taken = upload(handle_put(&config(), &put));
            store(taken.receive(&config(), body.to_vec(), serials.take().unwrap()))
        })
        .collect();
    let target = stores[0].target.clone();
    let mut files = Files::new();
    files.insert(target.clone(), b"old".to_vec());
    let mut seen = Vec::new();
    for &by in order {
        do_next(&mut stores[by], &mut files);
        seen.push(files.get(&target).cloned());
    }
    for store in &stores {
        assert!(matches!(store.doing(), Doing::Answer(None)));
    }
    assert_eq!(files.len(), 1);
    seen
}

#[test]
fn saving_is_atomic() {
    for order in 0u32..1024 {
        if order.count_ones() != 5 {
            continue;
        }
        let order: Vec<usize> = (0..10).map(|i| (order >> i & 1) as usize).collect();
        let seen = saved_together(&order);
        for contents in &seen {
            let contents = contents.as_deref().unwrap();
            assert!([&b"old"[..], b"{1 }", b"{ 2}"].contains(&contents), "{order:?}");
        }
        let last = seen[9].as_deref().unwrap();
        assert_eq!(last, if order[9] == 0 { b"{1 }" } else { b"{ 2}" });
    }
}

fn doing(store: &Store) -> String {
    format!("{:?}", store.doing())
}

fn saved() -> Store {
    let put = request("PUT", "/vocab.json", Some("2"));
    store(upload(handle_put(&config(), &put)).receive(&config(), b"{}".to_vec(), serial(1, 0)))
}

#[test]
fn the_steps_of_a_save() {
    let mut store = saved();
    for step in ["Create", "Write", "Sync", "Move", "Answer(None)", "Answer(None)"] {
        assert_eq!(doing(&store), step);
        store.next(None);
    }
    assert_eq!(store.temporary, b"/srv/.vocab.json.tmp.1.0");
    assert_eq!(store.target, b"/srv/vocab.json");
    assert_eq!(store.contents, b"{}");
    store.next(Some("late"));
    assert_eq!(doing(&store), "Answer(None)");
}

#[test]
fn saves_that_fail() {
    for failing in 0..3 {
        let mut store = saved();
        for _ in 0..failing {
            store.next(None);
        }
        store.next(Some("no space"));
        assert_eq!(doing(&store), "GiveUp");
        store.next(None);
        assert_eq!(doing(&store), "GiveUp");
    }
    for removal in [None, Some("gone")] {
        let mut store = saved();
        for _ in 0..3 {
            store.next(None);
        }
        store.next(Some("denied"));
        assert_eq!(doing(&store), "Remove(\"denied\")");
        store.next(removal);
        assert_eq!(doing(&store), "Answer(Some(\"denied\"))");
        assert_ne!(store.answer(Some("denied")), store.answer(None));
    }
}

#[test]
fn serial_numbers() {
    let mut serials = Serials::new(9);
    for number in 0..5 {
        let serial = serials.take().unwrap();
        assert_eq!(serial.pid(), 9);
        assert_eq!(serial.number(), number);
    }
}

/// The answer up to its first empty line.
fn cut(answer: &str) -> &str {
    &answer[..answer.find("\r\n\r\n").unwrap() + 4]
}

#[test]
fn the_answer_to_head_is_cut_off() {
    let text = |bytes: Vec<u8>| String::from_utf8(bytes).unwrap();
    let found = [
        Found::Contents(b"a\r\n\r\nb".to_vec()),
        Found::Contents(Vec::new()),
        Found::Missing,
        Found::Unreadable,
    ];
    for path in ["/x.css", "/x.unknown", "/"] {
        let get = load(handle_get(&config(), &request("GET", path, None), false));
        let head = load(handle_get(&config(), &request("HEAD", path, None), true));
        for found in &found {
            assert_eq!(text(head.answer(found)), cut(&text(get.answer(found))));
        }
    }
    let get = answer(handle_get(&config(), &request("GET", "/../x", None), false));
    let head = answer(handle_get(&config(), &request("HEAD", "/../x", None), true));
    assert_eq!(get, plain("403 Forbidden", "forbidden"));
    assert_eq!(head, cut(&get));
}

#[test]
fn the_root_of_the_file_system() {
    let mut config = config();
    config.dir = b"/".to_vec();
    let put = request("PUT", "/vocab.json", Some("2"));
    let saved = store(upload(handle_put(&config, &put)).receive(&config, b"{}".to_vec(), serial(7, 0)));
    assert_eq!(saved.temporary, b"/.vocab.json.tmp.7.0");
    assert_eq!(saved.target, b"/vocab.json");
}

#[test]
fn what_was_put_is_given_back() {
    let body = "{\"かな\": 1}";
    let input = format!("PUT /vocab.json HTTP/1.1\r\nContent-Length: {}\r\n\r\n{body}", body.len());
    let mut reader: &[u8] = input.as_bytes();
    let put = read_request(&mut reader).unwrap();
    let taken = upload(handle_connection(&config(), Some(&put)));
    assert_eq!(taken.len, reader.len());
    let saved = store(taken.receive(&config(), reader.to_vec(), serial(1, 2)));
    assert_eq!(saved.contents, body.as_bytes());

    let mut reader: &[u8] = b"GET /vocab.json?t=1 HTTP/1.1\r\n\r\n";
    let get = read_request(&mut reader).unwrap();
    let found = load(handle_connection(&config(), Some(&get)));
    assert_eq!(found.path, saved.target);
    let answer = String::from_utf8(found.answer(&Found::Contents(saved.contents))).unwrap();
    assert_eq!(
        answer,
        format!(
            "HTTP/1.1 200 OK\r\nServer: kanaweb-server\r\nConnection: close\r\nCache-Control: no-store\r\nContent-Type: application/json; charset=utf-8\r\nContent-Length: {}\r\n\r\n{body}",
            body.len()
        )
    );
}

#[test]
fn what_was_asked_for_is_served() {
    let mut reader: &[u8] = b"GET /Quiz.html?a=/b HTTP/1.1\r\nHost: x\r\n\r\n";
    let get = read_request(&mut reader).unwrap();
    let found = load(handle_connection(&config(), Some(&get)));
    assert_eq!(found.path, b"/srv/Quiz.html");
}
