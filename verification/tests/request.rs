use kanaweb_server::headers::Headers;
use kanaweb_server::request::{
    read_request, Progress, Request, RequestError, Step, MAX_HEADER_BYTES,
};

fn read(input: &[u8]) -> (Result<Request, RequestError>, Vec<u8>) {
    let mut reader: &[u8] = input;
    let request = read_request(&mut reader);
    (request, reader.to_vec())
}

fn header<'a>(request: &'a Request, name: &str) -> Option<&'a str> {
    request.headers.get(name).map(|s| s.as_str())
}

#[test]
fn a_request_is_read_and_its_body_left() {
    let (request, rest) = read(
        b"PUT /vocab.json?x=1&y HTTP/1.1\r\nHost: localhost\r\nContent-Length:  7 \r\n\r\n{\"a\":1}",
    );
    let request = request.unwrap();
    assert_eq!(request.method, "PUT");
    assert_eq!(request.path, "/vocab.json");
    assert_eq!(header(&request, "host"), Some("localhost"));
    assert_eq!(header(&request, "content-length"), Some("7"));
    assert_eq!(header(&request, "Content-Length"), None);
    assert_eq!(rest, b"{\"a\":1}");
}

#[test]
fn line_ends_and_the_end_of_the_input() {
    let (request, rest) = read(b"GET /a\n\nbody");
    assert_eq!(request.unwrap().path, "/a");
    assert_eq!(rest, b"body");
    let (request, rest) = read(b"GET /a HTTP/1.0\r\nX: y");
    let request = request.unwrap();
    assert_eq!(header(&request, "x"), Some("y"));
    assert_eq!(rest, b"");
    let (request, rest) = read(b"GET /a\r\n\r\r\n..");
    assert_eq!(request.unwrap().path, "/a");
    assert_eq!(rest, b"..");
}

#[test]
fn request_lines() {
    for (line, method, path) in [
        ("GET / HTTP/1.1", "GET", "/"),
        ("GET  /x HTTP/1.1", "GET", ""),
        (" /x", "", "/x"),
        ("GET ", "GET", ""),
        ("GET ?q", "GET", ""),
        ("GET /a?b?c d", "GET", "/a"),
        ("GET /かな.html HTTP/1.1", "GET", "/かな.html"),
    ] {
        let (request, _) = read(format!("{line}\r\n\r\n").as_bytes());
        let request = request.unwrap();
        assert_eq!(request.method, method, "{line}");
        assert_eq!(request.path, path, "{line}");
    }
}

#[test]
fn header_lines() {
    let (request, _) = read(
        "GET / HTTP/1.1\r\nno colon here\r\n X-Up : a:b \r\nÄ-B:\u{3000}v\u{a0}\r\nTwice: 1\r\nTWICE: 2\r\nEmpty:\r\n: nameless\r\n\r\n"
            .as_bytes(),
    );
    let request = request.unwrap();
    assert_eq!(header(&request, "x-up"), Some("a:b"));
    assert_eq!(header(&request, "Ä-b"), Some("v"));
    assert_eq!(header(&request, "twice"), Some("2"));
    assert_eq!(header(&request, "empty"), Some(""));
    assert_eq!(header(&request, ""), Some("nameless"));
    assert_eq!(header(&request, "no colon here"), None);
}

#[test]
fn requests_that_cannot_be_read() {
    let (r, rest) = read(b"");
    assert_eq!(r.unwrap_err(), RequestError::Empty);
    assert_eq!(rest, b"");
    let (r, rest) = read(b"\r\nGET / HTTP/1.1\r\n");
    assert_eq!(r.unwrap_err(), RequestError::NoPath);
    assert_eq!(rest, b"GET / HTTP/1.1\r\n");
    assert_eq!(read(b"GET").0.unwrap_err(), RequestError::NoPath);
    assert_eq!(read(b"GET /\xff\r\n").0.unwrap_err(), RequestError::NotUtf8);
    let (r, rest) = read(b"GET / x\r\nA: \xc0\x80\r\n\r\nbody");
    assert_eq!(r.unwrap_err(), RequestError::NotUtf8);
    assert_eq!(rest, b"\r\nbody");
    assert_eq!(RequestError::Empty.message(), "empty request");
    assert_eq!(RequestError::NoPath.message(), "no path");
    assert_eq!(RequestError::HeadersTooLarge.message(), "headers too large");
    assert_eq!(RequestError::NotUtf8.message(), "stream did not contain valid UTF-8");
}

#[test]
fn header_lines_are_capped() {
    assert_eq!(MAX_HEADER_BYTES, 16 * 1024);
    let line = "a".repeat(40000);
    let fits = format!("GET /{line} HTTP/1.1\r\n{}\r\n\r\n", "x".repeat(16384 - 4));
    assert_eq!(read(fits.as_bytes()).0.unwrap().path.len(), 40001);
    let over = format!("GET / HTTP/1.1\r\n{}\r\n\r\n", "x".repeat(16384 - 3));
    assert_eq!(read(over.as_bytes()).0.unwrap_err(), RequestError::HeadersTooLarge);
    let single = format!("GET / HTTP/1.1\r\n{}\r\n", "x".repeat(16384));
    assert_eq!(read(single.as_bytes()).0.unwrap_err(), RequestError::HeadersTooLarge);
    let many = format!("GET / HTTP/1.1\r\n{}\r\n", "a: b\r\n".repeat(2731));
    assert_eq!(read(many.as_bytes()).0.unwrap_err(), RequestError::HeadersTooLarge);
    let many = format!("GET / HTTP/1.1\r\n{}\r\n", "a: b\r\n".repeat(2730));
    assert!(read(many.as_bytes()).0.is_ok());
    let unended = format!("GET / HTTP/1.1\r\nA: {}", "x".repeat(16384 - 3));
    assert!(read(unended.as_bytes()).0.is_ok());
    let unended = format!("GET / HTTP/1.1\r\nA: {}", "x".repeat(16384 - 2));
    assert_eq!(read(unended.as_bytes()).0.unwrap_err(), RequestError::HeadersTooLarge);
    let body = format!("GET / HTTP/1.1\r\n{}\r\n\r\n{line}", "x".repeat(16384 - 4));
    assert_eq!(read(body.as_bytes()).1, line.as_bytes());
}

#[test]
fn lines_can_be_given_one_by_one() {
    let step = Progress::RequestLine.next_line(b"HEAD /x HTTP/1.1\r\n");
    let Step::More(progress) = step else { panic!("{step:?}") };
    let step = progress.next_line(b"A: 1\r\n");
    let Step::More(progress) = step else { panic!("{step:?}") };
    let step = progress.next_line(b"\r\n");
    let Step::Done(request) = step else { panic!("{step:?}") };
    assert_eq!(request.method, "HEAD");
    assert_eq!(header(&request, "a"), Some("1"));
    let step = Progress::RequestLine.next_line(b"");
    assert!(matches!(step, Step::Failed(RequestError::Empty)));
}

#[test]
fn what_follows_a_head_does_not_matter() {
    for tail in ["", "x", "\r\n", "A: 2\r\n\r\n"] {
        let (request, rest) = read(format!("GET /p HTTP/1.1\r\nA: 1\r\n\r\n{tail}").as_bytes());
        assert_eq!(header(&request.unwrap(), "a"), Some("1"));
        assert_eq!(rest, tail.as_bytes());
    }
}

#[test]
fn heads_that_cannot_be_read_leave_their_rest() {
    for tail in ["", "x", "A: 2\r\n\r\n"] {
        let mut input = b"GET /p HTTP/1.1\r\n\xff\r\nA: 1\r\n\r\n".to_vec();
        input.extend_from_slice(tail.as_bytes());
        let (request, rest) = read(&input);
        assert_eq!(request.unwrap_err(), RequestError::NotUtf8);
        assert_eq!(rest, format!("A: 1\r\n\r\n{tail}").as_bytes());
    }
}

#[test]
fn requests_are_normal() {
    let (request, rest) = read(b"GET /a?b c\r\n\r A:b \r : x:\r y \r\r\n\n");
    let request = request.unwrap();
    assert_eq!(request.method, "GET");
    assert_eq!(request.path, "/a");
    assert_eq!(header(&request, "a"), Some("b \r : x:\r y"));
    assert!(rest.is_empty());
}

#[test]
fn header_maps_keep_the_last_value() {
    let mut headers = Headers::new();
    assert!(headers.get("a").is_none());
    headers.insert("a".to_string(), "1".to_string());
    headers.insert("b".to_string(), "2".to_string());
    headers.insert("a".to_string(), "3".to_string());
    assert_eq!(headers.get("a").unwrap(), "3");
    assert_eq!(headers.get("b").unwrap(), "2");
    assert!(headers.get("c").is_none());
}

/// All texts of up to `len` characters of `alphabet`.
fn texts(alphabet: &[char], len: usize) -> Vec<String> {
    let mut all = vec![String::new()];
    let mut start = 0;
    for _ in 0..len {
        let end = all.len();
        for i in start..end {
            for c in alphabet {
                let mut s = all[i].clone();
                s.push(*c);
                all.push(s);
            }
        }
        start = end;
    }
    all
}

#[test]
fn request_lines_are_split_as_std_splits_them() {
    for line in texts(&[' ', '?', '\r', 'あ'], 7) {
        let (request, _) = read(format!("{line}\n\n").as_bytes());
        let whole = line.trim_end_matches(['\r', '\n']);
        let mut parts = whole.splitn(3, ' ');
        let method = parts.next().unwrap();
        match parts.next() {
            Some(target) => {
                let request = request.unwrap();
                assert_eq!(request.method, method, "{line:?}");
                assert_eq!(request.path, target.split('?').next().unwrap(), "{line:?}");
            }
            None => assert_eq!(request.unwrap_err(), RequestError::NoPath, "{line:?}"),
        }
    }
}

#[test]
fn header_lines_are_split_as_std_splits_them() {
    for line in texts(&[' ', ':', '\r', 'A', '\u{85}'], 6) {
        let (request, rest) = read(format!("GET /\n{line}\n\nbody").as_bytes());
        let request = request.unwrap();
        let whole = line.trim_end_matches(['\r', '\n']);
        if whole.is_empty() {
            assert_eq!(rest, b"\nbody", "{line:?}");
            continue;
        }
        assert_eq!(rest, b"body", "{line:?}");
        if let Some(i) = whole.find(':') {
            let name = whole[..i].trim().to_ascii_lowercase();
            assert_eq!(header(&request, &name), Some(whole[i + 1..].trim()), "{line:?}");
        }
    }
}
