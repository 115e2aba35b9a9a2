use kanaweb_server::request::read_request;
use kanaweb_server::response::{status_reason, write_response, write_response_ex};

#[test]
fn reasons() {
    for (code, reason) in [
        (200, "OK"),
        (204, "No Content"),
        (400, "Bad Request"),
        (403, "Forbidden"),
        (404, "Not Found"),
        (405, "Method Not Allowed"),
        (411, "Length Required"),
        (413, "Payload Too Large"),
        (500, "Internal Server Error"),
        (418, "OK"),
    ] {
        assert_eq!(status_reason(code), reason);
    }
}

#[test]
fn a_response_is_appended() {
    let mut w = b"before".to_vec();
    write_response(&mut w, 200, "image/png", b"\x89PNG", false);
    let expected: &[u8] = b"beforeHTTP/1.1 200 OK\r\nServer: kanaweb-server\r\nConnection: close\r\nCache-Control: no-store\r\nContent-Type: image/png\r\nContent-Length: 4\r\n\r\n\x89PNG";
    assert_eq!(w, expected);
}

#[test]
fn fields_are_left_out_and_added() {
    let mut w = Vec::new();
    write_response_ex(&mut w, 204, "", b"", false, &[("Allow", "GET"), ("X", "y")]);
    let expected: &[u8] = b"HTTP/1.1 204 No Content\r\nServer: kanaweb-server\r\nConnection: close\r\nCache-Control: no-store\r\nContent-Length: 0\r\nAllow: GET\r\nX: y\r\n\r\n";
    assert_eq!(w, expected);
}

#[test]
fn the_answer_to_head_announces_the_body() {
    let (mut get, mut head) = (Vec::new(), Vec::new());
    write_response(&mut get, 200, "text/css", b"p{}", false);
    write_response(&mut head, 200, "text/css", b"p{}", true);
    head.extend_from_slice(b"p{}");
    assert_eq!(get, head);
}

#[test]
fn responses_are_read_back() {
    let mut w = Vec::new();
    write_response_ex(&mut w, 405, "text/plain", b"12345678901", false, &[("Allow", "GET")]);
    let mut reader: &[u8] = &w;
    let head = read_request(&mut reader).unwrap();
    assert_eq!(head.method, "HTTP/1.1");
    assert_eq!(head.path, "405");
    assert_eq!(head.headers.get("content-length").unwrap(), "11");
    assert_eq!(head.headers.get("allow").unwrap(), "GET");
    assert_eq!(reader, b"12345678901");
}
