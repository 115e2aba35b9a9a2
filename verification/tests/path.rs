use std::path::{Component, Path, PathBuf};

use kanaweb_server::path::{mime_for, parent_of, push_name, safe_join};

fn joined(base: &str, rel: &str) -> Option<String> {
    safe_join(base.as_bytes(), rel).map(|path| String::from_utf8(path).unwrap())
}

#[test]
fn safe_paths_stay_below_their_base() {
    for (rel, path) in [
        ("", "/srv/app"),
        (".", "/srv/app"),
        ("./", "/srv/app"),
        ("vocab.json", "/srv/app/vocab.json"),
        ("static/foo.js", "/srv/app/static/foo.js"),
        ("a//b/./c/", "/srv/app/a/b/c"),
        ("...", "/srv/app/..."),
        ("..a/b..", "/srv/app/..a/b.."),
        ("かな/x y", "/srv/app/かな/x y"),
        ("%2e%2e/x", "/srv/app/%2e%2e/x"),
        ("a\\..\\b", "/srv/app/a\\..\\b"),
    ] {
        assert_eq!(joined("/srv/app", rel).as_deref(), Some(path), "{rel}");
        let mut std_path = std::path::PathBuf::from("/srv/app");
        std_path.push(rel);
        assert_eq!(std_path, std::path::Path::new(path));
    }
}

#[test]
fn paths_that_lead_out_are_refused() {
    for rel in ["/", "/etc/passwd", "..", "../x", "a/../b", "a/..", "./..", "a/b/../../.."] {
        assert_eq!(joined("/srv/app", rel), None, "{rel}");
    }
}

#[test]
fn bases_of_every_kind() {
    assert_eq!(joined("/", "a").as_deref(), Some("/a"));
    assert_eq!(joined("", "a/b").as_deref(), Some("a/b"));
    assert_eq!(joined("/srv/", "a").as_deref(), Some("/srv/a"));
    assert_eq!(safe_join(b"/\xff", "a"), Some(b"/\xff/a".to_vec()));
    let mut path = b"/srv".to_vec();
    push_name(&mut path, b"x");
    assert_eq!(path, b"/srv/x");
}

#[test]
fn media_types() {
    for (name, mime) in [
        ("/a/index.html", "text/html; charset=utf-8"),
        ("a.htm", "text/html; charset=utf-8"),
        ("a.js", "application/javascript; charset=utf-8"),
        ("a.mjs", "application/javascript; charset=utf-8"),
        ("a.css", "text/css; charset=utf-8"),
        ("vocab.json", "application/json; charset=utf-8"),
        (".vocab.json", "application/json; charset=utf-8"),
        ("a.svg", "image/svg+xml"),
        ("a.png", "image/png"),
        ("a.jpg", "image/jpeg"),
        ("a.jpeg", "image/jpeg"),
        ("a.gif", "image/gif"),
        ("a.webp", "image/webp"),
        ("a.ico", "image/x-icon"),
        ("a.txt", "text/plain; charset=utf-8"),
        ("a.md", "text/plain; charset=utf-8"),
        ("a.woff", "font/woff"),
        ("a.woff2", "font/woff2"),
        ("a.ttf", "font/ttf"),
        ("a.otf", "font/otf"),
        ("a.wasm", "application/wasm"),
        ("A.HtMl", "text/html; charset=utf-8"),
        ("a.tar.PNG", "image/png"),
        ("a.png/", "image/png"),
        ("a.png/.", "image/png"),
        ("a", "application/octet-stream"),
        ("a.", "application/octet-stream"),
        (".html", "application/octet-stream"),
        ("a.html/b", "application/octet-stream"),
        ("a.html/..", "application/octet-stream"),
        ("a.xyz", "application/octet-stream"),
        ("/", "application/octet-stream"),
        ("", "application/octet-stream"),
    ] {
        assert_eq!(mime_for(name.as_bytes()), mime, "{name}");
    }
    assert_eq!(mime_for(b"a.\xff"), "application/octet-stream");
}

/// All texts of up to `len` characters of `alphabet`.
fn texts(alphabet: &[char], len: usize) -> Vec<String> {
    let mut all = vec![String::new()];
    let mut start = 0;
    for _ in 0..len {
        let end = all.len();
        for i in start..end {
            for c in alphabet {
                let mut s = all[i].clone();
                s.push(*c);
                all.push(s);
            }
        }
        start = end;
    }
    all
}

#[test]
fn joining_goes_by_the_components_of_std() {
    for base in ["/srv", "/", "", "a/"] {
        for rel in texts(&['/', '.', 'a'], 7) {
            let mut expected = Some(PathBuf::from(base));
            if Path::new(&rel).is_absolute() {
                expected = None;
            }
            for c in Path::new(&rel).components() {
                match c {
                    Component::Normal(part) => {
                        if let Some(path) = &mut expected {
                            path.push(part);
                        }
                    }
                    Component::CurDir => {}
                    _ => expected = None,
                }
            }
            let expected = expected.map(|path| path.into_os_string().into_string().unwrap());
            assert_eq!(joined(base, &rel), expected, "{base} {rel}");
        }
    }
}

#[test]
fn directories_are_those_of_std() {
    for path in texts(&['/', '.', 'a'], 8) {
        let expected = std::path::Path::new(&path).parent().map(|dir| dir.to_str().unwrap());
        let found = parent_of(path.as_bytes()).map(|dir| String::from_utf8(dir).unwrap());
        assert_eq!(found.as_deref(), expected, "{path}");
    }
}

#[test]
fn extensions_are_those_of_std() {
    for path in texts(&['/', '.', 'j', 'S'], 7) {
        let ext = std::path::Path::new(&path).extension().map(|ext| ext.to_str().unwrap());
        let script = ext.map(|ext| ext.to_ascii_lowercase()) == Some("js".to_string());
        assert_eq!(mime_for(path.as_bytes()) == mime_for(b"a.js"), script, "{path}");
    }
}
