//! Paths, as the bytes that name a file: joining them safely, and the media type that a
//! file name stands for.
//!
//! These are Unix paths: parts are separated by slashes, a slash at the front leads to the
//! root, and every other byte, a backslash or a colon too, is part of a name. Paths of
//! other systems, with their drives and backslashes, are not meant.

use vstd::prelude::*;
use vstd::slice::{slice_subrange, slice_to_vec};

use crate::text;

verus! {

/// Whether a part of a path names something: neither nothing nor a single dot.
pub open spec fn is_name(part: Seq<u8>) -> bool {
    part.len() > 0 && part != seq![46u8]
}

/// The part `..`, which leads to the parent directory.
pub open spec fn dot_dot() -> Seq<u8> {
    seq![46u8, 46u8]
}

/// The names in a path, in order: what stands between its slashes, without empty parts
/// and single dots.
pub open spec fn names(path: Seq<u8>) -> Seq<Seq<u8>> {
    text::split(path, 47u8).filter(|part: Seq<u8>| is_name(part))
}

/// The path of `name` in the directory `base`.
pub open spec fn join(base: Seq<u8>, name: Seq<u8>) -> Seq<u8> {
    if base.len() == 0 || base.last() == 47u8 {
        base + name
    } else {
        base.push(47u8) + name
    }
}

/// The path that leads from `base` through one name after the other.
pub open spec fn join_all(base: Seq<u8>, names: Seq<Seq<u8>>) -> Seq<u8>
    decreases names.len(),
{
    if names.len() == 0 {
        base
    } else {
        join(join_all(base, names.drop_last()), names.last())
    }
}

/// The path of `rel` below `base`; none if `rel` is absolute or goes through a parent
/// directory.
pub open spec fn safe_path(base: Seq<u8>, rel: Seq<u8>) -> Option<Seq<u8>> {
    if rel.len() > 0 && rel[0] == 47u8 || names(rel).contains(dot_dot()) {
        None
    } else {
        Some(join_all(base, names(rel)))
    }
}

/// The byte sequences that the vectors hold.
pub open spec fn contents(v: Seq<Vec<u8>>) -> Seq<Seq<u8>> {
    v.map_values(|part: Vec<u8>| part@)
}

/// The first part of a path, as a name if it is one, comes before the names in the rest.
proof fn lemma_names_step(path: Seq<u8>)
    ensures
        names(path) == (if is_name(text::before(path, 47u8)) {
            seq![text::before(path, 47u8)]
        } else {
            Seq::empty()
        }) + (if text::find(path, 47u8) < path.len() {
            names(text::behind(path, 47u8))
        } else {
            Seq::empty()
        }),
{
    let p = |part: Seq<u8>| is_name(part);
    let part = text::before(path, 47u8);
    text::lemma_find(path, 47u8);
    reveal_with_fuel(Seq::filter, 2);
    assert(seq![part].drop_last() =~= Seq::<Seq<u8>>::empty());
    assert(seq![part].filter(p) =~= if is_name(part) {
        seq![part]
    } else {
        Seq::empty()
    });
    if text::find(path, 47u8) < path.len() {
        Seq::filter_distributes_over_add(
            seq![part],
            text::split(text::behind(path, 47u8), 47u8),
            p,
        );
    } else {
        assert(part =~= path);
        assert(names(path) =~= seq![part].filter(p) + Seq::empty());
    }
}

/// The names in a path.
fn names_of(path: &[u8]) -> (r: Vec<Vec<u8>>)
    ensures
        contents(r@) == names(path@),
{
    let mut r: Vec<Vec<u8>> = Vec::new();
    let mut at: usize = 0;
    proof {
        assert(path@.skip(0) =~= path@);
        assert(contents(r@) + names(path@) =~= names(path@));
    }
    loop
        invariant
            at <= path@.len(),
            contents(r@) + names(path@.skip(at as int)) == names(path@),
        decreases path@.len() - at,
    {
        let rest: &[u8] = slice_subrange(path, at, path.len());
        let n: usize = text::find_byte(rest, 47u8);
        let part: &[u8] = slice_subrange(rest, 0, n);
        let ghost found = contents(r@);
        proof {
            lemma_names_step(rest@);
            assert(seq![46u8][0] == 46u8);
            assert(part@.len() == 1 && part@[0] == 46u8 ==> part@ =~= seq![46u8]);
        }
        if part.len() > 1 || part.len() == 1 && part[0] != 46u8 {
            r.push(slice_to_vec(part));
            proof {
                assert(contents(r@) =~= found + seq![part@]);
            }
        }
        if n == rest.len() {
            proof {
                assert(contents(r@) =~= names(path@));
            }
            return r;
        }
        proof {
            assert(rest@.skip(n + 1) =~= path@.skip(at + n + 1));
            assert(contents(r@) + names(path@.skip(at + n + 1)) =~= found + names(rest@));
        }
        at = at + n + 1;
    }
}

/// Appends `name` to the path `out`.
pub fn push_name(out: &mut Vec<u8>, name: &[u8])
    ensures
        final(out)@ == join(old(out)@, name@),
{
    if out.len() > 0 && out[out.len() - 1] != 47u8 {
        out.push(47u8);
    }
    out.extend_from_slice(name);
    proof {
        assert(out@ =~= join(old(out)@, name@));
    }
}

/// Joins `rel` onto `base`. Refuses whatever would lead out of `base`: absolute paths and
/// paths through a parent directory.
pub fn safe_join(base: &[u8], rel: &str) -> (r: Option<Vec<u8>>)
    ensures
        match r {
            Some(path) => safe_path(base@, vstd::utf8::encode_utf8(rel@)) == Some(path@),
            None => safe_path(base@, vstd::utf8::encode_utf8(rel@)) is None,
        },
{
    let bytes: &[u8] = rel.as_bytes();
    if bytes.len() > 0 && bytes[0] == 47u8 {
        return None;
    }
    let parts: Vec<Vec<u8>> = names_of(bytes);
    let ghost all = names(bytes@);
    let mut out: Vec<u8> = slice_to_vec(base);
    let mut i: usize = 0;
    while i < parts.len()
        invariant
            i <= parts@.len(),
            contents(parts@) == all,
            forall|j: int| 0 <= j < i ==> all[j] != dot_dot(),
            out@ == join_all(base@, all.take(i as int)),
            all == names(vstd::utf8::encode_utf8(rel@)),
        decreases parts@.len() - i,
    {
        proof {
            assert(all[i as int] == parts@[i as int]@);
        }
        if parts[i].len() == 2 && parts[i][0] == 46u8 && parts[i][1] == 46u8 {
            proof {
                assert(all[i as int] =~= dot_dot());
                assert(all.contains(dot_dot()));
            }
            return None;
        }
        proof {
            assert(dot_dot()[0] == 46u8 && dot_dot()[1] == 46u8);
            assert(all.take(i + 1).drop_last() =~= all.take(i as int));
        }
        push_name(&mut out, parts[i].as_slice());
        i = i + 1;
    }
    proof {
        assert(all.take(all.len() as int) =~= all);
    }
    Some(out)
}

/// Whether a name names something in the directory that it is looked up in.
pub open spec fn is_plain(name: Seq<u8>) -> bool {
    is_name(name) && name != dot_dot() && !name.contains(47u8)
}

proof fn lemma_names_of_name(name: Seq<u8>)
    requires
        is_name(name),
        !name.contains(47u8),
    ensures
        names(name) == seq![name],
{
    text::lemma_find(name, 47u8);
    reveal_with_fuel(Seq::filter, 2);
    assert(seq![name].drop_last() =~= Seq::<Seq<u8>>::empty());
    assert(names(name) =~= seq![name]);
}

pub proof fn lemma_names_join(base: Seq<u8>, name: Seq<u8>)
    requires
        is_name(name),
        !name.contains(47u8),
    ensures
        names(join(base, name)) == names(base).push(name),
{
    let p = |part: Seq<u8>| is_name(part);
    lemma_names_of_name(name);
    if base.len() == 0 {
        assert(join(base, name) =~= name);
        reveal_with_fuel(Seq::filter, 2);
        assert(seq![base].drop_last() =~= Seq::<Seq<u8>>::empty());
        assert(names(base) =~= Seq::empty());
        assert(names(base).push(name) =~= seq![name]);
    } else {
        let dir = if base.last() == 47u8 { base.drop_last() } else { base };
        text::lemma_split_join(dir, 47u8, name);
        assert(join(base, name) =~= dir.push(47u8) + name);
        Seq::filter_distributes_over_add(text::split(dir, 47u8), text::split(name, 47u8), p);
        if base.last() == 47u8 {
            let nothing = Seq::<u8>::empty();
            text::lemma_split_join(dir, 47u8, nothing);
            assert(base =~= dir.push(47u8) + nothing);
            Seq::filter_distributes_over_add(
                text::split(dir, 47u8),
                text::split(nothing, 47u8),
                p,
            );
            reveal_with_fuel(Seq::filter, 2);
            assert(seq![nothing].drop_last() =~= Seq::<Seq<u8>>::empty());
            assert(names(nothing) =~= Seq::empty());
        }
        assert(names(join(base, name)) =~= names(base).push(name));
    }
}

proof fn lemma_join_all(base: Seq<u8>, parts: Seq<Seq<u8>>)
    requires
        forall|i: int| 0 <= i < parts.len() ==> is_name(#[trigger] parts[i]) && !parts[i].contains(47u8),
    ensures
        names(join_all(base, parts)) == names(base) + parts,
        base.is_prefix_of(join_all(base, parts)),
    decreases parts.len(),
{
    if parts.len() > 0 {
        lemma_join_all(base, parts.drop_last());
        lemma_names_join(join_all(base, parts.drop_last()), parts.last());
        assert(parts =~= parts.drop_last().push(parts.last()));
        assert(names(base) + parts =~= (names(base) + parts.drop_last()).push(parts.last()));
    } else {
        assert(names(base) + parts =~= names(base));
    }
}

proof fn lemma_names_are_names(path: Seq<u8>)
    ensures
        forall|i: int|
            0 <= i < names(path).len() ==> is_name(#[trigger] names(path)[i])
                && !names(path)[i].contains(47u8),
{
    let p = |part: Seq<u8>| is_name(part);
    let parts = text::split(path, 47u8);
    assert forall|i: int| 0 <= i < names(path).len() implies is_name(#[trigger] names(path)[i])
        && !names(path)[i].contains(47u8) by {
        parts.lemma_filter_pred(p, i);
        assert(names(path).contains(names(path)[i]));
        parts.lemma_filter_contains_rev(p, names(path)[i]);
        let j = choose|j: int| 0 <= j < parts.len() && parts[j] == names(path)[i];
        text::lemma_split_parts(path, 47u8, j);
    }
}

/// A safe path stays below its base: it is the base, followed by plain names only, so that
/// looking up one after the other never leaves the base.
pub proof fn law_safe_path_stays_below(base: Seq<u8>, rel: Seq<u8>)
    requires
        safe_path(base, rel) is Some,
    ensures
        base.is_prefix_of(safe_path(base, rel)->0),
        names(safe_path(base, rel)->0) == names(base) + names(rel),
        forall|i: int| 0 <= i < names(rel).len() ==> is_plain(#[trigger] names(rel)[i]),
{
    lemma_names_are_names(rel);
    lemma_join_all(base, names(rel));
    assert forall|i: int| 0 <= i < names(rel).len() implies is_plain(
        #[trigger] names(rel)[i],
    ) by {
        assert(names(rel).contains(names(rel)[i]));
    }
}

/// A single plain name is always safe, and is joined to the base as it is.
pub proof fn law_plain_name_is_safe(base: Seq<u8>, name: Seq<u8>)
    requires
        is_plain(name),
    ensures
        safe_path(base, name) == Some(join(base, name)),
{
    lemma_names_of_name(name);
    assert(name.contains(name[0]));
    assert(names(name).drop_last() =~= Seq::<Seq<u8>>::empty());
    reveal_with_fuel(join_all, 2);
}

/// Where the names of a path can begin: behind its root, or behind a dot for the current
/// directory at its front.
pub open spec fn body_start(path: Seq<u8>) -> int {
    if path.len() > 0 && (path[0] == 47u8 || path[0] == 46u8 && (path.len() == 1 || path[1]
        == 47u8)) {
        1
    } else {
        0
    }
}

/// What stands in `path` behind its last slash from `start` on.
pub open spec fn last_part(path: Seq<u8>, start: int) -> Seq<u8> {
    path.skip(start + text::find_last(path.skip(start), 47u8) + 1)
}

/// What stands in `path` before its last slash from `start` on.
pub open spec fn without_last_part(path: Seq<u8>, start: int) -> Seq<u8> {
    let slash = text::find_last(path.skip(start), 47u8);
    path.take(if slash < 0 {
        start
    } else {
        start + slash
    })
}

/// `path` without what stands behind its last name.
pub open spec fn trim_back(path: Seq<u8>, start: int) -> Seq<u8>
    decreases path.len(),
{
    if 0 <= start < path.len() && !is_name(last_part(path, start)) {
        proof {
            text::lemma_find_last(path.skip(start), 47u8);
        }
        trim_back(without_last_part(path, start), start)
    } else {
        path
    }
}

/// The directory of what `path` names; none for the root and for no path at all.
pub open spec fn parent(path: Seq<u8>) -> Option<Seq<u8>> {
    let start = body_start(path);
    let named = trim_back(path, start);
    if named.len() > start {
        Some(trim_back(without_last_part(named, start), start))
    } else if path.len() == 0 || path[0] == 47u8 {
        None
    } else {
        Some(Seq::empty())
    }
}

/// Removes from the end of `path` what does not name anything.
fn trim_back_to(path: &mut Vec<u8>, start: usize)
    ensures
        final(path)@ == trim_back(old(path)@, start as int),
{
    loop
        invariant
            trim_back(path@, start as int) == trim_back(old(path)@, start as int),
        decreases path@.len(),
    {
        if path.len() <= start {
            return ;
        }
        let part: usize = last_part_of(path.as_slice(), start);
        let len: usize = path.len() - part;
        proof {
            assert(seq![46u8][0] == 46u8);
            assert(len == 1 && path@[part as int] == 46u8 ==> last_part(path@, start as int)
                =~= seq![46u8]);
        }
        if len > 1 || len == 1 && path[part] != 46u8 {
            return ;
        }
        cut_last_part(path, start);
    }
}

/// The place where the last part of `path` begins.
fn last_part_of(path: &[u8], start: usize) -> (n: usize)
    requires
        start < path@.len(),
    ensures
        start <= n <= path@.len(),
        n == start + text::find_last(path@.skip(start as int), 47u8) + 1,
        last_part(path@, start as int) == path@.skip(n as int),
{
    let mut n: usize = path.len();
    while n > start && path[n - 1] != 47u8
        invariant
            start <= n <= path@.len(),
            forall|j: int| n <= j < path@.len() ==> path@[j] != 47u8,
        decreases n,
    {
        n = n - 1;
    }
    proof {
        text::lemma_find_last_is(path@.skip(start as int), 47u8, n - start - 1);
    }
    n
}

/// Removes the last part of `path`, and the slash before it.
fn cut_last_part(path: &mut Vec<u8>, start: usize)
    requires
        start < old(path)@.len(),
    ensures
        final(path)@ == without_last_part(old(path)@, start as int),
        final(path)@.len() < old(path)@.len(),
{
    let part: usize = last_part_of(path.as_slice(), start);
    path.truncate(
        if part > start {
            part - 1
        } else {
            start
        },
    );
}

/// The directory of what `path` names; none for the root and for no path at all.
pub fn parent_of(path: &[u8]) -> (r: Option<Vec<u8>>)
    ensures
        match r {
            Some(dir) => parent(path@) == Some(dir@),
            None => parent(path@) is None,
        },
{
    let start: usize = if path.len() > 0 && (path[0] == 47u8 || path[0] == 46u8 && (path.len() == 1
        || path[1] == 47u8)) {
        1
    } else {
        0
    };
    let mut dir: Vec<u8> = slice_to_vec(path);
    trim_back_to(&mut dir, start);
    if dir.len() > start {
        cut_last_part(&mut dir, start);
        trim_back_to(&mut dir, start);
        Some(dir)
    } else if path.len() == 0 || path[0] == 47u8 {
        None
    } else {
        Some(Vec::new())
    }
}

/// Whether the names of `path` can begin at `start`.
spec fn may_start(path: Seq<u8>, start: int) -> bool {
    start == 0 || start == 1 && body_start(path) == 1
}

proof fn lemma_no_names(path: Seq<u8>)
    requires
        path.len() == 0 || path == seq![47u8] || path == seq![46u8],
    ensures
        names(path) == Seq::<Seq<u8>>::empty(),
{
    let nothing = Seq::<u8>::empty();
    lemma_names_step(nothing);
    assert(text::before(nothing, 47u8) =~= nothing);
    assert(names(nothing) =~= Seq::empty());
    if path.len() == 0 {
        assert(path =~= nothing);
    } else {
        lemma_names_step(path);
        text::lemma_find(path, 47u8);
        if path[0] == 47u8 {
            text::lemma_find_is(path, 47u8, 0);
            assert(text::behind(path, 47u8) =~= nothing);
            assert(text::before(path, 47u8) =~= nothing);
        } else {
            assert(text::before(path, 47u8) =~= path);
        }
        assert(names(path) =~= Seq::empty());
    }
}

/// A path names what it names without its last part, and what its last part names.
proof fn lemma_last_part(path: Seq<u8>, start: int)
    requires
        may_start(path, start),
        start < path.len(),
    ensures
        may_start(without_last_part(path, start), start),
        start <= without_last_part(path, start).len() < path.len(),
        names(path) == names(without_last_part(path, start)) + (if is_name(
            last_part(path, start),
        ) {
            seq![last_part(path, start)]
        } else {
            Seq::empty()
        }),
{
    let body = path.skip(start);
    let slash = text::find_last(body, 47u8);
    let rest = without_last_part(path, start);
    let part = last_part(path, start);
    let p = |part: Seq<u8>| is_name(part);
    text::lemma_find_last(body, 47u8);
    assert forall|j: int| 0 <= j < part.len() implies part[j] != 47u8 by {
        assert(part[j] == body[slash + 1 + j]);
    }
    lemma_names_step(part);
    text::lemma_find_is(part, 47u8, part.len() as int);
    assert(text::before(part, 47u8) =~= part);
    let own = if is_name(part) {
        seq![part]
    } else {
        Seq::empty()
    };
    assert(names(part) =~= own);
    if slash >= 0 {
        assert(path[start + slash] == 47u8) by {
            assert(body[slash] == path[start + slash]);
        }
        text::lemma_split_join(rest, 47u8, part);
        assert(path =~= rest.push(47u8) + part);
        Seq::filter_distributes_over_add(text::split(rest, 47u8), text::split(part, 47u8), p);
    } else {
        let nothing = Seq::<u8>::empty();
        lemma_no_names(nothing);
        if start == 0 {
            assert(path =~= part);
            assert(rest =~= nothing);
        } else {
            assert(path[0] == 47u8) by {
                if path[0] != 47u8 {
                    assert(body[0] == path[1]);
                }
            }
            text::lemma_split_join(nothing, 47u8, part);
            assert(path =~= nothing.push(47u8) + part);
            Seq::filter_distributes_over_add(
                text::split(nothing, 47u8),
                text::split(part, 47u8),
                p,
            );
            assert(rest =~= seq![47u8]);
            lemma_no_names(rest);
        }
    }
    assert(names(path) =~= names(rest) + own);
}

proof fn lemma_trim_back(path: Seq<u8>, start: int)
    requires
        may_start(path, start),
        start <= path.len(),
    ensures
        names(trim_back(path, start)) == names(path),
        may_start(trim_back(path, start), start),
        start <= trim_back(path, start).len() <= path.len(),
        trim_back(path, start).len() > start ==> is_name(
            last_part(trim_back(path, start), start),
        ),
    decreases path.len(),
{
    if start < path.len() && !is_name(last_part(path, start)) {
        lemma_last_part(path, start);
        lemma_trim_back(without_last_part(path, start), start);
        assert(names(path) =~= names(without_last_part(path, start)));
    }
}

/// The directory of a path is named by all of its names but the last one.
pub proof fn law_parent_drops_the_last_name(path: Seq<u8>)
    ensures
        names(path).len() > 0 ==> parent(path) is Some && names(parent(path)->0) == names(
            path,
        ).drop_last(),
{
    let start = body_start(path);
    let named = trim_back(path, start);
    lemma_trim_back(path, start);
    if named.len() > start {
        lemma_last_part(named, start);
        lemma_trim_back(without_last_part(named, start), start);
        assert(names(path).drop_last() =~= names(without_last_part(named, start)));
    } else {
        assert(named.len() == start);
        if start == 1 {
            assert(named[0] == 47u8 || named[0] == 46u8);
            assert(named =~= seq![named[0]]);
        }
        lemma_no_names(named);
    }
}

/// Upper case ASCII letters become lower case ones.
pub open spec fn byte_lower(b: u8) -> u8 {
    if 65 <= b <= 90 {
        (b + 32) as u8
    } else {
        b
    }
}

/// What stands behind the last dot of the last name in `path`, in lower case. A name whose
/// only dot is its first byte has no extension.
pub open spec fn extension(path: Seq<u8>) -> Seq<u8> {
    if names(path).len() == 0 || names(path).last() == dot_dot() {
        Seq::empty()
    } else {
        let name = names(path).last();
        let dot = text::find_last(name, 46u8);
        if dot > 0 {
            name.skip(dot + 1).map_values(|b: u8| byte_lower(b))
        } else {
            Seq::empty()
        }
    }
}

/// The media type that an extension stands for.
pub open spec fn media_type(ext: Seq<u8>) -> Seq<char> {
    let is = |name: Seq<char>| ext == vstd::utf8::encode_utf8(name);
    if is("html"@) || is("htm"@) {
        "text/html; charset=utf-8"@
    } else if is("js"@) || is("mjs"@) {
        "application/javascript; charset=utf-8"@
    } else if is("css"@) {
        "text/css; charset=utf-8"@
    } else if is("json"@) {
        "application/json; charset=utf-8"@
    } else if is("svg"@) {
        "image/svg+xml"@
    } else if is("png"@) {
        "image/png"@
    } else if is("jpg"@) || is("jpeg"@) {
        "image/jpeg"@
    } else if is("gif"@) {
        "image/gif"@
    } else if is("webp"@) {
        "image/webp"@
    } else if is("ico"@) {
        "image/x-icon"@
    } else if is("txt"@) || is("md"@) {
        "text/plain; charset=utf-8"@
    } else if is("woff"@) {
        "font/woff"@
    } else if is("woff2"@) {
        "font/woff2"@
    } else if is("ttf"@) {
        "font/ttf"@
    } else if is("otf"@) {
        "font/otf"@
    } else if is("wasm"@) {
        "application/wasm"@
    } else {
        "application/octet-stream"@
    }
}

/// The extension of the file that `path` names.
fn extension_of(path: &[u8]) -> (r: Vec<u8>)
    ensures
        r@ == extension(path@),
{
    let parts: Vec<Vec<u8>> = names_of(path);
    let ghost all = names(path@);
    let mut r: Vec<u8> = Vec::new();
    proof {
        assert(parts@.len() == all.len());
    }
    if parts.len() == 0 {
        return r;
    }
    let name: &[u8] = parts[parts.len() - 1].as_slice();
    proof {
        assert(all.last() == name@);
    }
    if name.len() == 2 && name[0] == 46u8 && name[1] == 46u8 {
        proof {
            assert(name@ =~= dot_dot());
        }
        return r;
    }
    proof {
        assert(dot_dot()[0] == 46u8 && dot_dot()[1] == 46u8);
    }
    let mut end: usize = name.len();
    while end > 0 && name[end - 1] != 46u8
        invariant
            end <= name@.len(),
            forall|j: int| end <= j < name@.len() ==> name@[j] != 46u8,
        decreases end,
    {
        end = end - 1;
    }
    proof {
        text::lemma_find_last_is(name@, 46u8, end - 1);
    }
    if end < 2 {
        return r;
    }
    let ghost suffix = name@.skip(end as int);
    let mut i: usize = end;
    while i < name.len()
        invariant
            end <= i <= name@.len(),
            suffix == name@.skip(end as int),
            r@ == suffix.take(i - end).map_values(|b: u8| byte_lower(b)),
        decreases name@.len() - i,
    {
        let b: u8 = name[i];
        let ghost done = r@;
        r.push(
            if 65 <= b && b <= 90 {
                b + 32
            } else {
                b
            },
        );
        i = i + 1;
        proof {
            assert(suffix.take(i - end) =~= suffix.take(i - 1 - end).push(b));
            assert(r@ =~= suffix.take(i - end).map_values(|b: u8| byte_lower(b)));
        }
    }
    proof {
        assert(suffix.take(suffix.len() as int) =~= suffix);
    }
    r
}

/// The media type of the file that `path` names, by its extension.
pub fn mime_for(path: &[u8]) -> (r: &'static str)
    ensures
        r@ == media_type(extension(path@)),
{
    let found: Vec<u8> = extension_of(path);
    let ext: &[u8] = found.as_slice();
    if text::same_bytes(ext, "html".as_bytes()) || text::same_bytes(ext, "htm".as_bytes()) {
        "text/html; charset=utf-8"
    } else if text::same_bytes(ext, "js".as_bytes()) || text::same_bytes(ext, "mjs".as_bytes()) {
        "application/javascript; charset=utf-8"
    } else if text::same_bytes(ext, "css".as_bytes()) {
        "text/css; charset=utf-8"
    } else if text::same_bytes(ext, "json".as_bytes()) {
        "application/json; charset=utf-8"
    } else if text::same_bytes(ext, "svg".as_bytes()) {
        "image/svg+xml"
    } else if text::same_bytes(ext, "png".as_bytes()) {
        "image/png"
    } else if text::same_bytes(ext, "jpg".as_bytes()) || text::same_bytes(ext, "jpeg".as_bytes()) {
        "image/jpeg"
    } else if text::same_bytes(ext, "gif".as_bytes()) {
        "image/gif"
    } else if text::same_bytes(ext, "webp".as_bytes()) {
        "image/webp"
    } else if text::same_bytes(ext, "ico".as_bytes()) {
        "image/x-icon"
    } else if text::same_bytes(ext, "txt".as_bytes()) || text::same_bytes(ext, "md".as_bytes()) {
        "text/plain; charset=utf-8"
    } else if text::same_bytes(ext, "woff".as_bytes()) {
        "font/woff"
    } else if text::same_bytes(ext, "woff2".as_bytes()) {
        "font/woff2"
    } else if text::same_bytes(ext, "ttf".as_bytes()) {
        "font/ttf"
    } else if text::same_bytes(ext, "otf".as_bytes()) {
        "font/otf"
    } else if text::same_bytes(ext, "wasm".as_bytes()) {
        "application/wasm"
    } else {
        "application/octet-stream"
    }
}

/// What a slash separates is named one after the other.
pub proof fn law_slashes_separate(a: Seq<u8>, b: Seq<u8>)
    ensures
        names(a.push(47u8) + b) == names(a) + names(b),
{
    text::lemma_split_join(a, 47u8, b);
    Seq::filter_distributes_over_add(
        text::split(a, 47u8),
        text::split(b, 47u8),
        |part: Seq<u8>| is_name(part),
    );
}

/// A part without a slash is a name, unless it is empty or a single dot.
pub proof fn law_parts_are_names(part: Seq<u8>)
    requires
        !part.contains(47u8),
    ensures
        names(part) == if part.len() == 0 || part == seq![46u8] {
            Seq::<Seq<u8>>::empty()
        } else {
            seq![part]
        },
{
    if is_name(part) {
        lemma_names_of_name(part);
    } else {
        lemma_no_names(part);
    }
}

/// A name is joined to a directory with one slash between them.
pub proof fn law_join(base: Seq<u8>, name: Seq<u8>)
    ensures
        base.len() == 0 ==> join(base, name) == name,
        base.len() > 0 && base.last() == 47u8 ==> join(base, name) == base + name,
        base.len() > 0 && base.last() != 47u8 ==> join(base, name) == base + seq![47u8] + name,
{
    assert(base.len() == 0 ==> base + name =~= name);
    assert(base.push(47u8) + name =~= base + seq![47u8] + name);
}

/// Nothing that is asked for is the directory itself, and so is a single dot. Two dots are
/// refused. Every other name without a slash is the file of that name in the directory.
pub proof fn law_single_parts_are_joined(base: Seq<u8>, part: Seq<u8>)
    requires
        !part.contains(47u8),
    ensures
        part.len() == 0 || part == seq![46u8] ==> safe_path(base, part) == Some(base),
        part == seq![46u8, 46u8] ==> safe_path(base, part) is None,
        part.len() > 0 && part != seq![46u8] && part != seq![46u8, 46u8] ==> safe_path(base, part)
            == Some(
            if base.len() == 0 || base.last() == 47u8 {
                base + part
            } else {
                base + seq![47u8] + part
            },
        ),
{
    law_parts_are_names(part);
    if part.len() > 0 {
        assert(part.contains(part[0]));
        if part == seq![46u8, 46u8] {
            assert(names(part)[0] == dot_dot());
        } else if part != seq![46u8] {
            law_plain_name_is_safe(base, part);
            law_join(base, part);
        }
    }
}

/// A part behind a slash leads on from where what stands before the slash leads: to the
/// file of that name there. An empty part or a single dot leads nowhere else, two dots are
/// refused, and what was refused before stays refused.
pub proof fn law_more_parts_are_joined(base: Seq<u8>, rel: Seq<u8>, part: Seq<u8>)
    requires
        rel.len() > 0,
        !part.contains(47u8),
    ensures
        safe_path(base, rel + seq![47u8] + part) == match safe_path(base, rel) {
            None => None,
            Some(path) => if part == seq![46u8, 46u8] {
                None
            } else if part.len() == 0 || part == seq![46u8] {
                Some(path)
            } else if path.len() == 0 || path.last() == 47u8 {
                Some(path + part)
            } else {
                Some(path + seq![47u8] + part)
            },
        },
{
    let all = rel + seq![47u8] + part;
    assert(all =~= rel.push(47u8) + part);
    law_slashes_separate(rel, part);
    law_parts_are_names(part);
    let before = names(rel);
    assert(all[0] == rel[0]);
    if part.len() == 0 || part == seq![46u8] {
        assert(names(all) =~= before);
    } else {
        assert(names(all) =~= before.push(part));
        assert(names(all).drop_last() =~= before);
        if before.contains(dot_dot()) {
            let i = choose|i: int| 0 <= i < before.len() && before[i] == dot_dot();
            assert(names(all)[i] == dot_dot());
        } else if part == dot_dot() {
            assert(names(all)[before.len() as int] == dot_dot());
        } else if names(all).contains(dot_dot()) {
            let i = choose|i: int| 0 <= i < names(all).len() && names(all)[i] == dot_dot();
            assert(before.contains(before[i]));
        }
        if safe_path(base, rel) is Some {
            law_join(safe_path(base, rel)->0, part);
            assert(Seq::empty() + part =~= part);
        }
    }
}

proof fn lemma_goes_up(rel: Seq<u8>)
    ensures
        names(rel).contains(dot_dot()) <==> exists|i: int|
            0 <= i <= rel.len() - 2 && #[trigger] rel[i] == 46 && rel[i + 1] == 46 && (i == 0
                || rel[i - 1] == 47) && (i + 2 == rel.len() || rel[i + 2] == 47),
    decreases rel.len(),
{
    let n = text::find(rel, 47u8);
    let part = text::before(rel, 47u8);
    let rest = text::behind(rel, 47u8);
    text::lemma_find(rel, 47u8);
    lemma_names_step(rel);
    assert(dot_dot()[0] == 46 && dot_dot()[1] == 46);
    let own = if is_name(part) {
        seq![part]
    } else {
        Seq::empty()
    };
    let others = if n < rel.len() {
        names(rest)
    } else {
        Seq::empty()
    };
    if n < rel.len() {
        lemma_goes_up(rest);
    }
    if names(rel).contains(dot_dot()) {
        let k = choose|k: int| 0 <= k < names(rel).len() && names(rel)[k] == dot_dot();
        if k < own.len() {
            assert(part == dot_dot());
            assert(rel[0] == part[0] && rel[1] == part[1]);
            assert(rel[0] == 46 && rel[1] == 46);
        } else {
            assert(others[k - own.len()] == dot_dot());
            assert(others.contains(dot_dot()));
            let i = choose|i: int|
                0 <= i <= rest.len() - 2 && #[trigger] rest[i] == 46 && rest[i + 1] == 46 && (i == 0
                    || rest[i - 1] == 47) && (i + 2 == rest.len() || rest[i + 2] == 47);
            let j = i + n + 1;
            assert(rel[j] == rest[i] && rel[j + 1] == rest[i + 1]);
            assert(i > 0 ==> rel[j - 1] == rest[i - 1]);
            assert(i + 2 < rest.len() ==> rel[j + 2] == rest[i + 2]);
        }
    }
    if exists|i: int|
        0 <= i <= rel.len() - 2 && #[trigger] rel[i] == 46 && rel[i + 1] == 46 && (i == 0 || rel[i
            - 1] == 47) && (i + 2 == rel.len() || rel[i + 2] == 47) {
        let i = choose|i: int|
            0 <= i <= rel.len() - 2 && #[trigger] rel[i] == 46 && rel[i + 1] == 46 && (i == 0
                || rel[i - 1] == 47) && (i + 2 == rel.len() || rel[i + 2] == 47);
        if i < n {
            assert(i == 0);
            assert(i + 2 == n) by {
                assert(rel[i + 1] != 47);
            }
            assert(part =~= dot_dot());
            assert(own[0] == dot_dot());
            assert(names(rel)[0] == dot_dot());
        } else {
            let j = i - n - 1;
            assert(rest[j] == rel[i] && rest[j + 1] == rel[i + 1]);
            assert(j > 0 ==> rest[j - 1] == rel[i - 1]);
            assert(i + 2 < rel.len() ==> rest[j + 2] == rel[i + 2]);
            assert(others.contains(dot_dot()));
            let k = choose|k: int| 0 <= k < others.len() && others[k] == dot_dot();
            assert(names(rel)[own.len() + k] == dot_dot());
        }
    }
}

/// A path is refused if and only if it begins with a slash, or two dots stand alone between
/// its slashes.
pub proof fn law_what_is_refused(base: Seq<u8>, rel: Seq<u8>)
    ensures
        safe_path(base, rel) is None <==> (rel.len() > 0 && rel[0] == 47) || exists|i: int|
            0 <= i <= rel.len() - 2 && #[trigger] rel[i] == 46 && rel[i + 1] == 46 && (i == 0
                || rel[i - 1] == 47) && (i + 2 == rel.len() || rel[i + 2] == 47),
{
    lemma_goes_up(rel);
}

/// A path of one or more names with a slash between each two of them, none of them empty, a
/// single dot or two dots, is joined to the directory as it is.
pub proof fn law_nested_paths_are_joined(base: Seq<u8>, parts: Seq<Seq<u8>>)
    requires
        parts.len() > 0,
        forall|i: int|
            0 <= i < parts.len() ==> (#[trigger] parts[i]).len() > 0 && !parts[i].contains(47u8)
                && parts[i] != seq![46u8] && parts[i] != seq![46u8, 46u8],
    ensures
        ({
            let rel = parts[0] + parts.skip(1).map_values(
                |part: Seq<u8>| seq![47u8] + part,
            ).flatten();
            safe_path(base, rel) == Some(
                if base.len() == 0 || base.last() == 47u8 {
                    base + rel
                } else {
                    base + seq![47u8] + rel
                },
            )
        }),
    decreases parts.len(),
{
    let f = |part: Seq<u8>| seq![47u8] + part;
    let more = parts.skip(1);
    let rel = parts[0] + more.map_values(f).flatten();
    if parts.len() == 1 {
        assert(more.map_values(f) =~= Seq::empty());
        assert(rel =~= parts[0]);
        law_single_parts_are_joined(base, parts[0]);
    } else {
        let front = parts.drop_last();
        let part = parts.last();
        let short = front[0] + front.skip(1).map_values(f).flatten();
        assert(part == parts[parts.len() - 1]);
        assert forall|i: int| 0 <= i < front.len() implies (#[trigger] front[i]).len() > 0
            && !front[i].contains(47u8) && front[i] != seq![46u8] && front[i] != seq![
            46u8,
            46u8,
        ] by {
            assert(front[i] == parts[i]);
        }
        law_nested_paths_are_joined(base, front);
        let lines = more.map_values(f);
        assert(lines.drop_last() =~= front.skip(1).map_values(f));
        text::lemma_flatten_last(lines);
        assert(rel =~= short + seq![47u8] + part);
        law_more_parts_are_joined(base, short, part);
        let path = safe_path(base, short)->0;
        assert(short.len() > 0);
        assert(path.last() != 47) by {
            assert(path.last() == short.last());
            let last = front.last();
            assert(last == parts[parts.len() - 2]);
            if front.len() == 1 {
                assert(front.skip(1).map_values(f) =~= Seq::empty());
                assert(short =~= last);
                assert(last.contains(last.last()));
            } else {
                let ls = front.skip(1).map_values(f);
                text::lemma_flatten_last(ls);
                assert(ls.last() == seq![47u8] + last);
                assert(short.last() == last.last());
                assert(last.contains(last.last()));
            }
        }
        assert(path + seq![47u8] + part =~= if base.len() == 0 || base.last() == 47u8 {
            base + rel
        } else {
            base + seq![47u8] + rel
        });
    }
}

proof fn lemma_trim_back_is_prefix(path: Seq<u8>, start: int)
    requires
        0 <= start,
    ensures
        trim_back(path, start).is_prefix_of(path),
    decreases path.len(),
{
    if start < path.len() && !is_name(last_part(path, start)) {
        text::lemma_find_last(path.skip(start), 47u8);
        lemma_trim_back_is_prefix(without_last_part(path, start), start);
    }
}

/// The directory of a path is the front of the path, and only a path without any name, that
/// is empty or begins with a slash, has none.
pub proof fn law_parent_is_the_front(path: Seq<u8>)
    ensures
        parent(path) is None <==> names(path).len() == 0 && (path.len() == 0 || path[0] == 47),
        parent(path) is Some ==> parent(path)->0.is_prefix_of(path),
        parent(path) is Some && path.len() > 0 && path[0] == 47 ==> parent(path)->0.len() > 0,
{
    let start = body_start(path);
    let named = trim_back(path, start);
    lemma_trim_back(path, start);
    lemma_trim_back_is_prefix(path, start);
    if named.len() > start {
        lemma_last_part(named, start);
        let rest = without_last_part(named, start);
        let dir = trim_back(rest, start);
        lemma_trim_back_is_prefix(rest, start);
        lemma_trim_back(rest, start);
        text::lemma_find_last(named.skip(start), 47u8);
        assert forall|i: int| 0 <= i < dir.len() implies dir[i] == path[i] by {
            assert(dir[i] == rest[i] && rest[i] == named[i]);
        }
        assert(dir =~= path.subrange(0, dir.len() as int));
    } else {
        law_parent_drops_the_last_name(path);
        if start == 1 {
            assert(named =~= seq![path[0]]);
        }
        lemma_no_names(named);
    }
}

/// The directory of a name in a directory is that directory, where the path of the directory
/// is the root, or ends neither with a slash nor with a single dot behind one.
pub proof fn law_parent_of_a_name(dir: Seq<u8>, name: Seq<u8>)
    requires
        name.len() > 0 && name != seq![46u8] && !name.contains(47u8),
        dir == seq![47u8] || dir.len() > 0 && dir.last() != 47 && !(dir.last() == 46 && (dir.len()
            == 1 || dir[dir.len() - 2] == 47)),
    ensures
        parent(join(dir, name)) == Some(dir),
{
    let path = join(dir, name);
    let start = body_start(path);
    let front = if dir.last() == 47 {
        dir
    } else {
        dir.push(47u8)
    };
    assert(path =~= front + name);
    assert forall|j: int| front.len() <= j < path.len() implies path[j] != 47 by {
        assert(path[j] == name[j - front.len()]);
        assert(name.contains(name[j - front.len()]));
    }
    assert(front.last() == 47);
    let body = path.skip(start);
    assert(dir.len() == 1 && dir[0] != 47 ==> start == 0) by {
        if dir.len() == 1 && dir[0] != 47 {
            assert(path[0] == dir[0]);
        }
    }
    if front.len() > start {
        assert(body[front.len() - 1 - start] == 47);
        assert forall|j: int| front.len() - 1 - start < j < body.len() implies body[j] != 47 by {
            assert(body[j] == path[j + start]);
        }
        text::lemma_find_last_is(body, 47u8, front.len() - 1 - start);
    } else {
        assert forall|j: int| -1 < j < body.len() implies body[j] != 47 by {
            assert(body[j] == path[j + start]);
        }
        text::lemma_find_last_is(body, 47u8, -1);
    }
    assert(last_part(path, start) =~= name);
    assert(trim_back(path, start) == path);
    assert(without_last_part(path, start) =~= dir);
    if dir.len() > start {
        let rest = dir.skip(start);
        let slash = text::find_last(rest, 47u8);
        text::lemma_find_last(rest, 47u8);
        let part = last_part(dir, start);
        assert(part.len() > 0) by {
            if slash == rest.len() - 1 {
                assert(rest[slash] == dir.last());
            }
        }
        assert(part.last() == dir.last());
        assert(part != seq![46u8]) by {
            if part == seq![46u8] {
                assert(part.len() == 1);
                if slash >= 0 {
                    assert(rest[slash] == dir[dir.len() - 2]);
                } else if start == 1 {
                    assert(dir.len() == 2 && dir[0] == path[0] && dir[1] == path[1]);
                    assert(dir[0] == 47);
                }
            }
        }
        assert(trim_back(dir, start) == dir);
    }
}

/// The extension of a path is that of its last name, and a path without a name has none.
pub proof fn law_extension_is_of_the_last_name(path: Seq<u8>)
    ensures
        names(path).len() == 0 ==> extension(path).len() == 0,
        names(path).len() > 0 ==> extension(path) == extension(names(path).last()),
{
    if names(path).len() > 0 {
        lemma_names_are_names(path);
        let name = names(path)[names(path).len() - 1];
        lemma_names_of_name(name);
    }
}

/// The extension of a file is what stands behind the last dot of its name, with the letters
/// from A to Z in lower case, where something stands before that dot.
pub proof fn law_extension_is_behind_the_last_dot(dir: Seq<u8>, stem: Seq<u8>, ext: Seq<u8>)
    requires
        stem.len() > 0,
        !stem.contains(47u8),
        !ext.contains(47u8),
        !ext.contains(46u8),
        !(stem == seq![46u8] && ext.len() == 0),
    ensures
        extension(join(dir, stem + seq![46u8] + ext)).len() == ext.len(),
        forall|i: int|
            0 <= i < ext.len() ==> #[trigger] extension(join(dir, stem + seq![46u8] + ext))[i]
                == if 65 <= ext[i] <= 90 {
                (ext[i] + 32) as u8
            } else {
                ext[i]
            },
{
    let name = stem + seq![46u8] + ext;
    let n = stem.len() as int;
    assert(!name.contains(47u8)) by {
        if name.contains(47u8) {
            let i = choose|i: int| 0 <= i < name.len() && name[i] == 47;
            if i < n {
                assert(stem[i] == 47);
            } else if i > n {
                assert(ext[i - n - 1] == 47);
            }
        }
    }
    assert(name != dot_dot()) by {
        if name == dot_dot() {
            assert(name.len() == 2 && ext.len() == 0 && stem.len() == 1);
            assert(stem[0] == name[0] && name[0] == 46);
            assert(stem =~= seq![46u8]);
        }
    }
    lemma_names_join(dir, name);
    assert(names(dir).push(name).last() == name);
    assert forall|j: int| n < j < name.len() implies name[j] != 46 by {
        assert(name[j] == ext[j - n - 1]);
        assert(ext.contains(ext[j - n - 1]));
    }
    text::lemma_find_last_is(name, 46u8, n);
    assert(name.skip(n + 1) =~= ext);
}

/// A name without a dot, or with one as its first byte only, has no extension, nor have two
/// dots.
pub proof fn law_names_without_extension(dir: Seq<u8>, name: Seq<u8>)
    requires
        name.len() > 0 && name != seq![46u8] && !name.contains(47u8),
        (forall|j: int| 0 < j < name.len() ==> name[j] != 46) || name == seq![46u8, 46u8],
    ensures
        extension(join(dir, name)).len() == 0,
{
    lemma_names_join(dir, name);
    assert(names(dir).push(name).last() == name);
    text::lemma_find_last(name, 46u8);
}

/// The bytes of the known extensions differ: in their number, or in one of the first two.
proof fn lemma_known_extensions()
    ensures
        vstd::utf8::encode_utf8("html"@).len() == 4 && vstd::utf8::encode_utf8("html"@)[0] == 104
            && vstd::utf8::encode_utf8("html"@)[1] == 116,
        vstd::utf8::encode_utf8("htm"@).len() == 3 && vstd::utf8::encode_utf8("htm"@)[0] == 104
            && vstd::utf8::encode_utf8("htm"@)[1] == 116,
        vstd::utf8::encode_utf8("js"@).len() == 2 && vstd::utf8::encode_utf8("js"@)[0] == 106
            && vstd::utf8::encode_utf8("js"@)[1] == 115,
        vstd::utf8::encode_utf8("mjs"@).len() == 3 && vstd::utf8::encode_utf8("mjs"@)[0] == 109
            && vstd::utf8::encode_utf8("mjs"@)[1] == 106,
        vstd::utf8::encode_utf8("css"@).len() == 3 && vstd::utf8::encode_utf8("css"@)[0] == 99
            && vstd::utf8::encode_utf8("css"@)[1] == 115,
        vstd::utf8::encode_utf8("json"@).len() == 4 && vstd::utf8::encode_utf8("json"@)[0] == 106
            && vstd::utf8::encode_utf8("json"@)[1] == 115,
        vstd::utf8::encode_utf8("svg"@).len() == 3 && vstd::utf8::encode_utf8("svg"@)[0] == 115
            && vstd::utf8::encode_utf8("svg"@)[1] == 118,
        vstd::utf8::encode_utf8("png"@).len() == 3 && vstd::utf8::encode_utf8("png"@)[0] == 112
            && vstd::utf8::encode_utf8("png"@)[1] == 110,
        vstd::utf8::encode_utf8("jpg"@).len() == 3 && vstd::utf8::encode_utf8("jpg"@)[0] == 106
            && vstd::utf8::encode_utf8("jpg"@)[1] == 112,
        vstd::utf8::encode_utf8("jpeg"@).len() == 4 && vstd::utf8::encode_utf8("jpeg"@)[0] == 106
            && vstd::utf8::encode_utf8("jpeg"@)[1] == 112,
        vstd::utf8::encode_utf8("gif"@).len() == 3 && vstd::utf8::encode_utf8("gif"@)[0] == 103
            && vstd::utf8::encode_utf8("gif"@)[1] == 105,
        vstd::utf8::encode_utf8("webp"@).len() == 4 && vstd::utf8::encode_utf8("webp"@)[0] == 119
            && vstd::utf8::encode_utf8("webp"@)[1] == 101,
        vstd::utf8::encode_utf8("ico"@).len() == 3 && vstd::utf8::encode_utf8("ico"@)[0] == 105
            && vstd::utf8::encode_utf8("ico"@)[1] == 99,
        vstd::utf8::encode_utf8("txt"@).len() == 3 && vstd::utf8::encode_utf8("txt"@)[0] == 116
            && vstd::utf8::encode_utf8("txt"@)[1] == 120,
        vstd::utf8::encode_utf8("md"@).len() == 2 && vstd::utf8::encode_utf8("md"@)[0] == 109
            && vstd::utf8::encode_utf8("md"@)[1] == 100,
        vstd::utf8::encode_utf8("woff"@).len() == 4 && vstd::utf8::encode_utf8("woff"@)[0] == 119
            && vstd::utf8::encode_utf8("woff"@)[1] == 111,
        vstd::utf8::encode_utf8("woff2"@).len() == 5 && vstd::utf8::encode_utf8("woff2"@)[0] == 119
            && vstd::utf8::encode_utf8("woff2"@)[1] == 111,
        vstd::utf8::encode_utf8("ttf"@).len() == 3 && vstd::utf8::encode_utf8("ttf"@)[0] == 116
            && vstd::utf8::encode_utf8("ttf"@)[1] == 116,
        vstd::utf8::encode_utf8("otf"@).len() == 3 && vstd::utf8::encode_utf8("otf"@)[0] == 111
            && vstd::utf8::encode_utf8("otf"@)[1] == 116,
        vstd::utf8::encode_utf8("wasm"@).len() == 4 && vstd::utf8::encode_utf8("wasm"@)[0] == 119
            && vstd::utf8::encode_utf8("wasm"@)[1] == 97,
{
    assert(vstd::utf8::encode_utf8("html"@).len() == 4 && vstd::utf8::encode_utf8("html"@)[0] == 104
        && vstd::utf8::encode_utf8("html"@)[1] == 116) by {
        reveal_strlit("html");
        vstd::utf8::is_ascii_chars_encode_utf8("html"@);
    }
    assert(vstd::utf8::encode_utf8("htm"@).len() == 3 && vstd::utf8::encode_utf8("htm"@)[0] == 104
        && vstd::utf8::encode_utf8("htm"@)[1] == 116) by {
        reveal_strlit("htm");
        vstd::utf8::is_ascii_chars_encode_utf8("htm"@);
    }
    assert(vstd::utf8::encode_utf8("js"@).len() == 2 && vstd::utf8::encode_utf8("js"@)[0] == 106
        && vstd::utf8::encode_utf8("js"@)[1] == 115) by {
        reveal_strlit("js");
        vstd::utf8::is_ascii_chars_encode_utf8("js"@);
    }
    assert(vstd::utf8::encode_utf8("mjs"@).len() == 3 && vstd::utf8::encode_utf8("mjs"@)[0] == 109
        && vstd::utf8::encode_utf8("mjs"@)[1] == 106) by {
        reveal_strlit("mjs");
        vstd::utf8::is_ascii_chars_encode_utf8("mjs"@);
    }
    assert(vstd::utf8::encode_utf8("css"@).len() == 3 && vstd::utf8::encode_utf8("css"@)[0] == 99
        && vstd::utf8::encode_utf8("css"@)[1] == 115) by {
        reveal_strlit("css");
        vstd::utf8::is_ascii_chars_encode_utf8("css"@);
    }
    assert(vstd::utf8::encode_utf8("json"@).len() == 4 && vstd::utf8::encode_utf8("json"@)[0] == 106
        && vstd::utf8::encode_utf8("json"@)[1] == 115) by {
        reveal_strlit("json");
        vstd::utf8::is_ascii_chars_encode_utf8("json"@);
    }
    assert(vstd::utf8::encode_utf8("svg"@).len() == 3 && vstd::utf8::encode_utf8("svg"@)[0] == 115
        && vstd::utf8::encode_utf8("svg"@)[1] == 118) by {
        reveal_strlit("svg");
        vstd::utf8::is_ascii_chars_encode_utf8("svg"@);
    }
    assert(vstd::utf8::encode_utf8("png"@).len() == 3 && vstd::utf8::encode_utf8("png"@)[0] == 112
        && vstd::utf8::encode_utf8("png"@)[1] == 110) by {
        reveal_strlit("png");
        vstd::utf8::is_ascii_chars_encode_utf8("png"@);
    }
    assert(vstd::utf8::encode_utf8("jpg"@).len() == 3 && vstd::utf8::encode_utf8("jpg"@)[0] == 106
        && vstd::utf8::encode_utf8("jpg"@)[1] == 112) by {
        reveal_strlit("jpg");
        vstd::utf8::is_ascii_chars_encode_utf8("jpg"@);
    }
    assert(vstd::utf8::encode_utf8("jpeg"@).len() == 4 && vstd::utf8::encode_utf8("jpeg"@)[0] == 106
        && vstd::utf8::encode_utf8("jpeg"@)[1] == 112) by {
        reveal_strlit("jpeg");
        vstd::utf8::is_ascii_chars_encode_utf8("jpeg"@);
    }
    assert(vstd::utf8::encode_utf8("gif"@).len() == 3 && vstd::utf8::encode_utf8("gif"@)[0] == 103
        && vstd::utf8::encode_utf8("gif"@)[1] == 105) by {
        reveal_strlit("gif");
        vstd::utf8::is_ascii_chars_encode_utf8("gif"@);
    }
    assert(vstd::utf8::encode_utf8("webp"@).len() == 4 && vstd::utf8::encode_utf8("webp"@)[0] == 119
        && vstd::utf8::encode_utf8("webp"@)[1] == 101) by {
        reveal_strlit("webp");
        vstd::utf8::is_ascii_chars_encode_utf8("webp"@);
    }
    assert(vstd::utf8::encode_utf8("ico"@).len() == 3 && vstd::utf8::encode_utf8("ico"@)[0] == 105
        && vstd::utf8::encode_utf8("ico"@)[1] == 99) by {
        reveal_strlit("ico");
        vstd::utf8::is_ascii_chars_encode_utf8("ico"@);
    }
    assert(vstd::utf8::encode_utf8("txt"@).len() == 3 && vstd::utf8::encode_utf8("txt"@)[0] == 116
        && vstd::utf8::encode_utf8("txt"@)[1] == 120) by {
        reveal_strlit("txt");
        vstd::utf8::is_ascii_chars_encode_utf8("txt"@);
    }
    assert(vstd::utf8::encode_utf8("md"@).len() == 2 && vstd::utf8::encode_utf8("md"@)[0] == 109
        && vstd::utf8::encode_utf8("md"@)[1] == 100) by {
        reveal_strlit("md");
        vstd::utf8::is_ascii_chars_encode_utf8("md"@);
    }
    assert(vstd::utf8::encode_utf8("woff"@).len() == 4 && vstd::utf8::encode_utf8("woff"@)[0] == 119
        && vstd::utf8::encode_utf8("woff"@)[1] == 111) by {
        reveal_strlit("woff");
        vstd::utf8::is_ascii_chars_encode_utf8("woff"@);
    }
    assert(vstd::utf8::encode_utf8("woff2"@).len() == 5 && vstd::utf8::encode_utf8("woff2"@)[0] == 119
        && vstd::utf8::encode_utf8("woff2"@)[1] == 111) by {
        reveal_strlit("woff2");
        vstd::utf8::is_ascii_chars_encode_utf8("woff2"@);
    }
    assert(vstd::utf8::encode_utf8("ttf"@).len() == 3 && vstd::utf8::encode_utf8("ttf"@)[0] == 116
        && vstd::utf8::encode_utf8("ttf"@)[1] == 116) by {
        reveal_strlit("ttf");
        vstd::utf8::is_ascii_chars_encode_utf8("ttf"@);
    }
    assert(vstd::utf8::encode_utf8("otf"@).len() == 3 && vstd::utf8::encode_utf8("otf"@)[0] == 111
        && vstd::utf8::encode_utf8("otf"@)[1] == 116) by {
        reveal_strlit("otf");
        vstd::utf8::is_ascii_chars_encode_utf8("otf"@);
    }
    assert(vstd::utf8::encode_utf8("wasm"@).len() == 4 && vstd::utf8::encode_utf8("wasm"@)[0] == 119
        && vstd::utf8::encode_utf8("wasm"@)[1] == 97) by {
        reveal_strlit("wasm");
        vstd::utf8::is_ascii_chars_encode_utf8("wasm"@);
    }
}

/// Each known extension stands for its media type, and every other one for any bytes.
pub proof fn law_media_types(ext: Seq<u8>)
    ensures
        ext == vstd::utf8::encode_utf8("html"@) || ext == vstd::utf8::encode_utf8("htm"@) ==> media_type(ext)
            == "text/html; charset=utf-8"@,
        ext == vstd::utf8::encode_utf8("js"@) || ext == vstd::utf8::encode_utf8("mjs"@) ==> media_type(ext)
            == "application/javascript; charset=utf-8"@,
        ext == vstd::utf8::encode_utf8("css"@) ==> media_type(ext)
            == "text/css; charset=utf-8"@,
        ext == vstd::utf8::encode_utf8("json"@) ==> media_type(ext)
            == "application/json; charset=utf-8"@,
        ext == vstd::utf8::encode_utf8("svg"@) ==> media_type(ext)
            == "image/svg+xml"@,
        ext == vstd::utf8::encode_utf8("png"@) ==> media_type(ext)
            == "image/png"@,
        ext == vstd::utf8::encode_utf8("jpg"@) || ext == vstd::utf8::encode_utf8("jpeg"@) ==> media_type(ext)
            == "image/jpeg"@,
        ext == vstd::utf8::encode_utf8("gif"@) ==> media_type(ext)
            == "image/gif"@,
        ext == vstd::utf8::encode_utf8("webp"@) ==> media_type(ext)
            == "image/webp"@,
        ext == vstd::utf8::encode_utf8("ico"@) ==> media_type(ext)
            == "image/x-icon"@,
        ext == vstd::utf8::encode_utf8("txt"@) || ext == vstd::utf8::encode_utf8("md"@) ==> media_type(ext)
            == "text/plain; charset=utf-8"@,
        ext == vstd::utf8::encode_utf8("woff"@) ==> media_type(ext)
            == "font/woff"@,
        ext == vstd::utf8::encode_utf8("woff2"@) ==> media_type(ext)
            == "font/woff2"@,
        ext == vstd::utf8::encode_utf8("ttf"@) ==> media_type(ext)
            == "font/ttf"@,
        ext == vstd::utf8::encode_utf8("otf"@) ==> media_type(ext)
            == "font/otf"@,
        ext == vstd::utf8::encode_utf8("wasm"@) ==> media_type(ext)
            == "application/wasm"@,
        ext != vstd::utf8::encode_utf8("html"@)
            && ext != vstd::utf8::encode_utf8("htm"@)
            && ext != vstd::utf8::encode_utf8("js"@)
            && ext != vstd::utf8::encode_utf8("mjs"@)
            && ext != vstd::utf8::encode_utf8("css"@)
            && ext != vstd::utf8::encode_utf8("json"@)
            && ext != vstd::utf8::encode_utf8("svg"@)
            && ext != vstd::utf8::encode_utf8("png"@)
            && ext != vstd::utf8::encode_utf8("jpg"@)
            && ext != vstd::utf8::encode_utf8("jpeg"@)
            && ext != vstd::utf8::encode_utf8("gif"@)
            && ext != vstd::utf8::encode_utf8("webp"@)
            && ext != vstd::utf8::encode_utf8("ico"@)
            && ext != vstd::utf8::encode_utf8("txt"@)
            && ext != vstd::utf8::encode_utf8("md"@)
            && ext != vstd::utf8::encode_utf8("woff"@)
            && ext != vstd::utf8::encode_utf8("woff2"@)
            && ext != vstd::utf8::encode_utf8("ttf"@)
            && ext != vstd::utf8::encode_utf8("otf"@)
            && ext != vstd::utf8::encode_utf8("wasm"@) ==> media_type(ext)
            == "application/octet-stream"@,
{
    lemma_known_extensions();
}

/// The file that is served for the root is answered as HTML, whatever the directory.
pub proof fn law_the_index_is_html(dir: Seq<u8>)
    ensures
        media_type(extension(join(dir, vstd::utf8::encode_utf8("Flashcards.html"@))))
            == "text/html; charset=utf-8"@,
{
    let name = vstd::utf8::encode_utf8("Flashcards.html"@);
    let stem = name.take(10);
    let ext = name.skip(11);
    reveal_strlit("Flashcards.html");
    reveal_strlit("html");
    vstd::utf8::is_ascii_chars_encode_utf8("Flashcards.html"@);
    vstd::utf8::is_ascii_chars_encode_utf8("html"@);
    assert(name =~= stem + seq![46u8] + ext);
    law_extension_is_behind_the_last_dot(dir, stem, ext);
    assert(extension(join(dir, name)) =~= vstd::utf8::encode_utf8("html"@));
    law_media_types(extension(join(dir, name)));
}

} // verus!
