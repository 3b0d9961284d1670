//! Remote specs and POSIX paths.

use crate::text::{
    chars_of, find_char, find_from, find_text, find_text_from, lemma_find_from, lemma_text_first,
    lemma_text_found, pieces, rfind_below, rfind_char, same, split_on, starts, starts_with, texts,
};
use vstd::prelude::*;

verus! {

/// Where the host of a spec with a bracketed address ends: the index of the
/// first `]:`, if a bracket is open there.
pub open spec fn bracket_end(s: Seq<char>) -> Option<int> {
    match find_text_from(s, "]:"@, 0) {
        Some(k) if find_from(s.take(k), '[', 0) is Some => Some(k),
        _ => None,
    }
}

fn find_bracket_end(s: &str) -> (r: Option<usize>)
    ensures
        match r {
            Some(k) => bracket_end(s@) == Some(k as int) && k + 2 <= s@.len() && s@[k as int] == ']'
                && s@[k + 1] == ':',
            None => bracket_end(s@) is None,
        },
{
    proof {
        reveal_strlit("]:");
    }
    let v: Vec<char> = chars_of(s);
    let p: Vec<char> = chars_of("]:");
    match find_text(&v, &p) {
        None => None,
        Some(k) => {
            assert(v@.subrange(k as int, k + 2)[0] == ']');
            assert(v@.subrange(k as int, k + 2)[1] == ':');
            let head: Vec<char> = chars_of(s.substring_char(0, k));
            assert(head@ =~= s@.take(k as int));
            if find_char(&head, '[', 0).is_some() {
                Some(k)
            } else {
                None
            }
        },
    }
}

pub open spec fn ascii_letter(c: char) -> bool {
    65 <= c as u32 <= 90 || 97 <= c as u32 <= 122
}

/// A text before a colon that names a host, and no path and no drive.
pub open spec fn host_like(h: Seq<char>) -> bool {
    &&& h.len() > 0
    &&& !(h.len() == 1 && ascii_letter(h[0]))
    &&& find_from(h, '/', 0) is None
}

/// `true` when a spec names a file on another host.
pub open spec fn is_remote(s: Seq<char>) -> bool {
    if starts(s, "/"@) || starts(s, "./"@) || starts(s, "../"@) {
        false
    } else {
        match bracket_end(s) {
            Some(k) => s.len() > k + 2,
            None => match rfind_below(s, ':', s.len() as int) {
                None => false,
                Some(i) => host_like(s.take(i)),
            },
        }
    }
}

/// A colon at index `k` parts a host from a path: none follows it, no slash goes
/// before it, and what goes before it is neither empty nor a drive letter.
pub open spec fn parts_at(s: Seq<char>, k: int) -> bool {
    &&& 0 < k < s.len()
    &&& s[k] == ':'
    &&& forall|j: int| k < j < s.len() ==> s[j] != ':'
    &&& forall|j: int| 0 <= j < k ==> s[j] != '/'
    &&& !(k == 1 && ('a' <= s[0] <= 'z' || 'A' <= s[0] <= 'Z'))
}

/// No bracket is opened that is closed before a colon.
pub open spec fn no_brackets(s: Seq<char>) -> bool {
    forall|i: int, j: int|
        0 <= i < j && j + 1 < s.len() && #[trigger] s[i] == '[' && #[trigger] s[j] == ']' ==> s[j
            + 1] != ':'
}

/// A text without a bracketed address names a file on another host if and only if
/// its last colon parts a host from a path, whatever other characters the host
/// and the path hold; and then it is taken apart there.
pub proof fn lemma_remote_plain(s: Seq<char>)
    requires
        no_brackets(s),
    ensures
        is_remote(s) <==> exists|k: int| parts_at(s, k),
        forall|k: int| #[trigger]
            parts_at(s, k) && k + 1 < s.len() ==> host_path(s) == Ok::<
                (Seq<char>, Seq<char>),
                Seq<char>,
            >((s.subrange(0, k), s.subrange(k + 1, s.len() as int))),
{
    reveal_strlit("/");
    reveal_strlit("./");
    reveal_strlit("../");
    lemma_no_bracket(s);
    lemma_rfind(s, ':', s.len() as int);
    lemma_starts_slash(s);
    match rfind_below(s, ':', s.len() as int) {
        None => {
            assert forall|k: int| !parts_at(s, k) by {}
        },
        Some(i) => {
            let h = s.take(i);
            lemma_find_from(h, '/', 0);
            assert forall|k: int| #[trigger] parts_at(s, k) implies k == i by {}
            if host_like(h) {
                if find_from(h, '/', 0) is None {
                    assert forall|j: int| 0 <= j < i implies s[j] != '/' by {
                        assert(h[j] == s[j]);
                    }
                }
                lemma_letter(h[0]);
                assert(parts_at(s, i));
            }
            if parts_at(s, i) {
                if find_from(h, '/', 0) is Some {
                    let j = find_from(h, '/', 0)->0;
                    assert(s[j] == h[j]);
                }
                lemma_letter(h[0]);
                assert(host_like(h));
                assert(s.take(i) =~= s.subrange(0, i));
                assert(s.skip(i + 1) =~= s.subrange(i + 1, s.len() as int));
            }
        },
    }
}

proof fn lemma_letter(c: char)
    ensures
        ascii_letter(c) == ('a' <= c <= 'z' || 'A' <= c <= 'Z'),
{
}

proof fn lemma_starts_slash(s: Seq<char>)
    ensures
        starts(s, "/"@) ==> s.len() > 0 && s[0] == '/',
        starts(s, "./"@) ==> s.len() > 1 && s[0] == '.' && s[1] == '/',
        starts(s, "../"@) ==> s.len() > 2 && s[0] == '.' && s[1] == '.' && s[2] == '/',
{
    reveal_strlit("/");
    reveal_strlit("./");
    reveal_strlit("../");
    if starts(s, "/"@) {
        assert(s.take(1)[0] == s[0]);
    }
    if starts(s, "./"@) {
        assert(s.take(2)[0] == s[0]);
        assert(s.take(2)[1] == s[1]);
    }
    if starts(s, "../"@) {
        assert(s.take(3)[0] == s[0]);
        assert(s.take(3)[1] == s[1]);
        assert(s.take(3)[2] == s[2]);
    }
}

/// Without brackets there is no bracketed address.
pub proof fn lemma_no_bracket(s: Seq<char>)
    requires
        no_brackets(s),
    ensures
        bracket_end(s) is None,
{
    if let Some(k) = find_text_from(s, "]:"@, 0) {
        lemma_text_found(s, "]:"@, 0);
        let t = s.take(k);
        reveal_strlit("]:");
        let q = s.subrange(k, k + 2);
        assert("]:"@.len() == 2 && "]:"@[0] == ']' && "]:"@[1] == ':');
        assert(q[0] == s[k] && q[1] == s[k + 1]);
        lemma_find_from(t, '[', 0);
        if let Some(j) = find_from(t, '[', 0) {
            assert(t[j] == s[j]);
        }
    }
}

/// A bracketed address before `]:` is a host, whatever colons it holds, and all
/// that follows is the path.
pub proof fn lemma_remote_bracketed(user: Seq<char>, addr: Seq<char>, path: Seq<char>)
    requires
        forall|j: int| 0 <= j < user.len() ==> user[j] != ']' && user[j] != '/',
        forall|j: int| 0 <= j < addr.len() ==> addr[j] != ']',
        path.len() > 0,
    ensures
        ({
            let host = user + seq!['['] + addr + seq![']'];
            let s = host + seq![':'] + path;
            &&& is_remote(s)
            &&& host_path(s) == Ok::<(Seq<char>, Seq<char>), Seq<char>>((host, path))
        }),
{
    reveal_strlit("]:");
    let host = user + seq!['['] + addr + seq![']'];
    let s = host + seq![':'] + path;
    let k = host.len() - 1;
    let open = user.len() as int;
    lemma_starts_slash(s);
    assert forall|j: int| 0 <= j <= open implies s[j] != '/' by {
        if j < open {
            assert(s[j] == user[j]);
        }
    }
    assert(s[open] == '[');
    assert(s.subrange(k, k + 2) =~= "]:"@);
    assert forall|i: int| 0 <= i < k implies #[trigger] s.subrange(i, i + "]:"@.len()) != "]:"@ by {
        assert(s.subrange(i, i + 2)[0] == s[i]);
        if i < open {
            assert(s[i] == user[i]);
        } else if i > open {
            assert(s[i] == addr[i - open - 1]);
        }
    }
    lemma_text_first(s, "]:"@, 0, k);
    let t = s.take(k);
    assert(t[open] == '[');
    lemma_find_from(t, '[', 0);
    assert(s.take(k + 1) =~= host);
    assert(s.skip(k + 2) =~= path);
}

/// Tells `host:path` from a local path.
pub fn is_remote_spec(s: &str) -> (r: bool)
    ensures
        r == is_remote(s@),
        no_brackets(s@) ==> (r <==> exists|k: int| parts_at(s@, k)),
{
    proof {
        if no_brackets(s@) {
            lemma_remote_plain(s@);
        }
    }
    if starts_with(s, "/") || starts_with(s, "./") || starts_with(s, "../") {
        return false;
    }
    let v: Vec<char> = chars_of(s);
    if let Some(k) = find_bracket_end(s) {
        return v.len() > k + 2;
    }
    match rfind_char(&v, ':') {
        None => false,
        Some(i) => {
            let h: Vec<char> = chars_of(s.substring_char(0, i));
            assert(h@ =~= s@.take(i as int));
            if h.len() == 0 {
                return false;
            }
            let c: u32 = h[0] as u32;
            if h.len() == 1 && ((65 <= c && c <= 90) || (97 <= c && c <= 122)) {
                return false;
            }
            find_char(&h, '/', 0).is_none()
        },
    }
}

/// Host and path of a remote spec. A bracketed address is kept whole; else the
/// last colon parts the two.
pub open spec fn host_path(s: Seq<char>) -> Result<(Seq<char>, Seq<char>), Seq<char>> {
    match bracket_end(s) {
        Some(k) => if s.len() > k + 2 {
            Ok((s.take(k + 1), s.skip(k + 2)))
        } else {
            Err("bad host:path"@)
        },
        None => match rfind_below(s, ':', s.len() as int) {
            None => Err("need host:path"@),
            Some(i) => if i == 0 || i + 1 == s.len() {
                Err("bad host:path"@)
            } else {
                Ok((s.take(i), s.skip(i + 1)))
            },
        },
    }
}

pub fn split_host_path(spec: &str) -> (r: Result<(&str, &str), String>)
    ensures
        match r {
            Ok(p) => host_path(spec@) == Ok::<(Seq<char>, Seq<char>), Seq<char>>((p.0@, p.1@)),
            Err(e) => host_path(spec@) == Err::<(Seq<char>, Seq<char>), Seq<char>>(e@),
        },
        r matches Ok(p) ==> spec@ == p.0@ + seq![':'] + p.1@,
{
    let v: Vec<char> = chars_of(spec);
    let n: usize = v.len();
    if let Some(k) = find_bracket_end(spec) {
        if n <= k + 2 {
            return Err("bad host:path".to_owned());
        }
        let host: &str = spec.substring_char(0, k + 1);
        let path: &str = spec.substring_char(k + 2, n);
        assert(host@ =~= spec@.take(k + 1));
        assert(path@ =~= spec@.skip(k + 2));
        assert(spec@ =~= host@ + seq![':'] + path@);
        return Ok((host, path));
    }
    match rfind_char(&v, ':') {
        None => Err("need host:path".to_owned()),
        Some(i) => {
            if i == 0 || i + 1 == n {
                return Err("bad host:path".to_owned());
            }
            let host: &str = spec.substring_char(0, i);
            let path: &str = spec.substring_char(i + 1, n);
            assert(host@ =~= spec@.take(i as int));
            assert(path@ =~= spec@.skip(i + 1));
            assert(spec@ =~= host@ + seq![':'] + path@);
            Ok((host, path))
        },
    }
}

/// Host and path of a spec, with a colon between them, are the spec, and neither
/// is empty.
pub proof fn lemma_host_path_parts(s: Seq<char>)
    ensures
        host_path(s) matches Ok(p) ==> s == p.0 + seq![':'] + p.1 && p.0.len() > 0 && p.1.len() > 0,
{
    reveal_strlit("]:");
    lemma_rfind(s, ':', s.len() as int);
    if let Some(k) = bracket_end(s) {
        lemma_text_found(s, "]:"@, 0);
        assert(s.subrange(k, k + 2)[1] == s[k + 1]);
        assert("]:"@[1] == ':');
        if s.len() > k + 2 {
            assert(s =~= s.take(k + 1) + seq![':'] + s.skip(k + 2));
        }
    } else if let Some(i) = rfind_below(s, ':', s.len() as int) {
        if i + 1 < s.len() {
            assert(s =~= s.take(i) + seq![':'] + s.skip(i + 1));
        }
    }
}

/// A spec that is told from a local path and ends in no colon parts into a host
/// and a path.
pub proof fn lemma_remote_splits(s: Seq<char>)
    requires
        is_remote(s),
        s.last() != ':',
    ensures
        host_path(s) is Ok,
{
    if bracket_end(s) is None {
        lemma_rfind(s, ':', s.len() as int);
    }
}

pub proof fn lemma_rfind(s: Seq<char>, c: char, n: int)
    requires
        0 <= n <= s.len(),
    ensures
        rfind_below(s, c, n) matches Some(i) ==> 0 <= i < n && s[i] == c,
        rfind_below(s, c, n) matches Some(i) ==> forall|j: int| i < j < n ==> s[j] != c,
        rfind_below(s, c, n) is None ==> forall|j: int| 0 <= j < n ==> s[j] != c,
    decreases n,
{
    if n > 0 {
        lemma_rfind(s, c, n - 1);
    }
}

/// Host part of `user@host`: what follows the last `@`.
pub open spec fn host_part(s: Seq<char>) -> Seq<char> {
    match rfind_below(s, '@', s.len() as int) {
        Some(i) => s.skip(i + 1),
        None => s,
    }
}

pub fn host_only(remote: &str) -> (r: &str)
    ensures
        r@ == host_part(remote@),
{
    let v: Vec<char> = chars_of(remote);
    match rfind_char(&v, '@') {
        Some(i) => {
            let h: &str = remote.substring_char(i + 1, v.len());
            assert(h@ =~= remote@.skip(i + 1));
            h
        },
        None => remote,
    }
}

/// The text without its trailing slashes.
pub open spec fn no_slash_end(s: Seq<char>) -> Seq<char>
    decreases s.len(),
{
    if s.len() > 0 && s.last() == '/' {
        no_slash_end(s.drop_last())
    } else {
        s
    }
}

fn trim_slashes(s: &str) -> (r: &str)
    ensures
        r@ == no_slash_end(s@),
{
    let v: Vec<char> = chars_of(s);
    let mut n: usize = v.len();
    assert(s@.take(n as int) =~= s@);
    while n > 0 && v[n - 1] == '/'
        invariant
            n <= v.len(),
            v@ == s@,
            no_slash_end(s@.take(n as int)) == no_slash_end(s@),
        decreases n,
    {
        assert(s@.take(n as int).drop_last() =~= s@.take(n - 1));
        n -= 1;
    }
    let r: &str = s.substring_char(0, n);
    assert(r@ =~= s@.take(n as int));
    r
}

/// A path below a remote directory.
pub open spec fn joined(base: Seq<char>, rel: Seq<char>) -> Seq<char> {
    if rel.len() == 0 {
        no_slash_end(base)
    } else {
        no_slash_end(base) + "/"@ + rel
    }
}

/// A path below a remote directory is the directory as it was given, without the
/// slashes at its end, and behind it a slash and the relative path. So it starts
/// at the root if and only if the directory does, or has no name.
pub proof fn lemma_joined_below(base: Seq<char>, rel: Seq<char>)
    ensures
        ({
            let r = joined(base, rel);
            let n = r.len() - if rel.len() > 0 {
                rel.len() + 1
            } else {
                0
            };
            &&& 0 <= n <= base.len()
            &&& r.take(n) == base.take(n)
            &&& forall|i: int| n <= i < base.len() ==> base[i] == '/'
            &&& n > 0 ==> base[n - 1] != '/'
            &&& rel.len() > 0 ==> r[n] == '/' && r.skip(n + 1) == rel
            &&& rel.len() > 0 ==> (r[0] == '/' <==> base.len() == 0 || base[0] == '/')
        }),
{
    reveal_strlit("/");
    lemma_no_slash_end(base);
    let b = no_slash_end(base);
    let r = joined(base, rel);
    assert(r.take(b.len() as int) =~= b);
    if rel.len() > 0 {
        assert(r.skip(b.len() + 1int) =~= rel);
    }
}

proof fn lemma_no_slash_end(s: Seq<char>)
    ensures
        no_slash_end(s).len() <= s.len(),
        no_slash_end(s) == s.take(no_slash_end(s).len() as int),
        forall|i: int| no_slash_end(s).len() <= i < s.len() ==> s[i] == '/',
        no_slash_end(s).len() > 0 ==> no_slash_end(s).last() != '/',
    decreases s.len(),
{
    if s.len() > 0 && s.last() == '/' {
        let t = s.drop_last();
        lemma_no_slash_end(t);
        let n = no_slash_end(s).len() as int;
        assert(t.take(n) =~= s.take(n));
        assert forall|i: int| n <= i < s.len() implies s[i] == '/' by {
            if i < t.len() {
                assert(t[i] == s[i]);
            }
        }
    } else {
        assert(s.take(s.len() as int) =~= s);
    }
}

pub fn join_remote(base: &str, rel: &str) -> (r: String)
    ensures
        r@ == joined(base@, rel@),
        rel@.len() > 0 ==> {
            let n = r@.len() - rel@.len() - 1;
            &&& 0 <= n <= base@.len()
            &&& r@ == base@.take(n) + seq!['/'] + rel@
            &&& forall|i: int| n <= i < base@.len() ==> base@[i] == '/'
            &&& n > 0 ==> base@[n - 1] != '/'
        },
{
    proof {
        lemma_joined_below(base@, rel@);
        if rel@.len() > 0 {
            reveal_strlit("/");
            let n = no_slash_end(base@).len() as int;
            lemma_no_slash_end(base@);
            assert(joined(base@, rel@) =~= base@.take(n) + seq!['/'] + rel@);
        }
    }
    let mut r: String = trim_slashes(base).to_owned();
    if chars_of(rel).len() > 0 {
        r.append("/");
        r.append(rel);
    }
    r
}

/// The directory that a path lies in, if it names one.
pub open spec fn parent_of(s: Seq<char>) -> Option<Seq<char>> {
    let p = no_slash_end(s);
    match rfind_below(p, '/', p.len() as int) {
        Some(i) => Some(p.take(i)),
        None => None,
    }
}

pub fn parent_posix(path: &str) -> (r: Option<String>)
    ensures
        match r {
            Some(d) => parent_of(path@) == Some(d@),
            None => parent_of(path@) is None,
        },
{
    let p: &str = trim_slashes(path);
    let v: Vec<char> = chars_of(p);
    match rfind_char(&v, '/') {
        None => None,
        Some(i) => {
            let d: String = p.substring_char(0, i).to_owned();
            assert(d@ =~= p@.take(i as int));
            Some(d)
        },
    }
}

/// A relative path that stays below the directory it is taken from: it is not
/// empty, does not start at the root, and no component of it is `..`.
pub open spec fn safe_rel(s: Seq<char>) -> bool {
    &&& s.len() > 0
    &&& s[0] != '/'
    &&& forall|i: int| 0 <= i < pieces(s, '/').len() ==> #[trigger] pieces(s, '/')[i] != ".."@
}

/// Rejects a listed path that is absolute or climbs with `..`.
pub fn is_safe_rel(rel: &str) -> (r: bool)
    ensures
        r == safe_rel(rel@),
{
    let v: Vec<char> = chars_of(rel);
    if v.len() == 0 || v[0] == '/' {
        return false;
    }
    let parts: Vec<String> = split_on(rel, '/');
    assert(texts(parts@) == pieces(rel@, '/'));
    let mut i: usize = 0;
    while i < parts.len()
        invariant
            i <= parts.len(),
            texts(parts@) == pieces(rel@, '/'),
            forall|k: int| 0 <= k < i ==> #[trigger] pieces(rel@, '/')[k] != ".."@,
        decreases parts.len() - i,
    {
        if same(parts[i].as_str(), "..") {
            assert(pieces(rel@, '/')[i as int] == ".."@);
            return false;
        }
        assert(pieces(rel@, '/')[i as int] == parts@[i as int]@);
        i += 1;
    }
    true
}

/// Where the components of a path lead from a directory: empty ones and `.`
/// stay, `..` climbs, any other descends.
pub open spec fn walked(dir: Seq<Seq<char>>, parts: Seq<Seq<char>>) -> Seq<Seq<char>>
    decreases parts.len(),
{
    if parts.len() == 0 {
        dir
    } else {
        let p = parts[0];
        walked(
            if p.len() == 0 || p == "."@ {
                dir
            } else if p == ".."@ {
                if dir.len() > 0 {
                    dir.drop_last()
                } else {
                    dir
                }
            } else {
                dir.push(p)
            },
            parts.skip(1),
        )
    }
}

/// A safe path leads nowhere outside the directory it is taken from.
pub proof fn lemma_safe_stays(dir: Seq<Seq<char>>, rel: Seq<char>)
    requires
        safe_rel(rel),
    ensures
        dir.is_prefix_of(walked(dir, pieces(rel, '/'))),
{
    lemma_walked_down(dir, pieces(rel, '/'));
}

proof fn lemma_walked_down(dir: Seq<Seq<char>>, parts: Seq<Seq<char>>)
    requires
        forall|i: int| 0 <= i < parts.len() ==> #[trigger] parts[i] != ".."@,
    ensures
        dir.is_prefix_of(walked(dir, parts)),
    decreases parts.len(),
{
    if parts.len() > 0 {
        let p = parts[0];
        let next = if p.len() == 0 || p == "."@ {
            dir
        } else {
            dir.push(p)
        };
        lemma_walked_down(next, parts.skip(1));
        let end = walked(next, parts.skip(1));
        assert(dir.is_prefix_of(next)) by {
            assert(dir =~= next.subrange(0, dir.len() as int));
        }
        assert(dir =~= end.subrange(0, dir.len() as int)) by {
            assert(next =~= end.subrange(0, next.len() as int));
            assert forall|i: int| 0 <= i < dir.len() implies dir[i] == end[i] by {
                assert(next[i] == end.subrange(0, next.len() as int)[i]);
            }
        }
    }
}

} // verus!
