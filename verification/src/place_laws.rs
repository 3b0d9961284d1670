//! Where files go and which addresses are meant, told by the texts themselves.

use crate::address::{
    admitted, advertise_refusal, bad_in_advertise, bind_host, good_in_advertise, iface_from,
    ipv4_from, is_bind_plan, is_ipv4_word, listen_parts, loopback_host, peer_entries, peers_in,
    readable, unbracketed, BindPlan, Ip,
};
use crate::paths::{host_part, joined, lemma_rfind, no_slash_end, parent_of, safe_rel};
use crate::shell::quoted_word;
use crate::text::{
    dec, find_from, is_space, lemma_dec_plain, lemma_find_from, lemma_find_here, lemma_number_dec,
    lemma_trimmed_between, pieces, pieces_from, starts, trimmed, words,
};
use crate::tree::{below, find_text_of, local_joined, mkdir_text, needed_dirs, slashed};
use vstd::prelude::*;

verus! {

/// A component `..` stands at index `i` of a path.
pub open spec fn climbs_at(s: Seq<char>, i: int) -> bool {
    &&& 0 <= i && i + 2 <= s.len()
    &&& s[i] == '.' && s[i + 1] == '.'
    &&& i == 0 || s[i - 1] == '/'
    &&& i + 2 == s.len() || s[i + 2] == '/'
}

/// A listed path is accepted if and only if it is not empty, does not start with
/// a slash, and nowhere has `..` between slashes or its ends. Whatever else it
/// holds is no reason to refuse it.
pub proof fn lemma_safe_chars(s: Seq<char>)
    ensures
        safe_rel(s) <==> s.len() > 0 && s[0] != '/' && forall|i: int| !climbs_at(s, i),
{
    lemma_climbs(s, 0);
    let ps = pieces(s, '/');
    if s.len() > 0 && s[0] != '/' && forall|i: int| !climbs_at(s, i) {
        assert forall|k: int| 0 <= k < ps.len() implies #[trigger] ps[k] != ".."@ by {}
    }
    if safe_rel(s) {
        assert forall|i: int| !climbs_at(s, i) by {
            if climbs_at(s, i) {
                let k = choose|k: int| 0 <= k < ps.len() && #[trigger] ps[k] == ".."@;
                assert(ps[k] != ".."@);
            }
        }
    }
}

proof fn lemma_climbs(s: Seq<char>, i: int)
    requires
        0 <= i <= s.len(),
        i == 0 || s[i - 1] == '/',
    ensures
        (exists|k: int|
            0 <= k < pieces_from(s, '/', i).len() && #[trigger] pieces_from(s, '/', i)[k] == ".."@)
            <==> exists|j: int| i <= j && climbs_at(s, j),
    decreases s.len() - i,
{
    reveal_strlit("..");
    assert(".."@.len() == 2 && ".."@[0] == '.' && ".."@[1] == '.');
    lemma_find_from(s, '/', i);
    let ps = pieces_from(s, '/', i);
    match find_from(s, '/', i) {
        None => {
            let p = s.subrange(i, s.len() as int);
            assert(ps =~= seq![p]);
            if climbs_at(s, i) {
                assert(p =~= ".."@);
                assert(ps[0] == ".."@);
            }
            if p == ".."@ {
                assert(p.len() == 2);
                assert(s[i] == p[0] && s[i + 1] == p[1]);
                assert(climbs_at(s, i));
            }
            assert forall|j: int| i <= j && climbs_at(s, j) implies j == i by {}
        },
        Some(k) => {
            let p = s.subrange(i, k);
            let rest = pieces_from(s, '/', k + 1);
            assert(ps =~= seq![p] + rest);
            lemma_climbs(s, k + 1);
            if p == ".."@ {
                assert(p.len() == 2);
                assert(s[i] == p[0] && s[i + 1] == p[1]);
                assert(climbs_at(s, i));
            }
            if climbs_at(s, i) {
                assert(k == i + 2) by {
                    assert(i + 2 == s.len() || s[i + 2] == '/');
                    assert(s[k] == '/');
                }
                assert(p =~= ".."@);
                assert(ps[0] == ".."@);
            }
            assert forall|j: int| i < j && climbs_at(s, j) implies k + 1 <= j by {}
            if exists|j: int| k + 1 <= j && climbs_at(s, j) {
                let m = choose|m: int| 0 <= m < rest.len() && #[trigger] rest[m] == ".."@;
                assert(ps[m + 1] == ".."@);
            }
            if exists|m: int| 0 <= m < ps.len() && #[trigger] ps[m] == ".."@ {
                let m = choose|m: int| 0 <= m < ps.len() && #[trigger] ps[m] == ".."@;
                if m > 0 {
                    assert(rest[m - 1] == ".."@);
                }
            }
        },
    }
}

/// The host of `user@host` is what follows the last `@`, and of a host alone it is
/// the host.
pub proof fn lemma_host_named(user: Seq<char>, host: Seq<char>)
    requires
        forall|j: int| 0 <= j < host.len() ==> host[j] != '@',
    ensures
        host_part(user + seq!['@'] + host) == host,
        host_part(host) == host,
{
    let s = user + seq!['@'] + host;
    let n = user.len() as int;
    lemma_rfind(s, '@', s.len() as int);
    lemma_rfind(host, '@', host.len() as int);
    assert(s[n] == '@');
    assert forall|j: int| n < j < s.len() implies s[j] != '@' by {
        assert(s[j] == host[j - n - 1]);
    }
    assert(s.skip(n + 1) =~= host);
}

/// The directory of a path is what goes before its last slash.
pub proof fn lemma_parent_named(dir: Seq<char>, name: Seq<char>)
    requires
        name.len() > 0,
        forall|j: int| 0 <= j < name.len() ==> name[j] != '/',
    ensures
        parent_of(dir + seq!['/'] + name) == Some(dir),
        parent_of(name) is None,
{
    let s = dir + seq!['/'] + name;
    let n = dir.len() as int;
    assert(s.last() == name.last());
    assert(no_slash_end(s) == s);
    assert(no_slash_end(name) == name);
    lemma_rfind(s, '/', s.len() as int);
    lemma_rfind(name, '/', name.len() as int);
    assert(s[n] == '/');
    assert forall|j: int| n < j < s.len() implies s[j] != '/' by {
        assert(s[j] == name[j - n - 1]);
    }
    assert(s.take(n) =~= dir);
}

/// A path below a local directory starts with the directory as it was given and
/// ends with the relative path; between them is a slash, unless the directory
/// ends in one or has no name.
pub proof fn lemma_local_below(dir: Seq<char>, rel: Seq<char>)
    ensures
        ({
            let r = local_joined(dir, rel);
            let gap: int = if dir.len() > 0 && dir[dir.len() - 1] != '/' { 1 } else { 0 };
            &&& r.len() == dir.len() + gap + rel.len()
            &&& r.take(dir.len() as int) == dir
            &&& r.skip(dir.len() + gap) == rel
            &&& gap == 1 ==> r[dir.len() as int] == '/'
        }),
{
    reveal_strlit("/");
    let r = local_joined(dir, rel);
    let gap: int = if dir.len() > 0 && dir[dir.len() - 1] != '/' { 1 } else { 0 };
    assert(r.take(dir.len() as int) =~= dir);
    assert(r.skip(dir.len() + gap) =~= rel);
}

/// Each further component of a path lies below those before it.
pub proof fn lemma_below_grows(dir: Seq<char>, comps: Seq<Seq<char>>, c: Seq<char>)
    ensures
        below(dir, Seq::empty()) == dir,
        below(dir, comps.push(c)) == local_joined(below(dir, comps), c),
{
    assert(comps.push(c).drop_last() =~= comps);
}

/// Backslashes become slashes, and every other character stays in its place.
pub proof fn lemma_slashed_chars(s: Seq<char>)
    ensures
        slashed(s).len() == s.len(),
        forall|i: int|
            0 <= i < s.len() ==> #[trigger] slashed(s)[i] == if s[i] == '\\' { '/' } else { s[i] },
{
}

/// The command that lists a remote directory goes there and names every regular
/// file below it, with a zero byte behind each name.
pub proof fn lemma_find_words(rpath: Seq<char>)
    ensures
        find_text_of(rpath) == "cd "@ + quoted_word(rpath) + " && find . -type f -print0"@,
{
}

/// The command that makes directories names each of them that has a name, as one
/// word.
pub proof fn lemma_mkdir_words(dirs: Seq<Seq<char>>, d: Seq<char>)
    ensures
        mkdir_text(Seq::empty(), 0) == "mkdir -p"@,
        mkdir_text(dirs.push(d), dirs.len() + 1int) == if d.len() > 0 {
            mkdir_text(dirs, dirs.len() as int) + " "@ + quoted_word(d)
        } else {
            mkdir_text(dirs, dirs.len() as int)
        },
{
    lemma_mkdir_prefix(dirs, d, dirs.len() as int);
}

proof fn lemma_mkdir_prefix(dirs: Seq<Seq<char>>, d: Seq<char>, n: int)
    requires
        0 <= n <= dirs.len(),
    ensures
        mkdir_text(dirs.push(d), n) == mkdir_text(dirs, n),
    decreases n,
{
    if n > 0 {
        lemma_mkdir_prefix(dirs, d, n - 1);
        assert(dirs.push(d)[n - 1] == dirs[n - 1]);
    }
}

/// The directory of the tree is made, and the directory of every file of it, and
/// no other.
pub proof fn lemma_dirs_made(rpath: Seq<char>, rels: Seq<Seq<char>>, n: int)
    requires
        0 <= n <= rels.len(),
    ensures
        needed_dirs(rpath, rels, n).contains(joined(rpath, Seq::empty())),
        forall|k: int|
            0 <= k < n ==> (parent_of(joined(rpath, #[trigger] rels[k])) matches Some(d)
                ==> needed_dirs(rpath, rels, n).contains(d)),
        forall|d: Seq<char>| #[trigger]
            needed_dirs(rpath, rels, n).contains(d) ==> d == joined(rpath, Seq::empty()) || exists|
                k: int,
            |
                0 <= k < n && parent_of(joined(rpath, #[trigger] rels[k])) == Some(d),
    decreases n,
{
    let all = needed_dirs(rpath, rels, n);
    if n <= 0 {
        assert(all[0] == joined(rpath, Seq::empty()));
    } else {
        lemma_dirs_made(rpath, rels, n - 1);
        let some = needed_dirs(rpath, rels, n - 1);
        let last = parent_of(joined(rpath, rels[n - 1]));
        assert forall|d: Seq<char>| some.contains(d) implies all.contains(d) by {
            let i = choose|i: int| 0 <= i < some.len() && some[i] == d;
            assert(all[i] == d);
        }
        if let Some(e) = last {
            if !some.contains(e) {
                assert(all[some.len() as int] == e);
            }
        }
        assert forall|d: Seq<char>| #[trigger] all.contains(d) implies d == joined(
            rpath,
            Seq::empty(),
        ) || exists|k: int|
            0 <= k < n && parent_of(joined(rpath, #[trigger] rels[k])) == Some(d) by {
            let i = choose|i: int| 0 <= i < all.len() && all[i] == d;
            if i < some.len() {
                assert(some[i] == d);
                assert(some.contains(d));
                if d != joined(rpath, Seq::empty()) {
                    let k = choose|k: int|
                        0 <= k < n - 1 && parent_of(joined(rpath, #[trigger] rels[k])) == Some(d);
                    assert(parent_of(joined(rpath, rels[k])) == Some(d));
                }
            } else {
                assert(parent_of(joined(rpath, rels[n - 1])) == Some(d));
            }
        }
    }
}

/// A listen address is a host, a colon and a port, and every port can be named.
pub proof fn lemma_listen_read(host: Seq<char>, port: u16)
    requires
        host.len() > 0,
        !is_space(host[0]),
        host[0] != '[',
    ensures
        listen_parts(host + seq![':'] + dec(port as nat)) == Ok::<(Seq<char>, u16), Seq<char>>(
            (host, port),
        ),
{
    let d = dec(port as nat);
    let s = host + seq![':'] + d;
    let k = host.len() as int;
    lemma_dec_plain(port as nat);
    lemma_number_dec(port as nat, u16::MAX as nat);
    lemma_own_ends(s, host[0], d);
    assert(s[k] == ':');
    assert forall|j: int| k < j < s.len() implies s[j] != ':' by {
        assert(s[j] == d[j - k - 1]);
    }
    lemma_rfind(s, ':', s.len() as int);
    assert(s.skip(k + 1) =~= d);
    assert(s.take(k) =~= host);
}

/// A listen address with a host in brackets is the address between them, whatever
/// colons it holds.
pub proof fn lemma_listen_bracketed(host: Seq<char>, port: u16)
    requires
        forall|j: int| 0 <= j < host.len() ==> host[j] != ']',
    ensures
        listen_parts(seq!['['] + host + seq![']', ':'] + dec(port as nat)) == Ok::<
            (Seq<char>, u16),
            Seq<char>,
        >((host, port)),
{
    let d = dec(port as nat);
    let k = host.len() as int;
    let t = seq!['['] + host + seq![']', ':'] + d;
    lemma_dec_plain(port as nat);
    lemma_number_dec(port as nat, u16::MAX as nat);
    lemma_own_ends(t, '[', d);
    assert(t[k + 1] == ']');
    assert forall|j: int| 1 <= j < k + 1 implies t[j] != ']' by {
        assert(t[j] == host[j - 1]);
    }
    lemma_find_here(t, ']', 1, k + 1);
    assert(t.skip(k + 3) =~= d);
    assert(t.subrange(1, k + 1) =~= host);
}

/// A text with no white space at its ends is not trimmed.
proof fn lemma_own_ends(s: Seq<char>, first: char, end: Seq<char>)
    requires
        s.len() > 0,
        s[0] == first,
        !is_space(first),
        end.len() > 0,
        forall|i: int| 0 <= i < end.len() ==> !is_space(#[trigger] end[i]),
        s.last() == end.last(),
    ensures
        trimmed(s) == s,
{
    let none = Seq::<char>::empty();
    assert(!is_space(end[end.len() - 1]));
    lemma_trimmed_between(none, s, none);
    assert(none + s + none =~= s);
}

/// A port that is named is the only one that is tried; where none is named, the
/// ports of the range are, from the first to the last, and without a range the
/// system chooses.
pub proof fn lemma_bind_ports(
    p: BindPlan,
    host: Seq<char>,
    port: u16,
    range: Option<(u16, u16)>,
)
    requires
        is_bind_plan(p, host, port, range),
    ensures
        p.host@ == host,
        port > 0 ==> p.first == port && p.last == port,
        port == 0 && range is Some ==> p.first == (range->0).0 && p.last == (range->0).1,
        port == 0 && range is None ==> p.first == 0 && p.last == 0,
{
}

/// `cp` listens on the host of the environment, without the white space around
/// it, and on all interfaces where none is named.
pub proof fn lemma_bind_named(env: Seq<char>)
    ensures
        bind_host(None) == "0.0.0.0"@,
        trimmed(env).len() == 0 ==> bind_host(Some(env)) == "0.0.0.0"@,
        trimmed(env).len() > 0 ==> bind_host(Some(env)) == trimmed(env),
{
}

/// An address is advertised if and only if it is made of letters, digits, dots,
/// colons, dashes and percent signs, and not empty.
pub proof fn lemma_advertise_chars(v: Seq<char>)
    ensures
        advertise_refusal(v) is None <==> v.len() > 0 && forall|i: int|
            0 <= i < v.len() ==> host_char(#[trigger] v[i]),
{
    assert forall|i: int| 0 <= i < v.len() implies good_in_advertise(#[trigger] v[i]) == host_char(
        v[i],
    ) && (host_char(v[i]) ==> !bad_in_advertise(v[i])) by {
        lemma_host_char(v[i]);
    }
    if advertise_refusal(v) is None {
        assert forall|i: int| 0 <= i < v.len() implies host_char(#[trigger] v[i]) by {
            assert(good_in_advertise(v[i]));
        }
    }
}

/// A character of host names and addresses.
pub open spec fn host_char(c: char) -> bool {
    ||| 'a' <= c <= 'z'
    ||| 'A' <= c <= 'Z'
    ||| '0' <= c <= '9'
    ||| c == '.' || c == ':' || c == '-' || c == '%'
}

proof fn lemma_host_char(c: char)
    ensures
        good_in_advertise(c) == host_char(c),
        host_char(c) ==> !bad_in_advertise(c),
{
}

/// A host name without brackets around it means this machine if and only if it is
/// `localhost` or `::1`, or starts with `127.`.
pub proof fn lemma_loopback_named(s: Seq<char>)
    requires
        s.len() > 0,
        s[0] != '[' && s[0] != ']',
        s[s.len() - 1] != '[' && s[s.len() - 1] != ']',
    ensures
        loopback_host(s, None) <==> s == "localhost"@ || s == "::1"@ || (s.len() >= 4 && s[0] == '1'
            && s[1] == '2' && s[2] == '7' && s[3] == '.'),
{
    reveal_strlit("127.0.0.1");
    reveal_strlit("127.");
    assert(unbracketed(s) =~= s);
    if s.len() >= 4 {
        let t = s.take(4);
        assert(t[0] == s[0] && t[1] == s[1] && t[2] == s[2] && t[3] == s[3]);
        if s[0] == '1' && s[1] == '2' && s[2] == '7' && s[3] == '.' {
            assert(t =~= "127."@);
        }
    }
}

/// An address of version 4 is a loopback one by its first byte alone, and one of
/// version 6 if it is `::1`; two are alike if they are of one version and have the
/// same bytes.
pub proof fn lemma_ip_kinds(a: [u8; 4], b: [u8; 4], c: [u8; 16], d: [u8; 16])
    ensures
        Ip::V4(a).loopback() <==> a@[0] == 127,
        Ip::V6(c).loopback() <==> c@[15] == 1 && forall|i: int| 0 <= i < 15 ==> c@[i] == 0,
        Ip::V4(a).unspecified() <==> forall|i: int| 0 <= i < 4 ==> a@[i] == 0,
        Ip::V6(c).unspecified() <==> forall|i: int| 0 <= i < 16 ==> c@[i] == 0,
        Ip::V4(a).alike(Ip::V4(b)) <==> a@ == b@,
        Ip::V6(c).alike(Ip::V6(d)) <==> c@ == d@,
        !Ip::V4(a).alike(Ip::V6(c)),
{
    let one = seq![0u8, 0, 0, 0, 0, 0, 0, 0, 0, 0, 0, 0, 0, 0, 0, 1];
    let zero = seq![0u8, 0, 0, 0, 0, 0, 0, 0, 0, 0, 0, 0, 0, 0, 0, 0];
    if c@[15] == 1 && forall|i: int| 0 <= i < 15 ==> c@[i] == 0 {
        assert(c@ =~= one);
    }
    if forall|i: int| 0 <= i < 16 ==> c@[i] == 0 {
        assert(c@ =~= zero);
    }
    if forall|i: int| 0 <= i < 4 ==> a@[i] == 0 {
        assert(a@ =~= seq![0u8, 0, 0, 0]);
    }
}

/// Every address that an entry of the list reads as is admitted.
pub proof fn lemma_listed_admitted(parsed: Seq<Option<Ip>>, i: int, ip: Ip)
    requires
        0 <= i < parsed.len(),
        parsed[i] matches Some(a) && a.alike(ip),
    ensures
        admitted(readable(parsed, parsed.len() as int), ip),
{
    lemma_readable_holds(parsed, parsed.len() as int, i);
    let all = readable(parsed, parsed.len() as int);
    let k = choose|k: int| 0 <= k < all.len() && Some(#[trigger] all[k]) == parsed[i];
    assert(all[k].alike(ip));
}

proof fn lemma_readable_holds(parsed: Seq<Option<Ip>>, n: int, i: int)
    requires
        0 <= i < n <= parsed.len(),
        parsed[i] is Some,
    ensures
        exists|k: int| 0 <= k < readable(parsed, n).len() && Some(
            #[trigger] readable(parsed, n)[k],
        ) == parsed[i],
    decreases n,
{
    let all = readable(parsed, n);
    let some = readable(parsed, n - 1);
    if i == n - 1 {
        assert(Some(all[some.len() as int]) == parsed[i]);
    } else {
        lemma_readable_holds(parsed, n - 1, i);
        let k = choose|k: int| 0 <= k < some.len() && Some(#[trigger] some[k]) == parsed[i];
        assert(Some(all[k]) == parsed[i]);
    }
}

/// The entries of a list of peers are its parts between commas, without the white
/// space around them, but for those that are blank.
pub proof fn lemma_peers_named(v: Seq<char>)
    ensures
        forall|i: int|
            0 <= i < pieces(trimmed(v), ',').len() && trimmed(
                #[trigger] pieces(trimmed(v), ',')[i],
            ).len() > 0 ==> peers_in(v).contains(trimmed(pieces(trimmed(v), ',')[i])),
        forall|e: Seq<char>| #[trigger]
            peers_in(v).contains(e) ==> e.len() > 0 && exists|i: int|
                0 <= i < pieces(trimmed(v), ',').len() && trimmed(
                    #[trigger] pieces(trimmed(v), ',')[i],
                ) == e,
{
    lemma_entries(pieces(trimmed(v), ','), pieces(trimmed(v), ',').len() as int);
}

proof fn lemma_entries(ps: Seq<Seq<char>>, n: int)
    requires
        0 <= n <= ps.len(),
    ensures
        forall|i: int|
            0 <= i < n && trimmed(#[trigger] ps[i]).len() > 0 ==> peer_entries(
                ps,
                n,
            ).contains(trimmed(ps[i])),
        forall|e: Seq<char>| #[trigger]
            peer_entries(ps, n).contains(e) ==> e.len() > 0 && exists|i: int|
                0 <= i < n && trimmed(#[trigger] ps[i]) == e,
    decreases n,
{
    let all = peer_entries(ps, n);
    if n > 0 {
        lemma_entries(ps, n - 1);
        let some = peer_entries(ps, n - 1);
        let t = trimmed(ps[n - 1]);
        assert forall|e: Seq<char>| some.contains(e) implies all.contains(e) by {
            let k = choose|k: int| 0 <= k < some.len() && some[k] == e;
            assert(all[k] == e);
        }
        if t.len() > 0 {
            assert(all[some.len() as int] == t);
        }
        assert forall|e: Seq<char>| #[trigger] all.contains(e) implies e.len() > 0 && exists|
            i: int,
        |
            0 <= i < n && trimmed(#[trigger] ps[i]) == e by {
            let k = choose|k: int| 0 <= k < all.len() && all[k] == e;
            if k < some.len() {
                assert(some[k] == e);
                assert(some.contains(e));
                let i = choose|i: int| 0 <= i < n - 1 && trimmed(#[trigger] ps[i]) == e;
                assert(trimmed(ps[i]) == e);
            } else {
                assert(trimmed(ps[n - 1]) == e);
            }
        }
    }
}

/// The interface of the default route is named by the first line behind the
/// heading whose destination is zero, where every line before it has a
/// destination.
pub proof fn lemma_route_found(rows: Seq<Seq<char>>, i: int, k: int)
    requires
        0 <= i <= k < rows.len(),
        forall|j: int|
            i <= j < k ==> words(#[trigger] rows[j]).len() >= 2 && words(rows[j])[1]
                != "00000000"@,
        words(rows[k]).len() >= 2,
        words(rows[k])[1] == "00000000"@,
    ensures
        iface_from(rows, i) == Some(words(rows[k])[0]),
    decreases k - i,
{
    if i < k {
        assert(words(rows[i]).len() >= 2);
        lemma_route_found(rows, i + 1, k);
    }
}

/// The first address among words is taken, without what follows its slash.
pub proof fn lemma_address_found(ws: Seq<Seq<char>>, i: int, k: int)
    requires
        0 <= i <= k < ws.len(),
        forall|j: int| i <= j < k ==> !is_ipv4_word(#[trigger] ws[j]),
        is_ipv4_word(ws[k]),
    ensures
        ipv4_from(ws, i) == Some(pieces(ws[k], '/')[0]),
        forall|j: int| 0 <= j < pieces(ws[k], '/')[0].len() ==> pieces(ws[k], '/')[0][j] != '/',
    decreases k - i,
{
    if i < k {
        lemma_address_found(ws, i + 1, k);
    }
    let w = ws[k];
    lemma_find_from(w, '/', 0);
    let p = pieces(w, '/')[0];
    match find_from(w, '/', 0) {
        None => {
            assert(p =~= w);
        },
        Some(m) => {
            assert(p =~= w.subrange(0, m));
        },
    }
}

} // verus!
