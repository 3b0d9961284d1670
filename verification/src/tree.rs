//! Copying whole directories, one file after the other.

use crate::order::{covers, in_order, sorted_order};
use crate::paths::{
    is_safe_rel, join_remote, joined, no_slash_end, parent_of, parent_posix, safe_rel, walked,
};
use crate::shell::{quoted_word, shell_quote};
use crate::text::{
    chars_of, debug_text, dec, dec_text, lemma_pieces_first, lemma_pieces_whole, pieces, quoted,
    same, split_on, starts, starts_with, texts,
};
use vstd::prelude::*;

verus! {

/// Files of at most this size go over a single stream.
pub const TREE_SINGLE_STREAM_MAX: u64 = 1048576;

/// Number of streams for a file of a tree, whose size is known if it could be
/// asked for.
pub fn streams_for_file(len: Option<u64>, streams: usize) -> (r: usize)
    ensures
        r == (match len {
            Some(n) if n <= TREE_SINGLE_STREAM_MAX && streams > 1 => 1,
            _ => streams,
        }),
{
    match len {
        Some(n) => if n <= TREE_SINGLE_STREAM_MAX && streams > 1 {
            1
        } else {
            streams
        },
        None => streams,
    }
}

/// Number of streams for a file that is pulled, whose size is not known.
pub fn pull_streams(streams: usize) -> (r: usize)
    ensures
        r == (if streams > 1 {
            1
        } else {
            streams
        }),
{
    if streams > 1 {
        1
    } else {
        streams
    }
}

/// A local file of a tree.
pub struct LocalFile {
    pub path: String,
    /// Path relative to the root of the tree.
    pub rel: String,
}

/// The text with slashes in place of backslashes.
pub open spec fn slashed(s: Seq<char>) -> Seq<char> {
    s.map_values(
        |c: char|
            if c == '\\' {
                '/'
            } else {
                c
            },
    )
}

fn slash(s: &str) -> (r: String)
    ensures
        r@ == slashed(s@),
{
    let v: Vec<char> = chars_of(s);
    let mut r: String = String::new();
    let mut i: usize = 0;
    assert(r@ =~= slashed(s@).take(0));
    while i < v.len()
        invariant
            v@ == s@,
            i <= v.len(),
            r@ == slashed(s@).take(i as int),
        decreases v.len() - i,
    {
        if v[i] == '\\' {
            r.push('/');
        } else {
            r.push(v[i]);
        }
        assert(r@ =~= slashed(s@).take(i + 1));
        i += 1;
    }
    assert(slashed(s@).take(i as int) =~= slashed(s@));
    r
}

/// The relative paths of found files, with slashes.
pub open spec fn rels(found: Seq<LocalFile>) -> Seq<Seq<char>> {
    found.map_values(|f: LocalFile| slashed(f.rel@))
}

/// What to do about an entry of a directory.
pub enum WalkAction {
    /// Go into it.
    Descend,
    /// List it as a file.
    List,
    /// Leave it out.
    Skip,
}

/// What to do about an entry of a directory, by the kind of the entry itself. A
/// symbolic link is neither a directory nor a file, whatever it leads to, so it
/// is neither followed nor listed.
pub fn walk_entry(is_dir: bool, is_file: bool) -> (r: WalkAction)
    ensures
        r is Descend <==> is_dir,
        r is List <==> !is_dir && is_file,
        r is Skip <==> !is_dir && !is_file,
{
    if is_dir {
        WalkAction::Descend
    } else if is_file {
        WalkAction::List
    } else {
        WalkAction::Skip
    }
}

/// The files of a tree in the order of their relative paths, which have slashes
/// whatever the system has. `found` lists the files below the root as they were
/// met.
pub fn walk_local_files(root_is_dir: bool, found: &Vec<LocalFile>) -> (r: Result<
    Vec<LocalFile>,
    String,
>)
    ensures
        match r {
            Err(e) => !root_is_dir && e@ == " -r needs a source directory"@,
            Ok(v) => root_is_dir && exists|o: Seq<usize>| #[trigger]
                in_order(rels(found@), o) && covers(o, 0, found@.len() as int) && o.len()
                    == found@.len() && v@.len() == o.len() && forall|k: int|
                    0 <= k < v@.len() ==> (#[trigger] v@[k]).rel@ == rels(found@)[o[k] as int]
                        && v@[k].path@ == found@[o[k] as int].path@,
        },
{
    if !root_is_dir {
        return Err(" -r needs a source directory".to_owned());
    }
    let mut keys: Vec<String> = Vec::new();
    let mut i: usize = 0;
    while i < found.len()
        invariant
            i <= found.len(),
            keys@.len() == i,
            forall|k: int| 0 <= k < i ==> (#[trigger] keys@[k])@ == slashed(found@[k].rel@),
        decreases found.len() - i,
    {
        keys.push(slash(found[i].rel.as_str()));
        i += 1;
    }
    assert(texts(keys@) =~= rels(found@));
    let o: Vec<usize> = sorted_order(&keys);
    let mut v: Vec<LocalFile> = Vec::new();
    let mut j: usize = 0;
    while j < o.len()
        invariant
            j <= o.len(),
            v@.len() == j,
            keys@.len() == found@.len(),
            texts(keys@) == rels(found@),
            covers(o@, 0, found@.len() as int),
            forall|k: int|
                0 <= k < j ==> (#[trigger] v@[k]).rel@ == rels(found@)[o@[k] as int]
                    && v@[k].path@ == found@[o@[k] as int].path@,
        decreases o.len() - j,
    {
        let x: usize = o[j];
        assert(0 <= o@[j as int] < found@.len());
        assert(texts(keys@)[x as int] == keys@[x as int]@);
        v.push(
            LocalFile {
                path: found[x].path.as_str().to_owned(),
                rel: keys[x].as_str().to_owned(),
            },
        );
        j += 1;
    }
    assert(in_order(rels(found@), o@));
    Ok(v)
}

/// The command that lists the files below a remote directory, each name
/// followed by a zero byte.
pub open spec fn find_text_of(rpath: Seq<char>) -> Seq<char> {
    "cd "@ + quoted_word(rpath) + " && find . -type f -print0"@
}

pub fn find_command(rpath: &str) -> (r: String)
    ensures
        r@ == find_text_of(rpath@),
{
    let mut r: String = "cd ".to_owned();
    r.append(shell_quote(rpath).as_str());
    r.append(" && find . -type f -print0");
    r
}

/// A listed name without the leading `./`.
pub open spec fn listed_name(s: Seq<char>) -> Seq<char> {
    if starts(s, "./"@) {
        s.skip(2)
    } else {
        s
    }
}

/// The names among the first `n` pieces of a listing: every piece that is not
/// empty, as it stands but for a leading `./`.
pub open spec fn listed(parts: Seq<Seq<char>>, n: int) -> Seq<Seq<char>>
    decreases n,
{
    if n <= 0 {
        Seq::empty()
    } else {
        let name = listed_name(parts[n - 1]);
        if name.len() == 0 {
            listed(parts, n - 1)
        } else {
            listed(parts, n - 1).push(name)
        }
    }
}

/// The names of a whole listing.
pub open spec fn names_in(out: Seq<char>) -> Seq<Seq<char>> {
    listed(pieces(out, '\0'), pieces(out, '\0').len() as int)
}

/// The files of a remote listing, sorted. Names are taken as they are: nothing
/// but the zero byte ends one, and no white space is cut off.
pub fn remote_list_files(out: &str) -> (r: Vec<String>)
    ensures
        exists|o: Seq<usize>| #[trigger]
            in_order(names_in(out@), o) && covers(o, 0, names_in(out@).len() as int) && o.len()
                == names_in(out@).len() && r@.len() == o.len() && forall|k: int|
                0 <= k < r@.len() ==> (#[trigger] r@[k])@ == names_in(out@)[o[k] as int],
{
    let parts: Vec<String> = split_on(out, '\0');
    let ghost ps = pieces(out@, '\0');
    let mut names: Vec<String> = Vec::new();
    let mut i: usize = 0;
    assert(texts(names@) =~= listed(ps, 0));
    while i < parts.len()
        invariant
            i <= parts.len(),
            texts(parts@) == ps,
            texts(names@) == listed(ps, i as int),
        decreases parts.len() - i,
    {
        let p: &str = parts[i].as_str();
        assert(ps[i as int] == p@);
        let n: usize = chars_of(p).len();
        let name: &str = if starts_with(p, "./") {
            proof {
                reveal_strlit("./");
            }
            p.substring_char(2, n)
        } else {
            p
        };
        assert(name@ =~= listed_name(p@)) by {
            reveal_strlit("./");
        }
        let ghost was = names@;
        if chars_of(name).len() > 0 {
            names.push(name.to_owned());
            assert(texts(names@) =~= texts(was).push(name@));
        }
        i += 1;
    }
    assert(texts(names@) == names_in(out@));
    let o: Vec<usize> = sorted_order(&names);
    let mut r: Vec<String> = Vec::new();
    let mut j: usize = 0;
    while j < o.len()
        invariant
            j <= o.len(),
            r@.len() == j,
            covers(o@, 0, names@.len() as int),
            texts(names@) == names_in(out@),
            forall|k: int|
                0 <= k < j ==> (#[trigger] r@[k])@ == names_in(out@)[o@[k] as int],
        decreases o.len() - j,
    {
        let x: usize = o[j];
        assert(0 <= o@[j as int] < names@.len());
        assert(texts(names@)[x as int] == names@[x as int]@);
        r.push(names[x].as_str().to_owned());
        j += 1;
    }
    assert(names@.len() == names_in(out@).len()) by {
        assert(texts(names@).len() == names@.len());
    }
    assert(in_order(names_in(out@), o@));
    r
}

/// What a remote listing of the files `names` looks like.
pub open spec fn listing(names: Seq<Seq<char>>) -> Seq<char>
    decreases names.len(),
{
    if names.len() == 0 {
        Seq::empty()
    } else {
        "./"@ + names[0] + seq!['\0'] + listing(names.skip(1))
    }
}

/// A listing gives back the names that went into it, whatever other characters
/// they hold.
pub proof fn lemma_listing_roundtrip(names: Seq<Seq<char>>)
    requires
        forall|i: int| 0 <= i < names.len() ==> (#[trigger] names[i]).len() > 0,
        forall|i: int, j: int|
            0 <= i < names.len() && 0 <= j < names[i].len() ==> #[trigger] names[i][j] != '\0',
    ensures
        names_in(listing(names)) == names,
{
    lemma_listing_pieces(names);
    let ps = pieces(listing(names), '\0');
    lemma_listed(ps, names, names.len() as int);
    reveal_strlit("./");
    assert(listed_name(ps[names.len() as int]).len() == 0);
    assert(names.take(names.len() as int) =~= names);
}

proof fn lemma_listing_pieces(names: Seq<Seq<char>>)
    requires
        forall|i: int, j: int|
            0 <= i < names.len() && 0 <= j < names[i].len() ==> #[trigger] names[i][j] != '\0',
    ensures
        pieces(listing(names), '\0').len() == names.len() + 1,
        pieces(listing(names), '\0')[names.len() as int] == Seq::<char>::empty(),
        forall|i: int|
            0 <= i < names.len() ==> #[trigger] pieces(listing(names), '\0')[i] == "./"@ + names[i],
    decreases names.len(),
{
    reveal_strlit("./");
    if names.len() == 0 {
        lemma_pieces_whole(listing(names), '\0');
    } else {
        let more = names.skip(1);
        assert forall|i: int, j: int|
            0 <= i < more.len() && 0 <= j < more[i].len() implies #[trigger] more[i][j] != '\0' by {
            assert(names[i + 1][j] != '\0');
        }
        lemma_listing_pieces(more);
        let a = "./"@ + names[0];
        assert forall|j: int| 0 <= j < a.len() implies a[j] != '\0' by {
            if j >= 2 {
                assert(names[0][j - 2] != '\0');
            }
        }
        lemma_pieces_first(a, '\0', listing(more));
        let ps = pieces(listing(names), '\0');
        assert forall|i: int| 0 <= i < names.len() implies #[trigger] ps[i] == "./"@ + names[i] by {
            if i > 0 {
                assert(ps[i] == pieces(listing(more), '\0')[i - 1]);
                assert(more[i - 1] == names[i]);
            }
        }
    }
}

proof fn lemma_listed(ps: Seq<Seq<char>>, names: Seq<Seq<char>>, n: int)
    requires
        0 <= n <= names.len(),
        n <= ps.len(),
        forall|i: int| 0 <= i < n ==> (#[trigger] names[i]).len() > 0,
        forall|i: int| 0 <= i < n ==> #[trigger] ps[i] == "./"@ + names[i],
    ensures
        listed(ps, n) == names.take(n),
    decreases n,
{
    if n > 0 {
        reveal_strlit("./");
        lemma_listed(ps, names, n - 1);
        assert(ps[n - 1].skip(2) =~= names[n - 1]);
        assert(ps[n - 1].take(2) =~= "./"@);
        assert(names.take(n) =~= names.take(n - 1).push(names[n - 1]));
    } else {
        assert(names.take(n) =~= Seq::empty());
    }
}

/// A list with one more directory, unless it holds the directory already.
pub open spec fn with_dir(dirs: Seq<Seq<char>>, dir: Option<Seq<char>>) -> Seq<Seq<char>> {
    match dir {
        Some(d) if !dirs.contains(d) => dirs.push(d),
        _ => dirs,
    }
}

/// The remote directories that the first `n` files of a tree need: that of the
/// tree, and those of the files, each once.
pub open spec fn needed_dirs(rpath: Seq<char>, rels: Seq<Seq<char>>, n: int) -> Seq<Seq<char>>
    decreases n,
{
    if n <= 0 {
        seq![no_slash_end(rpath)]
    } else {
        with_dir(needed_dirs(rpath, rels, n - 1), parent_of(joined(rpath, rels[n - 1])))
    }
}

/// The remote directories to make before the files of a tree are pushed.
pub fn remote_dirs(rpath: &str, files: &Vec<LocalFile>) -> (r: Vec<String>)
    ensures
        texts(r@) == needed_dirs(rpath@, rel_texts(files@), files@.len() as int),
{
    let mut r: Vec<String> = Vec::new();
    let ghost rs = rel_texts(files@);
    r.push(join_remote(rpath, ""));
    proof {
        reveal_strlit("");
    }
    assert(texts(r@) =~= seq![no_slash_end(rpath@)]);
    let mut i: usize = 0;
    while i < files.len()
        invariant
            i <= files.len(),
            rs == rel_texts(files@),
            texts(r@) == needed_dirs(rpath@, rs, i as int),
        decreases files.len() - i,
    {
        let rel: &str = files[i].rel.as_str();
        assert(rs[i as int] == rel@);
        let file: String = join_remote(rpath, rel);
        if let Some(d) = parent_posix(file.as_str()) {
            let ghost was = r@;
            if !holds(&r, d.as_str()) {
                r.push(d);
                assert(texts(r@) =~= texts(was).push(d@));
            }
        }
        i += 1;
    }
    r
}

/// The relative paths of the files of a tree.
pub open spec fn rel_texts(files: Seq<LocalFile>) -> Seq<Seq<char>> {
    files.map_values(|f: LocalFile| f.rel@)
}

fn holds(v: &Vec<String>, t: &str) -> (r: bool)
    ensures
        r == texts(v@).contains(t@),
{
    let mut i: usize = 0;
    while i < v.len()
        invariant
            i <= v.len(),
            forall|k: int| 0 <= k < i ==> #[trigger] texts(v@)[k] != t@,
        decreases v.len() - i,
    {
        if same(v[i].as_str(), t) {
            assert(texts(v@)[i as int] == t@);
            return true;
        }
        i += 1;
    }
    false
}

/// Every file of a tree finds its remote directory made, and no directory is
/// named twice.
pub proof fn lemma_dirs_needed(rpath: Seq<char>, rels: Seq<Seq<char>>, n: int)
    requires
        0 <= n <= rels.len(),
    ensures
        needed_dirs(rpath, rels, n).no_duplicates(),
        needed_dirs(rpath, rels, n).contains(no_slash_end(rpath)),
        forall|i: int|
            0 <= i < n ==> (parent_of(joined(rpath, #[trigger] rels[i])) matches Some(d)
                ==> needed_dirs(rpath, rels, n).contains(d)),
    decreases n,
{
    let all = needed_dirs(rpath, rels, n);
    if n == 0 {
        assert(all[0] == no_slash_end(rpath));
    } else {
        lemma_dirs_needed(rpath, rels, n - 1);
        let was = needed_dirs(rpath, rels, n - 1);
        assert forall|d: Seq<char>| was.contains(d) implies all.contains(d) by {
            let k = choose|k: int| 0 <= k < was.len() && was[k] == d;
            assert(all[k] == d);
        }
        match parent_of(joined(rpath, rels[n - 1])) {
            Some(d) => {
                if !was.contains(d) {
                    assert(all[was.len() as int] == d);
                }
            },
            None => {},
        }
    }
}

/// The command that makes directories, up to the `n`-th.
pub open spec fn mkdir_text(dirs: Seq<Seq<char>>, n: int) -> Seq<char>
    decreases n,
{
    if n <= 0 {
        "mkdir -p"@
    } else if dirs[n - 1].len() == 0 {
        mkdir_text(dirs, n - 1)
    } else {
        mkdir_text(dirs, n - 1) + " "@ + quoted_word(dirs[n - 1])
    }
}

/// The command that makes directories, if there is one with a name.
pub fn mkdir_command(dirs: &Vec<String>) -> (r: Option<String>)
    ensures
        match r {
            Some(c) => c@ == mkdir_text(texts(dirs@), dirs@.len() as int) && exists|i: int|
                0 <= i < dirs@.len() && (#[trigger] texts(dirs@)[i]).len() > 0,
            None => forall|i: int| 0 <= i < dirs@.len() ==> (#[trigger] texts(dirs@)[i]).len() == 0,
        },
{
    let ghost ds = texts(dirs@);
    let mut q: String = "mkdir -p".to_owned();
    let mut any: bool = false;
    let mut i: usize = 0;
    while i < dirs.len()
        invariant
            i <= dirs.len(),
            ds == texts(dirs@),
            q@ == mkdir_text(ds, i as int),
            any == exists|k: int| 0 <= k < i && (#[trigger] ds[k]).len() > 0,
        decreases dirs.len() - i,
    {
        let d: &str = dirs[i].as_str();
        assert(ds[i as int] == d@);
        if chars_of(d).len() > 0 {
            q.append(" ");
            q.append(shell_quote(d).as_str());
            any = true;
        }
        i += 1;
    }
    if any {
        Some(q)
    } else {
        assert forall|k: int| 0 <= k < dirs@.len() implies (#[trigger] texts(dirs@)[k]).len()
            == 0 by {
            assert(!(ds[k].len() > 0));
        }
        None
    }
}

/// A component below a local directory.
pub open spec fn local_joined(dir: Seq<char>, rel: Seq<char>) -> Seq<char> {
    if dir.len() == 0 || dir.last() == '/' {
        dir + rel
    } else {
        dir + "/"@ + rel
    }
}

fn local_join(dir: &str, rel: &str) -> (r: String)
    ensures
        r@ == local_joined(dir@, rel@),
{
    let v: Vec<char> = chars_of(dir);
    let mut r: String = dir.to_owned();
    if v.len() > 0 && v[v.len() - 1] != '/' {
        r.append("/");
    }
    r.append(rel);
    r
}

/// The components among the first `n` pieces of a path that descend.
pub open spec fn descents(parts: Seq<Seq<char>>, n: int) -> Seq<Seq<char>>
    decreases n,
{
    if n <= 0 {
        Seq::empty()
    } else if parts[n - 1].len() == 0 || parts[n - 1] == "."@ {
        descents(parts, n - 1)
    } else {
        descents(parts, n - 1).push(parts[n - 1])
    }
}

/// The path of components below a local directory.
pub open spec fn below(dir: Seq<char>, comps: Seq<Seq<char>>) -> Seq<char>
    decreases comps.len(),
{
    if comps.len() == 0 {
        dir
    } else {
        local_joined(below(dir, comps.drop_last()), comps.last())
    }
}

/// The components of a relative path.
pub open spec fn comps_of(rel: Seq<char>) -> Seq<Seq<char>> {
    descents(pieces(rel, '/'), pieces(rel, '/').len() as int)
}

/// Where a pulled file goes.
pub struct PullPlan {
    pub remote_file: String,
    pub local_file: String,
    /// The paths below the destination that the file goes through, its own
    /// included. None of them may be a symbolic link.
    pub through: Vec<String>,
}

/// Finds the place of a listed file below the destination.
pub fn plan_pull(rpath: &str, dst: &str, rel: &str) -> (r: Result<PullPlan, String>)
    ensures
        match r {
            Err(e) => !safe_rel(rel@) && e@ == "unsafe remote path rejected: "@ + rel@,
            Ok(p) => {
                &&& safe_rel(rel@)
                &&& p.remote_file@ == joined(rpath@, rel@)
                &&& p.local_file@ == local_joined(dst@, rel@)
                &&& p.through@.len() == comps_of(rel@).len()
                &&& forall|k: int|
                    0 <= k < p.through@.len() ==> (#[trigger] p.through@[k])@ == below(
                        dst@,
                        comps_of(rel@).take(k + 1),
                    )
            },
        },
{
    if !is_safe_rel(rel) {
        let mut m: String = "unsafe remote path rejected: ".to_owned();
        m.append(rel);
        return Err(m);
    }
    let parts: Vec<String> = split_on(rel, '/');
    let ghost ps = pieces(rel@, '/');
    let ghost cs = comps_of(rel@);
    let mut through: Vec<String> = Vec::new();
    let mut cur: String = dst.to_owned();
    let mut i: usize = 0;
    while i < parts.len()
        invariant
            i <= parts.len(),
            texts(parts@) == ps,
            through@.len() == descents(ps, i as int).len(),
            cur@ == below(dst@, descents(ps, i as int)),
            forall|k: int|
                0 <= k < through@.len() ==> (#[trigger] through@[k])@ == below(
                    dst@,
                    descents(ps, i as int).take(k + 1),
                ),
        decreases parts.len() - i,
    {
        let c: &str = parts[i].as_str();
        assert(ps[i as int] == c@);
        let ghost before = descents(ps, i as int);
        if chars_of(c).len() > 0 && !same(c, ".") {
            let ghost now = before.push(c@);
            cur = local_join(cur.as_str(), c);
            assert(now.drop_last() =~= before);
            through.push(cur.as_str().to_owned());
            proof {
                assert(descents(ps, i + 1) == now);
                assert(now.take(now.len() as int) =~= now);
                assert forall|k: int| 0 <= k < through@.len() implies (#[trigger] through@[k])@
                    == below(dst@, now.take(k + 1)) by {
                    if k < before.len() {
                        assert(now.take(k + 1) =~= before.take(k + 1));
                    }
                }
            }
        }
        i += 1;
    }
    assert(texts(parts@).len() == parts@.len());
    Ok(
        PullPlan {
            remote_file: join_remote(rpath, rel),
            local_file: local_join(dst, rel),
            through,
        },
    )
}

/// The first place from the `i`-th on that holds true.
pub open spec fn first_set(flags: Seq<bool>, i: int) -> Option<int>
    decreases flags.len() - i,
{
    if i < 0 || i >= flags.len() {
        None
    } else if flags[i] {
        Some(i)
    } else {
        first_set(flags, i + 1)
    }
}

/// Refuses a pulled file that would go through a symbolic link, by which it
/// could end up elsewhere. `links` tells of each path whether it is one.
pub fn check_links(through: &Vec<String>, links: &Vec<bool>) -> (r: Result<(), String>)
    requires
        links@.len() == through@.len(),
    ensures
        match r {
            Ok(_) => first_set(links@, 0) is None,
            Err(e) => first_set(links@, 0) matches Some(i) && e@
                == "symlink in destination path rejected: "@ + through@[i]@,
        },
        r is Ok <==> forall|i: int| 0 <= i < links@.len() ==> !#[trigger] links@[i],
{
    let mut i: usize = 0;
    while i < links.len()
        invariant
            links@.len() == through@.len(),
            i <= links.len(),
            first_set(links@, 0) == first_set(links@, i as int),
            forall|k: int| 0 <= k < i ==> !#[trigger] links@[k],
        decreases links.len() - i,
    {
        if links[i] {
            let mut m: String = "symlink in destination path rejected: ".to_owned();
            m.append(through[i].as_str());
            assert(links@[i as int]);
            return Err(m);
        }
        i += 1;
    }
    Ok(())
}

/// The paths that a pulled file goes through are all the steps from the
/// destination to the file.
pub proof fn lemma_through_all(dir: Seq<Seq<char>>, rel: Seq<char>)
    requires
        safe_rel(rel),
    ensures
        walked(dir, pieces(rel, '/')) == dir + comps_of(rel),
{
    let ps = pieces(rel, '/');
    lemma_walked_descents(dir, ps, 0);
    assert(ps.skip(0) =~= ps);
    assert(descents(ps, 0) =~= Seq::empty());
    assert(comps_of(rel).skip(0) =~= comps_of(rel));
}

proof fn lemma_descents_grow(ps: Seq<Seq<char>>, i: int)
    requires
        0 <= i <= ps.len(),
    ensures
        descents(ps, i).is_prefix_of(descents(ps, ps.len() as int)),
    decreases ps.len() - i,
{
    let all = descents(ps, ps.len() as int);
    if i < ps.len() {
        lemma_descents_grow(ps, i + 1);
        let a = descents(ps, i);
        let b = descents(ps, i + 1);
        assert(a =~= all.subrange(0, a.len() as int)) by {
            assert(b =~= all.subrange(0, b.len() as int));
            assert forall|k: int| 0 <= k < a.len() implies a[k] == all[k] by {
                assert(b[k] == all.subrange(0, b.len() as int)[k]);
            }
        }
    } else {
        assert(all =~= all.subrange(0, all.len() as int));
    }
}

proof fn lemma_walked_descents(dir: Seq<Seq<char>>, ps: Seq<Seq<char>>, i: int)
    requires
        0 <= i <= ps.len(),
        forall|k: int| 0 <= k < ps.len() ==> #[trigger] ps[k] != ".."@,
    ensures
        descents(ps, i).len() <= descents(ps, ps.len() as int).len(),
        walked(dir, ps.skip(i)) == dir + descents(ps, ps.len() as int).skip(
            descents(ps, i).len() as int,
        ),
    decreases ps.len() - i,
{
    let all = descents(ps, ps.len() as int);
    lemma_descents_grow(ps, i);
    if i < ps.len() {
        let p = ps[i];
        let next = if p.len() == 0 || p == "."@ {
            dir
        } else {
            dir.push(p)
        };
        lemma_walked_descents(next, ps, i + 1);
        lemma_descents_grow(ps, i + 1);
        assert(ps.skip(i).skip(1) =~= ps.skip(i + 1));
        assert(ps.skip(i)[0] == p);
        let a = descents(ps, i);
        let b = descents(ps, i + 1);
        if !(p.len() == 0 || p == "."@) {
            assert(b[a.len() as int] == p);
            assert(all.subrange(0, b.len() as int)[a.len() as int] == p);
            assert(dir + all.skip(a.len() as int) =~= dir.push(p) + all.skip(b.len() as int));
        }
    } else {
        assert(ps.skip(i) =~= Seq::empty());
        assert(all.skip(all.len() as int) =~= Seq::empty());
        assert(dir + Seq::<Seq<char>>::empty() =~= dir);
    }
}

/// Whether a tree goes out or comes in.
pub enum Direction {
    Push,
    Pull,
}

impl Direction {
    pub open spec fn name(self) -> Seq<char> {
        match self {
            Direction::Push => "push"@,
            Direction::Pull => "pull"@,
        }
    }

    fn text(&self) -> (r: &'static str)
        ensures
            r@ == self.name(),
    {
        match self {
            Direction::Push => "push",
            Direction::Pull => "pull",
        }
    }
}

/// Refuses a tree without files.
pub fn check_tree(dir: &Direction, files: usize) -> (r: Result<(), String>)
    ensures
        r is Ok <==> files > 0,
        r matches Err(e) ==> e@ == (match dir {
            Direction::Push => "no files under source directory"@,
            Direction::Pull => "no remote files found (need GNU find -printf or plain find)"@,
        }),
{
    if files > 0 {
        return Ok(());
    }
    match dir {
        Direction::Push => Err("no files under source directory".to_owned()),
        Direction::Pull => Err(
            "no remote files found (need GNU find -printf or plain find)".to_owned(),
        ),
    }
}

/// The line before the files of a tree.
pub fn tree_start(dir: &Direction, files: usize, remote: &str, rpath: &str) -> (r: String)
    ensures
        r@ == "bbx: "@ + dir.name() + " -r "@ + dec(files as nat) + (match dir {
            Direction::Push => " files → "@,
            Direction::Pull => " files from "@,
        }) + remote@ + ":"@ + rpath@,
{
    let mut r: String = "bbx: ".to_owned();
    r.append(dir.text());
    r.append(" -r ");
    r.append(dec_text(files as u64).as_str());
    match dir {
        Direction::Push => r.append(" files → "),
        Direction::Pull => r.append(" files from "),
    }
    r.append(remote);
    r.append(":");
    r.append(rpath);
    r
}

/// The line, or the event, before the `index`-th file of a tree, counted from
/// one.
pub fn file_event(json: bool, index: usize, files: usize, rel: &str) -> (r: String)
    ensures
        r@ == if json {
            "{\"event\":\"file\",\"index\":"@ + dec(index as nat) + ",\"total\":"@ + dec(files as nat)
                + ",\"path\":"@ + debug_text(rel@) + "}"@
        } else {
            "bbx: ["@ + dec(index as nat) + "/"@ + dec(files as nat) + "] "@ + rel@
        },
{
    if json {
        let mut r: String = "{\"event\":\"file\",\"index\":".to_owned();
        r.append(dec_text(index as u64).as_str());
        r.append(",\"total\":");
        r.append(dec_text(files as u64).as_str());
        r.append(",\"path\":");
        r.append(quoted(rel).as_str());
        r.append("}");
        r
    } else {
        let mut r: String = "bbx: [".to_owned();
        r.append(dec_text(index as u64).as_str());
        r.append("/");
        r.append(dec_text(files as u64).as_str());
        r.append("] ");
        r.append(rel);
        r
    }
}

/// The line, or the event, after the files of a tree.
pub fn tree_done(json: bool, dir: &Direction, files: usize) -> (r: String)
    ensures
        r@ == if json {
            "{\"event\":\"tree_done\",\"files\":"@ + dec(files as nat) + ",\"direction\":\""@
                + dir.name() + "\"}"@
        } else {
            "bbx: tree "@ + dir.name() + " done ("@ + dec(files as nat) + " files)"@
        },
{
    if json {
        let mut r: String = "{\"event\":\"tree_done\",\"files\":".to_owned();
        r.append(dec_text(files as u64).as_str());
        r.append(",\"direction\":\"");
        r.append(dir.text());
        r.append("\"}");
        r
    } else {
        let mut r: String = "bbx: tree ".to_owned();
        r.append(dir.text());
        r.append(" done (");
        r.append(dec_text(files as u64).as_str());
        r.append(" files)");
        r
    }
}

} // verus!
