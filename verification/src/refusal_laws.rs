//! What is refused, and how failures are told.

use crate::address::{
    admitted, after_brackets, bad_in_bind, before_brackets, before_slash, iface_from, is_ipv4_word,
    list_set, listen_parts, loopback_host, told, unbracketed, Advertise, Ip,
};
use crate::banner::{banner_in, banner_key, banner_line, banner_lines, lines_expected, BannerSoFar};
use crate::control::{bool_text, byte_list, field_refusal, streams_in, Announcement, SinkSide};
use crate::crypto::{blake3_keyed, chacha_open, sealable};
use crate::flag_laws::lemma_flag_letters;
use crate::flags::{
    default_flags, flag_step, flags_from, flags_of, port_range_of, range_split, size_of_text, unit,
    FlagValues,
};
use crate::jobs::{cp_sides, verb_of, Verb};
use crate::liveness::{abort_text, agent_failure, failure, AgentEvent};
use crate::paths::{is_remote, lemma_rfind, safe_rel};
use crate::payload::opened_frame;
use crate::place_laws::lemma_loopback_named;
use crate::remote::{cp_text, printed_len, CpEnds, CpMode};
use crate::session::{clear_refusal, is_listen_plan, ListenPlan};
use crate::shell::{dq_special, quoted_word, sq_escaped};
use crate::sink::{event_failure, temp_text, SinkEvent};
use crate::streams::hello_refusal;
use crate::text::{
    dec, is_space, lemma_find_from, lemma_number_dec, lemma_pieces_first, lemma_pieces_whole,
    lines, number, rfind_below, starts, trimmed, words,
};
use crate::text_laws::{lemma_after_spaces, lemma_lines_taken, lemma_trimmed_ends};
use crate::tree::{first_set, listed_name, Direction};
use crate::tree_run::{after, through_of, turn_of, TreeEvent, TreeStage, TreeStep, TreeTexts};
use crate::wire::{hex_text, le};
use vstd::prelude::*;

verus! {

/// A program is called as a sink, as a source, to copy or for help, by six words
/// and no others.
pub proof fn lemma_verbs_named(s: Seq<char>)
    ensures
        verb_of("sink"@) == Some(Verb::Sink),
        verb_of("source"@) == Some(Verb::Source),
        verb_of("cp"@) == Some(Verb::Cp),
        verb_of("-h"@) == Some(Verb::Help),
        verb_of("--help"@) == Some(Verb::Help),
        verb_of("help"@) == Some(Verb::Help),
        verb_of(s) is Some ==> s == "sink"@ || s == "source"@ || s == "cp"@ || s == "-h"@ || s
            == "--help"@ || s == "help"@,
{
    reveal_strlit("sink");
    reveal_strlit("source");
    reveal_strlit("cp");
    reveal_strlit("-h");
    reveal_strlit("--help");
    reveal_strlit("help");
    assert("sink"@.len() == 4 && "sink"@[0] == 's');
    assert("source"@.len() == 6 && "source"@[0] == 's');
    assert("cp"@.len() == 2 && "cp"@[0] == 'c');
    assert("-h"@.len() == 2 && "-h"@[0] == '-');
    assert("--help"@.len() == 6 && "--help"@[0] == '-');
    assert("help"@.len() == 4 && "help"@[0] == 'h');
}

/// The white space beyond ASCII: the next line, the spaces of Unicode that break
/// a line and those that do not, and its separators of lines and paragraphs.
pub proof fn lemma_space_wide(c: char)
    requires
        c as u32 >= 128,
    ensures
        is_space(c) <==> c == '\u{85}' || c == '\u{a0}' || c == '\u{1680}' || '\u{2000}' <= c
            <= '\u{200a}' || c == '\u{2028}' || c == '\u{2029}' || c == '\u{202f}' || c
            == '\u{205f}' || c == '\u{3000}',
{
}

/// A range of ports that is read has two parts with a dash between them, or a
/// colon where there is no dash; they are its ends, none is zero, and the first is
/// not above the second.
pub proof fn lemma_range_parts(s: Seq<char>, lo: u16, hi: u16)
    requires
        port_range_of(s) == Ok::<(u16, u16), Seq<char>>((lo, hi)),
    ensures
        1 <= lo <= hi,
        exists|i: int|
            0 <= i < trimmed(s).len() && (trimmed(s)[i] == '-' || trimmed(s)[i] == ':') && number(
                trimmed(#[trigger] trimmed(s).take(i)),
                65535,
            ) == Some(lo as nat) && number(trimmed(trimmed(s).skip(i + 1)), 65535) == Some(
                hi as nat,
            ),
{
    let t = trimmed(s);
    lemma_find_from(t, '-', 0);
    lemma_find_from(t, ':', 0);
    let i = range_split(t)->0;
    assert(t.take(i) == t.take(i));
}

/// A size that is read is a number, with one letter for a unit behind it or
/// without.
pub proof fn lemma_size_parts(s: Seq<char>)
    requires
        size_of_text(s) is Ok,
    ensures
        trimmed(s).len() > 0,
        number(trimmed(s), usize::MAX as nat) is Some || (number(
            trimmed(s).drop_last(),
            usize::MAX as nat,
        ) is Some && unit(trimmed(s).last()) is Some),
        forall|c: char| #[trigger]
            unit(c) is Some <==> c == 'k' || c == 'K' || c == 'm' || c == 'M' || c == 'g' || c
                == 'G',
{
}

/// How the failures of an agent are told: how it ended, how long it was waited
/// for, or why it could not be asked.
pub proof fn lemma_agent_told(role: Seq<char>, status: String, error: String, up: bool, limit: u64)
    ensures
        agent_failure(role, AgentEvent::Ended { success: true, status }, limit) is None,
        agent_failure(role, AgentEvent::Ended { success: false, status }, limit) == Some(
            role + " exited "@ + status@,
        ),
        agent_failure(role, AgentEvent::Running { time_up: up }, limit) == Some(
            role + " wait timed out after "@ + dec(limit as nat) + "s"@,
        ),
        agent_failure(role, AgentEvent::Unknown { error }, limit) == Some(
            role + " wait: "@ + error@,
        ),
{
}

/// A failure is its text, and a success is none; a stream that was given up names
/// itself.
pub proof fn lemma_failure_told(e: String, id: u32)
    ensures
        failure(Ok(())) is None,
        failure(Err(e)) == Some(e@),
        abort_text(id) == "stream "@ + dec(id as nat) + " aborted (peer stream failed)"@,
{
}

/// Each reason for which a source refuses an announcement is told, a missing key
/// before all others.
pub proof fn lemma_source_told(a: Announcement, psk: Option<[u8; 32]>)
    ensures
        a.crypt && psk is None ==> a.refusal(psk) == Some("encrypt needs key"@),
        (a.crypt ==> psk is Some) && a.resume_from > a.size ==> a.refusal(psk) == Some(
            "resume_from "@ + dec(a.resume_from as nat) + " > file size "@ + dec(a.size as nat),
        ),
        (a.crypt ==> psk is Some) && 0 < a.resume_from <= a.size && a.hash is None ==> a.refusal(
            psk,
        ) == Some("resume requires BLAKE3 (-c): refuse sending resume without integrity"@),
{
}

/// A sink that has as many connections as there are streams, and asked for as many
/// or for any number, does not mind their number.
pub proof fn lemma_streams_minded(b: Seq<u8>, side: SinkSide, other: SinkSide)
    requires
        side.check == other.check,
        side.conns == streams_in(b),
        other.conns == streams_in(b),
        side.streams_hint == 0,
        other.streams_hint == streams_in(b),
    ensures
        field_refusal(b, side) == field_refusal(b, other),
{
}

/// Bytes in a message stand between brackets, with commas between them.
pub proof fn lemma_bytes_told(b: Seq<u8>, x: u8)
    requires
        b.len() > 0,
    ensures
        byte_list(b.push(x), b.len() + 1int) == byte_list(b, b.len() as int) + ", "@ + dec(
            x as nat,
        ),
        byte_list(seq![x], 1) == "["@ + dec(x as nat),
        bool_text(true) == "true"@,
        bool_text(false) == "false"@,
{
    lemma_list_prefix(b, x, b.len() as int);
}

proof fn lemma_list_prefix(b: Seq<u8>, x: u8, n: int)
    requires
        0 <= n <= b.len(),
    ensures
        byte_list(b.push(x), n) == byte_list(b, n),
    decreases n,
{
    if n > 1 {
        lemma_list_prefix(b, x, n - 1);
    }
}

/// A connection that is not placed is told why: a stream that there is not before
/// a wrong tag, and that before a stream that has its connection.
pub proof fn lemma_hello_told<T>(
    slots: Seq<Option<T>>,
    role: Seq<char>,
    id: u32,
    tag: Seq<u8>,
    psk: Option<&[u8; 32]>,
)
    ensures
        slots.len() > 0 && id >= slots.len() ==> hello_refusal(slots, role, id, tag, psk) == Some(
            role + " bad stream id "@ + dec(id as nat) + " (expected 0.."@ + dec(
                (slots.len() - 1) as nat,
            ) + ")"@,
        ),
        id < slots.len() && psk is Some && tag != blake3_keyed(
            psk->0@,
            seq![83u8, 73, 68, 0] + le(id as nat, 4),
        ).take(16) ==> hello_refusal(slots, role, id, tag, psk) == Some(
            role + " bad stream-id MAC for id "@ + dec(id as nat),
        ),
        id < slots.len() && psk is None && slots[id as int] is Some ==> hello_refusal(
            slots,
            role,
            id,
            tag,
            psk,
        ) == Some(role + " duplicate stream id "@ + dec(id as nat)),
{
}

/// A frame that does not open, or opens to more than is owed, is told so; any
/// other is what it opens to.
pub proof fn lemma_frame_told(
    ct: Seq<u8>,
    left: nat,
    counter: u64,
    id: u32,
    seal: (Seq<u8>, Seq<u8>),
)
    ensures
        ({
            let nonce = le(id as nat, 4) + le(counter as nat, 8);
            match chacha_open(seal.0, nonce, ct, seal.1) {
                None => opened_frame(ct, left, counter as nat, id, seal) == Err::<
                    Seq<u8>,
                    Seq<char>,
                >("decrypt failed (wrong key or corrupt)"@),
                Some(p) => if p.len() <= left {
                    opened_frame(ct, left, counter as nat, id, seal) == Ok::<Seq<u8>, Seq<char>>(p)
                } else {
                    opened_frame(ct, left, counter as nat, id, seal) == Err::<
                        Seq<u8>,
                        Seq<char>,
                    >("decrypt oversize"@)
                },
            }
        }),
{
}

/// A sink tells both digests where they differ, and every other failure as it is;
/// its stand-in file has the name of the destination and its tag.
pub proof fn lemma_sink_told(h: [u8; 32], d: [u8; 32], e: String, out: Seq<char>, tag: u64)
    ensures
        h@ != d@ ==> event_failure(Some(h), SinkEvent::Hashed(Ok(d))) == Some(
            "checksum mismatch: expected "@ + hex_text(h@) + " got "@ + hex_text(d@),
        ),
        event_failure(Some(h), SinkEvent::Hashed(Err(e))) == Some(e@),
        event_failure(Some(h), SinkEvent::Received(Err(e))) == Some(e@),
        event_failure(Some(h), SinkEvent::Kept(Err(e))) == Some(e@),
        event_failure(Some(h), SinkEvent::Placed(Err(e))) == Some(e@),
        temp_text(out, tag) == out + ".bbx."@ + dec(tag as nat) + ".tmp"@,
{
}

/// A listed name is the name without `./` before it, and one without that is the
/// name itself.
pub proof fn lemma_name_listed(s: Seq<char>)
    ensures
        listed_name(seq!['.', '/'] + s) == s,
        s.len() < 2 || s[0] != '.' || s[1] != '/' ==> listed_name(s) == s,
{
    reveal_strlit("./");
    assert("./"@.len() == 2 && "./"@[0] == '.' && "./"@[1] == '/');
    let t = seq!['.', '/'] + s;
    assert(t.take(2) =~= "./"@);
    assert(t.skip(2) =~= s);
    if starts(s, "./"@) {
        assert(s.take(2)[0] == s[0] && s.take(2)[1] == s[1]);
    }
}

/// The first path that is a symbolic link ends a pull, and is named.
pub proof fn lemma_link_stops(
    rpath: Seq<char>,
    dst: Seq<char>,
    names: Seq<Seq<char>>,
    streams: usize,
    at: int,
    links: Vec<bool>,
    i: int,
)
    requires
        0 <= i < links@.len(),
        links@[i],
        forall|k: int| 0 <= k < i ==> !links@[k],
    ensures
        ({
            let job = TreeTexts::Pull { rpath, dst, names };
            let r = after(job, streams, at, TreeEvent::Looked(links));
            r.0 is Failed && r.1 == TreeStep::Fail(
                "symlink in destination path rejected: "@ + through_of(
                    dst,
                    names[at],
                )[i],
            )
        }),
{
    lemma_first_here(links@, 0, i);
}

proof fn lemma_first_here(flags: Seq<bool>, j: int, i: int)
    requires
        0 <= j <= i < flags.len(),
        flags[i],
        forall|k: int| j <= k < i ==> !flags[k],
    ensures
        first_set(flags, j) == Some(i),
    decreases i - j,
{
    if j < i {
        lemma_first_here(flags, j + 1, i);
    }
}

/// An unsafe name ends a pull, and is told; the directions of a copy are told by
/// their names.
pub proof fn lemma_pull_told(rpath: Seq<char>, dst: Seq<char>, names: Seq<Seq<char>>, at: int)
    requires
        0 <= at < names.len(),
        !safe_rel(names[at]),
    ensures
        turn_of(TreeTexts::Pull { rpath, dst, names }, at) == (
            TreeStage::Failed,
            TreeStep::Fail("unsafe remote path rejected: "@ + names[at]),
        ),
        Direction::Push.name() == "push"@,
        Direction::Pull.name() == "pull"@,
{
}

/// A host in brackets means this machine if and only if it does without them.
pub proof fn lemma_loopback_bracketed(s: Seq<char>)
    requires
        s.len() > 0,
        s[0] != '[' && s[0] != ']',
        s[s.len() - 1] != '[' && s[s.len() - 1] != ']',
    ensures
        loopback_host(seq!['['] + s + seq![']'], None) == loopback_host(s, None),
{
    let t = seq!['['] + s + seq![']'];
    reveal_with_fuel(after_brackets, 3);
    reveal_with_fuel(before_brackets, 3);
    assert(t[0] == '[' && t[1] == s[0] && t[t.len() - 1] == ']' && t[t.len() - 2] == s[s.len()
        - 1]);
    assert(unbracketed(t) =~= s);
    assert(unbracketed(s) =~= s);
}

/// A listen address without a colon is refused, and one whose last colon is its
/// first character, and one behind whose last colon stands no port.
pub proof fn lemma_listen_refused(s: Seq<char>)
    requires
        trimmed(s).len() == 0 || trimmed(s)[0] != '[',
    ensures
        listen_parts(s) is Ok ==> exists|k: int|
            0 < k < trimmed(s).len() && trimmed(s)[k] == ':' && (forall|j: int|
                k < j < trimmed(s).len() ==> trimmed(s)[j] != ':') && listen_parts(s) == Ok::<
                (Seq<char>, u16),
                Seq<char>,
            >((#[trigger] trimmed(s).subrange(0, k), listen_parts(s)->Ok_0.1)) && number(
                trimmed(s).subrange(k + 1, trimmed(s).len() as int),
                65535,
            ) == Some(listen_parts(s)->Ok_0.1 as nat),
{
    let t = trimmed(s);
    lemma_rfind(t, ':', t.len() as int);
    if let Some(k) = rfind_below(t, ':', t.len() as int) {
        assert(t.take(k) =~= t.subrange(0, k));
        assert(t.skip(k + 1) =~= t.subrange(k + 1, t.len() as int));
    }
}

/// A word is an address that can be advertised if and only if it has a dot before
/// its first slash, and does not start with `127.`.
pub proof fn lemma_address_word(a: Seq<char>, rest: Seq<char>)
    requires
        forall|j: int| 0 <= j < a.len() ==> a[j] != '/',
    ensures
        before_slash(a) == a,
        before_slash(a + seq!['/'] + rest) == a,
        is_ipv4_word(a) <==> (exists|j: int| 0 <= j < a.len() && a[j] == '.') && !(a.len() >= 4
            && a[0] == '1' && a[1] == '2' && a[2] == '7' && a[3] == '.'),
{
    lemma_pieces_whole(a, '/');
    lemma_pieces_first(a, '/', rest);
    lemma_find_from(a, '.', 0);
    reveal_strlit("127.");
    let p = "127."@;
    assert(p.len() == 4 && p[0] == '1' && p[1] == '2' && p[2] == '7' && p[3] == '.');
    if a.len() >= 4 && a[0] == '1' && a[1] == '2' && a[2] == '7' && a[3] == '.' {
        assert(a.take(4) =~= p);
    }
    if starts(a, p) {
        assert(a.take(4)[0] == a[0] && a.take(4)[1] == a[1] && a.take(4)[2] == a[2]
            && a.take(4)[3] == a[3]);
    }
}

/// An address that is told is the one at hand, with a warning if and only if it is
/// told to another host and means this machine.
pub proof fn lemma_address_told(a: String, warning: Option<String>, ip: Seq<char>, remote: bool)
    requires
        told(Advertise::Tell(a, warning), ip, remote),
    ensures
        a@ == ip,
        warning is Some <==> remote && (ip == "127.0.0.1"@ || ip == "::1"@),
        warning matches Some(w) ==> w@ == "bbx: warning: advertise IP is loopback ("@ + ip
            + "); remote peer cannot dial this — set BBX_ADVERTISE"@,
{
}

/// Without a list of peers everyone is admitted, and with one whoever is alike to
/// one of it, and no other.
pub proof fn lemma_peers_admitted(allow: Seq<Ip>, ip: Ip)
    ensures
        admitted(Seq::empty(), ip),
        allow.len() > 0 ==> (admitted(allow, ip) <==> exists|i: int|
            0 <= i < allow.len() && (#[trigger] allow[i]).alike(ip)),
{
}

/// The characters that no host to bind may hold.
pub proof fn lemma_bind_chars(c: char)
    ensures
        bad_in_bind(c) <==> " \"';&|$`\n\r"@.contains(c),
{
    reveal_strlit(" \"';&|$`\n\r");
    let s = " \"';&|$`\n\r"@;
    assert(s.len() == 10);
    assert(s[0] == ' ' && s[1] == '"' && s[2] == '\'' && s[3] == ';' && s[4] == '&' && s[5] == '|'
        && s[6] == '$' && s[7] == '`' && s[8] == '\n' && s[9] == '\r');
}

/// Lines before a banner that do not start with one of its three words change
/// nothing.
pub proof fn lemma_noise_passed(b: BannerSoFar, noise: Seq<Seq<char>>, ls: Seq<Seq<char>>, i: int)
    requires
        0 <= i <= noise.len(),
        forall|k: int|
            0 <= k < noise.len() ==> words(#[trigger] noise[k]).len() == 0 || (words(noise[k])[0]
                != "PORT"@ && words(noise[k])[0] != "KEY"@ && words(noise[k])[0] != "RESUME"@),
    ensures
        banner_lines(b, noise + ls, i) == banner_lines(b, noise + ls, noise.len() as int),
    decreases noise.len() - i,
{
    if i < noise.len() {
        assert((noise + ls)[i] == noise[i]);
        assert(banner_line(b, noise[i]) == Ok::<BannerSoFar, Seq<char>>(b));
        lemma_noise_passed(b, noise, ls, i + 1);
    }
}

/// A banner without a port is refused, and one without a key where one is
/// expected; how many lines are waited for.
pub proof fn lemma_banner_refused(s: Seq<char>, expect_key: bool)
    ensures
        (forall|k: int|
            0 <= k < lines(s).len() ==> words(#[trigger] lines(s)[k]).len() == 0 || words(
                lines(s)[k],
            )[0] != "PORT"@) ==> banner_in(s, expect_key) is Err,
        banner_in(s, expect_key) matches Ok(b) ==> (expect_key ==> b.1 is Some),
        banner_in(s, true) is Ok ==> banner_in(s, false) == banner_in(s, true),
        lines_expected(false, false) == 1,
        lines_expected(true, false) == 2,
        lines_expected(false, true) == 2,
        lines_expected(true, true) == 3,
{
    let b = BannerSoFar { port: None, key: None, resume_from: 0 };
    if forall|k: int|
        0 <= k < lines(s).len() ==> words(#[trigger] lines(s)[k]).len() == 0 || words(
            lines(s)[k],
        )[0] != "PORT"@ {
        lemma_portless(b, lines(s), 0);
    }
}

proof fn lemma_portless(b: BannerSoFar, ls: Seq<Seq<char>>, i: int)
    requires
        0 <= i,
        b.port is None,
        forall|k: int|
            0 <= k < ls.len() ==> words(#[trigger] ls[k]).len() == 0 || words(ls[k])[0] != "PORT"@,
    ensures
        banner_lines(b, ls, i) matches Ok(c) ==> c.port is None,
    decreases ls.len() - i,
{
    if i < ls.len() {
        assert(words(ls[i]).len() == 0 || words(ls[i])[0] != "PORT"@);
        if let Ok(c) = banner_line(b, ls[i]) {
            lemma_portless(c, ls, i + 1);
        }
    }
}

/// A copy is announced with its two ends, the one that it goes to behind the
/// arrow, and with the offset from which it goes on.
pub proof fn lemma_copy_announced(
    mode: CpMode,
    e: CpEnds,
    streams: usize,
    resume_from: u64,
    crypt: bool,
)
    ensures
        ({
            let there = e.remote@ + ":"@ + e.rpath@;
            let told = " resume_from="@ + dec(resume_from as nat);
            let all = cp_text(mode, e, streams, resume_from, crypt);
            &&& mode is PushForward ==> all == "bbx: push "@ + e.local@ + " → "@ + there + " via "@
                + e.addr@ + " streams="@ + dec(streams as nat) + told + " crypt="@ + (if crypt {
                "true"@
            } else {
                "false"@
            })
            &&& mode is PushReverse ==> all == "bbx: push -z "@ + e.local@ + " → "@ + there
                + " dials "@ + e.addr@ + told
            &&& mode is PullForward ==> all == "bbx: pull "@ + there + " → "@ + e.local@
                + " listen="@ + e.addr@ + told
            &&& mode is PullReverse ==> all == "bbx: pull -z "@ + there + " → "@ + e.local@
                + " via "@ + e.addr@ + told
        }),
{
    let there = e.remote@ + ":"@ + e.rpath@;
    let told = " resume_from="@ + dec(resume_from as nat);
    let all = cp_text(mode, e, streams, resume_from, crypt);
    match mode {
        CpMode::PushForward => {
            assert(all =~= "bbx: push "@ + e.local@ + " → "@ + there + " via "@ + e.addr@
                + " streams="@ + dec(streams as nat) + told + " crypt="@ + (if crypt {
                "true"@
            } else {
                "false"@
            }));
        },
        CpMode::PushReverse => {
            assert(all =~= "bbx: push -z "@ + e.local@ + " → "@ + there + " dials "@ + e.addr@
                + told);
        },
        CpMode::PullForward => {
            assert(all =~= "bbx: pull "@ + there + " → "@ + e.local@ + " listen="@ + e.addr@
                + told);
        },
        CpMode::PullReverse => {
            assert(all =~= "bbx: pull -z "@ + there + " → "@ + e.local@ + " via "@ + e.addr@
                + told);
        },
    }
}

/// A copy between other than one local and one remote side is refused, and told
/// why.
pub proof fn lemma_sides_told(f: FlagValues)
    ensures
        f.rest.len() != 2 ==> cp_sides(f) == Err::<
            (bool, Seq<char>, (Seq<char>, Seq<char>)),
            Seq<char>,
        >("cp needs SRC DEST"@),
        f.rest.len() == 2 && is_remote(f.rest[0]) && is_remote(f.rest[1]) ==> cp_sides(f) == Err::<
            (bool, Seq<char>, (Seq<char>, Seq<char>)),
            Seq<char>,
        >("remote→remote not supported"@),
        f.rest.len() == 2 && !is_remote(f.rest[0]) && !is_remote(f.rest[1]) ==> cp_sides(f)
            == Err::<(bool, Seq<char>, (Seq<char>, Seq<char>)), Seq<char>>(
            "cp needs one remote host:path side"@,
        ),
{
}

/// A first argument that starts with a dash and is no flag is told as unknown, and
/// a flag without the value that it needs is told too.
pub proof fn lemma_flag_told(a: Seq<char>, more: Seq<Seq<char>>, env: Option<Seq<char>>)
    ensures
        a.len() > 2 && a[0] == '-' && a != "--preserve"@ ==> flags_of(seq![a] + more, env) == Err::<
            FlagValues,
            Seq<char>,
        >("unknown flag "@ + a),
        a == "-l"@ || a == "-a"@ || a == "-i"@ || a == "-o"@ || a == "-s"@ || a == "-w"@ || a
            == "-P"@ || a == "-k"@ || a == "-R"@ || a == "-Z"@ || a == "-x"@ ==> flags_of(
            seq![a],
            env,
        ) == Err::<FlagValues, Seq<char>>(a + " needs a value"@),
{
    lemma_flag_letters();
    let args = seq![a] + more;
    let f = default_flags();
    assert(args[0] == a);
    if a.len() > 2 && a[0] == '-' && a != "--preserve"@ {
        assert(a.take(1) =~= "-"@);
        assert(flag_step(args, 0, f) is Err);
        assert(flags_from(args, 0, f) is Err);
    }
    assert(seq![a][0] == a);
}

/// In double quotes, a shell takes four characters for itself, and no others are
/// escaped.
pub proof fn lemma_escaped_chars(c: char)
    ensures
        dq_special(c) <==> c == '$' || c == '`' || c == '"' || c == '\\',
{
}

/// A text without a single quote, and without a tilde at its start, is quoted as
/// it is.
pub proof fn lemma_quoted_plain(s: Seq<char>)
    requires
        s.len() == 0 || s[0] != '~',
        forall|j: int| 0 <= j < s.len() ==> s[j] != '\'',
    ensures
        quoted_word(s) == seq!['\''] + s + seq!['\''],
{
    reveal_strlit("~/");
    reveal_strlit("~");
    reveal_strlit("'");
    assert("~/"@.len() == 2 && "~/"@[0] == '~');
    assert("~"@.len() == 1 && "~"@[0] == '~');
    if starts(s, "~/"@) {
        assert(s.take(2)[0] == s[0]);
    }
    lemma_escaped_same(s);
    assert("'"@ =~= seq!['\'']);
}

proof fn lemma_escaped_same(s: Seq<char>)
    requires
        forall|j: int| 0 <= j < s.len() ==> s[j] != '\'',
    ensures
        sq_escaped(s) == s,
    decreases s.len(),
{
    if s.len() > 0 {
        assert(s[0] != '\'');
        lemma_escaped_same(s.skip(1));
        assert(seq![s[0]] + s.skip(1) =~= s);
    }
}

/// The plan of a side that listens holds what it was made with.
pub proof fn lemma_listen_planned(
    p: ListenPlan,
    listen: Seq<char>,
    range: Option<(u16, u16)>,
    crypt: bool,
    key: Option<[u8; 32]>,
    resume_from: Option<u64>,
)
    requires
        is_listen_plan(p, listen, range, crypt, key, resume_from),
    ensures
        p.crypt == crypt,
        p.key == key,
        p.resume_from == resume_from,
        listen_parts(listen) matches Ok(a) && p.bind.host@ == a.0 && (a.1 > 0 ==> p.bind.first
            == a.1 && p.bind.last == a.1) && (a.1 == 0 && range is Some ==> p.bind.first == (
        range->0).0 && p.bind.last == (range->0).1),
{
}

/// A transfer in clear with a host by name is admitted if and only if it was
/// allowed by a `1`, or the name is one of this machine; and a refusal says what
/// helps.
pub proof fn lemma_clear_named(allow: Option<Seq<char>>, host: Seq<char>)
    requires
        host.len() > 0,
        host[0] != '[' && host[0] != ']',
        host[host.len() - 1] != '[' && host[host.len() - 1] != ']',
    ensures
        clear_refusal(true, allow, host, None) is None,
        clear_refusal(false, allow, host, None) is None <==> allow == Some(seq!['1']) || host
            == "localhost"@ || host == "::1"@ || (host.len() >= 4 && host[0] == '1' && host[1]
            == '2' && host[2] == '7' && host[3] == '.'),
        clear_refusal(false, allow, host, None) is Some ==> clear_refusal(false, allow, host, None)
            == Some(
            "cleartext (-E) refused on non-loopback; use -e encrypt, or BBX_ALLOW_CLEAR=1 for trusted nets"@,
        ),
{
    lemma_loopback_named(host);
    reveal_strlit("1");
    assert("1"@ =~= seq!['1']);
}

/// A row of the routes that has no destination ends the search for the default
/// one.
pub proof fn lemma_route_ends(rows: Seq<Seq<char>>, i: int)
    requires
        0 <= i < rows.len(),
        words(rows[i]).len() < 2,
    ensures
        iface_from(rows, i) is None,
{
}

/// A list of peers is set if and only if there is more in it than white space.
pub proof fn lemma_list_set(v: &str)
    ensures
        !list_set(None),
        list_set(Some(v)) <==> exists|i: int|
            0 <= i < v@.len() && !is_space(#[trigger] v@[i]),
{
    let s = v@;
    lemma_after_spaces(s, 0);
    lemma_trimmed_ends(s);
    let (a, b) = choose|a: int, b: int|
        0 <= a <= b <= s.len() && trimmed(s) == #[trigger] s.subrange(a, b) && (forall|j: int|
            0 <= j < a ==> is_space(#[trigger] s[j])) && (forall|j: int|
            b <= j < s.len() ==> is_space(#[trigger] s[j]));
    if trimmed(s).len() > 0 {
        assert(trimmed(s)[0] == s[a]);
    }
}

/// A banner tells the key of a transfer that seals, and none of one in clear.
pub proof fn lemma_key_bannered(key: Option<[u8; 32]>)
    ensures
        banner_key(false, key) is None,
        key matches Some(k) ==> banner_key(true, key) == Some(k@),
        banner_key(true, None) is None,
{
}

/// As many bytes can be sealed at once as the cipher has key stream for, where the
/// sealed bytes can be held.
pub proof fn lemma_sealable(n: nat)
    ensures
        sealable(n) <==> n <= 274877906816 && n + 16 <= isize::MAX,
{
}

/// A remote side that printed nothing but white space has no file yet.
pub proof fn lemma_nothing_printed(out: Seq<char>)
    requires
        forall|i: int| 0 <= i < out.len() ==> is_space(#[trigger] out[i]),
    ensures
        printed_len(out) == Some(0nat),
{
    lemma_trimmed_ends(out);
    let t = trimmed(out);
    if t.len() > 0 {
        let (a, b) = choose|a: int, b: int|
            0 <= a <= b <= out.len() && trimmed(out) == #[trigger] out.subrange(a, b) && (forall|
                j: int,
            |
                0 <= j < a ==> is_space(#[trigger] out[j])) && (forall|j: int|
                b <= j < out.len() ==> is_space(#[trigger] out[j]));
        assert(t[0] == out[a]);
    }
    assert(t =~= Seq::empty());
    lemma_lines_taken(t, t);
    lemma_number_dec(0, u64::MAX as nat);
    reveal_strlit("0");
    assert(dec(0) =~= "0"@);
}

} // verus!
