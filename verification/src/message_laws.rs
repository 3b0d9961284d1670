//! The messages of refusals, and which of several reasons is told.

use crate::address::{advertise_refusal, bad_in_advertise, listen_parts, Ip};
use crate::banner::{banner_in, banner_line, banner_lines, BannerSoFar};
use crate::control::{byte_list, opened_fields, reading, Reading, SinkSide};
use crate::flag_laws::lemma_flag_letters;
use crate::flags::{port_range_of, range_split, size_of_text, with_value, FlagValues};
use crate::jobs::job_refusal;
use crate::paths::{host_path, lemma_no_bracket, lemma_rfind};
use crate::protocol_laws::{four_at, lemma_four_at, lemma_known};
use crate::session::{clear_refusal, connect_refusal, listen_refusal};
use crate::text::{
    debug_text, dec, find_from, is_space, lemma_find_from, lemma_find_here, lemma_plain_trimmed,
    lines, number, trimmed, words,
};
use crate::wire::key_of;
use vstd::prelude::*;

verus! {

/// What is said of a listen address without a colon, of one without a port, and of
/// one without a host.
pub proof fn lemma_listen_told(s: Seq<char>)
    requires
        trimmed(s).len() == 0 || trimmed(s)[0] != '[',
    ensures
        (forall|j: int| 0 <= j < trimmed(s).len() ==> trimmed(s)[j] != ':') ==> listen_parts(s)
            == Err::<(Seq<char>, u16), Seq<char>>(
            "bad listen addr "@ + debug_text(trimmed(s)) + ", want host:port"@,
        ),
        forall|k: int|
            0 <= k < trimmed(s).len() && trimmed(s)[k] == ':' && (forall|j: int|
                k < j < trimmed(s).len() ==> trimmed(s)[j] != ':') && number(
                #[trigger] trimmed(s).skip(k + 1),
                65535,
            ) is None ==> listen_parts(s) == Err::<(Seq<char>, u16), Seq<char>>(
                "bad listen port in "@ + debug_text(trimmed(s)),
            ),
        trimmed(s).len() > 0 && trimmed(s)[0] == ':' && (forall|j: int|
            0 < j < trimmed(s).len() ==> trimmed(s)[j] != ':') && number(trimmed(s).skip(1), 65535)
            is Some ==> listen_parts(s) == Err::<(Seq<char>, u16), Seq<char>>(
            "bad listen host in "@ + debug_text(trimmed(s)),
        ),
{
    let t = trimmed(s);
    lemma_rfind(t, ':', t.len() as int);
}

/// What is said of a bracketed listen address that is not closed before a colon,
/// or has no port behind it.
pub proof fn lemma_listen_bracket_told(host: Seq<char>, rest: Seq<char>)
    requires
        forall|j: int| 0 <= j < host.len() ==> host[j] != ']',
        forall|j: int| 0 <= j < host.len() ==> !is_space(host[j]),
        forall|j: int| 0 <= j < rest.len() ==> !is_space(rest[j]),
    ensures
        ({
            let open = seq!['['] + host;
            let shut = seq!['['] + host + seq![']'] + rest;
            &&& listen_parts(open) == Err::<(Seq<char>, u16), Seq<char>>(
                "bad listen addr "@ + debug_text(open),
            )
            &&& rest.len() == 0 || rest[0] != ':' ==> listen_parts(shut) == Err::<
                (Seq<char>, u16),
                Seq<char>,
            >("bad listen addr "@ + debug_text(shut))
            &&& rest.len() > 0 && rest[0] == ':' && number(rest.skip(1), 65535) is None
                ==> listen_parts(shut) == Err::<(Seq<char>, u16), Seq<char>>(
                "bad listen port in "@ + debug_text(shut),
            )
        }),
{
    let open = seq!['['] + host;
    let shut = seq!['['] + host + seq![']'] + rest;
    assert forall|i: int| 0 <= i < open.len() implies !is_space(#[trigger] open[i]) by {
        if i > 0 {
            assert(open[i] == host[i - 1]);
        }
    }
    assert forall|i: int| 0 <= i < shut.len() implies !is_space(#[trigger] shut[i]) by {
        if 0 < i <= host.len() {
            assert(shut[i] == host[i - 1]);
        } else if i > host.len() + 1 {
            assert(shut[i] == rest[i - host.len() - 2]);
        }
    }
    lemma_plain_trimmed(open);
    lemma_plain_trimmed(shut);
    lemma_find_from(open, ']', 1);
    let k = host.len() + 1int;
    assert(shut[k] == ']');
    assert forall|j: int| 1 <= j < k implies shut[j] != ']' by {
        assert(shut[j] == host[j - 1]);
    }
    lemma_find_here(shut, ']', 1, k);
    if rest.len() > 0 {
        assert(shut[k + 1] == rest[0]);
        assert(shut.skip(k + 2) =~= rest.skip(1));
    }
    if let Some(j) = find_from(open, ']', 1) {
        assert(open[j] == host[j - 1]);
    }
}

/// What is said of an address that is not advertised: that it is empty, that it
/// holds a character of the shell or a control character, or that it is no host.
pub proof fn lemma_advertise_refusals(v: Seq<char>)
    ensures
        advertise_refusal(Seq::empty()) == Some("BBX_ADVERTISE is empty"@),
        (exists|i: int|
            0 <= i < v.len() && ((#[trigger] v[i]) <= '\u{1f}' || '\u{7f}' <= v[i] <= '\u{9f}'
                || " \"';&|$`()<>"@.contains(v[i]))) ==> advertise_refusal(v) == Some(
            "BBX_ADVERTISE has illegal characters: "@ + debug_text(v),
        ),
        v.len() > 0 && (forall|i: int|
            0 <= i < v.len() ==> !((#[trigger] v[i]) <= '\u{1f}' || '\u{7f}' <= v[i] <= '\u{9f}'
                || " \"';&|$`()<>"@.contains(v[i]))) && advertise_refusal(v) is Some
            ==> advertise_refusal(v) == Some("BBX_ADVERTISE is not a host/IP: "@ + debug_text(v)),
{
    assert forall|i: int| 0 <= i < v.len() implies bad_in_advertise(#[trigger] v[i])
        == (v[i] <= '\u{1f}' || '\u{7f}' <= v[i] <= '\u{9f}' || " \"';&|$`()<>"@.contains(
        v[i],
    )) by {
        lemma_shell_char(v[i]);
    }
    if exists|i: int|
        0 <= i < v.len() && ((#[trigger] v[i]) <= '\u{1f}' || '\u{7f}' <= v[i] <= '\u{9f}'
            || " \"';&|$`()<>"@.contains(v[i])) {
        let i = choose|i: int|
            0 <= i < v.len() && ((#[trigger] v[i]) <= '\u{1f}' || '\u{7f}' <= v[i] <= '\u{9f}'
                || " \"';&|$`()<>"@.contains(v[i]));
        assert(bad_in_advertise(v[i]));
    }
}

proof fn lemma_shell_char(c: char)
    ensures
        bad_in_advertise(c) == (c <= '\u{1f}' || '\u{7f}' <= c <= '\u{9f}'
            || " \"';&|$`()<>"@.contains(c)),
{
    reveal_strlit(" \"';&|$`()<>");
    let s = " \"';&|$`()<>"@;
    assert(s.len() == 12);
    assert(s[0] == ' ' && s[1] == '"' && s[2] == '\'' && s[3] == ';' && s[4] == '&' && s[5] == '|'
        && s[6] == '$' && s[7] == '`' && s[8] == '(' && s[9] == ')' && s[10] == '<' && s[11]
        == '>');
}

/// What is said of a line of a banner without the value that it names, or with one
/// that cannot be read.
pub proof fn lemma_banner_line_told(b: BannerSoFar, l: Seq<char>)
    requires
        words(l).len() > 0,
    ensures
        words(l)[0] == "PORT"@ && words(l).len() == 1 ==> banner_line(b, l) == Err::<
            BannerSoFar,
            Seq<char>,
        >("PORT missing value"@),
        words(l)[0] == "KEY"@ && words(l).len() == 1 ==> banner_line(b, l) == Err::<
            BannerSoFar,
            Seq<char>,
        >("KEY missing value"@),
        words(l)[0] == "RESUME"@ && words(l).len() == 1 ==> banner_line(b, l) == Err::<
            BannerSoFar,
            Seq<char>,
        >("RESUME missing value"@),
        words(l)[0] == "PORT"@ && words(l).len() > 1 && number(words(l)[1], 65535) is None
            ==> banner_line(b, l) == Err::<BannerSoFar, Seq<char>>("bad PORT"@),
        words(l)[0] == "RESUME"@ && words(l).len() > 1 && number(
            words(l)[1],
            0xffff_ffff_ffff_ffff,
        ) is None ==> banner_line(b, l) == Err::<BannerSoFar, Seq<char>>("bad RESUME"@),
        words(l)[0] == "KEY"@ && words(l).len() > 1 && key_of(words(l)[1]) is Err ==> banner_line(
            b,
            l,
        ) == Err::<BannerSoFar, Seq<char>>(key_of(words(l)[1])->Err_0),
{
    reveal_strlit("PORT");
    reveal_strlit("KEY");
    reveal_strlit("RESUME");
    assert("PORT"@.len() == 4);
    assert("KEY"@.len() == 3);
    assert("RESUME"@.len() == 6);
}

/// What is said of a banner whose lines can be read and which lacks its port or a
/// key.
pub proof fn lemma_banner_told(s: Seq<char>, expect_key: bool)
    ensures
        ({
            let b = banner_lines(
                BannerSoFar { port: None, key: None, resume_from: 0 },
                lines(s),
                0,
            );
            &&& b is Ok && b->Ok_0.port is None ==> banner_in(s, expect_key) == Err::<
                (u16, Option<Seq<u8>>, u64),
                Seq<char>,
            >("remote did not print PORT: "@ + debug_text(s))
            &&& b is Ok && b->Ok_0.port is Some && b->Ok_0.key is None ==> banner_in(s, true)
                == Err::<(u16, Option<Seq<u8>>, u64), Seq<char>>(
                "remote did not print KEY (upgrade remote bbx?): "@ + debug_text(s),
            )
            &&& b is Err ==> banner_in(s, expect_key) == Err::<
                (u16, Option<Seq<u8>>, u64),
                Seq<char>,
            >(b->Err_0)
        }),
{
}

/// What is said of a header that cannot be read at all: which bytes it starts with
/// in place of `BBX2`, or that its number of streams is none.
pub proof fn lemma_header_told(b: Seq<u8>, side: SinkSide)
    ensures
        b.len() >= 4 && !(b[0] == 66 && b[1] == 66 && b[2] == 88 && b[3] == 50) ==> reading(b, side)
            == Err::<Reading, Seq<char>>(
            "bad magic "@ + ("["@ + dec(b[0] as nat) + ", "@ + dec(b[1] as nat) + ", "@ + dec(
                b[2] as nat,
            ) + ", "@ + dec(b[3] as nat) + "]"@) + " (need BBX2; upgrade both ends)"@,
        ),
        b.len() >= 20 && b[0] == 66 && b[1] == 66 && b[2] == 88 && b[3] == 50 && (four_at(b, 16)
            == 0 || four_at(b, 16) > 64) ==> reading(b, side) == Err::<Reading, Seq<char>>(
            "bad stream count"@,
        ),
{
    lemma_known(b);
    if b.len() >= 20 {
        lemma_four_at(b, 16);
    }
    reveal_with_fuel(byte_list, 5);
}

/// What is said where one side seals and the other does not, or where there is no
/// key, before anything else is said of the fields.
pub proof fn lemma_seal_told(b: Seq<u8>, side: SinkSide)
    requires
        b.len() >= 28,
        b[0] == 66 && b[1] == 66 && b[2] == 88 && b[3] == 50,
        1 <= four_at(b, 16) <= 64,
    ensures
        ({
            let sealed = (four_at(b, 4) as u32) & 2 != 0;
            &&& side.crypt && !sealed ==> reading(b, side) == Err::<Reading, Seq<char>>(
                "crypt mismatch: local="@ + "true"@ + " peer="@ + "false"@,
            )
            &&& !side.crypt && sealed ==> reading(b, side) == Err::<Reading, Seq<char>>(
                "crypt mismatch: local="@ + "false"@ + " peer="@ + "true"@,
            )
            &&& side.crypt && sealed && side.key is None ==> reading(b, side) == Err::<
                Reading,
                Seq<char>,
            >("peer sent FLAG_CRYPT but no session key"@)
        }),
{
    lemma_known(b);
    lemma_four_at(b, 4);
    lemma_four_at(b, 16);
}

/// What is said of sealed fields that are too short for what the flag word tells
/// of: the digest first.
pub proof fn lemma_opened_told(flags: u32, p: Seq<u8>)
    ensures
        flags & 1 != 0 && p.len() < 32 ==> opened_fields(flags, p) == Err::<
            (Option<Seq<u8>>, Option<(u32, u64)>),
            Seq<char>,
        >("sealed control short (hash)"@),
        flags & 8 != 0 && (flags & 1 != 0 ==> p.len() >= 32) && p.len() < 12 + (if flags & 1 != 0 {
            32int
        } else {
            0
        }) ==> opened_fields(flags, p) == Err::<(Option<Seq<u8>>, Option<(u32, u64)>), Seq<char>>(
            "sealed control short (preserve)"@,
        ),
{
}

/// What is said of values that a flag cannot have.
pub proof fn lemma_values_told(t: Seq<char>, f: FlagValues)
    ensures
        number(t, usize::MAX as nat) is None ==> with_value("-s"@, t, f) == Err::<
            FlagValues,
            Seq<char>,
        >("bad -s"@),
        number(t, usize::MAX as nat) matches Some(n) ==> (n == 0 || n > 64 ==> with_value(
            "-s"@,
            t,
            f,
        ) == Err::<FlagValues, Seq<char>>("-s must be 1..64"@)),
        number(t, 0xffff_ffff_ffff_ffff) is None ==> with_value("-P"@, t, f) == Err::<
            FlagValues,
            Seq<char>,
        >("bad -P"@),
        number(t, 0xffff_ffff_ffff_ffff) is None ==> with_value("-R"@, t, f) == Err::<
            FlagValues,
            Seq<char>,
        >("bad -R"@),
        size_of_text(t) == Ok::<usize, Seq<char>>(0) ==> with_value("-x"@, t, f) == Err::<
            FlagValues,
            Seq<char>,
        >("-x rate must be > 0"@),
        key_of(t) is Err ==> with_value("-k"@, t, f) == Err::<FlagValues, Seq<char>>(
            key_of(t)->Err_0,
        ),
        port_range_of(t) is Err ==> with_value("-Z"@, t, f) == Err::<FlagValues, Seq<char>>(
            port_range_of(t)->Err_0,
        ),
        size_of_text(t) is Err ==> with_value("-w"@, t, f) == Err::<FlagValues, Seq<char>>(
            size_of_text(t)->Err_0,
        ) && with_value("-x"@, t, f) == Err::<FlagValues, Seq<char>>(size_of_text(t)->Err_0),
{
    lemma_flag_letters();
}

/// What is said of a size that is empty or no number.
pub proof fn lemma_size_told(s: Seq<char>)
    ensures
        trimmed(s).len() == 0 ==> size_of_text(s) == Err::<usize, Seq<char>>("empty size"@),
        trimmed(s).len() > 0 && size_of_text(s) is Err ==> size_of_text(s) == Err::<
            usize,
            Seq<char>,
        >("bad size "@ + trimmed(s)),
{
}

/// What is said of a range of ports: that it has no two parts, that one of them is
/// no port, that it starts at zero, or that it ends before it starts.
pub proof fn lemma_range_told(s: Seq<char>, i: int)
    requires
        0 <= i < trimmed(s).len(),
        trimmed(s)[i] == '-',
        forall|j: int| 0 <= j < i ==> trimmed(s)[j] != '-',
    ensures
        ({
            let t = trimmed(s);
            let lo = number(trimmed(t.take(i)), 65535);
            let hi = number(trimmed(t.skip(i + 1)), 65535);
            let r = port_range_of(s);
            &&& lo is None ==> r == Err::<(u16, u16), Seq<char>>(
                "bad port range low in "@ + debug_text(t),
            )
            &&& lo is Some && hi is None ==> r == Err::<(u16, u16), Seq<char>>(
                "bad port range high in "@ + debug_text(t),
            )
            &&& lo == Some(0nat) && hi is Some ==> r == Err::<(u16, u16), Seq<char>>(
                "port range LO must be ≥ 1"@,
            )
            &&& lo is Some && hi is Some && lo->0 > 0 && hi->0 < lo->0 ==> r == Err::<
                (u16, u16),
                Seq<char>,
            >("port range HI "@ + dec(hi->0) + " < LO "@ + dec(lo->0))
        }),
{
    lemma_find_here(trimmed(s), '-', 0, i);
}

/// What is said of a text without a dash and without a colon.
pub proof fn lemma_range_whole_told(s: Seq<char>)
    requires
        forall|j: int| 0 <= j < trimmed(s).len() ==> trimmed(s)[j] != '-' && trimmed(s)[j] != ':',
    ensures
        port_range_of(s) == Err::<(u16, u16), Seq<char>>(
            "bad port range "@ + debug_text(trimmed(s)) + ", want LO-HI"@,
        ),
{
    lemma_find_from(trimmed(s), '-', 0);
    lemma_find_from(trimmed(s), ':', 0);
    assert(range_split(trimmed(s)) is None);
}

/// What is said of a key: its length first, and then its digits.
pub proof fn lemma_key_told(s: Seq<char>)
    ensures
        vstd::utf8::encode_utf8(trimmed(s)).len() != 64 ==> key_of(s) == Err::<Seq<u8>, Seq<char>>(
            "key must be 64 hex chars (32 bytes)"@,
        ),
        vstd::utf8::encode_utf8(trimmed(s)).len() == 64 && key_of(s) is Err ==> key_of(s) == Err::<
            Seq<u8>,
            Seq<char>,
        >("bad key hex"@),
{
}

/// What is said of a spec without a colon, and of one without a host or a path.
pub proof fn lemma_spec_told(s: Seq<char>)
    requires
        forall|j: int| 0 <= j < s.len() ==> s[j] != '[',
    ensures
        (forall|j: int| 0 <= j < s.len() ==> s[j] != ':') ==> host_path(s) == Err::<
            (Seq<char>, Seq<char>),
            Seq<char>,
        >("need host:path"@),
        s.len() > 0 && s.last() == ':' ==> host_path(s) == Err::<
            (Seq<char>, Seq<char>),
            Seq<char>,
        >("bad host:path"@),
        s.len() > 0 && s[0] == ':' && (forall|j: int| 0 < j < s.len() ==> s[j] != ':')
            ==> host_path(s) == Err::<(Seq<char>, Seq<char>), Seq<char>>("bad host:path"@),
{
    lemma_no_bracket(s);
    lemma_rfind(s, ':', s.len() as int);
}

/// Of a job without a file and without an endpoint the missing file is told; a
/// side that may not send in clear is told that before its address is read; and
/// one that dials without its key is told that first.
pub proof fn lemma_reasons_ordered(
    f: FlagValues,
    no_file: Seq<char>,
    no_endpoint: Seq<char>,
    addr: Seq<char>,
    allow: Option<Seq<char>>,
    parsed: Option<Ip>,
    no_key: Seq<char>,
)
    ensures
        job_refusal(None, f, no_file, no_endpoint) == Some(no_file),
        forall|p: Seq<char>|
            (f.listen is Some) == (f.addr is Some) ==> #[trigger] job_refusal(
                Some(p),
                f,
                no_file,
                no_endpoint,
            ) == Some(no_endpoint),
        clear_refusal(false, allow, addr, parsed) is Some ==> listen_refusal(
            addr,
            false,
            allow,
            parsed,
        ) == clear_refusal(false, allow, addr, parsed),
        listen_parts(addr) matches Err(e) ==> listen_refusal(addr, true, allow, parsed) == Some(e),
        connect_refusal(addr, true, false, allow, parsed, no_key) == Some(no_key),
        connect_refusal(addr, false, false, allow, parsed, no_key) == clear_refusal(
            false,
            allow,
            addr,
            parsed,
        ),
{
}

} // verus!
