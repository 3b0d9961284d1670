//! Addresses to listen on, to dial and to advertise.

use crate::flags::opt_str;
use crate::text::{
    chars_of, debug_text, dec, dec_text, find_char, find_from, lines, number, parse_number,
    pieces, quoted, rfind_below, rfind_char, same, split_lines, split_on, split_words, starts,
    starts_with, texts, trim, trimmed, words,
};
use crate::wire::same_bytes;
use vstd::prelude::*;

verus! {

/// An Internet address.
#[derive(Clone, Copy)]
pub enum Ip {
    V4([u8; 4]),
    V6([u8; 16]),
}

impl Ip {
    /// `127.0.0.0/8`, or `::1`.
    pub open spec fn loopback(self) -> bool {
        match self {
            Ip::V4(b) => b@[0] == 127,
            Ip::V6(b) => b@ == seq![0u8, 0, 0, 0, 0, 0, 0, 0, 0, 0, 0, 0, 0, 0, 0, 1],
        }
    }

    /// `0.0.0.0`, or `::`.
    pub open spec fn unspecified(self) -> bool {
        match self {
            Ip::V4(b) => b@ == seq![0u8, 0, 0, 0],
            Ip::V6(b) => b@ == seq![0u8, 0, 0, 0, 0, 0, 0, 0, 0, 0, 0, 0, 0, 0, 0, 0],
        }
    }

    /// The same kind of address with the same bytes.
    pub open spec fn alike(self, other: Ip) -> bool {
        match (self, other) {
            (Ip::V4(a), Ip::V4(b)) => a@ == b@,
            (Ip::V6(a), Ip::V6(b)) => a@ == b@,
            _ => false,
        }
    }

    pub fn is_loopback(&self) -> (r: bool)
        ensures
            r == self.loopback(),
    {
        match self {
            Ip::V4(b) => b[0] == 127,
            Ip::V6(b) => {
                let one: [u8; 16] = [0, 0, 0, 0, 0, 0, 0, 0, 0, 0, 0, 0, 0, 0, 0, 1];
                assert(one@ =~= seq![0u8, 0, 0, 0, 0, 0, 0, 0, 0, 0, 0, 0, 0, 0, 0, 1]);
                same_bytes(b, &one)
            },
        }
    }

    pub fn is_unspecified(&self) -> (r: bool)
        ensures
            r == self.unspecified(),
    {
        match self {
            Ip::V4(b) => {
                let zero: [u8; 4] = [0, 0, 0, 0];
                assert(zero@ =~= seq![0u8, 0, 0, 0]);
                same_bytes(b, &zero)
            },
            Ip::V6(b) => {
                let zero: [u8; 16] = [0, 0, 0, 0, 0, 0, 0, 0, 0, 0, 0, 0, 0, 0, 0, 0];
                assert(zero@ =~= seq![0u8, 0, 0, 0, 0, 0, 0, 0, 0, 0, 0, 0, 0, 0, 0, 0]);
                same_bytes(b, &zero)
            },
        }
    }

    pub fn is_alike(&self, other: &Ip) -> (r: bool)
        ensures
            r == self.alike(*other),
    {
        match (self, other) {
            (Ip::V4(a), Ip::V4(b)) => same_bytes(a, b),
            (Ip::V6(a), Ip::V6(b)) => same_bytes(a, b),
            _ => false,
        }
    }
}

/// First index from `i` on that holds no bracket, or the length.
pub open spec fn after_brackets(s: Seq<char>, i: int) -> int
    decreases s.len() - i,
{
    if 0 <= i < s.len() && (s[i] == '[' || s[i] == ']') {
        after_brackets(s, i + 1)
    } else {
        i
    }
}

/// End of the text below `n` without its trailing brackets, but not below `lo`.
pub open spec fn before_brackets(s: Seq<char>, lo: int, n: int) -> int
    decreases n - lo,
{
    if lo < n && (s[n - 1] == '[' || s[n - 1] == ']') {
        before_brackets(s, lo, n - 1)
    } else {
        n
    }
}

/// The text without leading and trailing brackets.
pub open spec fn unbracketed(s: Seq<char>) -> Seq<char> {
    let a = after_brackets(s, 0);
    s.subrange(a, before_brackets(s, a, s.len() as int))
}

fn unbracket(s: &str) -> (r: &str)
    ensures
        r@ == unbracketed(s@),
{
    let v: Vec<char> = chars_of(s);
    let mut a: usize = 0;
    while a < v.len() && (v[a] == '[' || v[a] == ']')
        invariant
            a <= v.len(),
            after_brackets(v@, 0) == after_brackets(v@, a as int),
        decreases v.len() - a,
    {
        a += 1;
    }
    let mut n: usize = v.len();
    while n > a && (v[n - 1] == '[' || v[n - 1] == ']')
        invariant
            a <= n <= v.len(),
            before_brackets(v@, a as int, v@.len() as int) == before_brackets(
                v@,
                a as int,
                n as int,
            ),
        decreases n,
    {
        n -= 1;
    }
    s.substring_char(a, n)
}

/// `true` when an address text means this machine. `parsed` is the address that
/// the text stands for, with or without a port, if it stands for one.
pub open spec fn loopback_host(s: Seq<char>, parsed: Option<Ip>) -> bool {
    match parsed {
        Some(ip) => ip.loopback(),
        None => {
            let h = unbracketed(s);
            h == "127.0.0.1"@ || h == "::1"@ || h == "localhost"@ || starts(h, "127."@)
        },
    }
}

pub fn host_is_loopback(s: &str, parsed: Option<Ip>) -> (r: bool)
    ensures
        r == loopback_host(s@, parsed),
{
    match parsed {
        Some(ip) => ip.is_loopback(),
        None => {
            let h: &str = unbracket(s);
            same(h, "127.0.0.1") || same(h, "::1") || same(h, "localhost") || starts_with(h, "127.")
        },
    }
}

/// Admits a transfer in clear on this machine only, unless `allow_clear` is `1`.
pub fn cleartext_allowed(
    allow_clear: Option<&str>,
    hostish: &str,
    parsed: Option<Ip>,
) -> (r: Result<(), String>)
    ensures
        r is Ok <==> opt_str(allow_clear) == Some("1"@) || loopback_host(hostish@, parsed),
        r matches Err(e) ==> e@
            == "cleartext (-E) refused on non-loopback; use -e encrypt, or BBX_ALLOW_CLEAR=1 for trusted nets"@,
{
    if let Some(v) = allow_clear {
        if same(v, "1") {
            return Ok(());
        }
    }
    if host_is_loopback(hostish, parsed) {
        return Ok(());
    }
    Err(
        "cleartext (-E) refused on non-loopback; use -e encrypt, or BBX_ALLOW_CLEAR=1 for trusted nets".to_owned(),
    )
}

/// Host and port of a listen address, `host:port` or `[host]:port`.
pub open spec fn listen_parts(s: Seq<char>) -> Result<(Seq<char>, u16), Seq<char>> {
    let t = trimmed(s);
    if t.len() > 0 && t[0] == '[' {
        match find_from(t, ']', 1) {
            None => Err("bad listen addr "@ + debug_text(t)),
            Some(k) => if k + 1 >= t.len() || t[k + 1] != ':' {
                Err("bad listen addr "@ + debug_text(t))
            } else {
                match number(t.skip(k + 2), u16::MAX as nat) {
                    None => Err("bad listen port in "@ + debug_text(t)),
                    Some(p) => Ok((t.subrange(1, k), p as u16)),
                }
            },
        }
    } else {
        match rfind_below(t, ':', t.len() as int) {
            None => Err("bad listen addr "@ + debug_text(t) + ", want host:port"@),
            Some(k) => match number(t.skip(k + 1), u16::MAX as nat) {
                None => Err("bad listen port in "@ + debug_text(t)),
                Some(p) => if k == 0 {
                    Err("bad listen host in "@ + debug_text(t))
                } else {
                    Ok((t.take(k), p as u16))
                },
            },
        }
    }
}

fn quoting(what: &str, t: &str) -> (m: String)
    ensures
        m@ == what@ + debug_text(t@),
{
    let mut m: String = what.to_owned();
    m.append(quoted(t).as_str());
    m
}

pub fn split_listen_spec(spec: &str) -> (r: Result<(String, u16), String>)
    ensures
        match r {
            Ok(p) => listen_parts(spec@) == Ok::<(Seq<char>, u16), Seq<char>>((p.0@, p.1)),
            Err(e) => listen_parts(spec@) == Err::<(Seq<char>, u16), Seq<char>>(e@),
        },
{
    let t: &str = trim(spec);
    let v: Vec<char> = chars_of(t);
    let n: usize = v.len();
    if n > 0 && v[0] == '[' {
        match find_char(&v, ']', 1) {
            None => Err(quoting("bad listen addr ", t)),
            Some(k) => {
                if k + 1 >= n || v[k + 1] != ':' {
                    return Err(quoting("bad listen addr ", t));
                }
                let port: &str = t.substring_char(k + 2, n);
                assert(port@ =~= t@.skip(k + 2));
                match parse_number(port, u16::MAX as u64) {
                    None => Err(quoting("bad listen port in ", t)),
                    Some(p) => Ok((t.substring_char(1, k).to_owned(), p as u16)),
                }
            },
        }
    } else {
        match rfind_char(&v, ':') {
            None => {
                let mut m: String = quoting("bad listen addr ", t);
                m.append(", want host:port");
                Err(m)
            },
            Some(k) => {
                let port: &str = t.substring_char(k + 1, n);
                assert(port@ =~= t@.skip(k + 1));
                match parse_number(port, u16::MAX as u64) {
                    None => Err(quoting("bad listen port in ", t)),
                    Some(p) => {
                        if k == 0 {
                            return Err(quoting("bad listen host in ", t));
                        }
                        let host: String = t.substring_char(0, k).to_owned();
                        assert(host@ =~= t@.take(k as int));
                        Ok((host, p as u16))
                    },
                }
            },
        }
    }
}

/// Where to listen: on the ports from `first` to `last`, whichever is free
/// first. Port zero leaves the choice to the system.
pub struct BindPlan {
    pub host: String,
    pub first: u16,
    pub last: u16,
    /// The ports are those of a range that was asked for.
    pub ranged: bool,
}

impl BindPlan {
    /// The port to try when `port` is taken.
    pub fn next(&self, port: u16) -> (r: Option<u16>)
        ensures
            r == (if port < self.last {
                Some((port + 1) as u16)
            } else {
                None
            }),
    {
        if port < self.last {
            Some(port + 1)
        } else {
            None
        }
    }

    /// What to say when no port could be bound; `error` is that of the last
    /// attempt.
    pub fn failure(&self, error: &str) -> (r: String)
        ensures
            r@ == if self.ranged {
                "no free listen port in "@ + dec(self.first as nat) + "-"@ + dec(self.last as nat)
                    + " on "@ + self.host@ + ": "@ + error@
            } else {
                "bind "@ + self.host@ + ":"@ + dec(self.first as nat) + ": "@ + error@
            },
    {
        if self.ranged {
            let mut m: String = "no free listen port in ".to_owned();
            m.append(dec_text(self.first as u64).as_str());
            m.append("-");
            m.append(dec_text(self.last as u64).as_str());
            m.append(" on ");
            m.append(self.host.as_str());
            m.append(": ");
            m.append(error);
            m
        } else {
            let mut m: String = "bind ".to_owned();
            m.append(self.host.as_str());
            m.append(":");
            m.append(dec_text(self.first as u64).as_str());
            m.append(": ");
            m.append(error);
            m
        }
    }
}

/// `p` is the plan for a listen address: its port if it names one, else the
/// range if there is one, else any port.
pub open spec fn is_bind_plan(
    p: BindPlan,
    host: Seq<char>,
    port: u16,
    range: Option<(u16, u16)>,
) -> bool {
    &&& p.host@ == host
    &&& if port != 0 {
        p.first == port && p.last == port && !p.ranged
    } else {
        match range {
            Some(r) => p.first == r.0 && p.last == r.1 && p.ranged,
            None => p.first == 0 && p.last == 0 && !p.ranged,
        }
    }
}

pub fn bind_listener(spec: &str, range: Option<(u16, u16)>) -> (r: Result<BindPlan, String>)
    ensures
        match r {
            Ok(p) => listen_parts(spec@) matches Ok(a) && is_bind_plan(p, a.0, a.1, range),
            Err(e) => listen_parts(spec@) == Err::<(Seq<char>, u16), Seq<char>>(e@),
        },
{
    let (host, port) = split_listen_spec(spec)?;
    if port != 0 {
        return Ok(BindPlan { host, first: port, last: port, ranged: false });
    }
    match range {
        Some((lo, hi)) => Ok(BindPlan { host, first: lo, last: hi, ranged: true }),
        None => Ok(BindPlan { host, first: 0, last: 0, ranged: false }),
    }
}

/// The host to listen on: the one of the environment, if it names one, else all
/// interfaces.
pub open spec fn bind_host(env: Option<Seq<char>>) -> Seq<char> {
    match env {
        Some(s) if trimmed(s).len() > 0 => trimmed(s),
        _ => "0.0.0.0"@,
    }
}

/// A character that no listen host holds.
pub open spec fn bad_in_bind(c: char) -> bool {
    c == ' ' || c == '"' || c == '\'' || c == ';' || c == '&' || c == '|' || c == '$' || c == '`'
        || c == '\n' || c == '\r'
}

/// Where `cp` listens.
pub fn bind_ephemeral(bind_env: Option<&str>, range: Option<(u16, u16)>) -> (r: Result<
    BindPlan,
    String,
>)
    ensures
        ({
            let host = bind_host(opt_str(bind_env));
            let bad = exists|i: int| 0 <= i < host.len() && bad_in_bind(#[trigger] host[i]);
            match r {
                Ok(p) => !bad && (listen_parts(host + ":0"@) matches Ok(a) && is_bind_plan(
                    p,
                    a.0,
                    a.1,
                    range,
                )),
                Err(e) => if bad {
                    e@ == "BBX_BIND has illegal characters: "@ + debug_text(host)
                } else {
                    listen_parts(host + ":0"@) == Err::<(Seq<char>, u16), Seq<char>>(e@)
                },
            }
        }),
{
    let mut host: String = "0.0.0.0".to_owned();
    if let Some(s) = bind_env {
        let t: &str = trim(s);
        if chars_of(t).len() > 0 {
            host = t.to_owned();
        }
    }
    let v: Vec<char> = chars_of(host.as_str());
    let mut i: usize = 0;
    while i < v.len()
        invariant
            v@ == host@,
            i <= v.len(),
            host@ == bind_host(opt_str(bind_env)),
            forall|k: int| 0 <= k < i ==> !bad_in_bind(#[trigger] host@[k]),
        decreases v.len() - i,
    {
        let c: char = v[i];
        if c == ' ' || c == '"' || c == '\'' || c == ';' || c == '&' || c == '|' || c == '$' || c
            == '`' || c == '\n' || c == '\r' {
            assert(bad_in_bind(host@[i as int]));
            return Err(quoting("BBX_BIND has illegal characters: ", host.as_str()));
        }
        i += 1;
    }
    let mut spec: String = host;
    spec.append(":0");
    bind_listener(spec.as_str(), range)
}

/// A control character.
pub open spec fn is_control(c: char) -> bool {
    c as u32 <= 0x1f || 0x7f <= c as u32 <= 0x9f
}

/// A character that has no place in an address and a meaning in a shell.
pub open spec fn bad_in_advertise(c: char) -> bool {
    is_control(c) || c == ' ' || c == '"' || c == '\'' || c == ';' || c == '&' || c == '|' || c
        == '$' || c == '`' || c == '(' || c == ')' || c == '<' || c == '>'
}

/// A character of host names and addresses.
pub open spec fn good_in_advertise(c: char) -> bool {
    48 <= c as u32 <= 57 || 65 <= c as u32 <= 90 || 97 <= c as u32 <= 122 || c == '.' || c == ':'
        || c == '-' || c == '%'
}

fn bad_advertise_char(c: char) -> (r: bool)
    ensures
        r == bad_in_advertise(c),
{
    let n: u32 = c as u32;
    n <= 0x1f || (0x7f <= n && n <= 0x9f) || c == ' ' || c == '"' || c == '\'' || c == ';' || c
        == '&' || c == '|' || c == '$' || c == '`' || c == '(' || c == ')' || c == '<' || c == '>'
}

fn good_advertise_char(c: char) -> (r: bool)
    ensures
        r == good_in_advertise(c),
{
    let n: u32 = c as u32;
    (48 <= n && n <= 57) || (65 <= n && n <= 90) || (97 <= n && n <= 122) || c == '.' || c == ':'
        || c == '-' || c == '%'
}

/// Why an address cannot be advertised, if it cannot.
pub open spec fn advertise_refusal(v: Seq<char>) -> Option<Seq<char>> {
    if v.len() == 0 {
        Some("BBX_ADVERTISE is empty"@)
    } else if exists|i: int| 0 <= i < v.len() && bad_in_advertise(#[trigger] v[i]) {
        Some("BBX_ADVERTISE has illegal characters: "@ + debug_text(v))
    } else if exists|i: int| 0 <= i < v.len() && !good_in_advertise(#[trigger] v[i]) {
        Some("BBX_ADVERTISE is not a host/IP: "@ + debug_text(v))
    } else {
        None
    }
}

/// Accepts an address to advertise if it is made of nothing but the characters
/// of host names and addresses.
pub fn validate_advertise(v: &str) -> (r: Result<(), String>)
    ensures
        match r {
            Ok(_) => advertise_refusal(v@) is None,
            Err(e) => advertise_refusal(v@) == Some(e@),
        },
        r is Ok <==> v@.len() > 0 && forall|i: int|
            0 <= i < v@.len() ==> good_in_advertise(#[trigger] v@[i]),
{
    let cs: Vec<char> = chars_of(v);
    if cs.len() == 0 {
        return Err("BBX_ADVERTISE is empty".to_owned());
    }
    let mut good: bool = true;
    let mut i: usize = 0;
    while i < cs.len()
        invariant
            cs@ == v@,
            i <= cs.len(),
            forall|k: int| 0 <= k < i ==> !bad_in_advertise(#[trigger] v@[k]),
            good == forall|k: int| 0 <= k < i ==> good_in_advertise(#[trigger] v@[k]),
        decreases cs.len() - i,
    {
        let c: char = cs[i];
        assert(v@[i as int] == c);
        if bad_advertise_char(c) {
            assert(bad_in_advertise(v@[i as int]));
            assert(!good_in_advertise(v@[i as int]));
            return Err(quoting("BBX_ADVERTISE has illegal characters: ", v));
        }
        if !good_advertise_char(c) {
            good = false;
        }
        i += 1;
    }
    if !good {
        return Err(quoting("BBX_ADVERTISE is not a host/IP: ", v));
    }
    Ok(())
}

/// What becomes of the address of the environment.
pub enum Override {
    /// There is none.
    Absent,
    /// It is advertised.
    Use(String),
    /// It is passed over, and a line says why.
    Refused(String),
}

pub fn advertise_override(env: Option<&str>) -> (r: Override)
    ensures
        match r {
            Override::Absent => env is None || trimmed(env->0@).len() == 0,
            Override::Use(v) => env is Some && v@ == trimmed(env->0@) && advertise_refusal(
                v@,
            ) is None,
            Override::Refused(line) => env is Some && trimmed(env->0@).len() > 0 && (
            advertise_refusal(trimmed(env->0@)) matches Some(e) && line@ == "bbx: "@ + e
                + "; ignoring BBX_ADVERTISE"@),
        },
{
    match env {
        None => Override::Absent,
        Some(s) => {
            let v: &str = trim(s);
            if chars_of(v).len() == 0 {
                return Override::Absent;
            }
            match validate_advertise(v) {
                Ok(()) => Override::Use(v.to_owned()),
                Err(e) => {
                    let mut line: String = "bbx: ".to_owned();
                    line.append(e.as_str());
                    line.append("; ignoring BBX_ADVERTISE");
                    Override::Refused(line)
                },
            }
        },
    }
}

/// A way to find an address that a peer can dial.
pub enum Probe {
    /// The local address of the route toward the peer.
    Toward,
    /// The local address of the default route.
    DefaultRoute,
    /// An address of the interface of the default route.
    Interface,
}

/// What a probe came to.
pub enum Guess {
    /// It was not made yet.
    Unasked,
    /// It found nothing.
    Missed,
    Found(String),
}

/// What the probes came to.
pub struct Guesses {
    pub toward: Guess,
    pub default_route: Guess,
    pub interface: Guess,
}

/// The next thing to do about the address that a peer is told to dial.
pub enum Advertise {
    Ask(Probe),
    /// Tell this address, and print the warning if there is one.
    Tell(String, Option<String>),
}

/// The warning about a loopback address that a remote peer is told.
pub open spec fn loopback_warning(ip: Seq<char>) -> Seq<char> {
    "bbx: warning: advertise IP is loopback ("@ + ip
        + "); remote peer cannot dial this — set BBX_ADVERTISE"@
}

/// An address is told, with a warning if a remote peer cannot dial it.
pub open spec fn told(r: Advertise, ip: Seq<char>, remote: bool) -> bool {
    r matches Advertise::Tell(a, warning) && a@ == ip && (warning is Some <==> remote && (ip
        == "127.0.0.1"@ || ip == "::1"@)) && (warning matches Some(w) ==> w@ == loopback_warning(
        ip,
    ))
}

fn tell(ip: &str, remote: bool) -> (r: Advertise)
    ensures
        told(r, ip@, remote),
{
    if remote && (same(ip, "127.0.0.1") || same(ip, "::1")) {
        let mut w: String = "bbx: warning: advertise IP is loopback (".to_owned();
        w.append(ip);
        w.append("); remote peer cannot dial this — set BBX_ADVERTISE");
        return Advertise::Tell(ip.to_owned(), Some(w));
    }
    Advertise::Tell(ip.to_owned(), None)
}

/// The address that a peer is told to dial, or the probe that is to be made
/// next. The variable comes first, as it stands; then the route toward the peer,
/// if there is a remote one; then the default route; then its interface; and at
/// last the loopback address.
pub fn advertise_ip(variable: &Override, remote: bool, guesses: &Guesses) -> (r: Advertise)
    ensures
        match *variable {
            Override::Use(v) => r matches Advertise::Tell(a, warning) && a@ == v@ && warning
                is None,
            _ => match (guesses.toward, guesses.default_route, guesses.interface) {
                (Guess::Unasked, _, _) if remote => r == Advertise::Ask(Probe::Toward),
                (Guess::Found(ip), _, _) if remote => told(r, ip@, remote),
                (_, Guess::Unasked, _) => r == Advertise::Ask(Probe::DefaultRoute),
                (_, Guess::Found(ip), _) => told(r, ip@, remote),
                (_, _, Guess::Unasked) => r == Advertise::Ask(Probe::Interface),
                (_, _, Guess::Found(ip)) => told(r, ip@, remote),
                (_, _, Guess::Missed) => told(r, "127.0.0.1"@, remote),
            },
        },
{
    if let Override::Use(v) = variable {
        return Advertise::Tell(v.as_str().to_owned(), None);
    }
    if remote {
        match &guesses.toward {
            Guess::Unasked => return Advertise::Ask(Probe::Toward),
            Guess::Found(ip) => return tell(ip.as_str(), remote),
            Guess::Missed => {},
        }
    }
    match &guesses.default_route {
        Guess::Unasked => return Advertise::Ask(Probe::DefaultRoute),
        Guess::Found(ip) => return tell(ip.as_str(), remote),
        Guess::Missed => {},
    }
    match &guesses.interface {
        Guess::Unasked => Advertise::Ask(Probe::Interface),
        Guess::Found(ip) => tell(ip.as_str(), remote),
        Guess::Missed => tell("127.0.0.1", remote),
    }
}

/// A local address towards a peer that the peer may be told.
pub fn usable_toward(ip: &Ip) -> (r: bool)
    ensures
        r == (!ip.unspecified() && !ip.loopback()),
{
    !ip.is_unspecified() && !ip.is_loopback()
}

/// The local address of the default route may be told unless it is a loopback
/// address.
pub fn usable_default(ip: &Ip) -> (r: bool)
    ensures
        r == !ip.loopback(),
{
    !ip.is_loopback()
}

/// The interface of the default route, looked for from line `i` of a routing
/// table on. A line without a destination ends the search.
pub open spec fn iface_from(rows: Seq<Seq<char>>, i: int) -> Option<Seq<char>>
    decreases rows.len() - i,
{
    if i < 0 || i >= rows.len() {
        None
    } else {
        let cols = words(rows[i]);
        if cols.len() < 2 {
            None
        } else if cols[1] == "00000000"@ {
            Some(cols[0])
        } else {
            iface_from(rows, i + 1)
        }
    }
}

/// The interface of the default route of a routing table in the format of
/// `/proc/net/route`, whose first line is a heading.
pub fn default_iface(table: &str) -> (r: Option<String>)
    ensures
        match r {
            Some(d) => iface_from(lines(table@), 1) == Some(d@),
            None => iface_from(lines(table@), 1) is None,
        },
{
    let rows: Vec<String> = split_lines(table);
    let ghost rs = lines(table@);
    assert(texts(rows@).len() == rows@.len());
    let mut i: usize = 1;
    while i < rows.len()
        invariant
            rs == lines(table@),
            texts(rows@) == rs,
            rs.len() == rows@.len(),
            1 <= i,
            iface_from(rs, 1) == iface_from(rs, i as int),
        decreases rows.len() - i,
    {
        let cols: Vec<String> = split_words(rows[i].as_str());
        assert(rs[i as int] == rows@[i as int]@);
        assert(texts(cols@).len() == cols@.len());
        if cols.len() < 2 {
            return None;
        }
        assert(texts(cols@)[0] == cols@[0]@);
        assert(texts(cols@)[1] == cols@[1]@);
        if same(cols[1].as_str(), "00000000") {
            return Some(cols[0].as_str().to_owned());
        }
        i += 1;
    }
    None
}

/// What stands before the first slash of a word.
pub open spec fn before_slash(w: Seq<char>) -> Seq<char> {
    pieces(w, '/')[0]
}

/// A word that starts with an IPv4 address other than a loopback one.
pub open spec fn is_ipv4_word(w: Seq<char>) -> bool {
    find_from(before_slash(w), '.', 0) is Some && !starts(before_slash(w), "127."@)
}

/// The first address among the words from index `i` on.
pub open spec fn ipv4_from(ws: Seq<Seq<char>>, i: int) -> Option<Seq<char>>
    decreases ws.len() - i,
{
    if i < 0 || i >= ws.len() {
        None
    } else if is_ipv4_word(ws[i]) {
        Some(before_slash(ws[i]))
    } else {
        ipv4_from(ws, i + 1)
    }
}

/// The first address other than a loopback one in the output of
/// `ip -4 -o addr show`.
pub fn first_ipv4(out: &str) -> (r: Option<String>)
    ensures
        match r {
            Some(a) => ipv4_from(words(out@), 0) == Some(a@),
            None => ipv4_from(words(out@), 0) is None,
        },
{
    let ws: Vec<String> = split_words(out);
    assert(texts(ws@).len() == ws@.len());
    let mut i: usize = 0;
    while i < ws.len()
        invariant
            texts(ws@) == words(out@),
            texts(ws@).len() == ws@.len(),
            i <= ws.len(),
            ipv4_from(words(out@), 0) == ipv4_from(words(out@), i as int),
        decreases ws.len() - i,
    {
        let w: &str = ws[i].as_str();
        assert(words(out@)[i as int] == w@);
        let parts: Vec<String> = split_on(w, '/');
        proof {
            assert(texts(parts@).len() == parts@.len());
            assert(pieces(w@, '/').len() > 0);
            assert(texts(parts@)[0] == parts@[0]@);
        }
        let a: &str = parts[0].as_str();
        let v: Vec<char> = chars_of(a);
        if find_char(&v, '.', 0).is_some() && !starts_with(a, "127.") {
            return Some(a.to_owned());
        }
        i += 1;
    }
    None
}

/// The entries among the first `n` parts of a list of peers.
pub open spec fn peer_entries(parts: Seq<Seq<char>>, n: int) -> Seq<Seq<char>>
    decreases n,
{
    if n <= 0 {
        Seq::empty()
    } else if trimmed(parts[n - 1]).len() == 0 {
        peer_entries(parts, n - 1)
    } else {
        peer_entries(parts, n - 1).push(trimmed(parts[n - 1]))
    }
}

/// The entries of a list of peers, parted by commas.
pub open spec fn peers_in(v: Seq<char>) -> Seq<Seq<char>> {
    peer_entries(pieces(trimmed(v), ','), pieces(trimmed(v), ',').len() as int)
}

/// The entries of the list of admitted peers, each of which is to be read as an
/// address. A list that is missing or blank has none.
pub fn peer_allowlist(env: Option<&str>) -> (r: Vec<String>)
    ensures
        texts(r@) == (match env {
            Some(v) => peers_in(v@),
            None => Seq::empty(),
        }),
{
    let mut r: Vec<String> = Vec::new();
    assert(texts(r@) =~= Seq::empty());
    if let Some(v) = env {
        let parts: Vec<String> = split_on(trim(v), ',');
        let ghost ps = pieces(trimmed(v@), ',');
        assert(texts(parts@).len() == parts@.len());
        let mut i: usize = 0;
        while i < parts.len()
            invariant
                texts(parts@) == ps,
                ps.len() == parts@.len(),
                i <= parts.len(),
                texts(r@) == peer_entries(ps, i as int),
            decreases parts.len() - i,
        {
            let p: &str = trim(parts[i].as_str());
            assert(ps[i as int] == parts@[i as int]@);
            let ghost was = r@;
            if chars_of(p).len() > 0 {
                r.push(p.to_owned());
                assert(texts(r@) =~= texts(was).push(p@));
            }
            i += 1;
        }
    }
    r
}

/// The line about an entry of the list of admitted peers that is no address.
pub fn bad_peer_entry(entry: &str) -> (r: String)
    ensures
        r@ == "bbx: warning: BBX_PEER_ALLOW skip bad IP "@ + debug_text(entry@),
{
    quoting("bbx: warning: BBX_PEER_ALLOW skip bad IP ", entry)
}

/// The addresses among the first `n` readings of entries.
pub open spec fn readable(parsed: Seq<Option<Ip>>, n: int) -> Seq<Ip>
    decreases n,
{
    if n <= 0 {
        Seq::empty()
    } else {
        match parsed[n - 1] {
            Some(ip) => readable(parsed, n - 1).push(ip),
            None => readable(parsed, n - 1),
        }
    }
}

/// A list of admitted peers is set: it is there and not blank.
pub open spec fn list_set(env: Option<&str>) -> bool {
    env matches Some(v) && trimmed(v@).len() > 0
}

/// The admitted peers, of a list whose entries read as `parsed`. A list that is
/// set but holds no readable address is refused, as it would admit anyone; so
/// there are no addresses if and only if the list is missing or blank.
pub fn allowed_peers(env: Option<&str>, parsed: &Vec<Option<Ip>>) -> (r: Result<Vec<Ip>, String>)
    ensures
        match r {
            Ok(v) => if list_set(env) {
                v@ == readable(parsed@, parsed@.len() as int) && v@.len() > 0
            } else {
                v@.len() == 0
            },
            Err(e) => list_set(env) && readable(parsed@, parsed@.len() as int).len() == 0 && e@
                == "BBX_PEER_ALLOW holds no readable address"@,
        },
{
    let set: bool = match env {
        Some(v) => chars_of(trim(v)).len() > 0,
        None => false,
    };
    let mut out: Vec<Ip> = Vec::new();
    if !set {
        return Ok(out);
    }
    let mut i: usize = 0;
    while i < parsed.len()
        invariant
            i <= parsed.len(),
            out@ == readable(parsed@, i as int),
        decreases parsed.len() - i,
    {
        if let Some(ip) = parsed[i] {
            out.push(ip);
        }
        i += 1;
    }
    if out.len() == 0 {
        return Err("BBX_PEER_ALLOW holds no readable address".to_owned());
    }
    Ok(out)
}

/// A peer is admitted where there is no list, and by one that holds its address.
pub open spec fn admitted(allow: Seq<Ip>, ip: Ip) -> bool {
    allow.len() == 0 || exists|i: int| 0 <= i < allow.len() && (#[trigger] allow[i]).alike(ip)
}

/// Refuses a peer that the list of admitted peers does not hold. `ip_text` is
/// the notation of its address.
pub fn check_peer(role: &str, allow: &Vec<Ip>, ip: &Ip, ip_text: &str) -> (r: Result<(), String>)
    ensures
        r is Ok <==> admitted(allow@, *ip),
        r matches Err(e) ==> e@ == role@ + " reject peer "@ + ip_text@
            + " (not in BBX_PEER_ALLOW)"@,
{
    let mut i: usize = 0;
    while i < allow.len()
        invariant
            i <= allow.len(),
            forall|k: int| 0 <= k < i ==> !(#[trigger] allow@[k]).alike(*ip),
        decreases allow.len() - i,
    {
        if allow[i].is_alike(ip) {
            assert(allow@[i as int].alike(*ip));
            return Ok(());
        }
        i += 1;
    }
    if allow.len() == 0 {
        return Ok(());
    }
    let mut m: String = role.to_owned();
    m.append(" reject peer ");
    m.append(ip_text);
    m.append(" (not in BBX_PEER_ALLOW)");
    Err(m)
}

/// When a list of admitted peers is set, a peer that none of its entries reads as
/// is not admitted.
pub proof fn lemma_others_refused(parsed: Seq<Option<Ip>>, ip: Ip)
    requires
        readable(parsed, parsed.len() as int).len() > 0,
        admitted(readable(parsed, parsed.len() as int), ip),
    ensures
        exists|i: int|
            0 <= i < parsed.len() && (#[trigger] parsed[i] matches Some(a) && a.alike(ip)),
{
    let allow = readable(parsed, parsed.len() as int);
    let k = choose|k: int| 0 <= k < allow.len() && (#[trigger] allow[k]).alike(ip);
    lemma_readable_from(parsed, parsed.len() as int, k);
    let i = choose|i: int| 0 <= i < parsed.len() && #[trigger] parsed[i] == Some(allow[k]);
    assert(parsed[i] == Some(allow[k]));
}

proof fn lemma_readable_from(parsed: Seq<Option<Ip>>, n: int, k: int)
    requires
        0 <= n <= parsed.len(),
        0 <= k < readable(parsed, n).len(),
    ensures
        exists|i: int| 0 <= i < n && #[trigger] parsed[i] == Some(readable(parsed, n)[k]),
    decreases n,
{
    if n > 0 {
        let before = readable(parsed, n - 1);
        if k < before.len() {
            lemma_readable_from(parsed, n - 1, k);
            let i = choose|i: int| 0 <= i < n - 1 && #[trigger] parsed[i] == Some(before[k]);
            assert(parsed[i] == Some(readable(parsed, n)[k]));
        } else {
            assert(parsed[n - 1] == Some(readable(parsed, n)[k]));
        }
    }
}

} // verus!
