//! The commands that start agents on the remote host.

use crate::control::bool_text;
use crate::paths::{host_only, host_part};
use crate::shell::{quoted_word, shell_quote};
use crate::text::{
    after_spaces, debug_text, dec, dec_text, is_space, lemma_dec_plain, lemma_number_dec,
    lemma_trimmed_between, lines, number, parse_number, quoted, split_lines, texts, trim, trimmed,
};
use crate::text_laws::{lemma_after_spaces, lemma_last_line};
use crate::wire::{hex, hex_text};
use vstd::prelude::*;

verus! {

/// The program that is started on the remote host.
pub fn remote_bin(env: Option<&str>) -> (r: String)
    ensures
        r@ == (match env {
            Some(b) => b@,
            None => "bbx"@,
        }),
{
    match env {
        Some(b) => b.to_owned(),
        None => "bbx".to_owned(),
    }
}

pub open spec fn z_text(range: Option<(u16, u16)>) -> Seq<char> {
    match range {
        Some(r) => " -Z "@ + dec(r.0 as nat) + "-"@ + dec(r.1 as nat),
        None => Seq::empty(),
    }
}

/// The flag for a range of ports.
pub fn z_flag(range: Option<(u16, u16)>) -> (r: String)
    ensures
        r@ == z_text(range),
{
    match range {
        Some((lo, hi)) => {
            let mut r: String = " -Z ".to_owned();
            r.append(dec_text(lo as u64).as_str());
            r.append("-");
            r.append(dec_text(hi as u64).as_str());
            r
        },
        None => String::new(),
    }
}

pub open spec fn ce_text(check: bool, crypt: bool) -> Seq<char> {
    (if check {
        "-c"@
    } else {
        "-C"@
    }) + " "@ + (if crypt {
        "-e"@
    } else {
        "-E"@
    })
}

/// The flags for digest and sealing.
pub fn ce_flags(check: bool, crypt: bool) -> (r: String)
    ensures
        r@ == ce_text(check, crypt),
{
    let mut r: String = if check {
        "-c".to_owned()
    } else {
        "-C".to_owned()
    };
    r.append(" ");
    if crypt {
        r.append("-e");
    } else {
        r.append("-E");
    }
    r
}

pub open spec fn resume_text(resume: bool) -> Seq<char> {
    if resume {
        " -A"@
    } else {
        ""@
    }
}

/// The flag for resuming.
pub fn resume_flag(resume: bool) -> (r: &'static str)
    ensures
        r@ == resume_text(resume),
{
    if resume {
        " -A"
    } else {
        ""
    }
}

pub open spec fn preserve_text(preserve: bool) -> Seq<char> {
    if preserve {
        " --preserve"@
    } else {
        ""@
    }
}

/// The flag for keeping mode and time.
pub fn preserve_flag(preserve: bool) -> (r: &'static str)
    ensures
        r@ == preserve_text(preserve),
{
    if preserve {
        " --preserve"
    } else {
        ""
    }
}

pub open spec fn rate_text(rate: u64) -> Seq<char> {
    if rate > 0 {
        " -x "@ + dec(rate as nat)
    } else {
        Seq::empty()
    }
}

/// The flag for a limited rate.
pub fn rate_flag(rate: u64) -> (r: String)
    ensures
        r@ == rate_text(rate),
{
    if rate > 0 {
        let mut r: String = " -x ".to_owned();
        r.append(dec_text(rate).as_str());
        r
    } else {
        String::new()
    }
}

pub open spec fn offset_text(resume: bool, have: u64) -> Seq<char> {
    if resume && have > 0 {
        " -R "@ + dec(have as nat)
    } else {
        Seq::empty()
    }
}

/// The flag for the offset that a source resumes from.
pub fn offset_flag(resume: bool, have: u64) -> (r: String)
    ensures
        r@ == offset_text(resume, have),
{
    if resume && have > 0 {
        let mut r: String = " -R ".to_owned();
        r.append(dec_text(have).as_str());
        r
    } else {
        String::new()
    }
}

/// The assignment that hands a key to an agent by its environment.
pub open spec fn key_env_text(key: Option<Seq<u8>>) -> Seq<char> {
    match key {
        Some(k) => "BBX_KEY="@ + hex_text(k) + " "@,
        None => Seq::empty(),
    }
}

fn key_env(key: Option<&[u8; 32]>) -> (r: String)
    ensures
        r@ == key_env_text(key_view(key)),
{
    match key {
        Some(k) => {
            let mut r: String = "BBX_KEY=".to_owned();
            r.append(hex(k).as_str());
            r.append(" ");
            r
        },
        None => String::new(),
    }
}

/// What the agents of a copy share with it.
pub struct AgentOptions {
    pub streams: usize,
    pub wnd: usize,
    pub check: bool,
    pub crypt: bool,
    pub preserve: bool,
    pub rate: u64,
}

/// The flags that every agent gets; `how` are those for resuming.
pub open spec fn shared_text(o: AgentOptions, how: Seq<char>) -> Seq<char> {
    " -s "@ + dec(o.streams as nat) + " -w "@ + dec(o.wnd as nat) + " "@ + ce_text(o.check, o.crypt)
        + how + preserve_text(o.preserve) + rate_text(o.rate)
}

fn shared_flags(o: &AgentOptions, how: &str) -> (r: String)
    ensures
        r@ == shared_text(*o, how@),
{
    let mut r: String = " -s ".to_owned();
    r.append(dec_text(o.streams as u64).as_str());
    r.append(" -w ");
    r.append(dec_text(o.wnd as u64).as_str());
    r.append(" ");
    r.append(ce_flags(o.check, o.crypt).as_str());
    r.append(how);
    r.append(preserve_flag(o.preserve));
    r.append(rate_flag(o.rate).as_str());
    r
}

/// An agent that listens.
pub open spec fn listener_text(
    bin: Seq<char>,
    verb: Seq<char>,
    range: Option<(u16, u16)>,
    file_flag: Seq<char>,
    rpath: Seq<char>,
    shared: Seq<char>,
) -> Seq<char> {
    quoted_word(bin) + verb + " -l 0.0.0.0:0"@ + z_text(range) + file_flag + quoted_word(rpath)
        + shared
}

/// An agent that dials `addr`.
pub open spec fn dialer_text(
    bin: Seq<char>,
    verb: Seq<char>,
    addr: Seq<char>,
    file_flag: Seq<char>,
    rpath: Seq<char>,
    shared: Seq<char>,
) -> Seq<char> {
    quoted_word(bin) + verb + " -a "@ + quoted_word(addr) + file_flag + quoted_word(rpath) + shared
}

/// Starts the sink of a push, which listens and brings its own key.
pub fn push_forward_command(
    bin: &str,
    rpath: &str,
    range: Option<(u16, u16)>,
    resume: bool,
    o: &AgentOptions,
) -> (r: String)
    ensures
        r@ == listener_text(
            bin@,
            " sink"@,
            range,
            " -o "@,
            rpath@,
            shared_text(*o, resume_text(resume)),
        ),
{
    let mut r: String = shell_quote(bin);
    r.append(" sink");
    r.append(" -l 0.0.0.0:0");
    r.append(z_flag(range).as_str());
    r.append(" -o ");
    r.append(shell_quote(rpath).as_str());
    r.append(shared_flags(o, resume_flag(resume)).as_str());
    r
}

/// A key as a mathematical value.
pub open spec fn key_view(key: Option<&[u8; 32]>) -> Option<Seq<u8>> {
    match key {
        Some(k) => Some(k@),
        None => None,
    }
}

/// Starts the sink of a reversed push, which dials and is handed the key.
pub fn push_reverse_command(
    bin: &str,
    addr: &str,
    rpath: &str,
    key: Option<&[u8; 32]>,
    resume: bool,
    o: &AgentOptions,
) -> (r: String)
    ensures
        r@ == key_env_text(key_view(key)) + dialer_text(
            bin@,
            " sink"@,
            addr@,
            " -o "@,
            rpath@,
            shared_text(*o, resume_text(resume)),
        ),
{
    let mut t: String = shell_quote(bin);
    t.append(" sink");
    t.append(" -a ");
    t.append(shell_quote(addr).as_str());
    t.append(" -o ");
    t.append(shell_quote(rpath).as_str());
    t.append(shared_flags(o, resume_flag(resume)).as_str());
    let mut r: String = key_env(key);
    r.append(t.as_str());
    r
}

/// Starts the source of a pull, which dials and is handed the key. `have` is the
/// length of the local file.
pub fn pull_forward_command(
    bin: &str,
    addr: &str,
    rpath: &str,
    key: Option<&[u8; 32]>,
    resume: bool,
    have: u64,
    o: &AgentOptions,
) -> (r: String)
    ensures
        r@ == key_env_text(key_view(key)) + dialer_text(
            bin@,
            " source"@,
            addr@,
            " -i "@,
            rpath@,
            shared_text(*o, offset_text(resume, have)),
        ),
{
    let mut t: String = shell_quote(bin);
    t.append(" source");
    t.append(" -a ");
    t.append(shell_quote(addr).as_str());
    t.append(" -i ");
    t.append(shell_quote(rpath).as_str());
    t.append(shared_flags(o, offset_flag(resume, have).as_str()).as_str());
    let mut r: String = key_env(key);
    r.append(t.as_str());
    r
}

/// Starts the source of a reversed pull, which listens. It is handed the key if
/// there is a fixed one and the payload is sealed.
pub fn pull_reverse_command(
    bin: &str,
    rpath: &str,
    range: Option<(u16, u16)>,
    fixed_key: Option<&[u8; 32]>,
    resume: bool,
    have: u64,
    o: &AgentOptions,
) -> (r: String)
    ensures
        r@ == key_env_text(
            if o.crypt {
                key_view(fixed_key)
            } else {
                None
            },
        ) + listener_text(
            bin@,
            " source"@,
            range,
            " -i "@,
            rpath@,
            shared_text(*o, offset_text(resume, have)),
        ),
{
    let mut t: String = shell_quote(bin);
    t.append(" source");
    t.append(" -l 0.0.0.0:0");
    t.append(z_flag(range).as_str());
    t.append(" -i ");
    t.append(shell_quote(rpath).as_str());
    t.append(shared_flags(o, offset_flag(resume, have).as_str()).as_str());
    let mut r: String = key_env(
        if o.crypt {
            fixed_key
        } else {
            None
        },
    );
    r.append(t.as_str());
    r
}

/// The offset that a pull resumes from: the length of the local file, if it is
/// to resume.
pub fn pull_offset(resume: bool, have: u64) -> (r: u64)
    ensures
        r == (if resume {
            have
        } else {
            0
        }),
{
    if resume {
        have
    } else {
        0
    }
}

/// The address of an agent that listens on `port` of a remote host.
pub fn dial_addr(remote: &str, port: u16) -> (r: String)
    ensures
        r@ == host_part(remote@) + ":"@ + dec(port as nat),
{
    join_port(host_only(remote), port)
}

/// A host with a port.
pub fn join_port(host: &str, port: u16) -> (r: String)
    ensures
        r@ == host@ + ":"@ + dec(port as nat),
{
    let mut r: String = host.to_owned();
    r.append(":");
    r.append(dec_text(port as u64).as_str());
    r
}

/// The command that prints the length of a remote file, and zero if there is
/// none.
pub fn stat_command(path: &str) -> (r: String)
    ensures
        r@ == "stat -c %s "@ + quoted_word(path@) + " 2>/dev/null || echo 0"@,
{
    let mut r: String = "stat -c %s ".to_owned();
    r.append(shell_quote(path).as_str());
    r.append(" 2>/dev/null || echo 0");
    r
}

/// The length on the last line of what the remote side printed, which counts as
/// zero if it printed nothing.
pub open spec fn printed_len(out: Seq<char>) -> Option<nat> {
    let ls = lines(trimmed(out));
    number(
        if ls.len() == 0 {
            "0"@
        } else {
            ls.last()
        },
        u64::MAX as nat,
    )
}

/// The length that the remote side prints is read back, however long the file
/// is, also behind other lines: `before` is what was printed on the lines above.
pub proof fn lemma_len_read_back(before: Seq<char>, n: u64)
    requires
        before.len() == 0 || before.last() == '\n',
    ensures
        printed_len(before + dec(n as nat) + seq!['\n']) == Some(n as nat),
        printed_len(before + dec(n as nat)) == Some(n as nat),
{
    let d = dec(n as nat);
    let none = Seq::<char>::empty();
    lemma_dec_plain(n as nat);
    lemma_number_dec(n as nat, u64::MAX as nat);
    lemma_printed(before, d, seq!['\n']);
    lemma_printed(before, d, none);
    assert(before + d + none =~= before + d);
}

/// What is trimmed from text that ends in a plain word and white space.
proof fn lemma_printed(before: Seq<char>, d: Seq<char>, end: Seq<char>)
    requires
        before.len() == 0 || before.last() == '\n',
        d.len() > 0,
        forall|i: int| 0 <= i < d.len() ==> !is_space(#[trigger] d[i]),
        forall|i: int| 0 <= i < end.len() ==> is_space(#[trigger] end[i]),
    ensures
        lines(trimmed(before + d + end)).len() > 0,
        lines(trimmed(before + d + end)).last() == d,
{
    let a = after_spaces(before, 0);
    lemma_after_spaces(before, 0);
    let kept = before.skip(a);
    let t = kept + d;
    assert(before + d + end =~= before.take(a) + t + end);
    assert forall|i: int| 0 <= i < before.take(a).len() implies is_space(
        #[trigger] before.take(a)[i],
    ) by {
        assert(is_space(before[i]));
    }
    assert(!is_space(d[d.len() - 1]));
    assert(t[t.len() - 1] == d[d.len() - 1]);
    if kept.len() > 0 {
        assert(t[0] == before[a]);
    } else {
        assert(!is_space(d[0]));
        assert(t[0] == d[0]);
    }
    lemma_trimmed_between(before.take(a), t, end);
    assert forall|j: int| 0 <= j < d.len() implies d[j] != '\n' by {
        assert(!is_space(d[j]));
    }
    if kept.len() > 0 {
        assert(kept.last() == before.last());
    }
    lemma_last_line(kept, d);
}

/// Reads the length of a remote file.
pub fn remote_file_len(out: &str) -> (r: Result<u64, String>)
    ensures
        match r {
            Ok(n) => printed_len(out@) == Some(n as nat),
            Err(e) => printed_len(out@) is None && e@ == "bad remote size: "@ + debug_text(out@),
        },
        forall|n: u64| #[trigger]
            (dec(n as nat) + seq!['\n']) == out@ ==> r == Ok::<u64, String>(n),
{
    proof {
        assert forall|n: u64| #[trigger] (dec(n as nat) + seq!['\n']) == out@ implies printed_len(
            out@,
        ) == Some(n as nat) by {
            lemma_len_read_back(Seq::empty(), n);
            assert(Seq::<char>::empty() + dec(n as nat) =~= dec(n as nat));
        }
    }
    let ls: Vec<String> = split_lines(trim(out));
    assert(texts(ls@).len() == ls@.len());
    let last: &str = if ls.len() == 0 {
        "0"
    } else {
        assert(texts(ls@).last() == ls@[ls@.len() - 1]@);
        ls[ls.len() - 1].as_str()
    };
    match parse_number(last, u64::MAX) {
        Some(n) => Ok(n),
        None => {
            let mut m: String = "bad remote size: ".to_owned();
            m.append(quoted(out).as_str());
            Err(m)
        },
    }
}

/// The four ways of a copy: out or in, and which side listens.
pub enum CpMode {
    /// The remote sink listens.
    PushForward,
    /// The local source listens.
    PushReverse,
    /// The local sink listens.
    PullForward,
    /// The remote source listens.
    PullReverse,
}

/// The way of a copy.
pub fn cp_mode(push: bool, reverse: bool) -> (r: CpMode)
    ensures
        r == (match (push, reverse) {
            (true, false) => CpMode::PushForward,
            (true, true) => CpMode::PushReverse,
            (false, false) => CpMode::PullForward,
            (false, true) => CpMode::PullReverse,
        }),
{
    match (push, reverse) {
        (true, false) => CpMode::PushForward,
        (true, true) => CpMode::PushReverse,
        (false, false) => CpMode::PullForward,
        (false, true) => CpMode::PullReverse,
    }
}

impl CpMode {
    /// What the agent is called in messages.
    pub fn role(&self) -> (r: &'static str)
        ensures
            r@ == (match self {
                CpMode::PushForward => "push remote sink"@,
                CpMode::PushReverse => "push -z remote sink"@,
                CpMode::PullForward => "pull remote source"@,
                CpMode::PullReverse => "pull -z remote source"@,
            }),
    {
        match self {
            CpMode::PushForward => "push remote sink",
            CpMode::PushReverse => "push -z remote sink",
            CpMode::PullForward => "pull remote source",
            CpMode::PullReverse => "pull -z remote source",
        }
    }
}

/// The two ends of a copy.
pub struct CpEnds<'a> {
    pub local: &'a str,
    pub remote: &'a str,
    pub rpath: &'a str,
    /// The address that is dialled.
    pub addr: &'a str,
}

/// The line that announces a copy.
pub open spec fn cp_text(
    mode: CpMode,
    e: CpEnds,
    streams: usize,
    resume_from: u64,
    crypt: bool,
) -> Seq<char> {
    match mode {
        CpMode::PushForward => "bbx: push "@ + e.local@ + " → "@ + e.remote@ + ":"@ + e.rpath@
            + " via "@ + e.addr@ + " streams="@ + dec(streams as nat) + " resume_from="@ + dec(
            resume_from as nat,
        ) + " crypt="@ + bool_text(crypt),
        CpMode::PushReverse => "bbx: push -z "@ + e.local@ + " → "@ + e.remote@ + ":"@ + e.rpath@
            + " dials "@ + e.addr@ + " resume_from="@ + dec(resume_from as nat),
        CpMode::PullForward => "bbx: pull "@ + e.remote@ + ":"@ + e.rpath@ + " → "@ + e.local@
            + " listen="@ + e.addr@ + " resume_from="@ + dec(resume_from as nat),
        CpMode::PullReverse => "bbx: pull -z "@ + e.remote@ + ":"@ + e.rpath@ + " → "@ + e.local@
            + " via "@ + e.addr@ + " resume_from="@ + dec(resume_from as nat),
    }
}

pub fn cp_line(
    mode: &CpMode,
    e: &CpEnds,
    streams: usize,
    resume_from: u64,
    crypt: bool,
) -> (r: String)
    ensures
        r@ == cp_text(*mode, *e, streams, resume_from, crypt),
{
    match mode {
        CpMode::PushForward => {
            let mut r: String = "bbx: push ".to_owned();
            r.append(e.local);
            r.append(" → ");
            r.append(e.remote);
            r.append(":");
            r.append(e.rpath);
            r.append(" via ");
            r.append(e.addr);
            r.append(" streams=");
            r.append(dec_text(streams as u64).as_str());
            r.append(" resume_from=");
            r.append(dec_text(resume_from).as_str());
            r.append(" crypt=");
            if crypt {
                r.append("true");
            } else {
                r.append("false");
            }
            r
        },
        CpMode::PushReverse => {
            let mut r: String = "bbx: push -z ".to_owned();
            r.append(e.local);
            r.append(" → ");
            r.append(e.remote);
            r.append(":");
            r.append(e.rpath);
            r.append(" dials ");
            r.append(e.addr);
            r.append(" resume_from=");
            r.append(dec_text(resume_from).as_str());
            r
        },
        CpMode::PullForward => {
            let mut r: String = "bbx: pull ".to_owned();
            r.append(e.remote);
            r.append(":");
            r.append(e.rpath);
            r.append(" → ");
            r.append(e.local);
            r.append(" listen=");
            r.append(e.addr);
            r.append(" resume_from=");
            r.append(dec_text(resume_from).as_str());
            r
        },
        CpMode::PullReverse => {
            let mut r: String = "bbx: pull -z ".to_owned();
            r.append(e.remote);
            r.append(":");
            r.append(e.rpath);
            r.append(" → ");
            r.append(e.local);
            r.append(" via ");
            r.append(e.addr);
            r.append(" resume_from=");
            r.append(dec_text(resume_from).as_str());
            r
        },
    }
}

} // verus!
