//! What the two ends of a transfer settle before the first connection.

use crate::address::{
    bind_listener, cleartext_allowed, is_bind_plan, listen_parts, loopback_host, BindPlan, Ip,
};
use crate::banner::{banner_key, banner_text, print_listen_banner};
use crate::crypto::gen_key;
use crate::flags::opt_str;
use crate::streams::{dial_streams, hello};
use vstd::prelude::*;

verus! {

/// Why a transfer in clear is refused, if it is.
pub open spec fn clear_refusal(
    crypt: bool,
    allow_clear: Option<Seq<char>>,
    host: Seq<char>,
    parsed: Option<Ip>,
) -> Option<Seq<char>> {
    if crypt || allow_clear == Some("1"@) || loopback_host(host, parsed) {
        None
    } else {
        Some(
            "cleartext (-E) refused on non-loopback; use -e encrypt, or BBX_ALLOW_CLEAR=1 for trusted nets"@,
        )
    }
}

/// Admits a sealed transfer anywhere, and one in clear where it may be.
pub fn check_clear(
    crypt: bool,
    allow_clear: Option<&str>,
    host: &str,
    parsed: Option<Ip>,
) -> (r: Result<(), String>)
    ensures
        match r {
            Ok(_) => clear_refusal(crypt, opt_str(allow_clear), host@, parsed) is None,
            Err(e) => clear_refusal(crypt, opt_str(allow_clear), host@, parsed) == Some(e@),
        },
{
    if crypt {
        Ok(())
    } else {
        cleartext_allowed(allow_clear, host, parsed)
    }
}

/// The session key of the side that brings one along: the given one, else a
/// fresh one, and none in clear.
pub fn session_key(crypt: bool, key: Option<[u8; 32]>) -> (r: Result<Option<[u8; 32]>, String>)
    ensures
        !crypt ==> r == Ok::<Option<[u8; 32]>, String>(None),
        crypt && key is Some ==> r == Ok::<Option<[u8; 32]>, String>(key),
        r matches Ok(k) ==> (crypt ==> k is Some),
        r matches Err(e) ==> crypt && key is None && e@ == "getrandom"@,
{
    if !crypt {
        return Ok(None);
    }
    match key {
        Some(k) => Ok(Some(k)),
        None => Ok(Some(gen_key()?)),
    }
}

/// The session key of the side that starts an agent with a banner: a fixed one,
/// else the one of the banner, and none in clear.
pub fn banner_session_key(
    crypt: bool,
    fixed: Option<[u8; 32]>,
    banner: Option<[u8; 32]>,
) -> (r: Result<Option<[u8; 32]>, String>)
    ensures
        match r {
            Ok(k) => {
                &&& k == if !crypt {
                    None
                } else if fixed is Some {
                    fixed
                } else {
                    banner
                }
                &&& crypt ==> k is Some
            },
            Err(e) => crypt && fixed is None && banner is None && e@
                == "encrypt: no session key from peer"@,
        },
{
    if !crypt {
        return Ok(None);
    }
    match fixed {
        Some(k) => Ok(Some(k)),
        None => match banner {
            Some(k) => Ok(Some(k)),
            None => Err("encrypt: no session key from peer".to_owned()),
        },
    }
}

/// What a listening side needs.
pub struct ListenPlan {
    pub bind: BindPlan,
    pub crypt: bool,
    pub key: Option<[u8; 32]>,
    /// Length of the file at hand, if it is to be told.
    pub resume_from: Option<u64>,
}

impl ListenPlan {
    pub open spec fn keyed(self) -> bool {
        self.crypt ==> self.key is Some
    }

    /// The banner to print once the port is known.
    pub fn banner(&self, port: u16) -> (r: String)
        requires
            self.keyed(),
        ensures
            r@ == banner_text(port, banner_key(self.crypt, self.key), self.resume_from),
    {
        print_listen_banner(port, self.crypt, &self.key, self.resume_from)
    }
}

/// Why a side may not listen, if it may not.
pub open spec fn listen_refusal(
    listen: Seq<char>,
    crypt: bool,
    allow_clear: Option<Seq<char>>,
    parsed: Option<Ip>,
) -> Option<Seq<char>> {
    if clear_refusal(crypt, allow_clear, listen, parsed) is Some {
        clear_refusal(crypt, allow_clear, listen, parsed)
    } else {
        match listen_parts(listen) {
            Err(e) => Some(e),
            Ok(_) => None,
        }
    }
}

/// `p` is the plan of a side that listens with the given key.
pub open spec fn is_listen_plan(
    p: ListenPlan,
    listen: Seq<char>,
    range: Option<(u16, u16)>,
    crypt: bool,
    key: Option<[u8; 32]>,
    resume_from: Option<u64>,
) -> bool {
    &&& listen_parts(listen) matches Ok(a) && is_bind_plan(p.bind, a.0, a.1, range)
    &&& p.crypt == crypt
    &&& p.key == key
    &&& p.resume_from == resume_from
}

/// The plan of a side that listens with a key that is settled.
pub fn listen_with_key(
    listen: &str,
    range: Option<(u16, u16)>,
    crypt: bool,
    key: Option<[u8; 32]>,
    resume_from: Option<u64>,
    allow_clear: Option<&str>,
    parsed: Option<Ip>,
) -> (r: Result<ListenPlan, String>)
    ensures
        match r {
            Ok(p) => listen_refusal(listen@, crypt, opt_str(allow_clear), parsed) is None
                && is_listen_plan(p, listen@, range, crypt, key, resume_from),
            Err(e) => listen_refusal(listen@, crypt, opt_str(allow_clear), parsed) == Some(e@),
        },
{
    check_clear(crypt, allow_clear, listen, parsed)?;
    let bind: BindPlan = bind_listener(listen, range)?;
    Ok(ListenPlan { bind, crypt, key, resume_from })
}

/// What a sink needs that listens. `have` is the length of the file in place,
/// which the banner of a sink that resumes tells.
pub fn run_sink_listen(
    listen: &str,
    range: Option<(u16, u16)>,
    crypt: bool,
    key: Option<[u8; 32]>,
    resume: bool,
    have: u64,
    allow_clear: Option<&str>,
    parsed: Option<Ip>,
) -> (r: Result<ListenPlan, String>)
    ensures
        match r {
            Ok(p) => {
                &&& listen_refusal(listen@, crypt, opt_str(allow_clear), parsed) is None
                &&& is_listen_plan(
                    p,
                    listen@,
                    range,
                    crypt,
                    p.key,
                    if resume {
                        Some(have)
                    } else {
                        None
                    },
                )
                &&& p.keyed()
                &&& !crypt ==> p.key is None
                &&& crypt && key is Some ==> p.key == key
            },
            Err(e) => listen_refusal(listen@, crypt, opt_str(allow_clear), parsed) == Some(e@) || (
            crypt && key is None && e@ == "getrandom"@),
        },
{
    let k: Option<[u8; 32]> = session_key(crypt, key)?;
    let resume_from: Option<u64> = if resume {
        Some(have)
    } else {
        None
    };
    listen_with_key(listen, range, crypt, k, resume_from, allow_clear, parsed)
}

/// What a source needs that listens.
pub fn run_source_listen(
    listen: &str,
    range: Option<(u16, u16)>,
    crypt: bool,
    key: Option<[u8; 32]>,
    allow_clear: Option<&str>,
    parsed: Option<Ip>,
) -> (r: Result<ListenPlan, String>)
    ensures
        match r {
            Ok(p) => {
                &&& listen_refusal(listen@, crypt, opt_str(allow_clear), parsed) is None
                &&& is_listen_plan(p, listen@, range, crypt, p.key, None)
                &&& p.keyed()
                &&& !crypt ==> p.key is None
                &&& crypt && key is Some ==> p.key == key
            },
            Err(e) => listen_refusal(listen@, crypt, opt_str(allow_clear), parsed) == Some(e@) || (
            crypt && key is None && e@ == "getrandom"@),
        },
{
    let k: Option<[u8; 32]> = session_key(crypt, key)?;
    listen_with_key(listen, range, crypt, k, None, allow_clear, parsed)
}

/// Why a side may not connect, if it may not. `no_key` is said of a sealed
/// transfer without a key.
pub open spec fn connect_refusal(
    addr: Seq<char>,
    crypt: bool,
    has_key: bool,
    allow_clear: Option<Seq<char>>,
    parsed: Option<Ip>,
    no_key: Seq<char>,
) -> Option<Seq<char>> {
    if crypt && !has_key {
        Some(no_key)
    } else {
        clear_refusal(crypt, allow_clear, addr, parsed)
    }
}

/// What a sink writes first on each of its connections when it dials.
pub fn run_sink_connect(
    addr: &str,
    streams: usize,
    crypt: bool,
    key: Option<&[u8; 32]>,
    allow_clear: Option<&str>,
    parsed: Option<Ip>,
) -> (r: Result<Vec<Vec<u8>>, String>)
    requires
        streams <= u32::MAX,
    ensures
        match r {
            Ok(h) => {
                &&& connect_refusal(
                    addr@,
                    crypt,
                    key is Some,
                    opt_str(allow_clear),
                    parsed,
                    "encrypt needs -k KEY (from peer KEY line)"@,
                ) is None
                &&& h@.len() == streams
                &&& forall|i: int| 0 <= i < streams ==> (#[trigger] h@[i])@ == hello(i as u32, key)
            },
            Err(e) => connect_refusal(
                addr@,
                crypt,
                key is Some,
                opt_str(allow_clear),
                parsed,
                "encrypt needs -k KEY (from peer KEY line)"@,
            ) == Some(e@),
        },
{
    if crypt && key.is_none() {
        return Err("encrypt needs -k KEY (from peer KEY line)".to_owned());
    }
    check_clear(crypt, allow_clear, addr, parsed)?;
    Ok(dial_streams(streams, key))
}

/// What a source writes first on each of its connections when it dials.
pub fn run_source_connect(
    addr: &str,
    streams: usize,
    crypt: bool,
    key: Option<&[u8; 32]>,
    allow_clear: Option<&str>,
    parsed: Option<Ip>,
) -> (r: Result<Vec<Vec<u8>>, String>)
    requires
        streams <= u32::MAX,
    ensures
        match r {
            Ok(h) => {
                &&& connect_refusal(
                    addr@,
                    crypt,
                    key is Some,
                    opt_str(allow_clear),
                    parsed,
                    "encrypt needs session KEY from peer"@,
                ) is None
                &&& h@.len() == streams
                &&& forall|i: int| 0 <= i < streams ==> (#[trigger] h@[i])@ == hello(i as u32, key)
            },
            Err(e) => connect_refusal(
                addr@,
                crypt,
                key is Some,
                opt_str(allow_clear),
                parsed,
                "encrypt needs session KEY from peer"@,
            ) == Some(e@),
        },
{
    if crypt && key.is_none() {
        return Err("encrypt needs session KEY from peer".to_owned());
    }
    check_clear(crypt, allow_clear, addr, parsed)?;
    Ok(dial_streams(streams, key))
}

} // verus!
