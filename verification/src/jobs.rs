//! The commands: what their arguments ask for.

use crate::control::opt_bytes;
use crate::flags::{flags_of, opt_str, parse_flags, FlagValues, Flags};
use crate::flag_laws::{
    acceptable, given, last_switch, last_value, lemma_flag_numbers, lemma_flag_switches,
    lemma_flag_texts, lemma_flags_accepted, others,
};
use crate::paths::{
    host_path, is_remote, is_remote_spec, lemma_host_path_parts, split_host_path,
};
use crate::text::{same, texts};
use crate::wire::{key_of, parse_key};
use vstd::prelude::*;

verus! {

/// What a command line starts with.
pub enum Verb {
    Sink,
    Source,
    Cp,
    Help,
}

/// The verb that a word stands for.
pub open spec fn verb_of(s: Seq<char>) -> Option<Verb> {
    if s == "sink"@ {
        Some(Verb::Sink)
    } else if s == "source"@ {
        Some(Verb::Source)
    } else if s == "cp"@ {
        Some(Verb::Cp)
    } else if s == "-h"@ || s == "--help"@ || s == "help"@ {
        Some(Verb::Help)
    } else {
        None
    }
}

pub fn parse_verb(s: &str) -> (r: Option<Verb>)
    ensures
        r == verb_of(s@),
{
    if same(s, "sink") {
        Some(Verb::Sink)
    } else if same(s, "source") {
        Some(Verb::Source)
    } else if same(s, "cp") {
        Some(Verb::Cp)
    } else if same(s, "-h") || same(s, "--help") || same(s, "help") {
        Some(Verb::Help)
    } else {
        None
    }
}

/// The key of the environment, if it holds one that can be read.
pub open spec fn env_key_of(env: Option<Seq<char>>) -> Option<Seq<u8>> {
    match env {
        Some(s) => match key_of(s) {
            Ok(k) => Some(k),
            Err(_) => None,
        },
        None => None,
    }
}

pub fn env_key(env: Option<&str>) -> (r: Option<[u8; 32]>)
    ensures
        opt_bytes(r) == env_key_of(opt_str(env)),
{
    match env {
        Some(s) => match parse_key(s) {
            Ok(k) => Some(k),
            Err(_) => None,
        },
        None => None,
    }
}

/// The key to use: that of the flags, else that of the environment.
pub open spec fn chosen_key(f: FlagValues, env: Option<Seq<char>>) -> Option<Seq<u8>> {
    if f.key is Some {
        f.key
    } else {
        env_key_of(env)
    }
}

fn choose_key(f: &Flags, env: Option<&str>) -> (r: Option<[u8; 32]>)
    ensures
        opt_bytes(r) == chosen_key(f@, opt_str(env)),
{
    match f.key {
        Some(k) => Some(k),
        None => env_key(env),
    }
}

/// Which side opens the connections.
pub enum Endpoint {
    Listen(String),
    Connect(String),
}

/// The endpoint that flags name, which is exactly one.
pub open spec fn names_endpoint(f: FlagValues, e: Endpoint) -> bool {
    match e {
        Endpoint::Listen(a) => f.listen == Some(a@) && f.addr is None,
        Endpoint::Connect(a) => f.addr == Some(a@) && f.listen is None,
    }
}

/// Flags that name an endpoint.
pub open spec fn one_endpoint(f: FlagValues) -> bool {
    f.listen is Some <==> f.addr is None
}

fn endpoint_of(f: &Flags) -> (r: Option<Endpoint>)
    ensures
        match r {
            Some(e) => names_endpoint(f@, e),
            None => !one_endpoint(f@),
        },
{
    match (&f.listen, &f.addr) {
        (Some(l), None) => Some(Endpoint::Listen(l.as_str().to_owned())),
        (None, Some(a)) => Some(Endpoint::Connect(a.as_str().to_owned())),
        _ => None,
    }
}

/// What a sink or a source is to do.
pub struct Job {
    /// The file to write or to read.
    pub file: String,
    pub endpoint: Endpoint,
    pub key: Option<[u8; 32]>,
    /// The payload is sealed: it was asked for, or there is a key.
    pub crypt: bool,
    pub flags: Flags,
}

/// `j` is what the flags `f` and the key of the environment ask for.
pub open spec fn is_job(
    j: Job,
    file: Option<Seq<char>>,
    f: FlagValues,
    key_env: Option<Seq<char>>,
) -> bool {
    &&& file == Some(j.file@)
    &&& names_endpoint(f, j.endpoint)
    &&& opt_bytes(j.key) == chosen_key(f, key_env)
    &&& j.crypt == (f.crypt || chosen_key(f, key_env) is Some)
    &&& j.flags@ == f
    &&& f.sound()
}

/// Why flags make no job, if they make none.
pub open spec fn job_refusal(
    file: Option<Seq<char>>,
    f: FlagValues,
    no_file: Seq<char>,
    no_endpoint: Seq<char>,
) -> Option<Seq<char>> {
    if file is None {
        Some(no_file)
    } else if !one_endpoint(f) {
        Some(no_endpoint)
    } else {
        None
    }
}

/// Reads the arguments of `sink`.
pub fn cmd_sink(
    args: &[String],
    port_range_env: Option<&str>,
    key_env: Option<&str>,
) -> (r: Result<Job, String>)
    ensures
        match flags_of(texts(args@), opt_str(port_range_env)) {
            Err(e) => r matches Err(x) && x@ == e,
            Ok(f) => match job_refusal(
                f.output,
                f,
                "sink needs -o FILE"@,
                "sink needs exactly one of -l ADDR or -a ADDR"@,
            ) {
                Some(e) => r matches Err(x) && x@ == e,
                None => r matches Ok(j) && is_job(j, f.output, f, opt_str(key_env)),
            },
        },
{
    let flags: Flags = parse_flags(args, port_range_env)?;
    let file: String = match &flags.output {
        Some(o) => o.as_str().to_owned(),
        None => return Err("sink needs -o FILE".to_owned()),
    };
    let endpoint: Endpoint = match endpoint_of(&flags) {
        Some(e) => e,
        None => return Err("sink needs exactly one of -l ADDR or -a ADDR".to_owned()),
    };
    let key: Option<[u8; 32]> = choose_key(&flags, key_env);
    let crypt: bool = flags.crypt || key.is_some();
    Ok(Job { file, endpoint, key, crypt, flags })
}

/// Reads the arguments of `source`.
pub fn cmd_source(
    args: &[String],
    port_range_env: Option<&str>,
    key_env: Option<&str>,
) -> (r: Result<Job, String>)
    ensures
        match flags_of(texts(args@), opt_str(port_range_env)) {
            Err(e) => r matches Err(x) && x@ == e,
            Ok(f) => match job_refusal(
                f.input,
                f,
                "source needs -i FILE"@,
                "source needs exactly one of -a ADDR or -l ADDR"@,
            ) {
                Some(e) => r matches Err(x) && x@ == e,
                None => r matches Ok(j) && is_job(j, f.input, f, opt_str(key_env)),
            },
        },
{
    let flags: Flags = parse_flags(args, port_range_env)?;
    let file: String = match &flags.input {
        Some(i) => i.as_str().to_owned(),
        None => return Err("source needs -i FILE".to_owned()),
    };
    let endpoint: Endpoint = match endpoint_of(&flags) {
        Some(e) => e,
        None => return Err("source needs exactly one of -a ADDR or -l ADDR".to_owned()),
    };
    let key: Option<[u8; 32]> = choose_key(&flags, key_env);
    let crypt: bool = flags.crypt || key.is_some();
    Ok(Job { file, endpoint, key, crypt, flags })
}

/// What `cp` is to do.
pub struct CpJob {
    /// From here to the remote host, or from there to here.
    pub push: bool,
    pub remote: String,
    pub rpath: String,
    pub local: String,
    /// Digest and sealing, which are on unless switched off.
    pub check: bool,
    pub crypt: bool,
    /// A key that is used in place of a fresh one.
    pub fixed_key: Option<[u8; 32]>,
    pub flags: Flags,
}

/// `j` copies between the local path and the remote spec that flags name.
pub open spec fn is_cp_job(
    j: CpJob,
    push: bool,
    local: Seq<char>,
    spec: (Seq<char>, Seq<char>),
    f: FlagValues,
    key_env: Option<Seq<char>>,
) -> bool {
    &&& j.push == push
    &&& j.local@ == local
    &&& j.remote@ == spec.0
    &&& j.rpath@ == spec.1
    &&& j.check == (f.check_set ==> f.check)
    &&& j.crypt == (f.crypt_set ==> f.crypt)
    &&& opt_bytes(j.fixed_key) == chosen_key(f, key_env)
    &&& j.flags@ == f
    &&& f.sound()
}

/// What `cp` makes of its flags: the direction, the local path and the parts of
/// the remote spec.
pub open spec fn cp_sides(f: FlagValues) -> Result<
    (bool, Seq<char>, (Seq<char>, Seq<char>)),
    Seq<char>,
> {
    if f.rest.len() != 2 {
        Err("cp needs SRC DEST"@)
    } else {
        let src = f.rest[0];
        let dest = f.rest[1];
        if is_remote(src) && is_remote(dest) {
            Err("remote→remote not supported"@)
        } else if !is_remote(src) && !is_remote(dest) {
            Err("cp needs one remote host:path side"@)
        } else if is_remote(dest) {
            match host_path(dest) {
                Err(e) => Err(e),
                Ok(p) => Ok((true, src, p)),
            }
        } else {
            match host_path(src) {
                Err(e) => Err(e),
                Ok(p) => Ok((false, dest, p)),
            }
        }
    }
}

/// What a job of `cp` takes from its arguments. The digest is on unless the last
/// of the switches for it turns it off, and so is the sealing. The two arguments
/// that are no flags are the source and the destination, one of them a local path
/// and the other the host and the path of the remote side with a colon between
/// them.
pub proof fn lemma_cp_job(
    args: Seq<Seq<char>>,
    env: Option<Seq<char>>,
    key_env: Option<Seq<char>>,
    f: FlagValues,
    c: (bool, Seq<char>, (Seq<char>, Seq<char>)),
    j: CpJob,
)
    requires
        flags_of(args, env) == Ok::<FlagValues, Seq<char>>(f),
        cp_sides(f) == Ok::<(bool, Seq<char>, (Seq<char>, Seq<char>)), Seq<char>>(c),
        is_cp_job(j, c.0, c.1, c.2, f, key_env),
    ensures
        j.check <==> last_switch(args, 0, "-c"@, "-C"@) != Some(false),
        j.crypt <==> last_switch(args, 0, "-e"@, "-E"@) != Some(false),
        others(args, 0).len() == 2,
        j.local@ == others(args, 0)[if j.push { 0 } else { 1 }],
        j.remote@ + seq![':'] + j.rpath@ == others(args, 0)[if j.push { 1 } else { 0 }],
        !is_remote(j.local@),
        is_remote(j.remote@ + seq![':'] + j.rpath@),
        match last_value(args, 0, "-k"@) {
            Some(t) => j.fixed_key is Some && key_of(t) == Ok::<Seq<u8>, Seq<char>>(
                j.fixed_key->0@,
            ),
            None => match key_env {
                Some(t) => match key_of(t) {
                    Ok(k) => j.fixed_key is Some && j.fixed_key->0@ == k,
                    Err(_) => j.fixed_key is None,
                },
                None => j.fixed_key is None,
            },
        },
        j.flags.reverse == given(args, 0, "-z"@),
        j.flags.recurse == given(args, 0, "-r"@),
        j.flags.resume == (given(args, 0, "-A"@) || last_value(args, 0, "-R"@) is Some),
        j.flags.preserve == (given(args, 0, "-p"@) || given(args, 0, "--preserve"@)),
        j.flags.json == given(args, 0, "-J"@),
{
    lemma_flag_switches(args, env, f);
    lemma_flag_texts(args, env, f);
    lemma_flag_numbers(args, env, f);
    lemma_host_path_parts(f.rest[0]);
    lemma_host_path_parts(f.rest[1]);
    assert(j.flags@ == f);
}

/// `cp` accepts its arguments if and only if their flags are accepted and there
/// are two others, of which one is remote, and parts into host and path, and one
/// is not.
pub proof fn lemma_cp_accepts(args: Seq<Seq<char>>, env: Option<Seq<char>>)
    requires
        flags_of(args, env) is Ok,
    ensures
        cp_sides(flags_of(args, env)->Ok_0) is Ok <==> {
            let o = others(args, 0);
            o.len() == 2 && ((!is_remote(o[0]) && is_remote(o[1]) && host_path(o[1]) is Ok) || (
            is_remote(o[0]) && !is_remote(o[1]) && host_path(o[0]) is Ok))
        },
{
    lemma_flag_texts(args, env, flags_of(args, env)->Ok_0);
}

/// A job of a sink or a source takes its file, its endpoint and its key from the
/// flags for them, and seals if the last switch for it says so or if there is a
/// key.
pub proof fn lemma_job(
    args: Seq<Seq<char>>,
    env: Option<Seq<char>>,
    key_env: Option<Seq<char>>,
    f: FlagValues,
    file: Option<Seq<char>>,
    j: Job,
)
    requires
        flags_of(args, env) == Ok::<FlagValues, Seq<char>>(f),
        is_job(j, file, f, key_env),
    ensures
        file == Some(j.file@),
        f.output == last_value(args, 0, "-o"@),
        f.input == last_value(args, 0, "-i"@),
        match j.endpoint {
            Endpoint::Listen(a) => last_value(args, 0, "-l"@) == Some(a@) && last_value(
                args,
                0,
                "-a"@,
            ) is None,
            Endpoint::Connect(a) => last_value(args, 0, "-a"@) == Some(a@) && last_value(
                args,
                0,
                "-l"@,
            ) is None,
        },
        match last_value(args, 0, "-k"@) {
            Some(t) => j.key is Some && key_of(t) == Ok::<Seq<u8>, Seq<char>>(j.key->0@),
            None => match key_env {
                Some(t) => match key_of(t) {
                    Ok(k) => j.key is Some && j.key->0@ == k,
                    Err(_) => j.key is None,
                },
                None => j.key is None,
            },
        },
        j.crypt == (last_switch(args, 0, "-e"@, "-E"@) == Some(true) || j.key is Some),
        j.flags.check == (last_switch(args, 0, "-c"@, "-C"@) == Some(true)),
        j.flags.resume == (given(args, 0, "-A"@) || last_value(args, 0, "-R"@) is Some),
{
    lemma_flag_switches(args, env, f);
    lemma_flag_texts(args, env, f);
    lemma_flag_numbers(args, env, f);
    assert(j.flags@ == f);
}

/// Nothing but a missing file or an endpoint that is missing or named twice
/// makes flags that are accepted no job.
pub proof fn lemma_job_refusals(
    file: Option<Seq<char>>,
    f: FlagValues,
    no_file: Seq<char>,
    no_endpoint: Seq<char>,
)
    ensures
        job_refusal(file, f, no_file, no_endpoint) is None <==> file is Some && (f.listen is Some)
            != (f.addr is Some),
{
}

/// Reads the arguments of `cp`.
pub fn cmd_cp(
    args: &[String],
    port_range_env: Option<&str>,
    key_env: Option<&str>,
) -> (r: Result<CpJob, String>)
    ensures
        r matches Ok(j) ==> (j.check <==> last_switch(texts(args@), 0, "-c"@, "-C"@) != Some(false)),
        r matches Ok(j) ==> (j.crypt <==> last_switch(texts(args@), 0, "-e"@, "-E"@) != Some(false)),
        r matches Ok(j) ==> {
            let o = others(texts(args@), 0);
            &&& o.len() == 2
            &&& j.local@ == o[if j.push { 0 } else { 1 }]
            &&& j.remote@ + seq![':'] + j.rpath@ == o[if j.push { 1 } else { 0 }]
        },
        r is Ok ==> acceptable(texts(args@), 0),
        match flags_of(texts(args@), opt_str(port_range_env)) {
            Err(e) => r matches Err(x) && x@ == e,
            Ok(f) => match cp_sides(f) {
                Err(e) => r matches Err(x) && x@ == e,
                Ok(c) => r matches Ok(j) && is_cp_job(j, c.0, c.1, c.2, f, opt_str(key_env)),
            },
        },
{
    let flags: Flags = parse_flags(args, port_range_env)?;
    proof {
        let all = texts(args@);
        let env = opt_str(port_range_env);
        lemma_flag_switches(all, env, flags@);
        lemma_flag_texts(all, env, flags@);
        lemma_flags_accepted(all, env);
    }
    assert(texts(flags.rest@).len() == flags.rest@.len());
    if flags.rest.len() != 2 {
        return Err("cp needs SRC DEST".to_owned());
    }
    assert(texts(flags.rest@)[0] == flags.rest@[0]@);
    assert(texts(flags.rest@)[1] == flags.rest@[1]@);
    let src: &str = flags.rest[0].as_str();
    let dest: &str = flags.rest[1].as_str();
    let check: bool = if flags.check_set {
        flags.check
    } else {
        true
    };
    let crypt: bool = if flags.crypt_set {
        flags.crypt
    } else {
        true
    };
    let fixed_key: Option<[u8; 32]> = choose_key(&flags, key_env);
    match (is_remote_spec(src), is_remote_spec(dest)) {
        (false, true) => {
            let (h, p) = split_host_path(dest)?;
            let (remote, rpath) = (h.to_owned(), p.to_owned());
            let local: String = src.to_owned();
            Ok(CpJob { push: true, remote, rpath, local, check, crypt, fixed_key, flags })
        },
        (true, false) => {
            let (h, p) = split_host_path(src)?;
            let (remote, rpath) = (h.to_owned(), p.to_owned());
            let local: String = dest.to_owned();
            Ok(CpJob { push: false, remote, rpath, local, check, crypt, fixed_key, flags })
        },
        (false, false) => Err("cp needs one remote host:path side".to_owned()),
        (true, true) => Err("remote→remote not supported".to_owned()),
    }
}

} // verus!
