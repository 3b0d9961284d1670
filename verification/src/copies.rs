//! Copies between this host and a remote one, step by step.

use crate::banner::Banner;
use crate::command_laws::{
    lemma_sink_dials, lemma_sink_listens, lemma_source_dials, lemma_source_listens, runs, settled,
};
use crate::control::opt_bytes;
use crate::flags::FlagValues;
use crate::jobs::CpJob;
use crate::order::{covers, in_order};
use crate::paths::{host_part, join_remote, joined};
use crate::remote::{
    dial_addr, dialer_text, key_env_text, key_view, listener_text, offset_text, pull_forward_command,
    pull_reverse_command, push_forward_command, push_reverse_command, resume_text, shared_text,
    AgentOptions,
};
use crate::session::banner_session_key;
use crate::text::{dec, texts};
use crate::tree::{
    check_tree, mkdir_command, mkdir_text, names_in, needed_dirs, rel_texts, rels, remote_dirs,
    remote_list_files, walk_local_files, Direction, LocalFile,
};
use vstd::prelude::*;

verus! {

/// One file of a copy.
pub struct OneCopy<'a> {
    /// The program on the remote host.
    pub bin: &'a str,
    pub job: &'a CpJob,
    /// The file on the remote host.
    pub rpath: &'a str,
    pub streams: usize,
}

/// The settings that the agent of a copy is started with.
pub open spec fn agent_options(c: OneCopy) -> AgentOptions {
    AgentOptions {
        streams: c.streams,
        wnd: c.job.flags.wnd,
        check: c.job.check,
        crypt: c.job.crypt,
        preserve: c.job.flags.preserve,
        rate: c.job.flags.rate_limit,
    }
}

fn options(c: &OneCopy) -> (o: AgentOptions)
    ensures
        o == agent_options(*c),
{
    AgentOptions {
        streams: c.streams,
        wnd: c.job.flags.wnd,
        check: c.job.check,
        crypt: c.job.crypt,
        preserve: c.job.flags.preserve,
        rate: c.job.flags.rate_limit,
    }
}

/// The key that the source of a reversed pull is handed.
pub open spec fn handed_key(job: CpJob) -> Option<Seq<u8>> {
    if job.crypt {
        opt_bytes(job.fixed_key)
    } else {
        None
    }
}

/// Ports that can be asked for.
pub open spec fn real_ports(range: Option<(u16, u16)>) -> bool {
    range matches Some(p) ==> 1 <= p.0 <= p.1
}

/// An agent that listens, and what its banner must hold.
pub struct ListeningAgent {
    pub command: String,
    pub expect_key: bool,
    pub expect_resume: bool,
}

/// Starts the sink of a push, which listens.
pub fn cp_push_forward(c: &OneCopy) -> (r: ListeningAgent)
    ensures
        r.command@ == listener_text(
            c.bin@,
            " sink"@,
            c.job.flags.port_range,
            " -o "@,
            c.rpath@,
            shared_text(agent_options(*c), resume_text(c.job.flags.resume)),
        ),
        r.expect_key == c.job.crypt,
        r.expect_resume == c.job.flags.resume,
        0 < c.streams <= 64 && c.job.flags.rate_limit <= usize::MAX && real_ports(
            c.job.flags.port_range,
        ) ==> exists|f: FlagValues| #[trigger]
            runs(r.command@, c.bin@, "sink"@, f)
                && f.streams == c.streams
                && f.wnd == c.job.flags.wnd
                && f.check == c.job.check
                && f.crypt == c.job.crypt
                && f.preserve == c.job.flags.preserve
                && f.rate_limit == c.job.flags.rate_limit
                && f.key is None
                && f.rest.len() == 0
                && f.output == Some(c.rpath@)
                && f.listen is Some
                && f.addr is None
                && f.port_range == c.job.flags.port_range
                && f.resume == c.job.flags.resume,
{
    let f = &c.job.flags;
    let command: String = push_forward_command(c.bin, c.rpath, f.port_range, f.resume, &options(c));
    proof {
        let o = agent_options(*c);
        assert(0 < c.streams <= 64 && c.job.flags.rate_limit <= usize::MAX && real_ports(
            c.job.flags.port_range,
        ) ==> exists|v: FlagValues| #[trigger]
            runs(command@, c.bin@, "sink"@, v) && settled(v, o) && v.output == Some(c.rpath@)
                && v.listen is Some && v.addr is None && v.port_range == f.port_range && v.resume
                == f.resume) by {
            if 0 < c.streams <= 64 && c.job.flags.rate_limit <= usize::MAX && real_ports(
                c.job.flags.port_range,
            ) {
                lemma_sink_listens(c.bin@, f.port_range, c.rpath@, o, f.resume);
            }
        }
    }
    ListeningAgent { command, expect_key: c.job.crypt, expect_resume: f.resume }
}

/// Starts the source of a reversed pull, which listens. `have` is the length of
/// the local file.
pub fn cp_pull_reverse(c: &OneCopy, have: u64) -> (r: ListeningAgent)
    ensures
        r.command@ == key_env_text(
            if c.job.crypt {
                opt_bytes(c.job.fixed_key)
            } else {
                None
            },
        ) + listener_text(
            c.bin@,
            " source"@,
            c.job.flags.port_range,
            " -i "@,
            c.rpath@,
            shared_text(agent_options(*c), offset_text(c.job.flags.resume, have)),
        ),
        r.expect_key == c.job.crypt,
        !r.expect_resume,
        ({
            let k = key_env_text(handed_key(*c.job));
            let t = r.command@.skip(k.len() as int);
            0 < c.streams <= 64 && c.job.flags.rate_limit <= usize::MAX && real_ports(
                c.job.flags.port_range,
            ) ==> exists|f: FlagValues| #[trigger]
                runs(t, c.bin@, "source"@, f)
                    && f.streams == c.streams
                    && f.wnd == c.job.flags.wnd
                    && f.check == c.job.check
                    && f.crypt == c.job.crypt
                    && f.preserve == c.job.flags.preserve
                    && f.rate_limit == c.job.flags.rate_limit
                    && f.key is None
                    && f.rest.len() == 0
                    && f.input == Some(c.rpath@)
                    && f.listen is Some
                    && f.addr is None
                    && f.port_range == c.job.flags.port_range
                    && f.resume_from == if c.job.flags.resume {
                        have
                    } else {
                        0
                    }
        }),
{
    let f = &c.job.flags;
    let command: String = pull_reverse_command(
        c.bin,
        c.rpath,
        f.port_range,
        c.job.fixed_key.as_ref(),
        f.resume,
        have,
        &options(c),
    );
    proof {
        let o = agent_options(*c);
        let t = listener_text(
            c.bin@,
            " source"@,
            f.port_range,
            " -i "@,
            c.rpath@,
            shared_text(o, offset_text(f.resume, have)),
        );
        let k = key_env_text(handed_key(*c.job));
        assert((k + t).skip(k.len() as int) =~= t);
        assert(command@.skip(k.len() as int) == t);
        assert(0 < c.streams <= 64 && c.job.flags.rate_limit <= usize::MAX && real_ports(
            c.job.flags.port_range,
        ) ==> exists|v: FlagValues| #[trigger]
            runs(command@.skip(k.len() as int), c.bin@, "source"@, v) && settled(v, o) && v.input
                == Some(c.rpath@) && v.listen is Some && v.addr is None && v.port_range == f.port_range
                && v.resume_from == if f.resume {
                have
            } else {
                0
            }) by {
            if 0 < c.streams <= 64 && c.job.flags.rate_limit <= usize::MAX && real_ports(
                c.job.flags.port_range,
            ) {
                lemma_source_listens(c.bin@, f.port_range, c.rpath@, o, f.resume, have);
            }
        }
    }
    ListeningAgent { command, expect_key: c.job.crypt, expect_resume: false }
}

/// Where to dial a listening agent, and with which key.
pub struct Dial {
    pub addr: String,
    pub key: Option<[u8; 32]>,
}

/// Settles address and key from the banner of a listening agent. A fixed key
/// goes before the one of the banner.
pub fn dial_agent(job: &CpJob, banner: &Banner) -> (r: Result<Dial, String>)
    ensures
        match r {
            Ok(d) => {
                &&& d.addr@ == host_part(job.remote@) + ":"@ + dec(banner.port as nat)
                &&& d.key == if !job.crypt {
                    None
                } else if job.fixed_key is Some {
                    job.fixed_key
                } else {
                    banner.key
                }
                &&& job.crypt ==> d.key is Some
            },
            Err(e) => job.crypt && job.fixed_key is None && banner.key is None && e@
                == "encrypt: no session key from peer"@,
        },
{
    let key: Option<[u8; 32]> = banner_session_key(job.crypt, job.fixed_key, banner.key)?;
    Ok(Dial { addr: dial_addr(job.remote.as_str(), banner.port), key })
}

/// Starts the sink of a reversed push, which dials `addr` with `key`.
pub fn cp_push_reverse(c: &OneCopy, addr: &str, key: Option<&[u8; 32]>) -> (r: String)
    ensures
        r@ == key_env_text(key_view(key)) + dialer_text(
            c.bin@,
            " sink"@,
            addr@,
            " -o "@,
            c.rpath@,
            shared_text(agent_options(*c), resume_text(c.job.flags.resume)),
        ),
        0 < c.streams <= 64 && c.job.flags.rate_limit <= usize::MAX ==> exists|f: FlagValues| #[trigger]
            runs(r@.skip(key_env_text(key_view(key)).len() as int), c.bin@, "sink"@, f)
                && f.streams == c.streams
                && f.wnd == c.job.flags.wnd
                && f.check == c.job.check
                && f.crypt == c.job.crypt
                && f.preserve == c.job.flags.preserve
                && f.rate_limit == c.job.flags.rate_limit
                && f.key is None
                && f.rest.len() == 0
                && f.output == Some(c.rpath@)
                && f.addr == Some(addr@)
                && f.listen is None
                && f.resume == c.job.flags.resume,
{
    proof {
        let o = agent_options(*c);
        let f = c.job.flags;
        if 0 < o.streams <= 64 && o.rate <= usize::MAX {
            lemma_sink_dials(c.bin@, addr@, c.rpath@, o, f.resume);
        }
        let t = dialer_text(
            c.bin@,
            " sink"@,
            addr@,
            " -o "@,
            c.rpath@,
            shared_text(o, resume_text(f.resume)),
        );
        let k = key_env_text(key_view(key));
        assert((k + t).skip(k.len() as int) =~= t);
    }
    push_reverse_command(c.bin, addr, c.rpath, key, c.job.flags.resume, &options(c))
}

/// Starts the source of a pull, which dials `addr` with `key`. `have` is the
/// length of the local file.
pub fn cp_pull_forward(c: &OneCopy, addr: &str, key: Option<&[u8; 32]>, have: u64) -> (r: String)
    ensures
        r@ == key_env_text(key_view(key)) + dialer_text(
            c.bin@,
            " source"@,
            addr@,
            " -i "@,
            c.rpath@,
            shared_text(agent_options(*c), offset_text(c.job.flags.resume, have)),
        ),
        0 < c.streams <= 64 && c.job.flags.rate_limit <= usize::MAX ==> exists|f: FlagValues| #[trigger]
            runs(r@.skip(key_env_text(key_view(key)).len() as int), c.bin@, "source"@, f)
                && f.streams == c.streams
                && f.wnd == c.job.flags.wnd
                && f.check == c.job.check
                && f.crypt == c.job.crypt
                && f.preserve == c.job.flags.preserve
                && f.rate_limit == c.job.flags.rate_limit
                && f.key is None
                && f.rest.len() == 0
                && f.input == Some(c.rpath@)
                && f.addr == Some(addr@)
                && f.listen is None
                && f.resume_from == if c.job.flags.resume {
                    have
                } else {
                    0
                },
{
    proof {
        let o = agent_options(*c);
        let f = c.job.flags;
        if 0 < o.streams <= 64 && o.rate <= usize::MAX {
            lemma_source_dials(c.bin@, addr@, c.rpath@, o, f.resume, have);
        }
        let t = dialer_text(
            c.bin@,
            " source"@,
            addr@,
            " -i "@,
            c.rpath@,
            shared_text(o, offset_text(f.resume, have)),
        );
        let k = key_env_text(key_view(key));
        assert((k + t).skip(k.len() as int) =~= t);
    }
    pull_forward_command(c.bin, addr, c.rpath, key, c.job.flags.resume, have, &options(c))
}

/// A tree to push.
pub struct PushTree {
    pub files: Vec<LocalFile>,
    /// Where each file goes on the remote host.
    pub remote_files: Vec<String>,
    /// The command that makes the remote directories.
    pub mkdir: Option<String>,
}

/// Plans the push of a tree to the remote directory `rpath`. `found` lists the
/// files below the root as they were met.
pub fn cp_push_tree(rpath: &str, root_is_dir: bool, found: &Vec<LocalFile>) -> (r: Result<
    PushTree,
    String,
>)
    ensures
        match r {
            Err(e) => {
                ||| !root_is_dir && e@ == " -r needs a source directory"@
                ||| root_is_dir && found@.len() == 0 && e@ == "no files under source directory"@
            },
            Ok(t) => {
                &&& root_is_dir && found@.len() > 0
                &&& exists|o: Seq<usize>| #[trigger]
                    in_order(rels(found@), o) && covers(o, 0, found@.len() as int) && o.len()
                        == found@.len() && t.files@.len() == o.len() && forall|k: int|
                        0 <= k < t.files@.len() ==> (#[trigger] t.files@[k]).rel@ == rels(
                            found@,
                        )[o[k] as int] && t.files@[k].path@ == found@[o[k] as int].path@
                &&& t.remote_files@.len() == t.files@.len()
                &&& forall|k: int|
                    0 <= k < t.files@.len() ==> (#[trigger] t.remote_files@[k])@ == joined(
                        rpath@,
                        t.files@[k].rel@,
                    )
                &&& ({
                    let dirs = needed_dirs(
                        rpath@,
                        rel_texts(t.files@),
                        t.files@.len() as int,
                    );
                    match t.mkdir {
                        Some(c) => c@ == mkdir_text(dirs, dirs.len() as int) && exists|i: int|
                            0 <= i < dirs.len() && (#[trigger] dirs[i]).len() > 0,
                        None => forall|i: int|
                            0 <= i < dirs.len() ==> (#[trigger] dirs[i]).len() == 0,
                    }
                })
            },
        },
{
    let files: Vec<LocalFile> = walk_local_files(root_is_dir, found)?;
    check_tree(&Direction::Push, files.len())?;
    let dirs: Vec<String> = remote_dirs(rpath, &files);
    assert(texts(dirs@).len() == dirs@.len());
    let mkdir: Option<String> = mkdir_command(&dirs);
    let mut remote_files: Vec<String> = Vec::new();
    let mut i: usize = 0;
    while i < files.len()
        invariant
            i <= files.len(),
            remote_files@.len() == i,
            forall|k: int|
                0 <= k < i ==> (#[trigger] remote_files@[k])@ == joined(rpath@, files@[k].rel@),
        decreases files.len() - i,
    {
        remote_files.push(join_remote(rpath, files[i].rel.as_str()));
        i += 1;
    }
    Ok(PushTree { files, remote_files, mkdir })
}

/// The files of a tree to pull, from the listing of the remote directory.
pub fn cp_pull_tree(out: &str) -> (r: Result<Vec<String>, String>)
    ensures
        match r {
            Err(e) => names_in(out@).len() == 0 && e@
                == "no remote files found (need GNU find -printf or plain find)"@,
            Ok(v) => names_in(out@).len() > 0 && exists|o: Seq<usize>| #[trigger]
                in_order(names_in(out@), o) && covers(o, 0, names_in(out@).len() as int) && o.len()
                    == names_in(out@).len() && v@.len() == o.len() && forall|k: int|
                    0 <= k < v@.len() ==> (#[trigger] v@[k])@ == names_in(out@)[o[k] as int],
        },
{
    let files: Vec<String> = remote_list_files(out);
    check_tree(&Direction::Pull, files.len())?;
    Ok(files)
}

} // verus!
