//! What the commands of a copy tell its agents, setting by setting.

use crate::agents::{
    dialer_words, file_flag, how_words, lemma_dialer_settings, lemma_dialer_words, lemma_how_words,
    lemma_listener_settings, lemma_listener_words, listener_words, offset_words, resume_words,
    shared_words, spaced, z_words,
};
use crate::flags::{flags_of, FlagValues};
use crate::remote::{
    dialer_text, key_env_text, listener_text, offset_text, resume_text, shared_text, AgentOptions,
};
use crate::shell::quoted_word;
use crate::wire::hex_text;
use vstd::prelude::*;

verus! {

/// Words, some of them in quotes.
pub open spec fn in_quotes(quoted: Seq<Seq<char>>, args: Seq<Seq<char>>) -> bool {
    &&& quoted.len() == args.len()
    &&& forall|i: int|
        0 <= i < args.len() ==> #[trigger] quoted[i] == args[i] || quoted[i] == quoted_word(args[i])
}

/// A command that runs `bin` with a verb and with arguments that are read as `f`.
#[verifier::opaque]
pub open spec fn runs(command: Seq<char>, bin: Seq<char>, verb: Seq<char>, f: FlagValues) -> bool {
    exists|quoted: Seq<Seq<char>>, args: Seq<Seq<char>>| #[trigger]
        in_quotes(quoted, args) && command == quoted_word(bin) + spaced(seq![verb] + quoted)
            && flags_of(args, None) == Ok::<FlagValues, Seq<char>>(f)
}

/// The flags that an agent reads are the settings of its copy and no others.
pub open spec fn settled(f: FlagValues, o: AgentOptions) -> bool {
    &&& f.streams == o.streams && f.wnd == o.wnd
    &&& f.check == o.check && f.check_set
    &&& f.crypt == o.crypt && f.crypt_set
    &&& f.preserve == o.preserve
    &&& f.rate_limit == o.rate
    &&& f.key is None
    &&& f.rest.len() == 0
    &&& !f.reverse && !f.recurse && !f.json && f.progress == 0
}

proof fn lemma_verbs()
    ensures
        " sink"@ == seq![' '] + "sink"@,
        " source"@ == seq![' '] + "source"@,
        " -o "@ == seq![' '] + "-o"@ + seq![' '],
        " -i "@ == seq![' '] + "-i"@ + seq![' '],
{
    reveal_strlit(" sink");
    reveal_strlit("sink");
    reveal_strlit(" source");
    reveal_strlit("source");
    reveal_strlit(" -o ");
    reveal_strlit("-o");
    reveal_strlit(" -i ");
    reveal_strlit("-i");
    assert(" sink"@ =~= seq![' '] + "sink"@);
    assert(" source"@ =~= seq![' '] + "source"@);
    assert(" -o "@ =~= seq![' '] + "-o"@ + seq![' ']);
    assert(" -i "@ =~= seq![' '] + "-i"@ + seq![' ']);
}

proof fn lemma_listener_quoted(
    range: Option<(u16, u16)>,
    flag: Seq<char>,
    path: Seq<char>,
    sh: Seq<Seq<char>>,
)
    ensures
        in_quotes(
            listener_words(range, flag, quoted_word(path), sh),
            listener_words(range, flag, path, sh),
        ),
{
    let a = listener_words(range, flag, path, sh);
    let q = listener_words(range, flag, quoted_word(path), sh);
    let z = z_words(range);
    assert(q.len() == a.len());
    assert forall|i: int| 0 <= i < a.len() implies #[trigger] q[i] == a[i] || q[i] == quoted_word(
        a[i],
    ) by {
        if i == 3 + z.len() {
            assert(a[i] == path && q[i] == quoted_word(path));
        } else {
            assert(q[i] == a[i]);
        }
    }
}

proof fn lemma_dialer_quoted(
    addr: Seq<char>,
    flag: Seq<char>,
    path: Seq<char>,
    sh: Seq<Seq<char>>,
)
    ensures
        in_quotes(
            dialer_words(quoted_word(addr), flag, quoted_word(path), sh),
            dialer_words(addr, flag, path, sh),
        ),
{
    let a = dialer_words(addr, flag, path, sh);
    let q = dialer_words(quoted_word(addr), flag, quoted_word(path), sh);
    assert(q.len() == a.len());
    assert forall|i: int| 0 <= i < a.len() implies #[trigger] q[i] == a[i] || q[i] == quoted_word(
        a[i],
    ) by {
        if i == 1 {
            assert(a[i] == addr && q[i] == quoted_word(addr));
        } else if i == 3 {
            assert(a[i] == path && q[i] == quoted_word(path));
        } else {
            assert(q[i] == a[i]);
        }
    }
}

/// The sink of a push, which listens, is told where the file goes, its ports,
/// whether to resume, and the settings of the copy.
pub proof fn lemma_sink_listens(
    bin: Seq<char>,
    range: Option<(u16, u16)>,
    path: Seq<char>,
    o: AgentOptions,
    resume: bool,
)
    requires
        0 < o.streams <= 64,
        o.rate <= usize::MAX,
        range matches Some(r) ==> 1 <= r.0 <= r.1,
    ensures
        exists|f: FlagValues| #[trigger]
            runs(
                listener_text(
                    bin,
                    " sink"@,
                    range,
                    " -o "@,
                    path,
                    shared_text(o, resume_text(resume)),
                ),
                bin,
                "sink"@,
                f,
            ) && settled(f, o) && f.output == Some(path) && f.input is None && f.listen == Some(
                "0.0.0.0:0"@,
            ) && f.addr is None && f.port_range == range && f.resume == resume && f.resume_from
                == 0,
{
    let how = resume_words(resume);
    let sh = shared_words(o, how);
    reveal(runs);
    lemma_verbs();
    lemma_how_words(resume, 0);
    assert(how == how_words(false, resume, 0));
    lemma_listener_words(bin, "sink"@, range, "-o"@, path, o, how);
    lemma_listener_settings(o, false, range, path, resume, 0);
    lemma_listener_quoted(range, "-o"@, path, sh);
    let f = flags_of(listener_words(range, file_flag(false), path, sh), None)->Ok_0;
    assert(runs(
        listener_text(bin, " sink"@, range, " -o "@, path, shared_text(o, resume_text(resume))),
        bin,
        "sink"@,
        f,
    ));
}

/// The source of a reversed pull, which listens, is told the file, its ports, from
/// where to go on, and the settings of the copy.
pub proof fn lemma_source_listens(
    bin: Seq<char>,
    range: Option<(u16, u16)>,
    path: Seq<char>,
    o: AgentOptions,
    resume: bool,
    have: u64,
)
    requires
        0 < o.streams <= 64,
        o.rate <= usize::MAX,
        range matches Some(r) ==> 1 <= r.0 <= r.1,
    ensures
        exists|f: FlagValues| #[trigger]
            runs(
                listener_text(
                    bin,
                    " source"@,
                    range,
                    " -i "@,
                    path,
                    shared_text(o, offset_text(resume, have)),
                ),
                bin,
                "source"@,
                f,
            ) && settled(f, o) && f.input == Some(path) && f.output is None && f.listen == Some(
                "0.0.0.0:0"@,
            ) && f.addr is None && f.port_range == range && f.resume_from == if resume {
                have
            } else {
                0
            },
{
    let how = offset_words(resume, have);
    let sh = shared_words(o, how);
    reveal(runs);
    lemma_verbs();
    lemma_how_words(resume, have);
    assert(how == how_words(true, resume, have));
    lemma_listener_words(bin, "source"@, range, "-i"@, path, o, how);
    lemma_listener_settings(o, true, range, path, resume, have);
    lemma_listener_quoted(range, "-i"@, path, sh);
    let f = flags_of(listener_words(range, file_flag(true), path, sh), None)->Ok_0;
    assert(runs(
        listener_text(
            bin,
            " source"@,
            range,
            " -i "@,
            path,
            shared_text(o, offset_text(resume, have)),
        ),
        bin,
        "source"@,
        f,
    ));
}

/// The sink of a reversed push, which dials, is told whom, where the file goes,
/// whether to resume, and the settings of the copy.
pub proof fn lemma_sink_dials(
    bin: Seq<char>,
    addr: Seq<char>,
    path: Seq<char>,
    o: AgentOptions,
    resume: bool,
)
    requires
        0 < o.streams <= 64,
        o.rate <= usize::MAX,
    ensures
        exists|f: FlagValues| #[trigger]
            runs(
                dialer_text(bin, " sink"@, addr, " -o "@, path, shared_text(o, resume_text(resume))),
                bin,
                "sink"@,
                f,
            ) && settled(f, o) && f.output == Some(path) && f.input is None && f.addr == Some(addr)
                && f.listen is None && f.port_range is None && f.resume == resume && f.resume_from
                == 0,
{
    let how = resume_words(resume);
    let sh = shared_words(o, how);
    reveal(runs);
    lemma_verbs();
    lemma_how_words(resume, 0);
    assert(how == how_words(false, resume, 0));
    lemma_dialer_words(bin, "sink"@, addr, "-o"@, path, o, how);
    lemma_dialer_settings(o, false, addr, path, resume, 0);
    lemma_dialer_quoted(addr, "-o"@, path, sh);
    let f = flags_of(dialer_words(addr, file_flag(false), path, sh), None)->Ok_0;
    assert(runs(
        dialer_text(bin, " sink"@, addr, " -o "@, path, shared_text(o, resume_text(resume))),
        bin,
        "sink"@,
        f,
    ));
}

/// The source of a pull, which dials, is told whom, the file, from where to go on,
/// and the settings of the copy.
pub proof fn lemma_source_dials(
    bin: Seq<char>,
    addr: Seq<char>,
    path: Seq<char>,
    o: AgentOptions,
    resume: bool,
    have: u64,
)
    requires
        0 < o.streams <= 64,
        o.rate <= usize::MAX,
    ensures
        exists|f: FlagValues| #[trigger]
            runs(
                dialer_text(
                    bin,
                    " source"@,
                    addr,
                    " -i "@,
                    path,
                    shared_text(o, offset_text(resume, have)),
                ),
                bin,
                "source"@,
                f,
            ) && settled(f, o) && f.input == Some(path) && f.output is None && f.addr == Some(addr)
                && f.listen is None && f.port_range is None && f.resume_from == if resume {
                have
            } else {
                0
            },
{
    let how = offset_words(resume, have);
    let sh = shared_words(o, how);
    reveal(runs);
    lemma_verbs();
    lemma_how_words(resume, have);
    assert(how == how_words(true, resume, have));
    lemma_dialer_words(bin, "source"@, addr, "-i"@, path, o, how);
    lemma_dialer_settings(o, true, addr, path, resume, have);
    lemma_dialer_quoted(addr, "-i"@, path, sh);
    let f = flags_of(dialer_words(addr, file_flag(true), path, sh), None)->Ok_0;
    assert(runs(
        dialer_text(bin, " source"@, addr, " -i "@, path, shared_text(o, offset_text(resume, have))),
        bin,
        "source"@,
        f,
    ));
}

/// A key is handed on in the environment, in hex, and where there is none nothing
/// stands before the command.
pub proof fn lemma_key_handed(key: Option<Seq<u8>>)
    ensures
        key is None ==> key_env_text(key).len() == 0,
        key is Some ==> key_env_text(key) == "BBX_KEY="@ + hex_text(key->0) + " "@,
{
    reveal_strlit("");
}

} // verus!
