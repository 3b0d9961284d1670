//! An agent works under the settings of the copy that starts it.

use crate::control::MAX_STREAMS;
use crate::flags::{
    default_flags, flag_step, flags_from, flags_of, port_range_of, size_of_text, takes_value, unit,
    with_switch, with_value, FlagValues,
};
use crate::flag_laws::lemma_flag_letters;
use crate::remote::{
    ce_text, dialer_text, listener_text, offset_text, preserve_text, rate_text, resume_text,
    shared_text, z_text, AgentOptions,
};
use crate::shell::quoted_word;
use crate::text::{
    dec, is_digit, is_space, lemma_dec_plain, lemma_find_here, lemma_number_dec,
    lemma_plain_trimmed, number,
};
use vstd::prelude::*;

verus! {

pub open spec fn z_words(range: Option<(u16, u16)>) -> Seq<Seq<char>> {
    match range {
        Some(r) => seq!["-Z"@, dec(r.0 as nat) + "-"@ + dec(r.1 as nat)],
        None => Seq::empty(),
    }
}

pub open spec fn resume_words(resume: bool) -> Seq<Seq<char>> {
    if resume {
        seq!["-A"@]
    } else {
        Seq::empty()
    }
}

pub open spec fn offset_words(resume: bool, have: u64) -> Seq<Seq<char>> {
    if resume && have > 0 {
        seq!["-R"@, dec(have as nat)]
    } else {
        Seq::empty()
    }
}

pub open spec fn preserve_words(preserve: bool) -> Seq<Seq<char>> {
    if preserve {
        seq!["--preserve"@]
    } else {
        Seq::empty()
    }
}

pub open spec fn rate_words(rate: u64) -> Seq<Seq<char>> {
    if rate > 0 {
        seq!["-x"@, dec(rate as nat)]
    } else {
        Seq::empty()
    }
}

/// The words of the flags that every agent gets.
pub open spec fn shared_words(o: AgentOptions, how: Seq<Seq<char>>) -> Seq<Seq<char>> {
    seq!["-s"@, dec(o.streams as nat)] + (seq!["-w"@, dec(o.wnd as nat)] + (seq![
        if o.check {
            "-c"@
        } else {
            "-C"@
        },
    ] + (seq![
        if o.crypt {
            "-e"@
        } else {
            "-E"@
        },
    ] + (how + (preserve_words(o.preserve) + rate_words(o.rate))))))
}

/// The arguments of an agent that listens.
pub open spec fn listener_words(
    range: Option<(u16, u16)>,
    file_flag: Seq<char>,
    path: Seq<char>,
    shared: Seq<Seq<char>>,
) -> Seq<Seq<char>> {
    seq!["-l"@, "0.0.0.0:0"@] + (z_words(range) + (seq![file_flag, path] + shared))
}

/// The arguments of an agent that dials.
pub open spec fn dialer_words(
    addr: Seq<char>,
    file_flag: Seq<char>,
    path: Seq<char>,
    shared: Seq<Seq<char>>,
) -> Seq<Seq<char>> {
    seq!["-a"@, addr] + (seq![file_flag, path] + shared)
}

/// Words with a space before each.
pub open spec fn spaced(ws: Seq<Seq<char>>) -> Seq<char>
    decreases ws.len(),
{
    if ws.len() == 0 {
        Seq::empty()
    } else {
        seq![' '] + ws[0] + spaced(ws.skip(1))
    }
}

proof fn lemma_spaced_join(a: Seq<Seq<char>>, b: Seq<Seq<char>>)
    ensures
        spaced(a + b) == spaced(a) + spaced(b),
    decreases a.len(),
{
    if a.len() == 0 {
        assert(a + b =~= b);
        assert(spaced(a) + spaced(b) =~= spaced(b));
    } else {
        lemma_spaced_join(a.skip(1), b);
        assert((a + b).skip(1) =~= a.skip(1) + b);
        let w = seq![' '] + a[0];
        assert(w + (spaced(a.skip(1)) + spaced(b)) =~= w + spaced(a.skip(1)) + spaced(b));
    }
}

proof fn lemma_spaced_one(w: Seq<char>)
    ensures
        spaced(seq![w]) == seq![' '] + w,
{
    assert(seq![w].skip(1) =~= Seq::empty());
    assert(spaced(seq![w].skip(1)) =~= Seq::<char>::empty());
    assert(seq![' '] + w + Seq::<char>::empty() =~= seq![' '] + w);
}

proof fn lemma_spaced_two(v: Seq<char>, w: Seq<char>)
    ensures
        spaced(seq![v, w]) == seq![' '] + v + (seq![' '] + w),
{
    assert(seq![v, w].skip(1) =~= seq![w]);
    lemma_spaced_one(w);
}

proof fn lemma_cat(a: Seq<char>, b: Seq<char>, c: Seq<char>)
    ensures
        a + b + c == a + (b + c),
{
    assert(a + b + c =~= a + (b + c));
}

/// Text, a flag between spaces and its value.
proof fn lemma_flag_value_text(pre: Seq<char>, lit: Seq<char>, flag: Seq<char>, value: Seq<char>)
    requires
        lit == seq![' '] + flag + seq![' '],
    ensures
        pre + lit + value == pre + spaced(seq![flag, value]),
{
    lemma_spaced_two(flag, value);
    lemma_cat(pre, lit, value);
    assert(lit + value =~= seq![' '] + flag + (seq![' '] + value));
}

proof fn lemma_ce_text(pre: Seq<char>, check: bool, crypt: bool)
    ensures
        pre + " "@ + ce_text(check, crypt) == pre + (spaced(
            seq![
                if check {
                    "-c"@
                } else {
                    "-C"@
                },
            ],
        ) + spaced(
            seq![
                if crypt {
                    "-e"@
                } else {
                    "-E"@
                },
            ],
        )),
{
    reveal_strlit(" ");
    let c = if check {
        "-c"@
    } else {
        "-C"@
    };
    let e = if crypt {
        "-e"@
    } else {
        "-E"@
    };
    assert(" "@ =~= seq![' ']);
    lemma_spaced_one(c);
    lemma_spaced_one(e);
    lemma_cat(pre, " "@, ce_text(check, crypt));
    lemma_cat(c, " "@, e);
    lemma_cat(seq![' '], c, seq![' '] + e);
}

proof fn lemma_last_flags(o: AgentOptions)
    ensures
        preserve_text(o.preserve) == spaced(preserve_words(o.preserve)),
        rate_text(o.rate) == spaced(rate_words(o.rate)),
{
    reveal_strlit(" --preserve");
    reveal_strlit("--preserve");
    reveal_strlit("");
    reveal_strlit(" -x ");
    reveal_strlit("-x");
    lemma_spaced_one("--preserve"@);
    lemma_spaced_two("-x"@, dec(o.rate as nat));
    assert(spaced(preserve_words(o.preserve)) =~= preserve_text(o.preserve));
    assert(spaced(rate_words(o.rate)) =~= rate_text(o.rate));
}

proof fn lemma_shared_text(o: AgentOptions, how: Seq<char>, words: Seq<Seq<char>>)
    requires
        how == spaced(words),
    ensures
        shared_text(o, how) == spaced(shared_words(o, words)),
{
    let none = Seq::<char>::empty();
    let c = seq![
        if o.check {
            "-c"@
        } else {
            "-C"@
        },
    ];
    let e = seq![
        if o.crypt {
            "-e"@
        } else {
            "-E"@
        },
    ];
    let sv = seq!["-s"@, dec(o.streams as nat)];
    let wv = seq!["-w"@, dec(o.wnd as nat)];
    let p = preserve_words(o.preserve);
    let x = rate_words(o.rate);
    assert(" -s "@ =~= seq![' '] + "-s"@ + seq![' ']) by {
        reveal_strlit(" -s ");
        reveal_strlit("-s");
    }
    assert(" -w "@ =~= seq![' '] + "-w"@ + seq![' ']) by {
        reveal_strlit(" -w ");
        reveal_strlit("-w");
    }
    lemma_flag_value_text(none, " -s "@, "-s"@, dec(o.streams as nat));
    assert(none + " -s "@ =~= " -s "@);
    assert(none + spaced(sv) =~= spaced(sv));
    let t1 = " -s "@ + dec(o.streams as nat);
    assert(t1 == spaced(sv));
    lemma_flag_value_text(t1, " -w "@, "-w"@, dec(o.wnd as nat));
    let t2 = t1 + " -w "@ + dec(o.wnd as nat);
    assert(t2 == spaced(sv) + spaced(wv));
    lemma_ce_text(t2, o.check, o.crypt);
    let t3 = t2 + " "@ + ce_text(o.check, o.crypt);
    assert(t3 == spaced(sv) + spaced(wv) + (spaced(c) + spaced(e)));
    lemma_last_flags(o);
    assert(shared_text(o, how) == t3 + how + spaced(p) + spaced(x));
    lemma_spaced_join(p, x);
    lemma_spaced_join(words, p + x);
    lemma_spaced_join(e, words + (p + x));
    lemma_spaced_join(c, e + (words + (p + x)));
    lemma_spaced_join(wv, c + (e + (words + (p + x))));
    lemma_spaced_join(sv, wv + (c + (e + (words + (p + x)))));
    lemma_assoc(
        spaced(sv),
        spaced(wv),
        spaced(c),
        spaced(e),
        how,
        spaced(p),
        spaced(x),
    );
}

proof fn lemma_assoc(
    a: Seq<char>,
    b: Seq<char>,
    c: Seq<char>,
    d: Seq<char>,
    e: Seq<char>,
    f: Seq<char>,
    g: Seq<char>,
)
    ensures
        a + b + (c + d) + e + f + g == a + (b + (c + (d + (e + (f + g))))),
{
    let fg = f + g;
    lemma_cat(a + b + (c + d) + e, f, g);
    lemma_cat(a + b + (c + d), e, fg);
    lemma_cat(a + b, c + d, e + fg);
    lemma_cat(c, d, e + fg);
    lemma_cat(a, b, c + (d + (e + fg)));
}

/// The flags for resuming a sink, and those for resuming a source, are these
/// words with a space before each.
pub proof fn lemma_how_words(resume: bool, have: u64)
    ensures
        resume_text(resume) == spaced(resume_words(resume)),
        offset_text(resume, have) == spaced(offset_words(resume, have)),
{
    reveal_strlit(" -A");
    reveal_strlit("-A");
    reveal_strlit("");
    reveal_strlit(" -R ");
    reveal_strlit("-R");
    lemma_spaced_one("-A"@);
    lemma_spaced_two("-R"@, dec(have as nat));
    assert(resume_text(resume) =~= spaced(resume_words(resume)));
    assert(offset_text(resume, have) =~= spaced(offset_words(resume, have)));
}

/// The command of an agent that listens is the program, the verb and the words
/// of its arguments, the path in quotes.
pub proof fn lemma_listener_words(
    bin: Seq<char>,
    verb: Seq<char>,
    range: Option<(u16, u16)>,
    file_flag: Seq<char>,
    rpath: Seq<char>,
    o: AgentOptions,
    how: Seq<Seq<char>>,
)
    ensures
        listener_text(
            bin,
            seq![' '] + verb,
            range,
            seq![' '] + file_flag + seq![' '],
            rpath,
            shared_text(o, spaced(how)),
        ) == quoted_word(bin) + spaced(
            seq![verb] + listener_words(range, file_flag, quoted_word(rpath), shared_words(o, how)),
        ),
{
    let none = Seq::<char>::empty();
    let sh = shared_words(o, how);
    let q = quoted_word(rpath);
    let b = quoted_word(bin);
    let z = z_words(range);
    let lv = seq!["-l"@, "0.0.0.0:0"@];
    let fv = seq![file_flag, q];
    lemma_shared_text(o, spaced(how), how);
    assert(spaced(z) == z_text(range)) by {
        if let Some(r) = range {
            reveal_strlit(" -Z ");
            reveal_strlit("-Z");
            let v = dec(r.0 as nat) + "-"@ + dec(r.1 as nat);
            assert(" -Z "@ =~= seq![' '] + "-Z"@ + seq![' ']);
            lemma_flag_value_text(none, " -Z "@, "-Z"@, v);
            assert(none + " -Z "@ =~= " -Z "@);
            assert(none + spaced(z) =~= spaced(z));
            lemma_cat(" -Z "@ + dec(r.0 as nat), "-"@, dec(r.1 as nat));
            lemma_cat(" -Z "@, dec(r.0 as nat), "-"@ + dec(r.1 as nat));
            lemma_cat(dec(r.0 as nat), "-"@, dec(r.1 as nat));
        }
    }
    assert(spaced(lv) == " -l 0.0.0.0:0"@) by {
        reveal_strlit(" -l 0.0.0.0:0");
        reveal_strlit("-l");
        reveal_strlit("0.0.0.0:0");
        lemma_spaced_two("-l"@, "0.0.0.0:0"@);
        assert(spaced(lv) =~= " -l 0.0.0.0:0"@);
    }
    lemma_spaced_one(verb);
    let t1 = b + spaced(seq![verb]);
    let t2 = t1 + spaced(lv) + spaced(z);
    lemma_flag_value_text(t2, seq![' '] + file_flag + seq![' '], file_flag, q);
    lemma_spaced_join(fv, sh);
    lemma_spaced_join(z, fv + sh);
    lemma_spaced_join(lv, z + (fv + sh));
    lemma_spaced_join(seq![verb], lv + (z + (fv + sh)));
    lemma_cat(t2, spaced(fv), spaced(sh));
    lemma_cat(t1 + spaced(lv), spaced(z), spaced(fv) + spaced(sh));
    lemma_cat(t1, spaced(lv), spaced(z) + (spaced(fv) + spaced(sh)));
    lemma_cat(b, spaced(seq![verb]), spaced(lv) + (spaced(z) + (spaced(fv) + spaced(sh))));
}

/// The command of an agent that dials is the program, the verb and the words of
/// its arguments, address and path in quotes.
pub proof fn lemma_dialer_words(
    bin: Seq<char>,
    verb: Seq<char>,
    addr: Seq<char>,
    file_flag: Seq<char>,
    rpath: Seq<char>,
    o: AgentOptions,
    how: Seq<Seq<char>>,
)
    ensures
        dialer_text(
            bin,
            seq![' '] + verb,
            addr,
            seq![' '] + file_flag + seq![' '],
            rpath,
            shared_text(o, spaced(how)),
        ) == quoted_word(bin) + spaced(
            seq![verb] + dialer_words(
                quoted_word(addr),
                file_flag,
                quoted_word(rpath),
                shared_words(o, how),
            ),
        ),
{
    let sh = shared_words(o, how);
    let q = quoted_word(rpath);
    let d = quoted_word(addr);
    let b = quoted_word(bin);
    let av = seq!["-a"@, d];
    let fv = seq![file_flag, q];
    lemma_shared_text(o, spaced(how), how);
    assert(" -a "@ =~= seq![' '] + "-a"@ + seq![' ']) by {
        reveal_strlit(" -a ");
        reveal_strlit("-a");
    }
    lemma_spaced_one(verb);
    let t1 = b + spaced(seq![verb]);
    lemma_flag_value_text(t1, " -a "@, "-a"@, d);
    let t2 = t1 + spaced(av);
    lemma_flag_value_text(t2, seq![' '] + file_flag + seq![' '], file_flag, q);
    lemma_spaced_join(fv, sh);
    lemma_spaced_join(av, fv + sh);
    lemma_spaced_join(seq![verb], av + (fv + sh));
    lemma_cat(t2, spaced(fv), spaced(sh));
    lemma_cat(t1, spaced(av), spaced(fv) + spaced(sh));
    lemma_cat(b, spaced(seq![verb]), spaced(av) + (spaced(fv) + spaced(sh)));
}

proof fn lemma_step_shift(p: Seq<Seq<char>>, t: Seq<Seq<char>>, i: int, f: FlagValues)
    requires
        0 <= i < t.len(),
    ensures
        flag_step(p + t, p.len() + i, f) == (match flag_step(t, i, f) {
            Ok(n) => Ok::<(int, FlagValues), Seq<char>>((p.len() + n.0, n.1)),
            Err(e) => Err::<(int, FlagValues), Seq<char>>(e),
        }),
{
    let s = p + t;
    assert(s[p.len() + i] == t[i]);
    if i + 1 < t.len() {
        assert(s[p.len() + i + 1] == t[i + 1]);
    }
    assert(s.skip(p.len() + i + 1) =~= t.skip(i + 1));
}

proof fn lemma_flags_shift(p: Seq<Seq<char>>, t: Seq<Seq<char>>, i: int, f: FlagValues)
    requires
        0 <= i <= t.len(),
    ensures
        flags_from(p + t, p.len() + i, f) == flags_from(t, i, f),
    decreases t.len() - i,
{
    if i < t.len() {
        lemma_step_shift(p, t, i, f);
        match flag_step(t, i, f) {
            Ok(n) => {
                lemma_flags_shift(p, t, n.0, n.1);
            },
            Err(_) => {},
        }
    }
}

/// A flag with its value goes before the rest.
proof fn lemma_flags_value(
    a: Seq<char>,
    v: Seq<char>,
    t: Seq<Seq<char>>,
    f: FlagValues,
    g: FlagValues,
)
    requires
        takes_value(a),
        with_value(a, v, f) == Ok::<FlagValues, Seq<char>>(g),
    ensures
        flags_from(seq![a, v] + t, 0, f) == flags_from(t, 0, g),
{
    let p = seq![a, v];
    let s = p + t;
    assert(s[0] == a);
    assert(s[1] == v);
    assert(flag_step(s, 0, f) == Ok::<(int, FlagValues), Seq<char>>((2, g)));
    lemma_flags_shift(p, t, 0, g);
}

/// A flag that stands alone goes before the rest.
proof fn lemma_flags_switch(a: Seq<char>, t: Seq<Seq<char>>, f: FlagValues, g: FlagValues)
    requires
        !takes_value(a),
        with_switch(a, f) == Some(g),
    ensures
        flags_from(seq![a] + t, 0, f) == flags_from(t, 0, g),
{
    let p = seq![a];
    let s = p + t;
    assert(s[0] == a);
    assert(flag_step(s, 0, f) == Ok::<(int, FlagValues), Seq<char>>((1, g)));
    lemma_flags_shift(p, t, 0, g);
}

/// A size in decimal notation is read back.
pub proof fn lemma_size_dec(n: usize)
    ensures
        size_of_text(dec(n as nat)) == Ok::<usize, Seq<char>>(n),
{
    let t = dec(n as nat);
    lemma_dec_plain(n as nat);
    lemma_plain_trimmed(t);
    lemma_number_dec(n as nat, usize::MAX as nat);
    assert(is_digit(t[t.len() - 1]));
    assert(unit(t.last()) is None);
    assert(number(t, usize::MAX as nat) == Some(n as nat));
    assert((n as nat) * 1nat == n) by (nonlinear_arith);
}

/// A range of ports in its notation is read back.
pub proof fn lemma_range_dec(lo: u16, hi: u16)
    requires
        1 <= lo <= hi,
    ensures
        port_range_of(dec(lo as nat) + "-"@ + dec(hi as nat)) == Ok::<(u16, u16), Seq<char>>(
            (lo, hi),
        ),
{
    reveal_strlit("-");
    let a = dec(lo as nat);
    let b = dec(hi as nat);
    let t = a + "-"@ + b;
    lemma_dec_plain(lo as nat);
    lemma_dec_plain(hi as nat);
    lemma_plain_trimmed(a);
    lemma_plain_trimmed(b);
    lemma_number_dec(lo as nat, u16::MAX as nat);
    lemma_number_dec(hi as nat, u16::MAX as nat);
    assert forall|i: int| 0 <= i < t.len() implies !is_space(#[trigger] t[i]) by {
        if i < a.len() {
            assert(t[i] == a[i]);
            assert(is_digit(a[i]));
        } else if i > a.len() {
            assert(t[i] == b[i - a.len() - 1]);
            assert(is_digit(b[i - a.len() - 1]));
        }
    }
    lemma_plain_trimmed(t);
    let k = a.len() as int;
    assert(t[k] == '-');
    assert forall|j: int| 0 <= j < k implies t[j] != '-' by {
        assert(t[j] == a[j]);
        assert(is_digit(a[j]));
    }
    lemma_find_here(t, '-', 0, k);
    assert(t.take(k) =~= a);
    assert(t.skip(k + 1) =~= b);
}

/// What each flag of an agent does.
proof fn lemma_agent_flag_names(f: FlagValues, t: Seq<char>)
    ensures
        takes_value("-l"@) && with_value("-l"@, t, f) == Ok::<FlagValues, Seq<char>>(
            FlagValues { listen: Some(t), ..f },
        ),
        takes_value("-a"@) && with_value("-a"@, t, f) == Ok::<FlagValues, Seq<char>>(
            FlagValues { addr: Some(t), ..f },
        ),
        takes_value("-i"@) && with_value("-i"@, t, f) == Ok::<FlagValues, Seq<char>>(
            FlagValues { input: Some(t), ..f },
        ),
        takes_value("-o"@) && with_value("-o"@, t, f) == Ok::<FlagValues, Seq<char>>(
            FlagValues { output: Some(t), ..f },
        ),
        takes_value("-s"@) && (number(t, usize::MAX as nat) matches Some(n) ==> 0 < n <= MAX_STREAMS
            ==> with_value("-s"@, t, f) == Ok::<FlagValues, Seq<char>>(
            FlagValues { streams: n as usize, ..f },
        )),
        takes_value("-w"@) && (size_of_text(t) matches Ok(n) ==> with_value("-w"@, t, f) == Ok::<
            FlagValues,
            Seq<char>,
        >(FlagValues { wnd: n, ..f })),
        takes_value("-R"@) && (number(t, u64::MAX as nat) matches Some(n) ==> with_value(
            "-R"@,
            t,
            f,
        ) == Ok::<FlagValues, Seq<char>>(
            FlagValues { resume_from: n as u64, resume: true, ..f },
        )),
        takes_value("-Z"@) && (port_range_of(t) matches Ok(p) ==> with_value("-Z"@, t, f) == Ok::<
            FlagValues,
            Seq<char>,
        >(FlagValues { port_range: Some(p), ..f })),
        takes_value("-x"@) && (size_of_text(t) matches Ok(n) ==> n > 0 ==> with_value("-x"@, t, f)
            == Ok::<FlagValues, Seq<char>>(FlagValues { rate_limit: n as u64, ..f })),
{
    lemma_flag_letters();
}

proof fn lemma_agent_switch_names(f: FlagValues)
    ensures
        !takes_value("-c"@) && with_switch("-c"@, f) == Some(
            FlagValues { check: true, check_set: true, ..f },
        ),
        !takes_value("-C"@) && with_switch("-C"@, f) == Some(
            FlagValues { check: false, check_set: true, ..f },
        ),
        !takes_value("-e"@) && with_switch("-e"@, f) == Some(
            FlagValues { crypt: true, crypt_set: true, ..f },
        ),
        !takes_value("-E"@) && with_switch("-E"@, f) == Some(
            FlagValues { crypt: false, crypt_set: true, ..f },
        ),
        !takes_value("-A"@) && with_switch("-A"@, f) == Some(FlagValues { resume: true, ..f }),
        !takes_value("--preserve"@) && with_switch("--preserve"@, f) == Some(
            FlagValues { preserve: true, ..f },
        ),
{
    lemma_flag_letters();
}

/// Flags with the settings that every agent gets.
pub open spec fn with_shared(f: FlagValues, o: AgentOptions) -> FlagValues {
    FlagValues {
        streams: o.streams,
        wnd: o.wnd,
        check: o.check,
        check_set: true,
        crypt: o.crypt,
        crypt_set: true,
        preserve: o.preserve || f.preserve,
        rate_limit: if o.rate > 0 {
            o.rate
        } else {
            f.rate_limit
        },
        ..f
    }
}

/// Settings that can be handed on.
pub open spec fn can_be_told(o: AgentOptions) -> bool {
    0 < o.streams <= MAX_STREAMS && o.rate <= usize::MAX
}

proof fn lemma_preserve_flags(preserve: bool, t: Seq<Seq<char>>, f: FlagValues)
    ensures
        flags_from(preserve_words(preserve) + t, 0, f) == flags_from(
            t,
            0,
            FlagValues { preserve: preserve || f.preserve, ..f },
        ),
{
    if preserve {
        lemma_agent_switch_names(f);
        lemma_flags_switch("--preserve"@, t, f, FlagValues { preserve: true, ..f });
    } else {
        assert(preserve_words(preserve) + t =~= t);
    }
}

proof fn lemma_rate_flags(rate: u64, f: FlagValues)
    requires
        rate <= usize::MAX,
    ensures
        flags_from(rate_words(rate), 0, f) == Ok::<FlagValues, Seq<char>>(
            FlagValues {
                rate_limit: if rate > 0 {
                    rate
                } else {
                    f.rate_limit
                },
                ..f
            },
        ),
{
    let none = Seq::<Seq<char>>::empty();
    if rate > 0 {
        let h = FlagValues { rate_limit: rate, ..f };
        lemma_size_dec(rate as usize);
        lemma_agent_flag_names(f, dec(rate as nat));
        lemma_flags_value("-x"@, dec(rate as nat), none, f, h);
        assert(rate_words(rate) + none =~= rate_words(rate));
    }
}

/// The words for resuming, of a sink or of a source.
pub open spec fn how_words(source: bool, resume: bool, have: u64) -> Seq<Seq<char>> {
    if source {
        offset_words(resume, have)
    } else {
        resume_words(resume)
    }
}

/// Flags with what the words for resuming say.
pub open spec fn with_how(f: FlagValues, source: bool, resume: bool, have: u64) -> FlagValues {
    if !resume || (source && have == 0) {
        f
    } else if source {
        FlagValues { resume_from: have, resume: true, ..f }
    } else {
        FlagValues { resume: true, ..f }
    }
}

proof fn lemma_how_flags(
    source: bool,
    resume: bool,
    have: u64,
    t: Seq<Seq<char>>,
    f: FlagValues,
)
    ensures
        flags_from(how_words(source, resume, have) + t, 0, f) == flags_from(
            t,
            0,
            with_how(f, source, resume, have),
        ),
{
    let g = with_how(f, source, resume, have);
    if !resume || (source && have == 0) {
        assert(how_words(source, resume, have) + t =~= t);
    } else if source {
        lemma_number_dec(have as nat, u64::MAX as nat);
        lemma_agent_flag_names(f, dec(have as nat));
        lemma_flags_value("-R"@, dec(have as nat), t, f, g);
    } else {
        lemma_agent_switch_names(f);
        lemma_flags_switch("-A"@, t, f, g);
    }
}

/// Flags with the settings that are told last.
spec fn with_last(f: FlagValues, o: AgentOptions) -> FlagValues {
    FlagValues {
        preserve: o.preserve || f.preserve,
        rate_limit: if o.rate > 0 {
            o.rate
        } else {
            f.rate_limit
        },
        ..f
    }
}

proof fn lemma_last_words(
    o: AgentOptions,
    source: bool,
    resume: bool,
    have: u64,
    f: FlagValues,
)
    requires
        can_be_told(o),
    ensures
        flags_from(
            how_words(source, resume, have) + (preserve_words(o.preserve) + rate_words(o.rate)),
            0,
            f,
        ) == Ok::<FlagValues, Seq<char>>(
            with_last(with_how(f, source, resume, have), o),
        ),
{
    let f5 = with_how(f, source, resume, have);
    lemma_how_flags(source, resume, have, preserve_words(o.preserve) + rate_words(o.rate), f);
    lemma_preserve_flags(o.preserve, rate_words(o.rate), f5);
    lemma_rate_flags(o.rate, FlagValues { preserve: o.preserve || f5.preserve, ..f5 });
}

proof fn lemma_shared_flags(
    o: AgentOptions,
    source: bool,
    resume: bool,
    have: u64,
    f: FlagValues,
)
    requires
        can_be_told(o),
    ensures
        flags_from(shared_words(o, how_words(source, resume, have)), 0, f) == Ok::<
            FlagValues,
            Seq<char>,
        >(with_how(with_shared(f, o), source, resume, have)),
{
    let how = how_words(source, resume, have);
    let last = preserve_words(o.preserve) + rate_words(o.rate);
    let c = if o.check {
        "-c"@
    } else {
        "-C"@
    };
    let e = if o.crypt {
        "-e"@
    } else {
        "-E"@
    };
    let f1 = FlagValues { streams: o.streams, ..f };
    let f2 = FlagValues { wnd: o.wnd, ..f1 };
    let f3 = FlagValues { check: o.check, check_set: true, ..f2 };
    let f4 = FlagValues { crypt: o.crypt, crypt_set: true, ..f3 };
    let t4 = how + last;
    let t3 = seq![e] + t4;
    let t2 = seq![c] + t3;
    let t1 = seq!["-w"@, dec(o.wnd as nat)] + t2;
    let t0 = seq!["-s"@, dec(o.streams as nat)] + t1;
    assert(flags_from(t0, 0, f) == flags_from(t1, 0, f1)) by {
        lemma_number_dec(o.streams as nat, usize::MAX as nat);
        lemma_agent_flag_names(f, dec(o.streams as nat));
        lemma_flags_value("-s"@, dec(o.streams as nat), t1, f, f1);
    }
    assert(flags_from(t1, 0, f1) == flags_from(t2, 0, f2)) by {
        lemma_size_dec(o.wnd);
        lemma_agent_flag_names(f1, dec(o.wnd as nat));
        lemma_flags_value("-w"@, dec(o.wnd as nat), t2, f1, f2);
    }
    assert(flags_from(t2, 0, f2) == flags_from(t3, 0, f3)) by {
        lemma_agent_switch_names(f2);
        lemma_flags_switch(c, t3, f2, f3);
    }
    assert(flags_from(t3, 0, f3) == flags_from(t4, 0, f4)) by {
        lemma_agent_switch_names(f3);
        lemma_flags_switch(e, t4, f3, f4);
    }
    lemma_last_words(o, source, resume, have, f4);
}

/// The flag for the file of a sink or of a source.
pub open spec fn file_flag(source: bool) -> Seq<char> {
    if source {
        "-i"@
    } else {
        "-o"@
    }
}

/// Flags with the file of a sink or of a source.
pub open spec fn with_file(f: FlagValues, source: bool, path: Seq<char>) -> FlagValues {
    if source {
        FlagValues { input: Some(path), ..f }
    } else {
        FlagValues { output: Some(path), ..f }
    }
}

proof fn lemma_file_flags(
    o: AgentOptions,
    source: bool,
    path: Seq<char>,
    resume: bool,
    have: u64,
    f: FlagValues,
)
    requires
        can_be_told(o),
    ensures
        flags_from(
            seq![file_flag(source), path] + shared_words(o, how_words(source, resume, have)),
            0,
            f,
        ) == Ok::<FlagValues, Seq<char>>(
            with_how(with_shared(with_file(f, source, path), o), source, resume, have),
        ),
{
    let g = with_file(f, source, path);
    lemma_agent_flag_names(f, path);
    lemma_flags_value(
        file_flag(source),
        path,
        shared_words(o, how_words(source, resume, have)),
        f,
        g,
    );
    lemma_shared_flags(o, source, resume, have, g);
}

/// An agent that listens reads from its arguments the settings of the copy that
/// started it.
pub proof fn lemma_listener_settings(
    o: AgentOptions,
    source: bool,
    range: Option<(u16, u16)>,
    path: Seq<char>,
    resume: bool,
    have: u64,
)
    requires
        can_be_told(o),
        range matches Some(r) ==> 1 <= r.0 <= r.1,
    ensures
        flags_of(
            listener_words(
                range,
                file_flag(source),
                path,
                shared_words(o, how_words(source, resume, have)),
            ),
            None,
        ) == Ok::<FlagValues, Seq<char>>(
            with_how(
                with_shared(
                    with_file(
                        FlagValues {
                            listen: Some("0.0.0.0:0"@),
                            port_range: range,
                            ..default_flags()
                        },
                        source,
                        path,
                    ),
                    o,
                ),
                source,
                resume,
                have,
            ),
        ),
{
    let f0 = default_flags();
    let f1 = FlagValues { listen: Some("0.0.0.0:0"@), ..f0 };
    let f2 = FlagValues { port_range: range, ..f1 };
    let t2 = seq![file_flag(source), path] + shared_words(o, how_words(source, resume, have));
    let t1 = z_words(range) + t2;
    lemma_agent_flag_names(f0, "0.0.0.0:0"@);
    lemma_flags_value("-l"@, "0.0.0.0:0"@, t1, f0, f1);
    match range {
        Some(r) => {
            let v = dec(r.0 as nat) + "-"@ + dec(r.1 as nat);
            lemma_range_dec(r.0, r.1);
            lemma_agent_flag_names(f1, v);
            lemma_flags_value("-Z"@, v, t2, f1, f2);
        },
        None => {
            assert(z_words(range) + t2 =~= t2);
        },
    }
    lemma_file_flags(o, source, path, resume, have, f2);
}

/// An agent that dials reads from its arguments the settings of the copy that
/// started it.
pub proof fn lemma_dialer_settings(
    o: AgentOptions,
    source: bool,
    addr: Seq<char>,
    path: Seq<char>,
    resume: bool,
    have: u64,
)
    requires
        can_be_told(o),
    ensures
        flags_of(
            dialer_words(
                addr,
                file_flag(source),
                path,
                shared_words(o, how_words(source, resume, have)),
            ),
            None,
        ) == Ok::<FlagValues, Seq<char>>(
            with_how(
                with_shared(
                    with_file(FlagValues { addr: Some(addr), ..default_flags() }, source, path),
                    o,
                ),
                source,
                resume,
                have,
            ),
        ),
{
    let f0 = default_flags();
    let f1 = FlagValues { addr: Some(addr), ..f0 };
    let t1 = seq![file_flag(source), path] + shared_words(o, how_words(source, resume, have));
    lemma_agent_flag_names(f0, addr);
    lemma_flags_value("-a"@, addr, t1, f0, f1);
    lemma_file_flags(o, source, path, resume, have, f1);
}

/// No agent is handed a key by its arguments, which other users of its machine
/// may see.
pub proof fn lemma_no_key_argument(
    o: AgentOptions,
    source: bool,
    range: Option<(u16, u16)>,
    addr: Seq<char>,
    path: Seq<char>,
    resume: bool,
    have: u64,
)
    requires
        can_be_told(o),
        range matches Some(r) ==> 1 <= r.0 <= r.1,
    ensures
        flags_of(
            listener_words(
                range,
                file_flag(source),
                path,
                shared_words(o, how_words(source, resume, have)),
            ),
            None,
        ) matches Ok(f) && f.key is None,
        flags_of(
            dialer_words(
                addr,
                file_flag(source),
                path,
                shared_words(o, how_words(source, resume, have)),
            ),
            None,
        ) matches Ok(f) && f.key is None,
{
    lemma_listener_settings(o, source, range, path, resume, have);
    lemma_dialer_settings(o, source, addr, path, resume, have);
}

} // verus!
