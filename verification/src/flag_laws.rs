//! What a command line asks for, told by its arguments.

use crate::flags::{
    default_flags, flag_step, flags_from, flags_of, port_range_of, size_of_text, takes_value, unit,
    with_switch, with_value, FlagValues,
};
use crate::text::{
    dec, find_from, is_digit, is_space, lemma_dec_plain, lemma_find_from, lemma_find_here,
    lemma_number_dec, lemma_plain_trimmed, number, starts, trimmed,
};
use crate::text_laws::lemma_number_chars;
use crate::wire::key_of;
use vstd::prelude::*;

verus! {

/// The flags by their second characters.
pub proof fn lemma_flag_letters()
    ensures
        "-l"@.len() == 2 && "-l"@[0] == '-' && "-l"@[1] == 'l',
        "-a"@.len() == 2 && "-a"@[0] == '-' && "-a"@[1] == 'a',
        "-i"@.len() == 2 && "-i"@[0] == '-' && "-i"@[1] == 'i',
        "-o"@.len() == 2 && "-o"@[0] == '-' && "-o"@[1] == 'o',
        "-s"@.len() == 2 && "-s"@[0] == '-' && "-s"@[1] == 's',
        "-w"@.len() == 2 && "-w"@[0] == '-' && "-w"@[1] == 'w',
        "-P"@.len() == 2 && "-P"@[0] == '-' && "-P"@[1] == 'P',
        "-k"@.len() == 2 && "-k"@[0] == '-' && "-k"@[1] == 'k',
        "-R"@.len() == 2 && "-R"@[0] == '-' && "-R"@[1] == 'R',
        "-Z"@.len() == 2 && "-Z"@[0] == '-' && "-Z"@[1] == 'Z',
        "-x"@.len() == 2 && "-x"@[0] == '-' && "-x"@[1] == 'x',
        "-c"@.len() == 2 && "-c"@[0] == '-' && "-c"@[1] == 'c',
        "-C"@.len() == 2 && "-C"@[0] == '-' && "-C"@[1] == 'C',
        "-e"@.len() == 2 && "-e"@[0] == '-' && "-e"@[1] == 'e',
        "-E"@.len() == 2 && "-E"@[0] == '-' && "-E"@[1] == 'E',
        "-z"@.len() == 2 && "-z"@[0] == '-' && "-z"@[1] == 'z',
        "-A"@.len() == 2 && "-A"@[0] == '-' && "-A"@[1] == 'A',
        "-J"@.len() == 2 && "-J"@[0] == '-' && "-J"@[1] == 'J',
        "-r"@.len() == 2 && "-r"@[0] == '-' && "-r"@[1] == 'r',
        "-p"@.len() == 2 && "-p"@[0] == '-' && "-p"@[1] == 'p',
        "--preserve"@.len() == 10 && "--preserve"@[0] == '-',
        "--"@.len() == 2 && "--"@[0] == '-' && "--"@[1] == '-',
        "-"@.len() == 1 && "-"@[0] == '-',
{
    reveal_strlit("-l");
    reveal_strlit("-a");
    reveal_strlit("-i");
    reveal_strlit("-o");
    reveal_strlit("-s");
    reveal_strlit("-w");
    reveal_strlit("-P");
    reveal_strlit("-k");
    reveal_strlit("-R");
    reveal_strlit("-Z");
    reveal_strlit("-x");
    reveal_strlit("-c");
    reveal_strlit("-C");
    reveal_strlit("-e");
    reveal_strlit("-E");
    reveal_strlit("-z");
    reveal_strlit("-A");
    reveal_strlit("-J");
    reveal_strlit("-r");
    reveal_strlit("-p");
    reveal_strlit("--preserve");
    reveal_strlit("--");
    reveal_strlit("-");
}

/// A flag that is followed by a value.
pub open spec fn value_flag(a: Seq<char>) -> bool {
    ||| a == "-l"@
    ||| a == "-a"@
    ||| a == "-i"@
    ||| a == "-o"@
    ||| a == "-s"@
    ||| a == "-w"@
    ||| a == "-P"@
    ||| a == "-k"@
    ||| a == "-R"@
    ||| a == "-Z"@
    ||| a == "-x"@
}

/// A flag that stands alone.
pub open spec fn switch_flag(a: Seq<char>) -> bool {
    ||| a == "-c"@
    ||| a == "-C"@
    ||| a == "-e"@
    ||| a == "-E"@
    ||| a == "-z"@
    ||| a == "-A"@
    ||| a == "-J"@
    ||| a == "-r"@
    ||| a == "--preserve"@
    ||| a == "-p"@
}

/// The place of the next argument that is no value.
pub open spec fn next_arg(args: Seq<Seq<char>>, i: int) -> int {
    if value_flag(args[i]) {
        i + 2
    } else {
        i + 1
    }
}

/// No flag stands at index `i`, nor behind it.
pub open spec fn flags_end(args: Seq<Seq<char>>, i: int) -> bool {
    i < 0 || i >= args.len() || args[i] == "--"@
}

/// The value of the last flag `a` from index `i` on.
pub open spec fn last_value(args: Seq<Seq<char>>, i: int, a: Seq<char>) -> Option<Seq<char>>
    decreases args.len() + 1 - i,
{
    if flags_end(args, i) {
        None
    } else {
        match last_value(args, next_arg(args, i), a) {
            Some(v) => Some(v),
            None => if value_flag(args[i]) && args[i] == a && i + 1 < args.len() {
                Some(args[i + 1])
            } else {
                None
            },
        }
    }
}

/// Which of the switches `on` and `off` stands last from index `i` on.
pub open spec fn last_switch(
    args: Seq<Seq<char>>,
    i: int,
    on: Seq<char>,
    off: Seq<char>,
) -> Option<bool>
    decreases args.len() + 1 - i,
{
    if flags_end(args, i) {
        None
    } else {
        match last_switch(args, next_arg(args, i), on, off) {
            Some(b) => Some(b),
            None => if value_flag(args[i]) {
                None
            } else if args[i] == on {
                Some(true)
            } else if args[i] == off {
                Some(false)
            } else {
                None
            },
        }
    }
}

/// The switch `a` stands somewhere from index `i` on.
pub open spec fn given(args: Seq<Seq<char>>, i: int, a: Seq<char>) -> bool
    decreases args.len() + 1 - i,
{
    !flags_end(args, i) && ((!value_flag(args[i]) && args[i] == a) || given(
        args,
        next_arg(args, i),
        a,
    ))
}

/// The arguments from index `i` on that are no flags and no values.
pub open spec fn others(args: Seq<Seq<char>>, i: int) -> Seq<Seq<char>>
    decreases args.len() + 1 - i,
{
    if i < 0 || i >= args.len() {
        Seq::empty()
    } else if args[i] == "--"@ {
        args.skip(i + 1)
    } else if value_flag(args[i]) || (args[i].len() > 0 && args[i][0] == '-') {
        others(args, next_arg(args, i))
    } else {
        seq![args[i]] + others(args, i + 1)
    }
}

/// A value that a flag can have.
pub open spec fn readable(a: Seq<char>, t: Seq<char>) -> bool {
    if a == "-s"@ {
        number(t, 64) matches Some(n) && n > 0
    } else if a == "-w"@ {
        size_of_text(t) is Ok
    } else if a == "-P"@ || a == "-R"@ {
        number(t, 0xffff_ffff_ffff_ffff) is Some
    } else if a == "-k"@ {
        key_of(t) is Ok
    } else if a == "-Z"@ {
        port_range_of(t) is Ok
    } else if a == "-x"@ {
        size_of_text(t) matches Ok(n) && n > 0
    } else {
        true
    }
}

/// The arguments from index `i` on: every flag is a known one, and has a value
/// that it can have if it needs one.
pub open spec fn acceptable(args: Seq<Seq<char>>, i: int) -> bool
    decreases args.len() + 1 - i,
{
    flags_end(args, i) || {
        let a = args[i];
        if value_flag(a) {
            i + 1 < args.len() && readable(a, args[i + 1]) && acceptable(args, i + 2)
        } else if a.len() > 0 && a[0] == '-' {
            switch_flag(a) && acceptable(args, i + 1)
        } else {
            acceptable(args, i + 1)
        }
    }
}

/// What one flag with a value changes, and what it leaves.
proof fn lemma_value_step(a: Seq<char>, t: Seq<char>, f: FlagValues, g: FlagValues)
    requires
        takes_value(a),
        with_value(a, t, f) == Ok::<FlagValues, Seq<char>>(g),
    ensures
        g.listen == if a == "-l"@ { Some(t) } else { f.listen },
        g.addr == if a == "-a"@ { Some(t) } else { f.addr },
        g.input == if a == "-i"@ { Some(t) } else { f.input },
        g.output == if a == "-o"@ { Some(t) } else { f.output },
        g.rest == f.rest,
        g.check == f.check && g.check_set == f.check_set,
        g.crypt == f.crypt && g.crypt_set == f.crypt_set,
        g.reverse == f.reverse && g.json == f.json && g.recurse == f.recurse,
        g.preserve == f.preserve,
        g.resume == (f.resume || a == "-R"@),
        a == "-s"@ ==> number(t, 64) == Some(g.streams as nat) && g.streams > 0,
        a != "-s"@ ==> g.streams == f.streams,
        a == "-w"@ ==> size_of_text(t) == Ok::<usize, Seq<char>>(g.wnd),
        a != "-w"@ ==> g.wnd == f.wnd,
        a == "-P"@ ==> number(t, 0xffff_ffff_ffff_ffff) == Some(g.progress as nat),
        a != "-P"@ ==> g.progress == f.progress,
        a == "-k"@ ==> g.key is Some && key_of(t) == Ok::<Seq<u8>, Seq<char>>(g.key->0),
        a != "-k"@ ==> g.key == f.key,
        a == "-R"@ ==> number(t, 0xffff_ffff_ffff_ffff) == Some(g.resume_from as nat),
        a != "-R"@ ==> g.resume_from == f.resume_from,
        a == "-Z"@ ==> g.port_range is Some && port_range_of(t) == Ok::<(u16, u16), Seq<char>>(
            g.port_range->0,
        ),
        a != "-Z"@ ==> g.port_range == f.port_range,
        a == "-x"@ ==> size_of_text(t) == Ok::<usize, Seq<char>>(g.rate_limit as usize)
            && g.rate_limit > 0 && g.rate_limit <= usize::MAX,
        a != "-x"@ ==> g.rate_limit == f.rate_limit,
{
    lemma_flag_letters();
}

/// What one switch changes, and what it leaves.
proof fn lemma_switch_step(a: Seq<char>, f: FlagValues, g: FlagValues)
    requires
        with_switch(a, f) == Some(g),
    ensures
        g.check == (a == "-c"@ || (a != "-C"@ && f.check)),
        g.check_set == (a == "-c"@ || a == "-C"@ || f.check_set),
        g.crypt == (a == "-e"@ || (a != "-E"@ && f.crypt)),
        g.crypt_set == (a == "-e"@ || a == "-E"@ || f.crypt_set),
        g.reverse == (a == "-z"@ || f.reverse),
        g.resume == (a == "-A"@ || f.resume),
        g.json == (a == "-J"@ || f.json),
        g.recurse == (a == "-r"@ || f.recurse),
        g.preserve == (a == "-p"@ || a == "--preserve"@ || f.preserve),
        g == (FlagValues {
            check: g.check,
            check_set: g.check_set,
            crypt: g.crypt,
            crypt_set: g.crypt_set,
            reverse: g.reverse,
            resume: g.resume,
            json: g.json,
            recurse: g.recurse,
            preserve: g.preserve,
            ..f
        }),
{
    lemma_flag_letters();
}

/// One step on arguments that are accepted.
proof fn lemma_arg_step(args: Seq<Seq<char>>, i: int, f: FlagValues)
    requires
        0 <= i < args.len(),
    ensures
        takes_value(args[i]) == value_flag(args[i]),
        with_switch(args[i], f) is Some == switch_flag(args[i]),
        value_flag(args[i]) || switch_flag(args[i]) ==> args[i] != "--"@,
        starts(args[i], "-"@) == (args[i].len() > 0 && args[i][0] == '-'),
        args[i] == "--"@ ==> flags_from(args, i, f) == Ok::<FlagValues, Seq<char>>(
            FlagValues { rest: f.rest + args.skip(i + 1), ..f },
        ),
{
    let a = args[i];
    lemma_flag_letters();
    assert(starts(a, "-"@) == (a.len() > 0 && a[0] == '-')) by {
        if a.len() > 0 {
            assert(a.take(1)[0] == a[0]);
            if a[0] == '-' {
                assert(a.take(1) =~= "-"@);
            }
        }
    }
    if a == "--"@ {
        let g = FlagValues { rest: f.rest + args.skip(i + 1), ..f };
        assert(flag_step(args, i, f) == Ok::<(int, FlagValues), Seq<char>>(
            (args.len() as int, g),
        ));
        assert(flags_from(args, args.len() as int, g) == Ok::<FlagValues, Seq<char>>(g));
    }
}

proof fn lemma_last_texts(args: Seq<Seq<char>>, i: int, f: FlagValues, h: FlagValues)
    requires
        0 <= i,
        flags_from(args, i, f) == Ok::<FlagValues, Seq<char>>(h),
    ensures
        h.listen == (match last_value(args, i, "-l"@) { Some(t) => Some(t), None => f.listen }),
        h.addr == (match last_value(args, i, "-a"@) { Some(t) => Some(t), None => f.addr }),
        h.input == (match last_value(args, i, "-i"@) { Some(t) => Some(t), None => f.input }),
        h.output == (match last_value(args, i, "-o"@) { Some(t) => Some(t), None => f.output }),
        h.rest == f.rest + others(args, i),
    decreases args.len() + 1 - i,
{
    if i < args.len() {
        lemma_arg_step(args, i, f);
        let a = args[i];
        if a == "--"@ {
        } else if value_flag(a) {
            let g = with_value(a, args[i + 1], f)->Ok_0;
            lemma_value_step(a, args[i + 1], f, g);
            lemma_last_texts(args, i + 2, g, h);
            assert(a.len() > 0 && a[0] == '-') by {
                lemma_flag_letters();
            }
        } else if switch_flag(a) {
            let g = with_switch(a, f)->0;
            lemma_switch_step(a, f, g);
            lemma_last_texts(args, i + 1, g, h);
            assert(a.len() > 0 && a[0] == '-') by {
                lemma_flag_letters();
            }
        } else {
            let g = FlagValues { rest: f.rest.push(a), ..f };
            lemma_last_texts(args, i + 1, g, h);
            assert(f.rest.push(a) + others(args, i + 1) =~= f.rest + (seq![a] + others(
                args,
                i + 1,
            )));
        }
    } else {
        assert(f.rest + others(args, i) =~= f.rest);
    }
}

proof fn lemma_last_switches(args: Seq<Seq<char>>, i: int, f: FlagValues, h: FlagValues)
    requires
        0 <= i,
        flags_from(args, i, f) == Ok::<FlagValues, Seq<char>>(h),
    ensures
        h.check == (match last_switch(args, i, "-c"@, "-C"@) { Some(b) => b, None => f.check }),
        h.check_set == (f.check_set || last_switch(args, i, "-c"@, "-C"@) is Some),
        h.crypt == (match last_switch(args, i, "-e"@, "-E"@) { Some(b) => b, None => f.crypt }),
        h.crypt_set == (f.crypt_set || last_switch(args, i, "-e"@, "-E"@) is Some),
        h.reverse == (f.reverse || given(args, i, "-z"@)),
        h.resume == (f.resume || given(args, i, "-A"@) || last_value(args, i, "-R"@) is Some),
        h.json == (f.json || given(args, i, "-J"@)),
        h.recurse == (f.recurse || given(args, i, "-r"@)),
        h.preserve == (f.preserve || given(args, i, "-p"@) || given(args, i, "--preserve"@)),
    decreases args.len() + 1 - i,
{
    if i < args.len() {
        lemma_arg_step(args, i, f);
        let a = args[i];
        if a == "--"@ {
        } else if value_flag(a) {
            let g = with_value(a, args[i + 1], f)->Ok_0;
            lemma_value_step(a, args[i + 1], f, g);
            lemma_last_switches(args, i + 2, g, h);
        } else if switch_flag(a) {
            let g = with_switch(a, f)->0;
            lemma_switch_step(a, f, g);
            lemma_last_switches(args, i + 1, g, h);
            assert("-c"@ != "-C"@ && "-e"@ != "-E"@) by {
                lemma_flag_letters();
            }
        } else {
            let g = FlagValues { rest: f.rest.push(a), ..f };
            lemma_last_switches(args, i + 1, g, h);
        }
    }
}

proof fn lemma_last_numbers(args: Seq<Seq<char>>, i: int, f: FlagValues, h: FlagValues)
    requires
        0 <= i,
        flags_from(args, i, f) == Ok::<FlagValues, Seq<char>>(h),
    ensures
        match last_value(args, i, "-s"@) {
            Some(t) => number(t, 64) == Some(h.streams as nat) && h.streams > 0,
            None => h.streams == f.streams,
        },
        match last_value(args, i, "-w"@) {
            Some(t) => size_of_text(t) == Ok::<usize, Seq<char>>(h.wnd),
            None => h.wnd == f.wnd,
        },
        match last_value(args, i, "-P"@) {
            Some(t) => number(t, 0xffff_ffff_ffff_ffff) == Some(h.progress as nat),
            None => h.progress == f.progress,
        },
        match last_value(args, i, "-k"@) {
            Some(t) => h.key is Some && key_of(t) == Ok::<Seq<u8>, Seq<char>>(h.key->0),
            None => h.key == f.key,
        },
        match last_value(args, i, "-R"@) {
            Some(t) => number(t, 0xffff_ffff_ffff_ffff) == Some(h.resume_from as nat),
            None => h.resume_from == f.resume_from,
        },
        match last_value(args, i, "-Z"@) {
            Some(t) => h.port_range is Some && port_range_of(t) == Ok::<(u16, u16), Seq<char>>(
                h.port_range->0,
            ),
            None => h.port_range == f.port_range,
        },
        match last_value(args, i, "-x"@) {
            Some(t) => size_of_text(t) == Ok::<usize, Seq<char>>(h.rate_limit as usize)
                && h.rate_limit > 0 && h.rate_limit <= usize::MAX,
            None => h.rate_limit == f.rate_limit,
        },
    decreases args.len() + 1 - i,
{
    if i < args.len() {
        lemma_arg_step(args, i, f);
        let a = args[i];
        if a == "--"@ {
        } else if value_flag(a) {
            let g = with_value(a, args[i + 1], f)->Ok_0;
            lemma_value_step(a, args[i + 1], f, g);
            lemma_last_numbers(args, i + 2, g, h);
        } else if switch_flag(a) {
            let g = with_switch(a, f)->0;
            lemma_switch_step(a, f, g);
            lemma_last_numbers(args, i + 1, g, h);
        } else {
            let g = FlagValues { rest: f.rest.push(a), ..f };
            lemma_last_numbers(args, i + 1, g, h);
        }
    }
}

/// Of a flag with a text the last one counts, and what is neither a flag nor a
/// value is kept in order.
pub proof fn lemma_flag_texts(args: Seq<Seq<char>>, env: Option<Seq<char>>, f: FlagValues)
    requires
        flags_of(args, env) == Ok::<FlagValues, Seq<char>>(f),
    ensures
        f.listen == last_value(args, 0, "-l"@),
        f.addr == last_value(args, 0, "-a"@),
        f.input == last_value(args, 0, "-i"@),
        f.output == last_value(args, 0, "-o"@),
        f.rest == others(args, 0),
{
    let h = flags_from(args, 0, default_flags())->Ok_0;
    lemma_last_texts(args, 0, default_flags(), h);
    assert(Seq::<Seq<char>>::empty() + others(args, 0) =~= others(args, 0));
}

/// A switch is on if it stands among the arguments, and of two that undo each
/// other the last one counts.
pub proof fn lemma_flag_switches(args: Seq<Seq<char>>, env: Option<Seq<char>>, f: FlagValues)
    requires
        flags_of(args, env) == Ok::<FlagValues, Seq<char>>(f),
    ensures
        f.check == (last_switch(args, 0, "-c"@, "-C"@) == Some(true)),
        f.check_set == last_switch(args, 0, "-c"@, "-C"@) is Some,
        f.crypt == (last_switch(args, 0, "-e"@, "-E"@) == Some(true)),
        f.crypt_set == last_switch(args, 0, "-e"@, "-E"@) is Some,
        f.reverse == given(args, 0, "-z"@),
        f.resume == (given(args, 0, "-A"@) || last_value(args, 0, "-R"@) is Some),
        f.json == given(args, 0, "-J"@),
        f.recurse == given(args, 0, "-r"@),
        f.preserve == (given(args, 0, "-p"@) || given(args, 0, "--preserve"@)),
{
    let h = flags_from(args, 0, default_flags())->Ok_0;
    lemma_last_switches(args, 0, default_flags(), h);
}

/// Of a flag with a number, a size, a key or a range the last one counts. Where
/// there is none, there are four streams, four mebibytes of buffer, no progress,
/// no key, no offset and no limit, and the range is that of the environment.
pub proof fn lemma_flag_numbers(args: Seq<Seq<char>>, env: Option<Seq<char>>, f: FlagValues)
    requires
        flags_of(args, env) == Ok::<FlagValues, Seq<char>>(f),
    ensures
        match last_value(args, 0, "-s"@) {
            Some(t) => number(t, 64) == Some(f.streams as nat) && f.streams > 0,
            None => f.streams == 4,
        },
        match last_value(args, 0, "-w"@) {
            Some(t) => size_of_text(t) == Ok::<usize, Seq<char>>(f.wnd),
            None => f.wnd == 4 * 1024 * 1024,
        },
        match last_value(args, 0, "-P"@) {
            Some(t) => number(t, 0xffff_ffff_ffff_ffff) == Some(f.progress as nat),
            None => f.progress == 0,
        },
        match last_value(args, 0, "-k"@) {
            Some(t) => f.key is Some && key_of(t) == Ok::<Seq<u8>, Seq<char>>(f.key->0),
            None => f.key is None,
        },
        match last_value(args, 0, "-R"@) {
            Some(t) => number(t, 0xffff_ffff_ffff_ffff) == Some(f.resume_from as nat),
            None => f.resume_from == 0,
        },
        match last_value(args, 0, "-Z"@) {
            Some(t) => f.port_range is Some && port_range_of(t) == Ok::<(u16, u16), Seq<char>>(
                f.port_range->0,
            ),
            None => if env is Some && trimmed(env->0).len() > 0 {
                f.port_range is Some && port_range_of(env->0) == Ok::<(u16, u16), Seq<char>>(
                    f.port_range->0,
                )
            } else {
                f.port_range is None
            },
        },
        match last_value(args, 0, "-x"@) {
            Some(t) => size_of_text(t) == Ok::<usize, Seq<char>>(f.rate_limit as usize)
                && f.rate_limit > 0 && f.rate_limit <= usize::MAX,
            None => f.rate_limit == 0,
        },
{
    let h = flags_from(args, 0, default_flags())->Ok_0;
    lemma_last_numbers(args, 0, default_flags(), h);
}

proof fn lemma_accepted(args: Seq<Seq<char>>, i: int, f: FlagValues)
    requires
        0 <= i,
    ensures
        flags_from(args, i, f) is Ok <==> acceptable(args, i),
    decreases args.len() + 1 - i,
{
    if i < args.len() {
        lemma_arg_step(args, i, f);
        let a = args[i];
        if a == "--"@ {
        } else if value_flag(a) {
            if i + 1 < args.len() {
                lemma_readable(a, args[i + 1], f);
                if let Ok(g) = with_value(a, args[i + 1], f) {
                    lemma_accepted(args, i + 2, g);
                }
            }
        } else if switch_flag(a) {
            assert(a.len() > 0 && a[0] == '-') by {
                lemma_flag_letters();
            }
            lemma_accepted(args, i + 1, with_switch(a, f)->0);
        } else if !starts(a, "-"@) {
            lemma_accepted(args, i + 1, FlagValues { rest: f.rest.push(a), ..f });
        }
    }
}

proof fn lemma_readable(a: Seq<char>, t: Seq<char>, f: FlagValues)
    requires
        value_flag(a),
    ensures
        with_value(a, t, f) is Ok <==> readable(a, t),
{
    lemma_flag_letters();
}

/// A command line is accepted if and only if each of its flags is a known one
/// with a value that it can have, and the range of the environment, where it
/// counts, is one.
pub proof fn lemma_flags_accepted(args: Seq<Seq<char>>, env: Option<Seq<char>>)
    ensures
        flags_of(args, env) is Ok <==> acceptable(args, 0) && (last_value(args, 0, "-Z"@) is None
            && env is Some && trimmed(env->0).len() > 0 ==> port_range_of(env->0) is Ok),
{
    lemma_accepted(args, 0, default_flags());
    if let Ok(h) = flags_from(args, 0, default_flags()) {
        lemma_last_numbers(args, 0, default_flags(), h);
    }
}

/// A size is its number, times the unit behind it, and no more than can be held.
pub proof fn lemma_size_units(t: Seq<char>, n: nat, c: char)
    requires
        number(t, usize::MAX as nat) == Some(n),
        t.len() > 0 ==> t[0] != '+',
    ensures
        size_of_text(t) == Ok::<usize, Seq<char>>(n as usize),
        c == 'k' || c == 'K' ==> size_of_text(t.push(c)) == Ok::<usize, Seq<char>>(
            capped(n * 1024),
        ),
        c == 'm' || c == 'M' ==> size_of_text(t.push(c)) == Ok::<usize, Seq<char>>(
            capped(n * 1024 * 1024),
        ),
        c == 'g' || c == 'G' ==> size_of_text(t.push(c)) == Ok::<usize, Seq<char>>(
            capped(n * 1024 * 1024 * 1024),
        ),
{
    assert forall|i: int| 0 <= i < t.len() implies is_digit(#[trigger] t[i]) by {
        lemma_number_chars(t, usize::MAX as nat);
    }
    assert(t.len() > 0);
    assert forall|i: int| 0 <= i < t.len() implies !is_space(#[trigger] t[i]) by {
        lemma_unit_chars(t[i]);
    }
    lemma_plain_trimmed(t);
    lemma_unit_chars(t[t.len() - 1]);
    assert(unit(t.last()) is None);
    lemma_unit_chars(c);
    assert(n * 1nat == n) by (nonlinear_arith);
    if c == 'k' || c == 'K' || c == 'm' || c == 'M' || c == 'g' || c == 'G' {
        let s = t.push(c);
        assert forall|i: int| 0 <= i < s.len() implies !is_space(#[trigger] s[i]) by {
            if i < t.len() {
                assert(s[i] == t[i]);
            }
        }
        lemma_plain_trimmed(s);
        assert(s.drop_last() =~= t);
        assert(s.last() == c);
        let m = unit(c)->0;
        assert(size_of_text(s) == Ok::<usize, Seq<char>>(capped(n * m)));
        if c == 'k' || c == 'K' {
            assert(n * m == n * 1024) by (nonlinear_arith)
                requires
                    m == 1024,
            ;
        } else if c == 'm' || c == 'M' {
            assert(n * m == n * 1024 * 1024) by (nonlinear_arith)
                requires
                    m == 1048576,
            ;
        } else {
            assert(n * m == n * 1024 * 1024 * 1024) by (nonlinear_arith)
                requires
                    m == 1073741824,
            ;
        }
    }
    assert(size_of_text(t) == Ok::<usize, Seq<char>>(capped(n * 1nat)));
}

proof fn lemma_unit_chars(c: char)
    ensures
        is_digit(c) ==> unit(c) is None && !is_space(c),
        c == 'k' || c == 'K' ==> unit(c) == Some(1024nat) && !is_space(c),
        c == 'm' || c == 'M' ==> unit(c) == Some(1048576nat) && !is_space(c),
        c == 'g' || c == 'G' ==> unit(c) == Some(1073741824nat) && !is_space(c),
{
}

/// A number, or the largest that can be held if it is larger.
pub open spec fn capped(n: nat) -> usize {
    if n > usize::MAX {
        usize::MAX
    } else {
        n as usize
    }
}

/// A range of ports is read in both notations, and its ends are those named.
pub proof fn lemma_range_read(lo: u16, hi: u16, sep: char)
    requires
        1 <= lo <= hi,
        sep == '-' || sep == ':',
    ensures
        port_range_of(dec(lo as nat) + seq![sep] + dec(hi as nat)) == Ok::<
            (u16, u16),
            Seq<char>,
        >((lo, hi)),
{
    let a = dec(lo as nat);
    let b = dec(hi as nat);
    let t = a + seq![sep] + b;
    lemma_dec_plain(lo as nat);
    lemma_dec_plain(hi as nat);
    lemma_plain_trimmed(a);
    lemma_plain_trimmed(b);
    lemma_number_dec(lo as nat, u16::MAX as nat);
    lemma_number_dec(hi as nat, u16::MAX as nat);
    let k = a.len() as int;
    assert(t[k] == sep);
    assert forall|i: int| 0 <= i < t.len() && i != k implies is_digit(#[trigger] t[i]) by {
        if i < k {
            assert(t[i] == a[i]);
        } else {
            assert(t[i] == b[i - k - 1]);
        }
    }
    assert forall|i: int| 0 <= i < t.len() implies !is_space(#[trigger] t[i]) by {
        if i != k {
            assert(is_digit(t[i]));
        }
    }
    lemma_plain_trimmed(t);
    assert forall|j: int| 0 <= j < k implies t[j] != sep by {
        assert(is_digit(t[j]));
    }
    lemma_find_here(t, sep, 0, k);
    if sep == ':' {
        lemma_find_from(t, '-', 0);
        if let Some(j) = find_from(t, '-', 0) {
            if j != k {
                assert(is_digit(t[j]));
            }
        }
    }
    assert(t.take(k) =~= a);
    assert(t.skip(k + 1) =~= b);
}

} // verus!
