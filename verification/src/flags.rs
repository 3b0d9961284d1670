//! Command-line flags.

use crate::control::{opt_bytes, MAX_STREAMS};
use crate::text::{
    chars_of, debug_text, dec, dec_text, find_char, find_from, number, parse_number, quoted, same,
    starts_with, starts, texts, trim, trimmed,
};
use crate::wire::{key_of, parse_key};
use vstd::prelude::*;

verus! {

pub const DEFAULT_STREAMS: usize = 4;

/// Default socket buffer size.
pub const DEFAULT_WND: usize = 4194304;

/// The flags of a command.
pub struct Flags {
    pub listen: Option<String>,
    pub addr: Option<String>,
    pub input: Option<String>,
    pub output: Option<String>,
    pub streams: usize,
    pub wnd: usize,
    pub progress: u64,
    pub check: bool,
    pub check_set: bool,
    pub crypt: bool,
    pub crypt_set: bool,
    pub key: Option<[u8; 32]>,
    pub reverse: bool,
    pub resume: bool,
    pub resume_from: u64,
    pub json: bool,
    pub recurse: bool,
    /// First and last port to listen on.
    pub port_range: Option<(u16, u16)>,
    /// Keep mode and modification time.
    pub preserve: bool,
    /// Payload bytes per second, zero for no limit.
    pub rate_limit: u64,
    /// Arguments that are no flags.
    pub rest: Vec<String>,
}

/// `Flags` over mathematical values.
pub struct FlagValues {
    pub listen: Option<Seq<char>>,
    pub addr: Option<Seq<char>>,
    pub input: Option<Seq<char>>,
    pub output: Option<Seq<char>>,
    pub streams: usize,
    pub wnd: usize,
    pub progress: u64,
    pub check: bool,
    pub check_set: bool,
    pub crypt: bool,
    pub crypt_set: bool,
    pub key: Option<Seq<u8>>,
    pub reverse: bool,
    pub resume: bool,
    pub resume_from: u64,
    pub json: bool,
    pub recurse: bool,
    pub port_range: Option<(u16, u16)>,
    pub preserve: bool,
    pub rate_limit: u64,
    pub rest: Seq<Seq<char>>,
}

/// An optional text as a mathematical value.
pub open spec fn opt_text(s: Option<String>) -> Option<Seq<char>> {
    match s {
        Some(t) => Some(t@),
        None => None,
    }
}

impl View for Flags {
    type V = FlagValues;

    open spec fn view(&self) -> FlagValues {
        FlagValues {
            listen: opt_text(self.listen),
            addr: opt_text(self.addr),
            input: opt_text(self.input),
            output: opt_text(self.output),
            streams: self.streams,
            wnd: self.wnd,
            progress: self.progress,
            check: self.check,
            check_set: self.check_set,
            crypt: self.crypt,
            crypt_set: self.crypt_set,
            key: opt_bytes(self.key),
            reverse: self.reverse,
            resume: self.resume,
            resume_from: self.resume_from,
            json: self.json,
            recurse: self.recurse,
            port_range: self.port_range,
            preserve: self.preserve,
            rate_limit: self.rate_limit,
            rest: texts(self.rest@),
        }
    }
}

/// The flags of a command without arguments.
pub open spec fn default_flags() -> FlagValues {
    FlagValues {
        listen: None,
        addr: None,
        input: None,
        output: None,
        streams: DEFAULT_STREAMS,
        wnd: DEFAULT_WND,
        progress: 0,
        check: false,
        check_set: false,
        crypt: false,
        crypt_set: false,
        key: None,
        reverse: false,
        resume: false,
        resume_from: 0,
        json: false,
        recurse: false,
        port_range: None,
        preserve: false,
        rate_limit: 0,
        rest: Seq::empty(),
    }
}

impl FlagValues {
    /// What holds of all flags that can be given.
    pub open spec fn sound(self) -> bool {
        &&& 1 <= self.streams <= MAX_STREAMS
        &&& self.port_range matches Some(p) ==> 1 <= p.0 <= p.1
        &&& self.resume_from > 0 ==> self.resume
        &&& self.check ==> self.check_set
        &&& self.crypt ==> self.crypt_set
    }
}

/// The argument at index `i`, which `flag` needs.
pub open spec fn value_at(args: Seq<Seq<char>>, i: int, flag: Seq<char>) -> Result<
    Seq<char>,
    Seq<char>,
> {
    if 0 <= i < args.len() {
        Ok(args[i])
    } else {
        Err(flag + " needs a value"@)
    }
}

pub fn need<'a>(args: &'a [String], i: usize, flag: &str) -> (r: Result<&'a str, String>)
    ensures
        match r {
            Ok(v) => value_at(texts(args@), i as int, flag@) == Ok::<Seq<char>, Seq<char>>(v@),
            Err(e) => value_at(texts(args@), i as int, flag@) == Err::<Seq<char>, Seq<char>>(e@),
        },
{
    if i < args.len() {
        Ok(args[i].as_str())
    } else {
        let mut m: String = flag.to_owned();
        m.append(" needs a value");
        Err(m)
    }
}

/// The unit that the last character of a size stands for.
pub open spec fn unit(c: char) -> Option<nat> {
    if c == 'K' || c == 'k' {
        Some(1024)
    } else if c == 'M' || c == 'm' {
        Some(1048576)
    } else if c == 'G' || c == 'g' {
        Some(1073741824)
    } else {
        None
    }
}

/// A size: a number with an optional unit, at most the largest `usize`.
pub open spec fn size_of_text(s: Seq<char>) -> Result<usize, Seq<char>> {
    let t = trimmed(s);
    if t.len() == 0 {
        Err("empty size"@)
    } else {
        let (num, mul) = match unit(t.last()) {
            Some(m) => (t.drop_last(), m),
            None => (t, 1nat),
        };
        match number(num, usize::MAX as nat) {
            None => Err("bad size "@ + t),
            Some(n) => Ok(
                if n * mul > usize::MAX {
                    usize::MAX
                } else {
                    (n * mul) as usize
                },
            ),
        }
    }
}

/// Reads a size such as `64K`, `10M` or `2g`.
pub fn parse_size(s: &str) -> (r: Result<usize, String>)
    ensures
        match r {
            Ok(n) => size_of_text(s@) == Ok::<usize, Seq<char>>(n),
            Err(e) => size_of_text(s@) == Err::<usize, Seq<char>>(e@),
        },
{
    let t: &str = trim(s);
    let v: Vec<char> = chars_of(t);
    let n: usize = v.len();
    if n == 0 {
        return Err("empty size".to_owned());
    }
    let c: char = v[n - 1];
    let mul: usize = if c == 'K' || c == 'k' {
        1024
    } else if c == 'M' || c == 'm' {
        1048576
    } else if c == 'G' || c == 'g' {
        1073741824
    } else {
        1
    };
    let num: &str = if mul > 1 {
        t.substring_char(0, n - 1)
    } else {
        t
    };
    assert(mul > 1 ==> num@ =~= t@.drop_last());
    match parse_number(num, usize::MAX as u64) {
        None => {
            let mut m: String = "bad size ".to_owned();
            m.append(t);
            Err(m)
        },
        Some(x) => {
            let q: usize = usize::MAX / mul;
            if x as usize > q {
                assert(x * mul > usize::MAX) by (nonlinear_arith)
                    requires
                        x > q,
                        q == usize::MAX / mul,
                        mul > 0,
                ;
                Ok(usize::MAX)
            } else {
                assert(x * mul <= usize::MAX) by (nonlinear_arith)
                    requires
                        x <= q,
                        q == usize::MAX / mul,
                        mul > 0,
                ;
                Ok(x as usize * mul)
            }
        },
    }
}

/// Where the two ports of a range part: at the first dash, else at the first
/// colon.
pub open spec fn range_split(s: Seq<char>) -> Option<int> {
    match find_from(s, '-', 0) {
        Some(i) => Some(i),
        None => find_from(s, ':', 0),
    }
}

/// A range of ports, first and last.
pub open spec fn port_range_of(s: Seq<char>) -> Result<(u16, u16), Seq<char>> {
    let t = trimmed(s);
    match range_split(t) {
        None => Err("bad port range "@ + debug_text(t) + ", want LO-HI"@),
        Some(i) => {
            let lo = number(trimmed(t.take(i)), u16::MAX as nat);
            let hi = number(trimmed(t.skip(i + 1)), u16::MAX as nat);
            if lo is None {
                Err("bad port range low in "@ + debug_text(t))
            } else if hi is None {
                Err("bad port range high in "@ + debug_text(t))
            } else if lo->0 == 0 {
                Err("port range LO must be ≥ 1"@)
            } else if hi->0 < lo->0 {
                Err("port range HI "@ + dec(hi->0) + " < LO "@ + dec(lo->0))
            } else {
                Ok((lo->0 as u16, hi->0 as u16))
            }
        },
    }
}

/// Reads a range of ports, `LO-HI` or `LO:HI`.
pub fn parse_port_range(s: &str) -> (r: Result<(u16, u16), String>)
    ensures
        match r {
            Ok(p) => port_range_of(s@) == Ok::<(u16, u16), Seq<char>>(p),
            Err(e) => port_range_of(s@) == Err::<(u16, u16), Seq<char>>(e@),
        },
        r matches Ok(p) ==> 1 <= p.0 <= p.1,
{
    let t: &str = trim(s);
    let v: Vec<char> = chars_of(t);
    let cut: Option<usize> = match find_char(&v, '-', 0) {
        Some(i) => Some(i),
        None => find_char(&v, ':', 0),
    };
    let i: usize = match cut {
        Some(i) => i,
        None => {
            let mut m: String = "bad port range ".to_owned();
            m.append(quoted(t).as_str());
            m.append(", want LO-HI");
            return Err(m);
        },
    };
    let a: &str = t.substring_char(0, i);
    let b: &str = t.substring_char(i + 1, v.len());
    assert(a@ =~= t@.take(i as int));
    assert(b@ =~= t@.skip(i + 1));
    let lo: u64 = match parse_number(trim(a), u16::MAX as u64) {
        Some(x) => x,
        None => {
            let mut m: String = "bad port range low in ".to_owned();
            m.append(quoted(t).as_str());
            return Err(m);
        },
    };
    let hi: u64 = match parse_number(trim(b), u16::MAX as u64) {
        Some(x) => x,
        None => {
            let mut m: String = "bad port range high in ".to_owned();
            m.append(quoted(t).as_str());
            return Err(m);
        },
    };
    if lo == 0 {
        return Err("port range LO must be ≥ 1".to_owned());
    }
    if hi < lo {
        let mut m: String = "port range HI ".to_owned();
        m.append(dec_text(hi).as_str());
        m.append(" < LO ");
        m.append(dec_text(lo).as_str());
        return Err(m);
    }
    Ok((lo as u16, hi as u16))
}

/// An optional text as a mathematical value.
pub open spec fn opt_str(s: Option<&str>) -> Option<Seq<char>> {
    match s {
        Some(t) => Some(t@),
        None => None,
    }
}

/// The flags that are followed by a value.
pub open spec fn takes_value(a: Seq<char>) -> bool {
    ||| a == "-l"@
    ||| a == "-a"@
    ||| a == "-i"@
    ||| a == "-o"@
    ||| a == "-s"@
    ||| a == "-w"@
    ||| a == "-P"@
    ||| a == "-k"@
    ||| a == "-R"@
    ||| a == "-Z"@
    ||| a == "-x"@
}

/// What flag `a` with the value `t` does to the flags.
pub open spec fn with_value(a: Seq<char>, t: Seq<char>, f: FlagValues) -> Result<
    FlagValues,
    Seq<char>,
> {
    if a == "-l"@ {
        Ok(FlagValues { listen: Some(t), ..f })
    } else if a == "-a"@ {
        Ok(FlagValues { addr: Some(t), ..f })
    } else if a == "-i"@ {
        Ok(FlagValues { input: Some(t), ..f })
    } else if a == "-o"@ {
        Ok(FlagValues { output: Some(t), ..f })
    } else if a == "-s"@ {
        match number(t, usize::MAX as nat) {
            None => Err("bad -s"@),
            Some(n) => if n == 0 || n > MAX_STREAMS {
                Err("-s must be 1..64"@)
            } else {
                Ok(FlagValues { streams: n as usize, ..f })
            },
        }
    } else if a == "-w"@ {
        match size_of_text(t) {
            Err(e) => Err(e),
            Ok(n) => Ok(FlagValues { wnd: n, ..f }),
        }
    } else if a == "-P"@ {
        match number(t, u64::MAX as nat) {
            None => Err("bad -P"@),
            Some(n) => Ok(FlagValues { progress: n as u64, ..f }),
        }
    } else if a == "-k"@ {
        match key_of(t) {
            Err(e) => Err(e),
            Ok(k) => Ok(FlagValues { key: Some(k), ..f }),
        }
    } else if a == "-R"@ {
        match number(t, u64::MAX as nat) {
            None => Err("bad -R"@),
            Some(n) => Ok(FlagValues { resume_from: n as u64, resume: true, ..f }),
        }
    } else if a == "-Z"@ {
        match port_range_of(t) {
            Err(e) => Err(e),
            Ok(p) => Ok(FlagValues { port_range: Some(p), ..f }),
        }
    } else {
        match size_of_text(t) {
            Err(e) => Err(e),
            Ok(n) => if n == 0 {
                Err("-x rate must be > 0"@)
            } else {
                Ok(FlagValues { rate_limit: n as u64, ..f })
            },
        }
    }
}

/// What flag `a`, which stands alone, does to the flags; `None` if there is no
/// such flag.
pub open spec fn with_switch(a: Seq<char>, f: FlagValues) -> Option<FlagValues> {
    if a == "-c"@ {
        Some(FlagValues { check: true, check_set: true, ..f })
    } else if a == "-C"@ {
        Some(FlagValues { check: false, check_set: true, ..f })
    } else if a == "-e"@ {
        Some(FlagValues { crypt: true, crypt_set: true, ..f })
    } else if a == "-E"@ {
        Some(FlagValues { crypt: false, crypt_set: true, ..f })
    } else if a == "-z"@ {
        Some(FlagValues { reverse: true, ..f })
    } else if a == "-A"@ {
        Some(FlagValues { resume: true, ..f })
    } else if a == "-J"@ {
        Some(FlagValues { json: true, ..f })
    } else if a == "-r"@ {
        Some(FlagValues { recurse: true, ..f })
    } else if a == "--preserve"@ || a == "-p"@ {
        Some(FlagValues { preserve: true, ..f })
    } else {
        None
    }
}

/// What the argument at index `i` does to the flags: the index of the next
/// argument to look at and the flags from there on.
pub open spec fn flag_step(args: Seq<Seq<char>>, i: int, f: FlagValues) -> Result<
    (int, FlagValues),
    Seq<char>,
> {
    let a = args[i];
    if takes_value(a) {
        match value_at(args, i + 1, a) {
            Err(e) => Err(e),
            Ok(t) => match with_value(a, t, f) {
                Err(e) => Err(e),
                Ok(g) => Ok((i + 2, g)),
            },
        }
    } else if with_switch(a, f) is Some {
        Ok((i + 1, with_switch(a, f)->0))
    } else if a == "--"@ {
        Ok((args.len() as int, FlagValues { rest: f.rest + args.skip(i + 1), ..f }))
    } else if starts(a, "-"@) {
        Err("unknown flag "@ + a)
    } else {
        Ok((i + 1, FlagValues { rest: f.rest.push(a), ..f }))
    }
}

/// The flags after the arguments from index `i` on.
pub open spec fn flags_from(args: Seq<Seq<char>>, i: int, f: FlagValues) -> Result<
    FlagValues,
    Seq<char>,
>
    decreases args.len() - i,
{
    if i < 0 || i >= args.len() {
        Ok(f)
    } else {
        match flag_step(args, i, f) {
            Err(e) => Err(e),
            Ok(n) => flags_from(args, n.0, n.1),
        }
    }
}

/// The flags with the port range of the environment, unless they have one.
pub open spec fn with_env_range(f: FlagValues, env: Option<Seq<char>>) -> Result<
    FlagValues,
    Seq<char>,
> {
    match env {
        Some(s) if f.port_range is None && trimmed(s).len() > 0 => match port_range_of(s) {
            Err(e) => Err(e),
            Ok(p) => Ok(FlagValues { port_range: Some(p), ..f }),
        },
        _ => Ok(f),
    }
}

/// The flags that arguments and the port range of the environment stand for.
pub open spec fn flags_of(args: Seq<Seq<char>>, env: Option<Seq<char>>) -> Result<
    FlagValues,
    Seq<char>,
> {
    match flags_from(args, 0, default_flags()) {
        Err(e) => Err(e),
        Ok(f) => with_env_range(f, env),
    }
}

fn take_rest(f: &mut Flags, args: &[String], from: usize)
    requires
        from <= args@.len(),
    ensures
        final(f)@ == (FlagValues {
            rest: old(f)@.rest + texts(args@).skip(from as int),
            ..old(f)@
        }),
{
    let ghost was = texts(f.rest@);
    let ghost all = texts(args@);
    let ghost f0 = f@;
    let mut j: usize = from;
    assert(texts(f.rest@) =~= was + all.subrange(from as int, from as int));
    while j < args.len()
        invariant
            from <= j <= args.len(),
            all == texts(args@),
            f0.rest == was,
            texts(f.rest@) == was + all.subrange(from as int, j as int),
            f@ == (FlagValues { rest: f@.rest, ..f0 }),
        decreases args.len() - j,
    {
        let ghost r = f.rest@;
        f.rest.push(args[j].as_str().to_owned());
        assert(texts(f.rest@) =~= texts(r).push(all[j as int]));
        assert(texts(f.rest@) =~= was + all.subrange(from as int, j + 1));
        j += 1;
    }
    assert(all.subrange(from as int, j as int) =~= all.skip(from as int));
}

fn is_value_flag(a: &str) -> (r: bool)
    ensures
        r == takes_value(a@),
{
    same(a, "-l") || same(a, "-a") || same(a, "-i") || same(a, "-o") || same(a, "-s") || same(
        a,
        "-w",
    ) || same(a, "-P") || same(a, "-k") || same(a, "-R") || same(a, "-Z") || same(a, "-x")
}

fn set_value(f: &mut Flags, a: &str, t: &str) -> (r: Result<(), String>)
    requires
        takes_value(a@),
    ensures
        old(f)@.sound() && r is Ok ==> final(f)@.sound(),
        match r {
            Ok(_) => with_value(a@, t@, old(f)@) == Ok::<FlagValues, Seq<char>>(final(f)@),
            Err(e) => with_value(a@, t@, old(f)@) == Err::<FlagValues, Seq<char>>(e@),
        },
{
    if same(a, "-l") {
        f.listen = Some(t.to_owned());
    } else if same(a, "-a") {
        f.addr = Some(t.to_owned());
    } else if same(a, "-i") {
        f.input = Some(t.to_owned());
    } else if same(a, "-o") {
        f.output = Some(t.to_owned());
    } else if same(a, "-s") {
        match parse_number(t, usize::MAX as u64) {
            None => return Err("bad -s".to_owned()),
            Some(n) => {
                if n == 0 || n > MAX_STREAMS as u64 {
                    return Err("-s must be 1..64".to_owned());
                }
                f.streams = n as usize;
            },
        }
    } else if same(a, "-w") {
        f.wnd = parse_size(t)?;
    } else if same(a, "-P") {
        match parse_number(t, u64::MAX) {
            None => return Err("bad -P".to_owned()),
            Some(n) => f.progress = n,
        }
    } else if same(a, "-k") {
        f.key = Some(parse_key(t)?);
    } else if same(a, "-R") {
        match parse_number(t, u64::MAX) {
            None => return Err("bad -R".to_owned()),
            Some(n) => {
                f.resume_from = n;
                f.resume = true;
            },
        }
    } else if same(a, "-Z") {
        f.port_range = Some(parse_port_range(t)?);
    } else {
        let n: usize = parse_size(t)?;
        if n == 0 {
            return Err("-x rate must be > 0".to_owned());
        }
        f.rate_limit = n as u64;
    }
    Ok(())
}

fn set_switch(f: &mut Flags, a: &str) -> (r: bool)
    ensures
        old(f)@.sound() ==> final(f)@.sound(),
        match with_switch(a@, old(f)@) {
            Some(g) => r && final(f)@ == g,
            None => !r && final(f)@ == old(f)@,
        },
{
    if same(a, "-c") {
        f.check = true;
        f.check_set = true;
    } else if same(a, "-C") {
        f.check = false;
        f.check_set = true;
    } else if same(a, "-e") {
        f.crypt = true;
        f.crypt_set = true;
    } else if same(a, "-E") {
        f.crypt = false;
        f.crypt_set = true;
    } else if same(a, "-z") {
        f.reverse = true;
    } else if same(a, "-A") {
        f.resume = true;
    } else if same(a, "-J") {
        f.json = true;
    } else if same(a, "-r") {
        f.recurse = true;
    } else if same(a, "--preserve") || same(a, "-p") {
        f.preserve = true;
    } else {
        return false;
    }
    true
}

fn take_flag(f: &mut Flags, args: &[String], i: usize) -> (r: Result<usize, String>)
    requires
        i < args@.len(),
    ensures
        old(f)@.sound() && r is Ok ==> final(f)@.sound(),
        match r {
            Ok(n) => flag_step(texts(args@), i as int, old(f)@) == Ok::<
                (int, FlagValues),
                Seq<char>,
            >((n as int, final(f)@)) && i < n,
            Err(e) => flag_step(texts(args@), i as int, old(f)@) == Err::<
                (int, FlagValues),
                Seq<char>,
            >(e@),
        },
{
    let len: usize = args.len();
    let a: &str = args[i].as_str();
    assert(texts(args@)[i as int] == a@);
    if is_value_flag(a) {
        let t: &str = need(args, i + 1, a)?;
        set_value(f, a, t)?;
        return Ok(i + 2);
    }
    if set_switch(f, a) {
        return Ok(i + 1);
    }
    if same(a, "--") {
        take_rest(f, args, i + 1);
        return Ok(len);
    }
    if starts_with(a, "-") {
        let mut m: String = "unknown flag ".to_owned();
        m.append(a);
        return Err(m);
    }
    let ghost was = f.rest@;
    f.rest.push(a.to_owned());
    assert(texts(f.rest@) =~= texts(was).push(a@));
    Ok(i + 1)
}

/// Reads the arguments of a command. `port_range_env` is the port range of the
/// environment, which counts where the arguments name none.
pub fn parse_flags(args: &[String], port_range_env: Option<&str>) -> (r: Result<Flags, String>)
    ensures
        match r {
            Ok(f) => flags_of(texts(args@), opt_str(port_range_env)) == Ok::<
                FlagValues,
                Seq<char>,
            >(f@),
            Err(e) => flags_of(texts(args@), opt_str(port_range_env)) == Err::<
                FlagValues,
                Seq<char>,
            >(e@),
        },
        r matches Ok(f) ==> f@.sound(),
{
    let mut f: Flags = Flags {
        listen: None,
        addr: None,
        input: None,
        output: None,
        streams: DEFAULT_STREAMS,
        wnd: DEFAULT_WND,
        progress: 0,
        check: false,
        check_set: false,
        crypt: false,
        crypt_set: false,
        key: None,
        reverse: false,
        resume: false,
        resume_from: 0,
        json: false,
        recurse: false,
        port_range: None,
        preserve: false,
        rate_limit: 0,
        rest: Vec::new(),
    };
    assert(texts(f.rest@) =~= Seq::empty());
    let ghost all = flags_from(texts(args@), 0, default_flags());
    let mut i: usize = 0;
    while i < args.len()
        invariant
            all == flags_from(texts(args@), 0, default_flags()),
            all == flags_from(texts(args@), i as int, f@),
            f@.sound(),
        decreases args.len() - i,
    {
        i = take_flag(&mut f, args, i)?;
    }
    if f.port_range.is_none() {
        if let Some(s) = port_range_env {
            if chars_of(trim(s)).len() > 0 {
                f.port_range = Some(parse_port_range(s)?);
            }
        }
    }
    Ok(f)
}

} // verus!
