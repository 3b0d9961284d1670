//! The lines that a listening agent prints for the side that started it.

use crate::control::opt_bytes;
use crate::text::{
    debug_text, dec, dec_text, is_line, is_space, lemma_dec_plain,
    lemma_lines_roundtrip, lemma_number_dec, lemma_two_words, line_text, lines, number, parse_number,
    quoted, same, split_lines, split_words, texts, words,
};
use crate::wire::{hex, hex_text, key_of, lemma_hex_plain, lemma_key_roundtrip, parse_key};
use vstd::prelude::*;

verus! {

/// Most bytes of a banner that are waited for.
pub const MAX_BANNER: usize = 768;

/// The banner of an agent: its port, its key if it seals, and how much of the
/// file it has if it resumes.
pub open spec fn banner_text(port: u16, key: Option<Seq<u8>>, resume_from: Option<u64>) -> Seq<
    char,
> {
    "PORT "@ + dec(port as nat) + "\n"@ + (match key {
        Some(k) => "KEY "@ + hex_text(k) + "\n"@,
        None => Seq::empty(),
    }) + (match resume_from {
        Some(r) => "RESUME "@ + dec(r as nat) + "\n"@,
        None => Seq::empty(),
    })
}

/// The key, if the agent seals.
pub open spec fn banner_key(crypt: bool, key: Option<[u8; 32]>) -> Option<Seq<u8>> {
    if crypt {
        opt_bytes(key)
    } else {
        None
    }
}

/// The banner to print. An agent that seals has a key.
pub fn print_listen_banner(
    port: u16,
    crypt: bool,
    key: &Option<[u8; 32]>,
    resume_from: Option<u64>,
) -> (r: String)
    requires
        crypt ==> key is Some,
    ensures
        r@ == banner_text(port, banner_key(crypt, *key), resume_from),
{
    let mut r: String = "PORT ".to_owned();
    r.append(dec_text(port as u64).as_str());
    r.append("\n");
    let ghost a = r@;
    if crypt {
        if let Some(k) = key {
            let mut line: String = "KEY ".to_owned();
            line.append(hex(k).as_str());
            line.append("\n");
            r.append(line.as_str());
        }
    }
    assert(!crypt ==> r@ =~= a + Seq::<char>::empty());
    let ghost b = r@;
    match resume_from {
        Some(x) => {
            let mut line: String = "RESUME ".to_owned();
            line.append(dec_text(x).as_str());
            line.append("\n");
            r.append(line.as_str());
        },
        None => {
            assert(r@ =~= b + Seq::<char>::empty());
        },
    }
    r
}

/// Number of line feeds among the first `n` bytes.
pub open spec fn line_feeds(b: Seq<u8>, n: int) -> nat
    decreases n,
{
    if n <= 0 {
        0
    } else {
        line_feeds(b, n - 1) + if b[n - 1] == 10 {
            1nat
        } else {
            0nat
        }
    }
}

/// Number of lines that are waited for.
pub open spec fn lines_expected(expect_key: bool, expect_resume: bool) -> nat {
    1 + (if expect_key {
        1nat
    } else {
        0nat
    }) + (if expect_resume {
        1nat
    } else {
        0nat
    })
}

/// `true` when no more of a banner is to be waited for.
pub fn banner_complete(buf: &[u8], expect_key: bool, expect_resume: bool) -> (r: bool)
    ensures
        r == (line_feeds(buf@, buf@.len() as int) >= lines_expected(expect_key, expect_resume)
            || buf@.len() > MAX_BANNER),
{
    let mut need: usize = 1;
    if expect_key {
        need += 1;
    }
    if expect_resume {
        need += 1;
    }
    let mut n: usize = 0;
    let mut i: usize = 0;
    while i < buf.len()
        invariant
            i <= buf.len(),
            n <= i,
            n == line_feeds(buf@, i as int),
        decreases buf.len() - i,
    {
        if buf[i] == 10 {
            n += 1;
        }
        i += 1;
    }
    n >= need || buf.len() > MAX_BANNER
}

/// What a banner says.
pub struct Banner {
    pub port: u16,
    pub key: Option<[u8; 32]>,
    pub resume_from: u64,
}

/// What the lines of a banner have said so far.
pub struct BannerSoFar {
    pub port: Option<u16>,
    pub key: Option<Seq<u8>>,
    pub resume_from: u64,
}

/// What one more line says.
pub open spec fn banner_line(b: BannerSoFar, line: Seq<char>) -> Result<BannerSoFar, Seq<char>> {
    let w = words(line);
    if w.len() == 0 {
        Ok(b)
    } else if w[0] == "PORT"@ {
        if w.len() < 2 {
            Err("PORT missing value"@)
        } else {
            match number(w[1], u16::MAX as nat) {
                None => Err("bad PORT"@),
                Some(p) => Ok(BannerSoFar { port: Some(p as u16), ..b }),
            }
        }
    } else if w[0] == "KEY"@ {
        if w.len() < 2 {
            Err("KEY missing value"@)
        } else {
            match key_of(w[1]) {
                Err(e) => Err(e),
                Ok(k) => Ok(BannerSoFar { key: Some(k), ..b }),
            }
        }
    } else if w[0] == "RESUME"@ {
        if w.len() < 2 {
            Err("RESUME missing value"@)
        } else {
            match number(w[1], u64::MAX as nat) {
                None => Err("bad RESUME"@),
                Some(r) => Ok(BannerSoFar { resume_from: r as u64, ..b }),
            }
        }
    } else {
        Ok(b)
    }
}

/// What the lines from index `i` on say.
pub open spec fn banner_lines(b: BannerSoFar, ls: Seq<Seq<char>>, i: int) -> Result<
    BannerSoFar,
    Seq<char>,
>
    decreases ls.len() - i,
{
    if i < 0 || i >= ls.len() {
        Ok(b)
    } else {
        match banner_line(b, ls[i]) {
            Err(e) => Err(e),
            Ok(c) => banner_lines(c, ls, i + 1),
        }
    }
}

/// What a whole banner says: port, key and resume offset.
pub open spec fn banner_in(s: Seq<char>, expect_key: bool) -> Result<
    (u16, Option<Seq<u8>>, u64),
    Seq<char>,
> {
    match banner_lines(BannerSoFar { port: None, key: None, resume_from: 0 }, lines(s), 0) {
        Err(e) => Err(e),
        Ok(b) => if b.port is None {
            Err("remote did not print PORT: "@ + debug_text(s))
        } else if expect_key && b.key is None {
            Err("remote did not print KEY (upgrade remote bbx?): "@ + debug_text(s))
        } else {
            Ok((b.port->0, b.key, b.resume_from))
        },
    }
}

/// Reads the banner of an agent.
pub fn parse_banner(s: &str, expect_key: bool) -> (r: Result<Banner, String>)
    ensures
        match r {
            Ok(b) => banner_in(s@, expect_key) == Ok::<(u16, Option<Seq<u8>>, u64), Seq<char>>(
                (b.port, opt_bytes(b.key), b.resume_from),
            ),
            Err(e) => banner_in(s@, expect_key) == Err::<(u16, Option<Seq<u8>>, u64), Seq<char>>(
                e@,
            ),
        },
{
    let ls: Vec<String> = split_lines(s);
    let ghost all = banner_lines(
        BannerSoFar { port: None, key: None, resume_from: 0 },
        lines(s@),
        0,
    );
    let mut port: Option<u16> = None;
    let mut key: Option<[u8; 32]> = None;
    let mut resume_from: u64 = 0;
    let mut i: usize = 0;
    assert(texts(ls@).len() == ls@.len());
    while i < ls.len()
        invariant
            i <= ls.len(),
            texts(ls@) == lines(s@),
            texts(ls@).len() == ls@.len(),
            all == banner_lines(
                BannerSoFar { port: None, key: None, resume_from: 0 },
                lines(s@),
                0,
            ),
            all == banner_lines(
                BannerSoFar { port, key: opt_bytes(key), resume_from },
                lines(s@),
                i as int,
            ),
        decreases ls.len() - i,
    {
        let w: Vec<String> = split_words(ls[i].as_str());
        assert(lines(s@)[i as int] == ls@[i as int]@);
        assert(texts(w@).len() == w@.len());
        if w.len() > 0 {
            assert(texts(w@)[0] == w@[0]@);
            assert(w.len() > 1 ==> texts(w@)[1] == w@[1]@);
            let tag: &str = w[0].as_str();
            if same(tag, "PORT") {
                if w.len() < 2 {
                    return Err("PORT missing value".to_owned());
                }
                match parse_number(w[1].as_str(), u16::MAX as u64) {
                    None => return Err("bad PORT".to_owned()),
                    Some(p) => port = Some(p as u16),
                }
            } else if same(tag, "KEY") {
                if w.len() < 2 {
                    return Err("KEY missing value".to_owned());
                }
                key = Some(parse_key(w[1].as_str())?);
            } else if same(tag, "RESUME") {
                if w.len() < 2 {
                    return Err("RESUME missing value".to_owned());
                }
                match parse_number(w[1].as_str(), u64::MAX) {
                    None => return Err("bad RESUME".to_owned()),
                    Some(x) => resume_from = x,
                }
            }
        }
        i += 1;
    }
    match port {
        None => {
            let mut m: String = "remote did not print PORT: ".to_owned();
            m.append(quoted(s).as_str());
            Err(m)
        },
        Some(p) => {
            if expect_key && key.is_none() {
                let mut m: String = "remote did not print KEY (upgrade remote bbx?): ".to_owned();
                m.append(quoted(s).as_str());
                return Err(m);
            }
            Ok(Banner { port: p, key, resume_from })
        },
    }
}

/// A line made of a tag and a value.
proof fn lemma_tag_line(tag: Seq<char>, value: Seq<char>)
    requires
        tag.len() > 0,
        value.len() > 0,
        forall|i: int| 0 <= i < tag.len() ==> !is_space(#[trigger] tag[i]),
        forall|i: int| 0 <= i < value.len() ==> !is_space(#[trigger] value[i]),
    ensures
        is_line(tag + seq![' '] + value),
        words(tag + seq![' '] + value) == seq![tag, value],
{
    let l = tag + seq![' '] + value;
    lemma_two_words(tag, value);
    assert forall|j: int| 0 <= j < l.len() implies l[j] != '\n' by {
        if j < tag.len() {
            assert(!is_space(tag[j]));
        } else if j > tag.len() {
            assert(!is_space(value[j - tag.len() - 1]));
        }
    }
    assert(!is_space(value[value.len() - 1]));
    assert(l.last() == value[value.len() - 1]);
}

/// The side that started an agent reads from its banner what the agent printed.
pub proof fn lemma_banner_roundtrip(port: u16, key: Option<Seq<u8>>, resume_from: Option<u64>)
    requires
        key matches Some(k) ==> k.len() == 32,
    ensures
        banner_in(banner_text(port, key, resume_from), key is Some) == Ok::<
            (u16, Option<Seq<u8>>, u64),
            Seq<char>,
        >(
            (
                port,
                key,
                match resume_from {
                    Some(r) => r,
                    None => 0,
                },
            ),
        ),
{
    reveal_strlit("PORT ");
    reveal_strlit("KEY ");
    reveal_strlit("RESUME ");
    reveal_strlit("PORT");
    reveal_strlit("KEY");
    reveal_strlit("RESUME");
    reveal_strlit("\n");
    let none = Seq::<Seq<char>>::empty();
    let p = "PORT"@ + seq![' '] + dec(port as nat);
    lemma_dec_plain(port as nat);
    lemma_number_dec(port as nat, u16::MAX as nat);
    lemma_tag_line("PORT"@, dec(port as nat));
    let kl = match key {
        Some(k) => {
            lemma_hex_plain(k);
            lemma_key_roundtrip(k);
            lemma_tag_line("KEY"@, hex_text(k));
            seq!["KEY"@ + seq![' '] + hex_text(k)]
        },
        None => none,
    };
    let rl = match resume_from {
        Some(r) => {
            lemma_dec_plain(r as nat);
            lemma_number_dec(r as nat, u64::MAX as nat);
            lemma_tag_line("RESUME"@, dec(r as nat));
            seq!["RESUME"@ + seq![' '] + dec(r as nat)]
        },
        None => none,
    };
    let ls = seq![p] + kl + rl;
    lemma_lines_roundtrip(ls);
    let t = banner_text(port, key, resume_from);
    assert(line_text(rl) =~= match resume_from {
        Some(r) => "RESUME "@ + dec(r as nat) + "\n"@,
        None => Seq::<char>::empty(),
    }) by {
        if resume_from is Some {
            assert(rl.skip(1) =~= none);
            assert(line_text(rl.skip(1)) =~= Seq::<char>::empty());
        }
    }
    assert(line_text(kl + rl) =~= (match key {
        Some(k) => "KEY "@ + hex_text(k) + "\n"@,
        None => Seq::<char>::empty(),
    }) + line_text(rl)) by {
        if key is Some {
            assert((kl + rl).skip(1) =~= rl);
        } else {
            assert(kl + rl =~= rl);
        }
    }
    assert(ls.skip(1) =~= kl + rl);
    assert(line_text(ls) =~= t);
    let b0 = BannerSoFar { port: None, key: None, resume_from: 0 };
    let b1 = BannerSoFar { port: Some(port), key: None, resume_from: 0 };
    assert(ls[0] == p);
    assert(banner_lines(b0, ls, 0) == banner_lines(b1, ls, 1));
    let b2 = BannerSoFar { port: Some(port), key, resume_from: 0 };
    let n = 1 + kl.len() as int;
    assert(banner_lines(b1, ls, 1) == banner_lines(b2, ls, n)) by {
        if key is Some {
            assert(ls[1] == kl[0]);
        }
    }
    if resume_from is Some {
        assert(ls[n] == rl[0]);
        assert(banner_lines(b2, ls, n) == banner_lines(
            BannerSoFar { port: Some(port), key, resume_from: resume_from->0 },
            ls,
            n + 1,
        ));
    }
}

} // verus!
