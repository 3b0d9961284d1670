use bbx::banner::{banner_complete, parse_banner, print_listen_banner};
use bbx::copies::{
    cp_pull_forward, cp_pull_reverse, cp_pull_tree, cp_push_forward, cp_push_reverse, cp_push_tree,
    dial_agent, OneCopy,
};
use bbx::flags::{need, parse_flags, parse_port_range, parse_size, Flags};
use bbx::jobs::{cmd_cp, cmd_sink, cmd_source, env_key, parse_verb, Endpoint, Verb};
use bbx::liveness::{
    accept_err, agent_wait_timeout, digest_warning, file_mode_mtime, finish_agent, io_err, io_timeout,
    sink_done_event, stream_aborted, streams_outcome, AgentAction, AgentEvent, Fill,
};
use bbx::remote::{
    ce_flags, cp_line, cp_mode, dial_addr, join_port, offset_flag, preserve_flag, pull_forward_command,
    pull_offset, pull_reverse_command, push_forward_command, push_reverse_command, rate_flag,
    remote_bin, remote_file_len, resume_flag, stat_command, z_flag, AgentOptions, CpEnds, CpMode,
};
use bbx::session::{
    banner_session_key, check_clear, listen_with_key, run_sink_connect, run_sink_listen,
    run_source_connect, run_source_listen, session_key,
};
use bbx::streams::{dial_hello, dial_streams, AcceptSlots};
use bbx::text::{
    dec_text, find_char, find_text, has_text, parse_number, rfind_char, split_lines, split_on,
    split_words, starts_with, trim,
};
use bbx::tree::LocalFile;
use bbx::tree_run::{TreeAction, TreeEvent, TreeRun, TreeStage};
use bbx::wire::hex;

fn args(s: &str) -> Vec<String> {
    s.split(' ').filter(|w| !w.is_empty()).map(|w| w.to_string()).collect()
}

fn flags(s: &str) -> Result<Flags, String> {
    parse_flags(&args(s), None)
}

#[test]
fn port_range_parse() {
    assert_eq!(parse_port_range("50000-50010").unwrap(), (50000, 50010));
    assert_eq!(parse_port_range("1000:1001").unwrap(), (1000, 1001));
    assert!(parse_port_range("0-10").is_err());
    assert!(parse_port_range("20-10").is_err());
}

#[test]
fn port_range_messages() {
    let err = |s: &str| parse_port_range(s).err().unwrap();
    assert_eq!(parse_port_range(" 1 - 65535 ").unwrap(), (1, 65535));
    assert_eq!(err("12"), "bad port range \"12\", want LO-HI");
    assert_eq!(err("x-1"), "bad port range low in \"x-1\"");
    assert_eq!(err("1-65536"), "bad port range high in \"1-65536\"");
    assert_eq!(err("1:2-3"), "bad port range low in \"1:2-3\"");
    assert_eq!(err("0-10"), "port range LO must be ≥ 1");
    assert_eq!(err("20-10"), "port range HI 10 < LO 20");
}

#[test]
fn sizes() {
    assert_eq!(parse_size("12").unwrap(), 12);
    assert_eq!(parse_size(" 64K ").unwrap(), 65536);
    assert_eq!(parse_size("10m").unwrap(), 10 << 20);
    assert_eq!(parse_size("2g").unwrap(), 2 << 30);
    assert_eq!(parse_size("+3").unwrap(), 3);
    assert_eq!(parse_size("99999999999999999G").unwrap(), usize::MAX);
    assert_eq!(parse_size("  ").err().unwrap(), "empty size");
    assert_eq!(parse_size("K").err().unwrap(), "bad size K");
    assert_eq!(parse_size("1.5M").err().unwrap(), "bad size 1.5M");
    assert_eq!(parse_size("-1").err().unwrap(), "bad size -1");
}

#[test]
fn defaults() {
    let f = flags("").unwrap();
    assert_eq!((f.streams, f.wnd, f.progress), (4, 4 << 20, 0));
    assert!(!f.check && !f.check_set && !f.crypt && !f.crypt_set && !f.resume && !f.json);
    assert!(f.listen.is_none() && f.key.is_none() && f.port_range.is_none() && f.rest.is_empty());
}

#[test]
fn every_flag() {
    let k = "ab".repeat(32);
    let f = flags(&format!(
        "-l L -a A -i I -o O -s 64 -w 8K -P 2 -c -e -k {k} -z -A -J -r -R 9 -Z 5-6 -p -x 1M x -- -y -s"
    ))
    .unwrap();
    assert_eq!(f.listen.as_deref(), Some("L"));
    assert_eq!(f.addr.as_deref(), Some("A"));
    assert_eq!(f.input.as_deref(), Some("I"));
    assert_eq!(f.output.as_deref(), Some("O"));
    assert_eq!((f.streams, f.wnd, f.progress), (64, 8192, 2));
    assert!(f.check && f.check_set && f.crypt && f.crypt_set);
    assert_eq!(f.key, Some([0xab; 32]));
    assert!(f.reverse && f.resume && f.json && f.recurse && f.preserve);
    assert_eq!(f.resume_from, 9);
    assert_eq!(f.port_range, Some((5, 6)));
    assert_eq!(f.rate_limit, 1 << 20);
    assert_eq!(f.rest, vec!["x", "-y", "-s"]);
    let f = flags("-c -C -e -E --preserve").unwrap();
    assert!(!f.check && f.check_set && !f.crypt && f.crypt_set && f.preserve);
}

#[test]
fn flag_errors() {
    let err = |s: &str| flags(s).err().unwrap();
    assert_eq!(err("-s"), "-s needs a value");
    assert_eq!(err("a -o"), "-o needs a value");
    assert_eq!(err("-s x"), "bad -s");
    assert_eq!(err("-s 0"), "-s must be 1..64");
    assert_eq!(err("-s 65"), "-s must be 1..64");
    assert_eq!(err("-P x"), "bad -P");
    assert_eq!(err("-R -1"), "bad -R");
    assert_eq!(err("-w x"), "bad size x");
    assert_eq!(err("-x 0"), "-x rate must be > 0");
    assert_eq!(err("-k 12"), "key must be 64 hex chars (32 bytes)");
    assert_eq!(err("-Z 3"), "bad port range \"3\", want LO-HI");
    assert_eq!(err("-q"), "unknown flag -q");
    assert_eq!(err("-"), "unknown flag -");
    assert_eq!(need(&args("a b"), 1, "-f").unwrap(), "b");
    assert_eq!(need(&args("a b"), 2, "-f").err().unwrap(), "-f needs a value");
}

#[test]
fn port_range_of_the_environment() {
    let p = |s: &str, e: Option<&str>| parse_flags(&args(s), e).map(|f| f.port_range);
    assert_eq!(p("", Some("7-8")).unwrap(), Some((7, 8)));
    assert_eq!(p("-Z 1-2", Some("7-8")).unwrap(), Some((1, 2)));
    assert_eq!(p("-Z 1-2", Some("bad")).unwrap(), Some((1, 2)));
    assert_eq!(p("", Some("  ")).unwrap(), None);
    assert_eq!(p("", Some("bad")).err().unwrap(), "bad port range \"bad\", want LO-HI");
}

#[test]
fn verbs() {
    assert!(matches!(parse_verb("sink"), Some(Verb::Sink)));
    assert!(matches!(parse_verb("source"), Some(Verb::Source)));
    assert!(matches!(parse_verb("cp"), Some(Verb::Cp)));
    for h in ["-h", "--help", "help"] {
        assert!(matches!(parse_verb(h), Some(Verb::Help)));
    }
    assert!(parse_verb("mv").is_none());
}

#[test]
fn sink_and_source_jobs() {
    let j = cmd_sink(&args("-l 0.0.0.0:0 -o out"), None, None).unwrap();
    assert_eq!(j.file, "out");
    assert!(matches!(&j.endpoint, Endpoint::Listen(a) if a == "0.0.0.0:0"));
    assert!(!j.crypt && j.key.is_none());
    let k = "01".repeat(32);
    let j = cmd_sink(&args("-a h:1 -o out"), None, Some(&k)).unwrap();
    assert!(matches!(&j.endpoint, Endpoint::Connect(a) if a == "h:1"));
    assert!(j.crypt);
    assert_eq!(j.key, Some([1; 32]));
    let own = "02".repeat(32);
    let j = cmd_source(&args(&format!("-a h:1 -i in -k {own}")), Some("3-4"), Some(&k)).unwrap();
    assert_eq!(j.key, Some([2; 32]));
    assert_eq!(j.flags.port_range, Some((3, 4)));
    assert!(cmd_source(&args("-l h:1 -i in -e"), None, Some("junk")).unwrap().key.is_none());
    let sink = |s: &str| cmd_sink(&args(s), None, None).err().unwrap();
    let source = |s: &str| cmd_source(&args(s), None, None).err().unwrap();
    assert_eq!(sink("-l x:0"), "sink needs -o FILE");
    assert_eq!(sink("-o f"), "sink needs exactly one of -l ADDR or -a ADDR");
    assert_eq!(sink("-o f -l a -a b"), "sink needs exactly one of -l ADDR or -a ADDR");
    assert_eq!(sink("-s 0"), "-s must be 1..64");
    assert_eq!(source("-l x:0"), "source needs -i FILE");
    assert_eq!(source("-i f"), "source needs exactly one of -a ADDR or -l ADDR");
    assert_eq!(env_key(None), None);
    assert_eq!(env_key(Some(&k)), Some([1; 32]));
}

#[test]
fn copy_jobs() {
    let j = cmd_cp(&args("big user@h:~/big"), None, None).unwrap();
    assert!(j.push && j.check && j.crypt && j.fixed_key.is_none());
    assert_eq!((j.remote.as_str(), j.rpath.as_str(), j.local.as_str()), ("user@h", "~/big", "big"));
    let j = cmd_cp(&args("-C -E -z h1:/a ./b"), None, None).unwrap();
    assert!(!j.push && !j.check && !j.crypt && j.flags.reverse);
    assert_eq!((j.remote.as_str(), j.rpath.as_str(), j.local.as_str()), ("h1", "/a", "./b"));
    let err = |s: &str| cmd_cp(&args(s), None, None).err().unwrap();
    assert_eq!(err("a"), "cp needs SRC DEST");
    assert_eq!(err("a b c"), "cp needs SRC DEST");
    assert_eq!(err("a b"), "cp needs one remote host:path side");
    assert_eq!(err("h1:a h2:b"), "remote→remote not supported");
    assert_eq!(err("a host:"), "bad host:path");
}

#[test]
fn banner_printed_and_read() {
    let key = [0x5au8; 32];
    let b = print_listen_banner(4000, true, &Some(key), Some(77));
    assert_eq!(b, format!("PORT 4000\nKEY {}\nRESUME 77\n", hex(&key)));
    let p = parse_banner(&b, true).unwrap();
    assert_eq!((p.port, p.key, p.resume_from), (4000, Some(key), 77));
    assert_eq!(print_listen_banner(1, false, &Some(key), None), "PORT 1\n");
    let p = parse_banner("PORT 1\n", false).unwrap();
    assert_eq!((p.port, p.key, p.resume_from), (1, None, 0));
}

#[test]
fn banner_errors() {
    let err = |s: &str, k: bool| parse_banner(s, k).err().unwrap();
    assert_eq!(err("hi\n", false), "remote did not print PORT: \"hi\\n\"");
    assert_eq!(
        err("PORT 1\n", true),
        "remote did not print KEY (upgrade remote bbx?): \"PORT 1\\n\""
    );
    assert_eq!(err("PORT\n", false), "PORT missing value");
    assert_eq!(err("PORT x\n", false), "bad PORT");
    assert_eq!(err("KEY\n", false), "KEY missing value");
    assert_eq!(err("KEY 00\n", false), "key must be 64 hex chars (32 bytes)");
    assert_eq!(err("RESUME\n", false), "RESUME missing value");
    assert_eq!(err("PORT 1\nRESUME -\n", false), "bad RESUME");
    assert_eq!(parse_banner("motd\r\n\n  PORT\t9 extra\r\nPORT 8", false).unwrap().port, 8);
}

#[test]
fn banner_waited_for() {
    assert!(!banner_complete(b"PORT 1", false, false));
    assert!(banner_complete(b"PORT 1\n", false, false));
    assert!(!banner_complete(b"PORT 1\n", true, false));
    assert!(!banner_complete(b"PORT 1\nKEY\n", true, true));
    assert!(banner_complete(b"PORT 1\nKEY\n\n", true, true));
    assert!(!banner_complete(&[b'x'; 768], false, false));
    assert!(banner_complete(&[b'x'; 769], false, false));
}

#[test]
fn listening_sides() {
    let p = run_sink_listen("127.0.0.1:0", Some((5, 9)), true, Some([1; 32]), true, 42, None, None).unwrap();
    assert_eq!((p.bind.first, p.bind.last), (5, 9));
    assert_eq!(p.banner(6), format!("PORT 6\nKEY {}\nRESUME 42\n", "01".repeat(32)));
    let p = run_sink_listen("127.0.0.1:0", None, true, None, false, 42, None, None).unwrap();
    assert!(p.key.is_some() && p.resume_from.is_none());
    let p = run_source_listen("127.0.0.1:7", None, false, Some([1; 32]), None, None).unwrap();
    assert!(p.key.is_none());
    assert_eq!(p.banner(7), "PORT 7\n");
    assert!(run_source_listen("10.0.0.1:7", None, false, None, None, None).is_err());
    assert!(run_source_listen("10.0.0.1:7", None, false, None, Some("1"), None).is_ok());
    assert_eq!(
        run_source_listen("nowhere", None, true, Some([1; 32]), None, None).err().unwrap(),
        "bad listen addr \"nowhere\", want host:port"
    );
    let p = listen_with_key("h:1", None, true, Some([2; 32]), Some(3), None, None).unwrap();
    assert_eq!((p.key, p.resume_from), (Some([2; 32]), Some(3)));
}

#[test]
fn dialling_sides() {
    let k = [9u8; 32];
    let h = run_sink_connect("h:1", 2, true, Some(&k), None, None).unwrap();
    assert_eq!(h, dial_streams(2, Some(&k)));
    assert_eq!(h[1].len(), 20);
    let h = run_source_connect("127.0.0.1:1", 3, false, None, None, None).unwrap();
    assert_eq!(h, vec![vec![0, 0, 0, 0], vec![1, 0, 0, 0], vec![2, 0, 0, 0]]);
    assert_eq!(
        run_sink_connect("h:1", 2, true, None, None, None).err().unwrap(),
        "encrypt needs -k KEY (from peer KEY line)"
    );
    assert_eq!(
        run_source_connect("h:1", 2, true, None, None, None).err().unwrap(),
        "encrypt needs session KEY from peer"
    );
    assert!(run_source_connect("h:1", 2, false, None, None, None).is_err());
    assert!(check_clear(true, None, "h:1", None).is_ok());
}

#[test]
fn session_keys() {
    let k = Some([3u8; 32]);
    assert_eq!(session_key(false, k).unwrap(), None);
    assert_eq!(session_key(true, k).unwrap(), k);
    assert_ne!(session_key(true, None).unwrap(), session_key(true, None).unwrap());
    assert_eq!(banner_session_key(false, k, k).unwrap(), None);
    assert_eq!(banner_session_key(true, k, Some([4; 32])).unwrap(), k);
    assert_eq!(banner_session_key(true, None, k).unwrap(), k);
    assert_eq!(
        banner_session_key(true, None, None).err().unwrap(),
        "encrypt: no session key from peer"
    );
}

#[test]
fn streams_put_in_order() {
    let k = [1u8; 32];
    let mut s: AcceptSlots<&str> = AcceptSlots::new(3);
    for (id, name) in [(2u32, "c"), (0, "a"), (1, "b")] {
        assert!(!s.is_full());
        let h = dial_hello(id, Some(&k));
        let mut tag = [0u8; 16];
        tag.copy_from_slice(&h[4..]);
        s.place("sink", id, &tag, Some(&k), name).unwrap();
    }
    assert!(s.is_full());
    assert_eq!(s.streams(), 3);
    assert_eq!(s.finish(), vec!["a", "b", "c"]);
}

#[test]
fn connections_refused() {
    let k = [1u8; 32];
    let mut s: AcceptSlots<u8> = AcceptSlots::new(2);
    assert_eq!(s.check_id("source", 2).err().unwrap(), "source bad stream id 2 (expected 0..1)");
    assert_eq!(
        s.place("sink", 9, &[0; 16], None, 1).err().unwrap(),
        "sink bad stream id 9 (expected 0..1)"
    );
    assert_eq!(
        s.place("sink", 1, &[0; 16], Some(&k), 1).err().unwrap(),
        "sink bad stream-id MAC for id 1"
    );
    s.place("sink", 1, &[0; 16], None, 1).unwrap();
    assert_eq!(
        s.place("sink", 1, &[0; 16], None, 2).err().unwrap(),
        "sink duplicate stream id 1"
    );
    assert!(!s.is_full());
    let none: AcceptSlots<u8> = AcceptSlots::new(0);
    assert_eq!(none.check_id("x", 0).err().unwrap(), "x bad stream id 0 (expected 0..0)");
}

fn options() -> AgentOptions {
    AgentOptions { streams: 8, wnd: 4096, check: true, crypt: true, preserve: false, rate: 0 }
}

#[test]
fn flags_for_agents() {
    assert_eq!(z_flag(Some((5, 60))), " -Z 5-60");
    assert_eq!(z_flag(None), "");
    assert_eq!(ce_flags(true, false), "-c -E");
    assert_eq!(ce_flags(false, true), "-C -e");
    assert_eq!((resume_flag(true), resume_flag(false)), (" -A", ""));
    assert_eq!((preserve_flag(true), preserve_flag(false)), (" --preserve", ""));
    assert_eq!((rate_flag(7).as_str(), rate_flag(0).as_str()), (" -x 7", ""));
    assert_eq!(offset_flag(true, 7), " -R 7");
    assert_eq!(offset_flag(true, 0), "");
    assert_eq!(offset_flag(false, 7), "");
    assert_eq!(pull_offset(true, 7), 7);
    assert_eq!(pull_offset(false, 7), 0);
}

#[test]
fn agent_commands() {
    let mut o = options();
    assert_eq!(
        push_forward_command("bbx", "~/x", Some((1, 2)), true, &o),
        "'bbx' sink -l 0.0.0.0:0 -Z 1-2 -o \"$HOME/x\" -s 8 -w 4096 -c -e -A"
    );
    o.preserve = true;
    o.rate = 5;
    assert_eq!(
        push_reverse_command("bbx", "10.0.0.1:9", "/x", Some(&[0xab; 32]), false, &o),
        format!(
            "BBX_KEY={} 'bbx' sink -a '10.0.0.1:9' -o '/x' -s 8 -w 4096 -c -e --preserve -x 5",
            "ab".repeat(32)
        )
    );
    o.crypt = false;
    assert_eq!(
        pull_forward_command("bbx", "10.0.0.1:9", "/x", None, true, 3, &o),
        "'bbx' source -a '10.0.0.1:9' -i '/x' -s 8 -w 4096 -c -E -R 3 --preserve -x 5"
    );
    assert_eq!(
        pull_reverse_command("bbx", "/x", None, Some(&[1; 32]), false, 3, &o),
        "'bbx' source -l 0.0.0.0:0 -i '/x' -s 8 -w 4096 -c -E --preserve -x 5"
    );
    o.crypt = true;
    assert!(pull_reverse_command("bbx", "/x", None, Some(&[1; 32]), false, 3, &o)
        .starts_with("BBX_KEY=0101"));
}

#[test]
fn agent_reads_the_settings_of_its_copy() {
    let mut o = options();
    o.preserve = true;
    o.rate = 123;
    let c = push_forward_command("bbx", "plain", Some((10, 20)), true, &o);
    let words: Vec<String> = c.split(' ').skip(2).map(|w| w.trim_matches('\'').to_string()).collect();
    let j = cmd_sink(&words, None, None).unwrap();
    assert_eq!(j.file, "plain");
    assert!(matches!(&j.endpoint, Endpoint::Listen(a) if a == "0.0.0.0:0"));
    let f = j.flags;
    assert_eq!((f.streams, f.wnd, f.rate_limit), (8, 4096, 123));
    assert!(f.check && f.crypt && f.resume && f.preserve && f.key.is_none());
    assert_eq!(f.port_range, Some((10, 20)));
}

#[test]
fn remote_lengths() {
    assert_eq!(stat_command("/x"), "stat -c %s '/x' 2>/dev/null || echo 0");
    assert_eq!(remote_file_len("12\n").unwrap(), 12);
    assert_eq!(remote_file_len("motd\n34\n\n").unwrap(), 34);
    assert_eq!(remote_file_len(" \n").unwrap(), 0);
    assert_eq!(remote_file_len("no\n").err().unwrap(), "bad remote size: \"no\\n\"");
    assert_eq!(dial_addr("u@h", 5), "h:5");
    assert_eq!(join_port("10.0.0.1", 5), "10.0.0.1:5");
    assert_eq!(remote_bin(None), "bbx");
    assert_eq!(remote_bin(Some("/b")), "/b");
}

#[test]
fn copy_lines() {
    let e = CpEnds { local: "l", remote: "h", rpath: "/r", addr: "a:1" };
    assert_eq!(
        cp_line(&cp_mode(true, false), &e, 4, 9, true),
        "bbx: push l → h:/r via a:1 streams=4 resume_from=9 crypt=true"
    );
    assert_eq!(
        cp_line(&cp_mode(true, true), &e, 4, 9, true),
        "bbx: push -z l → h:/r dials a:1 resume_from=9"
    );
    assert_eq!(
        cp_line(&cp_mode(false, false), &e, 4, 9, true),
        "bbx: pull h:/r → l listen=a:1 resume_from=9"
    );
    assert_eq!(
        cp_line(&cp_mode(false, true), &e, 4, 9, true),
        "bbx: pull -z h:/r → l via a:1 resume_from=9"
    );
    assert_eq!(CpMode::PushForward.role(), "push remote sink");
    assert_eq!(CpMode::PullReverse.role(), "pull -z remote source");
}

#[test]
fn timeouts() {
    assert_eq!(io_timeout(None), 120);
    assert_eq!(io_timeout(Some("5")), 5);
    assert_eq!(io_timeout(Some("0")), 120);
    assert_eq!(io_timeout(Some(" 5")), 120);
    assert_eq!(agent_wait_timeout(Some("0"), Some("7")), 0);
    assert_eq!(agent_wait_timeout(Some("x"), Some("7")), 7);
    assert_eq!(agent_wait_timeout(None, None), 120);
}

#[test]
fn failures_told() {
    assert_eq!(
        io_err(3, "read", "Resource temporarily unavailable (os error 11)", 9),
        "stream 3 read timed out after 9s (peer stalled or dead)"
    );
    assert_eq!(io_err(3, "write", "broken pipe", 9), "stream 3 write: broken pipe");
    assert!(io_err(0, "read", "os error 110", 1).contains("timed out after 1s"));
    assert_eq!(
        io_err(0, "write", "No route to host (os error 113)", 120),
        "stream 0 write: No route to host (os error 113)"
    );
    assert_eq!(
        io_err(0, "write", "Connection timed out (os error 110)", 120),
        "stream 0 write timed out after 120s (peer stalled or dead)"
    );
    assert_eq!(io_err(1, "read", "x (os error 1100)", 5), "stream 1 read: x (os error 1100)");
    assert_eq!(
        accept_err("sink", 2, true, "x", 9),
        "sink accept[2] timed out after 9s (no peer connected)"
    );
    assert_eq!(accept_err("sink", 2, false, "x", 9), "sink accept[2]: x");
    assert_eq!(stream_aborted(1), "stream 1 aborted (peer stream failed)");
    assert!(digest_warning(false, true, false).unwrap().contains("local -C ignored"));
    assert!(digest_warning(true, true, false).is_none());
    assert!(digest_warning(false, false, false).is_none());
    assert!(digest_warning(false, true, true).is_none());
    assert_eq!(
        sink_done_event(5, 2),
        "{\"event\":\"done\",\"bytes\":5,\"total\":5,\"resumed_from\":2}"
    );
    assert_eq!(file_mode_mtime(0o104755, -1), (0o4755, u64::MAX));
}

fn ended(success: bool) -> AgentEvent {
    AgentEvent::Ended { success, status: "exit status: 1".to_string() }
}

#[test]
fn agents_waited_for() {
    let ok: Result<(), String> = Ok(());
    let bad: Result<(), String> = Err("transfer".to_string());
    let done = |t: &Result<(), String>, e: AgentEvent| match finish_agent(t, "role", &e, 4) {
        AgentAction::Done(r) => r,
        _ => panic!(),
    };
    assert_eq!(done(&ok, ended(true)), Ok(()));
    assert_eq!(done(&ok, ended(false)).err().unwrap(), "role exited exit status: 1");
    assert_eq!(done(&bad, ended(true)).err().unwrap(), "transfer");
    assert_eq!(
        done(&ok, AgentEvent::Unknown { error: "e".to_string() }).err().unwrap(),
        "role wait: e"
    );
    assert!(matches!(
        finish_agent(&ok, "role", &AgentEvent::Running { time_up: false }, 4),
        AgentAction::Wait
    ));
    match finish_agent(&ok, "role", &AgentEvent::Running { time_up: true }, 4) {
        AgentAction::Kill(r) => assert_eq!(r.err().unwrap(), "role wait timed out after 4s"),
        _ => panic!(),
    }
    for e in [
        AgentEvent::Running { time_up: true },
        AgentEvent::Running { time_up: false },
        AgentEvent::Unknown { error: "e".to_string() },
    ] {
        match finish_agent(&bad, "role", &e, 4) {
            AgentAction::Kill(r) => assert_eq!(r.err().unwrap(), "transfer"),
            _ => panic!(),
        }
    }
    assert_eq!(done(&bad, ended(false)).err().unwrap(), "transfer");
}

fn found(rel: &str) -> LocalFile {
    LocalFile { path: format!("/l/{rel}"), rel: rel.to_string() }
}

fn copied(a: TreeAction) -> (String, String, usize) {
    match a {
        TreeAction::Copy { remote_file, local_file, streams } => (remote_file, local_file, streams),
        _ => panic!(),
    }
}

#[test]
fn tree_pushed_file_by_file() {
    let tree = cp_push_tree("/r", true, &vec![found("b"), found("a/x")]).unwrap();
    let mut run = TreeRun::push(tree, 4);
    assert_eq!(run.files(), 2);
    match run.next(&TreeEvent::Start) {
        TreeAction::MakeRemote(c) => assert_eq!(c, "mkdir -p '/r' '/r/a'"),
        _ => panic!(),
    }
    match run.next(&TreeEvent::Made(Ok(()))) {
        TreeAction::Measure(p) => assert_eq!(p, "/l/a/x"),
        _ => panic!(),
    }
    let c = copied(run.next(&TreeEvent::Measured(Some(1048576))));
    assert_eq!(c, ("/r/a/x".to_string(), "/l/a/x".to_string(), 1));
    match run.next(&TreeEvent::Copied(Ok(()))) {
        TreeAction::Measure(p) => assert_eq!(p, "/l/b"),
        _ => panic!(),
    }
    let c = copied(run.next(&TreeEvent::Measured(Some(1048577))));
    assert_eq!(c, ("/r/b".to_string(), "/l/b".to_string(), 4));
    assert!(matches!(run.next(&TreeEvent::Copied(Ok(()))), TreeAction::Finish));
    assert!(matches!(run.stage, TreeStage::Done));
}

#[test]
fn tree_push_ends_with_the_first_failure() {
    let tree = || cp_push_tree("/r", true, &vec![found("a"), found("b")]).unwrap();
    let mut run = TreeRun::push(tree(), 4);
    run.next(&TreeEvent::Start);
    match run.next(&TreeEvent::Made(Err("mkdir -p failed".to_string()))) {
        TreeAction::Fail(e) => assert_eq!(e, "mkdir -p failed"),
        _ => panic!(),
    }
    let mut run = TreeRun::push(tree(), 4);
    run.next(&TreeEvent::Start);
    run.next(&TreeEvent::Made(Ok(())));
    run.next(&TreeEvent::Measured(None));
    match run.next(&TreeEvent::Copied(Err("lost".to_string()))) {
        TreeAction::Fail(e) => assert_eq!(e, "lost"),
        _ => panic!(),
    }
    assert!(matches!(run.stage, TreeStage::Failed));
    assert_eq!(run.at, 0);
}

#[test]
fn tree_without_files_is_not_begun() {
    assert_eq!(
        cp_push_tree("/r", true, &Vec::new()).err().unwrap(),
        "no files under source directory"
    );
    assert!(cp_pull_tree("").is_err());
}

fn pulled(names: &[&str]) -> TreeRun {
    let names = names.iter().map(|n| n.to_string()).collect();
    let mut run = TreeRun::pull("/r".to_string(), "d".to_string(), names, 8);
    match run.next(&TreeEvent::Start) {
        TreeAction::MakeLocal(d) => assert_eq!(d, "d"),
        _ => panic!(),
    }
    run
}

#[test]
fn tree_pulled_file_by_file() {
    let mut run = pulled(&["a/x", "b"]);
    match run.next(&TreeEvent::Made(Ok(()))) {
        TreeAction::Look(ps) => assert_eq!(ps, vec!["d/a", "d/a/x"]),
        _ => panic!(),
    }
    let c = copied(run.next(&TreeEvent::Looked(vec![false, false])));
    assert_eq!(c, ("/r/a/x".to_string(), "d/a/x".to_string(), 1));
    match run.next(&TreeEvent::Copied(Ok(()))) {
        TreeAction::Look(ps) => assert_eq!(ps, vec!["d/b"]),
        _ => panic!(),
    }
    match run.next(&TreeEvent::Looked(vec![true])) {
        TreeAction::Fail(e) => assert_eq!(e, "symlink in destination path rejected: d/b"),
        _ => panic!(),
    }
    assert!(matches!(run.stage, TreeStage::Failed));
}

#[test]
fn tree_pull_ends_at_an_unsafe_name() {
    let mut run = pulled(&["a", "../b", "c"]);
    run.next(&TreeEvent::Made(Ok(())));
    run.next(&TreeEvent::Looked(vec![false]));
    match run.next(&TreeEvent::Copied(Ok(()))) {
        TreeAction::Fail(e) => assert_eq!(e, "unsafe remote path rejected: ../b"),
        _ => panic!(),
    }
    assert_eq!(run.at, 1);
}

#[test]
fn buffers_filled() {
    let mut f = Fill { done: 0, off: 10 };
    f.advance(3, "unexpected EOF").unwrap();
    assert_eq!((f.done, f.off), (3, 13));
    assert_eq!(f.advance(0, "unexpected EOF").err().unwrap(), "unexpected EOF");
}

#[test]
fn texts_taken_apart() {
    assert_eq!(trim("\u{3000} a b\t\n"), "a b");
    assert_eq!(trim(" \u{85}"), "");
    assert_eq!(split_words(" a  b\u{a0}c\n"), vec!["a", "b", "c"]);
    assert_eq!(split_on("a,,b,", ','), vec!["a", "", "b", ""]);
    assert_eq!(split_lines("a\r\nb\n\nc\r"), vec!["a", "b", "", "c\r"]);
    assert_eq!(split_lines(""), Vec::<String>::new());
    let v: Vec<char> = "a:b:c".chars().collect();
    assert_eq!((find_char(&v, ':', 0), find_char(&v, ':', 2), find_char(&v, 'x', 0)), (Some(1), Some(3), None));
    assert_eq!(rfind_char(&v, ':'), Some(3));
    assert_eq!(find_text(&v, &":c".chars().collect()), Some(3));
    assert!(has_text("abc", "bc") && has_text("abc", "") && !has_text("abc", "ca"));
    assert!(starts_with("abc", "ab") && !starts_with("a", "ab"));
    assert_eq!(dec_text(u64::MAX), u64::MAX.to_string());
    assert_eq!(dec_text(0), "0");
    assert_eq!(parse_number("+12", 12), Some(12));
    assert_eq!(parse_number("13", 12), None);
    assert_eq!(parse_number("", 12), None);
    assert_eq!(parse_number("+", 12), None);
    assert_eq!(parse_number("18446744073709551615", u64::MAX), Some(u64::MAX));
    assert_eq!(parse_number("18446744073709551616", u64::MAX), None);
    assert_eq!(parse_number("00012", 12), Some(12));
}

#[test]
fn copies_step_by_step() {
    let k = [0x0cu8; 32];
    let job = cmd_cp(&args("-A -Z 3-4 -p -x 2K -w 1K f u@h:/r"), None, None).unwrap();
    let one = OneCopy { bin: "b", job: &job, rpath: "/r/f", streams: 3 };
    let a = cp_push_forward(&one);
    assert_eq!(
        a.command,
        "'b' sink -l 0.0.0.0:0 -Z 3-4 -o '/r/f' -s 3 -w 1024 -c -e -A --preserve -x 2048"
    );
    assert!(a.expect_key && a.expect_resume);
    let b = parse_banner(&format!("PORT 77\nKEY {}\nRESUME 5\n", hex(&k)), true).unwrap();
    let d = dial_agent(&job, &b).unwrap();
    assert_eq!((d.addr.as_str(), d.key), ("h:77", Some(k)));
    let b = parse_banner("PORT 77\n", false).unwrap();
    assert_eq!(dial_agent(&job, &b).err().unwrap(), "encrypt: no session key from peer");
    assert_eq!(
        cp_push_reverse(&one, "x:1", Some(&k)),
        format!(
            "BBX_KEY={} 'b' sink -a 'x:1' -o '/r/f' -s 3 -w 1024 -c -e -A --preserve -x 2048",
            hex(&k)
        )
    );
    let job = cmd_cp(&args("-A -C -E h1:/r f"), None, Some(&hex(&k))).unwrap();
    let one = OneCopy { bin: "b", job: &job, rpath: "/r", streams: 1 };
    assert_eq!(
        cp_pull_forward(&one, "x:1", None, 9),
        "'b' source -a 'x:1' -i '/r' -s 1 -w 4194304 -C -E -R 9"
    );
    let a = cp_pull_reverse(&one, 0);
    assert_eq!(a.command, "'b' source -l 0.0.0.0:0 -i '/r' -s 1 -w 4194304 -C -E");
    assert!(!a.expect_key && !a.expect_resume);
    assert_eq!(dial_agent(&job, &b).unwrap().key, None);
}

#[test]
fn trees_planned() {
    let found = |rel: &str| LocalFile { path: format!("/t/{rel}"), rel: rel.to_string() };
    let t = cp_push_tree("/r/", true, &vec![found("z"), found("a/b")]).unwrap();
    assert_eq!(t.remote_files, vec!["/r/a/b", "/r/z"]);
    assert_eq!(t.files[0].path, "/t/a/b");
    assert_eq!(t.mkdir.unwrap(), "mkdir -p '/r' '/r/a'");
    assert_eq!(
        cp_push_tree("/r", false, &vec![]).err().unwrap(),
        " -r needs a source directory"
    );
    assert_eq!(
        cp_push_tree("/r", true, &vec![]).err().unwrap(),
        "no files under source directory"
    );
    assert_eq!(cp_pull_tree("./b\0./a\0").unwrap(), vec!["a", "b"]);
    assert_eq!(
        cp_pull_tree("").err().unwrap(),
        "no remote files found (need GNU find -printf or plain find)"
    );
}

#[test]
fn first_failing_stream_speaks() {
    let err = |s: &str| Err::<(), String>(s.to_string());
    assert_eq!(streams_outcome(&vec![]), Ok(()));
    assert_eq!(streams_outcome(&vec![Ok(()), Ok(())]), Ok(()));
    assert_eq!(streams_outcome(&vec![Ok(()), err("a"), err("b")]), err("a"));
}
