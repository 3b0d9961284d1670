use bbx::address::{
    advertise_ip, advertise_override, allowed_peers, bad_peer_entry, bind_ephemeral, bind_listener, check_peer,
    cleartext_allowed, default_iface, first_ipv4, host_is_loopback, peer_allowlist, split_listen_spec,
    usable_default, usable_toward, validate_advertise, Advertise, Guess, Guesses, Ip, Override, Probe,
};
use bbx::order::{sorted_order, text_less};
use bbx::paths::{host_only, is_remote_spec, is_safe_rel, join_remote, parent_posix, split_host_path};
use bbx::ranges::{split_ranges, transfer_ranges};
use bbx::shell::{shell_escape_dq, shell_quote};
use bbx::tree::{
    check_links, check_tree, file_event, find_command, mkdir_command, plan_pull, pull_streams, remote_dirs,
    remote_list_files, streams_for_file, tree_done, tree_start, walk_entry, walk_local_files, Direction, LocalFile,
    WalkAction,
};

#[test]
fn ranges_cover_file() {
    let r = split_ranges(100, 3);
    assert_eq!(r.iter().map(|(a, b)| b - a).sum::<u64>(), 100);
}

#[test]
fn ranges_laid_end_to_end() {
    assert_eq!(split_ranges(100, 3), vec![(0, 34), (34, 67), (67, 100)]);
    assert_eq!(split_ranges(2, 4), vec![(0, 1), (1, 2), (2, 2), (2, 2)]);
    assert_eq!(split_ranges(0, 1), vec![(0, 0)]);
    assert_eq!(split_ranges(u64::MAX, 2), vec![(0, 1 << 63), (1 << 63, u64::MAX)]);
    assert_eq!(transfer_ranges(100, 90, 3), vec![(90, 94), (94, 97), (97, 100)]);
    assert_eq!(transfer_ranges(u64::MAX, u64::MAX, 1), vec![(u64::MAX, u64::MAX)]);
}

fn v4(a: u8, b: u8, c: u8, d: u8) -> Ip {
    Ip::V4([a, b, c, d])
}

fn v6_one() -> Ip {
    let mut b = [0u8; 16];
    b[15] = 1;
    Ip::V6(b)
}

#[test]
fn cleartext_loopback_ok() {
    assert!(cleartext_allowed(None, "127.0.0.1:9", Some(v4(127, 0, 0, 1))).is_ok());
    assert!(cleartext_allowed(None, "127.0.0.1", Some(v4(127, 0, 0, 1))).is_ok());
    assert!(cleartext_allowed(None, "127.0.0.1:9", None).is_ok());
    assert!(cleartext_allowed(None, "127.0.0.1", None).is_ok());
}

#[test]
fn cleartext_elsewhere_only_if_allowed() {
    let refused = "cleartext (-E) refused on non-loopback; use -e encrypt, or BBX_ALLOW_CLEAR=1 for trusted nets";
    let far = || Some(v4(10, 0, 0, 1));
    assert_eq!(cleartext_allowed(None, "10.0.0.1:9", far()).err().unwrap(), refused);
    assert_eq!(cleartext_allowed(Some("yes"), "10.0.0.1:9", far()).err().unwrap(), refused);
    assert!(cleartext_allowed(Some("1"), "10.0.0.1:9", far()).is_ok());
    assert_eq!(cleartext_allowed(None, "0.0.0.0:0", Some(v4(0, 0, 0, 0))).err().unwrap(), refused);
}

#[test]
fn loopback_hosts() {
    assert!(host_is_loopback("[::1]:4", Some(v6_one())));
    assert!(host_is_loopback("[::1]", None));
    assert!(host_is_loopback("localhost", None));
    assert!(host_is_loopback("127.8.nowhere", None));
    assert!(!host_is_loopback("localhost:80", None));
    assert!(!host_is_loopback("", None));
    assert!(!host_is_loopback("::", Some(Ip::V6([0; 16]))));
    assert!(Ip::V6([0; 16]).is_unspecified());
    assert!(v4(0, 0, 0, 0).is_unspecified());
    assert!(!v4(0, 0, 0, 1).is_unspecified());
    assert!(!v6_one().is_unspecified());
}

#[test]
fn advertise_rejects_metachar() {
    assert!(validate_advertise("10.0.0.1").is_ok());
    assert!(validate_advertise("host.example").is_ok());
    assert!(validate_advertise("evil;rm -rf").is_err());
    assert!(validate_advertise("a b").is_err());
    assert!(validate_advertise("").is_err());
}

#[test]
fn advertise_messages() {
    assert_eq!(validate_advertise("").err().unwrap(), "BBX_ADVERTISE is empty");
    assert_eq!(
        validate_advertise("a\tb").err().unwrap(),
        "BBX_ADVERTISE has illegal characters: \"a\\tb\""
    );
    assert_eq!(
        validate_advertise("a_b").err().unwrap(),
        "BBX_ADVERTISE is not a host/IP: \"a_b\""
    );
    assert!(validate_advertise("fe80::1%eth0").is_ok());
}

#[test]
fn advertised_address() {
    assert!(matches!(advertise_override(None), Override::Absent));
    assert!(matches!(advertise_override(Some(" ")), Override::Absent));
    match advertise_override(Some(" 10.1.1.1 ")) {
        Override::Use(v) => assert_eq!(v, "10.1.1.1"),
        _ => panic!(),
    }
    match advertise_override(Some("a_b")) {
        Override::Refused(line) => assert_eq!(
            line,
            "bbx: BBX_ADVERTISE is not a host/IP: \"a_b\"; ignoring BBX_ADVERTISE"
        ),
        _ => panic!(),
    }
    assert!(usable_toward(&v4(10, 0, 0, 1)) && !usable_toward(&v4(0, 0, 0, 0)));
    assert!(!usable_toward(&v4(127, 0, 0, 1)) && usable_default(&v4(0, 0, 0, 0)));
    assert!(!usable_default(&v6_one()));
}

fn hit(ip: &str) -> Guess {
    Guess::Found(ip.to_string())
}

fn advertised(variable: Override, remote: bool, toward: Guess, default_route: Guess, interface: Guess) -> Advertise {
    advertise_ip(&variable, remote, &Guesses { toward, default_route, interface })
}

fn told(a: Advertise) -> (String, Option<String>) {
    match a {
        Advertise::Tell(ip, warning) => (ip, warning),
        Advertise::Ask(_) => panic!(),
    }
}

#[test]
fn advertised_address_in_order() {
    let all = || (hit("10.1.1.1"), hit("10.2.2.2"), hit("10.3.3.3"));
    let (t, d, i) = all();
    let v = Override::Use("127.0.0.1".to_string());
    assert_eq!(told(advertised(v, true, t, d, i)), ("127.0.0.1".to_string(), None));
    let (t, d, i) = all();
    let refused = Override::Refused("line".to_string());
    assert_eq!(told(advertised(refused, true, t, d, i)).0, "10.1.1.1");
    let (_, d, i) = all();
    assert_eq!(told(advertised(Override::Absent, true, Guess::Missed, d, i)).0, "10.2.2.2");
    let (t, d, i) = all();
    assert_eq!(told(advertised(Override::Absent, false, t, d, i)).0, "10.2.2.2");
    let (_, _, i) = all();
    assert_eq!(told(advertised(Override::Absent, true, Guess::Missed, Guess::Missed, i)).0, "10.3.3.3");
    let (ip, warning) = told(advertised(Override::Absent, true, Guess::Missed, Guess::Missed, Guess::Missed));
    assert_eq!(ip, "127.0.0.1");
    assert_eq!(
        warning.unwrap(),
        "bbx: warning: advertise IP is loopback (127.0.0.1); remote peer cannot dial this — set BBX_ADVERTISE"
    );
    let (ip, warning) = told(advertised(Override::Absent, false, Guess::Missed, Guess::Missed, hit("::1")));
    assert_eq!((ip.as_str(), warning), ("::1", None));
}

#[test]
fn probes_made_in_order() {
    let ask = |t, d, i| match advertised(Override::Absent, true, t, d, i) {
        Advertise::Ask(p) => p,
        Advertise::Tell(..) => panic!(),
    };
    assert!(matches!(ask(Guess::Unasked, Guess::Unasked, Guess::Unasked), Probe::Toward));
    assert!(matches!(ask(Guess::Missed, Guess::Unasked, Guess::Unasked), Probe::DefaultRoute));
    assert!(matches!(ask(Guess::Missed, Guess::Missed, Guess::Unasked), Probe::Interface));
    let near = advertised(Override::Absent, false, Guess::Unasked, Guess::Unasked, Guess::Unasked);
    assert!(matches!(near, Advertise::Ask(Probe::DefaultRoute)));
}

#[test]
fn routing_table() {
    let t = "Iface\tDestination\tGateway\n\
             docker0\t0011AC\t0\neth0\t00000000\t0101A8C0\t0003\n";
    assert_eq!(default_iface(t).as_deref(), Some("eth0"));
    assert_eq!(default_iface("Iface\tDestination\n"), None);
    assert_eq!(default_iface("h\nonly\neth0 00000000\n"), None);
    assert_eq!(default_iface("h\r\neth1 00000000").as_deref(), Some("eth1"));
    let out = "2: eth0    inet 192.168.1.7/24 brd 192.168.1.255 scope global";
    assert_eq!(first_ipv4(out).as_deref(), Some("192.168.1.7"));
    assert_eq!(first_ipv4("1: lo inet 127.0.0.1/8 scope host"), None);
}

#[test]
fn peers_admitted() {
    assert_eq!(peer_allowlist(None), Vec::<String>::new());
    assert_eq!(peer_allowlist(Some(" ")), Vec::<String>::new());
    assert_eq!(peer_allowlist(Some(" 10.0.0.1, ,::1 ")), vec!["10.0.0.1", "::1"]);
    assert_eq!(bad_peer_entry("x"), "bbx: warning: BBX_PEER_ALLOW skip bad IP \"x\"");
    let ip = v4(10, 0, 0, 1);
    assert!(check_peer("sink", &vec![], &ip, "10.0.0.1").is_ok());
    assert!(check_peer("sink", &vec![v6_one(), v4(10, 0, 0, 1)], &ip, "10.0.0.1").is_ok());
    assert_eq!(
        check_peer("sink", &vec![v6_one()], &ip, "10.0.0.1").err().unwrap(),
        "sink reject peer 10.0.0.1 (not in BBX_PEER_ALLOW)"
    );
}

#[test]
fn peer_list_without_addresses_refused() {
    let none = "BBX_PEER_ALLOW holds no readable address";
    assert_eq!(allowed_peers(None, &vec![]).unwrap().len(), 0);
    assert_eq!(allowed_peers(Some(" "), &vec![]).unwrap().len(), 0);
    assert_eq!(allowed_peers(Some("x"), &vec![None]).err().unwrap(), none);
    assert_eq!(allowed_peers(Some(" , "), &vec![]).err().unwrap(), none);
    let allow = allowed_peers(Some("x,10.0.0.1"), &vec![None, Some(v4(10, 0, 0, 1))]).unwrap();
    assert_eq!(allow.len(), 1);
    assert!(check_peer("sink", &allow, &v4(10, 0, 0, 1), "10.0.0.1").is_ok());
    assert!(check_peer("sink", &allow, &v4(10, 0, 0, 2), "10.0.0.2").is_err());
}

#[test]
fn entries_walked() {
    assert!(matches!(walk_entry(true, false), WalkAction::Descend));
    assert!(matches!(walk_entry(false, true), WalkAction::List));
    assert!(matches!(walk_entry(false, false), WalkAction::Skip));
}

#[test]
fn remote_spec() {
    assert!(is_remote_spec("user@host:/tmp/x"));
    assert!(!is_remote_spec("/tmp/x"));
    assert!(is_remote_spec("[::1]:/tmp/x"));
    assert!(is_remote_spec("user@[2001:db8::1]:/data"));
    assert!(!is_remote_spec("C:/windows/path"));
    assert_eq!(split_host_path("[::1]:/tmp/x").unwrap(), ("[::1]", "/tmp/x"));
    assert_eq!(split_host_path("user@[::1]:/tmp/x").unwrap(), ("user@[::1]", "/tmp/x"));
}

#[test]
fn more_specs() {
    assert!(!is_remote_spec("./a:b"));
    assert!(!is_remote_spec("../a:b"));
    assert!(!is_remote_spec("dir/a:b"));
    assert!(!is_remote_spec(":b"));
    assert!(!is_remote_spec("plain"));
    assert!(!is_remote_spec("[::1]:"));
    assert!(is_remote_spec("h1:b"));
    assert_eq!(split_host_path("host:a:b").unwrap(), ("host:a", "b"));
    assert_eq!(split_host_path("plain").err().unwrap(), "need host:path");
    assert_eq!(split_host_path("host:").err().unwrap(), "bad host:path");
    assert_eq!(split_host_path(":p").err().unwrap(), "bad host:path");
    assert_eq!(split_host_path("[::1]:").err().unwrap(), "bad host:path");
    assert_eq!(host_only("user@host"), "host");
    assert_eq!(host_only("a@b@c"), "c");
    assert_eq!(host_only("host"), "host");
}

#[test]
fn rejects_unsafe_remote_paths() {
    assert!(is_safe_rel("a/b/c.txt"));
    assert!(is_safe_rel("root.bin"));
    assert!(!is_safe_rel("/etc/passwd"));
    assert!(!is_safe_rel("../secrets"));
    assert!(!is_safe_rel("a/../../b"));
    assert!(!is_safe_rel(""));
}

#[test]
fn dots_that_are_safe() {
    assert!(is_safe_rel("./a"));
    assert!(is_safe_rel("..a/b.."));
    assert!(is_safe_rel("a//b"));
    assert!(!is_safe_rel("a/.."));
}

#[test]
fn paths_joined_and_parted() {
    assert_eq!(join_remote("/data//", "a/b"), "/data/a/b");
    assert_eq!(join_remote("/data/", ""), "/data");
    assert_eq!(join_remote("", "x"), "/x");
    assert_eq!(parent_posix("/a/b/"), Some("/a".to_string()));
    assert_eq!(parent_posix("/a"), Some("".to_string()));
    assert_eq!(parent_posix("a"), None);
}

#[test]
fn words_for_the_shell() {
    assert_eq!(shell_quote("it's"), "'it'\"'\"'s'");
    assert_eq!(shell_quote("~/a \"$b`\\"), "\"$HOME/a \\\"\\$b\\`\\\\\"");
    assert_eq!(shell_quote("~"), "\"$HOME\"");
    assert_eq!(shell_quote("~x"), "'~x'");
    assert_eq!(shell_quote(""), "''");
    assert_eq!(shell_escape_dq("a\\\"$`'b"), "a\\\\\\\"\\$\\`'b");
}

#[test]
fn listen_spec_split() {
    assert_eq!(split_listen_spec("0.0.0.0:0").unwrap(), ("0.0.0.0".into(), 0));
    assert_eq!(split_listen_spec("127.0.0.1:9").unwrap(), ("127.0.0.1".into(), 9));
}

#[test]
fn more_listen_specs() {
    assert_eq!(split_listen_spec(" [::1]:8080 ").unwrap(), ("::1".into(), 8080));
    assert_eq!(split_listen_spec("::1:0").unwrap(), ("::1".into(), 0));
    let err = |s: &str| split_listen_spec(s).err().unwrap();
    assert_eq!(err("[::1"), "bad listen addr \"[::1\"");
    assert_eq!(err("[::1]80"), "bad listen addr \"[::1]80\"");
    assert_eq!(err("[::1]:x"), "bad listen port in \"[::1]:x\"");
    assert_eq!(err("host"), "bad listen addr \"host\", want host:port");
    assert_eq!(err("host:65536"), "bad listen port in \"host:65536\"");
    assert_eq!(err(":80"), "bad listen host in \":80\"");
}

#[test]
fn bind_in_range() {
    let l = bind_ephemeral(None, Some((45000, 45050))).unwrap();
    assert_eq!(l.host, "0.0.0.0");
    let mut p = l.first;
    let mut n = 1;
    loop {
        assert!((45000..=45050).contains(&p));
        match l.next(p) {
            Some(q) => p = q,
            None => break,
        }
        n += 1;
    }
    assert_eq!(n, 51);
    assert_eq!(l.failure("in use"), "no free listen port in 45000-45050 on 0.0.0.0: in use");
}

#[test]
fn bind_plans() {
    let l = bind_listener("h:80", Some((5, 6))).unwrap();
    assert_eq!((l.first, l.last, l.ranged), (80, 80, false));
    assert_eq!(l.failure("e"), "bind h:80: e");
    let l = bind_listener("h:0", None).unwrap();
    assert_eq!((l.first, l.last, l.ranged), (0, 0, false));
    assert_eq!(l.next(0), None);
    let l = bind_ephemeral(Some(" ::1 "), None).unwrap();
    assert_eq!(l.host, "::1");
    assert_eq!(bind_ephemeral(Some(""), None).unwrap().host, "0.0.0.0");
    assert_eq!(
        bind_ephemeral(Some("a;b"), None).err().unwrap(),
        "BBX_BIND has illegal characters: \"a;b\""
    );
    assert_eq!(
        bind_ephemeral(Some("[x"), None).err().unwrap(),
        "bad listen addr \"[x:0\""
    );
}

fn found(path: &str, rel: &str) -> LocalFile {
    LocalFile { path: path.to_string(), rel: rel.to_string() }
}

#[test]
fn walk_lists_nested_files() {
    let v = vec![found("/t/root.bin", "root.bin"), found("/t/a/b/c.txt", "a\\b\\c.txt")];
    let files = walk_local_files(true, &v).unwrap();
    let rels: Vec<_> = files.iter().map(|f| f.rel.as_str()).collect();
    assert!(rels.contains(&"a/b/c.txt") || rels.iter().any(|r| r.ends_with("c.txt")));
    assert!(rels.iter().any(|r| r.ends_with("root.bin")));
    assert_eq!(rels, vec!["a/b/c.txt", "root.bin"]);
    assert_eq!(files[0].path, "/t/a/b/c.txt");
    assert_eq!(walk_local_files(false, &v).err().unwrap(), " -r needs a source directory");
}

#[test]
fn order_of_texts() {
    assert!(text_less("a", "b") && !text_less("b", "a") && !text_less("a", "a"));
    assert!(text_less("", "a") && text_less("a", "ab") && text_less("Z", "a"));
    assert!(text_less("a/b", "a0") && text_less("z", "é"));
    let keys: Vec<String> = ["b", "a", "c", "a", "b", ""].iter().map(|s| s.to_string()).collect();
    assert_eq!(sorted_order(&keys), vec![5, 1, 3, 0, 4, 2]);
}

#[test]
fn remote_listing() {
    assert_eq!(find_command("~/d"), "cd \"$HOME/d\" && find . -type f -print0");
    let out = "./b\n c \0./a\0x/./y\0";
    assert_eq!(remote_list_files(out), vec!["a", "b\n c ", "x/./y"]);
    assert_eq!(remote_list_files(""), Vec::<String>::new());
    assert_eq!(remote_list_files("./\0"), Vec::<String>::new());
}

#[test]
fn tree_directories() {
    let files = vec![found("", "a/x"), found("", "a/y"), found("", "z"), found("", "b/c/w")];
    let dirs = remote_dirs("/r/", &files);
    assert_eq!(dirs, vec!["/r", "/r/a", "/r/b/c"]);
    assert_eq!(mkdir_command(&dirs).unwrap(), "mkdir -p '/r' '/r/a' '/r/b/c'");
    assert_eq!(mkdir_command(&vec!["".to_string()]), None);
}

#[test]
fn tree_streams() {
    assert_eq!(streams_for_file(Some(1 << 20), 8), 1);
    assert_eq!(streams_for_file(Some((1 << 20) + 1), 8), 8);
    assert_eq!(streams_for_file(None, 8), 8);
    assert_eq!(streams_for_file(Some(0), 1), 1);
    assert_eq!(pull_streams(8), 1);
    assert_eq!(pull_streams(1), 1);
}

#[test]
fn place_of_a_pulled_file() {
    let p = plan_pull("/r/", "out", "a/./b//c").unwrap();
    assert_eq!(p.remote_file, "/r/a/./b//c");
    assert_eq!(p.local_file, "out/a/./b//c");
    assert_eq!(p.through, vec!["out/a", "out/a/b", "out/a/b/c"]);
    let p = plan_pull("/r", "out/", "a").unwrap();
    assert_eq!(p.local_file, "out/a");
    assert_eq!(
        plan_pull("/r", "out", "../a").err().unwrap(),
        "unsafe remote path rejected: ../a"
    );
}

#[test]
fn links_refused() {
    let p = plan_pull("/r", "out", "a/b").unwrap();
    assert!(check_links(&p.through, &vec![false, false]).is_ok());
    assert_eq!(
        check_links(&p.through, &vec![true, false]).err().unwrap(),
        "symlink in destination path rejected: out/a"
    );
    assert!(check_links(&p.through, &vec![false, true]).is_err());
}

#[test]
fn tree_lines() {
    assert_eq!(
        tree_start(&Direction::Push, 2, "h", "/r"),
        "bbx: push -r 2 files → h:/r"
    );
    assert_eq!(
        tree_start(&Direction::Pull, 2, "h", "/r"),
        "bbx: pull -r 2 files from h:/r"
    );
    assert_eq!(file_event(false, 1, 2, "a b"), "bbx: [1/2] a b");
    assert_eq!(
        file_event(true, 1, 2, "a\"b"),
        "{\"event\":\"file\",\"index\":1,\"total\":2,\"path\":\"a\\\"b\"}"
    );
    assert_eq!(tree_done(false, &Direction::Pull, 3), "bbx: tree pull done (3 files)");
    assert_eq!(
        tree_done(true, &Direction::Push, 3),
        "{\"event\":\"tree_done\",\"files\":3,\"direction\":\"push\"}"
    );
    assert!(check_tree(&Direction::Push, 1).is_ok());
    assert_eq!(check_tree(&Direction::Push, 0).err().unwrap(), "no files under source directory");
    assert_eq!(
        check_tree(&Direction::Pull, 0).err().unwrap(),
        "no remote files found (need GNU find -printf or plain find)"
    );
}
