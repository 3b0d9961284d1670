use bbx::control::{
    check_source, finish_source, parse_opened, read_control, source_plan, Announcement, ControlHeader, ControlStep,
    SinkSide, SourcePlan,
};
use bbx::crypto::FileHash;
use bbx::liveness::file_mode_mtime;
use bbx::payload::{Cursor, CHUNK, CRYPT_PT};
use bbx::sink::{finish_sink, temp_name, FileStep, SinkAction, SinkEvent, SinkRun, SinkStage};
use bbx::stream_run::{
    recv_range, send_range, RecvAction, RecvEvent, RecvRun, SendAction, SendEvent, SendRun,
};
use bbx::streams::{dial_streams, AcceptSlots};
use std::collections::BTreeMap;

type Files = BTreeMap<String, Vec<u8>>;

fn digest(data: &[u8]) -> [u8; 32] {
    let mut h = FileHash::start();
    for c in data.chunks(1000) {
        h.feed(c);
    }
    h.digest()
}

fn perform(files: &mut Files, steps: &[FileStep]) {
    for s in steps {
        match s {
            FileStep::Create(p) => {
                assert!(files.insert(p.clone(), Vec::new()).is_none());
            }
            FileStep::Resize(p, n) => files.get_mut(p).unwrap().resize(*n as usize, 0),
            FileStep::Rename(a, b) => {
                let data = files.remove(a).unwrap();
                files.insert(b.clone(), data);
            }
            FileStep::Remove(p) => {
                files.remove(p).unwrap();
            }
        }
    }
}

struct Ends {
    streams: usize,
    crypt: bool,
    source_key: Option<[u8; 32]>,
    sink_key: Option<[u8; 32]>,
    source_check: bool,
    sink_check: bool,
    meta: Option<(u32, u64)>,
    resume_from: u64,
}

fn seal_of(s: &Option<([u8; 32], Vec<u8>)>) -> Option<(&[u8; 32], &[u8])> {
    s.as_ref().map(|s| (&s.0, s.1.as_slice()))
}

fn wires(file: &[u8], e: &Ends) -> Result<(SourcePlan, Vec<Vec<u8>>), String> {
    check_source(e.streams, e.streams, e.crypt, e.source_key.is_some())?;
    let a = Announcement {
        size: file.len() as u64,
        streams: e.streams,
        crypt: e.crypt,
        resume_from: e.resume_from,
        hash: if e.source_check { Some(digest(file)) } else { None },
        meta: e.meta,
    };
    let plan = finish_source(&a, e.source_key)?;
    let mut out = Vec::new();
    for (i, (from, to)) in plan.ranges.iter().enumerate() {
        let part = &file[*from as usize..*to as usize];
        let mut w = if i == 0 { plan.header.clone() } else { Vec::new() };
        w.extend(send_range(part, i as u32, seal_of(&plan.seal))?);
        out.push(w);
    }
    Ok((plan, out))
}

fn header(wire: &[u8], side: &SinkSide) -> Result<(ControlHeader, usize), String> {
    let mut have = 0;
    loop {
        match read_control(&wire[..have], side)? {
            ControlStep::More(n) => {
                assert!(n > 0);
                have += n;
            }
            ControlStep::Done(h) => return Ok((h, have)),
        }
    }
}

fn transfer(file: &[u8], e: &Ends, files: &mut Files, out: &str) -> Result<ControlHeader, String> {
    let (_, ws) = wires(file, e)?;
    let hellos = dial_streams(e.streams, e.source_key.as_ref());
    let mut slots = AcceptSlots::new(e.streams);
    for (i, h) in hellos.iter().enumerate().rev() {
        let id = u32::from_le_bytes([h[0], h[1], h[2], h[3]]);
        slots.check_id("sink", id)?;
        let mut tag = [0u8; 16];
        if e.sink_key.is_some() {
            tag.copy_from_slice(&h[4..20]);
        }
        slots.place("sink", id, &tag, e.sink_key.as_ref(), ws[i].clone())?;
    }
    assert!(slots.is_full());
    receive(slots.finish(), e, files, out)
}

fn receive(conns: Vec<Vec<u8>>, e: &Ends, files: &mut Files, out: &str) -> Result<ControlHeader, String> {
    let side = SinkSide {
        crypt: e.crypt,
        key: e.sink_key,
        check: e.sink_check,
        streams_hint: e.streams,
        conns: conns.len(),
    };
    let (h, used) = header(&conns[0], &side)?;
    let have = files.get(out).map_or(0, |f| f.len() as u64);
    let plan = finish_sink(out, 7, have, h.size, h.resume_from, h.streams)?;
    perform(files, &plan.open);
    let fill = |files: &mut Files| -> Result<(), String> {
        for (i, w) in conns.iter().enumerate() {
            let wire = if i == 0 { &w[used..] } else { &w[..] };
            let (from, to) = plan.ranges[i];
            let data = recv_range(wire, from, to, i as u32, seal_of(&h.seal))?;
            files.get_mut(&plan.target).unwrap()[from as usize..to as usize].copy_from_slice(&data);
        }
        Ok(())
    };
    let mut run = SinkRun::start(h.hash, h.meta);
    let mut ev = SinkEvent::Received(fill(files));
    loop {
        ev = match run.next(&ev) {
            SinkAction::Hash => SinkEvent::Hashed(Ok(digest(&files[&plan.target]))),
            SinkAction::Keep(mode, mtime) => {
                assert_eq!(h.meta, Some((mode, mtime)));
                SinkEvent::Kept(Ok(()))
            }
            SinkAction::Commit => {
                perform(files, &plan.commit);
                SinkEvent::Placed(Ok(()))
            }
            SinkAction::Rollback(e) => {
                perform(files, &plan.rollback);
                return Err(e);
            }
            SinkAction::Finish => return Ok(h),
        };
    }
}

fn ends(streams: usize, key: Option<[u8; 32]>) -> Ends {
    Ends {
        streams,
        crypt: key.is_some(),
        source_key: key,
        sink_key: key,
        source_check: false,
        sink_check: false,
        meta: None,
        resume_from: 0,
    }
}

fn pattern(n: usize) -> Vec<u8> {
    (0..n).map(|i| (i * 31 % 251) as u8).collect()
}

#[test]
fn encrypt_match_ok_wrong_key_sink_fails() {
    let file = vec![9u8; 80_000];
    let key = [0x42u8; 32];
    let mut files = Files::new();
    transfer(&file, &ends(4, Some(key)), &mut files, "ok.bin").unwrap();
    assert_eq!(files["ok.bin"], file);

    let mut e = ends(4, Some(key));
    e.source_key = Some([0x22u8; 32]);
    let r = transfer(&file, &e, &mut files, "bad.bin");
    assert_eq!(r.err().unwrap(), "sink bad stream-id MAC for id 3");
    assert!(!files.contains_key("bad.bin"));
}

#[test]
fn wrong_key_behind_right_tags_fails_in_the_header() {
    let file = vec![9u8; 80_000];
    let (_, ws) = wires(&file, &ends(4, Some([0x22u8; 32]))).unwrap();
    let mut files = Files::new();
    let r = receive(ws, &ends(4, Some([0x42u8; 32])), &mut files, "bad.bin");
    assert_eq!(r.err().unwrap(), "decrypt failed (wrong key or corrupt)");
    assert!(files.is_empty());
}

#[test]
fn max_streams_64_cleartext() {
    let file = vec![0xABu8; 128 * 1024];
    let mut files = Files::new();
    transfer(&file, &ends(64, None), &mut files, "out.bin").unwrap();
    assert_eq!(files["out.bin"], file);
}

#[test]
fn bytes_of_64_streams_stay_in_order() {
    let file = pattern(128 * 1024);
    let mut files = Files::new();
    transfer(&file, &ends(64, None), &mut files, "out.bin").unwrap();
    assert_eq!(files["out.bin"], file);
}

#[test]
fn preserve_mode_mtime() {
    let file = b"preserve-me".to_vec();
    let mut e = ends(2, None);
    e.meta = Some(file_mode_mtime(0o100640, 1_600_000_000));
    assert_eq!(e.meta, Some((0o640, 1_600_000_000)));
    let mut files = Files::new();
    let h = transfer(&file, &e, &mut files, "out.bin").unwrap();
    assert_eq!(files["out.bin"], file);
    assert_eq!(h.meta, Some((0o640, 1_600_000_000)));
}

#[test]
fn preserve_travels_sealed_with_the_digest() {
    let file = pattern(5);
    let mut e = ends(2, Some([3; 32]));
    e.meta = Some((0o755, 77));
    e.source_check = true;
    e.sink_check = true;
    let (plan, ws) = wires(&file, &e).unwrap();
    let d = digest(&file);
    assert!(!plan.header.windows(32).any(|w| w == d));
    let mut files = Files::new();
    let h = receive(ws, &e, &mut files, "o").unwrap();
    assert_eq!(h.meta, Some((0o755, 77)));
    assert_eq!(h.hash, Some(d));
}

#[test]
fn failed_crypt_overwrite_keeps_old_dest() {
    let file = vec![0xABu8; 50_000];
    let old = b"DO_NOT_DESTROY_ME_EXISTING_DEST".to_vec();
    let key = [0x11u8; 32];
    let mut files = Files::new();
    files.insert("out.bin".to_string(), old.clone());

    let mut e = ends(2, Some(key));
    e.source_key = Some([0x22u8; 32]);
    assert!(transfer(&file, &e, &mut files, "out.bin").is_err());
    assert_eq!(files["out.bin"], old);

    let (_, mut ws) = wires(&file, &ends(2, Some(key))).unwrap();
    let last = ws[1].len() - 1;
    ws[1][last] ^= 1;
    let r = receive(ws, &ends(2, Some(key)), &mut files, "out.bin");
    assert_eq!(r.err().unwrap(), "decrypt failed (wrong key or corrupt)");
    assert_eq!(files["out.bin"], old);
    for n in files.keys() {
        assert!(!n.contains(".bbx.") || !n.ends_with(".tmp"));
    }
}

#[test]
fn successful_overwrite_replaces_dest() {
    let payload = vec![0xCDu8; 40_000];
    let mut files = Files::new();
    files.insert("out.bin".to_string(), b"old".to_vec());
    transfer(&payload, &ends(2, Some([0x33u8; 32])), &mut files, "out.bin").unwrap();
    assert_eq!(files["out.bin"], payload);
    assert_eq!(files.len(), 1);
}

#[test]
fn digest_mismatch_keeps_the_destination() {
    let file = pattern(3000);
    let mut e = ends(3, None);
    e.source_check = true;
    let (_, mut ws) = wires(&file, &e).unwrap();
    ws[2][5] ^= 0x80;
    let mut files = Files::new();
    files.insert("out".to_string(), b"old".to_vec());
    let r = receive(ws, &e, &mut files, "out").err().unwrap();
    assert!(r.starts_with("checksum mismatch: expected "));
    assert_eq!(files["out"], b"old".to_vec());
    assert_eq!(files.len(), 1);
}

#[test]
fn resume_sends_the_rest_only() {
    let file = pattern(10_000);
    for key in [None, Some([5u8; 32])] {
        let mut e = ends(3, key);
        e.source_check = true;
        e.sink_check = true;
        e.resume_from = 6_000;
        let (plan, ws) = wires(&file, &e).unwrap();
        let total: u64 = plan.ranges.iter().map(|(a, b)| b - a).sum();
        assert_eq!(total, 4_000);
        let mut files = Files::new();
        let mut partial = file[..6_000].to_vec();
        partial.extend([1, 2, 3]);
        files.insert("out".to_string(), partial);
        let h = receive(ws, &e, &mut files, "out").unwrap();
        assert_eq!(h.resume_from, 6_000);
        assert_eq!(files["out"], file);
        assert_eq!(files.len(), 1);
    }
}

#[test]
fn failed_resume_shrinks_to_the_prefix() {
    let file = pattern(10_000);
    let mut e = ends(2, None);
    e.source_check = true;
    e.resume_from = 100;
    let (_, ws) = wires(&file, &e).unwrap();
    let mut files = Files::new();
    let mut partial = file[..150].to_vec();
    partial[3] ^= 1;
    files.insert("out".to_string(), partial.clone());
    let r = receive(ws, &e, &mut files, "out").err().unwrap();
    assert!(r.starts_with("checksum mismatch"));
    assert_eq!(files["out"], partial[..100].to_vec());
}

#[test]
fn resume_needs_the_prefix_at_hand() {
    let file = pattern(50);
    let mut e = ends(1, None);
    e.source_check = true;
    e.resume_from = 20;
    let (_, ws) = wires(&file, &e).unwrap();
    let mut files = Files::new();
    files.insert("out".to_string(), vec![0; 19]);
    let r = receive(ws, &e, &mut files, "out");
    assert_eq!(r.err().unwrap(), "local file shorter than resume_from (19 < 20)");
}

#[test]
fn complete_file_resumes_with_a_header_alone() {
    let file = pattern(50);
    let mut e = ends(2, Some([1; 32]));
    e.source_check = true;
    e.resume_from = 50;
    let mut files = Files::new();
    files.insert("out".to_string(), file.clone());
    transfer(&file, &e, &mut files, "out").unwrap();
    assert_eq!(files["out"], file);
}

#[test]
fn empty_file_and_more_streams_than_bytes() {
    for n in [0usize, 1, 3] {
        for key in [None, Some([8u8; 32])] {
            let file = pattern(n);
            let mut files = Files::new();
            transfer(&file, &ends(5, key), &mut files, "out").unwrap();
            assert_eq!(files["out"], file);
        }
    }
}

#[test]
fn frames_of_a_long_range() {
    let data = pattern(CRYPT_PT + 10);
    let key = [4u8; 32];
    let aad = [1u8, 2, 3];
    let w = send_range(&data, 2, Some((&key, &aad))).unwrap();
    assert_eq!(w.len(), data.len() + 2 * (4 + 16));
    assert_eq!(&w[..4], &((CRYPT_PT + 16) as u32).to_le_bytes());
    let second = 4 + CRYPT_PT + 16;
    assert_eq!(&w[second..second + 4], &26u32.to_le_bytes());
    let n = data.len() as u64;
    assert_eq!(recv_range(&w, 0, n, 2, Some((&key, &aad))).unwrap(), data);
    assert!(recv_range(&w, 0, n, 3, Some((&key, &aad))).is_err());
    assert!(recv_range(&w, 0, n, 2, Some((&key, &aad[..2]))).is_err());
    let short = recv_range(&w[..w.len() - 1], 0, n, 2, Some((&key, &aad)));
    assert_eq!(short.err().unwrap(), "stream 2 read: failed to fill whole buffer");
    let less = recv_range(&w, 0, n - 1, 2, Some((&key, &aad)));
    assert_eq!(less.err().unwrap(), "decrypt oversize");
    let mut bad = w.clone();
    bad[..4].copy_from_slice(&65617u32.to_le_bytes());
    let r = recv_range(&bad, 0, n, 2, Some((&key, &aad)));
    assert_eq!(r.err().unwrap(), "bad ciphertext len 65617");
}

#[test]
fn payload_in_clear_is_the_bytes_themselves() {
    let data = pattern(CHUNK + 5);
    let w = send_range(&data, 1, None).unwrap();
    assert_eq!(w, data);
    let n = data.len() as u64;
    assert_eq!(recv_range(&w, 9, 9 + n, 1, None).unwrap(), data);
    let r = recv_range(&w[1..], 0, n, 1, None);
    assert_eq!(r.err().unwrap(), "stream 1 read: failed to fill whole buffer");
}

#[test]
fn cursor_counts_frames_and_bytes() {
    let mut c = Cursor::start(10, 10 + CRYPT_PT as u64 + 1);
    let key = [4u8; 32];
    assert_eq!(c.send_size(true), CRYPT_PT);
    assert_eq!(c.send_size(false), CRYPT_PT + 1);
    c.send_chunk(0, Some((&key, &[])), &vec![1; CRYPT_PT]).unwrap();
    assert_eq!((c.off, c.left, c.counter), (10 + CRYPT_PT as u64, 1, 1));
    c.recv_clear(1);
    assert_eq!((c.left, c.counter), (0, 1));
    assert_eq!(c.recv_size(), 0);
}

#[test]
fn stand_in_file_lies_beside_its_place() {
    assert_eq!(temp_name("/a/b/out.bin", 12), "/a/b/out.bin.bbx.12.tmp");
}

#[test]
fn header_in_clear_byte_for_byte() {
    let a = Announcement {
        size: 258,
        streams: 3,
        crypt: false,
        resume_from: 0,
        hash: None,
        meta: Some((0o644, 1)),
    };
    let p = source_plan(&a, None, &[0; 32]).unwrap();
    let mut want = b"BBX2".to_vec();
    want.extend(8u32.to_le_bytes());
    want.extend(258u64.to_le_bytes());
    want.extend(3u32.to_le_bytes());
    want.extend(0o644u32.to_le_bytes());
    want.extend(1u64.to_le_bytes());
    assert_eq!(p.header, want);
    assert_eq!(p.ranges, vec![(0, 86), (86, 172), (172, 258)]);
    assert!(p.seal.is_none());
}

#[test]
fn sealed_header_layout() {
    let a = Announcement {
        size: 10,
        streams: 1,
        crypt: true,
        resume_from: 4,
        hash: Some([7; 32]),
        meta: None,
    };
    let salt = [9u8; 32];
    let p = source_plan(&a, Some([1; 32]), &salt).unwrap();
    assert_eq!(p.header.len(), 20 + 8 + 32 + 4 + 48);
    assert_eq!(&p.header[4..8], &7u32.to_le_bytes());
    assert_eq!(&p.header[20..28], &4u64.to_le_bytes());
    assert_eq!(&p.header[28..60], &salt);
    assert_eq!(&p.header[60..64], &48u32.to_le_bytes());
    let other = source_plan(&a, Some([1; 32]), &[10u8; 32]).unwrap();
    assert_ne!(p.seal.as_ref().unwrap().0, other.seal.as_ref().unwrap().0);
}

#[test]
fn fresh_salt_every_time() {
    let e = ends(1, Some([6; 32]));
    let (a, _) = wires(&[1, 2, 3], &e).unwrap();
    let (b, _) = wires(&[1, 2, 3], &e).unwrap();
    assert_ne!(a.header[20..52], b.header[20..52]);
}

#[test]
fn source_refusals() {
    let mut a = Announcement {
        size: 10,
        streams: 1,
        crypt: true,
        resume_from: 0,
        hash: None,
        meta: None,
    };
    assert_eq!(finish_source(&a, None).err().unwrap(), "encrypt needs key");
    a.crypt = false;
    a.resume_from = 11;
    assert_eq!(finish_source(&a, None).err().unwrap(), "resume_from 11 > file size 10");
    a.resume_from = 5;
    assert_eq!(
        finish_source(&a, None).err().unwrap(),
        "resume requires BLAKE3 (-c): refuse sending resume without integrity"
    );
    assert_eq!(check_source(2, 3, false, false).err().unwrap(), "expected 3 streams, got 2");
    assert_eq!(check_source(3, 3, true, false).err().unwrap(), "encrypt needs key");
    assert!(check_source(3, 3, true, true).is_ok());
}

fn raw(flags: u32, size: u64, streams: u32) -> Vec<u8> {
    let mut b = b"BBX2".to_vec();
    b.extend(flags.to_le_bytes());
    b.extend(size.to_le_bytes());
    b.extend(streams.to_le_bytes());
    b
}

fn side(crypt: bool, key: Option<[u8; 32]>, check: bool, hint: usize, conns: usize) -> SinkSide {
    SinkSide { crypt, key, check, streams_hint: hint, conns }
}

fn refused(b: &[u8], s: &SinkSide) -> String {
    read_control(b, s).err().unwrap()
}

#[test]
fn sink_refusals() {
    let clear = side(false, None, false, 0, 1);
    assert_eq!(
        refused(b"BBX1", &clear),
        "bad magic [66, 66, 88, 49] (need BBX2; upgrade both ends)"
    );
    assert_eq!(refused(&raw(0, 1, 0), &clear), "bad stream count");
    assert_eq!(refused(&raw(0, 1, 65), &clear), "bad stream count");
    assert_eq!(refused(&raw(2, 1, 1), &clear), "crypt mismatch: local=false peer=true");
    assert_eq!(
        refused(&raw(0, 1, 1), &side(true, None, false, 0, 1)),
        "crypt mismatch: local=true peer=false"
    );
    assert_eq!(
        refused(&raw(2, 1, 1), &side(true, None, false, 0, 1)),
        "peer sent FLAG_CRYPT but no session key"
    );
    assert_eq!(
        refused(&raw(0, 1, 1), &side(false, None, true, 0, 1)),
        "source did not enable BLAKE3 (need matching -c on source, or pass -C to skip check)"
    );
    let mut resume = raw(4, 10, 1);
    resume.extend(3u64.to_le_bytes());
    assert_eq!(
        refused(&resume, &clear),
        "resume requires BLAKE3 (-c): prefix is not re-hashed alone; refuse unsafe resume"
    );
    let mut beyond = raw(5, 10, 1);
    beyond.extend(11u64.to_le_bytes());
    assert_eq!(refused(&beyond, &clear), "resume_from 11 > size 10");
    assert_eq!(
        refused(&raw(0, 1, 1), &side(false, None, false, 2, 1)),
        "stream count mismatch: local -s 2, peer 1"
    );
    assert_eq!(
        refused(&raw(0, 1, 2), &side(false, None, false, 0, 1)),
        "expected 2 streams, got 1"
    );
    let mut sealed = raw(2, 1, 1);
    sealed.extend([0u8; 32]);
    sealed.extend(257u32.to_le_bytes());
    assert_eq!(
        refused(&sealed, &side(true, Some([1; 32]), false, 0, 1)),
        "bad sealed control len 257"
    );
}

#[test]
fn sealed_fields_too_short() {
    assert_eq!(parse_opened(1, &[0; 31]).err().unwrap(), "sealed control short (hash)");
    assert_eq!(parse_opened(9, &[0; 43]).err().unwrap(), "sealed control short (preserve)");
    let mut p = vec![5u8; 32];
    p.extend(0o600u32.to_le_bytes());
    p.extend(9u64.to_le_bytes());
    assert_eq!(parse_opened(9, &p).unwrap(), (Some([5; 32]), Some((0o600, 9))));
    assert_eq!(parse_opened(0, &[]).unwrap(), (None, None));
}

#[test]
fn file_is_placed_after_all_checks() {
    let mut r = SinkRun::start(Some([1; 32]), Some((0o600, 5)));
    assert!(matches!(r.next(&SinkEvent::Received(Ok(()))), SinkAction::Hash));
    assert!(matches!(r.next(&SinkEvent::Hashed(Ok([1; 32]))), SinkAction::Keep(0o600, 5)));
    assert!(matches!(r.next(&SinkEvent::Kept(Ok(()))), SinkAction::Commit));
    assert!(matches!(r.next(&SinkEvent::Placed(Ok(()))), SinkAction::Finish));
    assert!(matches!(r.stage, SinkStage::Placed));
    let mut r = SinkRun::start(None, None);
    assert!(matches!(r.next(&SinkEvent::Received(Ok(()))), SinkAction::Commit));
}

#[test]
fn failure_at_any_stage_rolls_back() {
    let why = |a: SinkAction| match a {
        SinkAction::Rollback(e) => e,
        _ => panic!(),
    };
    let e = || "e".to_string();
    let start = || SinkRun::start(Some([1; 32]), Some((0o600, 5)));
    assert_eq!(why(start().next(&SinkEvent::Received(Err(e())))), "e");
    let mut r = start();
    r.next(&SinkEvent::Received(Ok(())));
    assert!(why(r.next(&SinkEvent::Hashed(Ok([2; 32])))).starts_with("checksum mismatch"));
    assert!(matches!(r.stage, SinkStage::Failed));
    let mut r = start();
    r.next(&SinkEvent::Received(Ok(())));
    assert_eq!(why(r.next(&SinkEvent::Hashed(Err(e())))), "e");
    let mut r = start();
    r.next(&SinkEvent::Received(Ok(())));
    r.next(&SinkEvent::Hashed(Ok([1; 32])));
    assert_eq!(why(r.next(&SinkEvent::Kept(Err(e())))), "e");
    let mut r = SinkRun::start(None, None);
    r.next(&SinkEvent::Received(Ok(())));
    assert_eq!(why(r.next(&SinkEvent::Placed(Err(e())))), "e");
}

#[test]
fn sending_stream_step_by_step() {
    let file = pattern(CHUNK + 10);
    let mut run = SendRun::start(5, file.len() as u64, 2);
    let mut wire = Vec::new();
    let mut act = run.next(&SendEvent::Ready { aborted: false }, None, 9);
    let mut reads = Vec::new();
    loop {
        act = match act {
            SendAction::Read(off, n) => {
                reads.push((off, n));
                let at = off as usize;
                run.next(&SendEvent::Data(&file[at..at + n]), None, 9)
            }
            SendAction::Write(w) => {
                wire.extend(w);
                run.next(&SendEvent::Ready { aborted: false }, None, 9)
            }
            SendAction::Finish => break,
            SendAction::Fail(_) => panic!(),
        };
    }
    assert_eq!(reads, vec![(5, CHUNK), (5 + CHUNK as u64, 5)]);
    assert_eq!(wire, file[5..].to_vec());
}

fn send_failure(ev: SendEvent, until_write: bool) -> String {
    let mut run = SendRun::start(0, 3, 2);
    run.next(&SendEvent::Ready { aborted: false }, None, 9);
    if until_write {
        run.next(&SendEvent::Data(b"abc"), None, 9);
    }
    match run.next(&ev, None, 9) {
        SendAction::Fail(e) => e,
        _ => panic!(),
    }
}

#[test]
fn sending_stream_fails() {
    let mut run = SendRun::start(0, 3, 2);
    match run.next(&SendEvent::Ready { aborted: true }, None, 9) {
        SendAction::Fail(e) => assert_eq!(e, "stream 2 aborted (peer stream failed)"),
        _ => panic!(),
    }
    let mut empty = SendRun::start(4, 4, 2);
    assert!(matches!(empty.next(&SendEvent::Ready { aborted: true }, None, 9), SendAction::Finish));
    assert_eq!(send_failure(SendEvent::ReadFailed("unexpected EOF"), false), "unexpected EOF");
    assert_eq!(send_failure(SendEvent::WriteFailed("broken pipe"), true), "stream 2 write: broken pipe");
    assert_eq!(
        send_failure(SendEvent::WriteFailed("os error 11"), true),
        "stream 2 write timed out after 9s (peer stalled or dead)"
    );
}

#[test]
fn receiving_stream_step_by_step() {
    let file = pattern(CRYPT_PT + 7);
    let key = [8u8; 32];
    let seal = Some((&key, b"aad".as_slice()));
    let wire = send_range(&file, 1, seal).unwrap();
    let mut run = RecvRun::start(100, 100 + file.len() as u64, 1);
    let mut out = Vec::new();
    let mut at = 0;
    let mut act = run.next(&RecvEvent::Ready { aborted: false }, seal, 9);
    loop {
        act = match act {
            RecvAction::ReadLength => {
                let n = u32::from_le_bytes([wire[at], wire[at + 1], wire[at + 2], wire[at + 3]]);
                at += 4;
                run.next(&RecvEvent::Length(n), seal, 9)
            }
            RecvAction::ReadFrame(n) => {
                at += n;
                run.next(&RecvEvent::Frame(&wire[at - n..at]), seal, 9)
            }
            RecvAction::Write(off, data) => {
                assert_eq!(off as usize, 100 + out.len());
                out.extend(data);
                run.next(&RecvEvent::Ready { aborted: false }, seal, 9)
            }
            RecvAction::Finish => break,
            _ => panic!(),
        };
    }
    assert_eq!(at, wire.len());
    assert_eq!(out, file);
}

fn recv_failure(steps: &[RecvEvent], seal: Option<(&[u8; 32], &[u8])>) -> String {
    let mut run = RecvRun::start(0, 3, 2);
    let mut act = run.next(&RecvEvent::Ready { aborted: false }, seal, 9);
    for ev in steps {
        act = run.next(ev, seal, 9);
    }
    match act {
        RecvAction::Fail(e) => e,
        _ => panic!(),
    }
}

#[test]
fn receiving_stream_fails() {
    let mut run = RecvRun::start(0, 3, 2);
    match run.next(&RecvEvent::Ready { aborted: true }, None, 9) {
        RecvAction::Fail(e) => assert_eq!(e, "stream 2 aborted (peer stream failed)"),
        _ => panic!(),
    }
    assert_eq!(recv_failure(&[RecvEvent::ReadFailed("reset")], None), "stream 2 read: reset");
    assert_eq!(
        recv_failure(&[RecvEvent::Clear(b"abc"), RecvEvent::WriteFailed("short write")], None),
        "short write"
    );
    let key = [8u8; 32];
    let seal = Some((&key, b"aad".as_slice()));
    assert_eq!(
        recv_failure(&[RecvEvent::Length(u32::MAX)], seal),
        "bad ciphertext len 4294967295"
    );
    assert_eq!(
        recv_failure(&[RecvEvent::Length(17), RecvEvent::Frame(&[0; 17])], seal),
        "decrypt failed (wrong key or corrupt)"
    );
}

#[test]
fn receiving_stream_in_clear() {
    let mut run = RecvRun::start(10, 13, 0);
    assert!(matches!(run.next(&RecvEvent::Ready { aborted: false }, None, 9), RecvAction::ReadClear(3)));
    match run.next(&RecvEvent::Clear(b"xyz"), None, 9) {
        RecvAction::Write(off, data) => assert_eq!((off, data), (10, b"xyz".to_vec())),
        _ => panic!(),
    }
    assert!(matches!(run.next(&RecvEvent::Ready { aborted: true }, None, 9), RecvAction::Finish));
}
