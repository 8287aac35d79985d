use sled_exec::{check_drawn, check_stored, decode_key, encode_key, Capture, CaptureError, FrameResult, LineFramer, Step, Stream};

fn temp_db() -> sled::Db {
    sled::Config::new().temporary(true).open().expect("temporary store")
}

/// Runs the capture loop over scripted chunks of each stream; returns what
/// was teed to stdout and to stderr.
fn run(cap: &mut Capture, out_chunks: &[&[u8]], err_chunks: &[&[u8]]) -> (Vec<u8>, Vec<u8>) {
    let (mut oi, mut ei) = (0usize, 0usize);
    let (mut tee_out, mut tee_err) = (Vec::new(), Vec::new());
    loop {
        match cap.step().expect("store works") {
            Step::NeedInput(Stream::Stdout) => {
                if oi < out_chunks.len() {
                    cap.feed(Stream::Stdout, out_chunks[oi]);
                    oi += 1;
                } else {
                    cap.finish(Stream::Stdout);
                }
            }
            Step::NeedInput(Stream::Stderr) => {
                if ei < err_chunks.len() {
                    cap.feed(Stream::Stderr, err_chunks[ei]);
                    ei += 1;
                } else {
                    cap.finish(Stream::Stderr);
                }
            }
            Step::Tee(Stream::Stdout, bytes) => tee_out.extend_from_slice(&bytes),
            Step::Tee(Stream::Stderr, bytes) => tee_err.extend_from_slice(&bytes),
            Step::Closed(_) | Step::ReadFailed(_) => {}
            Step::Done => break,
        }
    }
    (tee_out, tee_err)
}

/// The stored entries as (stream name, id, payload), sorted by id.
fn entries(db: &sled::Db) -> Vec<(String, u64, Vec<u8>)> {
    let mut v = Vec::new();
    for kv in db.iter() {
        let (k, val) = kv.expect("entry");
        let key = String::from_utf8(k.to_vec()).expect("ascii key");
        let (name, id) = key.split_once(':').expect("stream prefix");
        v.push((name.to_string(), id.parse::<u64>().expect("numeric id"), val.to_vec()));
    }
    v.sort_by_key(|e| e.1);
    v
}

#[test]
fn key_is_stream_and_padded_id() {
    assert_eq!(encode_key(Stream::Stdout, 42), b"stdout:00000042".to_vec());
    assert_eq!(encode_key(Stream::Stderr, 0), b"stderr:00000000".to_vec());
    assert_eq!(encode_key(Stream::Stderr, 123456789012), b"stderr:123456789012".to_vec());
    assert_eq!(encode_key(Stream::Stdout, u64::MAX), b"stdout:18446744073709551615".to_vec());
    assert_eq!(encode_key(Stream::Stdout, 99999999), b"stdout:99999999".to_vec());
}

#[test]
fn keys_of_one_stream_sort_by_id() {
    let a = encode_key(Stream::Stdout, 9);
    let b = encode_key(Stream::Stdout, 10);
    let c = encode_key(Stream::Stdout, 1234);
    assert!(a < b && b < c);
}

#[test]
fn framer_splits_at_delimiter_and_keeps_bytes() {
    let mut f = LineFramer::new();
    f.feed(b"A\r\nB\nC");
    assert!(matches!(f.take_frame(), Some(FrameResult::Frame(v)) if v == b"A\r\n".to_vec()));
    assert!(matches!(f.take_frame(), Some(FrameResult::Frame(v)) if v == b"B\n".to_vec()));
    assert!(f.take_frame().is_none());
    f.feed(b"D\n");
    assert!(matches!(f.take_frame(), Some(FrameResult::Frame(v)) if v == b"CD\n".to_vec()));
    f.finish();
    assert!(matches!(f.take_frame(), Some(FrameResult::EndOfStream)));
}

#[test]
fn final_line_without_delimiter_is_a_frame() {
    let mut f = LineFramer::new();
    f.feed(b"done");
    assert!(f.take_frame().is_none());
    f.finish();
    assert!(matches!(f.take_frame(), Some(FrameResult::Frame(v)) if v == b"done".to_vec()));
    assert!(matches!(f.take_frame(), Some(FrameResult::EndOfStream)));
    assert!(matches!(f.take_frame(), Some(FrameResult::EndOfStream)));
}

#[test]
fn read_failure_drops_buffered_bytes() {
    let mut f = LineFramer::new();
    f.feed(b"x\npartial");
    assert!(matches!(f.take_frame(), Some(FrameResult::Frame(v)) if v == b"x\n".to_vec()));
    f.fail();
    assert!(f.is_closed());
    assert!(matches!(f.take_frame(), Some(FrameResult::ReadFailure)));
}

#[test]
fn empty_stream_ends_at_once() {
    let mut f = LineFramer::new();
    f.finish();
    assert!(matches!(f.take_frame(), Some(FrameResult::EndOfStream)));
}

#[test]
fn stdout_and_stderr_lines_stored_and_teed() {
    let db = temp_db();
    let mut cap = Capture::new(db.clone());
    let (out, err) = run(&mut cap, &[b"A\n"], &[b"B\n"]);
    assert_eq!(out, b"A\n".to_vec());
    assert_eq!(err, b"B\n".to_vec());
    let e = entries(&db);
    assert_eq!(e.len(), 2);
    assert_eq!(e[0].0, "stdout");
    assert_eq!(e[0].2, b"A\n".to_vec());
    assert_eq!(e[1].0, "stderr");
    assert_eq!(e[1].2, b"B\n".to_vec());
    assert!(e[0].1 < e[1].1);
    assert_eq!(db.get(encode_key(Stream::Stdout, e[0].1)).unwrap().unwrap().to_vec(), b"A\n".to_vec());
}

#[test]
fn thousand_stdout_lines() {
    let db = temp_db();
    let mut cap = Capture::new(db.clone());
    let mut text = Vec::new();
    for i in 0..1000 {
        text.extend_from_slice(format!("line {}\n", i).as_bytes());
    }
    let (out, err) = run(&mut cap, &[&text], &[]);
    assert_eq!(out, text);
    assert!(err.is_empty());
    let e = entries(&db);
    assert_eq!(e.len(), 1000);
    for (i, (name, _, payload)) in e.iter().enumerate() {
        assert_eq!(name, "stdout");
        assert_eq!(payload, &format!("line {}\n", i).into_bytes());
    }
    for w in e.windows(2) {
        assert!(w[0].1 < w[1].1);
    }
    assert!(db.scan_prefix(b"stderr:").next().is_none());
}

#[test]
fn undelimited_last_line_is_stored() {
    let db = temp_db();
    let mut cap = Capture::new(db.clone());
    let (out, _) = run(&mut cap, &[b"first\ndo", b"ne"], &[]);
    assert_eq!(out, b"first\ndone".to_vec());
    let e = entries(&db);
    assert_eq!(e.len(), 2);
    assert_eq!(e[1].2, b"done".to_vec());
}

#[test]
fn polling_alternates_stdout_first() {
    let db = temp_db();
    let mut cap = Capture::new(db.clone());
    run(&mut cap, &[b"o1\no2\no3\n"], &[b"e1\ne2\n"]);
    let order: Vec<Vec<u8>> = entries(&db).into_iter().map(|e| e.2).collect();
    let want: Vec<Vec<u8>> = ["o1\n", "e1\n", "o2\n", "e2\n", "o3\n"].iter().map(|s| s.as_bytes().to_vec()).collect();
    assert_eq!(order, want);
}

#[test]
fn every_byte_of_many_chunks_is_kept() {
    let db = temp_db();
    let mut cap = Capture::new(db.clone());
    let chunks: [&[u8]; 4] = [b"ab", b"c\n\nd", b"\r\ne", b"f"];
    run(&mut cap, &chunks, &[b"x"]);
    let e = entries(&db);
    let out: Vec<u8> = e.iter().filter(|x| x.0 == "stdout").flat_map(|x| x.2.clone()).collect();
    assert_eq!(out, b"abc\n\nd\r\nef".to_vec());
    let lines: Vec<Vec<u8>> = e.iter().filter(|x| x.0 == "stdout").map(|x| x.2.clone()).collect();
    assert_eq!(lines, vec![b"abc\n".to_vec(), b"\n".to_vec(), b"d\r\n".to_vec(), b"ef".to_vec()]);
    assert_eq!(e.iter().filter(|x| x.0 == "stderr").count(), 1);
}

#[test]
fn read_failure_closes_stream_without_storing_partial() {
    let db = temp_db();
    let mut cap = Capture::new(db.clone());
    assert!(matches!(cap.step(), Ok(Step::NeedInput(Stream::Stdout))));
    cap.feed(Stream::Stdout, b"ok\nlost");
    assert!(matches!(cap.step(), Ok(Step::Tee(Stream::Stdout, _))));
    assert!(matches!(cap.step(), Ok(Step::NeedInput(Stream::Stderr))));
    cap.finish(Stream::Stderr);
    assert!(matches!(cap.step(), Ok(Step::Closed(Stream::Stderr))));
    assert!(matches!(cap.step(), Ok(Step::NeedInput(Stream::Stdout))));
    cap.fail(Stream::Stdout);
    assert!(matches!(cap.step(), Ok(Step::ReadFailed(Stream::Stdout))));
    assert!(matches!(cap.step(), Ok(Step::Done)));
    assert!(!cap.is_reading(Stream::Stdout));
    let e = entries(&db);
    assert_eq!(e.len(), 1);
    assert_eq!(e[0].2, b"ok\n".to_vec());
}

#[test]
fn second_run_only_appends_with_higher_ids() {
    let db = temp_db();
    db.insert(b"note", b"kept".to_vec()).unwrap();
    let mut first = Capture::new(db.clone());
    run(&mut first, &[b"one\n"], &[b"two\n"]);
    let before = entries(&db_without_note(&db));
    let mut second = Capture::new(db.clone());
    run(&mut second, &[b"three\n"], &[]);
    let after = entries(&db_without_note(&db));
    assert_eq!(after.len(), 3);
    assert_eq!(&after[..2], &before[..]);
    assert!(after[2].1 > before[1].1);
    assert_eq!(after[2].2, b"three\n".to_vec());
    assert_eq!(db.get(b"note").unwrap().unwrap().to_vec(), b"kept".to_vec());
}

fn db_without_note(db: &sled::Db) -> sled::Db {
    let copy = temp_db();
    for kv in db.iter() {
        let (k, v) = kv.unwrap();
        if k.as_ref() != b"note" {
            copy.insert(k, v).unwrap();
        }
    }
    copy
}

#[test]
fn fresh_capture_stores_nothing() {
    let db = temp_db();
    let cap = Capture::new(db.clone());
    assert!(cap.is_reading(Stream::Stdout) && cap.is_reading(Stream::Stderr));
    assert!(!cap.source_closed(Stream::Stdout));
    assert_eq!(cap.into_store().len(), 0);
    assert_eq!(db.len(), 0);
}

#[test]
fn stream_other_and_name() {
    assert_eq!(Stream::Stdout.other(), Stream::Stderr);
    assert_eq!(Stream::Stderr.other(), Stream::Stdout);
    assert_eq!(Stream::Stdout.name(), b"stdout".to_vec());
    assert_eq!(Stream::Stderr.name(), b"stderr".to_vec());
}

#[test]
fn stored_keys_sorted_by_id_give_read_order() {
    let db = temp_db();
    let mut cap = Capture::new(db.clone());
    run(&mut cap, &[b"o1\no2\n"], &[b"e1\n"]);
    let mut stored: Vec<(u64, Vec<u8>)> = Vec::new();
    for kv in db.iter() {
        let (k, v) = kv.unwrap();
        let (_, id) = decode_key(&k).expect("a line key");
        stored.push((id, v.to_vec()));
    }
    stored.sort_by_key(|e| e.0);
    let lines: Vec<Vec<u8>> = stored.into_iter().map(|e| e.1).collect();
    assert_eq!(lines, vec![b"o1\n".to_vec(), b"e1\n".to_vec(), b"o2\n".to_vec()]);
}

#[test]
fn drawn_ids_are_judged() {
    assert_eq!(check_drawn(Ok(7)), Ok(7));
    assert_eq!(check_drawn(Ok(0)), Ok(0));
    assert_eq!(check_drawn(Ok(u64::MAX)), Err(CaptureError::IdsExhausted));
    let failed = sled::Error::Unsupported("gone".to_string());
    assert_eq!(check_drawn(Err(failed)), Err(CaptureError::IdDraw));
}

#[test]
fn store_answers_are_judged() {
    match check_stored(Stream::Stderr, b"B\n".to_vec(), Ok(())) {
        Ok(Step::Tee(Stream::Stderr, v)) => assert_eq!(v, b"B\n".to_vec()),
        other => panic!("unexpected {:?}", other),
    }
    let failed = sled::Error::ReportableBug("disk".to_string());
    assert!(matches!(check_stored(Stream::Stdout, b"A\n".to_vec(), Err(failed)), Err(CaptureError::Store)));
}
