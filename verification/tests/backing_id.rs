use viewfs::attr::Metadata;
use viewfs::backing_id::{
    backing_id_created, child_step, file_opened, handle_close, handle_open, run_event_loop,
    ChildStatus, OpenAction, RecvEvent, ServerStep, EACCES, EIO,
};
use viewfs::filesystem::{OpenAnswer, OpenStep, ViewFS};
use viewfs::filter::{whitelist_paths, FileType, ViewFile};
use viewfs::handles::HandleCache;
use viewfs::ipc::{
    build_close_request, build_open_request, build_response, recv_whitelist, send_whitelist,
};
use viewfs::whitelist::Whitelist;

fn step(msg: &[u8]) -> ServerStep {
    run_event_loop(&RecvEvent::Message(msg.to_vec()))
}

fn response(action: OpenAction) -> [u8; 5] {
    match action {
        OpenAction::Respond(resp) => resp,
        _ => panic!("an answer is due"),
    }
}

#[test]
fn server_error_numbers_are_those_of_the_system() {
    assert_eq!(i32::from(EACCES), nix::libc::EACCES);
    assert_eq!(i32::from(EIO), nix::libc::EIO);
}

#[test]
fn messages_are_told_apart_by_their_tag() {
    assert!(matches!(step(&build_open_request(b"/a")), ServerStep::Open(d) if d == b"/a"));
    assert!(matches!(step(&build_open_request(b"")), ServerStep::Open(d) if d.is_empty()));
    assert!(matches!(step(&build_close_request(7)), ServerStep::Close(d) if d == [7, 0, 0, 0]));
    assert!(matches!(step(&[2, 1]), ServerStep::Unknown(2)));
    assert!(matches!(step(&[255]), ServerStep::Unknown(255)));
}

#[test]
fn the_server_ends_with_the_view() {
    assert!(matches!(step(&[]), ServerStep::Stop));
    assert!(matches!(run_event_loop(&RecvEvent::Failed), ServerStep::Stop));
    assert!(matches!(run_event_loop(&RecvEvent::TimedOut), ServerStep::CheckChild));
    assert!(matches!(child_step(ChildStatus::Running), ServerStep::Receive));
    for status in [ChildStatus::Exited, ChildStatus::Signaled, ChildStatus::Unknown] {
        assert!(matches!(child_step(status), ServerStep::Stop));
    }
}

#[test]
fn only_whitelisted_paths_are_opened() {
    let allowed = Whitelist::new(vec![b"/s/f".to_vec()]);
    assert!(matches!(handle_open(&allowed, b"/s/f"), OpenAction::OpenFile(p) if p == b"/s/f"));
    assert!(matches!(handle_open(&allowed, b"/s//f"), OpenAction::OpenFile(p) if p == b"/s//f"));
    for path in [&b"/s"[..], b"/s/f/x", b"s/f", b"", b"/s/../s/f"] {
        assert_eq!(response(handle_open(&allowed, path)), [13, 0, 0, 0, 0]);
    }
}

#[test]
fn open_errors_are_answered() {
    assert!(matches!(file_opened(Ok(())), OpenAction::CreateBackingId));
    assert_eq!(response(file_opened(Err(Some(2)))), [2, 0, 0, 0, 0]);
    assert_eq!(response(file_opened(Err(None))), [5, 0, 0, 0, 0]);
    assert_eq!(response(file_opened(Err(Some(0x102)))), [2, 0, 0, 0, 0]);
    assert_eq!(backing_id_created(None), [5, 0, 0, 0, 0]);
    assert_eq!(backing_id_created(Some(0x0102)), [0, 2, 1, 0, 0]);
}

#[test]
fn close_requests_are_handled() {
    assert_eq!(handle_close(&[7, 0, 0, 1]), Ok(0x0100_0007));
    assert_eq!(handle_close(&[7, 0, 0]), Err(3));
    assert_eq!(handle_close(&[]), Err(0));
}

/// What the view makes of an answer to its request for the file `/s/f`.
fn seen_by_the_view(fs: &ViewFS, cache: &mut HandleCache, buf: [u8; 5]) -> Result<u32, i32> {
    match fs.open(cache, 3, 0) {
        OpenStep::Ask { node_id, .. } => fs
            .finish_open(cache, node_id, OpenAnswer::Received { len: 5, buf })
            .map(|o| o.raw_id),
        _ => panic!("the server is to be asked"),
    }
}

#[test]
fn answers_reach_the_view() {
    let files = vec![ViewFile { filetype: FileType::File, path: b"/s/f".to_vec() }];
    let mount = Metadata {
        size: 0,
        blocks: 0,
        accessed: None,
        modified: None,
        created: None,
        ctime: 0,
        ctime_nsec: 0,
        mode: 0o040_755,
        uid: 0,
        gid: 0,
        rdev: 0,
        blksize: 0,
    };
    let paths = whitelist_paths(&files);
    let fs = ViewFS::new(files, &mount);
    let mut cache = HandleCache::new();
    let sent = send_whitelist(&paths);
    let allowed = recv_whitelist(&sent.data, sent.data.len()).ok().unwrap();

    let msg = match fs.open(&mut cache, 3, 0) {
        OpenStep::Ask { msg, .. } => msg,
        _ => panic!("the server is to be asked"),
    };
    let data = match step(&msg) {
        ServerStep::Open(data) => data,
        _ => panic!("the message is an open request"),
    };
    assert!(matches!(handle_open(&allowed, &data), OpenAction::OpenFile(p) if p == b"/s/f"));

    let refused = response(handle_open(&allowed, b"/s"));
    assert_eq!(seen_by_the_view(&fs, &mut cache, refused), Err(13));
    let missing = response(file_opened(Err(Some(2))));
    assert_eq!(seen_by_the_view(&fs, &mut cache, missing), Err(2));
    assert_eq!(seen_by_the_view(&fs, &mut cache, backing_id_created(None)), Err(5));
    assert_eq!(backing_id_created(Some(8)), build_response(0, 8));
    assert_eq!(seen_by_the_view(&fs, &mut cache, backing_id_created(Some(8))), Ok(8));
}
