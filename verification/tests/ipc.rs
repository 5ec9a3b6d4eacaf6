use viewfs::ipc::{
    build_close_request, build_open_request, build_response, deserialize_paths, parse_close_request,
    parse_open_response, recv_fuse_fd, recv_whitelist, recv_whitelist_size, send_whitelist,
    serialize_paths, ControlMessage, FdError, Tag, WhitelistError,
};

fn paths(list: &[&str]) -> Vec<Vec<u8>> {
    list.iter().map(|s| s.as_bytes().to_vec()).collect()
}

#[test]
fn response_layout() {
    assert_eq!(build_response(13, 0), [13, 0, 0, 0, 0]);
    assert_eq!(build_response(0, 0x0403_0201), [0, 1, 2, 3, 4]);
}

#[test]
fn responses_are_read_back() {
    for id in [0, 1, 255, 256, 0x1234_5678, u32::MAX] {
        assert_eq!(parse_open_response(build_response(0, id)), Ok(id));
        assert_eq!(parse_open_response(build_response(5, id)), Err(5));
    }
    assert_eq!(parse_open_response(build_response(255, 7)), Err(255));
}

#[test]
fn open_request_layout() {
    assert_eq!(build_open_request(b"/nix"), b"\0/nix".to_vec());
    assert_eq!(build_open_request(b""), vec![0]);
}

#[test]
fn close_requests_are_read_back() {
    assert_eq!(build_close_request(0x0403_0201), [1, 1, 2, 3, 4]);
    for id in [0, 1, 0x00ff_00ff, u32::MAX] {
        assert_eq!(parse_close_request(&build_close_request(id)[1..]), Some(id));
    }
    assert_eq!(parse_close_request(&[1, 2, 3]), None);
    assert_eq!(parse_close_request(&[1, 2, 3, 4, 5]), None);
    assert_eq!(parse_close_request(&[]), None);
}

#[test]
fn tags_are_bytes() {
    assert_eq!(Tag::Open.byte(), 0);
    assert_eq!(Tag::Close.byte(), 1);
    assert_eq!(Tag::try_from(0), Ok(Tag::Open));
    assert_eq!(Tag::try_from(1), Ok(Tag::Close));
    assert_eq!(Tag::try_from(2), Err(2));
    assert_eq!(Tag::try_from(255), Err(255));
}

#[test]
fn path_list_layout() {
    assert_eq!(serialize_paths(&[]), vec![0, 0, 0, 0]);
    assert_eq!(
        serialize_paths(&paths(&["/a", "/bc"])),
        vec![2, 0, 0, 0, 2, 0, 0, 0, b'/', b'a', 3, 0, 0, 0, b'/', b'b', b'c']
    );
}

#[test]
fn path_lists_are_read_back_whatever_follows() {
    for list in [&[][..], &["/"], &["/a", "", "/a//b"], &["/nix/store/x", "/y"]] {
        let list = paths(list);
        let mut data = serialize_paths(&list);
        assert_eq!(deserialize_paths(&data), Some(list.clone()));
        data.extend_from_slice(&[1, 2, 3, 4, 5, 6]);
        assert_eq!(deserialize_paths(&data), Some(list));
    }
}

#[test]
fn cut_path_lists_are_refused() {
    let data = serialize_paths(&paths(&["/a", "/bc"]));
    for len in 0..data.len() {
        assert_eq!(deserialize_paths(&data[..len]), None, "{len}");
    }
    assert_eq!(deserialize_paths(&[255, 255, 255, 255]), None);
    assert_eq!(deserialize_paths(&[1, 0, 0, 0, 255, 255, 255, 255, 1]), None);
}

#[test]
fn whitelists_are_read_back() {
    let list = paths(&["/nix/store/a", "/nix/store/b"]);
    let sent = send_whitelist(&list);
    assert_eq!(sent.data, serialize_paths(&list));
    assert_eq!(sent.size, [36, 0, 0, 0]);
    assert_eq!(recv_whitelist_size(4, sent.size), Ok(sent.data.len()));
    let allowed = recv_whitelist(&sent.data, sent.data.len()).ok().unwrap();
    assert!(allowed.contains(b"/nix/store/a"));
    assert!(allowed.contains(b"/nix/store/b"));
    assert!(!allowed.contains(b"/nix/store"));
}

#[test]
fn broken_whitelists_are_refused() {
    for len in [0, 3, 5] {
        assert_eq!(recv_whitelist_size(len, [9, 0, 0, 0]), Err(WhitelistError::ShortLength));
    }
    assert_eq!(recv_whitelist_size(4, [1, 2, 0, 0]), Ok(513));
    let data = serialize_paths(&paths(&["/a"]));
    assert_eq!(
        recv_whitelist(&data, data.len() - 1).err(),
        Some(WhitelistError::SizeMismatch)
    );
    assert_eq!(
        recv_whitelist(&data[..9], 9).err(),
        Some(WhitelistError::Malformed)
    );
}

#[test]
fn first_descriptor_of_the_first_rights_is_taken() {
    assert_eq!(
        recv_fuse_fd(&[
            ControlMessage::Other,
            ControlMessage::Rights(vec![7, 8]),
            ControlMessage::Rights(vec![9]),
        ]),
        Ok(7)
    );
    assert_eq!(
        recv_fuse_fd(&[ControlMessage::Rights(vec![]), ControlMessage::Rights(vec![9])]),
        Err(FdError::Empty)
    );
    assert_eq!(recv_fuse_fd(&[]), Err(FdError::Missing));
    assert_eq!(recv_fuse_fd(&[ControlMessage::Other]), Err(FdError::Missing));
}
