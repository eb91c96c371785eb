use flash_launch::shell_helper::{
    accept_reply, decode_result, encode_frame, encode_reply, encode_result, execute_operation,
    invalid_data, operation_result, read_frame, request_magic, response_magic, serve_request,
    shell_helper_requested, Frame, FrameError, HelperStart, OperationStep, ServerStep,
    ShellHelperClient, ShellHelperResult, ShellOperation, ShortcutFacts, MAX_PAYLOAD_BYTES,
    PROTOCOL_VERSION, REQUEST_SHUTDOWN, RESPONSE_TIMEOUT, SHELL_UI_RESPONSE_TIMEOUT,
};
use flash_launch::wide::{
    copy_wide_fixed, decode_wide, decode_wide_payload, encode_wide, encode_wide_payload,
    text_before_zero, wide, wide_up_to,
};

#[test]
fn operation_codes_round_trip() {
    for operation in [
        ShellOperation::Launch,
        ShellOperation::Open,
        ShellOperation::OpenLinkedLocation,
        ShellOperation::Properties,
        ShellOperation::ContextMenu,
    ] {
        assert_eq!(ShellOperation::from_code(operation.code()), Some(operation));
    }
    assert_eq!(ShellOperation::from_code(99), None);
    assert_eq!(
        ShellOperation::ContextMenu.response_timeout(),
        SHELL_UI_RESPONSE_TIMEOUT
    );
    assert_eq!(
        ShellOperation::Properties.response_timeout(),
        SHELL_UI_RESPONSE_TIMEOUT
    );
}

#[test]
fn request_frame_preserves_unicode_path() {
    let path = encode_wide(r"C:\Dữ liệu\Ứng dụng\công cụ.exe");
    let frame = encode_frame(
        &request_magic(),
        ShellOperation::Launch.code(),
        42,
        &encode_wide_payload(&path),
    )
    .unwrap();
    let read = read_frame(frame.as_slice(), &request_magic())
        .unwrap()
        .unwrap();
    assert_eq!(read.request_id, 42);
    assert_eq!(decode_wide_payload(&read.payload).unwrap(), path);
}

#[test]
fn result_codec_round_trips_all_statuses() {
    let results = [
        ShellHelperResult::Success,
        ShellHelperResult::MissingShortcutTarget(encode_wide(r"C:\missing.exe")),
        ShellHelperResult::NoLinkedLocation,
        ShellHelperResult::SelectedPath(encode_wide(r"C:\Folder")),
        ShellHelperResult::Cancelled,
        ShellHelperResult::Error("Detailed helper error.".to_string()),
    ];
    for expected in results {
        let (status, payload) = encode_result(&expected);
        assert_eq!(decode_result(status, &payload).unwrap(), expected);
    }
}

#[test]
fn frame_rejects_invalid_magic_and_version() {
    let mut frame = encode_frame(&request_magic(), 0, 1, &[]).unwrap();
    frame[0] = b'X';
    assert!(read_frame(frame.as_slice(), &request_magic()).is_err());

    let mut frame = encode_frame(&request_magic(), 0, 1, &[]).unwrap();
    frame[4] = PROTOCOL_VERSION + 1;
    assert!(read_frame(frame.as_slice(), &request_magic()).is_err());
}

#[test]
fn frames_have_their_bytes_in_order() {
    let frame = encode_frame(&request_magic(), 3, 0x0102_0304_0506_0708, &[0xaa, 0xbb]).unwrap();
    assert_eq!(
        frame,
        vec![
            b'F', b'L', b'S', b'Q', 1, 3, 8, 7, 6, 5, 4, 3, 2, 1, 2, 0, 0, 0, 0xaa, 0xbb
        ]
    );
    assert_eq!(&response_magic(), b"FLSR");
}

#[test]
fn short_and_oversized_frames_are_refused() {
    assert_eq!(read_frame(&[], &request_magic()).unwrap(), None);
    let frame = encode_frame(&request_magic(), 0, 1, &[1, 2]).unwrap();
    assert_eq!(
        read_frame(&frame[..10], &request_magic()).unwrap_err(),
        FrameError::UnexpectedEnd
    );
    assert_eq!(
        read_frame(&frame[..19], &request_magic()).unwrap_err(),
        FrameError::UnexpectedEnd
    );
    let mut large = frame.clone();
    large[17] = 0xff;
    assert_eq!(
        read_frame(&large, &request_magic()).unwrap_err(),
        invalid_data("Shell helper frame payload is too large.")
    );
    let payload = vec![0u8; MAX_PAYLOAD_BYTES + 1];
    assert_eq!(
        encode_frame(&request_magic(), 0, 1, &payload).unwrap_err(),
        invalid_data("Shell helper payload is too large.")
    );
}

#[test]
fn results_with_misfit_payloads_are_refused() {
    let invalid = invalid_data("Shell helper response payload is invalid.");
    assert_eq!(decode_result(0, &[1, 2]).unwrap_err(), invalid);
    assert_eq!(decode_result(1, &[]).unwrap_err(), invalid);
    assert_eq!(decode_result(9, &[]).unwrap_err(), invalid);
    assert_eq!(
        decode_result(3, &[1]).unwrap_err(),
        invalid_data("Shell helper UTF-16 payload has an odd length.")
    );
}

#[test]
fn request_numbers_skip_zero() {
    let mut client = ShellHelperClient::start();
    assert_eq!(client.take_request_id(), 1);
    assert_eq!(client.take_request_id(), 2);
    client.next_request_id = u64::MAX;
    assert_eq!(client.take_request_id(), u64::MAX);
    assert_eq!(client.take_request_id(), 1);
}

#[test]
fn client_and_server_understand_each_other() {
    let mut client = ShellHelperClient::start();
    let path = encode_wide(r"C:\Tools\tool.exe");
    let pending = client.transact(ShellOperation::Open, &path).unwrap();
    assert_eq!(pending.timeout_seconds, RESPONSE_TIMEOUT);
    let request = read_frame(&pending.frame, &request_magic()).unwrap().unwrap();
    assert_eq!(
        serve_request(&request),
        ServerStep::Run(ShellOperation::Open, path)
    );
    let reply = encode_reply(request.request_id, &operation_result(Ok(()))).unwrap();
    let reply = read_frame(&reply, &response_magic()).unwrap().unwrap();
    assert_eq!(
        accept_reply(pending.request_id, &reply).unwrap(),
        ShellHelperResult::Success
    );
    assert_eq!(
        accept_reply(pending.request_id + 1, &reply).unwrap_err(),
        invalid_data("Shell helper response ID does not match the request.")
    );

    let number = client.next_request_id;
    let stop = client.shutdown().unwrap();
    assert_eq!(client.next_request_id, number + 1);
    let stop = read_frame(&stop, &request_magic()).unwrap().unwrap();
    assert_eq!(stop.kind, REQUEST_SHUTDOWN);
    assert_eq!(serve_request(&stop), ServerStep::Stop);
    assert_eq!(
        client.transact(ShellOperation::Open, &[]).unwrap_err(),
        FrameError::Closed
    );
    assert_eq!(client.shutdown(), None);
    let mut aborted = ShellHelperClient::start();
    aborted.abort();
    assert!(aborted.closed);
}

#[test]
fn server_answers_what_it_does_not_know() {
    let request = Frame {
        kind: 77,
        request_id: 1,
        payload: Vec::new(),
    };
    assert_eq!(
        serve_request(&request),
        ServerStep::Reply(ShellHelperResult::Error(
            "Unknown Shell helper operation.".to_string()
        ))
    );
    let request = Frame {
        kind: 0,
        request_id: 1,
        payload: vec![1],
    };
    assert_eq!(
        serve_request(&request),
        ServerStep::Reply(ShellHelperResult::Error(
            "Shell helper UTF-16 payload has an odd length.".to_string()
        ))
    );
}

#[test]
fn shortcuts_without_a_target_are_not_launched() {
    let missing = encode_wide(r"C:\gone.exe");
    let facts = |exists: bool| ShortcutFacts {
        target: Some(encode_wide(r"C:\gone.exe")),
        target_exists: exists,
        linked_folder: None,
    };
    assert_eq!(
        execute_operation(ShellOperation::Launch, r"C:\a.LNK", facts(false)),
        OperationStep::Finished(ShellHelperResult::MissingShortcutTarget(missing))
    );
    assert_eq!(
        execute_operation(ShellOperation::Launch, r"C:\a.lnk", facts(true)),
        OperationStep::Launch
    );
    assert_eq!(
        execute_operation(ShellOperation::Launch, r"C:\a.exe", facts(false)),
        OperationStep::Launch
    );
    assert_eq!(
        execute_operation(ShellOperation::OpenLinkedLocation, r"C:\a.lnk", facts(true)),
        OperationStep::Finished(ShellHelperResult::NoLinkedLocation)
    );
    assert_eq!(
        operation_result(Err("No".to_string())),
        ShellHelperResult::Error("No".to_string())
    );
}

#[test]
fn helper_is_started_by_its_argument_alone() {
    let arguments = |list: &[&str]| list.iter().map(|a| a.to_string()).collect::<Vec<_>>();
    assert_eq!(shell_helper_requested(&[]), HelperStart::NotAsked);
    assert_eq!(
        shell_helper_requested(&arguments(&["--show"])),
        HelperStart::NotAsked
    );
    assert_eq!(
        shell_helper_requested(&arguments(&["--shell-helper"])),
        HelperStart::Run
    );
    assert_eq!(
        shell_helper_requested(&arguments(&["--shell-helper", "x"])),
        HelperStart::WrongArguments
    );
}

#[test]
fn wide_texts_match_the_standard_encoding() {
    for value in ["", "abc", "Dữ liệu", "日本語", "a😀b", "\u{ffff}\u{10000}"] {
        let units = value.encode_utf16().collect::<Vec<_>>();
        assert_eq!(encode_wide(value), units);
        assert_eq!(decode_wide(&units), value);
        let mut closed = units.clone();
        closed.push(0);
        assert_eq!(wide(value), closed);
    }
    let broken = [0x61, 0xd800, 0x62, 0xdc00];
    assert_eq!(decode_wide(&broken), String::from_utf16_lossy(&broken));
}

#[test]
fn wide_buffers_end_at_their_zero() {
    assert_eq!(text_before_zero(&[0x61, 0x62, 0, 0x63]), "ab");
    assert_eq!(text_before_zero(&[0x61, 0x62]), "ab");
    let mut buffer = vec![7u16; 4];
    copy_wide_fixed(&mut buffer, "abcdef");
    assert_eq!(buffer, vec![0x61, 0x62, 0x63, 0]);
    copy_wide_fixed(&mut buffer, "x");
    assert_eq!(buffer, vec![0x78, 0, 0, 0]);
    let mut none: Vec<u16> = Vec::new();
    copy_wide_fixed(&mut none, "x");
    assert!(none.is_empty());
    assert_eq!(wide_up_to("abc", 2), vec![0x61, 0x62, 0]);
}
