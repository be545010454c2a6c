use relay_board_five_chn::api::read_headers;
use relay_board_five_chn::board::init;
use relay_board_five_chn::relay::{relay_task, RelayControl};
use relay_board_five_chn::tasks::api::serve_request;
use relay_board_five_chn::tasks::headers::{HeaderBuffer, HeaderStatus, REQUEST_BUFFER_SIZE};
use relay_board_five_chn::tasks::reply::{append, render, respond, write_relay_state, Response};

#[test]
fn append_writes_at_the_position() {
    let mut buffer = [b'.'; 6];
    let mut used = 1;
    append(&mut buffer, &mut used, b"ab");
    assert_eq!(&buffer, b".ab...");
    assert_eq!(used, 3);
    append(&mut buffer, &mut used, b"");
    append(&mut buffer, &mut used, b"cde");
    assert_eq!(&buffer, b".abcde");
    assert_eq!(used, 6);
}

#[test]
fn relay_state_is_written_as_json() {
    let mut buffer = [b'#'; 96];
    let used = write_relay_state(&mut buffer, 0);
    assert_eq!(&buffer[..used], b"{\"relays\":[false,false,false,false,false]}");
    assert_eq!(buffer[used], b'#');
    let used = write_relay_state(&mut buffer, 0b10101);
    assert_eq!(&buffer[..used], b"{\"relays\":[true,false,true,false,true]}");
    let used = write_relay_state(&mut buffer, u32::MAX);
    assert_eq!(&buffer[..used], b"{\"relays\":[true,true,true,true,true]}");
}

#[test]
fn relay_states_are_reported_apart() {
    let mut reports: Vec<Vec<u8>> = Vec::new();
    for mask in 0..32u32 {
        let mut buffer = [0u8; 96];
        let used = write_relay_state(&mut buffer, mask);
        let report = buffer[..used].to_vec();
        assert!(!reports.contains(&report));
        reports.push(report);
    }
}

#[test]
fn reply_has_status_headers_and_body() {
    assert_eq!(
        respond(b"200 OK", b"text/plain", b"hello"),
        b"HTTP/1.1 200 OK\r\nContent-Type: text/plain\r\nConnection: close\r\n\r\nhello".to_vec()
    );
}

#[test]
fn every_kind_of_reply_is_rendered() {
    assert_eq!(
        render(Response::CommandAccepted, 0),
        b"HTTP/1.1 202 Accepted\r\nContent-Type: application/json\r\nConnection: close\r\n\r\n{\"accepted\":true}".to_vec()
    );
    assert_eq!(
        render(Response::BadRequest, 0),
        b"HTTP/1.1 400 Bad Request\r\nContent-Type: application/json\r\nConnection: close\r\n\r\n{\"error\":\"invalid relay request\"}".to_vec()
    );
    assert_eq!(
        render(Response::NotFound, 0),
        b"HTTP/1.1 404 Not Found\r\nContent-Type: application/json\r\nConnection: close\r\n\r\n{\"error\":\"not found\"}".to_vec()
    );
    assert_eq!(
        render(Response::RelayState, 0b00010),
        b"HTTP/1.1 200 OK\r\nContent-Type: application/json\r\nConnection: close\r\n\r\n{\"relays\":[false,true,false,false,false]}".to_vec()
    );
    let page = br#"<!doctype html>
<html lang="en"><head><meta charset="utf-8"><title>Relay Controller</title></head>
<body><h1>Relay Controller</h1><p>Use the HTTP API to control relays.</p></body></html>"#;
    let mut expected =
        b"HTTP/1.1 200 OK\r\nContent-Type: text/html; charset=utf-8\r\nConnection: close\r\n\r\n"
            .to_vec();
    expected.extend_from_slice(page);
    assert_eq!(render(Response::Html, 0), expected);
}

#[test]
fn body_follows_the_first_empty_line() {
    for response in [
        Response::Html,
        Response::RelayState,
        Response::CommandAccepted,
        Response::BadRequest,
        Response::NotFound,
    ] {
        let message = render(response, 3);
        let end = message.windows(4).position(|bytes| bytes == b"\r\n\r\n").unwrap();
        assert!(message[end + 4] == b'{' || message[end + 4] == b'<');
        assert!(message[..end].ends_with(b"Connection: close"));
    }
}

#[test]
fn served_requests_change_and_report_the_relays() {
    let mut control = RelayControl::new();
    let mut bank = init();
    let accepted =
        serve_request(Some(b"POST /api/relays/1/on HTTP/1.1\r\n\r\n"), &mut control).unwrap();
    assert_eq!(accepted, render(Response::CommandAccepted, 0));
    let before = serve_request(Some(b"GET /api/relays HTTP/1.1\r\n\r\n"), &mut control).unwrap();
    assert!(before.ends_with(b"[false,false,false,false,false]}"));
    relay_task(&mut control, &mut bank);
    let after = serve_request(Some(b"GET /api/relays HTTP/1.1\r\n\r\n"), &mut control).unwrap();
    assert!(after.ends_with(b"[false,true,false,false,false]}"));
}

#[test]
fn unreadable_request_is_a_bad_request() {
    let mut control = RelayControl::new();
    assert_eq!(serve_request(None, &mut control), Some(render(Response::BadRequest, 0)));
}

#[test]
fn header_block_is_collected_over_several_reads() {
    let mut buffer = HeaderBuffer::new();
    assert_eq!(buffer.room(), REQUEST_BUFFER_SIZE);
    assert_eq!(buffer.read_http_headers(Some(b"GET / HTTP/1.1\r\n")), HeaderStatus::Incomplete);
    assert_eq!(buffer.read_http_headers(Some(b"Host: x\r\n\r")), HeaderStatus::Incomplete);
    assert_eq!(buffer.read_http_headers(Some(b"\nbody")), HeaderStatus::Complete);
    assert_eq!(buffer.request(), b"GET / HTTP/1.1\r\nHost: x\r\n\r\nbody");
    assert_eq!(buffer.room(), REQUEST_BUFFER_SIZE - buffer.request().len());
}

#[test]
fn closed_or_failed_connection_gives_no_header_block() {
    let mut buffer = HeaderBuffer::new();
    assert_eq!(buffer.read_http_headers(Some(b"")), HeaderStatus::Failed);
    let mut buffer = HeaderBuffer::new();
    assert_eq!(buffer.read_http_headers(Some(b"GET")), HeaderStatus::Incomplete);
    assert_eq!(buffer.read_http_headers(None), HeaderStatus::Failed);
}

#[test]
fn header_block_must_fit_the_buffer() {
    let mut buffer = HeaderBuffer::new();
    assert_eq!(buffer.read_http_headers(Some(&[b'x'; 1023])), HeaderStatus::Incomplete);
    assert_eq!(buffer.room(), 1);
    assert_eq!(buffer.read_http_headers(Some(b"x")), HeaderStatus::Failed);
    let mut buffer = HeaderBuffer::new();
    assert_eq!(buffer.read_http_headers(Some(&[b'x'; 1020])), HeaderStatus::Incomplete);
    assert_eq!(buffer.read_http_headers(Some(b"\r\n\r\n")), HeaderStatus::Complete);
    assert_eq!(buffer.room(), 0);
}

#[test]
fn splitting_a_request_does_not_change_the_reply() {
    let sent: &[u8] = b"POST /api/relays/3/on HTTP/1.1\r\nHost: x\r\n\r\nGET / HTTP/1.1\r\n\r\n";
    let mut replies = Vec::new();
    for size in [1, 2, 7, 40, sent.len()] {
        let mut buffer = HeaderBuffer::new();
        for chunk in sent.chunks(size) {
            if buffer.read_http_headers(Some(chunk)) == HeaderStatus::Complete {
                break;
            }
        }
        let mut control = RelayControl::new();
        let mut bank = init();
        let reply = serve_request(Some(buffer.request()), &mut control);
        let command = relay_task(&mut control, &mut bank);
        replies.push((reply, command, control.state_mask()));
    }
    for reply in &replies {
        assert_eq!(reply, &replies[0]);
        assert_eq!(reply.0, Some(render(Response::CommandAccepted, 0)));
        assert_eq!(reply.2, 0b01000);
    }
}

#[test]
fn get_never_changes_the_relays() {
    for target in ["/", "/api/relays", "/api/relays/", "/api/relays/0/on", "/api/relays/all/on"] {
        let request = format!("GET {} HTTP/1.1\r\n\r\n", target);
        let mut control = RelayControl::new();
        let mut bank = init();
        assert!(serve_request(Some(request.as_bytes()), &mut control).is_some());
        assert_eq!(relay_task(&mut control, &mut bank), None);
        assert_eq!(control.state_mask(), 0);
    }
}

#[test]
fn only_a_complete_header_block_is_served() {
    let request = b"POST /api/relays/3/on HTTP/1.1\r\n";
    let mut buffer = HeaderBuffer::new();
    let status = buffer.read_http_headers(Some(request));
    assert_eq!(status, HeaderStatus::Incomplete);
    assert_eq!(buffer.complete_request(status), None);
    assert_eq!(buffer.complete_request(HeaderStatus::Failed), None);
    let mut control = RelayControl::new();
    let mut bank = init();
    assert_eq!(
        serve_request(buffer.complete_request(status), &mut control),
        Some(render(Response::BadRequest, 0))
    );
    assert_eq!(relay_task(&mut control, &mut bank), None);
    let status = buffer.read_http_headers(Some(b"\r\n"));
    assert_eq!(
        buffer.complete_request(status),
        Some(&b"POST /api/relays/3/on HTTP/1.1\r\n\r\n"[..])
    );
}

#[test]
fn splitting_a_request_does_not_change_where_reading_ends() {
    let mut late = vec![b'x'; 1022];
    late.extend_from_slice(b"\r\n\r\n");
    let mut just = vec![b'x'; 1020];
    just.extend_from_slice(b"\r\n\r\n");
    for (sent, expected) in [
        (late, HeaderStatus::Failed),
        (just, HeaderStatus::Complete),
        (b"GET / HTTP/1.1\r\n\r".to_vec(), HeaderStatus::Incomplete),
    ] {
        for size in [1, 3, 500, 1024] {
            let mut buffer = HeaderBuffer::new();
            let mut status = HeaderStatus::Incomplete;
            let mut at = 0;
            while status == HeaderStatus::Incomplete && at < sent.len() {
                let count = size.min(buffer.room()).min(sent.len() - at);
                status = buffer.read_http_headers(Some(&sent[at..at + count]));
                at += count;
            }
            assert_eq!(status, expected);
        }
    }
}

#[test]
fn header_block_may_fill_a_small_buffer() {
    let block = b"GET / HTTP/1.1\r\n\r\n";
    assert_eq!(block.len(), 18);
    let mut buffer = HeaderBuffer::with_capacity(18);
    assert_eq!(buffer.status(), HeaderStatus::Incomplete);
    let status = buffer.read_http_headers(Some(block));
    assert_eq!(status, HeaderStatus::Complete);
    assert_eq!(buffer.complete_request(status), Some(&block[..]));
    assert_eq!(buffer.room(), 0);
    let mut buffer = HeaderBuffer::with_capacity(17);
    assert_eq!(buffer.read_http_headers(Some(&block[..17])), HeaderStatus::Failed);
}

#[test]
fn buffer_without_room_gives_no_request() {
    let buffer = HeaderBuffer::with_capacity(0);
    assert_eq!(buffer.room(), 0);
    assert_eq!(buffer.status(), HeaderStatus::Failed);
    assert_eq!(buffer.complete_request(buffer.status()), None);
}

#[test]
fn both_servers_read_alike() {
    let failed: Option<&[u8]> = None;
    for reads in [
        vec![Some(&b"GET / HTTP/1.1\r\n"[..]), Some(&b"\r\n"[..]), Some(&b"more"[..])],
        vec![Some(&b"GET"[..]), failed],
        vec![Some(&b"GET"[..]), Some(&b""[..])],
        vec![Some(&b"0123456789012345"[..]), Some(&b"01234567"[..])],
    ] {
        let mut one = HeaderBuffer::with_capacity(24);
        let mut other = HeaderBuffer::with_capacity(24);
        let mut status = one.status();
        assert_eq!(status, other.status());
        for read in reads {
            if status != HeaderStatus::Incomplete {
                break;
            }
            status = one.read_http_headers(read);
            assert_eq!(read_headers(&mut other, read), status);
            assert_eq!(one.request(), other.request());
        }
        assert_ne!(status, HeaderStatus::Incomplete);
    }
}

#[test]
fn bits_beyond_the_relays_do_not_show() {
    assert_eq!(render(Response::RelayState, 0b00101), render(Response::RelayState, 0xffff_ffe5));
}

#[test]
fn switched_relay_shows_in_the_next_report() {
    let mut control = RelayControl::new();
    let mut bank = init();
    for request in [
        &b"POST /api/relays/all/on HTTP/1.1\r\n\r\n"[..],
        &b"POST /api/relays/3/off HTTP/1.1\r\n\r\n"[..],
        &b"POST /api/relays/0/off HTTP/1.0\r\n\r\n"[..],
    ] {
        assert_eq!(
            serve_request(Some(request), &mut control),
            Some(render(Response::CommandAccepted, 0))
        );
    }
    while relay_task(&mut control, &mut bank).is_some() {}
    assert_eq!(
        serve_request(Some(b"GET /api/relays/ HTTP/1.1\r\n\r\n"), &mut control),
        Some(respond(
            b"200 OK",
            b"application/json",
            b"{\"relays\":[false,true,true,false,true]}"
        ))
    );
}
