use relay_board_five_chn::api as strict;
use relay_board_five_chn::board::init;
use relay_board_five_chn::relay::{relay_task, RelayCommand, RelayControl};
use relay_board_five_chn::tasks::api::{
    carry_out, decide, decide_request, is_supported_http_version, parse_http_request_line, parse_relay_target, route,
    serve_request, Decision,
};
use relay_board_five_chn::tasks::reply::Response;

fn switch(index: usize, on: bool) -> Decision {
    Decision::Queue(RelayCommand::Switch { index, on })
}

fn reply(response: Response) -> Decision {
    Decision::Reply(response)
}

#[test]
fn request_line_is_split_into_three_fields() {
    let line = parse_http_request_line(b"GET /api/relays HTTP/1.1\r\nHost: x\r\n\r\n").unwrap();
    assert_eq!(line.method, b"GET");
    assert_eq!(line.target, b"/api/relays");
    assert_eq!(line.version, b"HTTP/1.1");
    let line = parse_http_request_line(b"A B C D\r\n").unwrap();
    assert_eq!(line.version, b"C D");
    let line = parse_http_request_line(b"  \r\n").unwrap();
    assert_eq!(line.method, b"");
    assert_eq!(line.target, b"");
    assert_eq!(line.version, b"");
}

#[test]
fn malformed_request_lines_are_refused() {
    assert!(parse_http_request_line(b"GET / HTTP/1.1").is_none());
    assert!(parse_http_request_line(b"GET /\r\n").is_none());
    assert!(parse_http_request_line(b"GET\r\n").is_none());
    assert!(parse_http_request_line(b"").is_none());
    assert!(parse_http_request_line(b"GET /\r\nA B C\r\n").is_none());
}

#[test]
fn two_versions_are_supported() {
    assert!(is_supported_http_version(b"HTTP/1.0"));
    assert!(is_supported_http_version(b"HTTP/1.1"));
    assert!(!is_supported_http_version(b"HTTP/2"));
    assert!(!is_supported_http_version(b"HTTP/1.1 "));
    assert!(!is_supported_http_version(b""));
}

#[test]
fn relay_target_is_a_number_and_an_action() {
    assert_eq!(parse_relay_target(b"12/on"), Some((12, &b"/on"[..])));
    assert_eq!(parse_relay_target(b"003"), Some((3, &b""[..])));
    assert_eq!(parse_relay_target(b"/on"), None);
    assert_eq!(parse_relay_target(b""), None);
    assert_eq!(parse_relay_target(b"x1"), None);
    assert_eq!(parse_relay_target(b"99999999999999999999999999/on"), None);
}

#[test]
fn get_requests_are_decided() {
    assert_eq!(decide(b"GET / HTTP/1.1\r\n\r\n"), reply(Response::Html));
    assert_eq!(decide(b"GET / HTTP/1.0\r\n\r\n"), reply(Response::Html));
    assert_eq!(decide(b"GET /api/relays HTTP/1.1\r\n\r\n"), reply(Response::RelayState));
    assert_eq!(decide(b"GET /api/relays/ HTTP/1.1\r\n\r\n"), reply(Response::RelayState));
    assert_eq!(decide(b"GET /api/relays/0/on HTTP/1.1\r\n\r\n"), reply(Response::NotFound));
    assert_eq!(decide(b"GET /favicon.ico HTTP/1.1\r\n\r\n"), reply(Response::NotFound));
}

#[test]
fn post_requests_are_decided() {
    assert_eq!(decide(b"POST /api/relays/0/on HTTP/1.1\r\n\r\n"), switch(0, true));
    assert_eq!(decide(b"POST /api/relays/4/off HTTP/1.0\r\n\r\n"), switch(4, false));
    assert_eq!(decide(b"POST /api/relays/0004/on HTTP/1.1\r\n\r\n"), switch(4, true));
    assert_eq!(
        decide(b"POST /api/relays/all/on HTTP/1.1\r\n\r\n"),
        Decision::Queue(RelayCommand::AllOn)
    );
    assert_eq!(
        decide(b"POST /api/relays/all/off HTTP/1.1\r\n\r\n"),
        Decision::Queue(RelayCommand::AllOff)
    );
    assert_eq!(decide(b"POST / HTTP/1.1\r\n\r\n"), reply(Response::NotFound));
    assert_eq!(decide(b"POST /api/relays HTTP/1.1\r\n\r\n"), reply(Response::NotFound));
}

#[test]
fn bad_requests_are_refused() {
    assert_eq!(decide(b"POST /api/relays/5/on HTTP/1.1\r\n\r\n"), reply(Response::BadRequest));
    assert_eq!(decide(b"POST /api/relays/0/toggle HTTP/1.1\r\n\r\n"), reply(Response::BadRequest));
    assert_eq!(decide(b"POST /api/relays/0/on/ HTTP/1.1\r\n\r\n"), reply(Response::BadRequest));
    assert_eq!(decide(b"POST /api/relays/0 HTTP/1.1\r\n\r\n"), reply(Response::BadRequest));
    assert_eq!(decide(b"POST /api/relays/ HTTP/1.1\r\n\r\n"), reply(Response::BadRequest));
    assert_eq!(decide(b"POST /api/relays/all HTTP/1.1\r\n\r\n"), reply(Response::BadRequest));
    assert_eq!(
        decide(b"POST /api/relays/99999999999999999999999/on HTTP/1.1\r\n\r\n"),
        reply(Response::BadRequest)
    );
    assert_eq!(decide(b"GET / HTTP/2\r\n\r\n"), reply(Response::BadRequest));
    assert_eq!(decide(b"GET / HTTP/1.1"), reply(Response::BadRequest));
    assert_eq!(decide(b"DELETE / HTTP/0.9\r\n\r\n"), reply(Response::BadRequest));
}

#[test]
fn other_methods_are_not_found() {
    assert_eq!(decide(b"DELETE /api/relays/0/on HTTP/1.1\r\n\r\n"), reply(Response::NotFound));
    assert_eq!(decide(b"get / HTTP/1.1\r\n\r\n"), reply(Response::NotFound));
    assert_eq!(decide(b"PUT / HTTP/1.1\r\n\r\n"), reply(Response::NotFound));
}

#[test]
fn only_the_first_line_counts() {
    let request = b"POST /api/relays/1/on HTTP/1.1\r\n";
    let longer = b"POST /api/relays/1/on HTTP/1.1\r\nHost: GET / HTTP/1.1\r\n\r\nbody";
    assert_eq!(decide(request), decide(longer));
    assert_eq!(strict::decide(request), strict::decide(longer));
}

#[test]
fn accepted_request_is_queued_and_others_are_not() {
    let mut control = RelayControl::new();
    let mut bank = init();
    assert_eq!(route(b"GET / HTTP/1.1\r\n\r\n", &mut control), Some(Response::Html));
    assert_eq!(
        route(b"POST /api/relays/9/on HTTP/1.1\r\n\r\n", &mut control),
        Some(Response::BadRequest)
    );
    assert_eq!(relay_task(&mut control, &mut bank), None);
    assert_eq!(
        route(b"POST /api/relays/3/on HTTP/1.1\r\n\r\n", &mut control),
        Some(Response::CommandAccepted)
    );
    assert_eq!(
        relay_task(&mut control, &mut bank),
        Some(RelayCommand::Switch { index: 3, on: true })
    );
    assert_eq!(relay_task(&mut control, &mut bank), None);
}

#[test]
fn command_waits_while_the_queue_is_full() {
    let mut control = RelayControl::new();
    let mut bank = init();
    let request = b"POST /api/relays/all/on HTTP/1.1\r\n\r\n";
    for _ in 0..8 {
        assert_eq!(route(request, &mut control), Some(Response::CommandAccepted));
    }
    assert_eq!(route(request, &mut control), None);
    assert_eq!(serve_request(Some(request), &mut control), None);
    assert_eq!(strict::route(b"POST /api/relays/0/on HTTP/1.1\r\n\r\n", &mut control), None);
    assert_eq!(route(b"GET / HTTP/1.1\r\n\r\n", &mut control), Some(Response::Html));
    relay_task(&mut control, &mut bank);
    assert_eq!(route(request, &mut control), Some(Response::CommandAccepted));
}

#[test]
fn strict_api_compares_whole_lines() {
    assert_eq!(strict::decide(b"GET / HTTP/1.1\r\n"), reply(Response::Html));
    assert_eq!(strict::decide(b"GET / HTTP/1.0\r\n"), reply(Response::Html));
    assert_eq!(strict::decide(b"GET /api/relays HTTP/1.1\r\n"), reply(Response::RelayState));
    assert_eq!(strict::decide(b"GET /api/relays HTTP/1.0\r\n"), reply(Response::RelayState));
    assert_eq!(strict::decide(b"GET /api/relays/ HTTP/1.1\r\n"), reply(Response::NotFound));
    assert_eq!(strict::decide(b"GET / HTTP/2\r\n"), reply(Response::NotFound));
    assert_eq!(strict::decide(b"nonsense\r\n"), reply(Response::NotFound));
    assert_eq!(strict::decide(b"GET / HTTP/1.1"), reply(Response::BadRequest));
}

#[test]
fn strict_api_switches_single_relays() {
    assert_eq!(strict::decide(b"POST /api/relays/0/on HTTP/1.1\r\n"), switch(0, true));
    assert_eq!(strict::decide(b"POST /api/relays/1/on HTTP/1.0\r\n"), switch(1, true));
    assert_eq!(strict::decide(b"POST /api/relays/2/off HTTP/1.1\r\n"), switch(2, false));
    assert_eq!(strict::decide(b"POST /api/relays/3/off HTTP/1.0\r\n"), switch(3, false));
    for line in [
        &b"POST /api/relays/5/on HTTP/1.1\r\n"[..],
        &b"POST /api/relays/0/on HTTP/2\r\n"[..],
        &b"POST /api/relays/0/on\r\n"[..],
        &b"POST /api/relays/all/on HTTP/1.1\r\n"[..],
        &b"POST /api/relays/ HTTP/1.1\r\n"[..],
    ] {
        assert_eq!(strict::decide(line), reply(Response::BadRequest));
    }
}

#[test]
fn strict_answers_are_the_same_as_the_other_ones() {
    for line in [
        &b"GET / HTTP/1.1\r\n"[..],
        &b"GET /api/relays HTTP/1.0\r\n"[..],
        &b"POST /api/relays/4/on HTTP/1.1\r\n"[..],
        &b"POST /api/relays/02/off HTTP/1.0\r\n"[..],
    ] {
        assert_eq!(strict::decide(line), decide(line));
    }
}

#[test]
fn strict_api_serves_replies() {
    let mut control = RelayControl::new();
    let mut bank = init();
    assert_eq!(
        strict::route(b"POST /api/relays/2/on HTTP/1.1\r\n\r\n", &mut control),
        Some(Response::CommandAccepted)
    );
    relay_task(&mut control, &mut bank);
    let message =
        strict::serve_request(Some(b"GET /api/relays HTTP/1.1\r\n\r\n"), &mut control).unwrap();
    assert!(message.ends_with(b"{\"relays\":[false,false,true,false,false]}"));
    let message = strict::serve_request(None, &mut control).unwrap();
    assert!(message.starts_with(b"HTTP/1.1 400 Bad Request\r\n"));
}

#[test]
fn decisions_are_carried_out_one_by_one() {
    let mut control = RelayControl::new();
    let mut bank = init();
    assert_eq!(decide_request(None), reply(Response::BadRequest));
    assert_eq!(strict::decide_request(None), reply(Response::BadRequest));
    let request = b"POST /api/relays/1/on HTTP/1.1\r\n\r\n";
    assert_eq!(decide_request(Some(request)), switch(1, true));
    assert_eq!(strict::decide_request(Some(request)), switch(1, true));
    assert_eq!(carry_out(switch(5, true), &mut control), Some(Response::BadRequest));
    assert_eq!(carry_out(reply(Response::NotFound), &mut control), Some(Response::NotFound));
    assert_eq!(relay_task(&mut control, &mut bank), None);
    assert_eq!(carry_out(switch(1, true), &mut control), Some(Response::CommandAccepted));
    assert_eq!(
        relay_task(&mut control, &mut bank),
        Some(RelayCommand::Switch { index: 1, on: true })
    );
}
