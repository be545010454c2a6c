//! What holds of requests and replies as a whole.

use vstd::prelude::*;

use crate::api;
use crate::board::RELAY_COUNT;
use crate::bytes;
use crate::network::w5500;
use crate::relay;
use crate::relay::RelayCommand;
use crate::tasks;
use crate::tasks::api::{Decision, RequestLine, CRLF};
use crate::tasks::headers;
use crate::tasks::reply;
use crate::tasks::reply::Response;

verus! {

/// The bytes of a request with these fields in its first line, followed by `rest`.
pub open spec fn http_request(line: RequestLine, rest: Seq<u8>) -> Seq<u8> {
    request_text(line) + bytes::ascii(CRLF@) + rest
}

/// The first line of a request with these fields.
pub open spec fn request_text(line: RequestLine) -> Seq<u8> {
    line.method + bytes::ascii(" "@) + (line.target + bytes::ascii(" "@) + line.version)
}

/// `text` holds no field separator.
pub open spec fn is_one_field(text: Seq<u8>) -> bool {
    forall|i: int| 0 <= i < text.len() ==> #[trigger] text[i] != ' ' as u8
}

/// `text` holds no carriage return.
pub open spec fn is_one_line(text: Seq<u8>) -> bool {
    forall|i: int| 0 <= i < text.len() ==> #[trigger] text[i] != '\r' as u8
}

/// Without a carriage return there is no line break.
proof fn lemma_no_line_break(text: Seq<u8>)
    requires
        is_one_line(text),
    ensures
        !bytes::contains(text, bytes::ascii(CRLF@)),
{
    reveal_strlit("\r\n");
    assert forall|at: int| !bytes::occurs_at(text, bytes::ascii(CRLF@), at) by {
        if bytes::occurs_at(text, bytes::ascii(CRLF@), at) {
            assert(text.subrange(at, at + 2)[0] == text[at]);
            assert(bytes::ascii(CRLF@)[0] == '\r' as u8);
        }
    }
}

/// A field is split off at the first separator.
pub proof fn lemma_split_field(field: Seq<u8>, rest: Seq<u8>)
    requires
        is_one_field(field),
    ensures
        tasks::api::split_field(field + bytes::ascii(" "@) + rest) == Some((field, rest)),
{
    reveal_strlit(" ");
    let separator = bytes::ascii(" "@);
    let text = field + separator + rest;
    let at = field.len() as int;
    assert(text.subrange(at, at + 1) =~= separator);
    assert forall|earlier: int| earlier < at implies !bytes::occurs_at(text, separator, earlier) by {
        if 0 <= earlier {
            assert(text.subrange(earlier, earlier + 1)[0] == field[earlier]);
            assert(separator[0] == ' ' as u8);
        }
    }
    bytes::lemma_first_occurrence_is(text, separator, at);
    assert(text.take(at) =~= field);
    assert(text.skip(at + 1) =~= rest);
}

/// A line without a line break is what stands before the first one.
pub proof fn lemma_first_line(line: Seq<u8>, rest: Seq<u8>)
    requires
        !bytes::contains(line, bytes::ascii(CRLF@)),
    ensures
        tasks::api::first_line(line + bytes::ascii(CRLF@) + rest) == Some(line),
{
    reveal_strlit("\r\n");
    let end = bytes::ascii(CRLF@);
    let text = line + end + rest;
    let at = line.len() as int;
    assert(end[0] == 13 && end[1] == 10);
    assert(text.subrange(at, at + 2) =~= end);
    assert forall|earlier: int| earlier < at implies !bytes::occurs_at(text, end, earlier) by {
        if bytes::occurs_at(text, end, earlier) {
            assert(text.subrange(earlier, earlier + 2)[1] == text[earlier + 1]);
            if earlier + 1 == at {
                assert(text[earlier + 1] == end[0]);
            } else {
                assert(line.subrange(earlier, earlier + 2) =~= text.subrange(earlier, earlier + 2));
                assert(bytes::occurs_at(line, end, earlier));
            }
        }
    }
    bytes::lemma_first_occurrence_is(text, end, at);
    assert(text.take(at) =~= line);
}

/// Reading the first line of a request gives back the fields that it was written with.
pub proof fn request_line_reads_back(line: RequestLine, rest: Seq<u8>)
    requires
        is_one_field(line.method),
        is_one_field(line.target),
        !bytes::contains(request_text(line), bytes::ascii(CRLF@)),
    ensures
        tasks::api::request_line(http_request(line, rest)) == Some(line),
{
    lemma_first_line(request_text(line), rest);
    lemma_split_field(line.method, line.target + bytes::ascii(" "@) + line.version);
    lemma_split_field(line.target, line.version);
}

/// What follows the first line of a request does not change what the request asks for.
pub proof fn first_line_decides(request: Seq<u8>, more: Seq<u8>)
    requires
        bytes::contains(request, bytes::ascii(CRLF@)),
    ensures
        tasks::api::decision(request + more) == tasks::api::decision(request),
        api::decision(request + more) == api::decision(request),
{
    bytes::lemma_first_occurrence(request, bytes::ascii(CRLF@));
    bytes::lemma_first_occurrence_append(request, bytes::ascii(CRLF@), more);
    let end = bytes::first_occurrence(request, bytes::ascii(CRLF@))->0;
    assert((request + more).take(end) =~= request.take(end));
}

/// A complete header block holds a complete first line.
proof fn lemma_headers_hold_a_line(received: Seq<u8>)
    requires
        headers::headers_end(received),
    ensures
        bytes::contains(received, bytes::ascii(CRLF@)),
{
    reveal_strlit("\r\n");
    reveal_strlit("\r\n\r\n");
    let end = bytes::ascii(headers::END_OF_HTTP_HEADERS@);
    let at = choose|at: int| bytes::occurs_at(received, end, at);
    assert(received.subrange(at, at + 2) =~= end.subrange(0, 2)) by {
        assert(received.subrange(at, at + 4).subrange(0, 2) =~= received.subrange(at, at + 2));
    }
    assert(end.subrange(0, 2) =~= bytes::ascii(CRLF@));
    assert(bytes::occurs_at(received, bytes::ascii(CRLF@), at));
}

/// Once the header block is complete, it makes no difference how many of the bytes after it have
/// arrived too.
proof fn lemma_bytes_after_headers(sent: Seq<u8>, one: int, other: int)
    requires
        0 <= one <= other <= sent.len(),
        headers::headers_end(sent.take(one)),
    ensures
        tasks::api::decision(sent.take(one)) == tasks::api::decision(sent.take(other)),
        api::decision(sent.take(one)) == api::decision(sent.take(other)),
{
    lemma_headers_hold_a_line(sent.take(one));
    assert(sent.take(one) + sent.subrange(one, other) =~= sent.take(other));
    first_line_decides(sent.take(one), sent.subrange(one, other));
}

/// Two readings of the same bytes that both come to the end of the header block ask for the same.
pub proof fn complete_readings_agree(
    capacity: nat,
    one: Seq<Option<Seq<u8>>>,
    other: Seq<Option<Seq<u8>>>,
)
    requires
        headers::joined(one) == headers::joined(other),
        headers::after_reads(capacity, one).1 == headers::HeaderStatus::Complete,
        headers::after_reads(capacity, other).1 == headers::HeaderStatus::Complete,
    ensures
        tasks::api::decision(headers::after_reads(capacity, one).0) == tasks::api::decision(
            headers::after_reads(capacity, other).0,
        ),
        api::decision(headers::after_reads(capacity, one).0) == api::decision(headers::after_reads(capacity, other).0),
{
    headers::reading_stops_at_the_end(capacity, one);
    headers::reading_stops_at_the_end(capacity, other);
    let sent = headers::joined(one);
    let received = headers::after_reads(capacity, one).0;
    let received_other = headers::after_reads(capacity, other).0;
    assert(sent.take(received.len() as int) =~= received);
    assert(sent.take(received_other.len() as int) =~= received_other);
    if received.len() <= received_other.len() {
        lemma_bytes_after_headers(sent, received.len() as int, received_other.len() as int);
    } else {
        lemma_bytes_after_headers(sent, received_other.len() as int, received.len() as int);
    }
}

/// However an open connection splits what the peer sends, the answer is the same: reading comes
/// to the same end, and where the header block is complete, the same is asked for.
pub proof fn splitting_does_not_matter(
    capacity: nat,
    one: Seq<Option<Seq<u8>>>,
    other: Seq<Option<Seq<u8>>>,
)
    requires
        headers::joined(one) == headers::joined(other),
        headers::fill_the_room(capacity, one),
        headers::fill_the_room(capacity, other),
    ensures
        headers::after_reads(capacity, one).1 == headers::after_reads(capacity, other).1,
        headers::after_reads(capacity, one).1 == headers::HeaderStatus::Complete ==> {
            &&& tasks::api::decision(headers::after_reads(capacity, one).0) == tasks::api::decision(
                headers::after_reads(capacity, other).0,
            )
            &&& api::decision(headers::after_reads(capacity, one).0) == api::decision(
                headers::after_reads(capacity, other).0,
            )
        },
{
    headers::splitting_keeps_the_status(capacity, one, other);
    if headers::after_reads(capacity, one).1 == headers::HeaderStatus::Complete {
        complete_readings_agree(capacity, one, other);
    }
}

/// Where no request could be read, the answer is a bad request and nothing is queued.
pub proof fn missing_request_is_refused(waiting: Seq<RelayCommand>)
    ensures
        tasks::api::response_to(tasks::api::served_decision(None), waiting) == Some(
            Response::BadRequest,
        ),
        tasks::api::waiting_after(tasks::api::served_decision(None), waiting) == waiting,
        tasks::api::response_to(api::served_decision(None), waiting) == Some(Response::BadRequest),
        tasks::api::waiting_after(api::served_decision(None), waiting) == waiting,
{
}

/// `text` is a number in digits.
pub open spec fn is_number(text: Seq<u8>) -> bool {
    &&& text.len() > 0
    &&& forall|i: int| 0 <= i < text.len() ==> bytes::is_digit(#[trigger] text[i])
}

/// A relay path gives back the number and the action that it was written with.
pub proof fn relay_target_reads_back(number: Seq<u8>, action: Seq<u8>)
    requires
        is_number(number),
        action.len() > 0 ==> !bytes::is_digit(action[0]),
    ensures
        tasks::api::relay_target(number + action) == if bytes::decimal(number) <= usize::MAX {
            Some((bytes::decimal(number) as usize, action))
        } else {
            None
        },
{
    let path = number + action;
    assert forall|i: int| 0 <= i < number.len() implies bytes::is_digit(#[trigger] path[i]) by {
        assert(bytes::is_digit(number[i]));
    }
    bytes::lemma_digit_count(path, number.len());
    assert(path.take(number.len() as int) =~= number);
    assert(path.skip(number.len() as int) =~= action);
}

/// The request line that switches the relay of a number.
pub open spec fn switch_line(number: Seq<u8>, on: bool, version: Seq<u8>) -> RequestLine {
    let action = if on {
        bytes::ascii("/on"@)
    } else {
        bytes::ascii("/off"@)
    };
    RequestLine {
        method: bytes::ascii("POST"@),
        target: bytes::ascii("/api/relays/"@) + number + action,
        version,
    }
}

/// A path under `/api/relays/` that goes on with a number is decided by that number alone.
proof fn lemma_post_number(number: Seq<u8>, action: Seq<u8>)
    requires
        is_number(number),
    ensures
        tasks::api::post_decision(bytes::ascii("/api/relays/"@) + number + action)
            == tasks::api::switch_decision(number + action),
{
    reveal_strlit("/api/relays/");
    reveal_strlit("/api/relays/all/on");
    reveal_strlit("/api/relays/all/off");
    let prefix = bytes::ascii("/api/relays/"@);
    let target = prefix + number + action;
    assert(target[12] == number[0]);
    assert(bytes::is_digit(number[0]));
    assert(bytes::ascii("/api/relays/all/on"@)[12] == 'a' as u8);
    assert(bytes::ascii("/api/relays/all/off"@)[12] == 'a' as u8);
    assert(target.subrange(0, 12) =~= prefix);
    assert(target.skip(12) =~= number + action);
}

/// A well-formed request of a supported version is decided by its method and its target.
pub proof fn method_and_target_decide(line: RequestLine, rest: Seq<u8>)
    requires
        is_one_field(line.method),
        is_one_field(line.target),
        is_one_line(line.method),
        is_one_line(line.target),
        tasks::api::supported_version(line.version),
    ensures
        tasks::api::decision(http_request(line, rest)) == if line.method == bytes::ascii("GET"@) {
            tasks::api::get_decision(line.target)
        } else if line.method == bytes::ascii("POST"@) {
            tasks::api::post_decision(line.target)
        } else {
            Decision::Reply(Response::NotFound)
        },
{
    let text = request_text(line);
    assert(is_one_line(text)) by {
        reveal_strlit(" ");
        reveal_strlit("HTTP/1.0");
        reveal_strlit("HTTP/1.1");
        assert(is_one_line(line.version));
        let after = line.target + bytes::ascii(" "@) + line.version;
        assert(is_one_line(after));
    }
    lemma_no_line_break(text);
    request_line_reads_back(line, rest);
}

/// A request for the relay state is understood as that, with or without a slash at the end.
pub proof fn state_request_is_understood(slash: bool, version: Seq<u8>, rest: Seq<u8>)
    requires
        tasks::api::supported_version(version),
    ensures
        tasks::api::decision(http_request(state_line(slash, version), rest)) == Decision::Reply(
            Response::RelayState,
        ),
{
    reveal_strlit("GET");
    reveal_strlit("/");
    reveal_strlit("/api/relays");
    reveal_strlit("/api/relays/");
    method_and_target_decide(state_line(slash, version), rest);
    assert(bytes::ascii("/"@).len() == 1);
    assert(bytes::ascii("/api/relays"@).len() == 11 && bytes::ascii("/api/relays/"@).len() == 12);
}

/// The request line that asks for the relay state.
pub open spec fn state_line(slash: bool, version: Seq<u8>) -> RequestLine {
    RequestLine {
        method: bytes::ascii("GET"@),
        target: bytes::ascii(
            if slash {
                "/api/relays/"@
            } else {
                "/api/relays"@
            },
        ),
        version,
    }
}

/// A request to switch a relay of the board is queued as the command to do just that, and one
/// to switch a relay that the board lacks is a bad request.
pub proof fn switch_request_is_understood(
    number: Seq<u8>,
    on: bool,
    version: Seq<u8>,
    rest: Seq<u8>,
)
    requires
        is_number(number),
        tasks::api::supported_version(version),
    ensures
        tasks::api::decision(http_request(switch_line(number, on, version), rest)) == if bytes::decimal(
            number,
        ) < RELAY_COUNT {
            Decision::Queue(
                (RelayCommand::Switch { index: bytes::decimal(number) as usize, on }),
            )
        } else {
            Decision::Reply(Response::BadRequest)
        },
{
    reveal_strlit("GET");
    reveal_strlit("POST");
    reveal_strlit("/on");
    reveal_strlit("/off");
    reveal_strlit("/api/relays/");
    let line = switch_line(number, on, version);
    let action = if on {
        bytes::ascii("/on"@)
    } else {
        bytes::ascii("/off"@)
    };
    assert(forall|i: int| 0 <= i < number.len() ==> bytes::is_digit(#[trigger] number[i]));
    method_and_target_decide(line, rest);
    assert(bytes::ascii("GET"@).len() == 3 && line.method.len() == 4);
    lemma_post_number(number, action);
    relay_target_reads_back(number, action);
    assert(bytes::ascii("/on"@).len() == 3 && bytes::ascii("/off"@).len() == 4);
}

/// A request to switch all relays is queued as the command to do just that.
pub proof fn all_request_is_understood(on: bool, version: Seq<u8>, rest: Seq<u8>)
    requires
        tasks::api::supported_version(version),
    ensures
        tasks::api::decision(
            http_request(
                (RequestLine {
                    method: bytes::ascii("POST"@),
                    target: bytes::ascii(
                        if on {
                            "/api/relays/all/on"@
                        } else {
                            "/api/relays/all/off"@
                        },
                    ),
                    version,
                }),
                rest,
            ),
        ) == Decision::Queue(
            if on {
                RelayCommand::AllOn
            } else {
                RelayCommand::AllOff
            },
        ),
{
    reveal_strlit("GET");
    reveal_strlit("POST");
    reveal_strlit("/api/relays/all/on");
    reveal_strlit("/api/relays/all/off");
    let target = bytes::ascii(
        if on {
            "/api/relays/all/on"@
        } else {
            "/api/relays/all/off"@
        },
    );
    let line = RequestLine { method: bytes::ascii("POST"@), target, version };
    method_and_target_decide(line, rest);
    assert(bytes::ascii("GET"@).len() == 3 && line.method.len() == 4);
    assert(bytes::ascii("/api/relays/all/on"@).len() == 18);
    assert(bytes::ascii("/api/relays/all/off"@).len() == 19);
}

/// The fields of a line are those that it was written with.
pub proof fn lemma_line_fields(line: RequestLine)
    requires
        is_one_field(line.method),
        is_one_field(line.target),
    ensures
        tasks::api::line_fields(request_text(line)) == Some(line),
{
    lemma_split_field(line.method, line.target + bytes::ascii(" "@) + line.version);
    lemma_split_field(line.target, line.version);
}

/// The strict API and the other one agree on the request for the page.
proof fn lemma_agree_on_index(version: Seq<u8>)
    requires
        tasks::api::supported_version(version),
    ensures
        tasks::api::line_fields(bytes::ascii("GET / "@) + version) == Some(
            (RequestLine {
                method: bytes::ascii("GET"@),
                target: bytes::ascii("/"@),
                version,
            }),
        ),
{
    reveal_strlit(" ");
    reveal_strlit("GET");
    reveal_strlit("/");
    reveal_strlit("GET / ");
    let line = RequestLine { method: bytes::ascii("GET"@), target: bytes::ascii("/"@), version };
    assert(bytes::ascii("GET / "@) + version =~= request_text(line));
    lemma_line_fields(line);
}

/// The strict API and the other one agree on the request for the relay state.
proof fn lemma_agree_on_relay_state(version: Seq<u8>)
    requires
        tasks::api::supported_version(version),
    ensures
        tasks::api::line_fields(bytes::ascii("GET /api/relays "@) + version) == Some(
            (RequestLine {
                method: bytes::ascii("GET"@),
                target: bytes::ascii("/api/relays"@),
                version,
            }),
        ),
{
    reveal_strlit(" ");
    reveal_strlit("GET");
    reveal_strlit("/api/relays");
    reveal_strlit("GET /api/relays ");
    let line = RequestLine {
        method: bytes::ascii("GET"@),
        target: bytes::ascii("/api/relays"@),
        version,
    };
    assert(bytes::ascii("GET /api/relays "@) + version =~= request_text(line));
    lemma_line_fields(line);
}

/// The line of a request to switch a relay, as the strict API compares it.
proof fn lemma_agree_on_switch(number: Seq<u8>, on: bool, version: Seq<u8>)
    requires
        is_number(number),
        tasks::api::supported_version(version),
    ensures
        tasks::api::line_fields(
            bytes::ascii("POST /api/relays/"@) + number + bytes::ascii(
                if on {
                    "/on "@
                } else {
                    "/off "@
                },
            ) + version,
        ) == Some(switch_line(number, on, version)),
{
    reveal_strlit(" ");
    reveal_strlit("POST");
    reveal_strlit("/on");
    reveal_strlit("/off");
    reveal_strlit("/on ");
    reveal_strlit("/off ");
    reveal_strlit("/api/relays/");
    reveal_strlit("POST /api/relays/");
    let line = switch_line(number, on, version);
    assert(forall|i: int| 0 <= i < number.len() ==> bytes::is_digit(#[trigger] number[i]));
    assert(bytes::ascii("POST /api/relays/"@) =~= bytes::ascii("POST"@) + bytes::ascii(" "@)
        + bytes::ascii("/api/relays/"@));
    assert(bytes::ascii("/on "@) =~= bytes::ascii("/on"@) + bytes::ascii(" "@));
    assert(bytes::ascii("/off "@) =~= bytes::ascii("/off"@) + bytes::ascii(" "@));
    assert(bytes::ascii("POST /api/relays/"@) + number + bytes::ascii(
        if on {
            "/on "@
        } else {
            "/off "@
        },
    ) + version =~= request_text(line));
    lemma_line_fields(line);
}

/// The strict API serves nothing that the other one does not: whatever it answers other than by
/// refusing it, the other answers in the same way.
pub proof fn strict_answers_agree(request: Seq<u8>)
    ensures
        api::decision(request) == tasks::api::decision(request) || api::decision(request)
            == Decision::Reply(Response::BadRequest) || api::decision(request) == Decision::Reply(
            Response::NotFound,
        ),
{
    reveal_strlit("GET");
    reveal_strlit("POST");
    reveal_strlit("/");
    reveal_strlit("/api/relays");
    reveal_strlit("/on");
    reveal_strlit("/off");
    reveal_strlit("HTTP/1.0");
    reveal_strlit("HTTP/1.1");
    reveal_strlit("GET / ");
    reveal_strlit("GET / HTTP/1.1");
    reveal_strlit("GET / HTTP/1.0");
    reveal_strlit("GET /api/relays ");
    reveal_strlit("GET /api/relays HTTP/1.1");
    reveal_strlit("GET /api/relays HTTP/1.0");
    let v11 = bytes::ascii("HTTP/1.1"@);
    let v10 = bytes::ascii("HTTP/1.0"@);
    if let Some(line) = tasks::api::first_line(request) {
        assert(bytes::ascii("GET"@).len() == 3 && bytes::ascii("POST"@).len() == 4);
        assert(bytes::ascii("/"@).len() == 1 && bytes::ascii("/api/relays"@).len() == 11);
        if line == bytes::ascii(api::GET_INDEX_1_1@) {
            assert(line =~= bytes::ascii("GET / "@) + v11);
            lemma_agree_on_index(v11);
        } else if line == bytes::ascii(api::GET_INDEX_1_0@) {
            assert(line =~= bytes::ascii("GET / "@) + v10);
            lemma_agree_on_index(v10);
        } else if line == bytes::ascii(api::GET_RELAYS_1_1@) {
            assert(line =~= bytes::ascii("GET /api/relays "@) + v11);
            lemma_agree_on_relay_state(v11);
        } else if line == bytes::ascii(api::GET_RELAYS_1_0@) {
            assert(line =~= bytes::ascii("GET /api/relays "@) + v10);
            lemma_agree_on_relay_state(v10);
        } else if bytes::occurs_at(line, bytes::ascii(api::POST_RELAYS_PREFIX@), 0) {
            lemma_strict_switch_agrees(line);
        }
    }
}

/// The strict API and the other one agree on a line that switches a relay.
proof fn lemma_strict_switch_agrees(line: Seq<u8>)
    requires
        bytes::occurs_at(line, bytes::ascii(api::POST_RELAYS_PREFIX@), 0),
    ensures
        api::switch_decision(line.skip(bytes::ascii(api::POST_RELAYS_PREFIX@).len() as int)) matches Decision::Queue(
            command,
        ) ==> tasks::api::line_fields(line) matches Some(fields) && tasks::api::supported_version(
            fields.version,
        ) && fields.method == bytes::ascii("POST"@) && tasks::api::post_decision(fields.target)
            == Decision::Queue(command),
{
    reveal_strlit("POST /api/relays/");
    let prefix = bytes::ascii(api::POST_RELAYS_PREFIX@);
    let target = line.skip(prefix.len() as int);
    if let Decision::Queue(command) = api::switch_decision(target) {
        reveal_strlit("/on");
        reveal_strlit("/off");
        reveal_strlit("/on ");
        reveal_strlit("/off ");
        reveal_strlit("HTTP/1.0");
        reveal_strlit("HTTP/1.1");
        reveal_strlit("/on HTTP/1.1");
        reveal_strlit("/on HTTP/1.0");
        reveal_strlit("/off HTTP/1.1");
        reveal_strlit("/off HTTP/1.0");
        let v11 = bytes::ascii("HTTP/1.1"@);
        let v10 = bytes::ascii("HTTP/1.0"@);
        let count = bytes::digit_count(target) as int;
        let number = target.take(count);
        let suffix = target.skip(count);
        bytes::lemma_digit_count_bounds(target);
        assert(is_number(number)) by {
            assert forall|i: int| 0 <= i < number.len() implies bytes::is_digit(
                #[trigger] number[i],
            ) by {
                assert(bytes::is_digit(target[i]));
            }
        }
        let on = command->on;
        let version = if suffix == bytes::ascii(api::ON_1_1@) || suffix == bytes::ascii(
            api::OFF_1_1@,
        ) {
            v11
        } else {
            v10
        };
        let text = if on {
            "/on "@
        } else {
            "/off "@
        };
        assert(bytes::ascii("/on HTTP/1.1"@) =~= bytes::ascii("/on "@) + v11);
        assert(bytes::ascii("/on HTTP/1.0"@) =~= bytes::ascii("/on "@) + v10);
        assert(bytes::ascii("/off HTTP/1.1"@) =~= bytes::ascii("/off "@) + v11);
        assert(bytes::ascii("/off HTTP/1.0"@) =~= bytes::ascii("/off "@) + v10);
        assert(bytes::ascii("/on HTTP/1.1"@)[11] != bytes::ascii("/on HTTP/1.0"@)[11]);
        assert(bytes::ascii("/off HTTP/1.1"@)[12] != bytes::ascii("/off HTTP/1.0"@)[12]);
        assert(bytes::ascii("/on HTTP/1.1"@).len() == 12 && bytes::ascii("/on HTTP/1.0"@).len()
            == 12);
        assert(suffix == bytes::ascii(text) + version);
        assert(line =~= prefix + number + bytes::ascii(text) + version) by {
            assert(line =~= line.subrange(0, prefix.len() as int) + number + suffix);
        }
        lemma_agree_on_switch(number, on, version);
        let action = if on {
            bytes::ascii("/on"@)
        } else {
            bytes::ascii("/off"@)
        };
        lemma_post_number(number, action);
        relay_target_reads_back(number, action);
        assert(bytes::ascii("/on"@).len() == 3 && bytes::ascii("/off"@).len() == 4);
    }
}

/// A request that is not accepted as a command leaves the queue of the relay task alone, and one
/// that is puts one command behind those that wait, which the board can carry out.
pub proof fn only_accepted_requests_are_queued(request: Seq<u8>, waiting: Seq<RelayCommand>)
    ensures
        tasks::api::response_to(tasks::api::decision(request), waiting) != Some(
            Response::CommandAccepted,
        ) ==> tasks::api::waiting_after(tasks::api::decision(request), waiting) == waiting,
        tasks::api::response_to(tasks::api::decision(request), waiting) == Some(
            Response::CommandAccepted,
        ) ==> exists|command: RelayCommand|
            {
                &&& command.is_valid()
                &&& tasks::api::waiting_after(tasks::api::decision(request), waiting)
                    == #[trigger] waiting.push(command)
            },
        tasks::api::response_to(api::decision(request), waiting) != Some(
            Response::CommandAccepted,
        ) ==> tasks::api::waiting_after(api::decision(request), waiting) == waiting,
        tasks::api::response_to(api::decision(request), waiting) == Some(
            Response::CommandAccepted,
        ) ==> exists|command: RelayCommand|
            {
                &&& command.is_valid()
                &&& tasks::api::waiting_after(api::decision(request), waiting)
                    == #[trigger] waiting.push(command)
            },
{
    if let Decision::Queue(command) = tasks::api::decision(request) {
        let _ = waiting.push(command);
    }
    if let Decision::Queue(command) = api::decision(request) {
        let _ = waiting.push(command);
    }
}

/// A `GET` never changes anything.
pub proof fn get_is_safe(request: Seq<u8>)
    requires
        tasks::api::request_line(request) is Some,
        tasks::api::request_line(request)->0.method == bytes::ascii("GET"@),
    ensures
        tasks::api::decision(request) is Reply,
{
}

/// The states of the first relays come first in the list, and the next one follows them.
proof fn lemma_items_are_a_prefix(mask: u32, count: nat, more: nat)
    requires
        count <= more,
    ensures
        reply::relay_state_items(mask, count).is_prefix_of(reply::relay_state_items(mask, more)),
    decreases more,
{
    if count < more {
        lemma_items_are_a_prefix(mask, count, (more - 1) as nat);
    }
}

/// Masks that agree on the first relays list them alike.
proof fn lemma_items_agree(left: u32, right: u32, count: nat)
    requires
        count <= 32,
        forall|relay: u32|
            relay < count ==> relay::relay_bit(left, relay) == #[trigger] relay::relay_bit(
                right,
                relay,
            ),
    ensures
        reply::relay_state_items(left, count) == reply::relay_state_items(right, count),
    decreases count,
{
    if count > 0 {
        lemma_items_agree(left, right, (count - 1) as nat);
        assert(relay::relay_bit(left, (count - 1) as u32) == relay::relay_bit(
            right,
            (count - 1) as u32,
        ));
    }
}

/// Where two masks first differ, so do the lists.
proof fn lemma_items_differ(left: u32, right: u32, first: u32, count: nat)
    requires
        first < count <= 32,
        relay::relay_bit(left, first) != relay::relay_bit(right, first),
        forall|relay: u32|
            relay < first ==> relay::relay_bit(left, relay) == #[trigger] relay::relay_bit(
                right,
                relay,
            ),
    ensures
        exists|at: int|
            {
                &&& 0 <= at < reply::relay_state_items(left, count).len()
                &&& at < reply::relay_state_items(right, count).len()
                &&& #[trigger] reply::relay_state_items(left, count)[at]
                    != reply::relay_state_items(right, count)[at]
            },
{
    reveal_strlit("true");
    reveal_strlit("false");
    reveal_strlit(",");
    lemma_items_agree(left, right, first as nat);
    let before = reply::relay_state_items(left, first as nat);
    let at = if first == 0 {
        before.len() as int
    } else {
        before.len() as int + 1
    };
    let next = (first + 1) as nat;
    lemma_items_are_a_prefix(left, next, count);
    lemma_items_are_a_prefix(right, next, count);
    assert(bytes::ascii("true"@)[0] != bytes::ascii("false"@)[0]);
    assert(bytes::ascii("true"@).len() == 4 && bytes::ascii("false"@).len() == 5);
    assert(bytes::ascii(","@).len() == 1);
    let left_next = reply::relay_state_items(left, next);
    let right_next = reply::relay_state_items(right, next);
    assert(left_next[at] == reply::json_bool(relay::relay_bit(left, first))[0]);
    assert(right_next[at] == reply::json_bool(relay::relay_bit(right, first))[0]);
    assert(reply::relay_state_items(left, count)[at] == left_next[at]);
    assert(reply::relay_state_items(right, count)[at] == right_next[at]);
}

/// Two masks show the same of every relay of the board.
pub open spec fn same_relays(left: u32, right: u32) -> bool {
    forall|relay: u32|
        relay < RELAY_COUNT ==> relay::relay_bit(left, relay) == #[trigger] relay::relay_bit(
            right,
            relay,
        )
}

/// The relay state in a reply tells the relays of the board apart, and nothing else: two reports
/// are the same exactly where every relay is shown alike, whatever the bits beyond them are.
pub proof fn report_is_the_relays(left: u32, right: u32)
    ensures
        reply::relay_state_json(left) == reply::relay_state_json(right) <==> same_relays(
            left,
            right,
        ),
{
    if same_relays(left, right) {
        lemma_items_agree(left, right, RELAY_COUNT as nat);
    } else {
        let differs = choose|relay: u32|
            relay < RELAY_COUNT && relay::relay_bit(left, relay) != #[trigger] relay::relay_bit(
                right,
                relay,
            );
        let first = lemma_first_difference(left, right, differs);
        lemma_items_differ(left, right, first, RELAY_COUNT as nat);
        let left_items = reply::relay_state_items(left, RELAY_COUNT as nat);
        let right_items = reply::relay_state_items(right, RELAY_COUNT as nat);
        let at = choose|at: int|
            0 <= at < left_items.len() && at < right_items.len() && #[trigger] left_items[at]
                != right_items[at];
        let open = bytes::ascii("{\"relays\":["@);
        assert(reply::relay_state_json(left)[open.len() + at] == left_items[at]);
        assert(reply::relay_state_json(right)[open.len() + at] == right_items[at]);
    }
}

/// Masks that differ somewhere have a first relay where they do.
proof fn lemma_first_difference(left: u32, right: u32, differs: u32) -> (first: u32)
    requires
        relay::relay_bit(left, differs) != relay::relay_bit(right, differs),
    ensures
        first <= differs,
        relay::relay_bit(left, first) != relay::relay_bit(right, first),
        forall|relay: u32|
            relay < first ==> relay::relay_bit(left, relay) == #[trigger] relay::relay_bit(
                right,
                relay,
            ),
    decreases differs,
{
    if exists|relay: u32|
        relay < differs && relay::relay_bit(left, relay) != #[trigger] relay::relay_bit(
            right,
            relay,
        ) {
        let earlier = choose|relay: u32|
            relay < differs && relay::relay_bit(left, relay) != #[trigger] relay::relay_bit(
                right,
                relay,
            );
        lemma_first_difference(left, right, earlier)
    } else {
        differs
    }
}

/// The states of relays, with a comma between any two.
pub open spec fn state_list(on: Seq<bool>) -> Seq<u8>
    decreases on.len(),
{
    if on.len() == 0 {
        Seq::empty()
    } else {
        let before = state_list(on.drop_last());
        let separated = if on.len() == 1 {
            before
        } else {
            before + bytes::ascii(","@)
        };
        separated + reply::json_bool(on.last())
    }
}

/// The report that says which relays are on.
pub open spec fn report(on: Seq<bool>) -> Seq<u8> {
    bytes::ascii("{\"relays\":["@) + state_list(on) + bytes::ascii("]}"@)
}

/// The list made from a mask says which relays the mask shows as on.
proof fn lemma_items_list_the_relays(mask: u32, on: Seq<bool>, count: nat)
    requires
        count <= on.len() <= 32,
        relay::mask_shows(mask, on),
    ensures
        reply::relay_state_items(mask, count) == state_list(on.take(count as int)),
    decreases count,
{
    if count > 0 {
        let fewer = (count - 1) as nat;
        lemma_items_list_the_relays(mask, on, fewer);
        assert(on.take(count as int).drop_last() =~= on.take(fewer as int));
        assert(relay::relay_bit(mask, fewer as u32) == on[fewer as int]);
    }
}

/// The report made from a mask says, in order, which relays the mask shows as on.
pub proof fn report_shows_the_relays(mask: u32, on: Seq<bool>)
    requires
        on.len() == RELAY_COUNT,
        relay::mask_shows(mask, on),
    ensures
        reply::relay_state_json(mask) == report(on),
{
    lemma_items_list_the_relays(mask, on, RELAY_COUNT as nat);
    assert(on.take(RELAY_COUNT as int) =~= on);
}

/// What a request switches is what a later request is told. A request to switch a relay of the
/// board is accepted where there is room for it. Once the relay task has carried out all that
/// waited before it, the request, and whatever was accepted `later` that is not about the same
/// relay, a request for the relay state is answered with a report of which relays are on; in it
/// that relay is in the state that was asked for.
pub proof fn switch_request_shows_in_the_report(
    number: Seq<u8>,
    on: bool,
    version: Seq<u8>,
    rest: Seq<u8>,
    asked: Seq<u8>,
    waiting: Seq<RelayCommand>,
    later: Seq<RelayCommand>,
    mask: u32,
    before: Seq<bool>,
)
    requires
        is_number(number),
        bytes::decimal(number) < RELAY_COUNT,
        tasks::api::supported_version(version),
        waiting.len() < relay::COMMAND_QUEUE_DEPTH,
        before.len() == RELAY_COUNT,
        relay::mask_shows(mask, before),
        forall|i: int|
            0 <= i < later.len() ==> (#[trigger] later[i]).says(
                bytes::decimal(number) as int,
            ) is None,
        tasks::api::decision(asked) == Decision::Reply(Response::RelayState),
    ensures
        ({
            let request = http_request(switch_line(number, on, version), rest);
            let decided = tasks::api::decision(request);
            let commands = tasks::api::waiting_after(decided, waiting) + later;
            let relays = relay::run(commands, before);
            &&& tasks::api::response_to(decided, waiting) == Some(Response::CommandAccepted)
            &&& relays.len() == RELAY_COUNT
            &&& relays[bytes::decimal(number) as int] == on
            &&& forall|still_waiting: Seq<RelayCommand>|
                #[trigger] tasks::api::response_to(
                    tasks::api::decision(asked),
                    still_waiting,
                ) == Some(Response::RelayState)
            &&& Response::RelayState.message(relay::run_mask(commands, mask))
                == reply::http_message(
                bytes::ascii("200 OK"@),
                bytes::ascii("application/json"@),
                report(relays),
            )
        }),
{
    switch_request_is_understood(number, on, version, rest);
    let index = bytes::decimal(number) as usize;
    let command = RelayCommand::Switch { index, on };
    let commands = waiting.push(command) + later;
    let last = waiting.len() as int;
    assert(commands[last] == command);
    assert forall|i: int| last < i < commands.len() implies (#[trigger] commands[i]).says(
        index as int,
    ) is None by {
        assert(commands[i] == later[i - last - 1]);
    }
    relay::last_command_decides(commands, before, index as int, last);
    relay::mask_keeps_showing_the_relays(commands, mask, before);
    relay::commands_keep_the_number_of_relays(commands, before);
    report_shows_the_relays(relay::run_mask(commands, mask), relay::run(commands, before));
}

/// Every worker has a socket, and the network stack keeps two more: one for DHCP, and a spare. A
/// closing socket is looked at again long before closing it takes too long, and a request fits in
/// the buffer of a socket.
pub proof fn sizes_and_times_fit_together()
    ensures
        tasks::worker::WORKER_COUNT == 4,
        w5500::SOCKET_COUNT == tasks::worker::WORKER_COUNT + 2,
        tasks::worker::CLOSE_POLL_MILLIS == 10,
        tasks::worker::CLOSE_TIMEOUT_SECS == 2,
        tasks::worker::CLOSE_POLL_MILLIS < tasks::worker::CLOSE_TIMEOUT_SECS * 1000,
        tasks::worker::ABORT_TIMEOUT_SECS == 1,
        tasks::worker::SOCKET_TIMEOUT_SECS == 10,
        tasks::worker::SERVE_TIMEOUT_SECS == tasks::worker::SOCKET_TIMEOUT_SECS,
        tasks::worker::ACCEPT_PAUSE_MILLIS == 50,
        tasks::api::HTTP_PORT == 80,
        tasks::api::SOCKET_BUFFER_SIZE == 2 * headers::REQUEST_BUFFER_SIZE == 2048,
        w5500::PACKET_QUEUE_DEPTH == 4,
{
}

/// The part of a reply before its empty line.
pub open spec fn message_head(status: Seq<u8>, content_type: Seq<u8>) -> Seq<u8> {
    bytes::ascii("HTTP/1.1 "@) + status + bytes::ascii("\r\nContent-Type: "@) + content_type
        + bytes::ascii("\r\nConnection: close"@)
}

/// The two line breaks before the empty line of a reply are each followed by a header.
proof fn lemma_head_breaks(status: Seq<u8>, content_type: Seq<u8>, at: int)
    requires
        is_one_line(status),
        is_one_line(content_type),
        0 <= at < message_head(status, content_type).len(),
        message_head(status, content_type)[at] == 13,
    ensures
        at + 2 < message_head(status, content_type).len(),
        message_head(status, content_type)[at + 2] == 'C' as u8,
{
    reveal_strlit("HTTP/1.1 ");
    reveal_strlit("\r\nContent-Type: ");
    reveal_strlit("\r\nConnection: close");
    let start = bytes::ascii("HTTP/1.1 "@);
    let typed = bytes::ascii("\r\nContent-Type: "@);
    let closed = bytes::ascii("\r\nConnection: close"@);
    let one = start + status;
    let two = one + typed;
    let three = two + content_type;
    let head = three + closed;
    assert(head == message_head(status, content_type));
    assert(start.len() == 9 && typed.len() == 16 && closed.len() == 19);
    if at < one.len() {
        assert(head[at] == one[at]);
        if at < 9 {
            assert(one[at] == start[at]);
        } else {
            assert(one[at] == status[at - 9]);
        }
    } else if at < two.len() {
        assert(head[at] == typed[at - one.len()]);
        assert(head[at + 2] == typed[at - one.len() + 2]);
    } else if at < three.len() {
        assert(head[at] == content_type[at - two.len()]);
    } else {
        assert(head[at] == closed[at - three.len()]);
        assert(head[at + 2] == closed[at - three.len() + 2]);
    }
}

/// The headers of a reply end at its first empty line, and its body is all that follows.
pub proof fn message_reads_back(status: Seq<u8>, content_type: Seq<u8>, body: Seq<u8>)
    requires
        is_one_line(status),
        is_one_line(content_type),
    ensures
        bytes::first_occurrence(
            reply::http_message(status, content_type, body),
            bytes::ascii(headers::END_OF_HTTP_HEADERS@),
        ) == Some(message_head(status, content_type).len() as int),
        reply::http_message(status, content_type, body).take(
            message_head(status, content_type).len() as int,
        ) == message_head(status, content_type),
        reply::http_message(status, content_type, body).skip(
            message_head(status, content_type).len() as int + 4,
        ) == body,
{
    let head = message_head(status, content_type);
    let end = bytes::ascii(headers::END_OF_HTTP_HEADERS@);
    let message = reply::http_message(status, content_type, body);
    let at = head.len() as int;
    assert(message == head + end + body && end.len() == 4 && end[0] == 13 && end[2] == 13) by {
        reveal_strlit("\r\nConnection: close");
        reveal_strlit("\r\nConnection: close\r\n\r\n");
        reveal_strlit("\r\n\r\n");
        assert(bytes::ascii("\r\nConnection: close\r\n\r\n"@) =~= bytes::ascii(
            "\r\nConnection: close"@,
        ) + end);
        assert(message =~= head + end + body);
    }
    assert(message.subrange(at, at + 4) =~= end);
    assert forall|earlier: int| earlier < at implies !bytes::occurs_at(message, end, earlier) by {
        if bytes::occurs_at(message, end, earlier) {
            assert(message.subrange(earlier, earlier + 4)[0] == head[earlier]);
            lemma_head_breaks(status, content_type, earlier);
            assert(message.subrange(earlier, earlier + 4)[2] == head[earlier + 2]);
        }
    }
    bytes::lemma_first_occurrence_is(message, end, at);
    assert(message.take(at) =~= head);
    assert(message.skip(at + 4) =~= body);
}

/// Every reply of the server ends its headers at its first empty line, and its body follows.
pub proof fn reply_reads_back(response: Response, mask: u32)
    ensures
        bytes::first_occurrence(
            response.message(mask),
            bytes::ascii(headers::END_OF_HTTP_HEADERS@),
        ) == Some(message_head(response.status(), response.content_type()).len() as int),
        response.message(mask).skip(
            message_head(response.status(), response.content_type()).len() as int + 4,
        ) == response.body(mask),
{
    reveal_strlit("200 OK");
    reveal_strlit("202 Accepted");
    reveal_strlit("400 Bad Request");
    reveal_strlit("404 Not Found");
    reveal_strlit("text/html; charset=utf-8");
    reveal_strlit("application/json");
    message_reads_back(response.status(), response.content_type(), response.body(mask));
}

} // verus!
