//! Minimal HTTP API: from the bytes of a request to the bytes of the reply.
//!
//! Nothing here touches a socket or an output. A request arrives as the bytes that were
//! read, and a validated command goes to the queue of the relay task.

use vstd::prelude::*;

use crate::board::RELAY_COUNT;
use crate::bytes;
use crate::bytes::{
    ascii_bytes, bytes_equal, count_digits, find_bytes, parse_decimal, strip_prefix,
};
use crate::relay::{RelayCommand, RelayControl, Submission, COMMAND_QUEUE_DEPTH};
use crate::tasks::reply::{render, Response};

verus! {

/// The port that the server listens on.
pub const HTTP_PORT: u16 = 80;

/// The size of each of the two buffers of a socket.
pub const SOCKET_BUFFER_SIZE: usize = 2048;

pub const CRLF: &'static str = "\r\n";

pub const HTTP_FIELD_SEPARATOR: &'static str = " ";

pub const HTTP_GET: &'static str = "GET";

pub const HTTP_POST: &'static str = "POST";

pub const HTTP_1_0: &'static str = "HTTP/1.0";

pub const HTTP_1_1: &'static str = "HTTP/1.1";

pub const INDEX_PATH: &'static str = "/";

pub const RELAY_STATE_PATH: &'static str = "/api/relays";

pub const RELAY_API_PATH_PREFIX: &'static str = "/api/relays/";

pub const ALL_ON_PATH: &'static str = "/api/relays/all/on";

pub const ALL_OFF_PATH: &'static str = "/api/relays/all/off";

pub const RELAY_ON_PATH_SUFFIX: &'static str = "/on";

pub const RELAY_OFF_PATH_SUFFIX: &'static str = "/off";

/// What a request asks for.
#[derive(Clone, Copy, Debug, PartialEq, Eq, Structural)]
pub enum Decision {
    /// A reply that changes nothing.
    Reply(Response),
    /// A command for the relay task, answered with `CommandAccepted` once it is queued.
    Queue(RelayCommand),
}

/// The three fields of the first line of a request.
pub struct HttpRequestLine<'a> {
    pub method: &'a [u8],
    pub target: &'a [u8],
    pub version: &'a [u8],
}

/// The three fields of the first line of a request, as byte strings.
#[verifier::ext_equal]
pub struct RequestLine {
    pub method: Seq<u8>,
    pub target: Seq<u8>,
    pub version: Seq<u8>,
}

impl<'a> View for HttpRequestLine<'a> {
    type V = RequestLine;

    open spec fn view(&self) -> RequestLine {
        RequestLine { method: self.method@, target: self.target@, version: self.version@ }
    }
}

/// What stands before the first line break, if there is one.
pub open spec fn first_line(request: Seq<u8>) -> Option<Seq<u8>> {
    match bytes::first_occurrence(request, bytes::ascii(CRLF@)) {
        Some(end) => Some(request.take(end)),
        None => None,
    }
}

/// What stands before and after the first field separator, if there is one.
pub open spec fn split_field(text: Seq<u8>) -> Option<(Seq<u8>, Seq<u8>)> {
    match bytes::first_occurrence(text, bytes::ascii(HTTP_FIELD_SEPARATOR@)) {
        Some(at) => Some((text.take(at), text.skip(at + 1))),
        None => None,
    }
}

/// The fields of a line that holds at least two separators: all after the second one is the
/// version.
pub open spec fn line_fields(line: Seq<u8>) -> Option<RequestLine> {
    match split_field(line) {
        Some((method, after_method)) => match split_field(after_method) {
            Some((target, version)) => Some(RequestLine { method, target, version }),
            None => None,
        },
        None => None,
    }
}

/// The fields of the first line of a request.
pub open spec fn request_line(request: Seq<u8>) -> Option<RequestLine> {
    match first_line(request) {
        Some(line) => line_fields(line),
        None => None,
    }
}

/// The first line of a request.
pub fn read_first_line<'a>(request: &'a [u8]) -> (line: Option<&'a [u8]>)
    ensures
        match line {
            Some(line) => first_line(request@) == Some(line@),
            None => first_line(request@) == None::<Seq<u8>>,
        },
{
    proof {
        reveal_strlit("\r\n");
        bytes::lemma_first_occurrence(request@, bytes::ascii(CRLF@));
    }
    match find_bytes(request, ascii_bytes(CRLF)) {
        Some(end) => {
            let line = &request[0..end];
            assert(line@ =~= request@.take(end as int));
            Some(line)
        },
        None => None,
    }
}

/// The parts of `text` around its first field separator.
fn read_field<'a>(text: &'a [u8]) -> (parts: Option<(&'a [u8], &'a [u8])>)
    ensures
        match parts {
            Some((field, rest)) => split_field(text@) == Some((field@, rest@)),
            None => split_field(text@) == None::<(Seq<u8>, Seq<u8>)>,
        },
{
    proof {
        reveal_strlit(" ");
        bytes::lemma_first_occurrence(
            text@,
            bytes::ascii(HTTP_FIELD_SEPARATOR@),
        );
    }
    match find_bytes(text, ascii_bytes(HTTP_FIELD_SEPARATOR)) {
        Some(at) => {
            assert(at + 1 <= text.len());
            let field = &text[0..at];
            let rest = &text[at + 1..text.len()];
            assert(field@ =~= text@.take(at as int));
            assert(rest@ =~= text@.skip(at + 1));
            Some((field, rest))
        },
        None => None,
    }
}

/// Extract method, target and HTTP version from the first line of a request.
pub fn parse_http_request_line<'a>(request: &'a [u8]) -> (line: Option<HttpRequestLine<'a>>)
    ensures
        match line {
            Some(line) => request_line(request@) == Some(line@),
            None => request_line(request@) == None::<RequestLine>,
        },
{
    match read_first_line(request) {
        None => None,
        Some(line) => match read_field(line) {
            None => None,
            Some((method, after_method)) => match read_field(after_method) {
                None => None,
                Some((target, version)) => Some(HttpRequestLine { method, target, version }),
            },
        },
    }
}

/// The versions of HTTP that the server answers.
pub open spec fn supported_version(version: Seq<u8>) -> bool {
    version == bytes::ascii(HTTP_1_0@) || version == bytes::ascii(HTTP_1_1@)
}

/// Whether the server answers requests of this version of HTTP.
pub fn is_supported_http_version(version: &[u8]) -> (supported: bool)
    ensures
        supported == supported_version(version@),
{
    proof {
        reveal_strlit("HTTP/1.0");
        reveal_strlit("HTTP/1.1");
    }
    bytes_equal(version, ascii_bytes(HTTP_1_0)) || bytes_equal(version, ascii_bytes(HTTP_1_1))
}

/// The number that a path begins with and what follows its digits. There is none where the
/// path begins with no digit, or where the number does not fit in a `usize`.
pub open spec fn relay_target(path: Seq<u8>) -> Option<(usize, Seq<u8>)> {
    let count = bytes::digit_count(path) as int;
    let number = bytes::decimal(path.take(count));
    if count == 0 || number > usize::MAX {
        None
    } else {
        Some((number as usize, path.skip(count)))
    }
}

/// Parse `<relay index>/<action>`, which follows `/api/relays/`.
///
/// For `12/on` this is 12 and `/on`.
pub fn parse_relay_target<'a>(path_after_relay_prefix: &'a [u8]) -> (target: Option<
    (usize, &'a [u8]),
>)
    ensures
        match target {
            Some((index, action)) => relay_target(path_after_relay_prefix@) == Some(
                (index, action@),
            ),
            None => relay_target(path_after_relay_prefix@) == None::<(usize, Seq<u8>)>,
        },
{
    let count = count_digits(path_after_relay_prefix);
    if count == 0 {
        return None;
    }
    let digits = &path_after_relay_prefix[0..count];
    let action = &path_after_relay_prefix[count..path_after_relay_prefix.len()];
    proof {
        bytes::lemma_digit_count_bounds(path_after_relay_prefix@);
        assert(digits@ =~= path_after_relay_prefix@.take(count as int));
        assert(action@ =~= path_after_relay_prefix@.skip(count as int));
        assert forall|i: int| 0 <= i < digits@.len() implies bytes::is_digit(
            #[trigger] digits@[i],
        ) by {
            assert(bytes::is_digit(path_after_relay_prefix@[i]));
        }
    }
    match parse_decimal(digits) {
        Some(index) => Some((index, action)),
        None => None,
    }
}

/// What a request to switch one relay asks for, given the path after `/api/relays/`.
pub open spec fn switch_decision(path: Seq<u8>) -> Decision {
    match relay_target(path) {
        Some((index, action)) => if index >= RELAY_COUNT {
            Decision::Reply(Response::BadRequest)
        } else if action == bytes::ascii(RELAY_ON_PATH_SUFFIX@) {
            Decision::Queue(RelayCommand::Switch { index, on: true })
        } else if action == bytes::ascii(RELAY_OFF_PATH_SUFFIX@) {
            Decision::Queue(RelayCommand::Switch { index, on: false })
        } else {
            Decision::Reply(Response::BadRequest)
        },
        None => Decision::Reply(Response::BadRequest),
    }
}

/// What a `GET` of a target asks for.
pub open spec fn get_decision(target: Seq<u8>) -> Decision {
    if target == bytes::ascii(INDEX_PATH@) {
        Decision::Reply(Response::Html)
    } else if target == bytes::ascii(RELAY_STATE_PATH@) || target == bytes::ascii(
        RELAY_API_PATH_PREFIX@,
    ) {
        Decision::Reply(Response::RelayState)
    } else {
        Decision::Reply(Response::NotFound)
    }
}

/// What a `POST` to a target asks for.
pub open spec fn post_decision(target: Seq<u8>) -> Decision {
    if target == bytes::ascii(ALL_ON_PATH@) {
        Decision::Queue(RelayCommand::AllOn)
    } else if target == bytes::ascii(ALL_OFF_PATH@) {
        Decision::Queue(RelayCommand::AllOff)
    } else {
        match bytes::after_prefix(target, bytes::ascii(RELAY_API_PATH_PREFIX@)) {
            Some(path) => switch_decision(path),
            None => Decision::Reply(Response::NotFound),
        }
    }
}

/// What a request asks for. A line that cannot be read, or of another version of HTTP, is a
/// bad request whatever its target.
pub open spec fn decision(request: Seq<u8>) -> Decision {
    match request_line(request) {
        Some(line) => if !supported_version(line.version) {
            Decision::Reply(Response::BadRequest)
        } else if line.method == bytes::ascii(HTTP_GET@) {
            get_decision(line.target)
        } else if line.method == bytes::ascii(HTTP_POST@) {
            post_decision(line.target)
        } else {
            Decision::Reply(Response::NotFound)
        },
        None => Decision::Reply(Response::BadRequest),
    }
}

/// Decide a request to switch one relay.
fn decide_switch(path: &[u8]) -> (decided: Decision)
    ensures
        decided == switch_decision(path@),
{
    proof {
        reveal_strlit("/on");
        reveal_strlit("/off");
    }
    match parse_relay_target(path) {
        None => Decision::Reply(Response::BadRequest),
        Some((index, action)) => {
            let on = if bytes_equal(action, ascii_bytes(RELAY_ON_PATH_SUFFIX)) {
                true
            } else if bytes_equal(action, ascii_bytes(RELAY_OFF_PATH_SUFFIX)) {
                false
            } else {
                return Decision::Reply(Response::BadRequest);
            };
            if index >= RELAY_COUNT {
                return Decision::Reply(Response::BadRequest);
            }
            Decision::Queue(RelayCommand::Switch { index, on })
        },
    }
}

/// Decide what a request asks for.
pub fn decide(request: &[u8]) -> (decided: Decision)
    ensures
        decided == decision(request@),
{
    proof {
        reveal_strlit("GET");
        reveal_strlit("POST");
        reveal_strlit("/");
        reveal_strlit("/api/relays");
        reveal_strlit("/api/relays/");
        reveal_strlit("/api/relays/all/on");
        reveal_strlit("/api/relays/all/off");
    }
    let line = match parse_http_request_line(request) {
        Some(line) => line,
        None => {
            return Decision::Reply(Response::BadRequest);
        },
    };
    if !is_supported_http_version(line.version) {
        return Decision::Reply(Response::BadRequest);
    }
    let get = bytes_equal(line.method, ascii_bytes(HTTP_GET));
    if get && bytes_equal(line.target, ascii_bytes(INDEX_PATH)) {
        return Decision::Reply(Response::Html);
    }
    if get && (bytes_equal(line.target, ascii_bytes(RELAY_STATE_PATH)) || bytes_equal(
        line.target,
        ascii_bytes(RELAY_API_PATH_PREFIX),
    )) {
        return Decision::Reply(Response::RelayState);
    }
    if !bytes_equal(line.method, ascii_bytes(HTTP_POST)) {
        return Decision::Reply(Response::NotFound);
    }
    assert(bytes::ascii(HTTP_GET@).len() == 3 && bytes::ascii(HTTP_POST@).len() == 4);
    if bytes_equal(line.target, ascii_bytes(ALL_ON_PATH)) {
        return Decision::Queue(RelayCommand::AllOn);
    }
    if bytes_equal(line.target, ascii_bytes(ALL_OFF_PATH)) {
        return Decision::Queue(RelayCommand::AllOff);
    }
    match strip_prefix(line.target, ascii_bytes(RELAY_API_PATH_PREFIX)) {
        Some(path) => decide_switch(path),
        None => Decision::Reply(Response::NotFound),
    }
}

/// The reply to a request, where `waiting` commands wait for the relay task. A command gets
/// none while there is no room for it, and one for a relay that the board lacks is refused.
pub open spec fn response_to(decided: Decision, waiting: Seq<RelayCommand>) -> Option<Response> {
    match decided {
        Decision::Reply(response) => Some(response),
        Decision::Queue(command) => if !command.is_valid() {
            Some(Response::BadRequest)
        } else if waiting.len() < COMMAND_QUEUE_DEPTH {
            Some(Response::CommandAccepted)
        } else {
            None
        },
    }
}

/// The commands that wait for the relay task after a request, where `waiting` did before.
pub open spec fn waiting_after(decided: Decision, waiting: Seq<RelayCommand>) -> Seq<RelayCommand> {
    match decided {
        Decision::Reply(_) => waiting,
        Decision::Queue(command) => if command.is_valid() && waiting.len() < COMMAND_QUEUE_DEPTH {
            waiting.push(command)
        } else {
            waiting
        },
    }
}

/// Whatever a request asks for, a command that it asks for is one that the board can carry out.
pub proof fn requested_commands_are_valid(request: Seq<u8>)
    ensures
        decision(request) matches Decision::Queue(command) ==> command.is_valid(),
{
}

/// Pass the command that a request asks for on to the relay task. There is no reply while the
/// queue of the relay task is full: the same is to be carried out again once a command has left
/// the queue.
pub fn carry_out(decided: Decision, relays: &mut RelayControl) -> (response: Option<Response>)
    ensures
        response == response_to(decided, old(relays).commands()),
        final(relays).commands() == waiting_after(decided, old(relays).commands()),
        final(relays).mask() == old(relays).mask(),
        old(relays).wf() ==> final(relays).wf(),
        decided matches Decision::Reply(reply) ==> {
            &&& response == Some(reply)
            &&& final(relays).commands() == old(relays).commands()
        },
        decided matches Decision::Queue(command) ==> {
            let known = command matches RelayCommand::Switch { index, .. } ==> index < RELAY_COUNT;
            let room = old(relays).commands().len() < COMMAND_QUEUE_DEPTH;
            &&& known && room ==> {
                &&& response == Some(Response::CommandAccepted)
                &&& final(relays).commands() == old(relays).commands().push(command)
            }
            &&& !known ==> response == Some(Response::BadRequest)
            &&& known && !room ==> response is None
            &&& !known || !room ==> final(relays).commands() == old(relays).commands()
        },
{
    let submission = match decided {
        Decision::Reply(response) => {
            return Some(response);
        },
        Decision::Queue(RelayCommand::AllOn) => relays.all_on(),
        Decision::Queue(RelayCommand::AllOff) => relays.all_off(),
        Decision::Queue(RelayCommand::Switch { index, on }) => match relays.set(index, on) {
            Ok(submission) => submission,
            Err(_) => {
                return Some(Response::BadRequest);
            },
        },
    };
    match submission {
        Submission::Accepted => Some(Response::CommandAccepted),
        Submission::Full => None,
    }
}

/// Decide a request and pass the command it asks for on. There is no reply while the queue of
/// the relay task is full: the request is to be routed again once a command has left the queue.
pub fn route(request: &[u8], relays: &mut RelayControl) -> (response: Option<Response>)
    ensures
        response == response_to(decision(request@), old(relays).commands()),
        final(relays).commands() == waiting_after(decision(request@), old(relays).commands()),
        final(relays).mask() == old(relays).mask(),
        old(relays).wf() ==> final(relays).wf(),
{
    carry_out(decide(request), relays)
}

/// What is asked for where a request was read, and where none could be.
pub open spec fn served_decision(request: Option<&[u8]>) -> Decision {
    match request {
        Some(request) => decision(request@),
        None => Decision::Reply(Response::BadRequest),
    }
}

/// Decide what is asked for where a request was read, and where none could be.
pub fn decide_request(request: Option<&[u8]>) -> (decided: Decision)
    ensures
        decided == served_decision(request),
{
    match request {
        Some(request) => decide(request),
        None => Decision::Reply(Response::BadRequest),
    }
}

/// The reply to what was read of a request, if anything could be. There is none while the queue
/// of the relay task is full.
pub fn serve_request(request: Option<&[u8]>, relays: &mut RelayControl) -> (message: Option<
    Vec<u8>,
>)
    ensures
        match message {
            Some(message) => {
                &&& response_to(served_decision(request), old(relays).commands()) matches Some(
                    response,
                )
                &&& message@ == response.message(old(relays).mask())
            },
            None => response_to(served_decision(request), old(relays).commands()) is None,
        },
        final(relays).commands() == waiting_after(
            served_decision(request),
            old(relays).commands(),
        ),
        final(relays).mask() == old(relays).mask(),
        old(relays).wf() ==> final(relays).wf(),
{
    match carry_out(decide_request(request), relays) {
        Some(response) => Some(render(response, relays.state_mask())),
        None => None,
    }
}

} // verus!
