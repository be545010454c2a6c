//! A stricter HTTP API, which compares whole request lines instead of splitting them.
//!
//! It shares the header block, the relay path and the replies with [`crate::tasks`], and
//! answers a subset of the requests that are answered there.

use vstd::prelude::*;

use crate::board::RELAY_COUNT;
use crate::bytes;
use crate::bytes::{ascii_bytes, bytes_equal, strip_prefix};
use crate::relay::{RelayCommand, RelayControl};
use crate::tasks::api;
use crate::tasks::api::{carry_out, parse_relay_target, read_first_line, Decision};
use crate::tasks::headers;
use crate::tasks::headers::{HeaderBuffer, HeaderStatus};
use crate::tasks::reply::{render, Response};

verus! {

pub const GET_INDEX_1_1: &'static str = "GET / HTTP/1.1";

pub const GET_INDEX_1_0: &'static str = "GET / HTTP/1.0";

pub const GET_RELAYS_1_1: &'static str = "GET /api/relays HTTP/1.1";

pub const GET_RELAYS_1_0: &'static str = "GET /api/relays HTTP/1.0";

pub const POST_RELAYS_PREFIX: &'static str = "POST /api/relays/";

pub const ON_1_1: &'static str = "/on HTTP/1.1";

pub const ON_1_0: &'static str = "/on HTTP/1.0";

pub const OFF_1_1: &'static str = "/off HTTP/1.1";

pub const OFF_1_0: &'static str = "/off HTTP/1.0";

/// What a request to switch one relay asks for, given the line after `POST /api/relays/`.
pub open spec fn switch_decision(target: Seq<u8>) -> Decision {
    match api::relay_target(target) {
        Some((index, suffix)) => if index >= RELAY_COUNT {
            Decision::Reply(Response::BadRequest)
        } else if suffix == bytes::ascii(ON_1_1@) || suffix == bytes::ascii(ON_1_0@) {
            Decision::Queue(RelayCommand::Switch { index, on: true })
        } else if suffix == bytes::ascii(OFF_1_1@) || suffix == bytes::ascii(OFF_1_0@) {
            Decision::Queue(RelayCommand::Switch { index, on: false })
        } else {
            Decision::Reply(Response::BadRequest)
        },
        None => Decision::Reply(Response::BadRequest),
    }
}

/// What a request line asks for.
pub open spec fn line_decision(line: Seq<u8>) -> Decision {
    if line == bytes::ascii(GET_INDEX_1_1@) || line == bytes::ascii(GET_INDEX_1_0@) {
        Decision::Reply(Response::Html)
    } else if line == bytes::ascii(GET_RELAYS_1_1@) || line == bytes::ascii(GET_RELAYS_1_0@) {
        Decision::Reply(Response::RelayState)
    } else {
        match bytes::after_prefix(line, bytes::ascii(POST_RELAYS_PREFIX@)) {
            Some(target) => switch_decision(target),
            None => Decision::Reply(Response::NotFound),
        }
    }
}

/// What a request asks for: its first line decides, and without one it is a bad request.
pub open spec fn decision(request: Seq<u8>) -> Decision {
    match api::first_line(request) {
        Some(line) => line_decision(line),
        None => Decision::Reply(Response::BadRequest),
    }
}

/// Decide a request to switch one relay.
fn decide_switch(target: &[u8]) -> (decided: Decision)
    ensures
        decided == switch_decision(target@),
{
    proof {
        reveal_strlit("/on HTTP/1.1");
        reveal_strlit("/on HTTP/1.0");
        reveal_strlit("/off HTTP/1.1");
        reveal_strlit("/off HTTP/1.0");
    }
    match parse_relay_target(target) {
        None => Decision::Reply(Response::BadRequest),
        Some((index, suffix)) => {
            let on = if bytes_equal(suffix, ascii_bytes(ON_1_1)) || bytes_equal(
                suffix,
                ascii_bytes(ON_1_0),
            ) {
                true
            } else if bytes_equal(suffix, ascii_bytes(OFF_1_1)) || bytes_equal(
                suffix,
                ascii_bytes(OFF_1_0),
            ) {
                false
            } else {
                return Decision::Reply(Response::BadRequest);
            };
            if index >= RELAY_COUNT {
                return Decision::Reply(Response::BadRequest);
            }
            Decision::Queue(RelayCommand::Switch { index, on })
        },
    }
}

/// Decide what a request asks for.
pub fn decide(request: &[u8]) -> (decided: Decision)
    ensures
        decided == decision(request@),
{
    proof {
        reveal_strlit("GET / HTTP/1.1");
        reveal_strlit("GET / HTTP/1.0");
        reveal_strlit("GET /api/relays HTTP/1.1");
        reveal_strlit("GET /api/relays HTTP/1.0");
        reveal_strlit("POST /api/relays/");
    }
    let line = match read_first_line(request) {
        Some(line) => line,
        None => {
            return Decision::Reply(Response::BadRequest);
        },
    };
    if bytes_equal(line, ascii_bytes(GET_INDEX_1_1)) || bytes_equal(
        line,
        ascii_bytes(GET_INDEX_1_0),
    ) {
        return Decision::Reply(Response::Html);
    }
    if bytes_equal(line, ascii_bytes(GET_RELAYS_1_1)) || bytes_equal(
        line,
        ascii_bytes(GET_RELAYS_1_0),
    ) {
        return Decision::Reply(Response::RelayState);
    }
    match strip_prefix(line, ascii_bytes(POST_RELAYS_PREFIX)) {
        Some(target) => decide_switch(target),
        None => Decision::Reply(Response::NotFound),
    }
}

/// Whatever a request asks for, a command that it asks for is one that the board can carry out.
pub proof fn requested_commands_are_valid(request: Seq<u8>)
    ensures
        decision(request) matches Decision::Queue(command) ==> command.is_valid(),
{
}

/// Decide a request and pass the command it asks for on. There is no reply while the queue of
/// the relay task is full: the request is to be routed again once a command has left the queue.
pub fn route(request: &[u8], relays: &mut RelayControl) -> (response: Option<Response>)
    ensures
        response == api::response_to(decision(request@), old(relays).commands()),
        final(relays).commands() == api::waiting_after(decision(request@), old(relays).commands()),
        final(relays).mask() == old(relays).mask(),
        old(relays).wf() ==> final(relays).wf(),
{
    carry_out(decide(request), relays)
}

/// Take in what one read of the socket delivered.
pub fn read_headers(buffer: &mut HeaderBuffer, read: Option<&[u8]>) -> (status: HeaderStatus)
    requires
        old(buffer).wf(),
        read matches Some(chunk) ==> chunk.len() <= old(buffer).capacity() - old(
            buffer,
        ).received().len(),
    ensures
        final(buffer).wf(),
        old(buffer).takes_in(headers::delivered(read), *final(buffer), status),
{
    buffer.read_http_headers(read)
}

/// What is asked for where a request was read, and where none could be.
pub open spec fn served_decision(request: Option<&[u8]>) -> Decision {
    match request {
        Some(request) => decision(request@),
        None => Decision::Reply(Response::BadRequest),
    }
}

/// Decide what is asked for where a request was read, and where none could be.
pub fn decide_request(request: Option<&[u8]>) -> (decided: Decision)
    ensures
        decided == served_decision(request),
{
    match request {
        Some(request) => decide(request),
        None => Decision::Reply(Response::BadRequest),
    }
}

/// The reply to what was read of a request, if anything could be. There is none while the queue
/// of the relay task is full.
pub fn serve_request(request: Option<&[u8]>, relays: &mut RelayControl) -> (message: Option<
    Vec<u8>,
>)
    ensures
        match message {
            Some(message) => {
                &&& api::response_to(served_decision(request), old(relays).commands()) matches Some(
                    response,
                )
                &&& message@ == response.message(old(relays).mask())
            },
            None => api::response_to(served_decision(request), old(relays).commands()) is None,
        },
        final(relays).commands() == api::waiting_after(
            served_decision(request),
            old(relays).commands(),
        ),
        final(relays).mask() == old(relays).mask(),
        old(relays).wf() ==> final(relays).wf(),
{
    match carry_out(decide_request(request), relays) {
        Some(response) => Some(render(response, relays.state_mask())),
        None => None,
    }
}

/// What a worker does next.
#[derive(Clone, Copy, Debug, PartialEq, Eq, Structural)]
pub enum WorkerStep {
    /// Wait for a connection.
    Accept,
    /// Read the request, reply to it, and flush the reply.
    Serve,
    /// Close the connection.
    Close,
}

/// The step after `done`: only a connection that was accepted is served, and a served one is
/// closed before the next is waited for, whether serving it succeeded or not.
pub open spec fn worker_step_after(done: WorkerStep, succeeded: bool) -> WorkerStep {
    match done {
        WorkerStep::Accept => if succeeded {
            WorkerStep::Serve
        } else {
            WorkerStep::Accept
        },
        WorkerStep::Serve => WorkerStep::Close,
        WorkerStep::Close => WorkerStep::Accept,
    }
}

/// The step of a worker after `done`.
pub fn http_server_task(done: WorkerStep, succeeded: bool) -> (next: WorkerStep)
    ensures
        next == worker_step_after(done, succeeded),
{
    match done {
        WorkerStep::Accept => if succeeded {
            WorkerStep::Serve
        } else {
            WorkerStep::Accept
        },
        WorkerStep::Serve => WorkerStep::Close,
        WorkerStep::Close => WorkerStep::Accept,
    }
}

/// Step `i` is the one that follows the step before it.
pub open spec fn worker_step_follows(
    steps: Seq<WorkerStep>,
    succeeded: Seq<bool>,
    i: int,
) -> bool {
    steps[i] == worker_step_after(steps[i - 1], succeeded[i - 1])
}

/// The steps that a worker took from its start, with how each of them went.
pub open spec fn is_worker_run(steps: Seq<WorkerStep>, succeeded: Seq<bool>) -> bool {
    &&& steps.len() == succeeded.len()
    &&& steps.len() > 0 ==> steps[0] == WorkerStep::Accept
    &&& forall|i: int|
        0 < i < steps.len() ==> #[trigger] worker_step_follows(steps, succeeded, i)
}

/// From one accept to the next, a connection that was accepted is served and closed once each;
/// where there was none, the worker waits for one again at once.
pub proof fn connection_is_served_and_closed_between_accepts(
    steps: Seq<WorkerStep>,
    succeeded: Seq<bool>,
    first: int,
    second: int,
)
    requires
        is_worker_run(steps, succeeded),
        0 <= first < second < steps.len(),
        steps[first] == WorkerStep::Accept,
        steps[second] == WorkerStep::Accept,
        forall|between: int| first < between < second ==> steps[between] != WorkerStep::Accept,
    ensures
        succeeded[first] ==> second == first + 3 && steps[first + 1] == WorkerStep::Serve
            && steps[first + 2] == WorkerStep::Close,
        !succeeded[first] ==> second == first + 1,
{
    assert(worker_step_follows(steps, succeeded, first + 1));
    if succeeded[first] {
        assert(worker_step_follows(steps, succeeded, first + 2));
        assert(steps[first + 1] != WorkerStep::Accept && steps[first + 2] != WorkerStep::Accept);
        assert(worker_step_follows(steps, succeeded, first + 3));
        assert(steps[first + 3] == WorkerStep::Accept);
    } else {
        assert(steps[first + 1] == WorkerStep::Accept);
    }
}

/// Only a connection that was just accepted is served, and it is closed right after.
pub proof fn served_connection_was_accepted(
    steps: Seq<WorkerStep>,
    succeeded: Seq<bool>,
    served: int,
)
    requires
        is_worker_run(steps, succeeded),
        0 <= served < steps.len(),
        steps[served] == WorkerStep::Serve,
    ensures
        served > 0,
        steps[served - 1] == WorkerStep::Accept,
        succeeded[served - 1],
        served + 1 < steps.len() ==> steps[served + 1] == WorkerStep::Close,
{
    if served > 0 {
        assert(worker_step_follows(steps, succeeded, served));
    }
    if served + 1 < steps.len() {
        assert(worker_step_follows(steps, succeeded, served + 1));
    }
}

/// A worker serves the connection that it accepted, closes it, and waits for the next, however
/// serving and closing went. Where there was none to accept it waits for one again.
pub proof fn accepted_connection_is_served_and_closed(
    steps: Seq<WorkerStep>,
    succeeded: Seq<bool>,
    accept: int,
)
    requires
        is_worker_run(steps, succeeded),
        0 <= accept < steps.len(),
        steps[accept] == WorkerStep::Accept,
    ensures
        steps[0] == WorkerStep::Accept,
        !succeeded[accept] && accept + 1 < steps.len() ==> steps[accept + 1] == WorkerStep::Accept,
        succeeded[accept] && accept + 1 < steps.len() ==> steps[accept + 1] == WorkerStep::Serve,
        succeeded[accept] && accept + 2 < steps.len() ==> steps[accept + 2] == WorkerStep::Close,
        succeeded[accept] && accept + 3 < steps.len() ==> steps[accept + 3] == WorkerStep::Accept,
{
    if accept + 1 < steps.len() {
        assert(worker_step_follows(steps, succeeded, accept + 1));
    }
    if accept + 2 < steps.len() {
        assert(worker_step_follows(steps, succeeded, accept + 2));
    }
    if accept + 3 < steps.len() {
        assert(worker_step_follows(steps, succeeded, accept + 3));
    }
}

} // verus!
