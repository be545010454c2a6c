//! The life of a connection: what a server worker does next, and how it lets go of a socket.
//!
//! A worker performs one step after another. After each it says how the step went and learns
//! the next one.

use vstd::prelude::*;

verus! {

/// How many workers serve connections side by side.
pub const WORKER_COUNT: usize = 4;

/// How long a socket waits for its peer.
pub const SOCKET_TIMEOUT_SECS: u64 = 10;

/// How long a request and its reply may take.
pub const SERVE_TIMEOUT_SECS: u64 = 10;

/// How long a worker pauses where no connection could be accepted.
pub const ACCEPT_PAUSE_MILLIS: u64 = 50;

/// How long the peer is given to take part in closing a connection.
pub const CLOSE_TIMEOUT_SECS: u64 = 2;

/// How long to wait before looking at a closing socket again.
pub const CLOSE_POLL_MILLIS: u64 = 10;

/// How long the reset of an aborted connection may take to leave.
pub const ABORT_TIMEOUT_SECS: u64 = 1;

/// What a worker does next.
#[derive(Clone, Copy, Debug, PartialEq, Eq, Structural)]
pub enum WorkerStep {
    /// Wait for a connection.
    Accept,
    /// Read the request and reply to it.
    Serve,
    /// Let go of the socket, so that it can listen again.
    Recycle { accepted: bool },
    /// Do nothing for a while.
    Pause,
}

/// The step after `done`. However a connection went, its socket is recycled; where there was
/// none to accept, the worker pauses after that.
pub open spec fn worker_step_after(done: WorkerStep, succeeded: bool) -> WorkerStep {
    match done {
        WorkerStep::Accept => if succeeded {
            WorkerStep::Serve
        } else {
            WorkerStep::Recycle { accepted: false }
        },
        WorkerStep::Serve => WorkerStep::Recycle { accepted: true },
        WorkerStep::Recycle { accepted } => if accepted {
            WorkerStep::Accept
        } else {
            WorkerStep::Pause
        },
        WorkerStep::Pause => WorkerStep::Accept,
    }
}

/// The step of a worker after `done`.
pub fn http_server_task(done: WorkerStep, succeeded: bool) -> (next: WorkerStep)
    ensures
        next == worker_step_after(done, succeeded),
{
    match done {
        WorkerStep::Accept => {
            if succeeded {
                WorkerStep::Serve
            } else {
                WorkerStep::Recycle { accepted: false }
            }
        },
        WorkerStep::Serve => WorkerStep::Recycle { accepted: true },
        WorkerStep::Recycle { accepted: true } => WorkerStep::Accept,
        WorkerStep::Recycle { accepted: false } => WorkerStep::Pause,
        WorkerStep::Pause => WorkerStep::Accept,
    }
}

/// Step `i` is the one that follows the step before it.
pub open spec fn worker_step_follows(
    steps: Seq<WorkerStep>,
    succeeded: Seq<bool>,
    i: int,
) -> bool {
    steps[i] == worker_step_after(steps[i - 1], succeeded[i - 1])
}

/// The steps that a worker took from its start, with how each of them went.
pub open spec fn is_worker_run(steps: Seq<WorkerStep>, succeeded: Seq<bool>) -> bool {
    &&& steps.len() == succeeded.len()
    &&& steps.len() > 0 ==> steps[0] == WorkerStep::Accept
    &&& forall|i: int|
        0 < i < steps.len() ==> #[trigger] worker_step_follows(steps, succeeded, i)
}

/// A socket never listens again before it was recycled.
pub proof fn socket_is_recycled_between_accepts(
    steps: Seq<WorkerStep>,
    succeeded: Seq<bool>,
    first: int,
    second: int,
)
    requires
        is_worker_run(steps, succeeded),
        0 <= first < second < steps.len(),
        steps[first] == WorkerStep::Accept,
        steps[second] == WorkerStep::Accept,
    ensures
        exists|between: int| first < between < second && #[trigger] steps[between] is Recycle,
{
    assert(worker_step_follows(steps, succeeded, first + 1));
    if succeeded[first] {
        assert(worker_step_follows(steps, succeeded, first + 2));
        assert(steps[first + 2] is Recycle);
    } else {
        assert(steps[first + 1] is Recycle);
    }
}

/// From one accept to the next a worker takes two steps, of which exactly one recycles the
/// socket: after a connection was served, or before the pause where there was none to serve.
pub proof fn socket_is_recycled_once_between_accepts(
    steps: Seq<WorkerStep>,
    succeeded: Seq<bool>,
    first: int,
    second: int,
)
    requires
        is_worker_run(steps, succeeded),
        0 <= first < second < steps.len(),
        steps[first] == WorkerStep::Accept,
        steps[second] == WorkerStep::Accept,
        forall|between: int| first < between < second ==> steps[between] != WorkerStep::Accept,
    ensures
        second == first + 3,
        succeeded[first] ==> steps[first + 1] == WorkerStep::Serve && steps[first + 2] == (
        WorkerStep::Recycle { accepted: true }),
        !succeeded[first] ==> steps[first + 1] == (WorkerStep::Recycle { accepted: false })
            && steps[first + 2] == WorkerStep::Pause,
{
    assert(worker_step_follows(steps, succeeded, first + 1));
    assert(worker_step_follows(steps, succeeded, first + 2));
    assert(steps[first + 1] != WorkerStep::Accept && steps[first + 2] != WorkerStep::Accept);
    assert(worker_step_follows(steps, succeeded, first + 3));
    assert(steps[first + 3] == WorkerStep::Accept);
}

/// Where no connection could be accepted, the worker pauses before it tries again.
pub proof fn worker_pauses_after_a_failed_accept(
    steps: Seq<WorkerStep>,
    succeeded: Seq<bool>,
    failed: int,
    again: int,
)
    requires
        is_worker_run(steps, succeeded),
        0 <= failed < again < steps.len(),
        steps[failed] == WorkerStep::Accept,
        !succeeded[failed],
        steps[again] == WorkerStep::Accept,
    ensures
        exists|between: int| failed < between < again && #[trigger] steps[between] == WorkerStep::Pause,
{
    assert(worker_step_follows(steps, succeeded, failed + 1));
    assert(worker_step_follows(steps, succeeded, failed + 2));
    assert(steps[failed + 2] == WorkerStep::Pause);
}

/// Only a connection that was just accepted is served.
pub proof fn served_connection_was_accepted(
    steps: Seq<WorkerStep>,
    succeeded: Seq<bool>,
    served: int,
)
    requires
        is_worker_run(steps, succeeded),
        0 <= served < steps.len(),
        steps[served] == WorkerStep::Serve,
    ensures
        served > 0,
        steps[served - 1] == WorkerStep::Accept,
        succeeded[served - 1],
{
    if served > 0 {
        assert(worker_step_follows(steps, succeeded, served));
    }
}

/// The states of a TCP socket.
#[derive(Clone, Copy, Debug, PartialEq, Eq, Structural)]
pub enum SocketState {
    Closed,
    Listen,
    SynSent,
    SynReceived,
    Established,
    FinWait1,
    FinWait2,
    CloseWait,
    Closing,
    LastAck,
    TimeWait,
}

/// How an awaited step went.
#[derive(Clone, Copy, Debug, PartialEq, Eq, Structural)]
pub enum Outcome {
    Finished,
    Failed,
    TimedOut,
}

/// What is done next to let go of a socket.
#[derive(Clone, Copy, Debug, PartialEq, Eq, Structural)]
pub enum RecycleStep {
    /// Close the sending side.
    Close,
    /// Wait until all that was sent is acknowledged.
    Flush,
    /// Wait a moment for the peer to close its side.
    Wait,
    /// Drop the connection. It was closed in an orderly way only if `orderly`.
    Abort { orderly: bool },
    /// Wait until the reset of a dropped connection has left.
    FlushAbort,
    /// The socket can listen again.
    Done,
}

/// The connection is closed on both sides.
pub open spec fn is_closed(state: SocketState) -> bool {
    state == SocketState::Closed || state == SocketState::TimeWait
}

/// The step after `done`, where `outcome` is how it went and `state` is the state of the socket
/// afterwards. Closing goes on until both sides are closed, unless it fails or takes too long;
/// either way the connection is dropped at the end.
pub open spec fn recycle_step_after(
    done: RecycleStep,
    outcome: Outcome,
    state: SocketState,
) -> RecycleStep {
    match done {
        RecycleStep::Close => RecycleStep::Flush,
        RecycleStep::Flush | RecycleStep::Wait => if outcome != Outcome::Finished {
            RecycleStep::Abort { orderly: false }
        } else if is_closed(state) {
            RecycleStep::Abort { orderly: true }
        } else {
            RecycleStep::Wait
        },
        RecycleStep::Abort { .. } => RecycleStep::FlushAbort,
        RecycleStep::FlushAbort => RecycleStep::Done,
        RecycleStep::Done => RecycleStep::Done,
    }
}

/// The step of letting go of a socket after `done`.
pub fn recycle_socket(done: RecycleStep, outcome: Outcome, state: SocketState) -> (next:
    RecycleStep)
    ensures
        next == recycle_step_after(done, outcome, state),
{
    match done {
        RecycleStep::Close => RecycleStep::Flush,
        RecycleStep::Flush | RecycleStep::Wait => {
            let finished = match outcome {
                Outcome::Finished => true,
                _ => false,
            };
            let closed = match state {
                SocketState::Closed | SocketState::TimeWait => true,
                _ => false,
            };
            if !finished {
                RecycleStep::Abort { orderly: false }
            } else if closed {
                RecycleStep::Abort { orderly: true }
            } else {
                RecycleStep::Wait
            }
        },
        RecycleStep::Abort { .. } => RecycleStep::FlushAbort,
        RecycleStep::FlushAbort => RecycleStep::Done,
        RecycleStep::Done => RecycleStep::Done,
    }
}

/// Step `i` is the one that follows the step before it.
pub open spec fn recycle_step_follows(
    steps: Seq<RecycleStep>,
    outcomes: Seq<Outcome>,
    states: Seq<SocketState>,
    i: int,
) -> bool {
    steps[i] == recycle_step_after(steps[i - 1], outcomes[i - 1], states[i - 1])
}

/// The steps that let go of a socket, with how each of them went.
pub open spec fn is_recycle_run(
    steps: Seq<RecycleStep>,
    outcomes: Seq<Outcome>,
    states: Seq<SocketState>,
) -> bool {
    &&& steps.len() == outcomes.len() == states.len()
    &&& steps.len() > 0 ==> steps[0] == RecycleStep::Close
    &&& forall|i: int|
        0 < i < steps.len() ==> #[trigger] recycle_step_follows(steps, outcomes, states, i)
}

/// How far letting go of a socket has come.
spec fn progress(step: RecycleStep) -> int {
    match step {
        RecycleStep::Close => 0,
        RecycleStep::Flush | RecycleStep::Wait => 1,
        RecycleStep::Abort { .. } => 2,
        RecycleStep::FlushAbort => 3,
        RecycleStep::Done => 4,
    }
}

/// Letting go of a socket never goes back, and closing and dropping are not repeated.
proof fn lemma_progress(
    steps: Seq<RecycleStep>,
    outcomes: Seq<Outcome>,
    states: Seq<SocketState>,
    earlier: int,
    later: int,
)
    requires
        is_recycle_run(steps, outcomes, states),
        0 <= earlier < later < steps.len(),
    ensures
        progress(steps[earlier]) <= progress(steps[later]),
        steps[earlier] is Close || steps[earlier] is Abort ==> progress(steps[earlier]) < progress(
            steps[later],
        ),
    decreases later,
{
    assert(recycle_step_follows(steps, outcomes, states, later));
    if earlier < later - 1 {
        lemma_progress(steps, outcomes, states, earlier, later - 1);
    }
}

/// The sending side is closed as the first step and never again.
pub proof fn socket_is_closed_once(
    steps: Seq<RecycleStep>,
    outcomes: Seq<Outcome>,
    states: Seq<SocketState>,
    closed: int,
)
    requires
        is_recycle_run(steps, outcomes, states),
        0 <= closed < steps.len(),
    ensures
        steps[closed] == RecycleStep::Close <==> closed == 0,
{
    if closed > 0 {
        lemma_progress(steps, outcomes, states, 0, closed);
    }
}

/// The connection is dropped at most once.
pub proof fn socket_is_aborted_at_most_once(
    steps: Seq<RecycleStep>,
    outcomes: Seq<Outcome>,
    states: Seq<SocketState>,
    one: int,
    other: int,
)
    requires
        is_recycle_run(steps, outcomes, states),
        0 <= one < steps.len(),
        0 <= other < steps.len(),
        steps[one] is Abort,
        steps[other] is Abort,
    ensures
        one == other,
{
    if one < other {
        lemma_progress(steps, outcomes, states, one, other);
    } else if other < one {
        lemma_progress(steps, outcomes, states, other, one);
    }
}

/// `aborted` is the one step of the run that drops the connection. The reset is given the time
/// to leave after it, and it was orderly exactly where both sides were seen closed before it.
pub open spec fn is_the_abort(
    steps: Seq<RecycleStep>,
    outcomes: Seq<Outcome>,
    states: Seq<SocketState>,
    aborted: int,
) -> bool {
    &&& steps[aborted] is Abort
    &&& steps[aborted + 1] == RecycleStep::FlushAbort
    &&& steps[aborted]->orderly == (outcomes[aborted - 1] == Outcome::Finished && is_closed(
        states[aborted - 1],
    ))
    &&& forall|i: int|
        0 <= i < steps.len() && i != aborted ==> !(#[trigger] steps[i] is Abort)
}

/// A socket can listen again only after its connection was dropped, once and for all, and the
/// reset was given the time to leave.
pub proof fn recycled_socket_was_aborted(
    steps: Seq<RecycleStep>,
    outcomes: Seq<Outcome>,
    states: Seq<SocketState>,
    done: int,
)
    requires
        is_recycle_run(steps, outcomes, states),
        0 <= done < steps.len(),
        steps[done] == RecycleStep::Done,
    ensures
        exists|aborted: int|
            0 < aborted < done - 1 && #[trigger] is_the_abort(steps, outcomes, states, aborted),
    decreases done,
{
    assert(recycle_step_follows(steps, outcomes, states, done));
    if steps[done - 1] == RecycleStep::Done {
        recycled_socket_was_aborted(steps, outcomes, states, done - 1);
    } else {
        assert(recycle_step_follows(steps, outcomes, states, done - 1));
        assert(recycle_step_follows(steps, outcomes, states, done - 2));
        let aborted = done - 2;
        assert forall|i: int| 0 <= i < steps.len() && i != aborted implies !(
        #[trigger] steps[i] is Abort) by {
            if steps[i] is Abort {
                socket_is_aborted_at_most_once(steps, outcomes, states, i, aborted);
            }
        }
        assert(is_the_abort(steps, outcomes, states, aborted));
    }
}

/// A worker takes its steps by threes. Every third one waits for a connection. Where there was one,
/// it is served and its socket recycled; where there was none, the socket is recycled and the
/// worker pauses. How the other steps went makes no difference.
pub proof fn worker_steps_come_in_threes(steps: Seq<WorkerStep>, succeeded: Seq<bool>, i: int)
    requires
        is_worker_run(steps, succeeded),
        0 <= i < steps.len(),
    ensures
        i % 3 == 0 ==> steps[i] == WorkerStep::Accept,
        i % 3 == 1 && succeeded[i - 1] ==> steps[i] == WorkerStep::Serve,
        i % 3 == 1 && !succeeded[i - 1] ==> steps[i] == (WorkerStep::Recycle { accepted: false }),
        i % 3 == 2 && succeeded[i - 2] ==> steps[i] == (WorkerStep::Recycle { accepted: true }),
        i % 3 == 2 && !succeeded[i - 2] ==> steps[i] == WorkerStep::Pause,
    decreases i,
{
    if i > 0 {
        assert(worker_step_follows(steps, succeeded, i));
        worker_steps_come_in_threes(steps, succeeded, i - 1);
    }
}

/// After step `j` of letting go of a socket, it still has to be waited for: the step finished, and
/// the connection is in neither of the two states in which both sides are closed.
pub open spec fn still_open_after(outcomes: Seq<Outcome>, states: Seq<SocketState>, j: int) -> bool {
    outcomes[j] == Outcome::Finished && states[j] != SocketState::Closed && states[j]
        != SocketState::TimeWait
}

/// Letting go of a socket begins with closing the sending side and waiting until all is sent, and
/// goes on with waiting as long as the connection is open and nothing went wrong. How closing the
/// sending side went makes no difference.
pub proof fn open_socket_is_waited_for(
    steps: Seq<RecycleStep>,
    outcomes: Seq<Outcome>,
    states: Seq<SocketState>,
    i: int,
)
    requires
        is_recycle_run(steps, outcomes, states),
        0 <= i < steps.len(),
        forall|j: int| 0 < j < i ==> #[trigger] still_open_after(outcomes, states, j),
    ensures
        i == 0 ==> steps[i] == RecycleStep::Close,
        i == 1 ==> steps[i] == RecycleStep::Flush,
        i >= 2 ==> steps[i] == RecycleStep::Wait,
    decreases i,
{
    if i > 0 {
        assert(recycle_step_follows(steps, outcomes, states, i));
        open_socket_is_waited_for(steps, outcomes, states, i - 1);
        if i > 1 {
            assert(still_open_after(outcomes, states, i - 1));
        }
    }
}

/// Right after the first step that did not finish, or that left the connection closed on both
/// sides, the connection is dropped: as an orderly one where that step finished, and otherwise not.
/// Then the reset is given the time to leave, and after that all is done for good. How the steps
/// from there on go makes no difference.
pub proof fn socket_is_dropped_at_the_first_end(
    steps: Seq<RecycleStep>,
    outcomes: Seq<Outcome>,
    states: Seq<SocketState>,
    end: int,
    i: int,
)
    requires
        is_recycle_run(steps, outcomes, states),
        0 < end < i < steps.len(),
        forall|j: int| 0 < j < end ==> #[trigger] still_open_after(outcomes, states, j),
        !still_open_after(outcomes, states, end),
    ensures
        i == end + 1 ==> steps[i] == (RecycleStep::Abort {
            orderly: outcomes[end] == Outcome::Finished,
        }),
        i == end + 2 ==> steps[i] == RecycleStep::FlushAbort,
        i > end + 2 ==> steps[i] == RecycleStep::Done,
    decreases i,
{
    assert(recycle_step_follows(steps, outcomes, states, i));
    if i == end + 1 {
        open_socket_is_waited_for(steps, outcomes, states, end);
    } else {
        socket_is_dropped_at_the_first_end(steps, outcomes, states, end, i - 1);
    }
}

} // verus!
