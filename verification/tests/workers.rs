use relay_board_five_chn::api as strict;
use relay_board_five_chn::api::WorkerStep::{Accept, Close, Serve};
use relay_board_five_chn::tasks::worker::{
    http_server_task, recycle_socket, Outcome, RecycleStep, SocketState, WorkerStep,
};

#[test]
fn connection_is_accepted_served_and_recycled() {
    let mut step = WorkerStep::Accept;
    let mut steps = Vec::new();
    for succeeded in [true, false, true, false, true, true, true] {
        steps.push(step);
        step = http_server_task(step, succeeded);
    }
    assert_eq!(
        steps,
        vec![
            WorkerStep::Accept,
            WorkerStep::Serve,
            WorkerStep::Recycle { accepted: true },
            WorkerStep::Accept,
            WorkerStep::Recycle { accepted: false },
            WorkerStep::Pause,
            WorkerStep::Accept,
        ]
    );
}

#[test]
fn orderly_close_waits_for_both_sides() {
    let mut step = RecycleStep::Close;
    let mut steps = Vec::new();
    for state in [
        SocketState::FinWait1,
        SocketState::FinWait2,
        SocketState::FinWait2,
        SocketState::TimeWait,
        SocketState::Closed,
        SocketState::Closed,
    ] {
        steps.push(step);
        step = recycle_socket(step, Outcome::Finished, state);
    }
    assert_eq!(
        steps,
        vec![
            RecycleStep::Close,
            RecycleStep::Flush,
            RecycleStep::Wait,
            RecycleStep::Wait,
            RecycleStep::Abort { orderly: true },
            RecycleStep::FlushAbort,
        ]
    );
    assert_eq!(step, RecycleStep::Done);
    assert_eq!(recycle_socket(step, Outcome::Finished, SocketState::Closed), RecycleStep::Done);
}

#[test]
fn failed_or_slow_close_is_aborted() {
    let aborted = RecycleStep::Abort { orderly: false };
    for outcome in [Outcome::Failed, Outcome::TimedOut] {
        for state in [SocketState::Closed, SocketState::FinWait2] {
            assert_eq!(recycle_socket(RecycleStep::Flush, outcome, state), aborted);
            assert_eq!(recycle_socket(RecycleStep::Wait, outcome, state), aborted);
            assert_eq!(recycle_socket(aborted, outcome, state), RecycleStep::FlushAbort);
            assert_eq!(recycle_socket(RecycleStep::FlushAbort, outcome, state), RecycleStep::Done);
        }
    }
}

#[test]
fn closing_goes_on_in_every_open_state() {
    for state in [
        SocketState::Listen,
        SocketState::SynSent,
        SocketState::SynReceived,
        SocketState::Established,
        SocketState::FinWait1,
        SocketState::FinWait2,
        SocketState::CloseWait,
        SocketState::Closing,
        SocketState::LastAck,
    ] {
        assert_eq!(recycle_socket(RecycleStep::Flush, Outcome::Finished, state), RecycleStep::Wait);
    }
    assert_eq!(
        recycle_socket(RecycleStep::Flush, Outcome::Finished, SocketState::Closed),
        RecycleStep::Abort { orderly: true }
    );
}

#[test]
fn strict_worker_closes_what_it_served() {
    assert_eq!(strict::http_server_task(Accept, false), Accept);
    assert_eq!(strict::http_server_task(Accept, true), Serve);
    assert_eq!(strict::http_server_task(Serve, false), Close);
    assert_eq!(strict::http_server_task(Serve, true), Close);
    assert_eq!(strict::http_server_task(Close, true), Accept);
}
