use electrolyzer_modbus::device::{IoErrorKind, ModbusError};
use electrolyzer_modbus::poll::{next_backoff, poll_step, BackoffConfig, PollAction, PollEvent, PollState};

const CONFIG: BackoffConfig = BackoffConfig { initial_ms: 500, multiplier: 2, max_ms: 5000 };

#[test]
fn reconnects_with_growing_delays_then_resumes() {
    let lost = ModbusError::IOerror(IoErrorKind::ConnectionReset);
    let (mut state, action) = poll_step(&CONFIG, PollState::Connected, PollEvent::DumpFailed(lost));
    assert_eq!(action, PollAction::Reconnect { after_ms: 0 });
    let mut waits = Vec::new();
    for _ in 0..5 {
        let (s, a) = poll_step(&CONFIG, state, PollEvent::ReconnectFailed);
        match a {
            PollAction::Reconnect { after_ms } => waits.push(after_ms),
            other => panic!("unexpected {other:?}"),
        }
        state = s;
    }
    assert_eq!(waits, vec![500, 1000, 2000, 4000, 5000]);
    let (state, action) = poll_step(&CONFIG, state, PollEvent::ReconnectSucceeded);
    assert_eq!((state, action), (PollState::Connected, PollAction::Dump));
    let (state, action) = poll_step(&CONFIG, state, PollEvent::DumpSucceeded);
    assert_eq!((state, action), (PollState::Connected, PollAction::Forward));
}

#[test]
fn other_failures_skip_the_cycle() {
    for e in [ModbusError::Exception(2), ModbusError::Protocol, ModbusError::IOerror(IoErrorKind::Other)] {
        let r = poll_step(&CONFIG, PollState::Connected, PollEvent::DumpFailed(e));
        assert_eq!(r, (PollState::Connected, PollAction::Dump));
    }
}

#[test]
fn broken_pipe_starts_reconnecting() {
    let lost = ModbusError::IOerror(IoErrorKind::BrokenPipe);
    let r = poll_step(&CONFIG, PollState::Connected, PollEvent::DumpFailed(lost));
    assert_eq!(r, (PollState::Reconnecting { delay_ms: 500 }, PollAction::Reconnect { after_ms: 0 }));
}

#[test]
fn backoff_is_capped_without_overflow() {
    assert_eq!(next_backoff(&CONFIG, 1000), 2000);
    assert_eq!(next_backoff(&CONFIG, 4000), 5000);
    let huge = BackoffConfig { initial_ms: 1, multiplier: u64::MAX, max_ms: u64::MAX };
    assert_eq!(next_backoff(&huge, u64::MAX), u64::MAX);
}
