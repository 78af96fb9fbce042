use gander::connector::{step, tally, Action, Event, Outcome, Phase};
use gander::trust::VerifyOutcome;

#[test]
fn happy_path_collects_output_in_order() {
    let (p, a) = step(Phase::Connecting, Event::ConnectSucceeded);
    assert_eq!(p, Phase::CheckingHostKey);
    assert_eq!(a, Action::CheckHostKey);

    let (p, a) = step(p, Event::HostKeyChecked { decision: VerifyOutcome::Learned });
    assert_eq!(p, Phase::Authenticating);
    assert_eq!(a, Action::Authenticate);

    let (p, a) = step(p, Event::AuthAccepted);
    assert_eq!(p, Phase::Running { output: Vec::new() });
    assert_eq!(a, Action::RunCommand);

    let (p, a) = step(p, Event::Data { chunk: b"Hello ".to_vec() });
    assert_eq!(a, Action::AwaitEvent);
    let (p, a) = step(p, Event::Data { chunk: b"World".to_vec() });
    assert_eq!(a, Action::AwaitEvent);

    let (p, a) = step(p, Event::Closed);
    assert_eq!(a, Action::Report);
    assert_eq!(
        p,
        Phase::Done { outcome: Outcome::Success { output: b"Hello World".to_vec() } }
    );
}

#[test]
fn trusted_identity_also_proceeds_to_auth() {
    let (p, _) = step(Phase::CheckingHostKey, Event::HostKeyChecked {
        decision: VerifyOutcome::Trusted,
    });
    assert_eq!(p, Phase::Authenticating);
}

#[test]
fn connect_timeout_is_connect_failure() {
    let (p, a) = step(Phase::Connecting, Event::ConnectTimedOut);
    assert_eq!(p, Phase::Done { outcome: Outcome::ConnectFailure });
    assert_eq!(a, Action::Report);
}

#[test]
fn connect_refusal_is_connect_failure() {
    let (p, _) = step(Phase::Connecting, Event::ConnectRefused);
    assert_eq!(p, Phase::Done { outcome: Outcome::ConnectFailure });
}

#[test]
fn host_key_mismatch_aborts_before_auth() {
    let (p, a) = step(Phase::CheckingHostKey, Event::HostKeyChecked {
        decision: VerifyOutcome::Mismatch,
    });
    assert_eq!(p, Phase::Done { outcome: Outcome::HostKeyMismatch });
    assert_eq!(a, Action::Report);
}

#[test]
fn rejected_credential_is_auth_failure() {
    let (p, _) = step(Phase::Authenticating, Event::AuthRejected);
    assert_eq!(p, Phase::Done { outcome: Outcome::AuthFailure });
}

#[test]
fn relay_failure_is_agent_failure_in_both_phases() {
    let (p, _) = step(Phase::Authenticating, Event::AgentFailed);
    assert_eq!(p, Phase::Done { outcome: Outcome::AgentFailure });

    let (p, _) = step(Phase::Running { output: b"partial".to_vec() }, Event::AgentFailed);
    assert_eq!(p, Phase::Done { outcome: Outcome::AgentFailure });
}

#[test]
fn protocol_error_folds_into_connection_failure() {
    let (p, _) = step(Phase::Running { output: Vec::new() }, Event::ProtocolError);
    assert_eq!(p, Phase::Done { outcome: Outcome::ConnectFailure });
}

#[test]
fn unrelated_event_leaves_phase_alone() {
    let (p, a) = step(Phase::Connecting, Event::Closed);
    assert_eq!(p, Phase::Connecting);
    assert_eq!(a, Action::AwaitEvent);

    let done = Phase::Done { outcome: Outcome::ConnectFailure };
    let (p, a) = step(done, Event::AuthAccepted);
    assert_eq!(p, Phase::Done { outcome: Outcome::ConnectFailure });
    assert_eq!(a, Action::Report);
}

#[test]
fn one_unreachable_host_among_three_tallies_independently_of_order() {
    // Three hosts: one times out, two succeed. Whatever order the parallel
    // attempts finish in, the tally is two successes and one connect failure.
    let first = vec![
        Outcome::Success { output: b"a".to_vec() },
        Outcome::ConnectFailure,
        Outcome::Success { output: b"b".to_vec() },
    ];
    let second = vec![
        Outcome::ConnectFailure,
        Outcome::Success { output: b"b".to_vec() },
        Outcome::Success { output: b"a".to_vec() },
    ];
    let t1 = tally(&first);
    let t2 = tally(&second);
    assert_eq!(t1.success, 2);
    assert_eq!(t1.connect_failure, 1);
    assert_eq!(t1.auth_failure, 0);
    assert_eq!(t1.host_key_mismatch, 0);
    assert_eq!(t1.agent_failure, 0);
    assert_eq!(t1, t2);
}

#[test]
fn tally_of_no_outcomes_is_zero() {
    let t = tally(&Vec::new());
    assert_eq!(t.success, 0);
    assert_eq!(t.connect_failure, 0);
    assert_eq!(t.auth_failure, 0);
    assert_eq!(t.host_key_mismatch, 0);
    assert_eq!(t.agent_failure, 0);
}

#[test]
fn every_failure_kind_is_distinguished() {
    let outcomes = vec![
        Outcome::ConnectFailure,
        Outcome::AuthFailure,
        Outcome::HostKeyMismatch,
        Outcome::AgentFailure,
        Outcome::Success { output: Vec::new() },
    ];
    let t = tally(&outcomes);
    assert_eq!(t.connect_failure, 1);
    assert_eq!(t.auth_failure, 1);
    assert_eq!(t.host_key_mismatch, 1);
    assert_eq!(t.agent_failure, 1);
    assert_eq!(t.success, 1);
}
