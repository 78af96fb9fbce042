//! Per-host session logic of the fleet connector.
//!
//! One session is run for every host of the inventory, all in parallel and
//! fully independent of each other. The session itself is a small state
//! machine: each network event is folded into the current phase by `step`,
//! and every host ends in exactly one terminal outcome. The surrounding
//! program performs the network actions that `step` requests and feeds the
//! observed events back in.

use vstd::prelude::*;

use crate::trust::VerifyOutcome;

verus! {

/// The connect-phase timeout, in seconds, used when the caller names none.
pub const DEFAULT_CONNECT_TIMEOUT_SECS: u64 = 5;

/// The terminal result of one connection-and-execution attempt.
#[derive(Debug, PartialEq, Eq)]
pub enum Outcome {
    /// The command ran to completion; `output` is the collected channel data.
    Success { output: Vec<u8> },
    /// The TCP or session establishment timed out or was refused.
    ConnectFailure,
    /// The remote host rejected the administrator credential.
    AuthFailure,
    /// The presented server identity differs from the stored trust record.
    HostKeyMismatch,
    /// The credential relay could not produce a signature.
    AgentFailure,
}

/// Mathematical model of an outcome.
pub ghost enum OutcomeView {
    Success { output: Seq<u8> },
    ConnectFailure,
    AuthFailure,
    HostKeyMismatch,
    AgentFailure,
}

impl View for Outcome {
    type V = OutcomeView;

    open spec fn view(&self) -> OutcomeView {
        match self {
            Outcome::Success { output } => OutcomeView::Success { output: output@ },
            Outcome::ConnectFailure => OutcomeView::ConnectFailure,
            Outcome::AuthFailure => OutcomeView::AuthFailure,
            Outcome::HostKeyMismatch => OutcomeView::HostKeyMismatch,
            Outcome::AgentFailure => OutcomeView::AgentFailure,
        }
    }
}

/// Where one host's session currently stands.
#[derive(Debug, PartialEq, Eq)]
pub enum Phase {
    /// Establishing the TCP connection, bounded by the connect timeout.
    Connecting,
    /// Connected; the presented server identity is being checked against the
    /// trust store.
    CheckingHostKey,
    /// Identity accepted; authenticating through the credential relay.
    Authenticating,
    /// Authenticated; the command runs and its output is being collected.
    Running { output: Vec<u8> },
    /// The session is over; `outcome` is this host's result.
    Done { outcome: Outcome },
}

/// Mathematical model of a phase.
pub ghost enum PhaseView {
    Connecting,
    CheckingHostKey,
    Authenticating,
    Running { output: Seq<u8> },
    Done { outcome: OutcomeView },
}

impl View for Phase {
    type V = PhaseView;

    open spec fn view(&self) -> PhaseView {
        match self {
            Phase::Connecting => PhaseView::Connecting,
            Phase::CheckingHostKey => PhaseView::CheckingHostKey,
            Phase::Authenticating => PhaseView::Authenticating,
            Phase::Running { output } => PhaseView::Running { output: output@ },
            Phase::Done { outcome } => PhaseView::Done { outcome: outcome@ },
        }
    }
}

/// One observed event of a session.
#[derive(Debug)]
pub enum Event {
    /// The TCP connection was established within the timeout.
    ConnectSucceeded,
    /// The connect timeout elapsed first.
    ConnectTimedOut,
    /// The connection was refused or the host was unreachable.
    ConnectRefused,
    /// The trust store decided on the presented server identity.
    HostKeyChecked { decision: VerifyOutcome },
    /// The remote host accepted the credential.
    AuthAccepted,
    /// The remote host rejected the credential.
    AuthRejected,
    /// The credential relay failed to produce a signature.
    AgentFailed,
    /// The command channel delivered a chunk of output.
    Data { chunk: Vec<u8> },
    /// The command channel reported completion.
    Closed,
    /// A protocol-level failure not attributable to the relay.
    ProtocolError,
}

/// Mathematical model of an event.
pub ghost enum EventView {
    ConnectSucceeded,
    ConnectTimedOut,
    ConnectRefused,
    HostKeyChecked { decision: VerifyOutcome },
    AuthAccepted,
    AuthRejected,
    AgentFailed,
    Data { chunk: Seq<u8> },
    Closed,
    ProtocolError,
}

impl View for Event {
    type V = EventView;

    open spec fn view(&self) -> EventView {
        match self {
            Event::ConnectSucceeded => EventView::ConnectSucceeded,
            Event::ConnectTimedOut => EventView::ConnectTimedOut,
            Event::ConnectRefused => EventView::ConnectRefused,
            Event::HostKeyChecked { decision } => EventView::HostKeyChecked {
                decision: *decision,
            },
            Event::AuthAccepted => EventView::AuthAccepted,
            Event::AuthRejected => EventView::AuthRejected,
            Event::AgentFailed => EventView::AgentFailed,
            Event::Data { chunk } => EventView::Data { chunk: chunk@ },
            Event::Closed => EventView::Closed,
            Event::ProtocolError => EventView::ProtocolError,
        }
    }
}

/// What the driver of a session must do next.
#[derive(Clone, Copy, PartialEq, Eq, Structural, Debug)]
pub enum Action {
    /// Ask the trust store to check the presented server identity.
    CheckHostKey,
    /// Authenticate through a fresh credential-relay channel.
    Authenticate,
    /// Open a command channel and run the target command.
    RunCommand,
    /// Keep waiting for the next event of the current phase.
    AwaitEvent,
    /// The session is over; report the outcome.
    Report,
}

/// The transition relation of one session. An event that does not belong to
/// the current phase leaves the phase unchanged.
pub open spec fn spec_step(p: PhaseView, e: EventView) -> (PhaseView, Action) {
    match (p, e) {
        (PhaseView::Connecting, EventView::ConnectSucceeded) => (
            PhaseView::CheckingHostKey,
            Action::CheckHostKey,
        ),
        (PhaseView::Connecting, EventView::ConnectTimedOut) => (
            PhaseView::Done { outcome: OutcomeView::ConnectFailure },
            Action::Report,
        ),
        (PhaseView::Connecting, EventView::ConnectRefused) => (
            PhaseView::Done { outcome: OutcomeView::ConnectFailure },
            Action::Report,
        ),
        (PhaseView::CheckingHostKey, EventView::HostKeyChecked { decision }) => if decision
            == VerifyOutcome::Mismatch {
            (PhaseView::Done { outcome: OutcomeView::HostKeyMismatch }, Action::Report)
        } else {
            (PhaseView::Authenticating, Action::Authenticate)
        },
        (PhaseView::Authenticating, EventView::AuthAccepted) => (
            PhaseView::Running { output: Seq::empty() },
            Action::RunCommand,
        ),
        (PhaseView::Authenticating, EventView::AuthRejected) => (
            PhaseView::Done { outcome: OutcomeView::AuthFailure },
            Action::Report,
        ),
        (PhaseView::Authenticating, EventView::AgentFailed) => (
            PhaseView::Done { outcome: OutcomeView::AgentFailure },
            Action::Report,
        ),
        (PhaseView::Running { output }, EventView::Data { chunk }) => (
            PhaseView::Running { output: output + chunk },
            Action::AwaitEvent,
        ),
        (PhaseView::Running { output }, EventView::Closed) => (
            PhaseView::Done { outcome: OutcomeView::Success { output } },
            Action::Report,
        ),
        (PhaseView::Running { output }, EventView::AgentFailed) => (
            PhaseView::Done { outcome: OutcomeView::AgentFailure },
            Action::Report,
        ),
        (PhaseView::Running { output }, EventView::ProtocolError) => (
            PhaseView::Done { outcome: OutcomeView::ConnectFailure },
            Action::Report,
        ),
        (p0, _) => (p0, if p0 is Done { Action::Report } else { Action::AwaitEvent }),
    }
}

/// Fold one event into the session, returning the next phase and the action
/// the driver must take. Behaves exactly as `spec_step` on the models.
pub fn step(p: Phase, e: Event) -> (r: (Phase, Action))
    ensures
        r.0@ == spec_step(p@, e@).0,
        r.1 == spec_step(p@, e@).1,
{
    match (p, e) {
        (Phase::Connecting, Event::ConnectSucceeded) => (
            Phase::CheckingHostKey,
            Action::CheckHostKey,
        ),
        (Phase::Connecting, Event::ConnectTimedOut) => (
            Phase::Done { outcome: Outcome::ConnectFailure },
            Action::Report,
        ),
        (Phase::Connecting, Event::ConnectRefused) => (
            Phase::Done { outcome: Outcome::ConnectFailure },
            Action::Report,
        ),
        (Phase::CheckingHostKey, Event::HostKeyChecked { decision }) => match decision {
            VerifyOutcome::Mismatch => (
                Phase::Done { outcome: Outcome::HostKeyMismatch },
                Action::Report,
            ),
            VerifyOutcome::Trusted | VerifyOutcome::Learned => (
                Phase::Authenticating,
                Action::Authenticate,
            ),
        },
        (Phase::Authenticating, Event::AuthAccepted) => (
            Phase::Running { output: Vec::new() },
            Action::RunCommand,
        ),
        (Phase::Authenticating, Event::AuthRejected) => (
            Phase::Done { outcome: Outcome::AuthFailure },
            Action::Report,
        ),
        (Phase::Authenticating, Event::AgentFailed) => (
            Phase::Done { outcome: Outcome::AgentFailure },
            Action::Report,
        ),
        (Phase::Running { output }, Event::Data { chunk }) => {
            let mut output = output;
            let mut chunk = chunk;
            output.append(&mut chunk);
            (Phase::Running { output }, Action::AwaitEvent)
        },
        (Phase::Running { output }, Event::Closed) => (
            Phase::Done { outcome: Outcome::Success { output } },
            Action::Report,
        ),
        (Phase::Running { output: _ }, Event::AgentFailed) => (
            Phase::Done { outcome: Outcome::AgentFailure },
            Action::Report,
        ),
        (Phase::Running { output: _ }, Event::ProtocolError) => (
            Phase::Done { outcome: Outcome::ConnectFailure },
            Action::Report,
        ),
        (p0, _) => {
            let act = match &p0 {
                Phase::Done { outcome: _ } => Action::Report,
                _ => Action::AwaitEvent,
            };
            (p0, act)
        },
    }
}

/// The kind of an outcome, without its payload.
#[derive(Clone, Copy, PartialEq, Eq, Structural, Debug)]
pub enum OutcomeKind {
    Success,
    ConnectFailure,
    AuthFailure,
    HostKeyMismatch,
    AgentFailure,
}

/// Which kind an outcome is of.
pub open spec fn kind_of(o: OutcomeView) -> OutcomeKind {
    match o {
        OutcomeView::Success { output: _ } => OutcomeKind::Success,
        OutcomeView::ConnectFailure => OutcomeKind::ConnectFailure,
        OutcomeView::AuthFailure => OutcomeKind::AuthFailure,
        OutcomeView::HostKeyMismatch => OutcomeKind::HostKeyMismatch,
        OutcomeView::AgentFailure => OutcomeKind::AgentFailure,
    }
}

impl Outcome {
    /// The kind of this outcome.
    pub fn kind(&self) -> (k: OutcomeKind)
        ensures
            k == kind_of(self@),
    {
        match self {
            Outcome::Success { output: _ } => OutcomeKind::Success,
            Outcome::ConnectFailure => OutcomeKind::ConnectFailure,
            Outcome::AuthFailure => OutcomeKind::AuthFailure,
            Outcome::HostKeyMismatch => OutcomeKind::HostKeyMismatch,
            Outcome::AgentFailure => OutcomeKind::AgentFailure,
        }
    }
}

/// Views of a run's outcomes.
pub open spec fn outcome_views(s: Seq<Outcome>) -> Seq<OutcomeView> {
    s.map_values(|o: Outcome| o@)
}

/// How many outcomes of a sequence are of the given kind.
pub open spec fn count_kind(s: Seq<OutcomeView>, k: OutcomeKind) -> nat
    decreases s.len(),
{
    if s.len() == 0 {
        0
    } else {
        count_kind(s.drop_last(), k) + if kind_of(s.last()) == k {
            1nat
        } else {
            0nat
        }
    }
}

/// The aggregated result of one fleet run: how many hosts ended in each kind
/// of outcome.
#[derive(Debug, PartialEq, Eq)]
pub struct Tally {
    pub success: usize,
    pub connect_failure: usize,
    pub auth_failure: usize,
    pub host_key_mismatch: usize,
    pub agent_failure: usize,
}

/// Count each kind of outcome over a whole run's results.
#[verifier::loop_isolation(false)]
pub fn tally(outcomes: &Vec<Outcome>) -> (t: Tally)
    ensures
        t.success == count_kind(outcome_views(outcomes@), OutcomeKind::Success),
        t.connect_failure == count_kind(outcome_views(outcomes@), OutcomeKind::ConnectFailure),
        t.auth_failure == count_kind(outcome_views(outcomes@), OutcomeKind::AuthFailure),
        t.host_key_mismatch == count_kind(outcome_views(outcomes@), OutcomeKind::HostKeyMismatch),
        t.agent_failure == count_kind(outcome_views(outcomes@), OutcomeKind::AgentFailure),
{
    let ghost ov = outcome_views(outcomes@);
    let mut success: usize = 0;
    let mut connect_failure: usize = 0;
    let mut auth_failure: usize = 0;
    let mut host_key_mismatch: usize = 0;
    let mut agent_failure: usize = 0;
    let mut i: usize = 0;
    while i < outcomes.len()
        invariant
            i <= outcomes.len(),
            success == count_kind(ov.take(i as int), OutcomeKind::Success),
            connect_failure == count_kind(ov.take(i as int), OutcomeKind::ConnectFailure),
            auth_failure == count_kind(ov.take(i as int), OutcomeKind::AuthFailure),
            host_key_mismatch == count_kind(ov.take(i as int), OutcomeKind::HostKeyMismatch),
            agent_failure == count_kind(ov.take(i as int), OutcomeKind::AgentFailure),
            success <= i && connect_failure <= i && auth_failure <= i && host_key_mismatch <= i
                && agent_failure <= i,
        decreases outcomes.len() - i,
    {
        proof {
            assert(ov.take(i as int + 1).drop_last() =~= ov.take(i as int));
            assert(ov.take(i as int + 1).last() == ov[i as int]);
            assert(ov[i as int] == outcomes@[i as int]@);
        }
        match outcomes[i].kind() {
            OutcomeKind::Success => success += 1,
            OutcomeKind::ConnectFailure => connect_failure += 1,
            OutcomeKind::AuthFailure => auth_failure += 1,
            OutcomeKind::HostKeyMismatch => host_key_mismatch += 1,
            OutcomeKind::AgentFailure => agent_failure += 1,
        }
        i += 1;
    }
    proof {
        assert(ov.take(outcomes.len() as int) =~= ov);
    }
    Tally { success, connect_failure, auth_failure, host_key_mismatch, agent_failure }
}

/// Removing one outcome lowers its kind's count by one and no other.
proof fn lemma_count_kind_remove(s: Seq<OutcomeView>, k: OutcomeKind, j: int)
    requires
        0 <= j < s.len(),
    ensures
        count_kind(s, k) == count_kind(s.remove(j), k) + if kind_of(s[j]) == k {
            1nat
        } else {
            0nat
        },
    decreases s.len(),
{
    if j == s.len() - 1 {
        assert(s.remove(j) =~= s.drop_last());
    } else {
        let sub = s.drop_last();
        lemma_count_kind_remove(sub, k, j);
        assert(s.remove(j).drop_last() =~= sub.remove(j));
        assert(s.remove(j).last() == s.last());
        assert(sub[j] == s[j]);
    }
}

/// Per-kind counts do not depend on the order in which the hosts completed:
/// any two orderings of the same outcomes tally alike.
pub proof fn lemma_tally_order_independent(
    a: Seq<OutcomeView>,
    b: Seq<OutcomeView>,
    k: OutcomeKind,
)
    requires
        a.to_multiset() == b.to_multiset(),
    ensures
        count_kind(a, k) == count_kind(b, k),
    decreases a.len(),
{
    a.to_multiset_ensures();
    b.to_multiset_ensures();
    if a.len() == 0 {
        assert(b.to_multiset().len() == 0);
        assert(b.len() == 0);
    } else {
        let x = a.last();
        assert(a.contains(x));
        assert(b.to_multiset().count(x) > 0);
        assert(b.contains(x));
        let j = choose|j: int| 0 <= j < b.len() && b[j] == x;
        lemma_count_kind_remove(b, k, j);
        assert(a.drop_last() =~= a.remove(a.len() - 1));
        assert(a.remove(a.len() - 1).to_multiset() =~= a.to_multiset().remove(x));
        assert(b.remove(j).to_multiset() =~= b.to_multiset().remove(x));
        assert(a.drop_last().to_multiset() == b.remove(j).to_multiset());
        lemma_tally_order_independent(a.drop_last(), b.remove(j), k);
    }
}

} // verus!
