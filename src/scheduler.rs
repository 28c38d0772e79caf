use vstd::prelude::*;

use crate::ids::{
    lemma_lex_lt_irreflexive, lemma_lex_lt_total, lemma_lex_lt_transitive, lex_lt, PeerId, Topic, TopicModel,
};

verus! {

/// Which side opened the session.
#[derive(Clone, Copy, Debug, PartialEq, Eq, Structural)]
pub enum Direction {
    Initiator,
    Acceptor,
}

/// Lifecycle of a sync session. `Done` and `Failed` are terminal.
#[derive(Clone, Copy, Debug, PartialEq, Eq, Structural)]
pub enum SessionState {
    Pending,
    Handshaking,
    Transferring,
    Draining,
    Done,
    Failed,
}

/// Why a session failed.
#[derive(Clone, Copy, Debug, PartialEq, Eq, Structural)]
pub enum SyncFailure {
    /// Dialing, accepting or a stream failed.
    Transport,
    /// The remote agreed on the overlay but named another topic.
    TopicMismatch,
    /// The protocol reported an error or broke the session's order of events.
    Protocol,
    /// No progress within the session timeout.
    Timeout,
    /// Another session for the same peer and topic is in flight.
    AlreadyActive,
    /// The topic was unsubscribed or the engine shut down.
    Cancelled,
}

/// What the transport or the protocol reports on a running session.
#[derive(Clone, Copy, Debug, PartialEq, Eq, Structural)]
pub enum SessionEvent {
    /// The stream to the peer is open.
    Connected,
    /// The protocol emitted a message for the application.
    Data,
    /// The protocol signalled the end of its stream.
    EndOfStream,
    /// The protocol side flushed its sinks.
    Finalised,
    /// The session broke.
    Failed(SyncFailure),
}

/// Re-run policy for finished sessions.
#[derive(Clone, Copy, Debug, PartialEq, Eq, Structural)]
pub struct ResyncConfiguration {
    pub interval: u64,
    pub max_attempts: u32,
}

#[derive(Clone, Debug, PartialEq, Eq)]
pub struct SyncSession {
    pub id: u64,
    pub peer: PeerId,
    pub topic: Option<Topic>,
    pub direction: Direction,
    pub state: SessionState,
    pub started_at: u64,
    pub attempt: u32,
}

pub struct SessionModel {
    pub id: u64,
    pub peer: Seq<u8>,
    pub topic: Option<TopicModel>,
    pub direction: Direction,
    pub state: SessionState,
    pub started_at: u64,
    pub attempt: u32,
}

pub open spec fn topic_view(t: Option<Topic>) -> Option<TopicModel> {
    match t {
        Some(x) => Some(x@),
        None => None,
    }
}

impl View for SyncSession {
    type V = SessionModel;

    open spec fn view(&self) -> SessionModel {
        SessionModel {
            id: self.id,
            peer: self.peer@,
            topic: topic_view(self.topic),
            direction: self.direction,
            state: self.state,
            started_at: self.started_at,
            attempt: self.attempt,
        }
    }
}

/// Past sessions of one peer and topic.
pub struct History {
    pub peer: PeerId,
    pub topic: Topic,
    pub attempts: u32,
    pub last_end: u64,
    pub last_failure: Option<SyncFailure>,
}

pub struct HistoryModel {
    pub peer: Seq<u8>,
    pub topic: TopicModel,
    pub attempts: u32,
    pub last_end: u64,
    pub last_failure: Option<SyncFailure>,
}

impl View for History {
    type V = HistoryModel;

    open spec fn view(&self) -> HistoryModel {
        HistoryModel {
            peer: self.peer@,
            topic: self.topic@,
            attempts: self.attempts,
            last_end: self.last_end,
            last_failure: self.last_failure,
        }
    }
}

/// A session that reached a terminal state and left the table.
#[derive(Debug, PartialEq, Eq)]
pub struct SessionEnd {
    pub session: SyncSession,
    pub result: Result<(), SyncFailure>,
}

pub struct SessionEndModel {
    pub session: SessionModel,
    pub result: Result<(), SyncFailure>,
}

impl View for SessionEnd {
    type V = SessionEndModel;

    open spec fn view(&self) -> SessionEndModel {
        SessionEndModel { session: self.session@, result: self.result }
    }
}

/// What follows an event on a session.
pub enum StepOutcome {
    /// The session goes on.
    Continue,
    /// The session goes on, and the message it carried goes to the topic's subscription.
    Deliver,
    /// The session is over.
    Ended(SessionEnd),
}

pub enum StepModel {
    Continue,
    Deliver,
    Ended(SessionEndModel),
}

impl View for StepOutcome {
    type V = StepModel;

    open spec fn view(&self) -> StepModel {
        match self {
            StepOutcome::Continue => StepModel::Continue,
            StepOutcome::Deliver => StepModel::Deliver,
            StepOutcome::Ended(e) => StepModel::Ended(e@),
        }
    }
}

pub struct SchedulerModel {
    pub sessions: Seq<SessionModel>,
    pub history: Seq<HistoryModel>,
    pub next_id: u64,
}

pub open spec fn is_terminal(s: SessionState) -> bool {
    s == SessionState::Done || s == SessionState::Failed
}

/// Whether session `s` is in flight for `peer` and `topic`.
pub open spec fn in_flight_for(s: SessionModel, peer: Seq<u8>, topic: TopicModel) -> bool {
    !is_terminal(s.state) && s.peer == peer && s.topic == Some(topic)
}

/// No two sessions in flight share a peer and a topic.
pub open spec fn no_duplicate_in_flight(ss: Seq<SessionModel>) -> bool {
    forall|i: int, j: int|
        #![trigger ss[i], ss[j]]
        0 <= i < ss.len() && 0 <= j < ss.len() && i != j && !is_terminal(ss[i].state)
            && !is_terminal(ss[j].state) && ss[i].topic is Some ==> !(ss[i].peer == ss[j].peer
            && ss[i].topic == ss[j].topic)
}

pub open spec fn scheduler_wf(m: SchedulerModel) -> bool {
    &&& no_duplicate_in_flight(m.sessions)
    &&& forall|i: int|
        #![trigger m.sessions[i]]
        0 <= i < m.sessions.len() ==> !is_terminal(m.sessions[i].state) && m.sessions[i].id
            < m.next_id && (m.sessions[i].direction == Direction::Initiator
            ==> m.sessions[i].topic is Some) && (m.sessions[i].topic is None ==> (
        m.sessions[i].state == SessionState::Pending || m.sessions[i].state
            == SessionState::Handshaking)) && (m.sessions[i].direction == Direction::Acceptor && (
        m.sessions[i].state == SessionState::Pending || m.sessions[i].state
            == SessionState::Handshaking) ==> m.sessions[i].topic is None)
    &&& forall|i: int, j: int|
        #![trigger m.sessions[i], m.sessions[j]]
        0 <= i < m.sessions.len() && 0 <= j < m.sessions.len() && i != j ==> m.sessions[i].id
            != m.sessions[j].id
    &&& forall|i: int, j: int|
        #![trigger m.history[i], m.history[j]]
        0 <= i < m.history.len() && 0 <= j < m.history.len() && i != j ==> !(m.history[i].peer
            == m.history[j].peer && m.history[i].topic == m.history[j].topic)
}

pub open spec fn has_in_flight(ss: Seq<SessionModel>, peer: Seq<u8>, topic: TopicModel) -> bool {
    exists|i: int| 0 <= i < ss.len() && #[trigger] in_flight_for(ss[i], peer, topic)
}

pub open spec fn has_session(ss: Seq<SessionModel>, id: u64) -> bool {
    exists|i: int| 0 <= i < ss.len() && ss[i].id == id
}

pub open spec fn session_slot(ss: Seq<SessionModel>, id: u64) -> int {
    choose|i: int| 0 <= i < ss.len() && ss[i].id == id
}

pub open spec fn has_history(h: Seq<HistoryModel>, peer: Seq<u8>, topic: TopicModel) -> bool {
    exists|i: int| 0 <= i < h.len() && h[i].peer == peer && h[i].topic == topic
}

pub open spec fn history_slot(h: Seq<HistoryModel>, peer: Seq<u8>, topic: TopicModel) -> int {
    choose|i: int| 0 <= i < h.len() && h[i].peer == peer && h[i].topic == topic
}

/// Number of earlier sessions of `peer` and `topic`.
pub open spec fn attempts_of(h: Seq<HistoryModel>, peer: Seq<u8>, topic: TopicModel) -> u32 {
    if has_history(h, peer, topic) {
        h[history_slot(h, peer, topic)].attempts
    } else {
        0
    }
}

/// Whether a session of `peer` and `topic` may start at `now`: never tried before; or
/// re-runs are configured, the last one did not end in a topic mismatch, fewer than
/// `max_attempts` ran, and `interval` has passed since the last one ended.
pub open spec fn spec_may_start(
    h: Seq<HistoryModel>,
    peer: Seq<u8>,
    topic: TopicModel,
    resync: Option<ResyncConfiguration>,
    now: u64,
) -> bool {
    if !has_history(h, peer, topic) {
        true
    } else {
        let e = h[history_slot(h, peer, topic)];
        match resync {
            None => false,
            Some(c) => e.last_failure != Some(SyncFailure::TopicMismatch) && e.attempts
                < c.max_attempts && e.last_end + c.interval <= now,
        }
    }
}

/// State after `ev`, from `s`; any event out of order fails the session.
pub open spec fn next_state(s: SessionState, ev: SessionEvent) -> SessionState {
    match ev {
        SessionEvent::Connected => if s == SessionState::Pending {
            SessionState::Handshaking
        } else {
            SessionState::Failed
        },
        SessionEvent::Data => if s == SessionState::Transferring {
            SessionState::Transferring
        } else {
            SessionState::Failed
        },
        SessionEvent::EndOfStream => if s == SessionState::Transferring {
            SessionState::Draining
        } else {
            SessionState::Failed
        },
        SessionEvent::Finalised => if s == SessionState::Draining {
            SessionState::Done
        } else {
            SessionState::Failed
        },
        SessionEvent::Failed(_) => SessionState::Failed,
    }
}

pub open spec fn failure_of(ev: SessionEvent) -> SyncFailure {
    match ev {
        SessionEvent::Failed(f) => f,
        _ => SyncFailure::Protocol,
    }
}

pub open spec fn saturating_inc(n: u32) -> u32 {
    if n < u32::MAX {
        (n + 1) as u32
    } else {
        n
    }
}

/// History after a session of `peer` and `topic` ended at `now` with `failure`.
pub open spec fn spec_record_end(
    h: Seq<HistoryModel>,
    peer: Seq<u8>,
    topic: TopicModel,
    now: u64,
    failure: Option<SyncFailure>,
) -> Seq<HistoryModel> {
    if has_history(h, peer, topic) {
        let i = history_slot(h, peer, topic);
        h.update(
            i,
            HistoryModel { attempts: saturating_inc(h[i].attempts), last_end: now, last_failure: failure, ..h[i] },
        )
    } else {
        h.push(HistoryModel { peer, topic, attempts: 1, last_end: now, last_failure: failure })
    }
}

pub open spec fn result_failure(r: Result<(), SyncFailure>) -> Option<SyncFailure> {
    match r {
        Ok(_) => None,
        Err(f) => Some(f),
    }
}

/// The scheduler after session `i` ended with `result` at `now`, and what it reports.
pub open spec fn spec_end(m: SchedulerModel, i: int, state: SessionState, result: Result<(), SyncFailure>, now: u64) -> (
    SchedulerModel,
    StepModel,
) {
    let s = m.sessions[i];
    let h = match s.topic {
        Some(t) => spec_record_end(m.history, s.peer, t, now, result_failure(result)),
        None => m.history,
    };
    (
        SchedulerModel { sessions: m.sessions.remove(i), history: h, ..m },
        StepModel::Ended(SessionEndModel { session: SessionModel { state, ..s }, result }),
    )
}

pub open spec fn spec_advance(m: SchedulerModel, id: u64, ev: SessionEvent, now: u64) -> (
    SchedulerModel,
    StepModel,
) {
    let i = session_slot(m.sessions, id);
    let s = m.sessions[i];
    let st = next_state(s.state, ev);
    if st == SessionState::Failed {
        spec_end(m, i, st, Err(failure_of(ev)), now)
    } else if st == SessionState::Done {
        spec_end(m, i, st, Ok(()), now)
    } else {
        (
            SchedulerModel { sessions: m.sessions.update(i, SessionModel { state: st, ..s }), ..m },
            if ev == SessionEvent::Data {
                StepModel::Deliver
            } else {
                StepModel::Continue
            },
        )
    }
}

/// What the handshake's topic does to a session: an initiator goes on only where the remote
/// named its own topic; an acceptor takes the topic on, unless a session for the same peer
/// and topic is in flight already.
pub open spec fn spec_handshake(m: SchedulerModel, id: u64, topic: TopicModel, now: u64) -> (
    SchedulerModel,
    StepModel,
) {
    let i = session_slot(m.sessions, id);
    let s = m.sessions[i];
    if s.state != SessionState::Handshaking {
        spec_end(m, i, SessionState::Failed, Err(SyncFailure::Protocol), now)
    } else if s.direction == Direction::Initiator && s.topic != Some(topic) {
        spec_end(m, i, SessionState::Failed, Err(SyncFailure::TopicMismatch), now)
    } else if s.direction == Direction::Acceptor && has_in_flight(m.sessions, s.peer, topic) {
        spec_end(m, i, SessionState::Failed, Err(SyncFailure::AlreadyActive), now)
    } else {
        (
            SchedulerModel {
                sessions: m.sessions.update(
                    i,
                    SessionModel { state: SessionState::Transferring, topic: Some(topic), ..s },
                ),
                ..m
            },
            StepModel::Continue,
        )
    }
}

pub open spec fn opt_topic_view(t: Option<&Topic>) -> Option<TopicModel> {
    match t {
        Some(x) => Some(x@),
        None => None,
    }
}

/// Whether cancelling `topic` (every topic, where none) ends session `s`.
pub open spec fn cancelled_by(s: SessionModel, topic: Option<TopicModel>) -> bool {
    match topic {
        None => true,
        Some(t) => s.topic == Some(t),
    }
}

/// Opening a session towards `peer` on `topic`: refused while one is in flight for the pair,
/// while the re-run policy does not allow it, or when ids ran out.
pub open spec fn spec_start_initiator(
    m: SchedulerModel,
    peer: Seq<u8>,
    topic: TopicModel,
    resync: Option<ResyncConfiguration>,
    now: u64,
) -> (SchedulerModel, Result<u64, StartError>) {
    if has_in_flight(m.sessions, peer, topic) {
        (m, Err(StartError::AlreadyActive))
    } else if !spec_may_start(m.history, peer, topic, resync, now) {
        (m, Err(StartError::NotDue))
    } else if m.next_id == u64::MAX {
        (m, Err(StartError::Exhausted))
    } else {
        (
            SchedulerModel {
                sessions: m.sessions.push(
                    SessionModel {
                        id: m.next_id,
                        peer,
                        topic: Some(topic),
                        direction: Direction::Initiator,
                        state: SessionState::Pending,
                        started_at: now,
                        attempt: saturating_inc(attempts_of(m.history, peer, topic)),
                    },
                ),
                next_id: (m.next_id + 1) as u64,
                ..m
            },
            Ok(m.next_id),
        )
    }
}

/// Registering an inbound session from `peer`.
pub open spec fn spec_start_acceptor(m: SchedulerModel, peer: Seq<u8>, now: u64) -> (
    SchedulerModel,
    Result<u64, StartError>,
) {
    if m.next_id == u64::MAX {
        (m, Err(StartError::Exhausted))
    } else {
        (
            SchedulerModel {
                sessions: m.sessions.push(
                    SessionModel {
                        id: m.next_id,
                        peer,
                        topic: None,
                        direction: Direction::Acceptor,
                        state: SessionState::Pending,
                        started_at: now,
                        attempt: 1,
                    },
                ),
                next_id: (m.next_id + 1) as u64,
                ..m
            },
            Ok(m.next_id),
        )
    }
}

/// A request or a report that the scheduler acts on.
pub enum SchedulerOp {
    StartInitiator(Seq<u8>, TopicModel, Option<ResyncConfiguration>),
    StartAcceptor(Seq<u8>),
    Advance(u64, SessionEvent),
    Handshake(u64, TopicModel),
}

/// The scheduler after `op` at `now`; reports on sessions not in flight change nothing.
pub open spec fn spec_scheduler_step(m: SchedulerModel, op: SchedulerOp, now: u64) -> SchedulerModel {
    match op {
        SchedulerOp::StartInitiator(p, t, r) => spec_start_initiator(m, p, t, r, now).0,
        SchedulerOp::StartAcceptor(p) => spec_start_acceptor(m, p, now).0,
        SchedulerOp::Advance(id, ev) => if has_session(m.sessions, id) {
            spec_advance(m, id, ev, now).0
        } else {
            m
        },
        SchedulerOp::Handshake(id, t) => if has_session(m.sessions, id) {
            spec_handshake(m, id, t, now).0
        } else {
            m
        },
    }
}

/// The scheduler after each op, at its time, in order.
pub open spec fn spec_scheduler_run(m: SchedulerModel, ops: Seq<(SchedulerOp, u64)>) -> SchedulerModel
    decreases ops.len(),
{
    if ops.len() == 0 {
        m
    } else {
        spec_scheduler_run(spec_scheduler_step(m, ops[0].0, ops[0].1), ops.drop_first())
    }
}

proof fn lemma_push_keeps_wf(m: SchedulerModel, s: SessionModel)
    requires
        scheduler_wf(m),
        s.id == m.next_id,
        m.next_id < u64::MAX,
        !is_terminal(s.state),
        s.direction == Direction::Initiator ==> s.topic is Some,
        s.direction == Direction::Acceptor && (s.state == SessionState::Pending || s.state
            == SessionState::Handshaking) ==> s.topic is None,
        s.topic is None ==> s.state == SessionState::Pending || s.state == SessionState::Handshaking,
        s.topic matches Some(t) ==> !has_in_flight(m.sessions, s.peer, t),
        s.direction == Direction::Acceptor && (s.state == SessionState::Pending || s.state
            == SessionState::Handshaking) ==> s.topic is None,
    ensures
        scheduler_wf(
            SchedulerModel { sessions: m.sessions.push(s), next_id: (m.next_id + 1) as u64, ..m },
        ),
{
    let os = m.sessions;
    let ss = os.push(s);
    assert forall|a: int| 0 <= a < ss.len() implies #[trigger] ss[a].id < m.next_id + 1 by {
        if a < os.len() {
            assert(ss[a] == os[a]);
        }
    }
    assert forall|a: int, b: int|
        #![trigger ss[a], ss[b]]
        0 <= a < ss.len() && 0 <= b < ss.len() && a != b implies ss[a].id != ss[b].id && (
        !is_terminal(ss[a].state) && !is_terminal(ss[b].state) && ss[a].topic is Some ==> !(
        ss[a].peer == ss[b].peer && ss[a].topic == ss[b].topic)) by {
        if a == os.len() {
            assert(ss[b] == os[b]);
            if let Some(t) = s.topic {
                if in_flight_for(os[b], s.peer, t) {
                    assert(has_in_flight(os, s.peer, t));
                }
            }
        } else if b == os.len() {
            assert(ss[a] == os[a]);
            if let Some(t) = s.topic {
                if in_flight_for(os[a], s.peer, t) {
                    assert(has_in_flight(os, s.peer, t));
                }
            }
        } else {
            assert(ss[a] == os[a] && ss[b] == os[b]);
        }
    }
}

proof fn lemma_update_keeps_wf(m: SchedulerModel, i: int, s: SessionModel)
    requires
        scheduler_wf(m),
        0 <= i < m.sessions.len(),
        s.id == m.sessions[i].id,
        !is_terminal(s.state),
        s.direction == m.sessions[i].direction,
        s.direction == Direction::Initiator ==> s.topic is Some,
        s.direction == Direction::Acceptor && (s.state == SessionState::Pending || s.state
            == SessionState::Handshaking) ==> s.topic is None,
        s.topic is None ==> s.state == SessionState::Pending || s.state == SessionState::Handshaking,
        s.topic matches Some(t) ==> forall|a: int|
            0 <= a < m.sessions.len() && a != i ==> !#[trigger] in_flight_for(m.sessions[a], s.peer, t),
    ensures
        scheduler_wf(SchedulerModel { sessions: m.sessions.update(i, s), ..m }),
{
    let os = m.sessions;
    let ss = os.update(i, s);
    assert forall|a: int| 0 <= a < ss.len() implies (#[trigger] ss[a]).id < m.next_id
        && !is_terminal(ss[a].state) && (ss[a].direction == Direction::Initiator
        ==> ss[a].topic is Some) && (ss[a].topic is None ==> (ss[a].state
        == SessionState::Pending || ss[a].state == SessionState::Handshaking)) by {
        assert(os[a] == os[a]);
    }
    assert forall|a: int, b: int|
        #![trigger ss[a], ss[b]]
        0 <= a < ss.len() && 0 <= b < ss.len() && a != b implies ss[a].id != ss[b].id && (
        !is_terminal(ss[a].state) && !is_terminal(ss[b].state) && ss[a].topic is Some ==> !(
        ss[a].peer == ss[b].peer && ss[a].topic == ss[b].topic)) by {
        assert(os[a] == os[a] && os[b] == os[b]);
        if a == i {
            if let Some(t) = s.topic {
                assert(!in_flight_for(os[b], s.peer, t));
            }
        } else if b == i {
            if let Some(t) = s.topic {
                assert(!in_flight_for(os[a], s.peer, t));
            }
        } else {
            assert(ss[a] == os[a] && ss[b] == os[b]);
        }
    }
}

proof fn lemma_end_keeps_wf(m: SchedulerModel, i: int, state: SessionState, result: Result<(), SyncFailure>, now: u64)
    requires
        scheduler_wf(m),
        0 <= i < m.sessions.len(),
    ensures
        scheduler_wf(spec_end(m, i, state, result, now).0),
{
    let s = m.sessions[i];
    let h = match s.topic {
        Some(t) => spec_record_end(m.history, s.peer, t, now, result_failure(result)),
        None => m.history,
    };
    if let Some(t) = s.topic {
        lemma_record_end_keeps_unique(m.history, s.peer, t, now, result_failure(result));
    }
    lemma_remove_keeps_wf(m, i, h);
}

/// One step keeps the scheduler well formed, and so keeps at most one session in flight
/// for each peer and topic.
pub proof fn lemma_step_keeps_wf(m: SchedulerModel, op: SchedulerOp, now: u64)
    requires
        scheduler_wf(m),
    ensures
        scheduler_wf(spec_scheduler_step(m, op, now)),
        no_duplicate_in_flight(spec_scheduler_step(m, op, now).sessions),
{
    match op {
        SchedulerOp::StartInitiator(p, t, r) => {
            if !has_in_flight(m.sessions, p, t) && spec_may_start(m.history, p, t, r, now)
                && m.next_id < u64::MAX {
                lemma_push_keeps_wf(
                    m,
                    SessionModel {
                        id: m.next_id,
                        peer: p,
                        topic: Some(t),
                        direction: Direction::Initiator,
                        state: SessionState::Pending,
                        started_at: now,
                        attempt: saturating_inc(attempts_of(m.history, p, t)),
                    },
                );
            }
        },
        SchedulerOp::StartAcceptor(p) => {
            if m.next_id < u64::MAX {
                lemma_push_keeps_wf(
                    m,
                    SessionModel {
                        id: m.next_id,
                        peer: p,
                        topic: None,
                        direction: Direction::Acceptor,
                        state: SessionState::Pending,
                        started_at: now,
                        attempt: 1,
                    },
                );
            }
        },
        SchedulerOp::Advance(id, ev) => {
            if has_session(m.sessions, id) {
                let i = session_slot(m.sessions, id);
                let s = m.sessions[i];
                let st = next_state(s.state, ev);
                if st == SessionState::Failed {
                    lemma_end_keeps_wf(m, i, st, Err(failure_of(ev)), now);
                } else if st == SessionState::Done {
                    lemma_end_keeps_wf(m, i, st, Ok(()), now);
                } else {
                    assert forall|a: int|
                        0 <= a < m.sessions.len() && a != i && s.topic is Some implies !#[trigger] in_flight_for(
                        m.sessions[a],
                        s.peer,
                        s.topic.unwrap(),
                    ) by {
                        assert(m.sessions[a] == m.sessions[a]);
                        assert(m.sessions[i] == m.sessions[i]);
                    }
                    lemma_update_keeps_wf(m, i, SessionModel { state: st, ..s });
                }
            }
        },
        SchedulerOp::Handshake(id, t) => {
            if has_session(m.sessions, id) {
                let i = session_slot(m.sessions, id);
                let s = m.sessions[i];
                if s.state != SessionState::Handshaking {
                    lemma_end_keeps_wf(m, i, SessionState::Failed, Err(SyncFailure::Protocol), now);
                } else if s.direction == Direction::Initiator && s.topic != Some(t) {
                    lemma_end_keeps_wf(m, i, SessionState::Failed, Err(SyncFailure::TopicMismatch), now);
                } else if s.direction == Direction::Acceptor && has_in_flight(m.sessions, s.peer, t) {
                    lemma_end_keeps_wf(m, i, SessionState::Failed, Err(SyncFailure::AlreadyActive), now);
                } else {
                    assert forall|a: int|
                        0 <= a < m.sessions.len() && a != i implies !#[trigger] in_flight_for(
                        m.sessions[a],
                        s.peer,
                        t,
                    ) by {
                        assert(m.sessions[a] == m.sessions[a]);
                        assert(m.sessions[i] == m.sessions[i]);
                        if s.direction == Direction::Acceptor && in_flight_for(m.sessions[a], s.peer, t) {
                            assert(has_in_flight(m.sessions, s.peer, t));
                        }
                    }
                    lemma_update_keeps_wf(
                        m,
                        i,
                        SessionModel { state: SessionState::Transferring, topic: Some(t), ..s },
                    );
                }
            }
        },
    }
}

/// Whatever sessions are opened, accepted, advanced or handshaken, in whatever order, no two
/// sessions are ever in flight for the same peer and topic. (Cancelling only removes
/// sessions; `SyncScheduler::cancel` keeps the same guarantee.)
pub proof fn lemma_no_duplicate_in_flight_ever(m: SchedulerModel, ops: Seq<(SchedulerOp, u64)>)
    requires
        scheduler_wf(m),
    ensures
        scheduler_wf(spec_scheduler_run(m, ops)),
        no_duplicate_in_flight(spec_scheduler_run(m, ops).sessions),
    decreases ops.len(),
{
    if ops.len() > 0 {
        lemma_step_keeps_wf(m, ops[0].0, ops[0].1);
        lemma_no_duplicate_in_flight_ever(spec_scheduler_step(m, ops[0].0, ops[0].1), ops.drop_first());
    }
}

/// Whether session `s` holds overlay `id`: it is bound to a topic riding that overlay.
pub open spec fn holds_overlay(s: SessionModel, id: Seq<u8>) -> bool {
    s.topic is Some && s.topic.unwrap().id == id
}

/// Number of sessions of `ss` holding overlay `id`.
pub open spec fn held_count(ss: Seq<SessionModel>, id: Seq<u8>) -> nat
    decreases ss.len(),
{
    if ss.len() == 0 {
        0
    } else {
        held_count(ss.drop_last(), id) + if holds_overlay(ss.last(), id) {
            1nat
        } else {
            0nat
        }
    }
}

pub proof fn lemma_held_count_push(ss: Seq<SessionModel>, s: SessionModel, id: Seq<u8>)
    ensures
        held_count(ss.push(s), id) == held_count(ss, id) + if holds_overlay(s, id) {
            1nat
        } else {
            0nat
        },
{
    assert(ss.push(s).drop_last() =~= ss);
}

pub proof fn lemma_held_count_update(ss: Seq<SessionModel>, i: int, s: SessionModel, id: Seq<u8>)
    requires
        0 <= i < ss.len(),
    ensures
        held_count(ss.update(i, s), id) + (if holds_overlay(ss[i], id) {
            1nat
        } else {
            0nat
        }) == held_count(ss, id) + (if holds_overlay(s, id) {
            1nat
        } else {
            0nat
        }),
    decreases ss.len(),
{
    let u = ss.update(i, s);
    if i == ss.len() - 1 {
        assert(u.drop_last() =~= ss.drop_last());
    } else {
        lemma_held_count_update(ss.drop_last(), i, s, id);
        assert(u.drop_last() =~= ss.drop_last().update(i, s));
        assert(u.last() == ss.last());
    }
}

pub proof fn lemma_held_count_remove(ss: Seq<SessionModel>, i: int, id: Seq<u8>)
    requires
        0 <= i < ss.len(),
    ensures
        held_count(ss.remove(i), id) + (if holds_overlay(ss[i], id) {
            1nat
        } else {
            0nat
        }) == held_count(ss, id),
    decreases ss.len(),
{
    let r = ss.remove(i);
    if i == ss.len() - 1 {
        assert(r =~= ss.drop_last());
    } else {
        lemma_held_count_remove(ss.drop_last(), i, id);
        assert(r.drop_last() =~= ss.drop_last().remove(i));
        assert(r.last() == ss.last());
    }
}

/// Cancelling `topic` removes, from every overlay's count, the sessions it ends.
pub proof fn lemma_held_count_cancel(ss: Seq<SessionModel>, t: TopicModel, id: Seq<u8>)
    ensures
        held_count(ss.filter(|s: SessionModel| !cancelled_by(s, Some(t))), id) + (if id == t.id {
            ss.filter(|s: SessionModel| cancelled_by(s, Some(t))).len()
        } else {
            0
        }) == held_count(ss, id),
    decreases ss.len(),
{
    reveal(Seq::filter);
    if ss.len() > 0 {
        let d = ss.drop_last();
        lemma_held_count_cancel(d, t, id);
        let keep = |s: SessionModel| !cancelled_by(s, Some(t));
        let gone = |s: SessionModel| cancelled_by(s, Some(t));
        assert(ss.filter(keep) == if keep(ss.last()) {
            d.filter(keep).push(ss.last())
        } else {
            d.filter(keep)
        });
        assert(ss.filter(gone) == if gone(ss.last()) {
            d.filter(gone).push(ss.last())
        } else {
            d.filter(gone)
        });
        if keep(ss.last()) {
            lemma_held_count_push(d.filter(keep), ss.last(), id);
        }
    }
}

/// Whether a session for `peer` and `topic` could be promoted now.
pub open spec fn is_candidate(
    m: SchedulerModel,
    peer: Seq<u8>,
    topic: TopicModel,
    resync: Option<ResyncConfiguration>,
    now: u64,
) -> bool {
    !has_in_flight(m.sessions, peer, topic) && spec_may_start(m.history, peer, topic, resync, now)
}

/// Promotion order: never-attempted pairs first; then the smaller topic id, then the
/// smaller peer id, in byte order.
pub open spec fn candidate_precedes(
    h: Seq<HistoryModel>,
    pa: Seq<u8>,
    ta: TopicModel,
    pb: Seq<u8>,
    tb: TopicModel,
) -> bool {
    let na = !has_history(h, pa, ta);
    let nb = !has_history(h, pb, tb);
    (na && !nb) || (na == nb && (lex_lt(ta.id, tb.id) || (ta.id == tb.id && lex_lt(pa, pb))))
}

proof fn lemma_candidate_transitive(
    h: Seq<HistoryModel>,
    pa: Seq<u8>,
    ta: TopicModel,
    pb: Seq<u8>,
    tb: TopicModel,
    pc: Seq<u8>,
    tc: TopicModel,
)
    requires
        candidate_precedes(h, pa, ta, pb, tb),
        candidate_precedes(h, pb, tb, pc, tc),
    ensures
        candidate_precedes(h, pa, ta, pc, tc),
{
    if lex_lt(ta.id, tb.id) && lex_lt(tb.id, tc.id) {
        lemma_lex_lt_transitive(ta.id, tb.id, tc.id);
    }
    if lex_lt(pa, pb) && lex_lt(pb, pc) {
        lemma_lex_lt_transitive(pa, pb, pc);
    }
}

/// Candidates are ordered as a strict weak order: where `n` precedes `b`, any `c` comes
/// after `n` or before `b`.
proof fn lemma_candidate_total(
    h: Seq<HistoryModel>,
    pn: Seq<u8>,
    tn: TopicModel,
    pc: Seq<u8>,
    tc: TopicModel,
    pb: Seq<u8>,
    tb: TopicModel,
)
    requires
        candidate_precedes(h, pn, tn, pb, tb),
    ensures
        candidate_precedes(h, pn, tn, pc, tc) || candidate_precedes(h, pc, tc, pb, tb),
{
    assert forall|x: Seq<u8>, y: Seq<u8>, z: Seq<u8>|
        lex_lt(x, y) && lex_lt(y, z) implies lex_lt(x, z) by {
        lemma_lex_lt_transitive(x, y, z);
    }
    lemma_lex_lt_total(tn.id, tc.id);
    lemma_lex_lt_total(tc.id, tb.id);
    lemma_lex_lt_total(pn, pc);
    lemma_lex_lt_total(pc, pb);
    lemma_lex_lt_irreflexive(tn.id);
    lemma_lex_lt_irreflexive(pn);
    lemma_lex_lt_irreflexive(tb.id);
    lemma_lex_lt_irreflexive(pb);
}

/// Whether pair `(ta, pa)` comes before `(tb, pb)` in a scan over topics, then peers.
pub open spec fn scanned_before(ta: int, pa: int, tb: int, pb: int) -> bool {
    ta < tb || (ta == tb && pa < pb)
}

pub closed spec fn sessions_view(v: Seq<SyncSession>) -> Seq<SessionModel> {
    v.map_values(|s: SyncSession| s@)
}

pub closed spec fn history_view(v: Seq<History>) -> Seq<HistoryModel> {
    v.map_values(|h: History| h@)
}

/// Why a session could not start.
#[derive(Clone, Copy, Debug, PartialEq, Eq, Structural)]
pub enum StartError {
    /// A session for the same peer and topic is in flight.
    AlreadyActive,
    /// The re-run policy does not allow another session yet.
    NotDue,
    /// No session id is left.
    Exhausted,
}

/// Sessions in flight and the history of finished ones.
pub struct SyncScheduler {
    sessions: Vec<SyncSession>,
    history: Vec<History>,
    next_id: u64,
}

impl View for SyncScheduler {
    type V = SchedulerModel;

    closed spec fn view(&self) -> SchedulerModel {
        SchedulerModel {
            sessions: sessions_view(self.sessions@),
            history: history_view(self.history@),
            next_id: self.next_id,
        }
    }
}

proof fn lemma_remove_keeps_wf(m: SchedulerModel, i: int, h: Seq<HistoryModel>)
    requires
        scheduler_wf(m),
        0 <= i < m.sessions.len(),
        forall|a: int, b: int|
            #![trigger h[a], h[b]]
            0 <= a < h.len() && 0 <= b < h.len() && a != b ==> !(h[a].peer == h[b].peer
                && h[a].topic == h[b].topic),
    ensures
        scheduler_wf(SchedulerModel { sessions: m.sessions.remove(i), history: h, ..m }),
{
    let ss = m.sessions;
    let ns = ss.remove(i);
    assert forall|a: int| 0 <= a < ns.len() implies #[trigger] ns[a] == ss[if a < i {
        a
    } else {
        a + 1
    }] by {}
    assert forall|a: int, b: int|
        #![trigger ns[a], ns[b]]
        0 <= a < ns.len() && 0 <= b < ns.len() && a != b implies ns[a].id != ns[b].id && (
        !is_terminal(ns[a].state) && !is_terminal(ns[b].state) && ns[a].topic is Some ==> !(
        ns[a].peer == ns[b].peer && ns[a].topic == ns[b].topic)) by {
        let oa = if a < i { a } else { a + 1 };
        let ob = if b < i { b } else { b + 1 };
        assert(ns[a] == ss[oa]);
        assert(ns[b] == ss[ob]);
    }
}

proof fn lemma_record_end_keeps_unique(
    h: Seq<HistoryModel>,
    peer: Seq<u8>,
    topic: TopicModel,
    now: u64,
    failure: Option<SyncFailure>,
)
    requires
        forall|a: int, b: int|
            #![trigger h[a], h[b]]
            0 <= a < h.len() && 0 <= b < h.len() && a != b ==> !(h[a].peer == h[b].peer
                && h[a].topic == h[b].topic),
    ensures
        ({
            let n = spec_record_end(h, peer, topic, now, failure);
            forall|a: int, b: int|
                #![trigger n[a], n[b]]
                0 <= a < n.len() && 0 <= b < n.len() && a != b ==> !(n[a].peer == n[b].peer
                    && n[a].topic == n[b].topic)
        }),
{
    let n = spec_record_end(h, peer, topic, now, failure);
    assert forall|a: int, b: int|
        #![trigger n[a], n[b]]
        0 <= a < n.len() && 0 <= b < n.len() && a != b implies !(n[a].peer == n[b].peer
        && n[a].topic == n[b].topic) by {
        if has_history(h, peer, topic) {
            assert(n[a].peer == h[a].peer && n[a].topic == h[a].topic);
            assert(n[b].peer == h[b].peer && n[b].topic == h[b].topic);
        } else {
            if a == h.len() {
                assert(!(h[b].peer == peer && h[b].topic == topic));
            } else if b == h.len() {
                assert(!(h[a].peer == peer && h[a].topic == topic));
            } else {
                assert(n[a] == h[a] && n[b] == h[b]);
            }
        }
    }
}

impl SyncScheduler {
    pub open spec fn wf(&self) -> bool {
        scheduler_wf(self@)
    }

    pub fn new() -> (r: SyncScheduler)
        ensures
            r.wf(),
            r@.sessions.len() == 0,
            r@.history.len() == 0,
            r@.next_id == 0,
    {
        let r = SyncScheduler { sessions: Vec::new(), history: Vec::new(), next_id: 0 };
        assert(r@.sessions =~= Seq::<SessionModel>::empty());
        assert(r@.history =~= Seq::<HistoryModel>::empty());
        r
    }

    /// Number of sessions in flight.
    pub fn active(&self) -> (r: usize)
        ensures
            r == self@.sessions.len(),
    {
        proof {
            reveal(sessions_view);
        }
        self.sessions.len()
    }

    fn find_session(&self, id: u64) -> (r: Option<usize>)
        ensures
            r is None <==> !has_session(self@.sessions, id),
            r matches Some(i) ==> i < self@.sessions.len() && self@.sessions[i as int].id == id,
    {
        proof {
            reveal(sessions_view);
        }
        let mut i: usize = 0;
        while i < self.sessions.len()
            invariant
                i <= self.sessions@.len(),
                self@.sessions == sessions_view(self.sessions@),
                forall|k: int| 0 <= k < i ==> self.sessions@[k].id != id,
            decreases self.sessions@.len() - i,
        {
            if self.sessions[i].id == id {
                return Some(i);
            }
            i = i + 1;
        }
        assert forall|k: int| 0 <= k < self@.sessions.len() implies self@.sessions[k].id != id by {
            assert(self@.sessions[k] == self.sessions@[k]@);
        }
        None
    }

    /// A copy of session `id`, if it is in flight.
    pub fn session(&self, id: u64) -> (r: Option<SyncSession>)
        requires
            self.wf(),
        ensures
            r is Some <==> has_session(self@.sessions, id),
            r matches Some(s) ==> s@ == self@.sessions[session_slot(self@.sessions, id)],
    {
        proof {
            reveal(sessions_view);
        }
        match self.find_session(id) {
            Some(i) => {
                proof {
                    let c = session_slot(self@.sessions, id);
                    assert(self@.sessions[c].id == id);
                    assert(c == i) by {
                        if c != i {
                            assert(self@.sessions[c] == self@.sessions[c]);
                            assert(self@.sessions[i as int] == self@.sessions[i as int]);
                        }
                    }
                }
                let s = &self.sessions[i];
                let topic = match &s.topic {
                    Some(t) => Some(t.copy()),
                    None => None,
                };
                Some(SyncSession {
                    id: s.id,
                    peer: s.peer.copy(),
                    topic,
                    direction: s.direction,
                    state: s.state,
                    started_at: s.started_at,
                    attempt: s.attempt,
                })
            },
            None => None,
        }
    }

    /// Whether a session for `peer` and `topic` is in flight.
    pub fn in_flight(&self, peer: &PeerId, topic: &Topic) -> (r: bool)
        requires
            self.wf(),
        ensures
            r == has_in_flight(self@.sessions, peer@, topic@),
    {
        proof {
            reveal(sessions_view);
        }
        let mut i: usize = 0;
        while i < self.sessions.len()
            invariant
                self.wf(),
                i <= self.sessions@.len(),
                self@.sessions == sessions_view(self.sessions@),
                forall|k: int|
                    0 <= k < i ==> !#[trigger] in_flight_for(self@.sessions[k], peer@, topic@),
            decreases self.sessions@.len() - i,
        {
            let s = &self.sessions[i];
            assert(self@.sessions[i as int] == s@);
            if s.peer.same(peer) {
                match &s.topic {
                    Some(t) => {
                        if t.same(topic) {
                            assert(in_flight_for(self@.sessions[i as int], peer@, topic@));
                            return true;
                        }
                    },
                    None => {},
                }
            }
            i = i + 1;
        }
        false
    }

    fn find_history(&self, peer: &PeerId, topic: &Topic) -> (r: Option<usize>)
        requires
            self.wf(),
        ensures
            r is None <==> !has_history(self@.history, peer@, topic@),
            r matches Some(i) ==> i < self@.history.len() && i == history_slot(
                self@.history,
                peer@,
                topic@,
            ),
    {
        proof {
            reveal(history_view);
        }
        let mut i: usize = 0;
        while i < self.history.len()
            invariant
                self.wf(),
                i <= self.history@.len(),
                self@.history == history_view(self.history@),
                forall|k: int|
                    0 <= k < i ==> !(self@.history[k].peer == peer@ && self@.history[k].topic
                        == topic@),
            decreases self.history@.len() - i,
        {
            let h = &self.history[i];
            assert(self@.history[i as int] == h@);
            if h.peer.same(peer) && h.topic.same(topic) {
                let ghost c = history_slot(self@.history, peer@, topic@);
                assert(self@.history[c] == self@.history[c]);
                assert(self@.history[i as int] == self@.history[i as int]);
                return Some(i);
            }
            i = i + 1;
        }
        None
    }

    /// Whether a session of `peer` and `topic` may start at `now` under `resync`.
    pub fn may_start(
        &self,
        peer: &PeerId,
        topic: &Topic,
        resync: Option<ResyncConfiguration>,
        now: u64,
    ) -> (r: bool)
        requires
            self.wf(),
        ensures
            r == spec_may_start(self@.history, peer@, topic@, resync, now),
    {
        proof {
            reveal(history_view);
        }
        match self.find_history(peer, topic) {
            None => true,
            Some(i) => {
                let e = &self.history[i];
                assert(self@.history[i as int] == e@);
                match resync {
                    None => false,
                    Some(c) => {
                        let mismatch = match e.last_failure {
                            Some(SyncFailure::TopicMismatch) => true,
                            _ => false,
                        };
                        !mismatch && e.attempts < c.max_attempts && e.last_end <= now && now
                            - e.last_end >= c.interval
                    },
                }
            },
        }
    }

    /// Opens a session towards `peer` on `topic`, in `pending`, and returns its id.
    pub fn start_initiator(
        &mut self,
        peer: PeerId,
        topic: Topic,
        resync: Option<ResyncConfiguration>,
        now: u64,
    ) -> (r: Result<u64, StartError>)
        requires
            old(self).wf(),
        ensures
            final(self).wf(),
            no_duplicate_in_flight(final(self)@.sessions),
            has_in_flight(old(self)@.sessions, peer@, topic@) ==> r == Err::<u64, StartError>(
                StartError::AlreadyActive,
            ),
            !has_in_flight(old(self)@.sessions, peer@, topic@) && !spec_may_start(
                old(self)@.history,
                peer@,
                topic@,
                resync,
                now,
            ) ==> r == Err::<u64, StartError>(StartError::NotDue),
            !has_in_flight(old(self)@.sessions, peer@, topic@) && spec_may_start(
                old(self)@.history,
                peer@,
                topic@,
                resync,
                now,
            ) && old(self)@.next_id == u64::MAX ==> r == Err::<u64, StartError>(
                StartError::Exhausted,
            ),
            r is Err ==> final(self)@ == old(self)@,
            (final(self)@, r) == spec_start_initiator(old(self)@, peer@, topic@, resync, now),
            r is Ok <==> (!has_in_flight(old(self)@.sessions, peer@, topic@) && spec_may_start(
                old(self)@.history,
                peer@,
                topic@,
                resync,
                now,
            ) && old(self)@.next_id < u64::MAX),
            r matches Ok(id) ==> id == old(self)@.next_id && final(self)@ == (SchedulerModel {
                sessions: old(self)@.sessions.push(
                    SessionModel {
                        id,
                        peer: peer@,
                        topic: Some(topic@),
                        direction: Direction::Initiator,
                        state: SessionState::Pending,
                        started_at: now,
                        attempt: saturating_inc(attempts_of(old(self)@.history, peer@, topic@)),
                    },
                ),
                next_id: (id + 1) as u64,
                ..old(self)@
            }),
    {
        if self.in_flight(&peer, &topic) {
            return Err(StartError::AlreadyActive);
        }
        if !self.may_start(&peer, &topic, resync, now) {
            return Err(StartError::NotDue);
        }
        if self.next_id == u64::MAX {
            return Err(StartError::Exhausted);
        }
        proof {
            reveal(sessions_view);
            reveal(history_view);
        }
        let attempts = match self.find_history(&peer, &topic) {
            Some(i) => self.history[i].attempts,
            None => 0,
        };
        let attempt = if attempts < u32::MAX {
            attempts + 1
        } else {
            attempts
        };
        let id = self.next_id;
        let ghost pm = peer@;
        let ghost tm = topic@;
        let s = SyncSession {
            id,
            peer,
            topic: Some(topic),
            direction: Direction::Initiator,
            state: SessionState::Pending,
            started_at: now,
            attempt,
        };
        self.sessions.push(s);
        self.next_id = id + 1;
        proof {
            let ss = self@.sessions;
            let os = old(self)@.sessions;
            assert(ss =~= os.push(s@));
            assert forall|a: int| 0 <= a < os.len() implies !#[trigger] in_flight_for(os[a], pm, tm) by {
                if in_flight_for(os[a], pm, tm) {
                    assert(has_in_flight(os, pm, tm));
                }
            }
            assert forall|a: int, b: int|
                #![trigger ss[a], ss[b]]
                0 <= a < ss.len() && 0 <= b < ss.len() && a != b && !is_terminal(ss[a].state)
                    && !is_terminal(ss[b].state) && ss[a].topic is Some implies !(ss[a].peer
                == ss[b].peer && ss[a].topic == ss[b].topic) by {
                if a == os.len() {
                    assert(!in_flight_for(os[b], pm, tm));
                } else if b == os.len() {
                    assert(!in_flight_for(os[a], pm, tm));
                } else {
                    assert(ss[a] == os[a] && ss[b] == os[b]);
                }
            }
            assert forall|a: int| 0 <= a < ss.len() implies #[trigger] ss[a].id < self@.next_id by {
                if a < os.len() {
                    assert(ss[a] == os[a]);
                }
            }
            assert forall|a: int, b: int|
                #![trigger ss[a], ss[b]]
                0 <= a < ss.len() && 0 <= b < ss.len() && a != b implies ss[a].id != ss[b].id by {
                if a < os.len() {
                    assert(ss[a] == os[a]);
                }
                if b < os.len() {
                    assert(ss[b] == os[b]);
                }
            }
        }
        Ok(id)
    }

    /// Registers an inbound session from `peer`, in `pending`; its topic is learned at the
    /// handshake.
    pub fn start_acceptor(&mut self, peer: PeerId, now: u64) -> (r: Result<u64, StartError>)
        requires
            old(self).wf(),
        ensures
            final(self).wf(),
            no_duplicate_in_flight(final(self)@.sessions),
            r is Err <==> old(self)@.next_id == u64::MAX,
            (final(self)@, r) == spec_start_acceptor(old(self)@, peer@, now),
            r is Err ==> r == Err::<u64, StartError>(StartError::Exhausted) && final(self)@ == old(self)@,
            r matches Ok(id) ==> id == old(self)@.next_id && final(self)@ == (SchedulerModel {
                sessions: old(self)@.sessions.push(
                    SessionModel {
                        id,
                        peer: peer@,
                        topic: None,
                        direction: Direction::Acceptor,
                        state: SessionState::Pending,
                        started_at: now,
                        attempt: 1,
                    },
                ),
                next_id: (id + 1) as u64,
                ..old(self)@
            }),
    {
        if self.next_id == u64::MAX {
            return Err(StartError::Exhausted);
        }
        proof {
            reveal(sessions_view);
        }
        let id = self.next_id;
        let s = SyncSession {
            id,
            peer,
            topic: None,
            direction: Direction::Acceptor,
            state: SessionState::Pending,
            started_at: now,
            attempt: 1,
        };
        self.sessions.push(s);
        self.next_id = id + 1;
        proof {
            let ss = self@.sessions;
            let os = old(self)@.sessions;
            assert(ss =~= os.push(s@));
            assert forall|a: int| 0 <= a < ss.len() implies #[trigger] ss[a].id < self@.next_id by {
                if a < os.len() {
                    assert(ss[a] == os[a]);
                }
            }
            assert forall|a: int, b: int|
                #![trigger ss[a], ss[b]]
                0 <= a < ss.len() && 0 <= b < ss.len() && a != b implies ss[a].id != ss[b].id
                && (!is_terminal(ss[a].state) && !is_terminal(ss[b].state) && ss[a].topic is Some
                ==> !(ss[a].peer == ss[b].peer && ss[a].topic == ss[b].topic)) by {
                if a < os.len() {
                    assert(ss[a] == os[a]);
                }
                if b < os.len() {
                    assert(ss[b] == os[b]);
                }
            }
        }
        Ok(id)
    }

    fn record_end(&mut self, peer: &PeerId, topic: &Topic, now: u64, failure: Option<SyncFailure>)
        requires
            old(self).wf(),
        ensures
            final(self)@ == (SchedulerModel {
                history: spec_record_end(old(self)@.history, peer@, topic@, now, failure),
                ..old(self)@
            }),
            final(self).wf(),
    {
        proof {
            reveal(history_view);
            lemma_record_end_keeps_unique(old(self)@.history, peer@, topic@, now, failure);
        }
        match self.find_history(peer, topic) {
            Some(i) => {
                let a = self.history[i].attempts;
                self.history[i].attempts = if a < u32::MAX {
                    a + 1
                } else {
                    a
                };
                self.history[i].last_end = now;
                self.history[i].last_failure = failure;
                proof {
                    assert(self@.history =~= spec_record_end(
                        old(self)@.history,
                        peer@,
                        topic@,
                        now,
                        failure,
                    ));
                }
            },
            None => {
                self.history.push(
                    History {
                        peer: peer.copy(),
                        topic: topic.copy(),
                        attempts: 1,
                        last_end: now,
                        last_failure: failure,
                    },
                );
                proof {
                    assert(self@.history =~= spec_record_end(
                        old(self)@.history,
                        peer@,
                        topic@,
                        now,
                        failure,
                    ));
                }
            },
        }
        proof {
            assert(self@.sessions == old(self)@.sessions);
        }
    }

    fn end_at(&mut self, i: usize, state: SessionState, result: Result<(), SyncFailure>, now: u64) -> (r: StepOutcome)
        requires
            old(self).wf(),
            i < old(self)@.sessions.len(),
        ensures
            final(self).wf(),
            (final(self)@, r@) == spec_end(old(self)@, i as int, state, result, now),
    {
        proof {
            reveal(sessions_view);
        }
        let mut s = self.sessions.remove(i);
        proof {
            assert(sessions_view(self.sessions@) =~= old(self)@.sessions.remove(i as int));
            lemma_remove_keeps_wf(old(self)@, i as int, old(self)@.history);
        }
        let failure = match result {
            Ok(_) => None,
            Err(f) => Some(f),
        };
        match &s.topic {
            Some(t) => {
                self.record_end(&s.peer, t, now, failure);
            },
            None => {},
        }
        s.state = state;
        StepOutcome::Ended(SessionEnd { session: s, result })
    }

    /// The protocol reported `HandshakeSuccess(topic)` on session `id`; none where no such
    /// session is in flight.
    pub fn handshake(&mut self, id: u64, topic: Topic, now: u64) -> (r: Option<StepOutcome>)
        requires
            old(self).wf(),
        ensures
            final(self).wf(),
            no_duplicate_in_flight(final(self)@.sessions),
            r is None <==> !has_session(old(self)@.sessions, id),
            r is None ==> final(self)@ == old(self)@,
            r matches Some(o) ==> (final(self)@, o@) == spec_handshake(old(self)@, id, topic@, now),
    {
        proof {
            reveal(sessions_view);
        }
        match self.find_session(id) {
            None => None,
            Some(i) => {
                proof {
                    assert(session_slot(old(self)@.sessions, id) == i) by {
                        let c = session_slot(old(self)@.sessions, id);
                        assert(old(self)@.sessions[c].id == id);
                    }
                }
                if self.sessions[i].state != SessionState::Handshaking {
                    return Some(self.end_at(i, SessionState::Failed, Err(SyncFailure::Protocol), now));
                }
                let matches_own = match &self.sessions[i].topic {
                    Some(t) => t.same(&topic),
                    None => false,
                };
                if self.sessions[i].direction == Direction::Initiator {
                    if !matches_own {
                        return Some(
                            self.end_at(i, SessionState::Failed, Err(SyncFailure::TopicMismatch), now),
                        );
                    }
                } else {
                    let peer = self.sessions[i].peer.copy();
                    if self.in_flight(&peer, &topic) {
                        return Some(
                            self.end_at(i, SessionState::Failed, Err(SyncFailure::AlreadyActive), now),
                        );
                    }
                }
                let ghost tm = topic@;
                let ghost os = old(self)@.sessions;
                proof {
                    let si = os[i as int];
                    if si.direction == Direction::Initiator {
                        assert(si.topic == Some(tm));
                        assert forall|a: int| 0 <= a < os.len() && a != i implies !#[trigger] in_flight_for(
                            os[a],
                            si.peer,
                            tm,
                        ) by {
                            assert(os[i as int] == os[i as int]);
                            assert(os[a] == os[a]);
                        }
                    } else {
                        assert forall|a: int| 0 <= a < os.len() implies !#[trigger] in_flight_for(
                            os[a],
                            si.peer,
                            tm,
                        ) by {
                            if in_flight_for(os[a], si.peer, tm) {
                                assert(has_in_flight(os, si.peer, tm));
                            }
                        }
                    }
                }
                self.sessions[i].state = SessionState::Transferring;
                self.sessions[i].topic = Some(topic);
                proof {
                    let ss = self@.sessions;
                    let si = os[i as int];
                    assert(ss =~= os.update(
                        i as int,
                        SessionModel { state: SessionState::Transferring, topic: Some(tm), ..si },
                    ));
                    assert forall|a: int, b: int|
                        #![trigger ss[a], ss[b]]
                        0 <= a < ss.len() && 0 <= b < ss.len() && a != b implies ss[a].id
                        != ss[b].id && (!is_terminal(ss[a].state) && !is_terminal(ss[b].state)
                        && ss[a].topic is Some ==> !(ss[a].peer == ss[b].peer && ss[a].topic
                        == ss[b].topic)) by {
                        assert(os[a] == os[a] && os[b] == os[b]);
                        if a == i {
                            assert(!in_flight_for(os[b], si.peer, tm));
                        } else if b == i {
                            assert(!in_flight_for(os[a], si.peer, tm));
                        } else {
                            assert(ss[a] == os[a] && ss[b] == os[b]);
                        }
                    }
                    assert forall|a: int| 0 <= a < ss.len() implies (#[trigger] ss[a]).id
                        < self@.next_id && !is_terminal(ss[a].state) && (ss[a].direction
                        == Direction::Initiator ==> ss[a].topic is Some) && (ss[a].topic is None
                        ==> (ss[a].state == SessionState::Pending || ss[a].state
                        == SessionState::Handshaking)) by {
                        assert(os[a] == os[a]);
                    }
                }
                Some(StepOutcome::Continue)
            },
        }
    }

    /// Ends every session in flight on `topic` (all of them where `topic` is none) as
    /// cancelled, and returns them in table order.
    pub fn cancel(&mut self, topic: Option<&Topic>, now: u64) -> (r: Vec<SessionEnd>)
        requires
            old(self).wf(),
        ensures
            final(self).wf(),
            no_duplicate_in_flight(final(self)@.sessions),
            final(self)@.sessions == old(self)@.sessions.filter(
                |s: SessionModel| !cancelled_by(s, opt_topic_view(topic)),
            ),
            r@.map_values(|e: SessionEnd| e@.session.id) == old(self)@.sessions.filter(
                |s: SessionModel| cancelled_by(s, opt_topic_view(topic)),
            ).map_values(|s: SessionModel| s.id),
            forall|k: int|
                0 <= k < r@.len() ==> (#[trigger] r@[k])@.result == Err::<(), SyncFailure>(
                    SyncFailure::Cancelled,
                ) && r@[k]@.session.state == SessionState::Failed,
    {
        proof {
            reveal(sessions_view);
        }
        let ghost tv = opt_topic_view(topic);
        let ghost keep = |s: SessionModel| !cancelled_by(s, tv);
        let ghost gone = |s: SessionModel| cancelled_by(s, tv);
        let ghost os = old(self)@.sessions;
        let mut out: Vec<SessionEnd> = Vec::new();
        let mut i: usize = 0;
        proof {
            reveal(Seq::filter);
        }
        assert(os.subrange(0, 0).filter(keep) =~= Seq::<SessionModel>::empty());
        assert(os.subrange(0, 0).filter(gone) =~= Seq::<SessionModel>::empty());
        assert(out@.map_values(|e: SessionEnd| e@.session.id) =~= Seq::<u64>::empty());
        while i < self.sessions.len()
            invariant
                self.wf(),
                self@.next_id == old(self)@.next_id,
                self@.sessions == sessions_view(self.sessions@),
                tv == opt_topic_view(topic),
                keep == (|s: SessionModel| !cancelled_by(s, tv)),
                gone == (|s: SessionModel| cancelled_by(s, tv)),
                i <= self.sessions@.len(),
                self.sessions@.len() - i == os.len() - (os.len() - (self.sessions@.len() - i)),
                ({
                    let d = os.len() - (self.sessions@.len() - i);
                    &&& 0 <= d <= os.len()
                    &&& self@.sessions.subrange(0, i as int) == os.subrange(0, d).filter(keep)
                    &&& self@.sessions.subrange(i as int, self@.sessions.len() as int) == os.subrange(
                        d,
                        os.len() as int,
                    )
                    &&& out@.map_values(|e: SessionEnd| e@.session.id) == os.subrange(0, d).filter(
                        gone,
                    ).map_values(|s: SessionModel| s.id)
                }),
                forall|k: int|
                    0 <= k < out@.len() ==> (#[trigger] out@[k])@.result == Err::<(), SyncFailure>(
                        SyncFailure::Cancelled,
                    ) && out@[k]@.session.state == SessionState::Failed,
            decreases self.sessions@.len() - i,
        {
            let ghost d = os.len() - (self.sessions@.len() - i);
            let ghost cur = self@;
            proof {
                assert(cur.sessions.subrange(i as int, cur.sessions.len() as int)[0] == cur.sessions[i as int]);
                assert(os[d] == cur.sessions[i as int]);
                assert(os.subrange(0, d + 1).drop_last() =~= os.subrange(0, d));
                assert(os.subrange(0, d + 1).last() == os[d]);
                assert(os.subrange(0, d + 1).len() > 0);
                assert(cur.sessions.len() == self.sessions@.len());
                assert(d == os.len() - (cur.sessions.len() - i));
                let tail = cur.sessions.subrange(i as int, cur.sessions.len() as int);
                assert forall|k: int| 0 <= k < cur.sessions.len() - i implies cur.sessions[i + k]
                    == #[trigger] os[d + k] by {
                    assert(tail[k] == cur.sessions[i + k]);
                    assert(os.subrange(d, os.len() as int)[k] == os[d + k]);
                }
            }
            let hit = match topic {
                None => true,
                Some(t) => match &self.sessions[i].topic {
                    Some(st) => st.same(t),
                    None => false,
                },
            };
            assert(hit == cancelled_by(os[d], tv));
            assert(gone(os[d]) == hit);
            assert(keep(os[d]) == !hit);
            if hit {
                let ended = self.end_at(i, SessionState::Failed, Err(SyncFailure::Cancelled), now);
                match ended {
                    StepOutcome::Ended(e) => {
                        let ghost before = out@;
                        out.push(e);
                        proof {
                            reveal(Seq::filter);
                            assert(out@.map_values(|e: SessionEnd| e@.session.id) =~= before.map_values(
                                |e: SessionEnd| e@.session.id,
                            ).push(os[d].id));
                            assert(os.subrange(0, d + 1).filter(gone) == os.subrange(0, d).filter(
                                gone,
                            ).push(os[d]));
                            assert(os.subrange(0, d + 1).filter(gone).map_values(|s: SessionModel| s.id)
                                =~= os.subrange(0, d).filter(gone).map_values(|s: SessionModel| s.id).push(
                                os[d].id,
                            ));
                            assert(os.subrange(0, d + 1).filter(keep) == os.subrange(0, d).filter(
                                keep,
                            ));
                            assert(self@.sessions =~= cur.sessions.remove(i as int));
                            assert(self@.sessions.subrange(0, i as int) =~= cur.sessions.subrange(
                                0,
                                i as int,
                            ));
                            assert(self@.sessions.len() == cur.sessions.len() - 1);
                            assert forall|k: int| 0 <= k < self@.sessions.len() - i implies
                                #[trigger] self@.sessions[i + k] == os[d + 1 + k] by {
                                assert(self@.sessions[i + k] == cur.sessions[i + (k + 1)]);
                                assert(cur.sessions[i + (k + 1)] == os[d + (k + 1)]);
                            }
                            let l = self@.sessions.subrange(i as int, self@.sessions.len() as int);
                            let rr = os.subrange(d + 1, os.len() as int);
                            assert(l.len() == rr.len());
                            assert forall|k: int| 0 <= k < l.len() implies l[k] == rr[k] by {
                                assert(l[k] == self@.sessions[i + k]);
                                assert(rr[k] == os[d + 1 + k]);
                            }
                            assert(l =~= rr);
                        }
                    },
                    _ => {},
                }
            } else {
                proof {
                    reveal(Seq::filter);
                    assert(os.subrange(0, d + 1).filter(keep) == os.subrange(0, d).filter(keep).push(
                        os[d],
                    ));
                    assert(os.subrange(0, d + 1).filter(gone) == os.subrange(0, d).filter(gone));
                    assert(self@.sessions.subrange(0, i + 1) =~= self@.sessions.subrange(
                        0,
                        i as int,
                    ).push(os[d]));
                    assert forall|k: int| 0 <= k < self@.sessions.len() - (i + 1) implies
                        #[trigger] self@.sessions[i + 1 + k] == os[d + 1 + k] by {
                        assert(cur.sessions[i + (k + 1)] == os[d + (k + 1)]);
                    }
                    let l = self@.sessions.subrange(i + 1, self@.sessions.len() as int);
                    let rr = os.subrange(d + 1, os.len() as int);
                    assert(l.len() == rr.len());
                    assert forall|k: int| 0 <= k < l.len() implies l[k] == rr[k] by {
                        assert(l[k] == self@.sessions[i + 1 + k]);
                        assert(rr[k] == os[d + 1 + k]);
                    }
                    assert(l =~= rr);
                }
                i = i + 1;
            }
        }
        proof {
            let d = os.len() - (self.sessions@.len() - i);
            assert(d == os.len());
            assert(os.subrange(0, os.len() as int) =~= os);
            assert(self@.sessions.subrange(0, i as int) =~= self@.sessions);
        }
        out
    }

    fn precedes(
        &self,
        pa: &PeerId,
        ta: &Topic,
        pb: &PeerId,
        tb: &Topic,
    ) -> (r: bool)
        requires
            self.wf(),
        ensures
            r == candidate_precedes(self@.history, pa@, ta@, pb@, tb@),
    {
        let na = self.find_history(pa, ta).is_none();
        let nb = self.find_history(pb, tb).is_none();
        (na && !nb) || (na == nb && (ta.id.precedes(&tb.id) || (ta.id.same(&tb.id)
            && pa.precedes(pb))))
    }

    /// The pair of `peers` and `topics` to promote next, as (topic index, peer index): a
    /// candidate that none precedes, and the first such in a scan over topics, then peers.
    pub fn next_candidate(
        &self,
        peers: &Vec<PeerId>,
        topics: &Vec<Topic>,
        resync: Option<ResyncConfiguration>,
        now: u64,
    ) -> (r: Option<(usize, usize)>)
        requires
            self.wf(),
        ensures
            r is None ==> forall|ti: int, pi: int|
                0 <= ti < topics@.len() && 0 <= pi < peers@.len() ==> !#[trigger] is_candidate(
                    self@,
                    peers@[pi]@,
                    topics@[ti]@,
                    resync,
                    now,
                ),
            r matches Some((ti, pi)) ==> {
                &&& ti < topics@.len() && pi < peers@.len()
                &&& is_candidate(self@, peers@[pi as int]@, topics@[ti as int]@, resync, now)
                &&& forall|tj: int, pj: int|
                    0 <= tj < topics@.len() && 0 <= pj < peers@.len() && #[trigger] is_candidate(
                        self@,
                        peers@[pj]@,
                        topics@[tj]@,
                        resync,
                        now,
                    ) ==> !candidate_precedes(
                        self@.history,
                        peers@[pj]@,
                        topics@[tj]@,
                        peers@[pi as int]@,
                        topics@[ti as int]@,
                    ) && (scanned_before(tj, pj, ti as int, pi as int) ==> candidate_precedes(
                        self@.history,
                        peers@[pi as int]@,
                        topics@[ti as int]@,
                        peers@[pj]@,
                        topics@[tj]@,
                    ))
            },
    {
        let mut best: Option<(usize, usize)> = None;
        let mut ti: usize = 0;
        while ti < topics.len()
            invariant
                self.wf(),
                ti <= topics@.len(),
                best is None ==> forall|tj: int, pj: int|
                    0 <= tj < ti && 0 <= pj < peers@.len() ==> !#[trigger] is_candidate(
                        self@,
                        peers@[pj]@,
                        topics@[tj]@,
                        resync,
                        now,
                    ),
                best matches Some((bt, bp)) ==> {
                    &&& bt < ti && bp < peers@.len()
                    &&& is_candidate(self@, peers@[bp as int]@, topics@[bt as int]@, resync, now)
                    &&& forall|tj: int, pj: int|
                        0 <= tj < ti && 0 <= pj < peers@.len() && #[trigger] is_candidate(
                            self@,
                            peers@[pj]@,
                            topics@[tj]@,
                            resync,
                            now,
                        ) ==> !candidate_precedes(
                            self@.history,
                            peers@[pj]@,
                            topics@[tj]@,
                            peers@[bp as int]@,
                            topics@[bt as int]@,
                        ) && (scanned_before(tj, pj, bt as int, bp as int) ==> candidate_precedes(
                            self@.history,
                            peers@[bp as int]@,
                            topics@[bt as int]@,
                            peers@[pj]@,
                            topics@[tj]@,
                        ))
                },
            decreases topics@.len() - ti,
        {
            let mut pi: usize = 0;
            while pi < peers.len()
                invariant
                    self.wf(),
                    ti < topics@.len(),
                    pi <= peers@.len(),
                    best is None ==> forall|tj: int, pj: int|
                        0 <= pj < peers@.len() && (0 <= tj < ti || (tj == ti && pj < pi))
                            ==> !#[trigger] is_candidate(self@, peers@[pj]@, topics@[tj]@, resync, now),
                    best matches Some((bt, bp)) ==> {
                        &&& scanned_before(bt as int, bp as int, ti as int, pi as int)
                        &&& bt < topics@.len() && bp < peers@.len()
                        &&& is_candidate(self@, peers@[bp as int]@, topics@[bt as int]@, resync, now)
                        &&& forall|tj: int, pj: int|
                            0 <= pj < peers@.len() && (0 <= tj < ti || (tj == ti && pj < pi))
                                && #[trigger] is_candidate(
                                self@,
                                peers@[pj]@,
                                topics@[tj]@,
                                resync,
                                now,
                            ) ==> !candidate_precedes(
                                self@.history,
                                peers@[pj]@,
                                topics@[tj]@,
                                peers@[bp as int]@,
                                topics@[bt as int]@,
                            ) && (scanned_before(tj, pj, bt as int, bp as int)
                                ==> candidate_precedes(
                                self@.history,
                                peers@[bp as int]@,
                                topics@[bt as int]@,
                                peers@[pj]@,
                                topics@[tj]@,
                            ))
                    },
                decreases peers@.len() - pi,
            {
                let p = &peers[pi];
                let t = &topics[ti];
                if !self.in_flight(p, t) && self.may_start(p, t, resync, now) {
                    let replace = match best {
                        None => true,
                        Some((bt, bp)) => self.precedes(p, t, &peers[bp], &topics[bt]),
                    };
                    if replace {
                        proof {
                            let h = self@.history;
                            let pn = peers@[pi as int]@;
                            let tn = topics@[ti as int]@;
                            lemma_lex_lt_irreflexive(pn);
                            lemma_lex_lt_irreflexive(tn.id);
                            match best {
                                Some((bt, bp)) => {
                                    let pb = peers@[bp as int]@;
                                    let tb = topics@[bt as int]@;
                                    assert forall|tj: int, pj: int|
                                        0 <= pj < peers@.len() && (0 <= tj < ti || (tj == ti
                                            && pj < pi)) && #[trigger] is_candidate(
                                            self@,
                                            peers@[pj]@,
                                            topics@[tj]@,
                                            resync,
                                            now,
                                        ) implies !candidate_precedes(
                                        h,
                                        peers@[pj]@,
                                        topics@[tj]@,
                                        pn,
                                        tn,
                                    ) && candidate_precedes(h, pn, tn, peers@[pj]@, topics@[tj]@) by {
                                        let pc = peers@[pj]@;
                                        let tc = topics@[tj]@;
                                        if candidate_precedes(h, pc, tc, pn, tn) {
                                            lemma_candidate_transitive(h, pc, tc, pn, tn, pb, tb);
                                        }
                                        if scanned_before(tj, pj, bt as int, bp as int) {
                                            lemma_candidate_transitive(h, pn, tn, pb, tb, pc, tc);
                                        } else if tj == bt as int && pj == bp as int {
                                            if candidate_precedes(h, pb, tb, pn, tn) {
                                                lemma_candidate_transitive(h, pb, tb, pn, tn, pb, tb);
                                                lemma_lex_lt_irreflexive(pb);
                                                lemma_lex_lt_irreflexive(tb.id);
                                            }
                                        } else {
                                            // scanned after the old best, which it does not
                                            // precede: it comes after the new best
                                            lemma_candidate_total(h, pn, tn, pc, tc, pb, tb);
                                        }
                                    }
                                },
                                None => {},
                            }
                        }
                        best = Some((ti, pi));
                    }
                }
                pi = pi + 1;
            }
            ti = ti + 1;
        }
        best
    }

    /// Applies an event to session `id`; none where no such session is in flight.
    pub fn advance(&mut self, id: u64, ev: SessionEvent, now: u64) -> (r: Option<StepOutcome>)
        requires
            old(self).wf(),
        ensures
            final(self).wf(),
            no_duplicate_in_flight(final(self)@.sessions),
            r is None <==> !has_session(old(self)@.sessions, id),
            r is None ==> final(self)@ == old(self)@,
            r matches Some(o) ==> (final(self)@, o@) == spec_advance(old(self)@, id, ev, now),
    {
        proof {
            reveal(sessions_view);
        }
        match self.find_session(id) {
            None => None,
            Some(i) => {
                proof {
                    assert(session_slot(old(self)@.sessions, id) == i) by {
                        let c = session_slot(old(self)@.sessions, id);
                        assert(old(self)@.sessions[c].id == id);
                    }
                }
                let s = &self.sessions[i];
                let st = s.state;
                let next = match ev {
                    SessionEvent::Connected => if st == SessionState::Pending {
                        SessionState::Handshaking
                    } else {
                        SessionState::Failed
                    },
                    SessionEvent::Data => if st == SessionState::Transferring {
                        SessionState::Transferring
                    } else {
                        SessionState::Failed
                    },
                    SessionEvent::EndOfStream => if st == SessionState::Transferring {
                        SessionState::Draining
                    } else {
                        SessionState::Failed
                    },
                    SessionEvent::Finalised => if st == SessionState::Draining {
                        SessionState::Done
                    } else {
                        SessionState::Failed
                    },
                    SessionEvent::Failed(_) => SessionState::Failed,
                };
                if next == SessionState::Failed {
                    let f = match ev {
                        SessionEvent::Failed(f) => f,
                        _ => SyncFailure::Protocol,
                    };
                    Some(self.end_at(i, next, Err(f), now))
                } else if next == SessionState::Done {
                    Some(self.end_at(i, next, Ok(()), now))
                } else {
                    self.sessions[i].state = next;
                    proof {
                        let os = old(self)@.sessions;
                        let ss = self@.sessions;
                        assert(ss =~= os.update(i as int, SessionModel { state: next, ..os[i as int] }));
                        assert forall|a: int, b: int|
                            #![trigger ss[a], ss[b]]
                            0 <= a < ss.len() && 0 <= b < ss.len() && a != b implies ss[a].id
                            != ss[b].id && (!is_terminal(ss[a].state) && !is_terminal(ss[b].state)
                            && ss[a].topic is Some ==> !(ss[a].peer == ss[b].peer && ss[a].topic
                            == ss[b].topic)) by {
                            assert(ss[a].id == os[a].id && ss[a].peer == os[a].peer && ss[a].topic
                                == os[a].topic && !is_terminal(os[a].state));
                            assert(ss[b].id == os[b].id && ss[b].peer == os[b].peer && ss[b].topic
                                == os[b].topic && !is_terminal(os[b].state));
                        }
                        assert forall|a: int| 0 <= a < ss.len() implies (#[trigger] ss[a]).id
                            < self@.next_id && !is_terminal(ss[a].state) && (ss[a].direction
                            == Direction::Initiator ==> ss[a].topic is Some) && (ss[a].topic is None
                            ==> (ss[a].state == SessionState::Pending || ss[a].state
                            == SessionState::Handshaking)) by {
                            assert(os[a] == os[a]);
                        }
                    }
                    if ev == SessionEvent::Data {
                        Some(StepOutcome::Deliver)
                    } else {
                        Some(StepOutcome::Continue)
                    }
                }
            },
        }
    }
}

} // verus!
