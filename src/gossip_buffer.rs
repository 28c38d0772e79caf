use vstd::prelude::*;

use crate::ids::{copy_bytes, PeerId, TopicId};

verus! {

/// A live message received on a gossip overlay.
#[derive(Clone, Debug, PartialEq, Eq)]
pub struct GossipEntry {
    pub bytes: Vec<u8>,
    pub delivered_from: PeerId,
}

pub struct GossipEntryModel {
    pub bytes: Seq<u8>,
    pub delivered_from: Seq<u8>,
}

impl View for GossipEntry {
    type V = GossipEntryModel;

    open spec fn view(&self) -> GossipEntryModel {
        GossipEntryModel { bytes: self.bytes@, delivered_from: self.delivered_from@ }
    }
}

impl GossipEntry {
    pub fn new(bytes: Vec<u8>, delivered_from: PeerId) -> (r: GossipEntry)
        ensures
            r@.bytes == bytes@,
            r@.delivered_from == delivered_from@,
    {
        GossipEntry { bytes, delivered_from }
    }

    pub fn copy(&self) -> (r: GossipEntry)
        ensures
            r@ == self@,
    {
        GossipEntry { bytes: copy_bytes(&self.bytes), delivered_from: self.delivered_from.copy() }
    }
}

/// Hold counter and held messages of one overlay.
struct TopicQueue {
    topic_id: TopicId,
    holds: usize,
    queue: Vec<GossipEntry>,
}

pub struct TopicQueueModel {
    pub id: Seq<u8>,
    pub holds: nat,
    pub queue: Seq<GossipEntryModel>,
}

impl View for TopicQueue {
    type V = TopicQueueModel;

    closed spec fn view(&self) -> TopicQueueModel {
        TopicQueueModel {
            id: self.topic_id@,
            holds: self.holds as nat,
            queue: self.queue@.map_values(|e: GossipEntry| e@),
        }
    }
}

pub struct BufferModel {
    pub topics: Seq<TopicQueueModel>,
    pub cap: nat,
    pub dropped: nat,
}

/// A step the buffer takes: a sync session starts holding an overlay, a session ends, or a
/// live message arrives.
pub enum BufferOp {
    Hold(Seq<u8>),
    Release(Seq<u8>),
    Arrive(Seq<u8>, GossipEntryModel),
}

/// Sentinel stored in the dropped counter once it can count no further.
pub const DROPPED_MAX: u64 = 0xffff_ffff_ffff_ffff;

/// Per-overlay hold-then-release buffer for live messages.
///
/// While a sync session holds an overlay, live messages for it are queued; when the last
/// hold ends the queue is handed out in arrival order, before any later live message. The
/// queue keeps at most `max_buffered_per_topic` messages and drops the oldest beyond that.
pub struct GossipBuffer {
    topics: Vec<TopicQueue>,
    max_buffered_per_topic: usize,
    dropped: u64,
}

impl View for GossipBuffer {
    type V = BufferModel;

    closed spec fn view(&self) -> BufferModel {
        BufferModel {
            topics: self.topics@.map_values(|t: TopicQueue| t@),
            cap: self.max_buffered_per_topic as nat,
            dropped: self.dropped as nat,
        }
    }
}

pub open spec fn has_slot(ts: Seq<TopicQueueModel>, id: Seq<u8>) -> bool {
    exists|i: int| 0 <= i < ts.len() && ts[i].id == id
}

pub open spec fn slot(ts: Seq<TopicQueueModel>, id: Seq<u8>) -> int {
    if has_slot(ts, id) {
        choose|i: int| 0 <= i < ts.len() && ts[i].id == id
    } else {
        -1
    }
}

/// Number of sessions currently holding overlay `id`.
pub open spec fn holds_of(m: BufferModel, id: Seq<u8>) -> nat {
    if has_slot(m.topics, id) {
        m.topics[slot(m.topics, id)].holds
    } else {
        0
    }
}

/// Messages held for overlay `id`, oldest first.
pub open spec fn queue_of(m: BufferModel, id: Seq<u8>) -> Seq<GossipEntryModel> {
    if has_slot(m.topics, id) {
        m.topics[slot(m.topics, id)].queue
    } else {
        Seq::empty()
    }
}

pub open spec fn buffer_wf(m: BufferModel) -> bool {
    &&& m.cap > 0
    &&& m.dropped <= DROPPED_MAX
    &&& forall|i: int, j: int|
        0 <= i < m.topics.len() && 0 <= j < m.topics.len() && i != j ==> m.topics[i].id
            != m.topics[j].id
    &&& forall|i: int|
        0 <= i < m.topics.len() ==> m.topics[i].holds > 0 && m.topics[i].queue.len() <= m.cap
}

pub open spec fn count_dropped(d: nat) -> nat {
    if d < DROPPED_MAX {
        d + 1
    } else {
        d
    }
}

pub open spec fn spec_hold(m: BufferModel, id: Seq<u8>) -> BufferModel {
    if has_slot(m.topics, id) {
        let i = slot(m.topics, id);
        BufferModel {
            topics: m.topics.update(i, TopicQueueModel { holds: m.topics[i].holds + 1, ..m.topics[i] }),
            ..m
        }
    } else {
        BufferModel {
            topics: m.topics.push(TopicQueueModel { id, holds: 1, queue: Seq::empty() }),
            ..m
        }
    }
}

pub open spec fn spec_release(m: BufferModel, id: Seq<u8>) -> (BufferModel, Seq<GossipEntryModel>) {
    if !has_slot(m.topics, id) {
        (m, Seq::empty())
    } else {
        let i = slot(m.topics, id);
        if m.topics[i].holds > 1 {
            (
                BufferModel {
                    topics: m.topics.update(
                        i,
                        TopicQueueModel { holds: (m.topics[i].holds - 1) as nat, ..m.topics[i] },
                    ),
                    ..m
                },
                Seq::empty(),
            )
        } else {
            (BufferModel { topics: m.topics.remove(i), ..m }, m.topics[i].queue)
        }
    }
}

pub open spec fn spec_arrive(m: BufferModel, id: Seq<u8>, e: GossipEntryModel) -> (
    BufferModel,
    Seq<GossipEntryModel>,
) {
    if !has_slot(m.topics, id) {
        (m, seq![e])
    } else {
        let i = slot(m.topics, id);
        let q = m.topics[i].queue.push(e);
        if q.len() > m.cap {
            (
                BufferModel {
                    topics: m.topics.update(i, TopicQueueModel { queue: q.drop_first(), ..m.topics[i] }),
                    dropped: count_dropped(m.dropped),
                    ..m
                },
                Seq::empty(),
            )
        } else {
            (
                BufferModel {
                    topics: m.topics.update(i, TopicQueueModel { queue: q, ..m.topics[i] }),
                    ..m
                },
                Seq::empty(),
            )
        }
    }
}

/// One step: the next state and the messages handed to the application, in order.
pub open spec fn spec_step(m: BufferModel, op: BufferOp) -> (BufferModel, Seq<GossipEntryModel>) {
    match op {
        BufferOp::Hold(id) => (spec_hold(m, id), Seq::empty()),
        BufferOp::Release(id) => spec_release(m, id),
        BufferOp::Arrive(id, e) => spec_arrive(m, id, e),
    }
}

/// Which overlay an op concerns.
pub open spec fn op_topic(op: BufferOp) -> Seq<u8> {
    match op {
        BufferOp::Hold(id) => id,
        BufferOp::Release(id) => id,
        BufferOp::Arrive(id, _) => id,
    }
}

/// Several steps: the final state and every message handed out, per step in order, each
/// tagged with its overlay.
pub open spec fn spec_run(m: BufferModel, ops: Seq<BufferOp>) -> (
    BufferModel,
    Seq<(Seq<u8>, GossipEntryModel)>,
)
    decreases ops.len(),
{
    if ops.len() == 0 {
        (m, Seq::empty())
    } else {
        let (m1, out) = spec_step(m, ops[0]);
        let (m2, rest) = spec_run(m1, ops.drop_first());
        (m2, out.map_values(|e: GossipEntryModel| (op_topic(ops[0]), e)) + rest)
    }
}

proof fn lemma_slot(ts: Seq<TopicQueueModel>, id: Seq<u8>, i: int)
    requires
        0 <= i < ts.len(),
        ts[i].id == id,
        forall|a: int, b: int|
            0 <= a < ts.len() && 0 <= b < ts.len() && a != b ==> ts[a].id != ts[b].id,
    ensures
        has_slot(ts, id),
        slot(ts, id) == i,
{
}

proof fn lemma_update_keeps_slots(ts: Seq<TopicQueueModel>, i: int, t: TopicQueueModel)
    requires
        0 <= i < ts.len(),
        t.id == ts[i].id,
        forall|a: int, b: int|
            0 <= a < ts.len() && 0 <= b < ts.len() && a != b ==> ts[a].id != ts[b].id,
    ensures
        forall|a: int, b: int|
            0 <= a < ts.update(i, t).len() && 0 <= b < ts.update(i, t).len() && a != b
                ==> ts.update(i, t)[a].id != ts.update(i, t)[b].id,
        forall|x: Seq<u8>|
            #![trigger has_slot(ts.update(i, t), x)]
            has_slot(ts.update(i, t), x) == has_slot(ts, x) && (has_slot(ts, x) ==> slot(
                ts.update(i, t),
                x,
            ) == slot(ts, x)),
{
    let us = ts.update(i, t);
    assert forall|x: Seq<u8>| #![trigger has_slot(us, x)]
        has_slot(us, x) == has_slot(ts, x) && (has_slot(ts, x) ==> slot(us, x) == slot(ts, x)) by {
        if has_slot(ts, x) {
            let j = slot(ts, x);
            assert(us[j].id == x);
            lemma_slot(us, x, j);
        }
        if has_slot(us, x) {
            let j = slot(us, x);
            assert(ts[j].id == x);
        }
    }
}

proof fn lemma_push_keeps_slots(ts: Seq<TopicQueueModel>, t: TopicQueueModel)
    requires
        !has_slot(ts, t.id),
        forall|a: int, b: int|
            0 <= a < ts.len() && 0 <= b < ts.len() && a != b ==> ts[a].id != ts[b].id,
    ensures
        forall|a: int, b: int|
            0 <= a < ts.push(t).len() && 0 <= b < ts.push(t).len() && a != b ==> ts.push(t)[a].id
                != ts.push(t)[b].id,
        forall|x: Seq<u8>|
            #![trigger has_slot(ts.push(t), x)]
            x != t.id ==> has_slot(ts.push(t), x) == has_slot(ts, x) && (has_slot(ts, x) ==> slot(
                ts.push(t),
                x,
            ) == slot(ts, x)),
{
    let us = ts.push(t);
    assert forall|a: int, b: int|
        0 <= a < us.len() && 0 <= b < us.len() && a != b implies us[a].id != us[b].id by {
        if a == ts.len() {
            assert(ts[b].id == us[b].id);
        } else if b == ts.len() {
            assert(ts[a].id == us[a].id);
        }
    }
    assert forall|x: Seq<u8>| #![trigger has_slot(us, x)] x != t.id implies has_slot(us, x)
        == has_slot(ts, x) && (has_slot(ts, x) ==> slot(us, x) == slot(ts, x)) by {
        if has_slot(ts, x) {
            let j = slot(ts, x);
            assert(us[j].id == x);
            lemma_slot(us, x, j);
        }
        if has_slot(us, x) {
            let j = slot(us, x);
            assert(ts[j].id == x);
        }
    }
}

proof fn lemma_remove_keeps_slots(ts: Seq<TopicQueueModel>, i: int)
    requires
        0 <= i < ts.len(),
        forall|a: int, b: int|
            0 <= a < ts.len() && 0 <= b < ts.len() && a != b ==> ts[a].id != ts[b].id,
    ensures
        forall|a: int, b: int|
            0 <= a < ts.remove(i).len() && 0 <= b < ts.remove(i).len() && a != b
                ==> ts.remove(i)[a].id != ts.remove(i)[b].id,
        forall|x: Seq<u8>|
            #![trigger has_slot(ts.remove(i), x)]
            x != ts[i].id ==> has_slot(ts.remove(i), x) == has_slot(ts, x) && (has_slot(ts, x)
                ==> ts.remove(i)[slot(ts.remove(i), x)] == ts[slot(ts, x)]),
{
    let us = ts.remove(i);
    assert forall|a: int, b: int|
        0 <= a < us.len() && 0 <= b < us.len() && a != b implies us[a].id != us[b].id by {
        let oa = if a < i { a } else { a + 1 };
        let ob = if b < i { b } else { b + 1 };
        assert(us[a] == ts[oa]);
        assert(us[b] == ts[ob]);
    }
    assert forall|x: Seq<u8>| #![trigger has_slot(us, x)] x != ts[i].id implies has_slot(us, x)
        == has_slot(ts, x) && (has_slot(ts, x) ==> us[slot(us, x)] == ts[slot(ts, x)]) by {
        if has_slot(ts, x) {
            let j = slot(ts, x);
            let nj = if j < i { j } else { j - 1 };
            assert(us[nj] == ts[j]);
            lemma_slot(us, x, nj);
        }
        if has_slot(us, x) {
            let j = slot(us, x);
            let oj = if j < i { j } else { j + 1 };
            assert(ts[oj].id == x);
        }
    }
}

/// One step keeps the buffer well formed, and a step on another overlay leaves the hold
/// counter and the queue of `id` as they were.
pub proof fn lemma_step_frame(m: BufferModel, op: BufferOp, id: Seq<u8>)
    requires
        buffer_wf(m),
    ensures
        buffer_wf(spec_step(m, op).0),
        op_topic(op) != id ==> holds_of(spec_step(m, op).0, id) == holds_of(m, id) && queue_of(
            spec_step(m, op).0,
            id,
        ) == queue_of(m, id),
        op_topic(op) == id && !(op is Release) ==> holds_of(spec_step(m, op).0, id) >= holds_of(
            m,
            id,
        ),
{
    let ts = m.topics;
    let t = op_topic(op);
    let m1 = spec_step(m, op).0;
    if has_slot(ts, t) {
        let i = slot(ts, t);
        match op {
            BufferOp::Release(_) => {
                if ts[i].holds > 1 {
                    lemma_update_keeps_slots(ts, i, m1.topics[i]);
                    assert(has_slot(m1.topics, id) == has_slot(ts, id));
                } else {
                    lemma_remove_keeps_slots(ts, i);
                    assert(m1.topics == ts.remove(i));
                    assert(has_slot(m1.topics, id) == has_slot(ts, id) || id == t);
                    assert forall|k: int| 0 <= k < m1.topics.len() implies m1.topics[k].holds > 0
                        && m1.topics[k].queue.len() <= m1.cap by {
                        let ok = if k < i { k } else { k + 1 };
                        assert(m1.topics[k] == ts[ok]);
                    }
                }
            },
            _ => {
                lemma_update_keeps_slots(ts, i, m1.topics[i]);
                assert(has_slot(m1.topics, id) == has_slot(ts, id));
                assert(has_slot(m1.topics, t));
            },
        }
    } else {
        match op {
            BufferOp::Hold(_) => {
                let nt = TopicQueueModel { id: t, holds: 1, queue: Seq::empty() };
                lemma_push_keeps_slots(ts, nt);
                assert(m1.topics == ts.push(nt));
                assert(has_slot(m1.topics, id) == has_slot(ts, id) || id == t);
            },
            _ => {},
        }
    }
}

/// While a sync session holds overlay `id`, no live message of `id` reaches the
/// application, whatever else happens, until the holds on `id` are released: everything
/// that the session hands over is delivered before the gossip that arrived meanwhile.
pub proof fn lemma_held_gossip_waits(m: BufferModel, ops: Seq<BufferOp>, id: Seq<u8>)
    requires
        buffer_wf(m),
        holds_of(m, id) > 0,
        forall|k: int| 0 <= k < ops.len() ==> !(ops[k] == BufferOp::Release(id)),
    ensures
        buffer_wf(spec_run(m, ops).0),
        holds_of(spec_run(m, ops).0, id) > 0,
        forall|k: int| 0 <= k < spec_run(m, ops).1.len() ==> spec_run(m, ops).1[k].0 != id,
    decreases ops.len(),
{
    if ops.len() > 0 {
        let (m1, out) = spec_step(m, ops[0]);
        lemma_step_frame(m, ops[0], id);
        if op_topic(ops[0]) == id {
            match ops[0] {
                BufferOp::Release(x) => {
                    assert(ops[0] == BufferOp::Release(id));
                },
                BufferOp::Arrive(_, _) => {
                    assert(out.len() == 0);
                },
                _ => {},
            }
        }
        let tail = ops.drop_first();
        assert forall|k: int| 0 <= k < tail.len() implies !(tail[k] == BufferOp::Release(id)) by {
            assert(tail[k] == ops[k + 1]);
        }
        lemma_held_gossip_waits(m1, tail, id);
        let tagged = out.map_values(|e: GossipEntryModel| (op_topic(ops[0]), e));
        let rest = spec_run(m1, tail).1;
        assert(spec_run(m, ops).1 == tagged + rest);
        assert forall|k: int| 0 <= k < spec_run(m, ops).1.len() implies spec_run(m, ops).1[k].0
            != id by {
            if k < tagged.len() {
                assert(tagged[k].0 == op_topic(ops[0]));
            } else {
                assert(spec_run(m, ops).1[k] == rest[k - tagged.len()]);
            }
        }
    }
}

/// The release that ends the last hold on `id` hands out, first, every message held for
/// `id`, oldest first, and afterwards `id` is no longer held.
pub proof fn lemma_release_flushes_in_order(m: BufferModel, id: Seq<u8>)
    requires
        buffer_wf(m),
        holds_of(m, id) == 1,
    ensures
        spec_release(m, id).1 == queue_of(m, id),
        holds_of(spec_release(m, id).0, id) == 0,
        queue_of(spec_release(m, id).0, id).len() == 0,
{
    let i = slot(m.topics, id);
    lemma_remove_keeps_slots(m.topics, i);
    let ns = m.topics.remove(i);
    if has_slot(ns, id) {
        let j = slot(ns, id);
        let oj = if j < i { j } else { j + 1 };
        assert(m.topics[oj].id == id);
    }
}

/// What one step does to the hold counter and the queue of the overlay it concerns, and
/// what it hands to the application.
pub proof fn lemma_step_observed(m: BufferModel, op: BufferOp)
    requires
        buffer_wf(m),
    ensures
        ({
            let id = op_topic(op);
            let (m1, out) = spec_step(m, op);
            match op {
                BufferOp::Hold(_) => holds_of(m1, id) == holds_of(m, id) + 1 && queue_of(m1, id)
                    == queue_of(m, id) && out.len() == 0,
                BufferOp::Release(_) => if holds_of(m, id) == 0 {
                    m1 == m && out.len() == 0
                } else if holds_of(m, id) == 1 {
                    holds_of(m1, id) == 0 && queue_of(m1, id).len() == 0 && out == queue_of(m, id)
                } else {
                    holds_of(m1, id) == holds_of(m, id) - 1 && queue_of(m1, id) == queue_of(m, id)
                        && out.len() == 0
                },
                BufferOp::Arrive(_, e) => if holds_of(m, id) == 0 {
                    m1 == m && out == seq![e]
                } else {
                    holds_of(m1, id) == holds_of(m, id) && out.len() == 0 && queue_of(m1, id) == (
                    if queue_of(m, id).len() + 1 > m.cap {
                        queue_of(m, id).push(e).drop_first()
                    } else {
                        queue_of(m, id).push(e)
                    })
                },
            }
        }),
{
    let id = op_topic(op);
    let ts = m.topics;
    let m1 = spec_step(m, op).0;
    if has_slot(ts, id) {
        let i = slot(ts, id);
        match op {
            BufferOp::Release(_) => {
                if ts[i].holds > 1 {
                    lemma_update_keeps_slots(ts, i, m1.topics[i]);
                    assert(has_slot(m1.topics, id));
                } else {
                    lemma_release_flushes_in_order(m, id);
                }
            },
            _ => {
                lemma_update_keeps_slots(ts, i, m1.topics[i]);
                assert(has_slot(m1.topics, id));
            },
        }
    } else {
        match op {
            BufferOp::Hold(_) => {
                let nt = TopicQueueModel { id, holds: 1, queue: Seq::empty() };
                lemma_push_keeps_slots(ts, nt);
                assert(m1.topics[ts.len() as int] == nt);
                lemma_slot(m1.topics, id, ts.len() as int);
            },
            _ => {},
        }
    }
}

/// Holding `id` counts one more hold on `id` and changes no other count.
pub proof fn lemma_hold_counts(m: BufferModel, id: Seq<u8>)
    requires
        buffer_wf(m),
    ensures
        buffer_wf(spec_hold(m, id)),
        forall|x: Seq<u8>|
            #[trigger] holds_of(spec_hold(m, id), x) == holds_of(m, x) + if x == id {
                1nat
            } else {
                0nat
            },
{
    lemma_step_observed(m, BufferOp::Hold(id));
    assert forall|x: Seq<u8>| #[trigger] holds_of(spec_hold(m, id), x) == holds_of(m, x) + if x
        == id {
        1nat
    } else {
        0nat
    } by {
        lemma_step_frame(m, BufferOp::Hold(id), x);
    }
    lemma_step_frame(m, BufferOp::Hold(id), id);
}

/// Releasing a held `id` counts one hold fewer on `id` and changes no other count.
pub proof fn lemma_release_counts(m: BufferModel, id: Seq<u8>)
    requires
        buffer_wf(m),
        holds_of(m, id) >= 1,
    ensures
        buffer_wf(spec_release(m, id).0),
        forall|x: Seq<u8>|
            #[trigger] holds_of(spec_release(m, id).0, x) + (if x == id {
                1nat
            } else {
                0nat
            }) == holds_of(m, x),
{
    lemma_step_observed(m, BufferOp::Release(id));
    assert forall|x: Seq<u8>| #[trigger] holds_of(spec_release(m, id).0, x) + (if x == id {
        1nat
    } else {
        0nat
    }) == holds_of(m, x) by {
        lemma_step_frame(m, BufferOp::Release(id), x);
    }
    lemma_step_frame(m, BufferOp::Release(id), id);
}

/// A live message changes no hold count.
pub proof fn lemma_arrive_counts(m: BufferModel, id: Seq<u8>, e: GossipEntryModel)
    requires
        buffer_wf(m),
    ensures
        buffer_wf(spec_arrive(m, id, e).0),
        forall|x: Seq<u8>| #[trigger] holds_of(spec_arrive(m, id, e).0, x) == holds_of(m, x),
{
    lemma_step_observed(m, BufferOp::Arrive(id, e));
    assert forall|x: Seq<u8>| #[trigger] holds_of(spec_arrive(m, id, e).0, x) == holds_of(m, x) by {
        lemma_step_frame(m, BufferOp::Arrive(id, e), x);
    }
    lemma_step_frame(m, BufferOp::Arrive(id, e), id);
}

impl GossipBuffer {
    pub open spec fn wf(&self) -> bool {
        buffer_wf(self@)
    }

    /// An empty buffer that keeps at most `max_buffered_per_topic` messages per overlay.
    pub fn new(max_buffered_per_topic: usize) -> (r: GossipBuffer)
        requires
            max_buffered_per_topic > 0,
        ensures
            r.wf(),
            r@.topics.len() == 0,
            forall|id: Seq<u8>| holds_of(r@, id) == 0 && queue_of(r@, id).len() == 0,
            r@.cap == max_buffered_per_topic,
            r@.dropped == 0,
    {
        GossipBuffer { topics: Vec::new(), max_buffered_per_topic, dropped: 0 }
    }

    /// Most messages held per overlay.
    pub fn capacity(&self) -> (r: usize)
        ensures
            r == self@.cap,
    {
        self.max_buffered_per_topic
    }

    /// Number of messages dropped because a queue was full.
    pub fn dropped(&self) -> (r: u64)
        ensures
            r == self@.dropped,
    {
        self.dropped
    }

    /// Number of sessions holding overlay `id`.
    pub fn holds(&self, id: &TopicId) -> (r: usize)
        requires
            self.wf(),
        ensures
            r == holds_of(self@, id@),
    {
        match self.find(id) {
            Some(i) => self.topics[i].holds,
            None => 0,
        }
    }

    /// Whether live messages for overlay `id` are currently held back.
    pub fn is_holding(&self, id: &TopicId) -> (r: bool)
        requires
            self.wf(),
        ensures
            r == (holds_of(self@, id@) > 0),
    {
        match self.find(id) {
            Some(_) => true,
            None => false,
        }
    }

    fn find(&self, id: &TopicId) -> (r: Option<usize>)
        requires
            self.wf(),
        ensures
            r is None <==> !has_slot(self@.topics, id@),
            r matches Some(i) ==> i < self@.topics.len() && i == slot(self@.topics, id@),
    {
        let mut i: usize = 0;
        while i < self.topics.len()
            invariant
                self.wf(),
                i <= self.topics@.len(),
                forall|k: int| 0 <= k < i ==> self.topics@[k].topic_id@ != id@,
            decreases self.topics@.len() - i,
        {
            if self.topics[i].topic_id.same(id) {
                proof {
                    lemma_slot(self@.topics, id@, i as int);
                }
                return Some(i);
            }
            i = i + 1;
        }
        proof {
            assert forall|k: int| 0 <= k < self@.topics.len() implies self@.topics[k].id != id@ by {
                assert(self@.topics[k] == self.topics@[k]@);
            }
        }
        None
    }

    /// A sync session on overlay `id` enters `pending`: live messages for it are held.
    pub fn hold(&mut self, id: &TopicId)
        requires
            old(self).wf(),
            holds_of(old(self)@, id@) < usize::MAX,
        ensures
            final(self).wf(),
            final(self)@ == spec_hold(old(self)@, id@),
            holds_of(final(self)@, id@) == holds_of(old(self)@, id@) + 1,
            queue_of(final(self)@, id@) == queue_of(old(self)@, id@),
    {
        proof {
            lemma_step_observed(old(self)@, BufferOp::Hold(id@));
        }
        match self.find(id) {
            Some(i) => {
                let h = self.topics[i].holds;
                self.topics[i].holds = h + 1;
                proof {
                    assert(self@.topics =~= spec_hold(old(self)@, id@).topics);
                }
            },
            None => {
                self.topics.push(TopicQueue { topic_id: id.copy(), holds: 1, queue: Vec::new() });
                proof {
                    assert(self.topics@.last()@.queue =~= Seq::<GossipEntryModel>::empty());
                    assert(self@.topics =~= spec_hold(old(self)@, id@).topics);
                }
            },
        }
    }

    /// A sync session on overlay `id` reached a terminal state. When it was the last one
    /// holding the overlay, the held messages are returned, oldest first, for delivery
    /// before any later live message.
    pub fn release(&mut self, id: &TopicId) -> (r: Vec<GossipEntry>)
        requires
            old(self).wf(),
        ensures
            final(self).wf(),
            final(self)@ == spec_release(old(self)@, id@).0,
            r@.map_values(|e: GossipEntry| e@) == spec_release(old(self)@, id@).1,
            holds_of(old(self)@, id@) == 0 ==> final(self)@ == old(self)@ && r@.len() == 0,
            holds_of(old(self)@, id@) == 1 ==> holds_of(final(self)@, id@) == 0 && queue_of(
                final(self)@,
                id@,
            ).len() == 0 && r@.map_values(|e: GossipEntry| e@) == queue_of(old(self)@, id@),
            holds_of(old(self)@, id@) > 1 ==> holds_of(final(self)@, id@) == holds_of(old(self)@, id@)
                - 1 && queue_of(final(self)@, id@) == queue_of(old(self)@, id@) && r@.len() == 0,
    {
        proof {
            lemma_step_observed(old(self)@, BufferOp::Release(id@));
        }
        match self.find(id) {
            None => Vec::new(),
            Some(i) => {
                if self.topics[i].holds > 1 {
                    let h = self.topics[i].holds;
                    self.topics[i].holds = h - 1;
                    proof {
                        assert(self@.topics =~= spec_release(old(self)@, id@).0.topics);
                    }
                    Vec::new()
                } else {
                    let t = self.topics.remove(i);
                    proof {
                        assert(self@.topics =~= spec_release(old(self)@, id@).0.topics);
                    }
                    t.queue
                }
            },
        }
    }

    /// A live message for overlay `id` arrived. It is returned for delivery right away
    /// unless a sync session holds the overlay; then it is queued, and when the queue is
    /// full its oldest message is dropped and counted.
    pub fn arrive(&mut self, id: &TopicId, e: GossipEntry) -> (r: Option<GossipEntry>)
        requires
            old(self).wf(),
        ensures
            final(self).wf(),
            final(self)@ == spec_arrive(old(self)@, id@, e@).0,
            spec_arrive(old(self)@, id@, e@).1 == (match r {
                Some(x) => seq![x@],
                None => Seq::<GossipEntryModel>::empty(),
            }),
            holds_of(old(self)@, id@) == 0 ==> final(self)@ == old(self)@ && (r matches Some(x)
                && x@ == e@),
            holds_of(old(self)@, id@) > 0 ==> r is None && holds_of(final(self)@, id@) == holds_of(
                old(self)@,
                id@,
            ) && queue_of(final(self)@, id@) == if queue_of(old(self)@, id@).len() + 1 > old(self)@.cap {
                queue_of(old(self)@, id@).push(e@).drop_first()
            } else {
                queue_of(old(self)@, id@).push(e@)
            },
    {
        proof {
            lemma_step_observed(old(self)@, BufferOp::Arrive(id@, e@));
        }
        match self.find(id) {
            None => Some(e),
            Some(i) => {
                let ghost em = e@;
                let mut t = self.topics.remove(i);
                t.queue.push(e);
                if t.queue.len() > self.max_buffered_per_topic {
                    t.queue.remove(0);
                    if self.dropped < DROPPED_MAX {
                        self.dropped = self.dropped + 1;
                    }
                    proof {
                        assert(t@.queue =~= old(self)@.topics[i as int].queue.push(em).drop_first());
                    }
                } else {
                    proof {
                        assert(t@.queue =~= old(self)@.topics[i as int].queue.push(em));
                    }
                }
                self.topics.insert(i, t);
                proof {
                    assert(self@.topics =~= spec_arrive(old(self)@, id@, em).0.topics);
                }
                None
            },
        }
    }

    /// Drops every hold and held message of overlay `id` (its sessions were cancelled).
    pub fn discard(&mut self, id: &TopicId)
        requires
            old(self).wf(),
        ensures
            final(self).wf(),
            holds_of(final(self)@, id@) == 0,
            queue_of(final(self)@, id@).len() == 0,
            forall|other: Seq<u8>|
                other != id@ ==> holds_of(final(self)@, other) == holds_of(old(self)@, other)
                    && queue_of(final(self)@, other) == queue_of(old(self)@, other),
    {
        match self.find(id) {
            None => {},
            Some(i) => {
                let ghost ts = old(self)@.topics;
                self.topics.remove(i);
                proof {
                    let ns = self@.topics;
                    assert(ns =~= ts.remove(i as int));
                    assert forall|other: Seq<u8>| other != id@ implies holds_of(self@, other)
                        == holds_of(old(self)@, other) && queue_of(self@, other) == queue_of(
                        old(self)@,
                        other,
                    ) by {
                        if has_slot(ts, other) {
                            let j = slot(ts, other);
                            let nj = if j < i { j } else { j - 1 };
                            lemma_slot(ns, other, nj);
                        } else {
                            if has_slot(ns, other) {
                                let j = slot(ns, other);
                                let oj = if j < i { j } else { j + 1 };
                                assert(ts[oj].id == other);
                            }
                        }
                    }
                    if has_slot(ns, id@) {
                        let j = slot(ns, id@);
                        let oj = if j < i { j } else { j + 1 };
                        assert(ts[oj].id == id@);
                    }
                }
            },
        }
    }
}

} // verus!
