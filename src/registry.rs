use vstd::prelude::*;

use crate::ids::{Topic, TopicId, TopicModel};

verus! {

/// Active subscriptions, one per topic. An overlay is joined while at least one
/// subscription rides on it.
pub struct TopicRegistry {
    topics: Vec<Topic>,
}

pub open spec fn subs_view(v: Seq<Topic>) -> Seq<TopicModel> {
    v.map_values(|t: Topic| t@)
}

/// Whether some subscription rides overlay `id`.
pub open spec fn overlay_joined(s: Seq<TopicModel>, id: Seq<u8>) -> bool {
    exists|i: int| 0 <= i < s.len() && s[i].id == id
}

/// Why a subscription change was refused.
#[derive(Clone, Copy, Debug, PartialEq, Eq, Structural)]
pub enum RegistryError {
    AlreadySubscribed,
    NotSubscribed,
}

impl View for TopicRegistry {
    type V = Seq<TopicModel>;

    closed spec fn view(&self) -> Seq<TopicModel> {
        subs_view(self.topics@)
    }
}

impl TopicRegistry {
    pub closed spec fn wf(&self) -> bool {
        self@.no_duplicates()
    }

    pub fn new() -> (r: TopicRegistry)
        ensures
            r.wf(),
            r@.len() == 0,
    {
        let r = TopicRegistry { topics: Vec::new() };
        assert(r@ =~= Seq::<TopicModel>::empty());
        r
    }

    fn position(&self, topic: &Topic) -> (r: Option<usize>)
        ensures
            r is None ==> !self@.contains(topic@),
            r matches Some(i) ==> i < self@.len() && self@[i as int] == topic@,
    {
        let mut i: usize = 0;
        while i < self.topics.len()
            invariant
                i <= self.topics@.len(),
                forall|k: int| 0 <= k < i ==> self@[k] != topic@,
            decreases self.topics@.len() - i,
        {
            assert(self@[i as int] == self.topics@[i as int]@);
            if self.topics[i].same(topic) {
                return Some(i);
            }
            i = i + 1;
        }
        None
    }

    /// Whether `topic` is subscribed.
    pub fn contains(&self, topic: &Topic) -> (r: bool)
        ensures
            r == self@.contains(topic@),
    {
        self.position(topic).is_some()
    }

    /// Whether some subscription rides overlay `id`.
    pub fn joined(&self, id: &TopicId) -> (r: bool)
        ensures
            r == overlay_joined(self@, id@),
    {
        let mut i: usize = 0;
        while i < self.topics.len()
            invariant
                i <= self.topics@.len(),
                forall|k: int| 0 <= k < i ==> self@[k].id != id@,
            decreases self.topics@.len() - i,
        {
            assert(self@[i as int] == self.topics@[i as int]@);
            if self.topics[i].id.same(id) {
                return true;
            }
            i = i + 1;
        }
        false
    }

    /// Adds a subscription to `topic`; returns whether its overlay has to be joined, that
    /// is whether no other subscription rides it yet.
    pub fn subscribe(&mut self, topic: Topic) -> (r: Result<bool, RegistryError>)
        requires
            old(self).wf(),
        ensures
            final(self).wf(),
            old(self)@.contains(topic@) ==> r == Err::<bool, RegistryError>(
                RegistryError::AlreadySubscribed,
            ) && final(self)@ == old(self)@,
            !old(self)@.contains(topic@) ==> r == Ok::<bool, RegistryError>(
                !overlay_joined(old(self)@, topic@.id),
            ) && final(self)@ == old(self)@.push(topic@),
    {
        if self.contains(&topic) {
            return Err(RegistryError::AlreadySubscribed);
        }
        let join = !self.joined(&topic.id);
        let ghost tm = topic@;
        self.topics.push(topic);
        proof {
            let o = old(self)@;
            assert(self@ =~= o.push(tm));
            assert forall|a: int, b: int|
                0 <= a < self@.len() && 0 <= b < self@.len() && a != b implies self@[a]
                != self@[b] by {
                if a == o.len() {
                    assert(o.contains(o[b]));
                } else if b == o.len() {
                    assert(o.contains(o[a]));
                }
            }
        }
        Ok(join)
    }

    /// Removes the subscription to `topic`; returns whether its overlay is to be left, that
    /// is whether no other subscription rides it any more.
    pub fn unsubscribe(&mut self, topic: &Topic) -> (r: Result<bool, RegistryError>)
        requires
            old(self).wf(),
        ensures
            final(self).wf(),
            !old(self)@.contains(topic@) ==> r == Err::<bool, RegistryError>(
                RegistryError::NotSubscribed,
            ) && final(self)@ == old(self)@,
            old(self)@.contains(topic@) ==> r == Ok::<bool, RegistryError>(
                !overlay_joined(final(self)@, topic@.id),
            ) && final(self)@ == old(self)@.remove(old(self)@.index_of(topic@)),
    {
        match self.position(topic) {
            None => Err(RegistryError::NotSubscribed),
            Some(i) => {
                proof {
                    let o = old(self)@;
                    let c = o.index_of(topic@);
                    assert(o[c] == topic@);
                    assert(o[i as int] == topic@);
                }
                self.topics.remove(i);
                proof {
                    let o = old(self)@;
                    assert(self@ =~= o.remove(i as int));
                    assert forall|a: int, b: int|
                        0 <= a < self@.len() && 0 <= b < self@.len() && a != b implies self@[a]
                        != self@[b] by {
                        let oa = if a < i { a } else { a + 1 };
                        let ob = if b < i { b } else { b + 1 };
                        assert(self@[a] == o[oa]);
                        assert(self@[b] == o[ob]);
                    }
                }
                Ok(!self.joined(&topic.id))
            },
        }
    }

    /// The subscriptions that a message of overlay `id` is dispatched to: every one whose
    /// topic rides it, in subscription order.
    pub fn fan_out(&self, id: &TopicId) -> (r: Vec<Topic>)
        ensures
            subs_view(r@) == self@.filter(|t: TopicModel| t.id == id@),
    {
        let ghost f = |t: TopicModel| t.id == id@;
        let mut out: Vec<Topic> = Vec::new();
        let mut i: usize = 0;
        proof {
            reveal(Seq::filter);
            assert(self@.subrange(0, 0).filter(f) =~= Seq::<TopicModel>::empty());
            assert(subs_view(out@) =~= Seq::<TopicModel>::empty());
        }
        while i < self.topics.len()
            invariant
                i <= self.topics@.len(),
                f == (|t: TopicModel| t.id == id@),
                subs_view(out@) == self@.subrange(0, i as int).filter(f),
            decreases self.topics@.len() - i,
        {
            let ghost o0 = out@;
            proof {
                reveal(Seq::filter);
                assert(self@.subrange(0, i + 1).drop_last() =~= self@.subrange(0, i as int));
                assert(self@.subrange(0, i + 1).last() == self.topics@[i as int]@);
            }
            if self.topics[i].id.same(id) {
                out.push(self.topics[i].copy());
                proof {
                    assert(subs_view(out@) =~= subs_view(o0).push(self.topics@[i as int]@));
                }
            }
            i = i + 1;
        }
        proof {
            assert(self@.subrange(0, self@.len() as int) =~= self@);
        }
        out
    }

    /// Every subscribed topic, in subscription order.
    pub fn topics(&self) -> (r: Vec<Topic>)
        ensures
            subs_view(r@) == self@,
    {
        let mut out: Vec<Topic> = Vec::new();
        let mut i: usize = 0;
        while i < self.topics.len()
            invariant
                i <= self.topics@.len(),
                subs_view(out@) == self@.subrange(0, i as int),
            decreases self.topics@.len() - i,
        {
            let ghost o0 = out@;
            out.push(self.topics[i].copy());
            proof {
                assert(subs_view(out@) =~= subs_view(o0).push(self.topics@[i as int]@));
            }
            i = i + 1;
            assert(subs_view(out@) =~= self@.subrange(0, i as int));
        }
        assert(self@.subrange(0, self@.len() as int) =~= self@);
        out
    }
}

} // verus!
