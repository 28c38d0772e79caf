use vstd::prelude::*;

verus! {

/// Lexicographic order on byte strings: a proper prefix is smaller.
pub open spec fn lex_lt(a: Seq<u8>, b: Seq<u8>) -> bool
    decreases a.len(),
{
    if a.len() == 0 || b.len() == 0 {
        a.len() == 0 && b.len() > 0
    } else if a[0] != b[0] {
        a[0] < b[0]
    } else {
        lex_lt(a.drop_first(), b.drop_first())
    }
}

proof fn lemma_lex_lt_step(a: Seq<u8>, b: Seq<u8>, i: int)
    requires
        0 <= i < a.len(),
        i < b.len(),
        a[i] == b[i],
    ensures
        lex_lt(a.subrange(i, a.len() as int), b.subrange(i, b.len() as int)) == lex_lt(
            a.subrange(i + 1, a.len() as int),
            b.subrange(i + 1, b.len() as int),
        ),
{
    assert(a.subrange(i, a.len() as int).drop_first() =~= a.subrange(i + 1, a.len() as int));
    assert(b.subrange(i, b.len() as int).drop_first() =~= b.subrange(i + 1, b.len() as int));
}

/// The byte order is transitive.
pub proof fn lemma_lex_lt_transitive(a: Seq<u8>, b: Seq<u8>, c: Seq<u8>)
    requires
        lex_lt(a, b),
        lex_lt(b, c),
    ensures
        lex_lt(a, c),
    decreases a.len(),
{
    if a.len() > 0 && b.len() > 0 && c.len() > 0 && a[0] == b[0] && b[0] == c[0] {
        lemma_lex_lt_transitive(a.drop_first(), b.drop_first(), c.drop_first());
    }
}

/// The byte order is irreflexive.
pub proof fn lemma_lex_lt_irreflexive(a: Seq<u8>)
    ensures
        !lex_lt(a, a),
    decreases a.len(),
{
    if a.len() > 0 {
        lemma_lex_lt_irreflexive(a.drop_first());
    }
}

/// The byte order is total.
pub proof fn lemma_lex_lt_total(a: Seq<u8>, b: Seq<u8>)
    ensures
        lex_lt(a, b) || a == b || lex_lt(b, a),
    decreases a.len(),
{
    if a.len() > 0 && b.len() > 0 && a[0] == b[0] {
        lemma_lex_lt_total(a.drop_first(), b.drop_first());
        if a.drop_first() == b.drop_first() {
            assert(a =~= seq![a[0]] + a.drop_first());
            assert(b =~= seq![b[0]] + b.drop_first());
        }
    } else if a.len() == 0 && b.len() == 0 {
        assert(a =~= b);
    }
}

/// Whether two byte strings are equal.
pub fn bytes_eq(a: &[u8], b: &[u8]) -> (r: bool)
    ensures
        r == (a@ == b@),
{
    if a.len() != b.len() {
        return false;
    }
    let mut i: usize = 0;
    while i < a.len()
        invariant
            a@.len() == b@.len(),
            i <= a@.len(),
            forall|k: int| 0 <= k < i ==> a@[k] == b@[k],
        decreases a@.len() - i,
    {
        if a[i] != b[i] {
            return false;
        }
        i = i + 1;
    }
    assert(a@ =~= b@);
    true
}

/// Whether `a` comes strictly before `b` in lexicographic byte order.
pub fn bytes_lt(a: &[u8], b: &[u8]) -> (r: bool)
    ensures
        r == lex_lt(a@, b@),
{
    let mut i: usize = 0;
    assert(a@.subrange(0, a@.len() as int) =~= a@);
    assert(b@.subrange(0, b@.len() as int) =~= b@);
    while i < a.len() && i < b.len()
        invariant
            i <= a@.len(),
            i <= b@.len(),
            lex_lt(a@, b@) == lex_lt(
                a@.subrange(i as int, a@.len() as int),
                b@.subrange(i as int, b@.len() as int),
            ),
        decreases a@.len() - i,
    {
        if a[i] != b[i] {
            return a[i] < b[i];
        }
        proof {
            lemma_lex_lt_step(a@, b@, i as int);
        }
        i = i + 1;
    }
    i == a.len() && i < b.len()
}

/// Copy of a byte vector.
pub fn copy_bytes(v: &Vec<u8>) -> (r: Vec<u8>)
    ensures
        r@ == v@,
{
    let mut r: Vec<u8> = Vec::new();
    let mut i: usize = 0;
    while i < v.len()
        invariant
            i <= v@.len(),
            r@ == v@.subrange(0, i as int),
        decreases v@.len() - i,
    {
        r.push(v[i]);
        i = i + 1;
        assert(r@ =~= v@.subrange(0, i as int));
    }
    assert(v@.subrange(0, v@.len() as int) =~= v@);
    r
}

/// A peer's identity: its 32-byte public key.
#[derive(Clone, Debug, PartialEq, Eq)]
pub struct PeerId {
    pub bytes: [u8; 32],
}

impl View for PeerId {
    type V = Seq<u8>;

    open spec fn view(&self) -> Seq<u8> {
        self.bytes@
    }
}

impl PeerId {
    pub fn from_bytes(bytes: [u8; 32]) -> (r: PeerId)
        ensures
            r@ == bytes@,
    {
        PeerId { bytes }
    }

    pub fn as_bytes(&self) -> (r: [u8; 32])
        ensures
            r@ == self@,
    {
        self.bytes
    }

    /// Whether both keys are the same.
    pub fn same(&self, other: &PeerId) -> (r: bool)
        ensures
            r == (self@ == other@),
    {
        bytes_eq(self.bytes.as_slice(), other.bytes.as_slice())
    }

    /// Whether this key comes strictly before `other` in byte order.
    pub fn precedes(&self, other: &PeerId) -> (r: bool)
        ensures
            r == lex_lt(self@, other@),
    {
        bytes_lt(self.bytes.as_slice(), other.bytes.as_slice())
    }

    pub fn copy(&self) -> (r: PeerId)
        ensures
            r@ == self@,
    {
        PeerId { bytes: self.bytes }
    }
}

/// The 32-byte key of a gossip overlay.
#[derive(Clone, Debug, PartialEq, Eq)]
pub struct TopicId {
    pub bytes: [u8; 32],
}

impl View for TopicId {
    type V = Seq<u8>;

    open spec fn view(&self) -> Seq<u8> {
        self.bytes@
    }
}

impl TopicId {
    pub fn from_bytes(bytes: [u8; 32]) -> (r: TopicId)
        ensures
            r@ == bytes@,
    {
        TopicId { bytes }
    }

    pub fn as_bytes(&self) -> (r: [u8; 32])
        ensures
            r@ == self@,
    {
        self.bytes
    }

    pub fn same(&self, other: &TopicId) -> (r: bool)
        ensures
            r == (self@ == other@),
    {
        bytes_eq(self.bytes.as_slice(), other.bytes.as_slice())
    }

    pub fn precedes(&self, other: &TopicId) -> (r: bool)
        ensures
            r == lex_lt(self@, other@),
    {
        bytes_lt(self.bytes.as_slice(), other.bytes.as_slice())
    }

    pub fn copy(&self) -> (r: TopicId)
        ensures
            r@ == self@,
    {
        TopicId { bytes: self.bytes }
    }
}

/// The model of a topic: its serialised identity and the overlay it rides on.
pub struct TopicModel {
    pub identity: Seq<u8>,
    pub id: Seq<u8>,
}

/// An application topic. Two topics are the same when their serialised identities are equal;
/// several topics may ride one overlay, so the id alone never identifies a topic.
#[derive(Clone, Debug, PartialEq, Eq)]
pub struct Topic {
    pub identity: Vec<u8>,
    pub id: TopicId,
}

impl View for Topic {
    type V = TopicModel;

    open spec fn view(&self) -> TopicModel {
        TopicModel { identity: self.identity@, id: self.id@ }
    }
}

impl Topic {
    pub fn new(identity: Vec<u8>, id: [u8; 32]) -> (r: Topic)
        ensures
            r@.identity == identity@,
            r@.id == id@,
    {
        Topic { identity, id: TopicId { bytes: id } }
    }

    /// The key of the overlay this topic rides on.
    pub fn topic_id(&self) -> (r: TopicId)
        ensures
            r@ == self@.id,
    {
        self.id.copy()
    }

    /// Whether both values denote the same topic.
    pub fn same(&self, other: &Topic) -> (r: bool)
        ensures
            r == (self@ == other@),
    {
        bytes_eq(self.identity.as_slice(), other.identity.as_slice()) && self.id.same(&other.id)
    }

    pub fn copy(&self) -> (r: Topic)
        ensures
            r@ == self@,
    {
        Topic { identity: copy_bytes(&self.identity), id: self.id.copy() }
    }
}

} // verus!
