use crate::amount::Amount;
use crate::bytesrepr;
use crate::bytesrepr::{deserialize, FromBytes, ToBytes};
use crate::error::Error;
use crate::validator::ValidatorId;
use vstd::prelude::*;

verus! {

/// What a queued request says.
pub struct EntryView {
    pub validator: Seq<u8>,
    pub amount: nat,
    pub timestamp: u64,
}

/// A request waiting in a queue: a validator, an amount and the time of the request.
#[derive(Debug, PartialEq, Eq)]
pub struct QueueEntry {
    pub validator: ValidatorId,
    pub amount: Amount,
    pub timestamp: u64,
}

impl View for QueueEntry {
    type V = EntryView;

    open spec fn view(&self) -> EntryView {
        EntryView {
            validator: self.validator@,
            amount: self.amount@,
            timestamp: self.timestamp,
        }
    }
}

impl DeepView for QueueEntry {
    type V = EntryView;

    open spec fn deep_view(&self) -> EntryView {
        self@
    }
}

/// What each of `entries` says, in the same order.
pub open spec fn views(entries: Seq<QueueEntry>) -> Seq<EntryView> {
    Seq::new(entries.len(), |i: int| entries[i]@)
}

/// The requests made at or before `threshold`.
pub open spec fn due(threshold: u64) -> spec_fn(EntryView) -> bool {
    |e: EntryView| e.timestamp <= threshold
}

/// The requests made after `threshold`.
pub open spec fn pending(threshold: u64) -> spec_fn(EntryView) -> bool {
    |e: EntryView| e.timestamp > threshold
}

/// The requests whose delay has passed at `now`: those made `delay` or more before.
/// While `now` is below the delay, no request has matured.
pub open spec fn matured(now: u64, delay: u64) -> spec_fn(EntryView) -> bool {
    |e: EntryView| e.timestamp + delay <= now
}

/// The requests whose delay has not passed at `now`.
pub open spec fn unmatured(now: u64, delay: u64) -> spec_fn(EntryView) -> bool {
    |e: EntryView| e.timestamp + delay > now
}

impl QueueEntry {
    /// A copy of the entry.
    pub fn duplicate(&self) -> (r: QueueEntry)
        ensures
            r@ == self@,
    {
        QueueEntry {
            validator: self.validator,
            amount: self.amount.duplicate(),
            timestamp: self.timestamp,
        }
    }
}

impl ToBytes for QueueEntry {
    /// The validator, then the amount, then the time.
    open spec fn encoding(&self) -> Seq<u8> {
        self.validator.encoding() + self.amount.encoding() + self.timestamp.encoding()
    }

    open spec fn encodable(&self) -> bool {
        self.amount.encodable()
    }

    fn to_bytes(&self) -> (bytes: Vec<u8>) {
        let mut result = self.validator.to_bytes();
        let mut amount = self.amount.to_bytes();
        let mut timestamp = self.timestamp.to_bytes();
        result.append(&mut amount);
        result.append(&mut timestamp);
        result
    }
}

impl FromBytes for QueueEntry {
    open spec fn frame(bytes: Seq<u8>) -> Result<nat, bytesrepr::Error> {
        match ValidatorId::frame(bytes) {
            Err(e) => Err(e),
            Ok(a) => match Amount::frame(bytes.skip(a as int)) {
                Err(e) => Err(e),
                Ok(b) => match u64::frame(bytes.skip(a as int).skip(b as int)) {
                    Err(e) => Err(e),
                    Ok(c) => Ok(a + b + c),
                },
            },
        }
    }

    fn from_bytes(bytes: &[u8]) -> (r: Result<(Self, &[u8]), bytesrepr::Error>) {
        match ValidatorId::from_bytes(bytes) {
            Err(e) => Err(e),
            Ok((validator, after_validator)) => {
                assert(bytes@.skip(validator.encoding().len() as int) =~= after_validator@);
                match Amount::from_bytes(after_validator) {
                    Err(e) => Err(e),
                    Ok((amount, after_amount)) => {
                        assert(after_validator@.skip(amount.encoding().len() as int)
                            =~= after_amount@);
                        match u64::from_bytes(after_amount) {
                            Err(e) => Err(e),
                            Ok((timestamp, rem)) => {
                                let entry = QueueEntry { validator, amount, timestamp };
                                assert(bytes@ =~= entry.encoding() + rem@);
                                Ok((entry, rem))
                            },
                        }
                    },
                }
            },
        }
    }

    proof fn lemma_frame_within(bytes: Seq<u8>) {
        ValidatorId::lemma_frame_within(bytes);
        if let Ok(a) = ValidatorId::frame(bytes) {
            Amount::lemma_frame_within(bytes.skip(a as int));
            if let Ok(b) = Amount::frame(bytes.skip(a as int)) {
                u64::lemma_frame_within(bytes.skip(a as int).skip(b as int));
            }
        }
    }

    proof fn lemma_frame_of_encoding(&self, rest: Seq<u8>) {
        let v = self.validator.encoding();
        let a = self.amount.encoding();
        let t = self.timestamp.encoding();
        let all = self.encoding() + rest;
        self.validator.lemma_frame_of_encoding(a + t + rest);
        assert(all =~= v + (a + t + rest));
        assert(all.skip(v.len() as int) =~= a + (t + rest));
        self.amount.lemma_frame_of_encoding(t + rest);
        assert(all.skip(v.len() as int).skip(a.len() as int) =~= t + rest);
        self.timestamp.lemma_frame_of_encoding(rest);
    }

    proof fn lemma_encoding_unique(&self, other: &Self) {
        let a_rest = self.amount.encoding() + self.timestamp.encoding();
        let b_rest = other.amount.encoding() + other.timestamp.encoding();
        assert(self.encoding() =~= self.validator.encoding() + a_rest);
        assert(other.encoding() =~= other.validator.encoding() + b_rest);
        bytesrepr::lemma_round_trip::<ValidatorId>(self.validator, a_rest, other.validator, b_rest);
        bytesrepr::lemma_round_trip::<Amount>(
            self.amount,
            self.timestamp.encoding(),
            other.amount,
            other.timestamp.encoding(),
        );
        self.timestamp.lemma_encoding_unique(&other.timestamp);
    }
}

/// Requests in the order in which they arrived, with the number of requests that the
/// queue may hold.
#[derive(Debug, PartialEq, Eq)]
pub struct Queue {
    pub entries: Vec<QueueEntry>,
    pub capacity: usize,
}

impl View for Queue {
    type V = Seq<EntryView>;

    open spec fn view(&self) -> Seq<EntryView> {
        views(self.entries@)
    }
}

/// Predicates that agree on every request select the same requests.
pub proof fn lemma_filter_same(
    queue: Seq<EntryView>,
    p: spec_fn(EntryView) -> bool,
    q: spec_fn(EntryView) -> bool,
)
    requires
        forall|e: EntryView| #[trigger] p(e) == q(e),
    ensures
        queue.filter(p) == queue.filter(q),
    decreases queue.len(),
{
    reveal(Seq::filter);
    if queue.len() > 0 {
        lemma_filter_same(queue.drop_last(), p, q);
        assert(p(queue.last()) == q(queue.last()));
    }
}

/// A predicate that holds of no request selects nothing, and its opposite selects
/// every request.
pub proof fn lemma_filter_none(
    queue: Seq<EntryView>,
    p: spec_fn(EntryView) -> bool,
    q: spec_fn(EntryView) -> bool,
)
    requires
        forall|e: EntryView| !(#[trigger] p(e)),
        forall|e: EntryView| #[trigger] q(e),
    ensures
        queue.filter(p) == Seq::<EntryView>::empty(),
        queue.filter(q) == queue,
    decreases queue.len(),
{
    reveal(Seq::filter);
    if queue.len() > 0 {
        lemma_filter_none(queue.drop_last(), p, q);
        assert(!p(queue.last()));
        assert(q(queue.last()));
        assert(queue.drop_last().push(queue.last()) =~= queue);
    }
}

/// Taking requests out of what an earlier taking by the same rule has left takes
/// nothing, and leaves what the first taking left.
pub proof fn lemma_filter_twice(
    queue: Seq<EntryView>,
    taken: spec_fn(EntryView) -> bool,
    kept: spec_fn(EntryView) -> bool,
)
    requires
        forall|e: EntryView| #[trigger] kept(e) == !taken(e),
    ensures
        queue.filter(kept).filter(taken) == Seq::<EntryView>::empty(),
        queue.filter(kept).filter(kept) == queue.filter(kept),
    decreases queue.len(),
{
    reveal(Seq::filter);
    if queue.len() > 0 {
        lemma_filter_twice(queue.drop_last(), taken, kept);
        let rest = queue.drop_last().filter(kept);
        assert(kept(queue.last()) == !taken(queue.last()));
        if kept(queue.last()) {
            assert(rest.push(queue.last()).drop_last() =~= rest);
        }
    }
}

/// Taking the requests made at or before a time out of a queue twice takes nothing
/// the second time, and leaves what the first time left.
pub proof fn lemma_pop_twice(queue: Seq<EntryView>, threshold: u64)
    ensures
        queue.filter(pending(threshold)).filter(due(threshold)) == Seq::<EntryView>::empty(),
        queue.filter(pending(threshold)).filter(pending(threshold)) == queue.filter(
            pending(threshold),
        ),
{
    lemma_filter_twice(queue, due(threshold), pending(threshold));
}

/// Taking the matured requests out of a queue twice at the same time takes nothing
/// the second time, and leaves what the first time left.
pub proof fn lemma_pop_matured_twice(queue: Seq<EntryView>, now: u64, delay: u64)
    ensures
        queue.filter(unmatured(now, delay)).filter(matured(now, delay)) == Seq::<
            EntryView,
        >::empty(),
        queue.filter(unmatured(now, delay)).filter(unmatured(now, delay)) == queue.filter(
            unmatured(now, delay),
        ),
{
    lemma_filter_twice(queue, matured(now, delay), unmatured(now, delay));
}

impl Queue {
    /// An empty queue that may hold `capacity` requests.
    pub fn new(capacity: usize) -> (r: Queue)
        ensures
            r@ == Seq::<EntryView>::empty(),
            r.capacity == capacity,
    {
        let r = Queue { entries: Vec::new(), capacity };
        assert(r@ =~= Seq::<EntryView>::empty());
        r
    }

    /// The number of requests in the queue.
    pub fn len(&self) -> (r: usize)
        ensures
            r == self@.len(),
    {
        self.entries.len()
    }

    /// Whether the queue holds as many requests as it may, or more.
    pub fn is_full(&self) -> (r: bool)
        ensures
            r == (self@.len() >= self.capacity),
    {
        self.entries.len() >= self.capacity
    }

    /// Appends a request, unless the queue is full. A validator may have several
    /// requests in the queue.
    pub fn push(&mut self, validator: ValidatorId, amount: Amount, timestamp: u64) -> (r: Result<
        (),
        Error,
    >)
        ensures
            old(self)@.len() >= old(self).capacity ==> r == Err::<(), Error>(Error::QueueFull)
                && *final(self) == *old(self),
            old(self)@.len() < old(self).capacity ==> r == Ok::<(), Error>(()) && final(self)@
                == old(self)@.push(
                EntryView { validator: validator@, amount: amount@, timestamp },
            ) && final(self).capacity == old(self).capacity,
    {
        if self.entries.len() >= self.capacity {
            return Err(Error::QueueFull);
        }
        let entry = QueueEntry { validator, amount, timestamp };
        self.entries.push(entry);
        assert(self@ =~= old(self)@.push(entry@));
        Ok(())
    }

    /// Removes the requests made at or before `threshold` and returns them. Both the
    /// requests returned and those that stay keep their order.
    pub fn pop_older_than(&mut self, threshold: u64) -> (removed: Vec<QueueEntry>)
        ensures
            views(removed@) == old(self)@.filter(due(threshold)),
            final(self)@ == old(self)@.filter(pending(threshold)),
            final(self).capacity == old(self).capacity,
    {
        let mut removed: Vec<QueueEntry> = Vec::new();
        let mut kept: Vec<QueueEntry> = Vec::new();
        let mut i: usize = 0;
        proof {
            reveal(Seq::filter);
            assert(self@.take(0) =~= Seq::<EntryView>::empty());
            assert(views(removed@) =~= self@.take(0).filter(due(threshold)));
            assert(views(kept@) =~= self@.take(0).filter(pending(threshold)));
        }
        while i < self.entries.len()
            invariant
                i <= self.entries@.len(),
                *self == *old(self),
                views(removed@) == self@.take(i as int).filter(due(threshold)),
                views(kept@) == self@.take(i as int).filter(pending(threshold)),
            decreases self.entries@.len() - i,
        {
            let entry = self.entries[i].duplicate();
            proof {
                reveal(Seq::filter);
                let longer = self@.take(i + 1);
                assert(longer.drop_last() =~= self@.take(i as int));
                assert(longer.last() == entry@);
            }
            if entry.timestamp <= threshold {
                assert(views(removed@.push(entry)) =~= views(removed@).push(entry@));
                removed.push(entry);
            } else {
                assert(views(kept@.push(entry)) =~= views(kept@).push(entry@));
                kept.push(entry);
            }
            i = i + 1;
        }
        assert(self@.take(i as int) =~= self@);
        self.entries = kept;
        removed
    }

    /// Removes the requests whose delay has passed at `now` and returns them. Both
    /// the requests returned and those that stay keep their order.
    pub fn pop_matured(&mut self, now: u64, delay: u64) -> (removed: Vec<QueueEntry>)
        ensures
            views(removed@) == old(self)@.filter(matured(now, delay)),
            final(self)@ == old(self)@.filter(unmatured(now, delay)),
            final(self).capacity == old(self).capacity,
    {
        if now < delay {
            proof {
                lemma_filter_none(self@, matured(now, delay), unmatured(now, delay));
            }
            let removed: Vec<QueueEntry> = Vec::new();
            assert(views(removed@) =~= Seq::<EntryView>::empty());
            removed
        } else {
            let threshold: u64 = now - delay;
            proof {
                lemma_filter_same(self@, due(threshold), matured(now, delay));
                lemma_filter_same(self@, pending(threshold), unmatured(now, delay));
            }
            self.pop_older_than(threshold)
        }
    }

    /// The number of requests whose delay has passed at `now`.
    pub fn count_matured(&self, now: u64, delay: u64) -> (r: usize)
        ensures
            r == self@.filter(matured(now, delay)).len(),
    {
        if now < delay {
            proof {
                lemma_filter_none(self@, matured(now, delay), unmatured(now, delay));
            }
            0
        } else {
            let threshold: u64 = now - delay;
            proof {
                lemma_filter_same(self@, due(threshold), matured(now, delay));
            }
            self.count_due(threshold)
        }
    }

    /// The number of requests made at or before `threshold`.
    pub fn count_due(&self, threshold: u64) -> (r: usize)
        ensures
            r == self@.filter(due(threshold)).len(),
    {
        let mut count: usize = 0;
        let mut i: usize = 0;
        proof {
            reveal(Seq::filter);
            assert(self@.take(0) =~= Seq::<EntryView>::empty());
        }
        while i < self.entries.len()
            invariant
                i <= self.entries@.len(),
                count <= i,
                count == self@.take(i as int).filter(due(threshold)).len(),
            decreases self.entries@.len() - i,
        {
            proof {
                reveal(Seq::filter);
                let longer = self@.take(i + 1);
                assert(longer.drop_last() =~= self@.take(i as int));
                assert(longer.last() == self.entries@[i as int]@);
            }
            if self.entries[i].timestamp <= threshold {
                count = count + 1;
            }
            i = i + 1;
        }
        assert(self@.take(i as int) =~= self@);
        count
    }

    /// The queue stored in `blob`, or an empty queue where nothing is stored.
    pub fn read(blob: Option<&[u8]>, capacity: usize) -> (r: Result<Queue, bytesrepr::Error>)
        ensures
            match blob {
                None => r is Ok && r->Ok_0@ == Seq::<EntryView>::empty(),
                Some(bytes) => match r {
                    Ok(queue) => {
                        &&& Vec::<QueueEntry>::frame(bytes@) == Ok::<nat, bytesrepr::Error>(
                            bytes@.len(),
                        )
                        &&& queue.entries.encoding() == bytes@
                        &&& queue.entries.encodable()
                    },
                    Err(e) => bytesrepr::whole_frame(
                        Vec::<QueueEntry>::frame(bytes@),
                        bytes@.len(),
                    ) == Err::<nat, bytesrepr::Error>(e),
                },
            },
            r is Ok ==> r->Ok_0.capacity == capacity,
    {
        match blob {
            None => Ok(Queue::new(capacity)),
            Some(bytes) => match deserialize::<Vec<QueueEntry>>(bytes) {
                Err(e) => Err(e),
                Ok(entries) => Ok(Queue { entries, capacity }),
            },
        }
    }

    /// The bytes to store for the queue: the layout of the sequence of its requests.
    pub fn write(&self) -> (bytes: Vec<u8>)
        ensures
            bytes@ == self.entries.encoding(),
    {
        self.entries.to_bytes()
    }
}

} // verus!
