//! A fixed-capacity sliding window over the most recently scored words
//! and their score tokens: pushing rotates the oldest entry out.

use vstd::prelude::*;

verus! {

/// Ring buffer with rotate-on-push semantics; the ghost history records
/// everything ever pushed, and the window always mirrors its tail.
pub struct RingBuffer {
    pub words: Vec<u32>,
    pub log_probs: Vec<String>,
    pub backoffs: Vec<String>,
    pub size: usize,
    pub capacity: usize,
    pub history: Ghost<Seq<u32>>,
}

impl RingBuffer {
    /// The slots always span the full capacity; the last `size` word
    /// slots hold exactly the most recent pushes, oldest first.
    pub open spec fn wf(self) -> bool {
        &&& self.capacity >= 1
        &&& self.words@.len() == self.capacity
        &&& self.log_probs@.len() == self.capacity
        &&& self.backoffs@.len() == self.capacity
        &&& self.size == if self.history@.len() < self.capacity {
            self.history@.len() as int
        } else {
            self.capacity as int
        }
        &&& forall|i: int|
            0 <= i < self.size ==> #[trigger] self.words@[self.capacity - self.size + i]
                == self.history@[self.history@.len() - self.size + i]
    }

    /// An empty window of the given capacity: every word slot holds
    /// zero and every score token slot an empty string.
    pub fn new(capacity: usize) -> (r: RingBuffer)
        requires
            capacity >= 1,
        ensures
            r.wf(),
            r.capacity == capacity,
            r.size == 0,
            r.history@ =~= Seq::<u32>::empty(),
            r.words@ =~= Seq::new(capacity as nat, |i: int| 0u32),
            r.log_probs.deep_view() =~= Seq::new(capacity as nat, |i: int| Seq::<char>::empty()),
            r.backoffs.deep_view() =~= Seq::new(capacity as nat, |i: int| Seq::<char>::empty()),
    {
        let mut words: Vec<u32> = Vec::new();
        let mut log_probs: Vec<String> = Vec::new();
        let mut backoffs: Vec<String> = Vec::new();
        let mut i: usize = 0;
        while i < capacity
            invariant
                0 <= i <= capacity,
                words@ =~= Seq::new(i as nat, |m: int| 0u32),
                log_probs@.len() == i,
                backoffs@.len() == i,
                forall|m: int| 0 <= m < i ==> (#[trigger] log_probs@[m])@ =~= Seq::<char>::empty(),
                forall|m: int| 0 <= m < i ==> (#[trigger] backoffs@[m])@ =~= Seq::<char>::empty(),
            decreases capacity - i,
        {
            words.push(0);
            let lp: String = String::new();
            let bo: String = String::new();
            assert(lp@ =~= Seq::<char>::empty());
            assert(bo@ =~= Seq::<char>::empty());
            log_probs.push(lp);
            backoffs.push(bo);
            proof {
                assert(words@ =~= Seq::new((i + 1) as nat, |m: int| 0u32));
            }
            i += 1;
        }
        proof {
            assert(log_probs.deep_view() =~= Seq::new(
                capacity as nat,
                |m: int| Seq::<char>::empty(),
            ));
            assert(backoffs.deep_view() =~= Seq::new(
                capacity as nat,
                |m: int| Seq::<char>::empty(),
            ));
        }
        RingBuffer {
            words,
            log_probs,
            backoffs,
            size: 0,
            capacity,
            history: Ghost(Seq::empty()),
        }
    }

    /// Pushes one scored word: every slot rotates one place toward the
    /// front and the newest entry takes the last place; the window size
    /// grows until it reaches the capacity and then stays there.
    pub fn push(&mut self, item: u32, log_prob: String, backoff: String)
        requires
            old(self).wf(),
        ensures
            final(self).wf(),
            final(self).capacity == old(self).capacity,
            final(self).history@ =~= old(self).history@.push(item),
            final(self).words@ =~= old(self).words@.skip(1).push(item),
            final(self).log_probs@ =~= old(self).log_probs@.skip(1).push(log_prob),
            final(self).backoffs@ =~= old(self).backoffs@.skip(1).push(backoff),
            final(self).size == if old(self).size < old(self).capacity {
                old(self).size + 1
            } else {
                old(self).capacity as int
            },
    {
        let ghost prev = *self;
        self.words.remove(0);
        self.words.push(item);
        self.log_probs.remove(0);
        self.log_probs.push(log_prob);
        self.backoffs.remove(0);
        self.backoffs.push(backoff);
        if self.size < self.capacity {
            self.size = self.size + 1;
        }
        proof {
            self.history@ = prev.history@.push(item);
        }
        proof {
            assert(self.words@ =~= prev.words@.skip(1).push(item));
            assert forall|i: int|
                0 <= i < self.size implies #[trigger] self.words@[self.capacity - self.size + i]
                == self.history@[self.history@.len() - self.size + i] by {
                if i == self.size - 1 {
                    assert(self.words@[self.words@.len() - 1] == item);
                } else {
                    let i0 = prev.size - self.size + i + 1;
                    assert(0 <= i0 < prev.size);
                    assert(self.words@[self.capacity - self.size + i] == prev.words@[self.capacity
                        - self.size + i + 1]);
                    assert(prev.words@[prev.capacity - prev.size + i0] == prev.history@[
                        prev.history@.len() - prev.size + i0]);
                    assert(self.capacity - self.size + i + 1 == prev.capacity - prev.size + i0);
                    assert(prev.history@.len() - prev.size + i0 == self.history@.len() - self.size
                        + i);
                    assert(self.history@[self.history@.len() - self.size + i] == prev.history@[
                        self.history@.len() - self.size + i]);
                }
            }
        }
    }

    /// The number of words in the window.
    pub fn len(&self) -> (r: usize)
        ensures
            r == self.size,
    {
        self.size
    }
}

/// Ring invariant: after more pushes than the capacity, the window
/// holds exactly the most recent `capacity` words, oldest evicted
/// first.
pub proof fn lemma_ring_window(rb: RingBuffer)
    requires
        rb.wf(),
        rb.history@.len() >= rb.capacity,
    ensures
        rb.size == rb.capacity,
        rb.words@ =~= rb.history@.skip(rb.history@.len() - rb.capacity),
{
    assert forall|i: int| 0 <= i < rb.capacity implies rb.words@[i] == rb.history@.skip(
        rb.history@.len() - rb.capacity,
    )[i] by {
        assert(rb.words@[rb.capacity - rb.size + i] == rb.history@[rb.history@.len() - rb.size
            + i]);
    }
}

} // verus!
