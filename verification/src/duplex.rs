use vstd::prelude::*;

verus! {

/// Bounded in-memory byte pipe between the producer task of the encode
/// path and the response stream that drains it.
///
/// The model keeps, besides the buffered bytes, the whole history of the
/// pipe as ghost state: every byte ever accepted from the producer and
/// every byte ever handed to the consumer. Well-formedness ties the
/// three together, which is what the ordering and backpressure laws
/// rest on.
pub struct DuplexChannel {
    buffered: Vec<u8>,
    capacity: usize,
    closed: bool,
    accepted: Ghost<Seq<u8>>,
    drained: Ghost<Seq<u8>>,
}

impl DuplexChannel {
    /// Bytes accepted from the producer and not yet read.
    pub closed spec fn pending(self) -> Seq<u8> {
        self.buffered@
    }

    /// Capacity the pipe was created with.
    pub closed spec fn cap(self) -> int {
        self.capacity as int
    }

    /// Whether the write end is shut.
    pub closed spec fn is_closed(self) -> bool {
        self.closed
    }

    /// Every byte the pipe ever accepted from the producer, in order.
    pub closed spec fn accepted_bytes(self) -> Seq<u8> {
        self.accepted@
    }

    /// Every byte the pipe ever handed to the consumer, in order.
    pub closed spec fn drained_bytes(self) -> Seq<u8> {
        self.drained@
    }

    /// The pipe never buffers beyond its capacity, and what was accepted
    /// is exactly what was drained followed by what is still pending.
    pub closed spec fn wf(self) -> bool {
        &&& self.pending().len() <= self.cap()
        &&& self.accepted_bytes() == self.drained_bytes() + self.pending()
    }

    /// Creates an empty pipe of the given capacity.
    pub fn new(capacity: usize) -> (r: DuplexChannel)
        ensures
            r.wf(),
            r.cap() == capacity,
            r.pending() == Seq::<u8>::empty(),
            r.accepted_bytes() == Seq::<u8>::empty(),
            r.drained_bytes() == Seq::<u8>::empty(),
            !r.is_closed(),
    {
        let r = DuplexChannel {
            buffered: Vec::new(),
            capacity,
            closed: false,
            accepted: Ghost(Seq::empty()),
            drained: Ghost(Seq::empty()),
        };
        proof {
            assert(r.accepted_bytes() =~= r.drained_bytes() + r.pending());
        }
        r
    }

    /// Accepts as much of `input` as fits: exactly the free capacity or
    /// the whole input, whichever is shorter. A caller models a blocked
    /// producer by retrying with the remainder once the consumer has
    /// drained.
    pub fn write(&mut self, input: &[u8]) -> (n: usize)
        requires
            old(self).wf(),
            !old(self).is_closed(),
        ensures
            final(self).wf(),
            n == if input@.len() <= old(self).cap() - old(self).pending().len() {
                input@.len() as int
            } else {
                old(self).cap() - old(self).pending().len()
            },
            final(self).pending() == old(self).pending() + input@.take(n as int),
            final(self).accepted_bytes() == old(self).accepted_bytes() + input@.take(n as int),
            final(self).drained_bytes() == old(self).drained_bytes(),
            final(self).cap() == old(self).cap(),
            final(self).is_closed() == old(self).is_closed(),
    {
        let free = self.capacity - self.buffered.len();
        let n = if input.len() <= free {
            input.len()
        } else {
            free
        };
        let mut i: usize = 0;
        while i < n
            invariant
                i <= n,
                n <= input@.len(),
                self.buffered@ == old(self).buffered@ + input@.take(i as int),
                self.capacity == old(self).capacity,
                self.closed == old(self).closed,
                self.accepted == old(self).accepted,
                self.drained == old(self).drained,
            decreases n - i,
        {
            let b = input[i];
            self.buffered.push(b);
            proof {
                assert(self.buffered@ =~= old(self).buffered@ + input@.take(i + 1));
            }
            i += 1;
        }
        proof {
            self.accepted@ = self.accepted@ + input@.take(n as int);
            assert(self.accepted_bytes() =~= self.drained_bytes() + self.pending());
        }
        n
    }

    /// Hands out up to `max` bytes from the front of the pipe, in the
    /// order they were accepted.
    pub fn read(&mut self, max: usize) -> (r: Vec<u8>)
        requires
            old(self).wf(),
        ensures
            final(self).wf(),
            r@ == old(self).pending().take(r@.len() as int),
            r@.len() == if max <= old(self).pending().len() {
                max as int
            } else {
                old(self).pending().len() as int
            },
            final(self).pending() == old(self).pending().skip(r@.len() as int),
            final(self).drained_bytes() == old(self).drained_bytes() + r@,
            final(self).accepted_bytes() == old(self).accepted_bytes(),
            final(self).cap() == old(self).cap(),
            final(self).is_closed() == old(self).is_closed(),
    {
        let n = if max <= self.buffered.len() {
            max
        } else {
            self.buffered.len()
        };
        let mut r: Vec<u8> = Vec::new();
        let mut i: usize = 0;
        while i < n
            invariant
                i <= n,
                n <= self.buffered@.len(),
                r@ == self.buffered@.take(i as int),
                self.buffered@ == old(self).buffered@,
                self.capacity == old(self).capacity,
                self.closed == old(self).closed,
                self.accepted == old(self).accepted,
                self.drained == old(self).drained,
            decreases n - i,
        {
            let b = self.buffered[i];
            r.push(b);
            proof {
                assert(r@ =~= self.buffered@.take(i + 1));
            }
            i += 1;
        }
        let mut rest: Vec<u8> = Vec::new();
        let mut j: usize = n;
        while j < self.buffered.len()
            invariant
                n <= j <= self.buffered@.len(),
                rest@ == self.buffered@.subrange(n as int, j as int),
                self.buffered@ == old(self).buffered@,
                self.capacity == old(self).capacity,
                self.closed == old(self).closed,
                self.accepted == old(self).accepted,
                self.drained == old(self).drained,
            decreases self.buffered@.len() - j,
        {
            let b = self.buffered[j];
            rest.push(b);
            proof {
                assert(rest@ =~= self.buffered@.subrange(n as int, j + 1));
            }
            j += 1;
        }
        self.buffered = rest;
        proof {
            self.drained@ = self.drained@ + r@;
            assert(self.pending() =~= old(self).pending().skip(r@.len() as int));
            assert(self.accepted_bytes() =~= self.drained_bytes() + self.pending());
        }
        r
    }

    /// Shuts the write end; what is still pending stays readable.
    pub fn close(&mut self)
        requires
            old(self).wf(),
        ensures
            final(self).wf(),
            final(self).is_closed(),
            final(self).pending() == old(self).pending(),
            final(self).accepted_bytes() == old(self).accepted_bytes(),
            final(self).drained_bytes() == old(self).drained_bytes(),
            final(self).cap() == old(self).cap(),
    {
        self.closed = true;
    }

    /// Whether the consumer has reached the end of the stream: the write
    /// end is shut and nothing is pending.
    pub fn at_end(&self) -> (r: bool)
        ensures
            r == (self.is_closed() && self.pending().len() == 0),
    {
        self.closed && self.buffered.len() == 0
    }
}

/// Law (ordering): the pipe is first-in first-out — what the consumer
/// has drained is always a prefix of what the producer wrote, and the
/// rest is still pending, in order.
pub proof fn lemma_duplex_fifo(ch: DuplexChannel)
    requires
        ch.wf(),
    ensures
        ch.drained_bytes().is_prefix_of(ch.accepted_bytes()),
        ch.accepted_bytes() == ch.drained_bytes() + ch.pending(),
{
    assert(ch.drained_bytes() =~= ch.accepted_bytes().take(ch.drained_bytes().len() as int));
}

/// Law (backpressure): the producer can never run ahead of the consumer
/// by more than the pipe's capacity — consumption of the upstream body
/// is throttled by the slower reader.
pub proof fn lemma_duplex_backpressure(ch: DuplexChannel)
    requires
        ch.wf(),
    ensures
        ch.accepted_bytes().len() <= ch.drained_bytes().len() + ch.cap(),
{
}

} // verus!
