//! The byte transport's buffers: a growable receive buffer with an explicit
//! fill boundary and read cursor, and a reusable send buffer. The socket
//! itself lives outside; whatever it delivers is handed in through `fill`,
//! and whatever must go out is taken with `take_send`.

use vstd::prelude::*;

verus! {

/// The buffer state of one connection. Its receive view is the buffered,
/// unconsumed bytes; bytes past the fill boundary are dead storage.
pub struct Transport {
    recv_buf: Vec<u8>,
    recv_end: usize,
    send_buf: Vec<u8>,
}

impl Transport {
    /// The fill boundary never passes the allocation.
    pub closed spec fn wf(&self) -> bool {
        self.recv_end <= self.recv_buf@.len()
    }

    /// The buffered, unconsumed bytes.
    pub closed spec fn recv_view(&self) -> Seq<u8> {
        self.recv_buf@.subrange(0, self.recv_end as int)
    }

    /// The bytes queued to be sent.
    pub closed spec fn send_view(&self) -> Seq<u8> {
        self.send_buf@
    }

    /// Fresh buffers: nothing received, nothing queued.
    pub fn new() -> (r: Self)
        ensures
            r.wf(),
            r.recv_view() == Seq::<u8>::empty(),
            r.send_view() == Seq::<u8>::empty(),
    {
        let r = Transport { recv_buf: Vec::new(), recv_end: 0, send_buf: Vec::new() };
        proof {
            assert(r.recv_view() =~= Seq::<u8>::empty());
        }
        r
    }

    /// Currently buffered, unconsumed bytes.
    pub fn available(&self) -> (r: usize)
        requires
            self.wf(),
        ensures
            r == self.recv_view().len(),
    {
        self.recv_end
    }

    /// The byte at `i` of the unconsumed window.
    pub fn recv_at(&self, i: usize) -> (r: u8)
        requires
            self.wf(),
            i < self.recv_view().len(),
        ensures
            r == self.recv_view()[i as int],
    {
        self.recv_buf[i]
    }

    /// A copy of the first `n` unconsumed bytes.
    pub fn peek(&self, n: usize) -> (r: Vec<u8>)
        requires
            self.wf(),
            n <= self.recv_view().len(),
        ensures
            r@ == self.recv_view().subrange(0, n as int),
    {
        let r = crate::marshal::copy_range(&self.recv_buf, 0, n);
        proof {
            assert(self.recv_buf@.subrange(0, n as int)
                =~= self.recv_view().subrange(0, n as int));
        }
        r
    }

    /// What the socket delivered is appended behind the fill boundary,
    /// reusing dead storage first and growing the buffer once it is full.
    pub fn fill(&mut self, chunk: &Vec<u8>)
        requires
            old(self).wf(),
        ensures
            final(self).wf(),
            final(self).recv_view() == old(self).recv_view() + chunk@,
            final(self).send_view() == old(self).send_view(),
    {
        let mut i: usize = 0;
        proof {
            assert(self.recv_view() =~= old(self).recv_view() + chunk@.subrange(0, 0));
        }
        while i < chunk.len()
            invariant
                self.wf(),
                i <= chunk@.len(),
                self.recv_end == old(self).recv_end + i,
                self.send_buf@ == old(self).send_buf@,
                self.recv_view() == old(self).recv_view() + chunk@.subrange(0, i as int),
            decreases chunk@.len() - i,
        {
            let ghost prev = self.recv_buf@;
            let ghost pend = self.recv_end as int;
            if self.recv_end == self.recv_buf.len() {
                self.recv_buf.push(chunk[i]);
                self.recv_end = self.recv_buf.len();
            } else {
                self.recv_buf.set(self.recv_end, chunk[i]);
                self.recv_end = self.recv_end + 1;
            }
            i = i + 1;
            proof {
                let pview = prev.subrange(0, pend);
                assert(self.recv_view() =~= pview.push(chunk@[i - 1]));
                assert(old(self).recv_view() + chunk@.subrange(0, i as int)
                    =~= (old(self).recv_view() + chunk@.subrange(0, i - 1)).push(chunk@[i - 1]));
                assert(self.recv_view() =~= old(self).recv_view() + chunk@.subrange(0, i as int));
            }
        }
        proof {
            assert(chunk@.subrange(0, chunk@.len() as int) =~= chunk@);
        }
    }

    /// Advances the read cursor by `n`: the remaining bytes are copied to
    /// offset 0 of the same buffer, compacting it in place.
    pub fn consume(&mut self, n: usize)
        requires
            old(self).wf(),
            n <= old(self).recv_view().len(),
        ensures
            final(self).wf(),
            final(self).recv_view() == old(self).recv_view().skip(n as int),
            final(self).recv_view().len() == old(self).recv_view().len() - n,
            final(self).send_view() == old(self).send_view(),
    {
        let mut i: usize = n;
        while i < self.recv_end
            invariant
                self.wf(),
                n <= i <= self.recv_end,
                self.recv_end == old(self).recv_end,
                self.recv_buf@.len() == old(self).recv_buf@.len(),
                self.send_buf@ == old(self).send_buf@,
                forall|j: int| 0 <= j < i - n ==> self.recv_buf@[j] == old(self).recv_buf@[n + j],
                forall|j: int| i <= j < self.recv_buf@.len()
                    ==> self.recv_buf@[j] == old(self).recv_buf@[j],
            decreases self.recv_end - i,
        {
            let b = self.recv_buf[i];
            self.recv_buf.set(i - n, b);
            i = i + 1;
        }
        self.recv_end = self.recv_end - n;
        proof {
            assert forall|j: int| 0 <= j < self.recv_end implies self.recv_view()[j] == old(
                self,
            ).recv_view().skip(n as int)[j] by {
                assert(self.recv_buf@[j] == old(self).recv_buf@[n + j]);
                assert(old(self).recv_view()[n + j] == old(self).recv_buf@[n + j]);
            }
            assert(self.recv_view() =~= old(self).recv_view().skip(n as int));
        }
    }

    /// Queues bytes to be sent.
    pub fn send(&mut self, bytes: &Vec<u8>)
        requires
            old(self).wf(),
        ensures
            final(self).wf(),
            final(self).send_view() == old(self).send_view() + bytes@,
            final(self).recv_view() == old(self).recv_view(),
    {
        crate::marshal::push_bytes(&mut self.send_buf, bytes);
    }

    /// Hands the queued bytes out for the socket and leaves the send buffer
    /// empty, as a flush does once the write succeeded.
    pub fn take_send(&mut self) -> (r: Vec<u8>)
        requires
            old(self).wf(),
        ensures
            final(self).wf(),
            r@ == old(self).send_view(),
            final(self).send_view() == Seq::<u8>::empty(),
            final(self).recv_view() == old(self).recv_view(),
    {
        let mut out: Vec<u8> = Vec::new();
        std::mem::swap(&mut out, &mut self.send_buf);
        out
    }
}

/// Classifies the byte count one socket read returned: a read of zero
/// bytes is the peer closing the stream, which is always fatal.
pub fn check_read(n: usize) -> (r: Result<(), crate::error::Error>)
    ensures
        n == 0 ==> r == Err::<(), crate::error::Error>(crate::error::Error::ConnectionClosed),
        n != 0 ==> r == Ok::<(), crate::error::Error>(()),
{
    if n == 0 {
        Err(crate::error::Error::ConnectionClosed)
    } else {
        Ok(())
    }
}

/// Two fill-and-consume cycles never lose or duplicate a byte: what remains
/// is exactly the whole delivered stream minus the consumed prefix.
pub proof fn lemma_fill_consume_cycles(v: Seq<u8>, b1: Seq<u8>, n1: int, b2: Seq<u8>, n2: int)
    requires
        0 <= n1 <= v.len() + b1.len(),
        0 <= n2 <= v.len() + b1.len() - n1 + b2.len(),
    ensures
        ((v + b1).skip(n1) + b2).skip(n2) == (v + b1 + b2).skip(n1 + n2),
{
    assert(((v + b1).skip(n1) + b2).skip(n2) =~= (v + b1 + b2).skip(n1 + n2));
}

} // verus!
