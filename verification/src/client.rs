//! Request/reply correlation: serial numbers are allocated per connection,
//! starting at 1 and strictly increasing, and inbound frames are matched to
//! the one outstanding call by their reply-serial header field. Frames that
//! answer nothing pending are dropped.

use vstd::prelude::*;
use crate::error::Error;
use crate::value::Value;

verus! {

/// Method call, method return, error, signal: the four message types.
pub const MSG_METHOD_CALL: u8 = 1;
pub const MSG_METHOD_RETURN: u8 = 2;
pub const MSG_ERROR: u8 = 3;
pub const MSG_SIGNAL: u8 = 4;

/// What the allocator hands out from a given counter, and the counter it
/// leaves behind.
pub open spec fn alloc_spec(next: u32) -> (u32, u32) {
    (next, (next + 1) as u32)
}

/// The per-connection serial counter.
pub struct Correlator {
    next_serial: u32,
}

impl Correlator {
    /// Serials start at 1 and are never reused, so the counter is positive.
    pub closed spec fn next(&self) -> u32 {
        self.next_serial
    }

    pub open spec fn wf(&self) -> bool {
        self.next() >= 1
    }

    /// The first serial a connection allocates is 1.
    pub fn new() -> (r: Self)
        ensures
            r.wf(),
            r.next() == 1,
    {
        Correlator { next_serial: 1 }
    }

    /// Whether another serial can still be allocated; the counter never
    /// wraps, so a caller tests this before each call.
    pub fn can_allocate(&self) -> (r: bool)
        ensures
            r == (self.next() < 0xFFFF_FFFF),
    {
        self.next_serial < 0xFFFF_FFFF
    }

    /// Allocates the next serial; it is never handed out twice.
    pub fn allocate_serial(&mut self) -> (s: u32)
        requires
            old(self).wf(),
            old(self).next() < 0xFFFF_FFFF,
        ensures
            final(self).wf(),
            (s, final(self).next()) == alloc_spec(old(self).next()),
            s >= 1,
    {
        let s = self.next_serial;
        self.next_serial = self.next_serial + 1;
        s
    }
}

/// Two sequential allocations hand out strictly increasing serials: the
/// second call starts from the counter the first left behind.
pub proof fn lemma_serials_strictly_increase(next: u32)
    requires
        next + 2 <= 0xFFFF_FFFF,
    ensures
        alloc_spec(alloc_spec(next).1).0 > alloc_spec(next).0,
{
}

/// The counter after `k` allocations from `n0`, each stepping by one as
/// `alloc_spec` does; it is also the serial the `k`-th call hands out.
pub open spec fn counter_after(n0: u32, k: nat) -> int
    decreases k,
{
    if k == 0 {
        n0 as int
    } else {
        counter_after(n0, (k - 1) as nat) + 1
    }
}

/// The counter advances by exactly one per allocation.
pub proof fn lemma_counter_after(n0: u32, k: nat)
    ensures
        counter_after(n0, k) == n0 + k,
    decreases k,
{
    if k > 0 {
        lemma_counter_after(n0, (k - 1) as nat);
    }
}

/// Over any run of calls that stays within the counter's headroom (the
/// machine limit `can_allocate` guards), every later call's serial is
/// strictly greater than every earlier call's, and each step is exactly
/// what `alloc_spec` leaves behind: serials are never reused.
pub proof fn lemma_serials_increase_over_run(n0: u32, i: nat, j: nat)
    requires
        i < j,
        n0 + j <= 0xFFFF_FFFF,
    ensures
        counter_after(n0, i) == n0 + i,
        counter_after(n0, j) == n0 + j,
        counter_after(n0, i) < counter_after(n0, j),
        counter_after(n0, i + 1) == alloc_spec(counter_after(n0, i) as u32).1,
{
    lemma_counter_after(n0, i);
    lemma_counter_after(n0, j);
    lemma_counter_after(n0, (i + 1) as nat);
}

/// What the correlator does with one decoded inbound frame while one call
/// is outstanding.
#[derive(Debug, PartialEq, Eq)]
pub enum ReplyAction {
    /// The frame answers nothing pending (wrong or absent reply-serial, or
    /// a signal): it is dropped and the call keeps waiting.
    Ignore,
    /// The method-return frame for the pending call: its body.
    Return(Vec<Value>),
    /// The error frame for the pending call: the bus-declared error name
    /// and any body that came with it.
    Fail(Vec<u8>, Vec<Value>),
}

/// Matches one decoded frame against the serial of the pending call.
pub fn match_reply(
    expected_serial: u32,
    msg_type: u8,
    reply_serial: Option<u32>,
    error_name: Option<Vec<u8>>,
    body: Vec<Value>,
) -> (r: ReplyAction)
    ensures
        reply_serial != Some(expected_serial) ==> r == ReplyAction::Ignore,
        reply_serial == Some(expected_serial) && msg_type == MSG_METHOD_RETURN
            ==> r == ReplyAction::Return(body),
        reply_serial == Some(expected_serial) && msg_type == MSG_ERROR
            ==> (r matches ReplyAction::Fail(name, b) && b == body
                && name@ == match error_name {
                    Some(n) => n@,
                    None => Seq::<u8>::empty(),
                }),
        reply_serial == Some(expected_serial) && msg_type != MSG_METHOD_RETURN
            && msg_type != MSG_ERROR ==> r == ReplyAction::Ignore,
{
    match reply_serial {
        Some(rs) => {
            if rs == expected_serial {
                if msg_type == MSG_METHOD_RETURN {
                    ReplyAction::Return(body)
                } else if msg_type == MSG_ERROR {
                    match error_name {
                        Some(name) => ReplyAction::Fail(name, body),
                        None => ReplyAction::Fail(Vec::new(), body),
                    }
                } else {
                    ReplyAction::Ignore
                }
            } else {
                ReplyAction::Ignore
            }
        },
        None => ReplyAction::Ignore,
    }
}


/// What one matched frame means for the caller of a method call: nothing
/// yet (keep waiting), the reply body, or a bus-declared error — the one
/// error kind a caller is expected to handle and continue after.
pub fn reply_to_result(a: ReplyAction) -> (r: Option<Result<Vec<Value>, Error>>)
    ensures
        a is Ignore ==> r is None,
        a matches ReplyAction::Return(b) ==> r == Some(Ok::<Vec<Value>, Error>(b)),
        a matches ReplyAction::Fail(n, b) ==> r == Some(
            Err::<Vec<Value>, Error>(Error::BusError(n, b)),
        ),
{
    match a {
        ReplyAction::Ignore => None,
        ReplyAction::Return(b) => Some(Ok(b)),
        ReplyAction::Fail(n, b) => Some(Err(Error::BusError(n, b))),
    }
}

} // verus!
