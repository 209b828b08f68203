//! Access to the registers of a device.
//!
//! A [`Port`] hands every access to a function of the caller's and keeps, for
//! contracts only, the sequence of accesses that were made and what came back.

use vstd::prelude::*;

verus! {

/// One access to a device.
#[derive(Clone, Copy, PartialEq, Eq, Structural, Debug)]
pub enum Access {
    Read8(usize),
    Read16(usize),
    Read32(usize),
    Read64(usize),
    Write8(usize, u8),
    Write16(usize, u16),
    Write32(usize, u32),
    Write64(usize, u64),
    /// Wait for a number of nanoseconds.
    Delay(u64),
    /// Order everything before against everything after.
    Barrier,
    /// Read the monotonic clock in nanoseconds.
    Now,
    /// Hand a number to whoever listens to the device.
    Notify(u64),
    /// Read memory that is shared with the device.
    Load8(usize),
    Load32(usize),
    Load64(usize),
    /// Write memory that is shared with the device.
    Store8(usize, u8),
    Store32(usize, u32),
    Store64(usize, u64),
    /// Make the shared memory at an address visible to the device.
    Flush(usize),
    /// Make what the device wrote to the shared memory at an address visible.
    Refresh(usize),
    /// Get a page of shared memory, filled with zeros. Gives its address, or
    /// [`NO_PAGE`].
    AllocatePage,
    /// Give a page of shared memory back.
    ReleasePage(u64),
    /// Let the device reach a payload of this length where it is. Gives its
    /// address, or [`NO_PAGE`].
    MapPayload(usize),
    /// Get shared memory of a length and an alignment. Gives its address, or
    /// [`NO_PAGE`].
    AllocateBuffer(usize, usize),
    /// Give a payload or shared memory back.
    ReleaseBuffer(u64),
}

/// The answer to a request for a page when there is none.
pub const NO_PAGE: u64 = 0xffff_ffff_ffff_ffff;

/// An access and what it gave back; only reads and the clock give anything.
pub ghost struct Exchange {
    pub access: Access,
    pub reply: u64,
}

/// A 8-bit read that gave `value`.
pub open spec fn r8(offset: usize, value: u8) -> Exchange {
    Exchange { access: Access::Read8(offset), reply: value as u64 }
}

/// A 8-bit write.
pub open spec fn w8(offset: usize, value: u8) -> Exchange {
    Exchange { access: Access::Write8(offset, value), reply: 0 }
}

/// A 16-bit read that gave `value`.
pub open spec fn r16(offset: usize, value: u16) -> Exchange {
    Exchange { access: Access::Read16(offset), reply: value as u64 }
}

/// A 16-bit write.
pub open spec fn w16(offset: usize, value: u16) -> Exchange {
    Exchange { access: Access::Write16(offset, value), reply: 0 }
}

/// A 32-bit read that gave `value`.
pub open spec fn r32(offset: usize, value: u32) -> Exchange {
    Exchange { access: Access::Read32(offset), reply: value as u64 }
}

/// A 32-bit write.
pub open spec fn w32(offset: usize, value: u32) -> Exchange {
    Exchange { access: Access::Write32(offset, value), reply: 0 }
}

/// A 64-bit read that gave `value`.
pub open spec fn r64(offset: usize, value: u64) -> Exchange {
    Exchange { access: Access::Read64(offset), reply: value as u64 }
}

/// A 64-bit write.
pub open spec fn w64(offset: usize, value: u64) -> Exchange {
    Exchange { access: Access::Write64(offset, value), reply: 0 }
}

/// A wait.
pub open spec fn wait(duration_ns: u64) -> Exchange {
    Exchange { access: Access::Delay(duration_ns), reply: 0 }
}

/// A barrier.
pub open spec fn fence() -> Exchange {
    Exchange { access: Access::Barrier, reply: 0 }
}

/// A look at the clock.
pub open spec fn clock(value: u64) -> Exchange {
    Exchange { access: Access::Now, reply: value }
}

/// A number that was handed on.
pub open spec fn told(value: u64) -> Exchange {
    Exchange { access: Access::Notify(value), reply: 0 }
}

/// A read of a byte of shared memory.
pub open spec fn l8(address: usize, value: u8) -> Exchange {
    Exchange { access: Access::Load8(address), reply: value as u64 }
}

/// A read of 32 bits of shared memory.
pub open spec fn l32(address: usize, value: u32) -> Exchange {
    Exchange { access: Access::Load32(address), reply: value as u64 }
}

/// A read of 64 bits of shared memory.
pub open spec fn l64(address: usize, value: u64) -> Exchange {
    Exchange { access: Access::Load64(address), reply: value }
}

/// A write of a byte of shared memory.
pub open spec fn s8(address: usize, value: u8) -> Exchange {
    Exchange { access: Access::Store8(address, value), reply: 0 }
}

/// A write of 32 bits of shared memory.
pub open spec fn s32(address: usize, value: u32) -> Exchange {
    Exchange { access: Access::Store32(address, value), reply: 0 }
}

/// A write of 64 bits of shared memory.
pub open spec fn s64(address: usize, value: u64) -> Exchange {
    Exchange { access: Access::Store64(address, value), reply: 0 }
}

/// Shared memory is made visible to the device.
pub open spec fn flushed(address: usize) -> Exchange {
    Exchange { access: Access::Flush(address), reply: 0 }
}

/// What the device wrote is made visible.
pub open spec fn refreshed(address: usize) -> Exchange {
    Exchange { access: Access::Refresh(address), reply: 0 }
}

/// A request for a page of shared memory.
pub open spec fn allocated(reply: u64) -> Exchange {
    Exchange { access: Access::AllocatePage, reply }
}

/// A page of shared memory is given back.
pub open spec fn released(address: u64) -> Exchange {
    Exchange { access: Access::ReleasePage(address), reply: 0 }
}

/// A payload was mapped, or not.
pub open spec fn payload_mapped(len: usize, reply: u64) -> Exchange {
    Exchange { access: Access::MapPayload(len), reply }
}

/// Shared memory was asked for.
pub open spec fn buffer_allocated(len: usize, align: usize, reply: u64) -> Exchange {
    Exchange { access: Access::AllocateBuffer(len, align), reply }
}

/// A payload or shared memory is given back.
pub open spec fn buffer_released(address: u64) -> Exchange {
    Exchange { access: Access::ReleaseBuffer(address), reply: 0 }
}

/// Writes of words one after the other.
pub open spec fn words_stored(address: int, words: Seq<u32>) -> Seq<Exchange> {
    Seq::new(words.len(), |i: int| s32((address + 4 * i) as usize, words[i]))
}

/// Writes of bytes one after the other.
pub open spec fn bytes_stored(address: int, bytes: Seq<u8>) -> Seq<Exchange> {
    Seq::new(bytes.len(), |i: int| s8((address + i) as usize, bytes[i]))
}

/// Reads of bytes one after the other.
pub open spec fn bytes_loaded(address: int, bytes: Seq<u8>) -> Seq<Exchange> {
    Seq::new(bytes.len(), |i: int| l8((address + i) as usize, bytes[i]))
}

/// When a poll of a register ends.
#[derive(Clone, Copy, PartialEq, Eq, Structural, Debug)]
pub struct PollTest {
    /// The bits that are looked at.
    pub mask: u64,
    pub expected: u64,
    /// Whether they must be as expected, or must not be.
    pub equal: bool,
}

impl PollTest {
    pub open spec fn met(self, value: u64) -> bool {
        (value & self.mask == self.expected) == self.equal
    }

    /// The poll ends when the bits of `mask` are all clear.
    pub fn clear(mask: u64) -> (test: Self)
        ensures
            test == (PollTest { mask, expected: 0, equal: true }),
    {
        PollTest { mask, expected: 0, equal: true }
    }

    /// The poll ends when some bit of `mask` is set.
    pub fn any(mask: u64) -> (test: Self)
        ensures
            test == (PollTest { mask, expected: 0, equal: false }),
    {
        PollTest { mask, expected: 0, equal: false }
    }
}

/// A poll: which register, how often at most, and how long to wait after a read
/// that did not end it.
#[derive(Clone, Copy, PartialEq, Eq, Structural, Debug)]
pub struct Poll {
    pub offset: usize,
    pub wide: bool,
    pub test: PollTest,
    pub tries: u32,
    pub pause_ns: Option<u64>,
}

impl Poll {
    /// One read of the register.
    pub open spec fn read(self, value: u64) -> Exchange {
        if self.wide {
            r64(self.offset, value)
        } else {
            r32(self.offset, value as u32)
        }
    }

    /// The accesses of a read that did not end the poll.
    pub open spec fn miss(self, value: u64) -> Seq<Exchange> {
        match self.pause_ns {
            Some(ns) => seq![self.read(value), wait(ns)],
            None => seq![self.read(value)],
        }
    }

    /// The accesses of reads that did not end the poll.
    pub open spec fn misses(self, values: Seq<u64>) -> Seq<Exchange>
        decreases values.len(),
    {
        if values.len() == 0 {
            Seq::empty()
        } else {
            self.misses(values.drop_last()) + self.miss(values.last())
        }
    }

    /// Whether none of the values ends the poll.
    pub open spec fn all_missed(self, values: Seq<u64>) -> bool {
        &&& forall|i: int| 0 <= i < values.len() ==> !self.test.met(#[trigger] values[i])
        &&& !self.wide ==> forall|i: int| 0 <= i < values.len() ==> #[trigger] values[i] <= u32::MAX
    }

    /// Whether `trace` is this poll, ended by `result` or, with none, given up.
    pub open spec fn done(self, trace: Seq<Exchange>, result: Option<u64>) -> bool {
        exists|values: Seq<u64>| #[trigger]
            self.all_missed(values) && match result {
                Some(value) => values.len() < self.tries && self.test.met(value) && (!self.wide
                    ==> value <= u32::MAX) && trace == self.misses(values) + seq![self.read(value)],
                None => values.len() == self.tries && trace == self.misses(values),
            }
    }
}

/// A poll of an 8-bit register: how often at most, and how long to wait after a
/// read that did not end it. It ends when the bits of `mask` are not all clear, or,
/// with `set` false, when they are.
#[derive(Clone, Copy, PartialEq, Eq, Structural, Debug)]
pub struct BytePoll {
    pub offset: usize,
    pub mask: u8,
    pub set: bool,
    pub tries: u32,
    pub pause_ns: u64,
}

impl BytePoll {
    pub open spec fn met(self, value: u8) -> bool {
        (value & self.mask != 0) == self.set
    }

    /// The accesses of reads that did not end the poll.
    pub open spec fn misses(self, values: Seq<u8>) -> Seq<Exchange>
        decreases values.len(),
    {
        if values.len() == 0 {
            Seq::empty()
        } else {
            self.misses(values.drop_last()) + seq![
                r8(self.offset, values.last()),
                wait(self.pause_ns),
            ]
        }
    }

    /// Whether none of the values ends the poll.
    pub open spec fn all_missed(self, values: Seq<u8>) -> bool {
        forall|i: int| 0 <= i < values.len() ==> !self.met(#[trigger] values[i])
    }

    /// Whether `trace` is this poll, ended by `result` or, with none, given up.
    pub open spec fn done(self, trace: Seq<Exchange>, result: Option<u8>) -> bool {
        exists|values: Seq<u8>| #[trigger]
            self.all_missed(values) && match result {
                Some(value) => values.len() < self.tries && self.met(value) && trace
                    == self.misses(values) + seq![r8(self.offset, value)],
                None => values.len() == self.tries && trace == self.misses(values),
            }
    }
}

/// The accesses that were made since `before`.
pub open spec fn since(after: Seq<Exchange>, before: Seq<Exchange>) -> Seq<Exchange> {
    after.skip(before.len() as int)
}

/// Whether `before` is how `after` begins.
pub open spec fn grown(after: Seq<Exchange>, before: Seq<Exchange>) -> bool {
    after == before + since(after, before)
}

/// A log that grew in four parts grew by all of them.
pub proof fn lemma_four(
    start: Seq<Exchange>,
    a: Seq<Exchange>,
    b: Seq<Exchange>,
    c: Seq<Exchange>,
    d: Seq<Exchange>,
)
    ensures
        start + a + b + c + d == start + (a + b + c + d),
{
    assert(start + a + b + c + d =~= start + (a + b + c + d));
}

/// A log that grew in five parts grew by all of them.
pub proof fn lemma_five(
    start: Seq<Exchange>,
    a: Seq<Exchange>,
    b: Seq<Exchange>,
    c: Seq<Exchange>,
    d: Seq<Exchange>,
    e: Seq<Exchange>,
)
    ensures
        start + a + b + c + d + e == start + (a + b + c + d + e),
{
    assert(start + a + b + c + d + e =~= start + (a + b + c + d + e));
}

/// What follows a log that was grown by `trace` is `trace`.
pub proof fn lemma_grown(before: Seq<Exchange>, trace: Seq<Exchange>)
    ensures
        grown(before + trace, before),
        since(before + trace, before) == trace,
{
    assert(since(before + trace, before) =~= trace);
}

/// What was written last to a 32-bit register, if anything was.
pub open spec fn last32(trace: Seq<Exchange>, offset: int) -> Option<u32>
    decreases trace.len(),
{
    if trace.len() == 0 {
        None
    } else {
        match trace.last().access {
            Access::Write32(at, value) if at == offset => Some(value),
            _ => last32(trace.drop_last(), offset),
        }
    }
}

/// What was written last is what was written last in the later of two parts, if anything
/// was.
pub proof fn lemma_last32_concat(a: Seq<Exchange>, b: Seq<Exchange>, offset: int)
    ensures
        last32(a + b, offset) == (match last32(b, offset) {
            Some(value) => Some(value),
            None => last32(a, offset),
        }),
    decreases b.len(),
{
    if b.len() == 0 {
        assert(a + b =~= a);
    } else {
        assert((a + b).drop_last() =~= a + b.drop_last());
        lemma_last32_concat(a, b.drop_last(), offset);
    }
}

pub proof fn lemma_last32_push(a: Seq<Exchange>, exchange: Exchange, offset: int)
    ensures
        last32(a.push(exchange), offset) == (match exchange.access {
            Access::Write32(at, value) if at == offset => Some(value),
            _ => last32(a, offset),
        }),
{
    assert(a.push(exchange).drop_last() =~= a);
}

proof fn lemma_misses_write_nothing(poll: Poll, values: Seq<u64>, offset: int)
    ensures
        last32(poll.misses(values), offset) is None,
    decreases values.len(),
{
    if values.len() > 0 {
        lemma_misses_write_nothing(poll, values.drop_last(), offset);
        let miss = poll.miss(values.last());
        lemma_last32_concat(poll.misses(values.drop_last()), miss, offset);
        reveal_with_fuel(last32, 3);
        assert(miss.drop_last().len() <= 1);
    }
}

/// A poll writes nothing.
pub proof fn lemma_poll_writes_nothing(
    poll: Poll,
    trace: Seq<Exchange>,
    result: Option<u64>,
    offset: int,
)
    requires
        poll.done(trace, result),
    ensures
        last32(trace, offset) is None,
{
    let values = choose|values: Seq<u64>| #[trigger]
        poll.all_missed(values) && match result {
            Some(value) => values.len() < poll.tries && poll.test.met(value) && (!poll.wide
                ==> value <= u32::MAX) && trace == poll.misses(values) + seq![poll.read(value)],
            None => values.len() == poll.tries && trace == poll.misses(values),
        };
    lemma_misses_write_nothing(poll, values, offset);
    if let Some(value) = result {
        let last = seq![poll.read(value)];
        lemma_last32_concat(poll.misses(values), last, offset);
        assert(last =~= Seq::<Exchange>::empty().push(poll.read(value)));
        lemma_last32_push(Seq::empty(), poll.read(value), offset);
    }
}

/// What is taken of a reply to an access: as many bits as the access is wide, and
/// nothing of the reply to one that asks for nothing.
pub open spec fn taken(access: Access, reply: u64) -> u64 {
    match access {
        Access::Read8(_) | Access::Load8(_) => reply % 0x100,
        Access::Read16(_) => reply % 0x1_0000,
        Access::Read32(_) | Access::Load32(_) => reply % 0x1_0000_0000,
        Access::Read64(_)
        | Access::Load64(_)
        | Access::Now
        | Access::AllocatePage
        | Access::MapPayload(_)
        | Access::AllocateBuffer(_, _) => reply,
        _ => 0,
    }
}

/// Whether an exchange is a call of a function, with what was taken of its reply.
pub open spec fn answered<F: FnMut(Access) -> u64>(perform: F, exchange: Exchange) -> bool {
    exists|reply: u64| #[trigger]
        call_ensures(perform, (exchange.access,), reply) && exchange.reply == taken(
            exchange.access,
            reply,
        )
}

/// Whether each exchange of a trace is a call of a function.
pub open spec fn all_answered<F: FnMut(Access) -> u64>(perform: F, trace: Seq<Exchange>) -> bool {
    forall|i: int| 0 <= i < trace.len() ==> answered(perform, #[trigger] trace[i])
}

/// Access to one device.
pub struct Port<F> {
    perform: F,
    log: Ghost<Seq<Exchange>>,
}

impl<F: FnMut(Access) -> u64> Port<F> {
    /// What was done so far.
    pub closed spec fn log(&self) -> Seq<Exchange> {
        self.log@
    }

    /// The caller's function, which performs the accesses.
    pub closed spec fn performs(&self) -> F {
        self.perform
    }

    /// The caller's function may be called for any access, and gave every reply of the
    /// log.
    pub closed spec fn wf(&self) -> bool {
        &&& forall|access: Access| #[trigger] call_requires(self.perform, (access,))
        &&& all_answered(self.perform, self.log@)
    }

    /// Nothing is in the log but calls of the caller's function.
    pub proof fn log_is_answered(&self)
        requires
            self.wf(),
        ensures
            all_answered(self.performs(), self.log()),
    {
    }

    /// What a log grew by are calls of the caller's function.
    pub proof fn growth_is_answered(&self, before: Seq<Exchange>)
        requires
            self.wf(),
            grown(self.log(), before),
        ensures
            all_answered(self.performs(), since(self.log(), before)),
    {
        let trace = since(self.log(), before);
        assert forall|i: int| 0 <= i < trace.len() implies answered(
            self.performs(),
            #[trigger] trace[i],
        ) by {
            assert(trace[i] == self.log()[before.len() + i]);
        }
    }

    pub fn new(perform: F) -> (port: Self)
        requires
            forall|access: Access| #[trigger] call_requires(perform, (access,)),
        ensures
            port.wf(),
            port.performs() == perform,
            port.log() == Seq::<Exchange>::empty(),
    {
        Port { perform, log: Ghost(Seq::empty()) }
    }

    pub fn read8(&mut self, offset: usize) -> (value: u8)
        requires
            old(self).wf(),
        ensures
            final(self).wf(),
            final(self).performs() == old(self).performs(),
            final(self).log() == old(self).log().push(r8(offset, value)),
    {
        let reply: u64 = (self.perform)(Access::Read8(offset));
        let value: u8 = (reply % 0x100) as u8;
        self.log = Ghost(self.log@.push(r8(offset, value)));
        value
    }

    pub fn write8(&mut self, offset: usize, value: u8)
        requires
            old(self).wf(),
        ensures
            final(self).wf(),
            final(self).performs() == old(self).performs(),
            final(self).log() == old(self).log().push(w8(offset, value)),
    {
        let _ = (self.perform)(Access::Write8(offset, value));
        self.log = Ghost(self.log@.push(w8(offset, value)));
    }

    pub fn read16(&mut self, offset: usize) -> (value: u16)
        requires
            old(self).wf(),
        ensures
            final(self).wf(),
            final(self).performs() == old(self).performs(),
            final(self).log() == old(self).log().push(r16(offset, value)),
    {
        let reply: u64 = (self.perform)(Access::Read16(offset));
        let value: u16 = (reply % 0x10000) as u16;
        self.log = Ghost(self.log@.push(r16(offset, value)));
        value
    }

    pub fn write16(&mut self, offset: usize, value: u16)
        requires
            old(self).wf(),
        ensures
            final(self).wf(),
            final(self).performs() == old(self).performs(),
            final(self).log() == old(self).log().push(w16(offset, value)),
    {
        let _ = (self.perform)(Access::Write16(offset, value));
        self.log = Ghost(self.log@.push(w16(offset, value)));
    }

    pub fn read32(&mut self, offset: usize) -> (value: u32)
        requires
            old(self).wf(),
        ensures
            final(self).wf(),
            final(self).performs() == old(self).performs(),
            final(self).log() == old(self).log().push(r32(offset, value)),
    {
        let reply: u64 = (self.perform)(Access::Read32(offset));
        let value: u32 = (reply % 0x100000000) as u32;
        self.log = Ghost(self.log@.push(r32(offset, value)));
        value
    }

    pub fn write32(&mut self, offset: usize, value: u32)
        requires
            old(self).wf(),
        ensures
            final(self).wf(),
            final(self).performs() == old(self).performs(),
            final(self).log() == old(self).log().push(w32(offset, value)),
    {
        let _ = (self.perform)(Access::Write32(offset, value));
        self.log = Ghost(self.log@.push(w32(offset, value)));
    }

    pub fn read64(&mut self, offset: usize) -> (value: u64)
        requires
            old(self).wf(),
        ensures
            final(self).wf(),
            final(self).performs() == old(self).performs(),
            final(self).log() == old(self).log().push(r64(offset, value)),
    {
        let reply: u64 = (self.perform)(Access::Read64(offset));
        let value: u64 = reply;
        self.log = Ghost(self.log@.push(r64(offset, value)));
        value
    }

    pub fn write64(&mut self, offset: usize, value: u64)
        requires
            old(self).wf(),
        ensures
            final(self).wf(),
            final(self).performs() == old(self).performs(),
            final(self).log() == old(self).log().push(w64(offset, value)),
    {
        let _ = (self.perform)(Access::Write64(offset, value));
        self.log = Ghost(self.log@.push(w64(offset, value)));
    }

    pub fn delay(&mut self, duration_ns: u64)
        requires
            old(self).wf(),
        ensures
            final(self).wf(),
            final(self).performs() == old(self).performs(),
            final(self).log() == old(self).log().push(wait(duration_ns)),
    {
        let _ = (self.perform)(Access::Delay(duration_ns));
        self.log = Ghost(self.log@.push(wait(duration_ns)));
    }

    pub fn barrier(&mut self)
        requires
            old(self).wf(),
        ensures
            final(self).wf(),
            final(self).performs() == old(self).performs(),
            final(self).log() == old(self).log().push(fence()),
    {
        let _ = (self.perform)(Access::Barrier);
        self.log = Ghost(self.log@.push(fence()));
    }

    pub fn now(&mut self) -> (value: u64)
        requires
            old(self).wf(),
        ensures
            final(self).wf(),
            final(self).performs() == old(self).performs(),
            final(self).log() == old(self).log().push(clock(value)),
    {
        let value: u64 = (self.perform)(Access::Now);
        self.log = Ghost(self.log@.push(clock(value)));
        value
    }

    /// Hands a number to whoever listens to the device.
    pub fn notify(&mut self, value: u64)
        requires
            old(self).wf(),
        ensures
            final(self).wf(),
            final(self).performs() == old(self).performs(),
            final(self).log() == old(self).log().push(told(value)),
    {
        let _ = (self.perform)(Access::Notify(value));
        self.log = Ghost(self.log@.push(told(value)));
    }

    pub fn load8(&mut self, address: usize) -> (value: u8)
        requires
            old(self).wf(),
        ensures
            final(self).wf(),
            final(self).performs() == old(self).performs(),
            final(self).log() == old(self).log().push(l8(address, value)),
    {
        let reply: u64 = (self.perform)(Access::Load8(address));
        let value: u8 = (reply % 0x100) as u8;
        self.log = Ghost(self.log@.push(l8(address, value)));
        value
    }

    pub fn store8(&mut self, address: usize, value: u8)
        requires
            old(self).wf(),
        ensures
            final(self).wf(),
            final(self).performs() == old(self).performs(),
            final(self).log() == old(self).log().push(s8(address, value)),
    {
        let _ = (self.perform)(Access::Store8(address, value));
        self.log = Ghost(self.log@.push(s8(address, value)));
    }

    pub fn load32(&mut self, address: usize) -> (value: u32)
        requires
            old(self).wf(),
        ensures
            final(self).wf(),
            final(self).performs() == old(self).performs(),
            final(self).log() == old(self).log().push(l32(address, value)),
    {
        let reply: u64 = (self.perform)(Access::Load32(address));
        let value: u32 = (reply % 0x1_0000_0000) as u32;
        self.log = Ghost(self.log@.push(l32(address, value)));
        value
    }

    pub fn store32(&mut self, address: usize, value: u32)
        requires
            old(self).wf(),
        ensures
            final(self).wf(),
            final(self).performs() == old(self).performs(),
            final(self).log() == old(self).log().push(s32(address, value)),
    {
        let _ = (self.perform)(Access::Store32(address, value));
        self.log = Ghost(self.log@.push(s32(address, value)));
    }

    pub fn load64(&mut self, address: usize) -> (value: u64)
        requires
            old(self).wf(),
        ensures
            final(self).wf(),
            final(self).performs() == old(self).performs(),
            final(self).log() == old(self).log().push(l64(address, value)),
    {
        let reply: u64 = (self.perform)(Access::Load64(address));
        let value: u64 = reply;
        self.log = Ghost(self.log@.push(l64(address, value)));
        value
    }

    pub fn store64(&mut self, address: usize, value: u64)
        requires
            old(self).wf(),
        ensures
            final(self).wf(),
            final(self).performs() == old(self).performs(),
            final(self).log() == old(self).log().push(s64(address, value)),
    {
        let _ = (self.perform)(Access::Store64(address, value));
        self.log = Ghost(self.log@.push(s64(address, value)));
    }

    /// Makes shared memory visible to the device.
    pub fn flush(&mut self, address: usize)
        requires
            old(self).wf(),
        ensures
            final(self).wf(),
            final(self).performs() == old(self).performs(),
            final(self).log() == old(self).log().push(flushed(address)),
    {
        let _ = (self.perform)(Access::Flush(address));
        self.log = Ghost(self.log@.push(flushed(address)));
    }

    /// Makes what the device wrote visible.
    pub fn refresh(&mut self, address: usize)
        requires
            old(self).wf(),
        ensures
            final(self).wf(),
            final(self).performs() == old(self).performs(),
            final(self).log() == old(self).log().push(refreshed(address)),
    {
        let _ = (self.perform)(Access::Refresh(address));
        self.log = Ghost(self.log@.push(refreshed(address)));
    }

    /// Gets a page of shared memory.
    pub fn allocate_page(&mut self) -> (reply: u64)
        requires
            old(self).wf(),
        ensures
            final(self).wf(),
            final(self).performs() == old(self).performs(),
            final(self).log() == old(self).log().push(allocated(reply)),
    {
        let reply: u64 = (self.perform)(Access::AllocatePage);
        self.log = Ghost(self.log@.push(allocated(reply)));
        reply
    }

    /// Gives a page of shared memory back.
    pub fn release_page(&mut self, address: u64)
        requires
            old(self).wf(),
        ensures
            final(self).wf(),
            final(self).performs() == old(self).performs(),
            final(self).log() == old(self).log().push(released(address)),
    {
        let _ = (self.perform)(Access::ReleasePage(address));
        self.log = Ghost(self.log@.push(released(address)));
    }

    pub fn map_payload(&mut self, len: usize) -> (reply: u64)
        requires
            old(self).wf(),
        ensures
            final(self).wf(),
            final(self).performs() == old(self).performs(),
            final(self).log() == old(self).log().push(payload_mapped(len, reply)),
    {
        let reply: u64 = (self.perform)(Access::MapPayload(len));
        self.log = Ghost(self.log@.push(payload_mapped(len, reply)));
        reply
    }

    pub fn allocate_buffer(&mut self, len: usize, align: usize) -> (reply: u64)
        requires
            old(self).wf(),
        ensures
            final(self).wf(),
            final(self).performs() == old(self).performs(),
            final(self).log() == old(self).log().push(buffer_allocated(len, align, reply)),
    {
        let reply: u64 = (self.perform)(Access::AllocateBuffer(len, align));
        self.log = Ghost(self.log@.push(buffer_allocated(len, align, reply)));
        reply
    }

    pub fn release_buffer(&mut self, address: u64)
        requires
            old(self).wf(),
        ensures
            final(self).wf(),
            final(self).performs() == old(self).performs(),
            final(self).log() == old(self).log().push(buffer_released(address)),
    {
        let _ = (self.perform)(Access::ReleaseBuffer(address));
        self.log = Ghost(self.log@.push(buffer_released(address)));
    }

    /// Writes words one after the other.
    pub fn store_words(&mut self, address: u64, words: &[u32])
        requires
            old(self).wf(),
        ensures
            final(self).wf(),
            final(self).performs() == old(self).performs(),
            final(self).log() == old(self).log() + words_stored(address as int, words@),
    {
        let ghost start = self.log();
        let mut i: usize = 0;
        assert(start + words_stored(address as int, words@).take(0) =~= start);
        while i < words.len()
            invariant
                i <= words@.len(),
                self.wf(),
                self.performs() == old(self).performs(),
                self.log() == start + words_stored(address as int, words@).take(i as int),
            decreases words@.len() - i,
        {
            let at: u128 = address as u128 + 4 * (i as u128);
            self.store32(at as usize, words[i]);
            i += 1;
            assert(self.log() =~= start + words_stored(address as int, words@).take(i as int));
        }
        assert(words_stored(address as int, words@).take(i as int) =~= words_stored(
            address as int,
            words@,
        ));
    }

    /// Writes bytes one after the other.
    pub fn store_bytes(&mut self, address: u64, bytes: &Vec<u8>)
        requires
            old(self).wf(),
        ensures
            final(self).wf(),
            final(self).performs() == old(self).performs(),
            final(self).log() == old(self).log() + bytes_stored(address as int, bytes@),
    {
        let ghost start = self.log();
        let mut i: usize = 0;
        assert(start + bytes_stored(address as int, bytes@).take(0) =~= start);
        while i < bytes.len()
            invariant
                i <= bytes@.len(),
                self.wf(),
                self.performs() == old(self).performs(),
                self.log() == start + bytes_stored(address as int, bytes@).take(i as int),
            decreases bytes@.len() - i,
        {
            let at: u128 = address as u128 + i as u128;
            self.store8(at as usize, bytes[i]);
            i += 1;
            assert(self.log() =~= start + bytes_stored(address as int, bytes@).take(i as int));
        }
        assert(bytes_stored(address as int, bytes@).take(i as int) =~= bytes_stored(
            address as int,
            bytes@,
        ));
    }

    /// Reads bytes one after the other.
    pub fn load_bytes(&mut self, address: u64, len: usize) -> (bytes: Vec<u8>)
        requires
            old(self).wf(),
        ensures
            final(self).wf(),
            final(self).performs() == old(self).performs(),
            bytes@.len() == len,
            final(self).log() == old(self).log() + bytes_loaded(address as int, bytes@),
    {
        let ghost start = self.log();
        let mut bytes: Vec<u8> = Vec::new();
        let mut i: usize = 0;
        assert(start + bytes_loaded(address as int, bytes@) =~= start);
        while i < len
            invariant
                i <= len,
                bytes@.len() == i,
                self.wf(),
                self.performs() == old(self).performs(),
                self.log() == start + bytes_loaded(address as int, bytes@),
            decreases len - i,
        {
            let at: u128 = address as u128 + i as u128;
            let byte: u8 = self.load8(at as usize);
            bytes.push(byte);
            i += 1;
            assert(self.log() =~= start + bytes_loaded(address as int, bytes@));
        }
        bytes
    }

    /// Reads a register until its value ends the poll.
    pub fn poll(&mut self, poll: Poll) -> (result: Option<u64>)
        requires
            old(self).wf(),
        ensures
            final(self).wf(),
            final(self).performs() == old(self).performs(),
            grown(final(self).log(), old(self).log()),
            poll.done(since(final(self).log(), old(self).log()), result),
            result is Some && !poll.wide ==> result->0 <= u32::MAX,
    {
        let ghost before = self.log();
        let ghost mut values: Seq<u64> = Seq::empty();
        let mut round: u32 = 0;
        assert(before + poll.misses(values) =~= before);
        while round < poll.tries
            invariant
                round <= poll.tries,
                self.wf(),
                self.performs() == old(self).performs(),
                values.len() == round,
                poll.all_missed(values),
                self.log() == before + poll.misses(values),
                before == old(self).log(),
            decreases poll.tries - round,
        {
            let value: u64 = if poll.wide {
                self.read64(poll.offset)
            } else {
                self.read32(poll.offset) as u64
            };
            if (value & poll.test.mask == poll.test.expected) == poll.test.equal {
                proof {
                    let trace = poll.misses(values) + seq![poll.read(value)];
                    assert(self.log() =~= before + trace);
                    lemma_grown(before, trace);
                    assert(poll.all_missed(values));
                }
                return Some(value);
            }
            if let Some(ns) = poll.pause_ns {
                self.delay(ns);
            }
            proof {
                let earlier = values;
                values = values.push(value);
                assert(values.drop_last() =~= earlier);
                assert(self.log() =~= before + poll.misses(values));
            }
            round += 1;
        }
        proof {
            lemma_grown(before, poll.misses(values));
            assert(poll.all_missed(values));
        }
        None
    }

    /// Reads an 8-bit register until its value ends the poll.
    pub fn poll8(&mut self, poll: BytePoll) -> (result: Option<u8>)
        requires
            old(self).wf(),
        ensures
            final(self).wf(),
            final(self).performs() == old(self).performs(),
            grown(final(self).log(), old(self).log()),
            poll.done(since(final(self).log(), old(self).log()), result),
    {
        let ghost before = self.log();
        let ghost mut values: Seq<u8> = Seq::empty();
        let mut round: u32 = 0;
        assert(before + poll.misses(values) =~= before);
        while round < poll.tries
            invariant
                round <= poll.tries,
                self.wf(),
                self.performs() == old(self).performs(),
                values.len() == round,
                poll.all_missed(values),
                self.log() == before + poll.misses(values),
                before == old(self).log(),
            decreases poll.tries - round,
        {
            let value: u8 = self.read8(poll.offset);
            if (value & poll.mask != 0) == poll.set {
                proof {
                    let trace = poll.misses(values) + seq![r8(poll.offset, value)];
                    assert(self.log() =~= before + trace);
                    lemma_grown(before, trace);
                    assert(poll.all_missed(values));
                }
                return Some(value);
            }
            self.delay(poll.pause_ns);
            proof {
                let earlier = values;
                values = values.push(value);
                assert(values.drop_last() =~= earlier);
                assert(self.log() =~= before + poll.misses(values));
            }
            round += 1;
        }
        proof {
            lemma_grown(before, poll.misses(values));
            assert(poll.all_missed(values));
        }
        None
    }
}

/// A poll reads nothing but its register, and never more often than it may.
pub proof fn poll_is_bounded(poll: Poll, trace: Seq<Exchange>, result: Option<u64>)
    requires
        poll.done(trace, result),
    ensures
        trace.len() <= 2 * poll.tries,
        forall|i: int|
            0 <= i < trace.len() ==> (#[trigger] trace[i]).access == (if poll.wide {
                Access::Read64(poll.offset)
            } else {
                Access::Read32(poll.offset)
            }) || (poll.pause_ns is Some && trace[i] == wait(poll.pause_ns->0)),
{
    let values = choose|values: Seq<u64>| #[trigger]
        poll.all_missed(values) && match result {
            Some(value) => values.len() < poll.tries && poll.test.met(value) && (!poll.wide ==> value
                <= u32::MAX) && trace == poll.misses(values) + seq![poll.read(value)],
            None => values.len() == poll.tries && trace == poll.misses(values),
        };
    lemma_misses(poll, values);
}

proof fn lemma_misses(poll: Poll, values: Seq<u64>)
    ensures
        poll.misses(values).len() <= 2 * values.len(),
        forall|i: int|
            0 <= i < poll.misses(values).len() ==> (#[trigger] poll.misses(values)[i]).access == (
            if poll.wide {
                Access::Read64(poll.offset)
            } else {
                Access::Read32(poll.offset)
            }) || (poll.pause_ns is Some && poll.misses(values)[i] == wait(poll.pause_ns->0)),
    decreases values.len(),
{
    if values.len() > 0 {
        lemma_misses(poll, values.drop_last());
    }
}

} // verus!
