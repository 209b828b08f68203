//! The queue of packets of the controller.

use vstd::prelude::*;
use crate::gmac::irq::GmacQueueIrq;
use crate::gmac::mac;
use crate::gmac::mac::{GmacMac, RING_SIZE, RX_BUFFER_SIZE, TX_BUFFER_SIZE};
use crate::gmac::phy;
use crate::gmac::phy::{LinkRun, check_link};
use crate::gmac::regs;
use crate::port;
use crate::port::{Access, Exchange, Port};

verus! {

/// How many packets one call handles at most.
pub const MAX_BATCH: usize = 32;

pub const MAX_RX_REFILL_PER_CALL: usize = 32;

/// Memory that was lent for a packet.
#[derive(Clone, Copy, PartialEq, Eq, Structural, Debug)]
pub struct RxLease {
    pub vaddr: usize,
    pub len: usize,
    /// Whether it can be made visible to the controller.
    pub syncs: bool,
    /// Where the controller finds it.
    pub dma: Option<u64>,
}

/// A packet that was received.
#[derive(Clone, Copy, PartialEq, Eq, Structural, Debug)]
pub struct RxPacket {
    pub lease: RxLease,
    pub frame_len: u32,
}

/// A packet that is to be sent.
pub struct TxPacket {
    pub total: usize,
    /// Whether it needs no checksum of the controller's.
    pub checksum_ok: bool,
    /// Whether its parts can be read.
    pub readable: bool,
    pub fragments: Vec<Vec<u8>>,
    pub completion: u64,
}

/// Why a queue cannot go on.
#[derive(Clone, Copy, PartialEq, Eq, Structural, Debug)]
pub enum QueueFatalError {
    DeviceGone,
    DmaFault,
    RingCorrupt,
}

#[derive(Clone, Copy, PartialEq, Eq, Structural, Debug)]
pub struct RxRefillResult {
    pub posted: u16,
    pub descriptor_starved: bool,
    pub fatal: Option<QueueFatalError>,
}

/// How much one call may receive.
#[derive(Clone, Copy, PartialEq, Eq, Structural, Debug)]
pub struct RxBudget {
    pub packets: u16,
    pub bytes: u32,
}

#[derive(Clone, Copy, PartialEq, Eq, Structural, Debug)]
pub struct RxPollResult {
    pub packets: u16,
    pub bytes: u32,
    pub ring_empty: bool,
    pub descriptor_starved: bool,
    pub fatal: Option<QueueFatalError>,
}

#[derive(Clone, Copy, PartialEq, Eq, Structural, Debug)]
pub struct TxSubmitResult {
    pub packets: u16,
    pub descriptors: u16,
    pub bytes: u32,
    pub queue_full: bool,
    pub fatal: Option<QueueFatalError>,
}

#[derive(Clone, Copy, PartialEq, Eq, Structural, Debug)]
pub struct TxReclaimResult {
    pub completions: u16,
    pub descriptors: u16,
    pub ring_empty: bool,
    pub fatal: Option<QueueFatalError>,
}

/// What a queue can do.
#[derive(Clone, Copy, PartialEq, Eq, Structural, Debug)]
pub struct NetQueueCaps {
    pub queue_size: u16,
    pub scatter_gather: bool,
    pub max_tx_descriptors: u16,
    pub max_rx_batch: u8,
    pub max_tx_batch: u8,
    pub tx_checksum: bool,
    pub udp_segmentation: bool,
    pub max_udp_segments: u16,
}

/// The queue of a controller.
pub struct GmacQueue {
    pub mac: GmacMac,
    pub quiesced: bool,
    pub rx_pending: Vec<Option<RxLease>>,
    pub tx_pending: Vec<Option<u64>>,
    pub rx_refill_index: usize,
    pub rx_poll_index: usize,
    pub tx_submit_index: usize,
    pub tx_reclaim_index: usize,
    pub link_checked: bool,
}

/// The place behind another one.
pub open spec fn next_slot(slot: usize) -> usize {
    if slot + 1 < RING_SIZE {
        (slot + 1) as usize
    } else {
        0
    }
}

fn after_slot(slot: usize) -> (next: usize)
    requires
        slot < RING_SIZE,
    ensures
        next == next_slot(slot),
        next < RING_SIZE,
{
    if slot + 1 < RING_SIZE {
        slot + 1
    } else {
        0
    }
}

/// How far memory was handed to the controller.
pub ghost struct Refill {
    pub pending: Seq<Option<RxLease>>,
    pub next: usize,
    pub batch: Seq<Option<RxLease>>,
    pub trace: Seq<Exchange>,
    pub posted: int,
    pub fatal: Option<QueueFatalError>,
    pub ended: bool,
}

/// The mark of the last descriptor of a ring.
pub open spec fn ring_end(slot: usize) -> int {
    if slot == RING_SIZE - 1 {
        regs::RDES1_END_RING as int
    } else {
        0
    }
}

fn ring_mark(slot: usize) -> (mark: u32)
    ensures
        mark == ring_end(slot),
{
    if slot == RING_SIZE - 1 {
        regs::RDES1_END_RING
    } else {
        0
    }
}

/// The accesses by which memory is handed to the controller; the last one gives it
/// away. The last descriptor still closes the ring.
pub open spec fn lease_posted(ring: u64, slot: usize, lease: RxLease) -> Seq<Exchange> {
    let at = mac::desc_at(ring, slot as int);
    seq![
        port::flushed(lease.vaddr),
        port::s32((at + 8) as usize, mac::low32(lease.dma->0 as int)),
        port::s32((at + 4) as usize, (lease.len % 0x800 + ring_end(slot)) as u32),
        port::fence(),
        port::s32(at as usize, regs::RDES0_OWN),
    ]
}

/// One item of a batch: one that is missing or too long is passed over, and one for
/// which there is no place ends the call.
pub open spec fn refill_step(s: Refill, ring: u64, i: int) -> Refill {
    if s.pending[s.next as int] is Some {
        Refill { ended: true, ..s }
    } else {
        match s.batch[i] {
            None => s,
            Some(lease) => if lease.len > RX_BUFFER_SIZE {
                s
            } else if !lease.syncs {
                Refill { ended: true, fatal: Some(QueueFatalError::DmaFault), ..s }
            } else if lease.dma is None {
                Refill { ended: true, trace: s.trace.push(port::flushed(lease.vaddr)), ..s }
            } else {
                Refill {
                    pending: s.pending.update(s.next as int, Some(lease)),
                    batch: s.batch.update(i, None),
                    next: next_slot(s.next),
                    trace: s.trace + lease_posted(ring, s.next, lease),
                    posted: s.posted + 1,
                    ..s
                }
            },
        }
    }
}

/// The first items of a batch.
pub open spec fn refill_upto(s: Refill, ring: u64, n: int) -> Refill
    decreases n,
{
    if n <= 0 {
        s
    } else {
        let before = refill_upto(s, ring, n - 1);
        if before.ended {
            before
        } else {
            refill_step(before, ring, n - 1)
        }
    }
}

/// How many items of a batch one call looks at.
pub open spec fn refill_limit(len: int) -> int {
    if len < MAX_RX_REFILL_PER_CALL {
        len
    } else {
        MAX_RX_REFILL_PER_CALL as int
    }
}

pub open spec fn all_taken<T>(slots: Seq<Option<T>>) -> bool {
    forall|i: int| 0 <= i < slots.len() ==> (#[trigger] slots[i]) is Some
}

pub open spec fn none_left<T>(slots: Seq<Option<T>>) -> bool {
    forall|i: int| 0 <= i < slots.len() ==> (#[trigger] slots[i]) is None
}

/// Refilling leaves a slot whose memory the controller has as it is: it neither takes
/// that memory back nor puts other memory in its place.
pub proof fn refill_keeps_pending(s: Refill, ring: u64, n: int, slot: int)
    requires
        s.pending.len() == RING_SIZE,
        s.next < RING_SIZE,
        0 <= n <= s.batch.len(),
        0 <= slot < RING_SIZE,
        s.pending[slot] is Some,
    ensures
        refill_upto(s, ring, n).pending[slot] == s.pending[slot],
        refill_upto(s, ring, n).pending.len() == RING_SIZE,
        refill_upto(s, ring, n).next < RING_SIZE,
    decreases n,
{
    if n > 0 {
        refill_keeps_pending(s, ring, n - 1, slot);
    }
}

/// Whether the loop over received packets goes on.
#[derive(Clone, Copy, PartialEq, Eq, Structural, Debug)]
pub enum Flow {
    Running,
    Stopped,
    Fatal,
}

/// How far packets were received.
pub ghost struct Receiving {
    pub pending: Seq<Option<RxLease>>,
    pub at: usize,
    pub out: Seq<RxPacket>,
    pub packets: int,
    pub bytes: int,
    pub flow: Flow,
}

/// Whether the next descriptor is looked at.
pub open spec fn receives(s: Receiving) -> bool {
    s.flow == Flow::Running && s.packets < MAX_BATCH && s.pending[s.at as int] is Some
}

/// A sum of bytes that does not overflow.
pub open spec fn capped(bytes: int) -> int {
    if bytes > u32::MAX {
        u32::MAX as int
    } else {
        bytes
    }
}

/// One descriptor: one that the controller still has ends the call; a frame with an
/// error, in parts, or that does not fit its memory is dropped.
pub open spec fn receive_step(s: Receiving, word: u32, budget: RxBudget, capacity: int) -> Receiving {
    let lease = s.pending[s.at as int]->0;
    let taken = Receiving { pending: s.pending.update(s.at as int, None), ..s };
    let passed = Receiving { at: next_slot(s.at), ..taken };
    let frame_len = word as int / 0x10000 % 0x4000;
    if word / regs::RDES0_OWN == 1 {
        Receiving { flow: Flow::Stopped, ..taken }
    } else if word / regs::RDES0_ERROR_SUMMARY % 2 == 1 || word / regs::RDES0_LAST_DESCRIPTOR % 2
        == 0 || frame_len == 0 || frame_len > lease.len {
        passed
    } else if s.out.len() >= capacity {
        Receiving { flow: Flow::Fatal, ..passed }
    } else {
        let bytes = capped(s.bytes + frame_len);
        Receiving {
            out: s.out.push(RxPacket { lease, frame_len: frame_len as u32 }),
            packets: s.packets + 1,
            bytes,
            flow: if s.packets + 1 >= budget.packets || bytes >= budget.bytes {
                Flow::Stopped
            } else {
                Flow::Running
            },
            ..passed
        }
    }
}

/// Whether a state follows from the one before it.
pub open spec fn receive_at(
    states: Seq<Receiving>,
    words: Seq<u32>,
    budget: RxBudget,
    capacity: int,
    i: int,
) -> bool {
    receives(states[i]) && states[i + 1] == receive_step(states[i], words[i], budget, capacity)
}

/// Whether packets were received so, one state before each word that was read.
pub open spec fn receive_path(
    states: Seq<Receiving>,
    words: Seq<u32>,
    budget: RxBudget,
    capacity: int,
) -> bool {
    &&& states.len() == words.len() + 1
    &&& forall|i: int|
        0 <= i < words.len() ==> #[trigger] receive_at(states, words, budget, capacity, i)
}

/// The reads of descriptors.
pub open spec fn words_read(ring: u64, slots: Seq<usize>, words: Seq<u32>) -> Seq<Exchange> {
    Seq::new(
        words.len(),
        |i: int| port::l32(mac::desc_at(ring, slots[i] as int) as usize, words[i]),
    )
}

/// The places of descriptors that were looked at.
pub open spec fn slots_of(states: Seq<Receiving>, count: int) -> Seq<usize> {
    Seq::new(count as nat, |i: int| states[i].at)
}

/// How packets were received.
pub ghost struct PollRun {
    pub states: Seq<Receiving>,
    pub words: Seq<u32>,
    /// The descriptor behind the last packet.
    pub last: u32,
}

/// Whether packets were received so.
pub open spec fn polled(
    w: PollRun,
    ring: u64,
    first: Receiving,
    budget: RxBudget,
    capacity: int,
    trace: Seq<Exchange>,
    result: RxPollResult,
) -> bool {
    let end = w.states.last();
    let read = words_read(ring, slots_of(w.states, w.words.len() as int), w.words);
    &&& receive_path(w.states, w.words, budget, capacity)
    &&& w.states[0] == first
    &&& !receives(end)
    &&& result.packets == end.packets
    &&& result.bytes == end.bytes
    &&& !result.descriptor_starved
    &&& if end.flow == Flow::Fatal {
        &&& trace == read
        &&& result.fatal == Some(QueueFatalError::RingCorrupt)
        &&& !result.ring_empty
    } else {
        &&& result.fatal == None::<QueueFatalError>
        &&& if end.pending[end.at as int] is Some {
            &&& trace == read.push(
                port::l32(mac::desc_at(ring, end.at as int) as usize, w.last),
            )
            &&& result.ring_empty == (w.last / regs::RDES0_OWN == 1)
        } else {
            trace == read && result.ring_empty
        }
    }
}

/// Every packet that was received fits its memory.
pub proof fn received_frames_fit(
    states: Seq<Receiving>,
    words: Seq<u32>,
    budget: RxBudget,
    capacity: int,
    i: int,
    k: int,
)
    requires
        receive_path(states, words, budget, capacity),
        0 <= i < states.len(),
        states[0].out.len() <= k < states[i].out.len(),
    ensures
        0 < states[i].out[k].frame_len <= states[i].out[k].lease.len,
    decreases i,
{
    if i > 0 {
        let before = states[i - 1];
        assert(receive_at(states, words, budget, capacity, i - 1));
        if k < before.out.len() {
            received_frames_fit(states, words, budget, capacity, i - 1, k);
        }
    }
}

/// The bytes of a packet.
pub open spec fn joined_bytes(fragments: Seq<Vec<u8>>) -> Seq<u8>
    decreases fragments.len(),
{
    if fragments.len() == 0 {
        Seq::empty()
    } else {
        joined_bytes(fragments.drop_last()) + fragments.last()@
    }
}

/// How far packets were handed to the controller.
pub ghost struct Sending {
    pub pending: Seq<Option<u64>>,
    pub next: usize,
    pub batch: Seq<Option<TxPacket>>,
    pub trace: Seq<Exchange>,
    pub submitted: int,
    pub bytes: int,
    pub fatal: Option<QueueFatalError>,
    pub ended: bool,
}

/// The accesses by which a packet is handed to the controller; the last one gives
/// it away. The last descriptor still closes the ring.
pub open spec fn packet_posted(mac: GmacMac, slot: usize, bytes: Seq<u8>) -> Seq<Exchange> {
    let at = mac::desc_at(mac.tx_ring, slot as int);
    let buffer = mac::tx_slot_at(mac.tx_buffers, slot as int);
    port::bytes_stored(buffer, bytes) + seq![
        port::flushed(buffer as usize),
        port::s32((at + 8) as usize, mac::low32(buffer)),
        port::s32(
            (at + 4) as usize,
            (0xe000_0000 + bytes.len() % 0x800 + ring_end(slot)) as u32,
        ),
        port::fence(),
        port::s32(at as usize, regs::TDES0_OWN),
    ]
}

/// Whether a word of a descriptor closes the ring.
pub open spec fn closes_ring(word: u32) -> bool {
    word / regs::RDES1_END_RING % 2 == 1
}

/// Whatever is handed to the controller, in whichever slot, the last descriptor of a
/// ring closes it and no other does. A received packet is always announced.
pub proof fn rings_stay_closed(mac: GmacMac, slot: usize, lease: RxLease, bytes: Seq<u8>)
    requires
        slot < RING_SIZE,
    ensures
        ({
            let word = (lease.len % 0x800 + ring_end(slot)) as u32;
            &&& lease_posted(mac.rx_ring, slot, lease)[2] == port::s32(
                (mac::desc_at(mac.rx_ring, slot as int) + 4) as usize,
                word,
            )
            &&& closes_ring(word) == (slot == RING_SIZE - 1)
            &&& word % 0x800 == lease.len % 0x800
            &&& word < regs::RDES1_DISABLE_IC
        }),
        ({
            let word = (0xe000_0000 + bytes.len() % 0x800 + ring_end(slot)) as u32;
            &&& packet_posted(mac, slot, bytes)[bytes.len() as int + 2] == port::s32(
                (mac::desc_at(mac.tx_ring, slot as int) + 4) as usize,
                word,
            )
            &&& closes_ring(word) == (slot == RING_SIZE - 1)
            &&& word % 0x800 == bytes.len() % 0x800
        }),
{
}

/// One item of a batch. One that the controller cannot send as it is, or for which
/// there is no place, ends the call and stays in the batch.
pub open spec fn send_step(s: Sending, mac: GmacMac, i: int) -> Sending {
    match s.batch[i] {
        None => s,
        Some(packet) => {
            let bytes = joined_bytes(packet.fragments@);
            if !packet.checksum_ok || packet.total > TX_BUFFER_SIZE || s.pending[s.next as int]
                is Some {
                Sending { ended: true, ..s }
            } else if !packet.readable {
                Sending { ended: true, fatal: Some(QueueFatalError::DmaFault), ..s }
            } else if bytes.len() != packet.total {
                Sending { ended: true, fatal: Some(QueueFatalError::RingCorrupt), ..s }
            } else {
                Sending {
                    pending: s.pending.update(s.next as int, Some(packet.completion)),
                    next: next_slot(s.next),
                    batch: s.batch.update(i, None),
                    trace: s.trace + packet_posted(mac, s.next, bytes),
                    submitted: s.submitted + 1,
                    bytes: capped(s.bytes + packet.total),
                    ..s
                }
            }
        },
    }
}

/// The first items of a batch.
pub open spec fn send_upto(s: Sending, mac: GmacMac, n: int) -> Sending
    decreases n,
{
    if n <= 0 {
        s
    } else {
        let before = send_upto(s, mac, n - 1);
        if before.ended {
            before
        } else {
            send_step(before, mac, n - 1)
        }
    }
}

/// How many items of a batch one call looks at.
pub open spec fn send_limit(len: int) -> int {
    if len < MAX_BATCH {
        len
    } else {
        MAX_BATCH as int
    }
}

/// A packet that the controller has is never overwritten.
pub proof fn sending_keeps_pending(s: Sending, mac: GmacMac, n: int, slot: int)
    requires
        s.pending.len() == RING_SIZE,
        s.next < RING_SIZE,
        0 <= n <= s.batch.len(),
        0 <= slot < RING_SIZE,
        s.pending[slot] is Some,
    ensures
        send_upto(s, mac, n).pending[slot] == s.pending[slot],
        send_upto(s, mac, n).pending.len() == RING_SIZE,
        send_upto(s, mac, n).next < RING_SIZE,
    decreases n,
{
    if n > 0 {
        sending_keeps_pending(s, mac, n - 1, slot);
    }
}

/// How far sent packets were collected.
pub ghost struct Collecting {
    pub pending: Seq<Option<u64>>,
    pub at: usize,
    pub out: Seq<u64>,
    pub count: int,
    pub flow: Flow,
}

/// Whether the next descriptor is looked at.
pub open spec fn collects(s: Collecting) -> bool {
    s.flow == Flow::Running && s.count < MAX_BATCH && s.pending[s.at as int] is Some
}

/// One descriptor: one that the controller still has ends the call.
pub open spec fn collect_step(s: Collecting, word: u32, capacity: int) -> Collecting {
    let completion = s.pending[s.at as int]->0;
    let taken = Collecting { pending: s.pending.update(s.at as int, None), ..s };
    let passed = Collecting { at: next_slot(s.at), ..taken };
    if word / regs::TDES0_OWN == 1 {
        Collecting { flow: Flow::Stopped, ..taken }
    } else if s.out.len() >= capacity {
        Collecting { flow: Flow::Fatal, ..passed }
    } else {
        Collecting { out: s.out.push(completion), count: s.count + 1, ..passed }
    }
}

/// Whether a state follows from the one before it.
pub open spec fn collect_at(
    states: Seq<Collecting>,
    words: Seq<u32>,
    capacity: int,
    i: int,
) -> bool {
    collects(states[i]) && states[i + 1] == collect_step(states[i], words[i], capacity)
}

/// How sent packets were collected.
pub ghost struct CollectRun {
    pub states: Seq<Collecting>,
    pub words: Seq<u32>,
}

/// Whether sent packets were collected so.
pub open spec fn collected(
    w: CollectRun,
    ring: u64,
    first: Collecting,
    capacity: int,
    trace: Seq<Exchange>,
    result: TxReclaimResult,
) -> bool {
    let end = w.states.last();
    &&& w.states.len() == w.words.len() + 1
    &&& w.states[0] == first
    &&& forall|i: int|
        0 <= i < w.words.len() ==> #[trigger] collect_at(w.states, w.words, capacity, i)
    &&& !collects(end)
    &&& trace == words_read(
        ring,
        Seq::new(w.words.len(), |i: int| w.states[i].at),
        w.words,
    )
    &&& result.completions == end.count
    &&& result.descriptors == end.count
    &&& if end.flow == Flow::Fatal {
        result.fatal == Some(QueueFatalError::RingCorrupt) && !result.ring_empty
    } else {
        &&& result.fatal == None::<QueueFatalError>
        &&& result.ring_empty == (end.pending[end.at as int] is None)
    }
}

/// How work was looked for.
pub ghost struct WorkRun {
    pub link: LinkRun,
    pub link_trace: Seq<Exchange>,
    pub mode: Option<(u32, bool)>,
    pub control: u32,
    pub rx: u32,
    pub tx: u32,
}

/// Whether work was looked for so. The link is looked at only the first time.
pub open spec fn work_looked_for(
    w: WorkRun,
    mac: GmacMac,
    link_checked: bool,
    rx: Option<usize>,
    tx: Option<usize>,
    trace: Seq<Exchange>,
    work: bool,
) -> bool {
    let linked = if link_checked {
        Seq::empty()
    } else {
        w.link_trace + (if w.mode is Some {
            mac::link_set(w.control, (w.mode->0).0, (w.mode->0).1)
        } else {
            Seq::empty()
        })
    };
    let received = if rx is Some {
        seq![port::l32(mac::desc_at(mac.rx_ring, rx->0 as int) as usize, w.rx)]
    } else {
        Seq::empty()
    };
    let sent = if tx is Some {
        seq![port::l32(mac::desc_at(mac.tx_ring, tx->0 as int) as usize, w.tx)]
    } else {
        Seq::empty()
    };
    &&& !link_checked ==> phy::link_checked(w.link, w.link_trace, w.mode)
    &&& if rx is Some && w.rx / regs::RDES0_OWN == 0 {
        trace == linked + received && work
    } else {
        &&& trace == linked + received + sent
        &&& work == (tx is Some && w.tx / regs::TDES0_OWN == 0)
    }
}

fn load_word<F: FnMut(Access) -> u64>(port: &mut Port<F>, ring: u64, slot: usize) -> (word: u32)
    requires
        old(port).wf(),
        slot < RING_SIZE,
    ensures
        final(port).wf(),
        final(port).performs() == old(port).performs(),
        final(port).log() == old(port).log().push(
            port::l32(mac::desc_at(ring, slot as int) as usize, word),
        ),
{
    let at: u128 = ring as u128 + 16 * (slot as u128);
    port.load32(at as usize)
}

/// The bytes of a packet, if they are as many as it says.
fn linearize(packet: &TxPacket) -> (bytes: Option<Vec<u8>>)
    ensures
        match bytes {
            Some(bytes) => bytes@ == joined_bytes(packet.fragments@) && bytes@.len()
                == packet.total,
            None => joined_bytes(packet.fragments@).len() != packet.total,
        },
{
    let mut bytes: Vec<u8> = Vec::new();
    let mut i: usize = 0;
    assert(packet.fragments@.take(0) =~= Seq::<Vec<u8>>::empty());
    while i < packet.fragments.len()
        invariant
            i <= packet.fragments@.len(),
            bytes@ == joined_bytes(packet.fragments@.take(i as int)),
            bytes@.len() <= packet.total,
        decreases packet.fragments@.len() - i,
    {
        let fragment = &packet.fragments[i];
        proof {
            let upto = packet.fragments@.take(i + 1);
            assert(upto.drop_last() =~= packet.fragments@.take(i as int));
            assert(upto.last() == packet.fragments@[i as int]);
        }
        if fragment.len() > packet.total - bytes.len() {
            proof {
                lemma_prefix_shorter(packet.fragments@, i + 1);
            }
            return None;
        }
        let ghost before = bytes@;
        let mut k: usize = 0;
        assert(before + fragment@.take(0) =~= before);
        while k < fragment.len()
            invariant
                k <= fragment@.len(),
                bytes@ == before + fragment@.take(k as int),
            decreases fragment@.len() - k,
        {
            bytes.push(fragment[k]);
            assert(bytes@ =~= before + fragment@.take(k + 1));
            k += 1;
        }
        assert(fragment@.take(k as int) =~= fragment@);
        i += 1;
    }
    assert(packet.fragments@.take(i as int) =~= packet.fragments@);
    if bytes.len() == packet.total {
        Some(bytes)
    } else {
        None
    }
}

proof fn lemma_prefix_shorter(fragments: Seq<Vec<u8>>, n: int)
    requires
        0 <= n <= fragments.len(),
    ensures
        joined_bytes(fragments.take(n)).len() <= joined_bytes(fragments).len(),
    decreases fragments.len() - n,
{
    if n < fragments.len() {
        let longer = fragments.take(n + 1);
        assert(longer.drop_last() =~= fragments.take(n));
        lemma_prefix_shorter(fragments, n + 1);
    } else {
        assert(fragments.take(n) =~= fragments);
    }
}

impl GmacQueue {
    pub open spec fn wf(&self) -> bool {
        &&& self.rx_pending@.len() == RING_SIZE
        &&& self.tx_pending@.len() == RING_SIZE
        &&& self.rx_refill_index < RING_SIZE
        &&& self.rx_poll_index < RING_SIZE
        &&& self.tx_submit_index < RING_SIZE
        &&& self.tx_reclaim_index < RING_SIZE
    }

    /// A queue of which the controller has nothing.
    pub fn new(mac: GmacMac) -> (queue: Self)
        ensures
            queue.wf(),
            queue.mac == mac,
            !queue.quiesced,
            !queue.link_checked,
            none_left(queue.rx_pending@),
            none_left(queue.tx_pending@),
            queue.rx_refill_index == 0,
            queue.rx_poll_index == 0,
            queue.tx_submit_index == 0,
            queue.tx_reclaim_index == 0,
    {
        let mut rx_pending: Vec<Option<RxLease>> = Vec::new();
        let mut tx_pending: Vec<Option<u64>> = Vec::new();
        let mut i: usize = 0;
        while i < RING_SIZE
            invariant
                i <= RING_SIZE,
                rx_pending@.len() == i,
                tx_pending@.len() == i,
                none_left(rx_pending@),
                none_left(tx_pending@),
            decreases RING_SIZE - i,
        {
            rx_pending.push(None);
            tx_pending.push(None);
            i += 1;
        }
        GmacQueue {
            mac,
            quiesced: false,
            rx_pending,
            tx_pending,
            rx_refill_index: 0,
            rx_poll_index: 0,
            tx_submit_index: 0,
            tx_reclaim_index: 0,
            link_checked: false,
        }
    }

    pub fn caps(&self) -> (caps: NetQueueCaps)
        ensures
            caps == (NetQueueCaps {
                queue_size: 64,
                scatter_gather: false,
                max_tx_descriptors: 1,
                max_rx_batch: 32,
                max_tx_batch: 32,
                tx_checksum: false,
                udp_segmentation: false,
                max_udp_segments: 0,
            }),
    {
        NetQueueCaps {
            queue_size: 64,
            scatter_gather: false,
            max_tx_descriptors: 1,
            max_rx_batch: 32,
            max_tx_batch: 32,
            tx_checksum: false,
            udp_segmentation: false,
            max_udp_segments: 0,
        }
    }

    /// The state before memory is handed over.
    pub open spec fn refilling(&self, batch: Seq<Option<RxLease>>) -> Refill {
        Refill {
            pending: self.rx_pending@,
            next: self.rx_refill_index,
            batch,
            trace: Seq::empty(),
            posted: 0,
            fatal: None,
            ended: false,
        }
    }

    /// Hands memory to the controller.
    pub fn refill_rx_batch<F: FnMut(Access) -> u64>(
        &mut self,
        port: &mut Port<F>,
        irq: &mut GmacQueueIrq,
        batch: &mut Vec<Option<RxLease>>,
    ) -> (result: RxRefillResult)
        requires
            old(self).wf(),
            old(port).wf(),
        ensures
            final(self).wf(),
            final(port).wf(),
            final(port).performs() == old(port).performs(),
            *final(self) == (GmacQueue {
                rx_pending: final(self).rx_pending,
                rx_refill_index: final(self).rx_refill_index,
                ..*old(self)
            }),
            ({
                let end = refill_upto(
                    old(self).refilling(old(batch)@),
                    old(self).mac.rx_ring,
                    refill_limit(old(batch)@.len() as int),
                );
                let kicks = end.fatal is None && end.posted != 0 && old(irq).rx_need_kick;
                if old(self).quiesced {
                    &&& final(port).log() == old(port).log()
                    &&& *final(irq) == *old(irq)
                    &&& final(batch)@ == old(batch)@
                    &&& *final(self) == *old(self)
                    &&& result == (RxRefillResult {
                        posted: 0,
                        descriptor_starved: false,
                        fatal: Some(QueueFatalError::DeviceGone),
                    })
                } else {
                    &&& final(port).log() == old(port).log() + end.trace + (if kicks {
                        seq![port::w32(regs::DMA_RCV_POLL_DEMAND, 0)]
                    } else {
                        Seq::empty()
                    })
                    &&& *final(irq) == (if kicks {
                        GmacQueueIrq { rx_need_kick: false, ..*old(irq) }
                    } else {
                        *old(irq)
                    })
                    &&& final(batch)@ == end.batch
                    &&& final(self).rx_pending@ == end.pending
                    &&& final(self).rx_refill_index == end.next
                    &&& result.posted == end.posted
                    &&& result.fatal == end.fatal
                    &&& result.descriptor_starved == (end.fatal is None && !none_left(end.batch)
                        && all_taken(end.pending))
                }
            }),
    {
        if self.quiesced {
            return RxRefillResult {
                posted: 0,
                descriptor_starved: false,
                fatal: Some(QueueFatalError::DeviceGone),
            };
        }
        let ghost start = port.log();
        let ghost first = self.refilling(batch@);
        let ghost ring = self.mac.rx_ring;
        let limit: usize = if batch.len() < MAX_RX_REFILL_PER_CALL {
            batch.len()
        } else {
            MAX_RX_REFILL_PER_CALL
        };
        let mut posted: u16 = 0;
        let mut ended: bool = false;
        let mut fatal: Option<QueueFatalError> = None;
        let mut i: usize = 0;
        assert(start + first.trace =~= start);
        while i < limit
            invariant
                i <= limit,
                limit <= MAX_RX_REFILL_PER_CALL,
                limit <= batch@.len(),
                batch@.len() == first.batch.len(),
                self.wf(),
                port.wf(),
                port.performs() == old(port).performs(),
                posted <= i,
                ring == self.mac.rx_ring,
                *self == (GmacQueue {
                    rx_pending: self.rx_pending,
                    rx_refill_index: self.rx_refill_index,
                    ..*old(self)
                }),
                ({
                    let s = refill_upto(first, ring, i as int);
                    &&& s.pending == self.rx_pending@
                    &&& s.next == self.rx_refill_index
                    &&& s.batch == batch@
                    &&& port.log() == start + s.trace
                    &&& s.posted == posted
                    &&& s.fatal == fatal
                    &&& s.ended == ended
                }),
            decreases limit - i,
        {
            let ghost s = refill_upto(first, ring, i as int);
            assert(refill_upto(first, ring, i + 1) == if s.ended {
                s
            } else {
                refill_step(s, ring, i as int)
            });
            i += 1;
            if ended {
                continue ;
            }
            let slot: usize = self.rx_refill_index;
            if self.rx_pending[slot].is_some() {
                ended = true;
                continue ;
            }
            let lease = match batch[i - 1] {
                Some(lease) => lease,
                None => {
                    continue ;
                },
            };
            if lease.len > RX_BUFFER_SIZE {
                continue ;
            }
            if !lease.syncs {
                ended = true;
                fatal = Some(QueueFatalError::DmaFault);
                continue ;
            }
            port.flush(lease.vaddr);
            let dma: u64 = match lease.dma {
                Some(dma) => dma,
                None => {
                    ended = true;
                    assert(port.log() =~= start + s.trace.push(port::flushed(lease.vaddr)));
                    continue ;
                },
            };
            let at: u128 = self.mac.rx_ring as u128 + 16 * (slot as u128);
            port.store32((at + 8) as usize, (dma % 0x1_0000_0000) as u32);
            port.store32((at + 4) as usize, (lease.len % 0x800) as u32 + ring_mark(slot));
            port.barrier();
            port.store32(at as usize, regs::RDES0_OWN);
            self.rx_pending.set(slot, Some(lease));
            batch.set(i - 1, None);
            posted += 1;
            self.rx_refill_index = after_slot(slot);
            assert(port.log() =~= start + (s.trace + lease_posted(ring, slot, lease)));
        }
        let ghost end = refill_upto(first, ring, limit as int);
        if fatal.is_some() {
            assert(port.log() =~= start + end.trace + Seq::<Exchange>::empty());
            return RxRefillResult { posted, descriptor_starved: false, fatal };
        }
        if posted != 0 {
            if irq.take_rx_need_kick() {
                port.write32(regs::DMA_RCV_POLL_DEMAND, 0);
            }
        }
        proof {
            let kicks = posted != 0 && old(irq).rx_need_kick;
            assert(port.log() =~= start + end.trace + (if kicks {
                seq![port::w32(regs::DMA_RCV_POLL_DEMAND, 0)]
            } else {
                Seq::empty()
            }));
        }
        let mut empty: bool = true;
        let mut k: usize = 0;
        while k < batch.len()
            invariant
                k <= batch@.len(),
                empty == forall|j: int| 0 <= j < k ==> (#[trigger] batch@[j]) is None,
            decreases batch@.len() - k,
        {
            if batch[k].is_some() {
                empty = false;
            }
            k += 1;
        }
        let mut full: bool = true;
        let mut m: usize = 0;
        while m < RING_SIZE
            invariant
                m <= RING_SIZE,
                self.rx_pending@.len() == RING_SIZE,
                full == forall|j: int| 0 <= j < m ==> (#[trigger] self.rx_pending@[j]) is Some,
            decreases RING_SIZE - m,
        {
            if self.rx_pending[m].is_none() {
                full = false;
            }
            m += 1;
        }
        RxRefillResult { posted, descriptor_starved: !empty && full, fatal: None }
    }

    /// The state before packets are received.
    pub open spec fn receiving(&self, out: Seq<RxPacket>) -> Receiving {
        Receiving {
            pending: self.rx_pending@,
            at: self.rx_poll_index,
            out,
            packets: 0,
            bytes: 0,
            flow: Flow::Running,
        }
    }

    /// Receives packets. `out` takes at most `capacity` of them in all.
    pub fn poll_rx_batch<F: FnMut(Access) -> u64>(
        &mut self,
        port: &mut Port<F>,
        budget: RxBudget,
        out: &mut Vec<RxPacket>,
        capacity: usize,
    ) -> (result: RxPollResult)
        requires
            old(self).wf(),
            old(port).wf(),
        ensures
            final(self).wf(),
            final(port).wf(),
            final(port).performs() == old(port).performs(),
            *final(self) == (GmacQueue {
                rx_pending: final(self).rx_pending,
                rx_poll_index: final(self).rx_poll_index,
                ..*old(self)
            }),
            port::grown(final(port).log(), old(port).log()),
            old(self).quiesced ==> {
                &&& final(port).log() == old(port).log()
                &&& *final(self) == *old(self)
                &&& final(out)@ == old(out)@
                &&& result == (RxPollResult {
                    packets: 0,
                    bytes: 0,
                    ring_empty: true,
                    descriptor_starved: false,
                    fatal: Some(QueueFatalError::DeviceGone),
                })
            },
            !old(self).quiesced ==> exists|w: PollRun|
                w.states.last().pending == final(self).rx_pending@ && w.states.last().at == final(self).rx_poll_index && w.states.last().out == final(out)@ && #[trigger] polled(
                    w,
                    old(self).mac.rx_ring,
                    old(self).receiving(old(out)@),
                    budget,
                    capacity as int,
                    port::since(final(port).log(), old(port).log()),
                    result,
                ),
    {
        let ghost start = port.log();
        if self.quiesced {
            proof {
                assert(start + Seq::<Exchange>::empty() =~= start);
                port::lemma_grown(start, Seq::empty());
            }
            return RxPollResult {
                packets: 0,
                bytes: 0,
                ring_empty: true,
                descriptor_starved: false,
                fatal: Some(QueueFatalError::DeviceGone),
            };
        }
        let ghost first = self.receiving(out@);
        let ghost ring = self.mac.rx_ring;
        let ghost mut states: Seq<Receiving> = seq![first];
        let ghost mut words: Seq<u32> = Seq::empty();
        let mut packets: u16 = 0;
        let mut bytes: u32 = 0;
        let mut flow: Flow = Flow::Running;
        assert(port.log() =~= start + words_read(
            ring,
            slots_of(states, words.len() as int),
            words,
        ));
        while flow == Flow::Running && (packets as usize) < MAX_BATCH
            && self.rx_pending[self.rx_poll_index].is_some()
            invariant
                self.wf(),
                port.wf(),
                port.performs() == old(port).performs(),
                ring == self.mac.rx_ring,
                *self == (GmacQueue {
                    rx_pending: self.rx_pending,
                    rx_poll_index: self.rx_poll_index,
                    ..*old(self)
                }),
                packets <= MAX_BATCH,
                receive_path(states, words, budget, capacity as int),
                states[0] == first,
                states.last() == (Receiving {
                    pending: self.rx_pending@,
                    at: self.rx_poll_index,
                    out: out@,
                    packets: packets as int,
                    bytes: bytes as int,
                    flow,
                }),
                port.log() == start + words_read(
                    ring,
                    slots_of(states, words.len() as int),
                    words,
                ),
            decreases Self::filled(self.rx_pending@, RING_SIZE as int),
        {
            let ghost before = states;
            let ghost earlier = words;
            let ghost s = states.last();
            let slot: usize = self.rx_poll_index;
            let lease: RxLease = match self.rx_pending[slot] {
                Some(lease) => lease,
                None => RxLease { vaddr: 0, len: 0, syncs: false, dma: None },
            };
            proof {
                Self::lemma_filled(self.rx_pending@, RING_SIZE as int, slot as int);
            }
            self.rx_pending.set(slot, None);
            let word: u32 = load_word(port, self.mac.rx_ring, slot);
            if word / regs::RDES0_OWN == 1 {
                flow = Flow::Stopped;
            } else {
                self.rx_poll_index = after_slot(slot);
                let frame_len: u32 = word / 0x10000 % 0x4000;
                if word / regs::RDES0_ERROR_SUMMARY % 2 == 1 || word
                    / regs::RDES0_LAST_DESCRIPTOR % 2 == 0 || frame_len == 0 || frame_len as usize
                    > lease.len {
                } else if out.len() >= capacity {
                    flow = Flow::Fatal;
                } else {
                    out.push(RxPacket { lease, frame_len });
                    packets += 1;
                    bytes = bytes.saturating_add(frame_len);
                    if packets >= budget.packets || bytes >= budget.bytes {
                        flow = Flow::Stopped;
                    }
                }
            }
            proof {
                let n = words.len() as int;
                let step = receive_step(s, word, budget, capacity as int);
                states = states.push(step);
                words = words.push(word);
                assert forall|i: int| 0 <= i < words.len() implies #[trigger] receive_at(
                    states,
                    words,
                    budget,
                    capacity as int,
                    i,
                ) by {
                    if i < n {
                        assert(receive_at(before, earlier, budget, capacity as int, i));
                        assert(words[i] == earlier[i]);
                        assert(states[i] == before[i] && states[i + 1] == before[i + 1]);
                    } else {
                        assert(states[i] == s);
                    }
                }
                assert(port.log() =~= start + words_read(
                    ring,
                    slots_of(states, words.len() as int),
                    words,
                ));
            }
        }
        let ghost read = words_read(ring, slots_of(states, words.len() as int), words);
        let ghost mut w = PollRun { states, words, last: 0 };
        proof {
            port::lemma_grown(start, read);
        }
        if flow == Flow::Fatal {
            let result = RxPollResult {
                packets,
                bytes,
                ring_empty: false,
                descriptor_starved: false,
                fatal: Some(QueueFatalError::RingCorrupt),
            };
            assert(polled(w, ring, first, budget, capacity as int, read, result));
            return result;
        }
        let mut ring_empty: bool = true;
        if self.rx_pending[self.rx_poll_index].is_some() {
            let word: u32 = load_word(port, self.mac.rx_ring, self.rx_poll_index);
            ring_empty = word / regs::RDES0_OWN == 1;
            proof {
                w = PollRun { last: word, ..w };
                let trace = read.push(
                    port::l32(
                        mac::desc_at(ring, self.rx_poll_index as int) as usize,
                        word,
                    ),
                );
                assert(port.log() =~= start + trace);
                port::lemma_grown(start, trace);
            }
        }
        let result = RxPollResult {
            packets,
            bytes,
            ring_empty,
            descriptor_starved: false,
            fatal: None,
        };
        assert(polled(
            w,
            ring,
            first,
            budget,
            capacity as int,
            port::since(port.log(), start),
            result,
        ));
        result
    }

    /// How many of the first places are taken.
    pub open spec fn filled<T>(slots: Seq<Option<T>>, n: int) -> int
        decreases n,
    {
        if n <= 0 {
            0
        } else {
            Self::filled(slots, n - 1) + if slots[n - 1] is Some {
                1int
            } else {
                0
            }
        }
    }

    proof fn lemma_filled<T>(slots: Seq<Option<T>>, n: int, slot: int)
        requires
            n <= slots.len(),
            0 <= slot < slots.len(),
            slots[slot] is Some,
        ensures
            Self::filled(slots, n) >= 0,
            Self::filled(slots.update(slot, None), n) == Self::filled(slots, n) - (if slot < n {
                1int
            } else {
                0
            }),
            Self::filled(slots.update(slot, None), n) >= 0,
        decreases n,
    {
        if n > 0 {
            Self::lemma_filled(slots, n - 1, slot);
        }
    }

    /// The state before packets are sent.
    pub open spec fn sending(&self, batch: Seq<Option<TxPacket>>) -> Sending {
        Sending {
            pending: self.tx_pending@,
            next: self.tx_submit_index,
            batch,
            trace: Seq::empty(),
            submitted: 0,
            bytes: 0,
            fatal: None,
            ended: false,
        }
    }

    /// Hands packets to the controller.
    pub fn submit_tx_batch<F: FnMut(Access) -> u64>(
        &mut self,
        port: &mut Port<F>,
        batch: &mut Vec<Option<TxPacket>>,
    ) -> (result: TxSubmitResult)
        requires
            old(self).wf(),
            old(port).wf(),
        ensures
            final(self).wf(),
            final(port).wf(),
            final(port).performs() == old(port).performs(),
            *final(self) == (GmacQueue {
                tx_pending: final(self).tx_pending,
                tx_submit_index: final(self).tx_submit_index,
                ..*old(self)
            }),
            ({
                let end = send_upto(
                    old(self).sending(old(batch)@),
                    old(self).mac,
                    send_limit(old(batch)@.len() as int),
                );
                if old(self).quiesced {
                    &&& final(port).log() == old(port).log()
                    &&& final(batch)@ == old(batch)@
                    &&& *final(self) == *old(self)
                    &&& result == (TxSubmitResult {
                        packets: 0,
                        descriptors: 0,
                        bytes: 0,
                        queue_full: false,
                        fatal: Some(QueueFatalError::DeviceGone),
                    })
                } else {
                    &&& final(port).log() == old(port).log() + end.trace + (if end.fatal is None
                        && end.submitted != 0 {
                        seq![port::w32(regs::DMA_XMT_POLL_DEMAND, 0)]
                    } else {
                        Seq::empty()
                    })
                    &&& final(batch)@ == end.batch
                    &&& final(self).tx_pending@ == end.pending
                    &&& final(self).tx_submit_index == end.next
                    &&& result.packets == end.submitted
                    &&& result.bytes == end.bytes
                    &&& result.fatal == end.fatal
                    &&& result.descriptors == (if end.fatal is None {
                        end.submitted
                    } else {
                        0
                    })
                    &&& result.queue_full == (end.fatal is None && end.submitted != old(batch)@.len())
                }
            }),
    {
        if self.quiesced {
            return TxSubmitResult {
                packets: 0,
                descriptors: 0,
                bytes: 0,
                queue_full: false,
                fatal: Some(QueueFatalError::DeviceGone),
            };
        }
        let ghost start = port.log();
        let ghost first = self.sending(batch@);
        let ghost mac = self.mac;
        let original_len: usize = batch.len();
        let limit: usize = if original_len < MAX_BATCH {
            original_len
        } else {
            MAX_BATCH
        };
        let mut submitted: u16 = 0;
        let mut byte_total: u32 = 0;
        let mut ended: bool = false;
        let mut fatal: Option<QueueFatalError> = None;
        let mut i: usize = 0;
        assert(start + first.trace =~= start);
        while i < limit
            invariant
                i <= limit,
                limit <= MAX_BATCH,
                limit <= batch@.len(),
                batch@.len() == first.batch.len(),
                self.wf(),
                port.wf(),
                port.performs() == old(port).performs(),
                submitted <= i,
                mac == self.mac,
                *self == (GmacQueue {
                    tx_pending: self.tx_pending,
                    tx_submit_index: self.tx_submit_index,
                    ..*old(self)
                }),
                ({
                    let s = send_upto(first, mac, i as int);
                    &&& s.pending == self.tx_pending@
                    &&& s.next == self.tx_submit_index
                    &&& s.batch == batch@
                    &&& port.log() == start + s.trace
                    &&& s.submitted == submitted
                    &&& s.bytes == byte_total
                    &&& s.fatal == fatal
                    &&& s.ended == ended
                }),
            decreases limit - i,
        {
            let ghost s = send_upto(first, mac, i as int);
            assert(send_upto(first, mac, i + 1) == if s.ended {
                s
            } else {
                send_step(s, mac, i as int)
            });
            i += 1;
            if ended {
                continue ;
            }
            let slot: usize = self.tx_submit_index;
            let busy: bool = self.tx_pending[slot].is_some();
            let bytes: Vec<u8>;
            let completion: u64;
            match &batch[i - 1] {
                None => {
                    continue ;
                },
                Some(packet) => {
                    if !packet.checksum_ok || packet.total > TX_BUFFER_SIZE || busy {
                        ended = true;
                        continue ;
                    }
                    if !packet.readable {
                        ended = true;
                        fatal = Some(QueueFatalError::DmaFault);
                        continue ;
                    }
                    match linearize(packet) {
                        None => {
                            ended = true;
                            fatal = Some(QueueFatalError::RingCorrupt);
                            continue ;
                        },
                        Some(joined) => {
                            bytes = joined;
                        },
                    }
                    completion = packet.completion;
                },
            }
            let total: usize = bytes.len();
            let ghost sent = bytes@;
            self.post_packet(port, slot, &bytes);
            self.tx_pending.set(slot, Some(completion));
            batch.set(i - 1, None);
            submitted += 1;
            byte_total = byte_total.saturating_add(total as u32);
            self.tx_submit_index = after_slot(slot);
            assert(port.log() =~= start + (s.trace + packet_posted(mac, slot, sent)));
        }
        let ghost end = send_upto(first, mac, limit as int);
        if fatal.is_some() {
            assert(port.log() =~= start + end.trace + Seq::<Exchange>::empty());
            return TxSubmitResult {
                packets: submitted,
                descriptors: 0,
                bytes: byte_total,
                queue_full: false,
                fatal,
            };
        }
        if submitted != 0 {
            port.write32(regs::DMA_XMT_POLL_DEMAND, 0);
        }
        proof {
            assert(port.log() =~= start + end.trace + (if submitted != 0 {
                seq![port::w32(regs::DMA_XMT_POLL_DEMAND, 0)]
            } else {
                Seq::empty()
            }));
        }
        TxSubmitResult {
            packets: submitted,
            descriptors: submitted,
            bytes: byte_total,
            queue_full: submitted as usize != original_len,
            fatal: None,
        }
    }

    /// Hands one packet to the controller.
    fn post_packet<F: FnMut(Access) -> u64>(
        &self,
        port: &mut Port<F>,
        slot: usize,
        bytes: &Vec<u8>,
    )
        requires
            old(port).wf(),
            slot < RING_SIZE,
        ensures
            final(port).wf(),
            final(port).performs() == old(port).performs(),
            final(port).log() == old(port).log() + packet_posted(self.mac, slot, bytes@),
    {
        let ghost start = port.log();
        let ghost address = mac::tx_slot_at(self.mac.tx_buffers, slot as int);
        let buffer: u128 = self.mac.tx_buffers as u128 + 1536 * (slot as u128);
        let mut i: usize = 0;
        assert(start + port::bytes_stored(address, bytes@).take(0) =~= start);
        while i < bytes.len()
            invariant
                i <= bytes@.len(),
                port.wf(),
                port.performs() == old(port).performs(),
                buffer == address,
                buffer <= u64::MAX + 1536 * RING_SIZE,
                port.log() == start + port::bytes_stored(address, bytes@).take(i as int),
            decreases bytes@.len() - i,
        {
            port.store8((buffer + i as u128) as usize, bytes[i]);
            assert(port.log() =~= start + port::bytes_stored(address, bytes@).take(i + 1));
            i += 1;
        }
        assert(port::bytes_stored(address, bytes@).take(i as int) =~= port::bytes_stored(
            address,
            bytes@,
        ));
        let at: u128 = self.mac.tx_ring as u128 + 16 * (slot as u128);
        port.flush(buffer as usize);
        port.store32((at + 8) as usize, (buffer % 0x1_0000_0000) as u32);
        port.store32(
            (at + 4) as usize,
            0xe000_0000 + (bytes.len() % 0x800) as u32 + ring_mark(slot),
        );
        port.barrier();
        port.store32(at as usize, regs::TDES0_OWN);
        assert(port.log() =~= start + packet_posted(self.mac, slot, bytes@));
    }

    /// The state before sent packets are collected.
    pub open spec fn collecting(&self, out: Seq<u64>) -> Collecting {
        Collecting {
            pending: self.tx_pending@,
            at: self.tx_reclaim_index,
            out,
            count: 0,
            flow: Flow::Running,
        }
    }

    /// Collects packets that were sent. `out` takes at most `capacity` of them in all.
    pub fn reclaim_tx_batch<F: FnMut(Access) -> u64>(
        &mut self,
        port: &mut Port<F>,
        out: &mut Vec<u64>,
        capacity: usize,
    ) -> (result: TxReclaimResult)
        requires
            old(self).wf(),
            old(port).wf(),
        ensures
            final(self).wf(),
            final(port).wf(),
            final(port).performs() == old(port).performs(),
            *final(self) == (GmacQueue {
                tx_pending: final(self).tx_pending,
                tx_reclaim_index: final(self).tx_reclaim_index,
                ..*old(self)
            }),
            port::grown(final(port).log(), old(port).log()),
            exists|w: CollectRun|
                w.states.last().pending == final(self).tx_pending@ && w.states.last().at == final(self).tx_reclaim_index && w.states.last().out == final(out)@ && #[trigger] collected(
                    w,
                    old(self).mac.tx_ring,
                    old(self).collecting(old(out)@),
                    capacity as int,
                    port::since(final(port).log(), old(port).log()),
                    result,
                ),
    {
        let ghost start = port.log();
        let ghost first = self.collecting(out@);
        let ghost ring = self.mac.tx_ring;
        let ghost mut states: Seq<Collecting> = seq![first];
        let ghost mut words: Seq<u32> = Seq::empty();
        let mut completions: u16 = 0;
        let mut flow: Flow = Flow::Running;
        assert(port.log() =~= start + words_read(
            ring,
            Seq::new(words.len(), |i: int| states[i].at),
            words,
        ));
        while flow == Flow::Running && (completions as usize) < MAX_BATCH
            && self.tx_pending[self.tx_reclaim_index].is_some()
            invariant
                self.wf(),
                port.wf(),
                port.performs() == old(port).performs(),
                ring == self.mac.tx_ring,
                *self == (GmacQueue {
                    tx_pending: self.tx_pending,
                    tx_reclaim_index: self.tx_reclaim_index,
                    ..*old(self)
                }),
                completions <= MAX_BATCH,
                states.len() == words.len() + 1,
                states[0] == first,
                forall|i: int|
                    0 <= i < words.len() ==> #[trigger] collect_at(
                        states,
                        words,
                        capacity as int,
                        i,
                    ),
                states.last() == (Collecting {
                    pending: self.tx_pending@,
                    at: self.tx_reclaim_index,
                    out: out@,
                    count: completions as int,
                    flow,
                }),
                port.log() == start + words_read(
                    ring,
                    Seq::new(words.len(), |i: int| states[i].at),
                    words,
                ),
            decreases Self::filled(self.tx_pending@, RING_SIZE as int),
        {
            let ghost before = states;
            let ghost earlier = words;
            let ghost s = states.last();
            let slot: usize = self.tx_reclaim_index;
            let completion: u64 = match self.tx_pending[slot] {
                Some(completion) => completion,
                None => 0,
            };
            proof {
                Self::lemma_filled(self.tx_pending@, RING_SIZE as int, slot as int);
            }
            self.tx_pending.set(slot, None);
            let word: u32 = load_word(port, self.mac.tx_ring, slot);
            if word / regs::TDES0_OWN == 1 {
                flow = Flow::Stopped;
            } else {
                self.tx_reclaim_index = after_slot(slot);
                if out.len() >= capacity {
                    flow = Flow::Fatal;
                } else {
                    out.push(completion);
                    completions += 1;
                }
            }
            proof {
                let n = words.len() as int;
                let step = collect_step(s, word, capacity as int);
                states = states.push(step);
                words = words.push(word);
                assert forall|i: int| 0 <= i < words.len() implies #[trigger] collect_at(
                    states,
                    words,
                    capacity as int,
                    i,
                ) by {
                    if i < n {
                        assert(collect_at(before, earlier, capacity as int, i));
                        assert(words[i] == earlier[i]);
                        assert(states[i] == before[i] && states[i + 1] == before[i + 1]);
                    } else {
                        assert(states[i] == s);
                    }
                }
                assert(port.log() =~= start + words_read(
                    ring,
                    Seq::new(words.len(), |i: int| states[i].at),
                    words,
                ));
            }
        }
        let ghost read = words_read(ring, Seq::new(words.len(), |i: int| states[i].at), words);
        let ghost w = CollectRun { states, words };
        proof {
            port::lemma_grown(start, read);
        }
        let corrupt: bool = flow == Flow::Fatal;
        let result = TxReclaimResult {
            completions,
            descriptors: completions,
            ring_empty: !corrupt && self.tx_pending[self.tx_reclaim_index].is_none(),
            fatal: if corrupt {
                Some(QueueFatalError::RingCorrupt)
            } else {
                None
            },
        };
        assert(collected(w, ring, first, capacity as int, read, result));
        result
    }

    /// Whether a packet was received or sent that was not collected yet.
    pub fn has_pending_work<F: FnMut(Access) -> u64>(&mut self, port: &mut Port<F>) -> (work: bool)
        requires
            old(self).wf(),
            old(port).wf(),
        ensures
            final(self).wf(),
            final(port).wf(),
            final(port).performs() == old(port).performs(),
            port::grown(final(port).log(), old(port).log()),
            *final(self) == (GmacQueue {
                link_checked: old(self).link_checked || !old(self).quiesced,
                ..*old(self)
            }),
            old(self).quiesced ==> !work && final(port).log() == old(port).log(),
            !old(self).quiesced ==> exists|w: WorkRun| #[trigger]
                work_looked_for(
                    w,
                    old(self).mac,
                    old(self).link_checked,
                    place_of(old(self).rx_pending@, old(self).rx_poll_index),
                    place_of(old(self).tx_pending@, old(self).tx_reclaim_index),
                    port::since(final(port).log(), old(port).log()),
                    work,
                ),
    {
        let ghost start = port.log();
        if self.quiesced {
            proof {
                assert(start + Seq::<Exchange>::empty() =~= start);
                port::lemma_grown(start, Seq::empty());
            }
            return false;
        }
        let ghost mut w: WorkRun = arbitrary();
        let ghost checked = self.link_checked;
        let ghost rx = place_of(self.rx_pending@, self.rx_poll_index);
        let ghost tx = place_of(self.tx_pending@, self.tx_reclaim_index);
        let ghost mut trace: Seq<Exchange> = Seq::empty();
        assert(port.log() =~= start + trace);
        if !self.link_checked {
            self.link_checked = true;
            let mode = check_link(port);
            proof {
                let link_trace = port::since(port.log(), start);
                let link = choose|link: LinkRun| #[trigger]
                    phy::link_checked(link, link_trace, mode);
                w = WorkRun { link, link_trace, mode, ..w };
                trace = link_trace + Seq::empty();
                assert(port.log() =~= start + trace);
            }
            if let Some((speed, full_duplex)) = mode {
                let ghost middle = port.log();
                GmacMac::set_link(port, speed, full_duplex);
                proof {
                    let control = choose|control: u32|
                        port.log() == middle + #[trigger] mac::link_set(
                            control,
                            speed,
                            full_duplex,
                        );
                    w = WorkRun { control, ..w };
                    trace = w.link_trace + mac::link_set(control, speed, full_duplex);
                    assert(port.log() =~= start + trace);
                }
            }
        }
        let ghost linked = trace;
        if self.rx_pending[self.rx_poll_index].is_some() {
            let word: u32 = load_word(port, self.mac.rx_ring, self.rx_poll_index);
            proof {
                w = WorkRun { rx: word, ..w };
                trace = linked + seq![
                    port::l32(
                        mac::desc_at(self.mac.rx_ring, self.rx_poll_index as int) as usize,
                        word,
                    ),
                ];
                assert(port.log() =~= start + trace);
                port::lemma_grown(start, trace);
            }
            if word / regs::RDES0_OWN == 0 {
                assert(work_looked_for(w, self.mac, checked, rx, tx, trace, true));
                return true;
            }
        } else {
            proof {
                trace = linked + Seq::empty();
                assert(port.log() =~= start + trace);
            }
        }
        let ghost received = trace;
        let mut work: bool = false;
        if self.tx_pending[self.tx_reclaim_index].is_some() {
            let word: u32 = load_word(port, self.mac.tx_ring, self.tx_reclaim_index);
            work = word / regs::TDES0_OWN == 0;
            proof {
                w = WorkRun { tx: word, ..w };
                trace = received + seq![
                    port::l32(
                        mac::desc_at(self.mac.tx_ring, self.tx_reclaim_index as int) as usize,
                        word,
                    ),
                ];
                assert(port.log() =~= start + trace);
            }
        } else {
            proof {
                trace = received + Seq::empty();
                assert(port.log() =~= start + trace);
            }
        }
        proof {
            port::lemma_grown(start, trace);
            assert(work_looked_for(w, self.mac, checked, rx, tx, trace, work));
        }
        work
    }

    /// Stops the queue for good; nothing is pending any more.
    pub fn quiesce<F: FnMut(Access) -> u64>(&mut self, port: &mut Port<F>)
        requires
            old(self).wf(),
            old(port).wf(),
        ensures
            final(self).wf(),
            final(port).wf(),
            final(port).performs() == old(port).performs(),
            *final(self) == (GmacQueue {
                quiesced: true,
                rx_pending: final(self).rx_pending,
                tx_pending: final(self).tx_pending,
                ..*old(self)
            }),
            none_left(final(self).rx_pending@),
            none_left(final(self).tx_pending@),
            exists|control: u32|
                final(port).log() == old(port).log() + seq![
                    #[trigger] port::r32(regs::DMA_CONTROL, control),
                    port::w32(regs::DMA_CONTROL, control & 0xffff_dffd),
                    port::w32(regs::DMA_INTR_ENA, 0),
                ],
    {
        let ghost start = port.log();
        self.quiesced = true;
        GmacMac::stop_dma(port);
        let ghost control = choose|control: u32|
            port.log() == start + seq![
                #[trigger] port::r32(regs::DMA_CONTROL, control),
                port::w32(regs::DMA_CONTROL, control & 0xffff_dffd),
            ];
        port.write32(regs::DMA_INTR_ENA, 0);
        assert(port.log() =~= start + seq![
            port::r32(regs::DMA_CONTROL, control),
            port::w32(regs::DMA_CONTROL, control & 0xffff_dffd),
            port::w32(regs::DMA_INTR_ENA, 0),
        ]);
        let mut i: usize = 0;
        while i < RING_SIZE
            invariant
                i <= RING_SIZE,
                self.wf(),
                *self == (GmacQueue {
                    quiesced: true,
                    rx_pending: self.rx_pending,
                    tx_pending: self.tx_pending,
                    ..*old(self)
                }),
                forall|k: int| 0 <= k < i ==> (#[trigger] self.rx_pending@[k]) is None,
                forall|k: int| 0 <= k < i ==> (#[trigger] self.tx_pending@[k]) is None,
            decreases RING_SIZE - i,
        {
            self.rx_pending.set(i, None);
            self.tx_pending.set(i, None);
            i += 1;
        }
    }
}

/// A place, if it is taken.
pub open spec fn place_of<T>(slots: Seq<Option<T>>, at: usize) -> Option<usize> {
    if slots[at as int] is Some {
        Some(at)
    } else {
        None
    }
}

} // verus!
