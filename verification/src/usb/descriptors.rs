//! What the controllers find in shared memory: the descriptors of transfers, and the
//! requests and data that they are about.

use vstd::prelude::*;
use crate::port;
use crate::port::{Access, Exchange};
use crate::usb::high;
use crate::usb::high::{ControlRun, PartsRun};
use crate::usb::ohci;
use crate::usb::ohci::{OhciModel, OhciTransfer, TdPlan};
use crate::usb::regs::UsbSetup;
use crate::usb::transaction;
use crate::usb::transaction::SubmitRun;
use crate::usb::transfer;
use crate::usb::transfer::{PieceRun, Request, Schedule, TransferDma};

verus! {

/// The word that an access stores at an address, if it does.
pub open spec fn word_at(exchange: Exchange, address: int) -> Option<u32> {
    match exchange.access {
        Access::Store32(at, value) if at == address => Some(value),
        _ => None,
    }
}

/// Whether an access stores a byte at an address.
pub open spec fn stores_byte(exchange: Exchange, address: int, byte: u8) -> bool {
    exchange.access == Access::Store8(address as usize, byte)
}

/// Whether a request stands in the last eight of these accesses: what it is, and its
/// three numbers, each with its low byte first.
pub open spec fn request_stored(trace: Seq<Exchange>, address: int, setup: UsbSetup) -> bool {
    let n = trace.len() - 8;
    &&& n >= 0
    &&& exists|b: Seq<u8>|
        #![trigger b.len()]
        b.len() == 8 && (forall|i: int|
            0 <= i < 8 ==> stores_byte(#[trigger] trace[n + i], address + i, b[i])) && b[0]
            == setup.request_type && b[1] == setup.request && b[2] + 256 * b[3] == setup.value && b[4]
            + 256 * b[5] == setup.index && b[6] + 256 * b[7] == setup.length
}

/// Whether the page words of a description lead to a byte of a payload: each word is for
/// the next page, and the first one says where in its page the payload begins.
pub open spec fn byte_covered(trace: Seq<Exchange>, at: int, dma: int, k: int) -> bool {
    let place = dma % 4096 + k;
    let slot = place / 4096;
    &&& 0 <= slot < 5
    &&& word_at(trace[3 + slot], at + 12 + 4 * slot) matches Some(page) && page as int / 4096 * 4096
        + place % 4096 == dma + k
}

/// Whether a high-speed transfer was described so: its parts of the queue end with it, and
/// it is active, with three tries. `pid` is 0 for data to the device, 1 for data from it
/// and 2 for a request.
pub open spec fn transfer_described(
    trace: Seq<Exchange>,
    base: u32,
    index: usize,
    pid: int,
    toggle: bool,
    dma: int,
    len: int,
) -> bool {
    let at = base + 32 * index;
    &&& trace.len() == 8
    &&& word_at(trace[0], at) == Some(1u32)
    &&& word_at(trace[1], at + 4) == Some(1u32)
    &&& word_at(trace[2], at + 8) matches Some(token) && {
        &&& token / 0x100 % 4 == pid
        &&& (token / 0x8000_0000 == 1) == toggle
        &&& token / 0x1_0000 % 0x8000 == len
        &&& token / 0x80 % 2 == 1
        &&& token % 0x80 == 0
        &&& token / 0x400 % 4 == 3
    }
    &&& forall|k: int| 0 <= k < len ==> #[trigger] byte_covered(trace, at, dma, k)
}

/// Whether the memory of the transfers lies below four GiB.
pub open spec fn memory_low(before: Schedule) -> bool {
    &&& before.qtd_base + 32 * 128 <= 0x1_0000_0000
    &&& before.qh_base + 64 * 32 <= 0x1_0000_0000
}

#[verifier::rlimit(40)]
proof fn lemma_described(
    before: Schedule,
    after: Schedule,
    dma: Option<u64>,
    len: int,
    pid: u32,
    toggle: bool,
    ioc: bool,
    trace: Seq<Exchange>,
    index: usize,
)
    requires
        transfer::qtd_built(before, after, dma, len, pid, toggle, ioc, trace, Ok(index)),
        memory_low(before),
        index < 128,
        pid < 3,
        0 <= len,
    ensures
        transfer_described(
            trace,
            before.qtd_base,
            index,
            pid as int,
            toggle,
            if dma is Some {
                dma->0 as int
            } else {
                0
            },
            len,
        ),
{
    let d = if dma is Some {
        dma->0 as int
    } else {
        0
    };
    let at = before.qtd_base + 32 * index;
    let words = transfer::qtd_of(d, len, pid, toggle, ioc).words();
    assert(words.len() == 8);
    assert(len <= 0x7fff);
    let token = transfer::token_of(len, pid, toggle, ioc);
    let t: int = if toggle {
        1
    } else {
        0
    };
    let o: int = if ioc {
        1
    } else {
        0
    };
    assert(token == 0xc80 + t * 0x8000_0000 + o * 0x8000 + pid * 0x100 + len * 0x10000);
    assert(token / 0x8000_0000 == t);
    assert(token / 0x1_0000 % 0x8000 == len);
    assert(token / 0x100 % 4 == pid);
    assert(token / 0x80 % 2 == 1);
    assert(token / 0x400 % 4 == 3);
    assert(token % 0x80 == 0);
    assert(word_at(trace[2], at + 8) == Some(words[2]));
    assert forall|k: int| 0 <= k < len implies #[trigger] byte_covered(trace, at, d, k) by {
        let place = d % 4096 + k;
        transfer::pages_cover_payload(dma->0, len as usize, k);
        let slot = place / 4096;
        assert(slot == 0 || slot == 1 || slot == 2 || slot == 3 || slot == 4);
        assert(words[3 + slot] == transfer::page_of(d, len, slot));
        assert(trace[3 + slot] == port::s32((at + 4 * (3 + slot)) as usize, words[3 + slot]));
    }
}

/// Whether bytes are the last that these accesses store, from an address on.
pub open spec fn bytes_are_last(trace: Seq<Exchange>, address: int, bytes: Seq<u8>) -> bool {
    &&& trace.len() >= bytes.len()
    &&& forall|i: int|
        0 <= i < bytes.len() ==> stores_byte(
            #[trigger] trace[trace.len() - bytes.len() + i],
            address + i,
            bytes[i],
        )
}

/// A transfer with a payload is described to the controller, and a payload for the device
/// is where the description says.
proof fn lemma_piece(
    w: PieceRun,
    before: Schedule,
    after: Schedule,
    bytes: Seq<u8>,
    offset: usize,
    from_device: bool,
    pid: u32,
    toggle: bool,
    ioc: bool,
    trace: Seq<Exchange>,
    index: usize,
    mapping: TransferDma,
)
    requires
        transfer::piece_built(
            w,
            before,
            after,
            bytes,
            offset,
            from_device,
            pid,
            toggle,
            ioc,
            trace,
            Ok((index, mapping)),
        ),
        memory_low(before),
        index < 128,
        pid < 3,
    ensures
        trace == w.map_trace + w.build_trace,
        transfer_described(
            w.build_trace,
            before.qtd_base,
            index,
            pid as int,
            toggle,
            mapping.dma as int,
            bytes.len() as int,
        ),
        !from_device ==> bytes_are_last(w.map_trace, mapping.dma as int, bytes),
        mapping.from_device == from_device,
        mapping.offset == offset,
        mapping.len == bytes.len() as usize,
        after.qtd_base == before.qtd_base,
        after.qh_base == before.qh_base,
        after.qtds == before.qtds.drop_last(),
        index == before.qtds.last(),
{
    reveal(transfer::piece_built);
    lemma_described(
        before,
        after,
        Some(mapping.dma),
        bytes.len() as int,
        pid,
        toggle,
        ioc,
        w.build_trace,
        index,
    );
    if !from_device {
        let stored = port::bytes_stored(mapping.dma as int, bytes);
        let head = w.map_trace.take(w.map_trace.len() - bytes.len());
        assert(w.map_trace =~= head + stored);
        assert forall|i: int| 0 <= i < bytes.len() implies stores_byte(
            #[trigger] w.map_trace[w.map_trace.len() - bytes.len() + i],
            mapping.dma + i,
            bytes[i],
        ) by {
            assert(stored[i] == port::s8((mapping.dma + i) as usize, bytes[i]));
        }
    }
}

proof fn lemma_request(trace: Seq<Exchange>, address: int, setup: UsbSetup)
    requires
        bytes_are_last(trace, address, setup.bytes()),
    ensures
        request_stored(trace, address, setup),
{
    let b = setup.bytes();
    assert(b.len() == 8);
    assert forall|i: int| 0 <= i < 8 implies stores_byte(
        #[trigger] trace[trace.len() - 8 + i],
        address + i,
        b[i],
    ) by {}
}

/// A request to a high-speed device is described in three steps: the request itself, sent
/// to the device; its data, if there is any, the way that was asked for; and the
/// confirmation against the data, or from the device if there is none. The request and
/// data for the device are where their descriptions say.
#[verifier::rlimit(40)]
pub proof fn high_speed_request_is_described(
    w: ControlRun,
    before: Schedule,
    after: Schedule,
    address: u8,
    setup: UsbSetup,
    data: Seq<u8>,
    data_in: bool,
    data_after: Seq<u8>,
    trace: Seq<Exchange>,
    result: Result<usize, &'static str>,
)
    requires
        high::control_done(
            w,
            before,
            after,
            address,
            setup,
            data,
            data_in,
            data_after,
            trace,
            result,
        ),
        !before.faulted,
        memory_low(before),
        forall|i: int| 0 <= i < before.qtds.len() ==> (#[trigger] before.qtds[i]) < 128,
        before.qtds.len() >= 3,
        w.setup_result is Ok,
        data.len() > 0 ==> w.data_result is Ok,
        w.status_result is Ok,
    ensures
        transfer_described(
            w.setup.build_trace,
            before.qtd_base,
            w.setup_result->Ok_0.0,
            2,
            false,
            w.setup_result->Ok_0.1.dma as int,
            8,
        ),
        request_stored(w.setup.map_trace, w.setup_result->Ok_0.1.dma as int, setup),
        data.len() > 0 ==> transfer_described(
            w.data.build_trace,
            before.qtd_base,
            w.data_result->Ok_0.0,
            if data_in {
                1
            } else {
                0
            },
            true,
            w.data_result->Ok_0.1.dma as int,
            data.len() as int,
        ),
        data.len() > 0 && !data_in ==> bytes_are_last(
            w.data.map_trace,
            w.data_result->Ok_0.1.dma as int,
            data,
        ),
        transfer_described(
            w.status_trace,
            before.qtd_base,
            w.status_result->Ok_0,
            if data_in && data.len() > 0 {
                0
            } else {
                1
            },
            true,
            0,
            0,
        ),
        trace == w.setup.map_trace + w.setup.build_trace + (if data.len() > 0 {
            w.data.map_trace + w.data.build_trace
        } else {
            Seq::empty()
        }) + w.status_trace + w.transfer_trace,
{
    let n = before.qtds.len() as int;
    reveal(transfer::piece_built);
    let setup_index = w.setup_result->Ok_0.0;
    assert(before.qtds.last() == before.qtds[n - 1]);
    lemma_piece(
        w.setup,
        before,
        w.first,
        setup.bytes(),
        0,
        false,
        2,
        false,
        false,
        w.setup_trace,
        setup_index,
        w.setup_result->Ok_0.1,
    );
    assert(setup.bytes().len() == 8);
    lemma_request(w.setup.map_trace, w.setup_result->Ok_0.1.dma as int, setup);
    let pid: u32 = if data_in {
        1
    } else {
        0
    };
    if data.len() > 0 {
        assert(w.first.qtds.last() == before.qtds[n - 2]);
        lemma_piece(
            w.data,
            w.first,
            w.second,
            data,
            0,
            data_in,
            pid,
            true,
            false,
            w.data_trace,
            w.data_result->Ok_0.0,
            w.data_result->Ok_0.1,
        );
        assert(w.second.qtds.last() == before.qtds[n - 3]);
    } else {
        assert(w.second.qtds.last() == before.qtds[n - 2]);
    }
    let status: u32 = if data_in && data.len() > 0 {
        0
    } else {
        1
    };
    lemma_described(
        w.second,
        w.third,
        None,
        0,
        status,
        true,
        true,
        w.status_trace,
        w.status_result->Ok_0,
    );
}

/// The parts of a bulk transfer follow one another in the data, and each is described the
/// way that was asked for; data for the device is where its description says.
pub proof fn bulk_parts_are_described(
    w: PartsRun,
    i: int,
    data: Seq<u8>,
    data_in: bool,
)
    requires
        high::part_built(w, i, data, data_in),
        memory_low(w.states[i]),
        0 <= i,
        0x4000 * i < data.len() <= usize::MAX,
        w.qtds[i] < 128,
    ensures
        ({
            let from = 0x4000 * i;
            let to = if from + 0x4000 < data.len() {
                from + 0x4000
            } else {
                data.len() as int
            };
            &&& transfer_described(
                w.runs[i].build_trace,
                w.states[i].qtd_base,
                w.qtds[i],
                if data_in {
                    1
                } else {
                    0
                },
                false,
                w.maps[i].dma as int,
                to - from,
            )
            &&& !data_in ==> bytes_are_last(
                w.runs[i].map_trace,
                w.maps[i].dma as int,
                data.subrange(from, to),
            )
            &&& w.maps[i].offset == from
            &&& w.maps[i].len == to - from
            &&& w.maps[i].from_device == data_in
        }),
{
    let pid: u32 = if data_in {
        1
    } else {
        0
    };
    lemma_piece(
        w.runs[i],
        w.states[i],
        w.states[i + 1],
        high::chunk_of(data, i),
        (0x4000 * i) as usize,
        data_in,
        pid,
        false,
        false,
        w.traces[i],
        w.qtds[i],
        w.maps[i],
    );
}

/// Whether a queue was described so: the device and its endpoint, at high speed, how long
/// its packets are, and where its first transfer is. Only a request takes the sequence bit
/// from its parts.
pub open spec fn queue_described(
    trace: Seq<Exchange>,
    at: int,
    address: u8,
    ep: u8,
    control: bool,
    first: int,
) -> bool {
    &&& trace.len() == 12
    &&& word_at(trace[1], at + 4) matches Some(info) && {
        &&& info % 128 == address % 128
        &&& info / 0x80 % 2 == 0
        &&& info / 0x100 % 16 == ep % 16
        &&& info / 0x1000 % 4 == 2
        &&& (info / 0x4000 % 2 == 1) == control
        &&& info / 0x8000 % 2 == 0
        &&& info / 0x1_0000 % 0x800 == (if control {
            64int
        } else {
            512
        })
    }
    &&& word_at(trace[2], at + 8) == Some(0x4000_0000u32)
    &&& word_at(trace[4], at + 16) == Some(first as u32)
    &&& word_at(trace[5], at + 20) == Some(1u32)
}

/// A transfer that enters the schedule has its queue described for its device, and its
/// parts linked in their order.
#[verifier::rlimit(40)]
pub proof fn queue_is_described(
    w: SubmitRun,
    before: Schedule,
    after: Schedule,
    request: Request,
    qtds: Seq<usize>,
    maps: Seq<TransferDma>,
    trace: Seq<Exchange>,
    qh: usize,
)
    requires
        transaction::submitted(
            w,
            before,
            after,
            request,
            qtds,
            maps,
            trace,
            transaction::Submission::Linked(qh),
        ),
        memory_low(before),
        qh < 32,
        forall|i: int| 0 <= i < qtds.len() ==> (#[trigger] qtds[i]) < 128,
    ensures
        qtds.len() > 0,
        ({
            let skipped: int = if request.control {
                0
            } else {
                1
            };
            &&& trace.len() >= skipped + 12 + qtds.len() - 1
            &&& queue_described(
                trace.subrange(skipped, skipped + 12),
                before.qh_base + 64 * qh,
                request.address,
                request.ep,
                request.control,
                before.qtd_base + 32 * qtds[0],
            )
            &&& forall|i: int|
                0 <= i < qtds.len() - 1 ==> word_at(
                    #[trigger] trace[skipped + 12 + i],
                    before.qtd_base + 32 * qtds[i],
                ) == Some((before.qtd_base + 32 * qtds[i + 1]) as u32)
        }),
{
    let skipped: int = if request.control {
        0
    } else {
        1
    };
    let first = transfer::qtd_at(before.qtd_base, qtds[0] as int);
    let head = transaction::qh_filled(before.qh_base, qh, request, first, w.left);
    let links = transaction::chain_links(before.qtd_base, qtds, qtds.len() - 1);
    let ready = transaction::prepared(w, before, request, qh, qtds);
    assert(w.qh == Some(qh));
    assert(exists|rest: Seq<Exchange>| trace == ready + rest) by {
        let tail = w.stop_trace + transaction::entered(before, qh, maps) + w.start_trace;
        assert(trace =~= ready + tail);
    }
    let at = before.qh_base + 64 * qh;
    let words = transaction::qh_of(request, first, w.left).words();
    assert(words.len() == 12);
    let part = trace.subrange(skipped, skipped + 12);
    assert(head.len() == skipped + 12);
    assert(part =~= port::words_stored(at, words));
    assert(part[1] == port::s32((at + 4) as usize, words[1]));
    assert(part[2] == port::s32((at + 8) as usize, words[2]));
    assert(part[4] == port::s32((at + 16) as usize, words[4]));
    assert(part[5] == port::s32((at + 20) as usize, words[5]));
    let info = words[1];
    let a = (request.address % 128) as int;
    let e = (request.ep % 16) as int;
    if request.control {
        assert(info == a + e * 0x100 + 0x2000 + 0x40_4000 + 0x8000_0000);
    } else {
        assert(info == a + e * 0x100 + 0x2000 + 0x200_0000 + 0x8000_0000);
    }
    assert(info % 128 == a);
    assert(info / 0x80 % 2 == 0);
    assert(info / 0x100 % 16 == e);
    assert forall|i: int| 0 <= i < qtds.len() - 1 implies word_at(
        #[trigger] trace[skipped + 12 + i],
        before.qtd_base + 32 * qtds[i],
    ) == Some((before.qtd_base + 32 * qtds[i + 1]) as u32) by {
        assert(trace[skipped + 12 + i] == links[i]);
    }
}

/// Whether a full-speed transfer was described so: its direction in the controller's
/// code, its sequence bit, and the first and last byte of its buffer.
pub open spec fn td_described(
    trace: Seq<Exchange>,
    from: int,
    at: int,
    direction: int,
    toggle: bool,
    buffer: int,
    len: int,
) -> bool {
    &&& from + 4 <= trace.len()
    &&& word_at(trace[from + 1], at + 4) matches Some(word) && {
        &&& word / 0x200_0000 == direction
        &&& (word / 0x100_0000 % 2 == 1) == toggle
        &&& word / 0x4_0000 % 2 == 1
        &&& word % 0x8000 == len % 0x8000
    }
    &&& word_at(trace[from + 2], at + 8) == Some((buffer % 0x1_0000_0000) as u32)
    &&& len > 0 ==> word_at(trace[from + 3], at + 12) == Some(
        ((buffer + len - 1) % 0x1_0000_0000) as u32,
    )
}

proof fn lemma_tds(
    base: u64,
    ids: Seq<usize>,
    plans: Seq<TdPlan>,
    i: int,
    direction: int,
    toggle: bool,
    buffer: int,
    len: int,
)
    requires
        0 <= i < plans.len(),
        ids.len() == plans.len(),
        forall|j: int| 0 <= j < ids.len() ==> (#[trigger] ids[j]) < 128,
        base + 16 * 128 <= usize::MAX,
        plans[i].dp == direction,
        direction < 4,
        plans[i].toggle == toggle,
        plans[i].buffer == buffer % 0x1_0000_0000,
        plans[i].len == len,
    ensures
        ohci::tds_written(base, ids, plans).len() == 4 * plans.len(),
        td_described(
            ohci::tds_written(base, ids, plans),
            4 * i,
            base + 16 * ids[i],
            direction,
            toggle,
            buffer,
            len,
        ),
    decreases plans.len(),
{
    let n = plans.len() - 1;
    let front = ohci::tds_written(base, ids.drop_last(), plans.drop_last());
    let words = ohci::td_words(plans.last());
    assert(words.len() == 4);
    let back = port::words_stored(base + 16 * ids.last(), words);
    let whole = ohci::tds_written(base, ids, plans);
    assert(whole == front + back);
    lemma_tds_len(base, ids.drop_last(), plans.drop_last());
    assert(ids.last() == ids[n] && plans.last() == plans[n]);
    if i == n {
        let at = base + 16 * ids[i];
        assert(whole[4 * i + 1] == back[1] && whole[4 * i + 2] == back[2] && whole[4 * i + 3]
            == back[3]);
        assert(back[1] == port::s32((at + 4) as usize, words[1]));
        assert(back[2] == port::s32((at + 8) as usize, words[2]));
        assert(back[3] == port::s32((at + 12) as usize, words[3]));
        let t: int = if toggle {
            1
        } else {
            0
        };
        let word = words[1];
        assert(word == 0x4_0000 + direction * 0x200_0000 + t * 0x100_0000 + len % 0x8000);
        assert(word / 0x200_0000 == direction);
        assert(word / 0x100_0000 % 2 == t);
        assert(word / 0x4_0000 % 2 == 1);
        assert(word % 0x8000 == len % 0x8000);
    } else {
        assert(plans.drop_last()[i] == plans[i]);
        assert(ids.drop_last()[i] == ids[i]);
        assert forall|j: int| 0 <= j < ids.drop_last().len() implies (
        #[trigger] ids.drop_last()[j]) < 128 by {
            assert(ids.drop_last()[j] == ids[j]);
        }
        lemma_tds(base, ids.drop_last(), plans.drop_last(), i, direction, toggle, buffer, len);
    }
}

proof fn lemma_tds_len(base: u64, ids: Seq<usize>, plans: Seq<TdPlan>)
    ensures
        ohci::tds_written(base, ids, plans).len() == 4 * plans.len(),
    decreases plans.len(),
{
    if plans.len() > 0 {
        lemma_tds_len(base, ids.drop_last(), plans.drop_last());
        assert(ohci::td_words(plans.last()).len() == 4);
    }
}

/// A request to a full-speed device is described in three steps: the request itself, sent
/// to the device; its data, if there is any, the way that was asked for; and the
/// confirmation. In the controller's code 0 is a request, 2 is from the device and 3 is to
/// it.
#[verifier::rlimit(40)]
pub proof fn full_speed_request_is_described(
    w: OhciTransfer,
    before: OhciModel,
    after: OhciModel,
    address: u8,
    setup: UsbSetup,
    data: Seq<u8>,
    data_in: bool,
    data_after: Seq<u8>,
    trace: Seq<Exchange>,
    result: Result<usize, &'static str>,
)
    requires
        ohci::ohci_control(
            w,
            before,
            after,
            address,
            setup,
            data,
            data_in,
            data_after,
            trace,
            result,
        ),
        before.tds.len() >= 3,
        data.len() <= usize::MAX,
        forall|j: int| 0 <= j < before.tds.len() ==> (#[trigger] before.tds[j]) < 128,
        before.td_base + 16 * 128 <= usize::MAX,
    ensures
        ({
            let n = before.tds.len() as int;
            &&& td_described(
                w.run_trace,
                0,
                before.td_base + 16 * before.tds[n - 1],
                0,
                false,
                w.setup as int,
                8,
            )
            &&& data.len() > 0 ==> td_described(
                w.run_trace,
                4,
                before.td_base + 16 * before.tds[n - 2],
                if data_in {
                    2
                } else {
                    3
                },
                true,
                w.payload as int,
                data.len() as int,
            )
            &&& data.len() > 0 ==> td_described(
                w.run_trace,
                8,
                before.td_base + 16 * before.tds[n - 3],
                if data_in {
                    3
                } else {
                    2
                },
                true,
                0,
                0,
            )
        }),
        trace.len() >= 9,
        request_stored(trace.take(9), w.setup as int, setup),
{
    reveal(ohci::carried_out);
    let n = before.tds.len() as int;
    let plans = ohci::control_plan(w.setup, w.payload, data.len() as usize, data_in);
    let ids = ohci::taken(before.tds, plans.len() as int);
    let written = ohci::tds_written(before.td_base, ids, plans);
    lemma_tds(before.td_base, ids, plans, 0, 0, false, w.setup as int, 8);
    if data.len() > 0 {
        lemma_tds(
            before.td_base,
            ids,
            plans,
            1,
            if data_in {
                2
            } else {
                3
            },
            true,
            w.payload as int,
            data.len() as int,
        );
        lemma_tds(
            before.td_base,
            ids,
            plans,
            2,
            if data_in {
                3
            } else {
                2
            },
            true,
            0,
            0,
        );
    }
    assert(w.run_trace.len() >= written.len());
    assert(w.run_trace.take(written.len() as int) =~= written);
    assert forall|k: int| 0 <= k < written.len() implies w.run_trace[k] == written[k] by {
        assert(w.run_trace.take(written.len() as int)[k] == written[k]);
    }
    let b = setup.bytes();
    assert(b.len() == 8);
    let first = ohci::placed(b, w.setup);
    assert(first.len() == 9);
    assert(trace.take(9) =~= first);
    assert forall|i: int| 0 <= i < 8 implies stores_byte(
        #[trigger] trace.take(9)[1 + i],
        w.setup + i,
        b[i],
    ) by {
        assert(first[1 + i] == port::bytes_stored(w.setup as int, b)[i]);
    }
    lemma_request(trace.take(9), w.setup as int, setup);
}

/// The parts of a full-speed transfer follow one another in the buffer, the way that was
/// asked for, with alternating sequence bits, and cover all of it.
pub proof fn full_speed_parts_are_described(
    w: OhciTransfer,
    before: OhciModel,
    after: OhciModel,
    address: u8,
    ep: u8,
    data: Seq<u8>,
    data_in: bool,
    data_after: Seq<u8>,
    trace: Seq<Exchange>,
    result: Result<usize, &'static str>,
    i: int,
)
    requires
        ohci::ohci_bulk(
            w,
            before,
            after,
            address,
            ep,
            data,
            data_in,
            data_after,
            trace,
            result,
        ),
        0 <= i,
        0x1000 * i < data.len() <= usize::MAX,
        data.len() <= 0x1000 * before.tds.len(),
        forall|j: int| 0 <= j < before.tds.len() ==> (#[trigger] before.tds[j]) < 128,
        before.td_base + 16 * 128 <= usize::MAX,
    ensures
        i < before.tds.len(),
        td_described(
            w.run_trace,
            4 * i,
            before.td_base + 16 * before.tds[before.tds.len() - 1 - i],
            if data_in {
                2
            } else {
                3
            },
            i % 2 == 1,
            w.payload + 0x1000 * i,
            if data.len() - 0x1000 * i < 0x1000 {
                data.len() - 0x1000 * i
            } else {
                0x1000
            },
        ),
{
    reveal(ohci::carried_out);
    let plans = ohci::bulk_plan(w.payload, data.len() as int, data_in);
    let ids = ohci::taken(before.tds, plans.len() as int);
    let written = ohci::tds_written(before.td_base, ids, plans);
    let count = ohci::chunk_count(data.len() as int);
    assert(count == (data.len() + 0xfff) / 0x1000);
    assert(i < count <= before.tds.len());
    lemma_tds(
        before.td_base,
        ids,
        plans,
        i,
        if data_in {
            2
        } else {
            3
        },
        i % 2 == 1,
        w.payload + 0x1000 * i,
        if data.len() - 0x1000 * i < 0x1000 {
            data.len() - 0x1000 * i
        } else {
            0x1000
        },
    );
    assert(w.run_trace.len() >= written.len());
    assert(w.run_trace.take(written.len() as int) =~= written);
    assert forall|k: int| 0 <= k < written.len() implies w.run_trace[k] == written[k] by {
        assert(w.run_trace.take(written.len() as int)[k] == written[k]);
    }
}

/// A full-speed endpoint is described with its device and number, the way its data goes,
/// its speed and the length of its packets, and with its first and last transfer.
pub proof fn endpoint_is_described(request: Request, low_speed: bool, td_base: u64, ids: Seq<usize>)
    requires
        ids.len() > 0,
        forall|j: int| 0 <= j < ids.len() ==> (#[trigger] ids[j]) < 128,
        td_base % 16 == 0,
        td_base + 16 * 128 <= 0x4000_0000,
    ensures
        ({
            let words = ohci::ed_words(request, low_speed, td_base, ids);
            &&& words.len() == 4
            &&& words[1] % 128 == request.address % 128
            &&& words[1] / 0x80 % 16 == request.ep % 16
            &&& words[1] / 0x800 % 4 == (if request.data_in {
                2int
            } else {
                3
            })
            &&& (words[1] / 0x2000 % 2 == 1) == low_speed
            &&& words[1] / 0x1_0000 == (if request.control {
                8int
            } else {
                64
            })
            &&& words[2] == td_base + 16 * ids[ids.len() - 1]
            &&& words[3] % 0x4000_0000 == td_base + 16 * ids[0]
        }),
{
    let words = ohci::ed_words(request, low_speed, td_base, ids);
    let a = (request.address % 128) as int;
    let e = (request.ep % 16) as int;
    let d: int = if request.data_in {
        2
    } else {
        3
    };
    let l: int = if low_speed {
        1
    } else {
        0
    };
    let m: int = if request.control {
        8
    } else {
        64
    };
    assert(words[1] == a + e * 0x80 + d * 0x800 + l * 0x2000 + m * 0x1_0000);
    assert(words[1] % 128 == a);
    assert(words[1] / 0x80 % 16 == e);
    assert(words[1] / 0x800 % 4 == d);
    assert(words[1] / 0x2000 % 2 == l);
    assert(words[1] / 0x1_0000 == m);
    let first = ohci::low(td_base, ids[0] as int);
    assert(first == td_base + 16 * ids[0]);
    assert((first | 0x4000_0000) % 0x4000_0000 == first) by (bit_vector)
        requires
            first < 0x4000_0000,
    ;
}

} // verus!
