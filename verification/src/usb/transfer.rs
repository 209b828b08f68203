//! Transfers of the high-speed host controller.

use vstd::prelude::*;
use crate::port;
use crate::port::{Access, Exchange, NO_PAGE, Port};
use crate::usb::ehci;
use crate::usb::ehci::validate_qtd_dma_region;
use crate::usb::pool::Pool;
use crate::usb::regs;
use crate::usb::regs::EhciQtdHw;
use crate::usb::ring;
use crate::usb::ring::{QH_COUNT, QhRing};

verus! {

pub const QTD_COUNT: usize = 128;

pub const QTD_SIZE: u32 = 32;

pub const PAGE_SIZE: u64 = 4096;

/// The head that an endpoint keeps.
#[derive(Clone, Copy, PartialEq, Eq, Structural, Debug)]
pub struct CachedQh {
    pub address: u8,
    pub ep: u8,
    pub data_in: bool,
    pub qh: usize,
}

/// What a transfer is for.
#[derive(Clone, Copy, PartialEq, Eq, Structural, Debug)]
pub struct Request {
    pub address: u8,
    pub ep: u8,
    pub data_in: bool,
    /// A control transfer; the others keep their head between transfers.
    pub control: bool,
}

/// Memory of a payload that the controller reaches.
#[derive(Clone, Copy, PartialEq, Eq, Structural, Debug)]
pub struct TransferDma {
    pub dma: u64,
    pub len: usize,
    /// Where in the data it begins.
    pub offset: usize,
    /// Whether it is the payload itself, rather than a copy.
    pub borrowed: bool,
    pub from_device: bool,
}

impl TransferDma {
    /// Whether what the device left in it goes back to the caller: always from the
    /// payload itself, and from a copy after success.
    pub open spec fn copied(self, successful: bool) -> bool {
        self.from_device && (self.borrowed || successful)
    }
}

/// The schedule of a controller.
pub struct EhciState {
    pub op: usize,
    pub ports: usize,
    pub frame_list: u64,
    pub qtd_base: u32,
    pub ring: QhRing,
    pub qhs: Pool,
    pub qtds: Pool,
    pub cached: Vec<CachedQh>,
    /// Whether the controller was halted for good.
    pub faulted: bool,
}

/// What a schedule is.
pub ghost struct Schedule {
    pub op: usize,
    pub ports: usize,
    pub frame_list: u64,
    pub qh_base: u32,
    pub qtd_base: u32,
    pub head: usize,
    /// The heads and transfers that are free, the next one last.
    pub qhs: Seq<usize>,
    pub qtds: Seq<usize>,
    pub cached: Seq<CachedQh>,
    /// The heads that the controller walks, behind the fixed one.
    pub linked: Seq<usize>,
    pub faulted: bool,
}

impl View for EhciState {
    type V = Schedule;

    open spec fn view(&self) -> Schedule {
        Schedule {
            op: self.op,
            ports: self.ports,
            frame_list: self.frame_list,
            qh_base: self.ring.base,
            qtd_base: self.qtd_base,
            head: self.ring.head,
            qhs: self.qhs.free@,
            qtds: self.qtds.free@,
            cached: self.cached@,
            linked: self.ring.list@,
            faulted: self.faulted,
        }
    }
}

impl EhciState {
    /// No head and no transfer has two owners, and between transfers the controller
    /// walks only the fixed head.
    pub open spec fn wf(&self) -> bool {
        &&& self.sound()
        &&& !self.faulted ==> self.ring.list@ == Seq::<usize>::empty()
    }

    pub open spec fn sound(&self) -> bool {
        &&& self.op <= 0xff
        &&& self.ports <= 15
        &&& self.ring.wf()
        &&& self.qtd_base % 32 == 0
        &&& self.qtd_base + QTD_SIZE * QTD_COUNT <= u32::MAX + 1
        &&& self.qhs.wf()
        &&& self.qhs.count == QH_COUNT
        &&& !self.qhs.is_free(self.ring.head)
        &&& self.qtds.wf()
        &&& self.qtds.count == QTD_COUNT
        &&& forall|i: int|
            0 <= i < self.cached@.len() ==> (#[trigger] self.cached@[i]).qh < QH_COUNT
                && self.cached@[i].qh != self.ring.head && !self.qhs.is_free(self.cached@[i].qh)
        &&& forall|i: int, j: int|
            0 <= i < j < self.cached@.len() ==> self.cached@[i].qh != self.cached@[j].qh
    }

    /// Whether a head is in use and kept by no endpoint.
    pub open spec fn loose_qh(&self, qh: usize) -> bool {
        &&& qh < QH_COUNT
        &&& qh != self.ring.head
        &&& !self.qhs.is_free(qh)
        &&& forall|i: int| 0 <= i < self.cached@.len() ==> (#[trigger] self.cached@[i]).qh != qh
    }

    /// Whether transfers are in use, each once.
    pub open spec fn loose_qtds(&self, qtds: Seq<usize>) -> bool {
        &&& qtds.no_duplicates()
        &&& forall|i: int|
            0 <= i < qtds.len() ==> (#[trigger] qtds[i]) < QTD_COUNT && !self.qtds.is_free(qtds[i])
    }
}

/// The address of a transfer.
pub open spec fn qtd_at(base: u32, index: int) -> u32 {
    (base + QTD_SIZE * index) as u32
}

/// The part of a payload's address for a page of it.
pub open spec fn page_of(dma: int, len: int, slot: int) -> u32 {
    if len == 0 {
        0
    } else if slot == 0 {
        dma as u32
    } else if slot < (dma % 4096 + len + 4095) / 4096 {
        (dma / 4096 * 4096 + slot * 4096) as u32
    } else {
        0
    }
}

/// The state of a transfer that was not begun.
pub open spec fn token_of(len: int, pid: u32, toggle: bool, ioc: bool) -> u32 {
    (0x80 + 0xc00 + (if toggle {
        0x8000_0000int
    } else {
        0
    }) + (if ioc {
        0x8000int
    } else {
        0
    }) + pid * 0x100 + len * 0x10000) as u32
}

/// A transfer.
pub open spec fn qtd_of(dma: int, len: int, pid: u32, toggle: bool, ioc: bool) -> EhciQtdHw {
    EhciQtdHw {
        next: regs::QTD_TERMINATE,
        alt_next: regs::QTD_TERMINATE,
        token: token_of(len, pid, toggle, ioc),
        buf0: page_of(dma, len, 0),
        buf1: page_of(dma, len, 1),
        buf2: page_of(dma, len, 2),
        buf3: page_of(dma, len, 3),
        buf4: page_of(dma, len, 4),
    }
}

/// The pages of a transfer cover its payload: each byte is in the page that its
/// place belongs to, and there are at most five pages.
pub proof fn pages_cover_payload(dma: u64, len: usize, k: int)
    requires
        ehci::payload_error(dma as int, len as int) is None,
        0 <= k < len,
    ensures
        0 <= (dma % 4096 + k) / 4096 < 5,
        page_of(dma as int, len as int, (dma % 4096 + k) / 4096) / 4096 * 4096 + (dma % 4096 + k)
            % 4096 == dma + k,
{
    let slot = (dma % 4096 + k) / 4096;
    let place = dma % 4096 + k;
    assert(place == slot * 4096 + place % 4096);
    assert(dma == dma / 4096 * 4096 + dma % 4096);
    if slot > 0 {
        assert(slot < (dma % 4096 + len + 4095) / 4096);
        let page = dma / 4096 * 4096 + slot * 4096;
        assert(page <= dma + k);
        assert(page_of(dma as int, len as int, slot) == page);
        assert(page / 4096 * 4096 == page);
    } else {
        assert(page_of(dma as int, len as int, 0) == dma);
    }
}

fn page_word(dma: u64, len: usize, slot: u64) -> (word: u32)
    requires
        len > 0,
        ehci::payload_error(dma as int, len as int) is None,
        slot < 5,
    ensures
        word == page_of(dma as int, len as int, slot as int),
{
    if slot == 0 {
        return dma as u32;
    }
    if slot < (dma % PAGE_SIZE + len as u64 + 4095) / PAGE_SIZE {
        proof {
            let page = dma / 4096 * 4096 + slot * 4096;
            assert(slot * 4096 <= dma % 4096 + len - 1);
            assert(page <= dma + len - 1);
        }
        (dma / PAGE_SIZE * PAGE_SIZE + slot * PAGE_SIZE) as u32
    } else {
        0
    }
}

/// Why a transfer cannot be made.
pub open spec fn qtd_error(dma: Option<u64>, len: int, free: int) -> Option<&'static str> {
    if len != 0 && dma is None {
        Some("EHCI qTD payload has no DMA mapping")
    } else if len != 0 && ehci::payload_error(dma->0 as int, len) is Some {
        ehci::payload_error(dma->0 as int, len)
    } else if free == 0 {
        Some("EHCI qTD pool exhausted")
    } else {
        None
    }
}

/// Whether a transfer was made so.
pub open spec fn qtd_built(
    before: Schedule,
    after: Schedule,
    dma: Option<u64>,
    len: int,
    pid: u32,
    toggle: bool,
    ioc: bool,
    trace: Seq<Exchange>,
    result: Result<usize, &'static str>,
) -> bool {
    match qtd_error(dma, len, before.qtds.len() as int) {
        Some(error) => {
            &&& after == before
            &&& trace == Seq::<Exchange>::empty()
            &&& result == Err::<usize, &'static str>(error)
        },
        None => {
            let index = before.qtds.last();
            &&& after == (Schedule { qtds: before.qtds.drop_last(), ..before })
            &&& trace == port::words_stored(
                qtd_at(before.qtd_base, index as int) as int,
                qtd_of(if dma is Some { dma->0 as int } else { 0 }, len, pid, toggle, ioc).words(),
            )
            &&& result == Ok::<usize, &'static str>(index)
        },
    }
}

/// How a payload was mapped.
pub ghost struct MapRun {
    pub direct: u64,
    pub copy: u64,
}

/// Whether a payload was mapped so: where it is, if the controller can reach it
/// there, or else in memory of its own. What the device is to read is put there.
pub open spec fn mapped(
    w: MapRun,
    bytes: Seq<u8>,
    offset: usize,
    from_device: bool,
    trace: Seq<Exchange>,
    result: Result<TransferDma, &'static str>,
) -> bool {
    let len = bytes.len() as usize;
    let asked = seq![port::payload_mapped(len, w.direct)];
    if w.direct != NO_PAGE && ehci::payload_error(w.direct as int, len as int) is None {
        &&& trace == asked + port::bytes_stored(w.direct as int, bytes)
        &&& result == Ok::<TransferDma, &'static str>(
            TransferDma { dma: w.direct, len, offset, borrowed: true, from_device },
        )
    } else {
        let again = asked + (if w.direct != NO_PAGE {
            seq![port::buffer_released(w.direct)]
        } else {
            Seq::empty()
        }) + seq![port::buffer_allocated(len, 4096, w.copy)];
        if w.copy == NO_PAGE {
            trace == again && result == Err::<TransferDma, &'static str>(
                "EHCI DMA buffer is unavailable",
            )
        } else if ehci::payload_error(w.copy as int, len as int) is Some {
            &&& trace == again.push(port::buffer_released(w.copy))
            &&& result == Err::<TransferDma, &'static str>(
                ehci::payload_error(w.copy as int, len as int)->0,
            )
        } else {
            &&& trace == again + (if from_device {
                Seq::empty()
            } else {
                port::bytes_stored(w.copy as int, bytes)
            })
            &&& result == Ok::<TransferDma, &'static str>(
                TransferDma { dma: w.copy, len, offset, borrowed: false, from_device },
            )
        }
    }
}

/// How a transfer with a payload was made.
pub ghost struct PieceRun {
    pub map: MapRun,
    pub map_trace: Seq<Exchange>,
    pub map_result: Result<TransferDma, &'static str>,
    pub build_trace: Seq<Exchange>,
    pub build_result: Result<usize, &'static str>,
}

/// Whether a transfer with a payload was made so. If it cannot be made, the payload
/// is unmapped again.
#[verifier::opaque]
pub open spec fn piece_built(
    w: PieceRun,
    before: Schedule,
    after: Schedule,
    bytes: Seq<u8>,
    offset: usize,
    from_device: bool,
    pid: u32,
    toggle: bool,
    ioc: bool,
    trace: Seq<Exchange>,
    result: Result<(usize, TransferDma), &'static str>,
) -> bool {
    &&& mapped(w.map, bytes, offset, from_device, w.map_trace, w.map_result)
    &&& match w.map_result {
        Err(error) => {
            &&& after == before
            &&& trace == w.map_trace
            &&& result == Err::<(usize, TransferDma), &'static str>(error)
        },
        Ok(mapping) => {
            &&& qtd_built(
                before,
                after,
                Some(mapping.dma),
                bytes.len() as int,
                pid,
                toggle,
                ioc,
                w.build_trace,
                w.build_result,
            )
            &&& match w.build_result {
                Ok(index) => {
                    &&& trace == w.map_trace + w.build_trace
                    &&& result == Ok::<(usize, TransferDma), &'static str>((index, mapping))
                },
                Err(error) => {
                    &&& trace == w.map_trace + w.build_trace + seq![
                        port::buffer_released(mapping.dma),
                    ]
                    &&& result == Err::<(usize, TransferDma), &'static str>(error)
                },
            }
        },
    }
}

/// Maps a payload.
pub fn map_transfer_buffer<F: FnMut(Access) -> u64>(
    port: &mut Port<F>,
    bytes: &Vec<u8>,
    offset: usize,
    from_device: bool,
) -> (result: Result<TransferDma, &'static str>)
    requires
        old(port).wf(),
    ensures
        final(port).wf(),
        final(port).performs() == old(port).performs(),
        port::grown(final(port).log(), old(port).log()),
        exists|w: MapRun| #[trigger]
            mapped(
                w,
                bytes@,
                offset,
                from_device,
                port::since(final(port).log(), old(port).log()),
                result,
            ),
{
    let ghost start = port.log();
    let len: usize = bytes.len();
    let ghost mut w: MapRun = arbitrary();
    let direct: u64 = port.map_payload(len);
    let ghost asked = seq![port::payload_mapped(len, direct)];
    proof {
        w = MapRun { direct, ..w };
        assert(port.log() =~= start + asked);
    }
    if direct != NO_PAGE {
        if validate_qtd_dma_region(direct, len).is_ok() {
            port.store_bytes(direct, bytes);
            let mapping = TransferDma { dma: direct, len, offset, borrowed: true, from_device };
            proof {
                let trace = asked + port::bytes_stored(direct as int, bytes@);
                assert(port.log() =~= start + trace);
                port::lemma_grown(start, trace);
                assert(mapped(w, bytes@, offset, from_device, trace, Ok(mapping)));
            }
            return Ok(mapping);
        }
        port.release_buffer(direct);
    }
    let copy: u64 = port.allocate_buffer(len, 4096);
    let ghost again = asked + (if direct != NO_PAGE {
        seq![port::buffer_released(direct)]
    } else {
        Seq::empty()
    }) + seq![port::buffer_allocated(len, 4096, copy)];
    proof {
        w = MapRun { copy, ..w };
        assert(port.log() =~= start + again);
        port::lemma_grown(start, again);
    }
    if copy == NO_PAGE {
        assert(mapped(
            w,
            bytes@,
            offset,
            from_device,
            again,
            Err("EHCI DMA buffer is unavailable"),
        ));
        return Err("EHCI DMA buffer is unavailable");
    }
    match validate_qtd_dma_region(copy, len) {
        Ok(_) => {},
        Err(error) => {
            port.release_buffer(copy);
            proof {
                let trace = again.push(port::buffer_released(copy));
                assert(port.log() =~= start + trace);
                port::lemma_grown(start, trace);
                assert(mapped(w, bytes@, offset, from_device, trace, Err(error)));
            }
            return Err(error);
        },
    }
    if !from_device {
        port.store_bytes(copy, bytes);
    }
    let mapping = TransferDma { dma: copy, len, offset, borrowed: false, from_device };
    proof {
        let trace = again + (if from_device {
            Seq::empty()
        } else {
            port::bytes_stored(copy as int, bytes@)
        });
        assert(port.log() =~= start + trace);
        port::lemma_grown(start, trace);
        assert(mapped(w, bytes@, offset, from_device, trace, Ok(mapping)));
    }
    Ok(mapping)
}

impl EhciState {
    /// The address of a transfer.
    pub fn qtd_dma(&self, index: usize) -> (address: u32)
        requires
            self.sound(),
            index < QTD_COUNT,
        ensures
            address == qtd_at(self.qtd_base, index as int),
            address + 32 <= u32::MAX + 1,
    {
        self.qtd_base + QTD_SIZE * (index as u32)
    }

    /// Makes a transfer.
    pub fn build_qtd<F: FnMut(Access) -> u64>(
        &mut self,
        port: &mut Port<F>,
        dma: Option<u64>,
        len: usize,
        pid: u32,
        toggle: bool,
        ioc: bool,
    ) -> (result: Result<usize, &'static str>)
        requires
            old(self).sound(),
            old(port).wf(),
            pid <= 2,
        ensures
            final(self).sound(),
            final(port).wf(),
            final(port).performs() == old(port).performs(),
            port::grown(final(port).log(), old(port).log()),
            qtd_built(
                old(self)@,
                final(self)@,
                dma,
                len as int,
                pid,
                toggle,
                ioc,
                port::since(final(port).log(), old(port).log()),
                result,
            ),
            result is Ok ==> result->Ok_0 < QTD_COUNT && !final(self).qtds.is_free(result->Ok_0)
                && old(self).qtds.is_free(result->Ok_0),
            final(self).ring == old(self).ring,
            final(self).faulted == old(self).faulted,
            final(self).ports == old(self).ports,
    {
        let ghost start = port.log();
        proof {
            assert(start + Seq::<Exchange>::empty() =~= start);
            port::lemma_grown(start, Seq::empty());
        }
        let address: u64 = match dma {
            Some(address) => address,
            None => {
                if len != 0 {
                    return Err("EHCI qTD payload has no DMA mapping");
                }
                0
            },
        };
        if len != 0 {
            match validate_qtd_dma_region(address, len) {
                Ok(_) => {},
                Err(error) => {
                    return Err(error);
                },
            }
        }
        let index: usize = match self.qtds.take() {
            Some(index) => index,
            None => {
                return Err("EHCI qTD pool exhausted");
            },
        };
        let mut qtd = EhciQtdHw::default();
        let mut token: u32 = 0xc80 + pid * 0x100;
        if toggle {
            token = token + 0x8000_0000;
        }
        if ioc {
            token = token + 0x8000;
        }
        if len != 0 {
            token = token + (len as u32) * 0x10000;
            qtd.buf0 = page_word(address, len, 0);
            qtd.buf1 = page_word(address, len, 1);
            qtd.buf2 = page_word(address, len, 2);
            qtd.buf3 = page_word(address, len, 3);
            qtd.buf4 = page_word(address, len, 4);
        }
        qtd.token = token;
        qtd.next = regs::QTD_TERMINATE;
        qtd.alt_next = regs::QTD_TERMINATE;
        let words: [u32; 8] = [
            qtd.next,
            qtd.alt_next,
            qtd.token,
            qtd.buf0,
            qtd.buf1,
            qtd.buf2,
            qtd.buf3,
            qtd.buf4,
        ];
        let at: u32 = self.qtd_dma(index);
        port.store_words(at as u64, &words);
        proof {
            assert(words@ =~= qtd.words());
            assert(qtd == qtd_of(
                if dma is Some {
                    dma->0 as int
                } else {
                    0
                },
                len as int,
                pid,
                toggle,
                ioc,
            ));
            port::lemma_grown(
                start,
                port::words_stored(qtd_at(self.qtd_base, index as int) as int, qtd.words()),
            );
        }
        Ok(index)
    }

    /// Maps a payload and makes the transfer of it.
    pub fn build_mapped_qtd<F: FnMut(Access) -> u64>(
        &mut self,
        port: &mut Port<F>,
        bytes: &Vec<u8>,
        offset: usize,
        from_device: bool,
        pid: u32,
        toggle: bool,
        ioc: bool,
    ) -> (result: Result<(usize, TransferDma), &'static str>)
        requires
            old(self).sound(),
            old(port).wf(),
            pid <= 2,
            bytes@.len() > 0,
        ensures
            final(self).sound(),
            final(port).wf(),
            final(port).performs() == old(port).performs(),
            port::grown(final(port).log(), old(port).log()),
            exists|w: PieceRun| #[trigger]
                piece_built(
                    w,
                    old(self)@,
                    final(self)@,
                    bytes@,
                    offset,
                    from_device,
                    pid,
                    toggle,
                    ioc,
                    port::since(final(port).log(), old(port).log()),
                    result,
                ),
            result matches Ok(piece) ==> piece.0 < QTD_COUNT && old(self).qtds.free@.len() > 0
                && piece.0 == old(self).qtds.free@.last() && final(self).qtds.free@ == old(self).qtds.free@.drop_last() && !final(self).qtds.is_free(piece.0) && piece.1.offset
                == offset && piece.1.len == bytes@.len() && piece.1.from_device == from_device,
            final(self).ring == old(self).ring,
            final(self).faulted == old(self).faulted,
            final(self).ports == old(self).ports,
    {
        reveal(piece_built);
        let ghost start = port.log();
        let ghost before = self@;
        let ghost mut w: PieceRun = arbitrary();
        let map_result = map_transfer_buffer(port, bytes, offset, from_device);
        let ghost map_trace = port::since(port.log(), start);
        proof {
            let map = choose|map: MapRun| #[trigger]
                mapped(map, bytes@, offset, from_device, map_trace, map_result);
            w = PieceRun { map, map_trace, map_result, ..w };
        }
        let mapping = match map_result {
            Ok(mapping) => mapping,
            Err(error) => {
                assert(piece_built(
                    w,
                    before,
                    self@,
                    bytes@,
                    offset,
                    from_device,
                    pid,
                    toggle,
                    ioc,
                    map_trace,
                    Err(error),
                ));
                return Err(error);
            },
        };
        let ghost middle = port.log();
        let build_result = self.build_qtd(
            port,
            Some(mapping.dma),
            bytes.len(),
            pid,
            toggle,
            ioc,
        );
        let ghost build_trace = port::since(port.log(), middle);
        proof {
            w = PieceRun { build_trace, build_result, ..w };
            assert(port.log() =~= start + (map_trace + build_trace));
            port::lemma_grown(start, map_trace + build_trace);
        }
        match build_result {
            Ok(index) => {
                assert(piece_built(
                    w,
                    before,
                    self@,
                    bytes@,
                    offset,
                    from_device,
                    pid,
                    toggle,
                    ioc,
                    map_trace + build_trace,
                    Ok((index, mapping)),
                ));
                Ok((index, mapping))
            },
            Err(error) => {
                port.release_buffer(mapping.dma);
                proof {
                    let trace = map_trace + build_trace + seq![port::buffer_released(mapping.dma)];
                    assert(port.log() =~= start + trace);
                    port::lemma_grown(start, trace);
                    assert(piece_built(
                        w,
                        before,
                        self@,
                        bytes@,
                        offset,
                        from_device,
                        pid,
                        toggle,
                        ioc,
                        trace,
                        Err(error),
                    ));
                }
                Err(error)
            },
        }
    }
}

} // verus!
