//! Binding of the Ethernet controllers of the board.

use vstd::prelude::*;
use crate::gmac::mac;
use crate::gmac::mac::{DmaReset, GmacMac, RING_SIZE, RX_BUFFER_SIZE, TX_BUFFER_SIZE};
use crate::gmac::phy;
use crate::gmac::phy::{BringupRun, phy_bringup};
use crate::gmac::regs;
use crate::platform;
use crate::platform::{PnpError, PnpResourceKind, has_id};
use crate::port;
use crate::port::{Access, Exchange, Port};
use crate::text;

verus! {

pub const COMPAT_LS2K_GMAC: &'static str = "snps,dwmac-3.70a";

pub const COMPAT_LS_GMAC: &'static str = "ls,ls-gmac";

/// What stands for the path of a controller that firmware gives none.
pub const DEFAULT_PATH: &'static str = "ls2k-gmac";

/// The longest packet of the network, without its header.
pub const MTU: u32 = 1500;

/// The driver, with the function that maps the registers of a device.
pub struct Ls2kGmacDriver<M> {
    pub device_mmio_to_virt: M,
}

impl<M> Ls2kGmacDriver<M> {
    pub fn new(device_mmio_to_virt: M) -> (driver: Self)
        ensures
            driver.device_mmio_to_virt == device_mmio_to_virt,
    {
        Ls2kGmacDriver { device_mmio_to_virt }
    }
}

/// Whether a device with these names is a controller of this driver.
pub fn matches_platform(ids: &Vec<String>) -> (matching: bool)
    ensures
        matching == (platform::compatible(ids@, COMPAT_LS2K_GMAC@) || platform::compatible(
            ids@,
            COMPAT_LS_GMAC@,
        )),
{
    has_id(ids, COMPAT_LS2K_GMAC) || has_id(ids, COMPAT_LS_GMAC)
}

/// A hash of bytes: each is folded in and the hash multiplied by a prime.
pub open spec fn path_hash(bytes: Seq<u8>) -> u64
    decreases bytes.len(),
{
    if bytes.len() == 0 {
        0xcbf29ce484222325
    } else {
        (((path_hash(bytes.drop_last()) ^ (bytes.last() as u64)) * 0x100000001b3)
            % 0x1_0000_0000_0000_0000) as u64
    }
}

/// The low four bytes of a hash, the highest first.
pub open spec fn low_bytes(hash: u64) -> Seq<u8> {
    seq![
        (hash / 0x100_0000 % 256) as u8,
        (hash / 0x1_0000 % 256) as u8,
        (hash / 0x100 % 256) as u8,
        (hash % 256) as u8,
    ]
}

/// Four bytes that are a controller's own.
pub fn hash_mac_suffix(path: &[u8]) -> (suffix: [u8; 4])
    ensures
        suffix@ == low_bytes(path_hash(path@)),
{
    let mut hash: u64 = 0xcbf29ce484222325;
    let mut i: usize = 0;
    assert(path@.take(0) =~= Seq::<u8>::empty());
    while i < path.len()
        invariant
            i <= path@.len(),
            hash == path_hash(path@.take(i as int)),
        decreases path@.len() - i,
    {
        proof {
            let upto = path@.take(i + 1);
            assert(upto.drop_last() =~= path@.take(i as int));
            assert(upto.last() == path@[i as int]);
        }
        let folded: u64 = hash ^ (path[i] as u64);
        let product: u128 = (folded as u128) * 0x100000001b3;
        hash = (product % 0x1_0000_0000_0000_0000) as u64;
        i += 1;
    }
    assert(path@.take(i as int) =~= path@);
    let suffix: [u8; 4] = [
        (hash / 0x100_0000 % 256) as u8,
        (hash / 0x1_0000 % 256) as u8,
        (hash / 0x100 % 256) as u8,
        (hash % 256) as u8,
    ];
    assert(suffix@ =~= low_bytes(path_hash(path@)));
    suffix
}

/// The address of a controller: administered by this machine, with the bytes of its
/// place and its bus.
pub open spec fn local_address(path: Seq<u8>, bus_id: u32) -> Seq<u8> {
    seq![0x02u8] + low_bytes(path_hash(path)) + seq![(bus_id % 256) as u8]
}

pub fn mac_address(path: &[u8], bus_id: u32) -> (address: [u8; 6])
    ensures
        address@ == local_address(path@, bus_id),
{
    let suffix = hash_mac_suffix(path);
    let address: [u8; 6] = [
        0x02,
        suffix[0],
        suffix[1],
        suffix[2],
        suffix[3],
        (bus_id % 256) as u8,
    ];
    assert(address@ =~= local_address(path@, bus_id));
    address
}

/// Bit 1 of the first byte says that an address is administered by the machine, and
/// bit 0 that it belongs to a group: no controller gets an address of a group.
pub proof fn addresses_are_local(path: Seq<u8>, bus_id: u32)
    ensures
        local_address(path, bus_id).len() == 6,
        local_address(path, bus_id)[0] / 2 % 2 == 1,
        local_address(path, bus_id)[0] % 2 == 0,
{
}

/// Why the registers of a device cannot be those of a controller.
pub open spec fn window_error(first: Option<(usize, usize)>) -> Option<PnpError> {
    match first {
        None => Some(PnpError::Missing(PnpResourceKind::Mmio, "gmac reg missing")),
        Some(range) => if range.1 < 0x1100 {
            Some(PnpError::Malformed(PnpResourceKind::Mmio, "gmac register window too small"))
        } else {
            None
        },
    }
}

pub fn check_window(first: Option<(usize, usize)>) -> (result: Result<(usize, usize), PnpError>)
    ensures
        match result {
            Ok(range) => window_error(first) is None && first == Some(range),
            Err(error) => window_error(first) == Some(error),
        },
{
    match first {
        None => Err(PnpError::Missing(PnpResourceKind::Mmio, "gmac reg missing")),
        Some(range) => {
            if range.1 < 0x1100 {
                Err(PnpError::Malformed(PnpResourceKind::Mmio, "gmac register window too small"))
            } else {
                Ok(range)
            }
        },
    }
}

/// Why an interrupt could not be had.
#[derive(Clone, Copy, PartialEq, Eq, Structural, Debug)]
pub enum IrqRegistrationError {
    NoResource,
    /// Its controller, or the default one, is not there yet.
    Unresolved(Option<u32>),
    RegistrationFailed,
}

pub fn map_irq_error(error: IrqRegistrationError) -> (mapped: PnpError)
    ensures
        mapped == irq_fault(error),
{
    match error {
        IrqRegistrationError::NoResource => PnpError::Missing(
            PnpResourceKind::Irq,
            "gmac macirq missing",
        ),
        IrqRegistrationError::Unresolved(controller) => PnpError::NeedsIrqDomain(controller),
        IrqRegistrationError::RegistrationFailed => PnpError::RegistrationFailed(
            PnpResourceKind::Irq,
            "gmac macirq registration failed",
        ),
    }
}

/// The name of a network device.
pub fn device_name(bus_id: u32) -> (name: Vec<char>)
    ensures
        name@ == "eth"@ + text::decimal(bus_id as nat),
{
    text::numbered("eth", bus_id)
}

/// Memory for packets.
#[derive(Clone, Copy, PartialEq, Eq, Structural, Debug)]
pub struct PoolRequest {
    pub count: usize,
    pub size: usize,
    pub align: usize,
    pub to_device: bool,
    pub shared: bool,
}

/// Which memory for packets it is.
#[derive(Clone, Copy, PartialEq, Eq, Structural, Debug)]
pub enum PoolKind {
    Receive,
    SendHeaders,
    SendPayloads,
    SendFromSockets,
}

/// The memory that a controller needs: as much as its rings hold, and for sockets a
/// multiple of that, as far as it can be counted.
pub open spec fn pool_of(kind: PoolKind, depth_multiplier: usize) -> PoolRequest {
    let deep = RING_SIZE * depth_multiplier;
    match kind {
        PoolKind::Receive => PoolRequest {
            count: RING_SIZE,
            size: RX_BUFFER_SIZE,
            align: 64,
            to_device: false,
            shared: false,
        },
        PoolKind::SendHeaders => PoolRequest {
            count: 8,
            size: 64,
            align: 64,
            to_device: true,
            shared: false,
        },
        PoolKind::SendPayloads => PoolRequest {
            count: RING_SIZE,
            size: TX_BUFFER_SIZE,
            align: 64,
            to_device: true,
            shared: true,
        },
        PoolKind::SendFromSockets => PoolRequest {
            count: if deep > usize::MAX {
                usize::MAX
            } else {
                deep as usize
            },
            size: TX_BUFFER_SIZE,
            align: 64,
            to_device: true,
            shared: true,
        },
    }
}

pub fn pool_request(kind: PoolKind, depth_multiplier: usize) -> (request: PoolRequest)
    ensures
        request == pool_of(kind, depth_multiplier),
{
    match kind {
        PoolKind::Receive => PoolRequest {
            count: RING_SIZE,
            size: RX_BUFFER_SIZE,
            align: 64,
            to_device: false,
            shared: false,
        },
        PoolKind::SendHeaders => PoolRequest {
            count: 8,
            size: 64,
            align: 64,
            to_device: true,
            shared: false,
        },
        PoolKind::SendPayloads => PoolRequest {
            count: RING_SIZE,
            size: TX_BUFFER_SIZE,
            align: 64,
            to_device: true,
            shared: true,
        },
        PoolKind::SendFromSockets => PoolRequest {
            count: match RING_SIZE.checked_mul(depth_multiplier) {
                Some(count) => count,
                None => usize::MAX,
            },
            size: TX_BUFFER_SIZE,
            align: 64,
            to_device: true,
            shared: true,
        },
    }
}

/// What is to be done next for a controller that runs.
#[derive(Clone, Copy, PartialEq, Eq, Debug)]
pub enum BindStep {
    RegisterInterrupt,
    MakePool(PoolKind),
    RegisterDevice,
    Finished(Result<(), PnpError>),
}

/// What came of a step.
#[derive(Clone, Copy, PartialEq, Eq, Debug)]
pub enum BindEvent {
    Done,
    InterruptRefused(IrqRegistrationError),
    Refused,
}

/// The fault by which an interrupt that cannot be had is known.
pub open spec fn irq_fault(error: IrqRegistrationError) -> PnpError {
    match error {
        IrqRegistrationError::NoResource => PnpError::Missing(
            PnpResourceKind::Irq,
            "gmac macirq missing",
        ),
        IrqRegistrationError::Unresolved(controller) => PnpError::NeedsIrqDomain(controller),
        IrqRegistrationError::RegistrationFailed => PnpError::RegistrationFailed(
            PnpResourceKind::Irq,
            "gmac macirq registration failed",
        ),
    }
}

/// The step after a step: the interrupt, then memory, then the device itself.
pub open spec fn bound(step: BindStep, event: BindEvent) -> BindStep {
    match (step, event) {
        (BindStep::Finished(result), _) => BindStep::Finished(result),
        (BindStep::RegisterInterrupt, BindEvent::Done) => BindStep::MakePool(PoolKind::Receive),
        (BindStep::RegisterInterrupt, BindEvent::InterruptRefused(error)) => BindStep::Finished(
            Err(irq_fault(error)),
        ),
        (BindStep::RegisterInterrupt, BindEvent::Refused) => BindStep::Finished(
            Err(irq_fault(IrqRegistrationError::RegistrationFailed)),
        ),
        (BindStep::MakePool(PoolKind::Receive), BindEvent::Done) => BindStep::MakePool(
            PoolKind::SendHeaders,
        ),
        (BindStep::MakePool(PoolKind::SendHeaders), BindEvent::Done) => BindStep::MakePool(
            PoolKind::SendPayloads,
        ),
        (BindStep::MakePool(PoolKind::SendPayloads), BindEvent::Done) => BindStep::MakePool(
            PoolKind::SendFromSockets,
        ),
        (BindStep::MakePool(PoolKind::SendFromSockets), BindEvent::Done) => BindStep::RegisterDevice,
        (BindStep::MakePool(_), _) => BindStep::Finished(Err(PnpError::OutOfMemory)),
        (BindStep::RegisterDevice, BindEvent::Done) => BindStep::Finished(Ok(())),
        (BindStep::RegisterDevice, _) => BindStep::Finished(
            Err(PnpError::HardwareFailure("gmac net device registration failed")),
        ),
    }
}

pub fn advance_binding(step: BindStep, event: BindEvent) -> (next: BindStep)
    ensures
        next == bound(step, event),
{
    match (step, event) {
        (BindStep::Finished(result), _) => BindStep::Finished(result),
        (BindStep::RegisterInterrupt, BindEvent::Done) => BindStep::MakePool(PoolKind::Receive),
        (BindStep::RegisterInterrupt, BindEvent::InterruptRefused(error)) => BindStep::Finished(
            Err(map_irq_error(error)),
        ),
        (BindStep::RegisterInterrupt, BindEvent::Refused) => BindStep::Finished(
            Err(map_irq_error(IrqRegistrationError::RegistrationFailed)),
        ),
        (BindStep::MakePool(PoolKind::Receive), BindEvent::Done) => BindStep::MakePool(
            PoolKind::SendHeaders,
        ),
        (BindStep::MakePool(PoolKind::SendHeaders), BindEvent::Done) => BindStep::MakePool(
            PoolKind::SendPayloads,
        ),
        (BindStep::MakePool(PoolKind::SendPayloads), BindEvent::Done) => BindStep::MakePool(
            PoolKind::SendFromSockets,
        ),
        (BindStep::MakePool(PoolKind::SendFromSockets), BindEvent::Done) => BindStep::RegisterDevice,
        (BindStep::MakePool(_), _) => BindStep::Finished(Err(PnpError::OutOfMemory)),
        (BindStep::RegisterDevice, BindEvent::Done) => BindStep::Finished(Ok(())),
        (BindStep::RegisterDevice, _) => BindStep::Finished(
            Err(PnpError::HardwareFailure("gmac net device registration failed")),
        ),
    }
}

/// A controller that runs.
#[derive(Clone, Copy, PartialEq, Eq, Structural, Debug)]
pub struct Running {
    pub mac: GmacMac,
    pub speed_mbps: u32,
    pub full_duplex: bool,
}

/// How a controller was started.
pub ghost struct StartRun {
    pub rx: u64,
    pub tx: u64,
    pub buffers: u64,
    pub memory_trace: Seq<Exchange>,
    pub memory: Result<GmacMac, &'static str>,
    pub reset: DmaReset,
    pub reset_trace: Seq<Exchange>,
    pub reset_result: Result<(), &'static str>,
    pub phy: BringupRun,
    pub phy_trace: Seq<Exchange>,
    pub link: Result<(u32, bool), &'static str>,
    pub control: u32,
}

/// The accesses by which the rings of a controller are emptied.
pub open spec fn rings_cleared(mac: GmacMac) -> Seq<Exchange> {
    mac::ring_cleared(mac.tx_ring, RING_SIZE as int) + mac::ring_cleared(
        mac.rx_ring,
        RING_SIZE as int,
    ) + seq![port::flushed(mac.rx_ring as usize), port::flushed(mac.tx_ring as usize)]
}

/// The accesses by which the memory of a controller is given back.
pub open spec fn memory_released(mac: GmacMac) -> Seq<Exchange> {
    seq![
        port::buffer_released(mac.rx_ring),
        port::buffer_released(mac.tx_ring),
        port::buffer_released(mac.tx_buffers),
    ]
}

/// The accesses by which a controller begins to run.
pub open spec fn set_going(
    address: Seq<u8>,
    speed_mbps: u32,
    full_duplex: bool,
    control: u32,
) -> Seq<Exchange> {
    mac::mac_set_up(address, speed_mbps, full_duplex) + seq![
        port::r32(regs::DMA_CONTROL, control),
        port::w32(
            regs::DMA_CONTROL,
            control | regs::DMA_CONTROL_ST | regs::DMA_CONTROL_SR,
        ),
    ]
}

/// Whether a controller was started so. If that fails its memory is given back.
pub open spec fn controller_started(
    w: StartRun,
    address: Seq<u8>,
    trace: Seq<Exchange>,
    result: Result<Running, PnpError>,
) -> bool {
    &&& mac::memory_got(w.rx, w.tx, w.buffers, w.memory_trace, w.memory)
    &&& match w.memory {
        Err(_) => {
            trace == w.memory_trace && result == Err::<Running, PnpError>(PnpError::OutOfMemory)
        },
        Ok(mac) => {
            let reset = w.memory_trace + rings_cleared(mac) + w.reset_trace;
            &&& mac::dma_was_reset(w.reset, w.reset_trace, w.reset_result)
            &&& if w.reset_result is Err {
                &&& trace == reset + memory_released(mac)
                &&& result == Err::<Running, PnpError>(
                    PnpError::HardwareFailure("gmac dma reset failed"),
                )
            } else {
                let asked = reset + mac::dma_set_up(mac) + w.phy_trace;
                &&& phy::brought_up(w.phy, w.phy_trace, w.link)
                &&& match w.link {
                    Err(error) => {
                        &&& trace == asked + memory_released(mac)
                        &&& result == Err::<Running, PnpError>(PnpError::HardwareFailure(error))
                    },
                    Ok(link) => {
                        &&& trace == asked + set_going(address, link.0, link.1, w.control)
                        &&& result == Ok::<Running, PnpError>(
                            Running { mac, speed_mbps: link.0, full_duplex: link.1 },
                        )
                    },
                }
            }
        },
    }
}

fn release_memory<F: FnMut(Access) -> u64>(port: &mut Port<F>, mac: GmacMac)
    requires
        old(port).wf(),
    ensures
        final(port).wf(),
        final(port).performs() == old(port).performs(),
        final(port).log() == old(port).log() + memory_released(mac),
{
    let ghost start = port.log();
    port.release_buffer(mac.rx_ring);
    port.release_buffer(mac.tx_ring);
    port.release_buffer(mac.tx_buffers);
    assert(port.log() =~= start + memory_released(mac));
}

/// Starts a controller.
#[verifier::rlimit(40)]
pub fn start_controller<F: FnMut(Access) -> u64>(port: &mut Port<F>, address: [u8; 6]) -> (result:
    Result<Running, PnpError>)
    requires
        old(port).wf(),
    ensures
        final(port).wf(),
        final(port).performs() == old(port).performs(),
        port::grown(final(port).log(), old(port).log()),
        exists|w: StartRun| #[trigger]
            controller_started(
                w,
                address@,
                port::since(final(port).log(), old(port).log()),
                result,
            ),
{
    let ghost start = port.log();
    let ghost mut w: StartRun = arbitrary();
    let memory = GmacMac::new(port);
    let ghost memory_trace = port::since(port.log(), start);
    proof {
        let (rx, tx, buffers) = choose|rx: u64, tx: u64, buffers: u64| #[trigger]
            mac::memory_got(rx, tx, buffers, memory_trace, memory);
        w = StartRun { rx, tx, buffers, memory_trace, memory, ..w };
    }
    let mac: GmacMac = match memory {
        Ok(mac) => mac,
        Err(_) => {
            let result: Result<Running, PnpError> = Err(PnpError::OutOfMemory);
            assert(controller_started(w, address@, memory_trace, result));
            return result;
        },
    };
    mac.init_rings(port);
    let ghost middle = port.log();
    assert(middle =~= start + (memory_trace + rings_cleared(mac)));
    let reset_result = GmacMac::dma_reset(port);
    let ghost reset_trace = port::since(port.log(), middle);
    let ghost reset = memory_trace + rings_cleared(mac) + reset_trace;
    proof {
        let run = choose|run: DmaReset| #[trigger]
            mac::dma_was_reset(run, reset_trace, reset_result);
        w = StartRun { reset: run, reset_trace, reset_result, ..w };
        assert(port.log() =~= start + reset);
    }
    if reset_result.is_err() {
        release_memory(port, mac);
        let result: Result<Running, PnpError> = Err(
            PnpError::HardwareFailure("gmac dma reset failed"),
        );
        proof {
            let trace = reset + memory_released(mac);
            assert(port.log() =~= start + trace);
            port::lemma_grown(start, trace);
            assert(controller_started(w, address@, trace, result));
        }
        return result;
    }
    mac.dma_init(port);
    let ghost before_phy = port.log();
    let link = phy_bringup(port);
    let ghost phy_trace = port::since(port.log(), before_phy);
    let ghost asked = reset + mac::dma_set_up(mac) + phy_trace;
    proof {
        let run = choose|run: BringupRun| #[trigger] phy::brought_up(run, phy_trace, link);
        w = StartRun { phy: run, phy_trace, link, ..w };
        assert(port.log() =~= start + asked);
    }
    let (speed_mbps, full_duplex) = match link {
        Ok(mode) => mode,
        Err(error) => {
            release_memory(port, mac);
            let result: Result<Running, PnpError> = Err(PnpError::HardwareFailure(error));
            proof {
                let trace = asked + memory_released(mac);
                assert(port.log() =~= start + trace);
                port::lemma_grown(start, trace);
                assert(controller_started(w, address@, trace, result));
            }
            return result;
        },
    };
    GmacMac::mac_init(port, address, speed_mbps, full_duplex);
    let ghost before_run = port.log();
    GmacMac::start_dma(port);
    let result: Result<Running, PnpError> = Ok(Running { mac, speed_mbps, full_duplex });
    proof {
        let control = choose|control: u32|
            port.log() == before_run + seq![
                #[trigger] port::r32(regs::DMA_CONTROL, control),
                port::w32(
                    regs::DMA_CONTROL,
                    control | regs::DMA_CONTROL_ST | regs::DMA_CONTROL_SR,
                ),
            ];
        w = StartRun { control, ..w };
        let trace = asked + set_going(address@, speed_mbps, full_duplex, control);
        assert(port.log() =~= start + trace);
        port::lemma_grown(start, trace);
        assert(controller_started(w, address@, trace, result));
    }
    result
}

} // verus!
