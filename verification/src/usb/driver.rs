//! Binding of the host controllers of the board.

use vstd::prelude::*;
use crate::platform;
use crate::platform::{PnpError, PnpResourceKind, has_id};
use crate::port;
use crate::port::{Access, Exchange, Port};
use crate::usb::bus;
use crate::usb::bus::{Call, PortOutcome, ScanStage, UsbBus, UsbHcd};

verus! {

pub const COMPAT_DWC2: &'static str = "loongson,loongson2-dwc2";

pub const COMPAT_EHCI: &'static str = "loongson,ls2k-ehci";

pub const COMPAT_OHCI: &'static str = "loongson,ls2k-ohci";

/// Where the board switches the prefetch of its controllers.
pub const LS2K1000_GENERAL_CFG1_PHYS: usize = 0x1fe0_0428;

pub const LS2K1000_USB_PREFETCH: u32 = 0x8_0000;

/// Which controller a device is.
#[derive(Clone, Copy, PartialEq, Eq, Structural, Debug)]
pub enum ScanKind {
    Ehci,
    Ohci,
    Dwc2,
}

/// The driver, with the function that maps the registers of a device.
pub struct Ls2kUsbDriver<M> {
    pub device_mmio_to_virt: M,
}

impl<M> Ls2kUsbDriver<M> {
    pub fn new(device_mmio_to_virt: M) -> (driver: Self)
        ensures
            driver.device_mmio_to_virt == device_mmio_to_virt,
    {
        Ls2kUsbDriver { device_mmio_to_virt }
    }
}

/// Which controller a device with these names is; the dual-role one comes first.
pub open spec fn kind_for(ids: Seq<String>) -> Option<ScanKind> {
    if platform::compatible(ids, COMPAT_DWC2@) {
        Some(ScanKind::Dwc2)
    } else if platform::compatible(ids, COMPAT_EHCI@) {
        Some(ScanKind::Ehci)
    } else if platform::compatible(ids, COMPAT_OHCI@) {
        Some(ScanKind::Ohci)
    } else {
        None
    }
}

pub fn kind_of(ids: &Vec<String>) -> (kind: Option<ScanKind>)
    ensures
        kind == kind_for(ids@),
{
    if has_id(ids, COMPAT_DWC2) {
        Some(ScanKind::Dwc2)
    } else if has_id(ids, COMPAT_EHCI) {
        Some(ScanKind::Ehci)
    } else if has_id(ids, COMPAT_OHCI) {
        Some(ScanKind::Ohci)
    } else {
        None
    }
}

/// What the board said to a request for one of its resources.
#[derive(Clone, Copy, PartialEq, Eq, Debug)]
pub enum ResourceAnswer {
    Granted,
    Disabled,
    Invalid,
    Failed(PnpError),
}

/// Whether a resource is to be used that the board may leave out: one that is not
/// described is done without.
pub fn use_optional_resource(answer: ResourceAnswer) -> (result: Result<bool, PnpError>)
    ensures
        result == match answer {
            ResourceAnswer::Granted => Ok::<bool, PnpError>(true),
            ResourceAnswer::Disabled | ResourceAnswer::Invalid => Ok(false),
            ResourceAnswer::Failed(error) => Err(error),
        },
{
    match answer {
        ResourceAnswer::Granted => Ok(true),
        ResourceAnswer::Disabled | ResourceAnswer::Invalid => Ok(false),
        ResourceAnswer::Failed(error) => Err(error),
    }
}

/// The accesses by which the prefetch is switched off.
pub open spec fn prefetch_cleared(register: usize, before: u32, after: u32) -> Seq<Exchange> {
    seq![port::fence(), port::r32(register, before)] + (if before & 0xfff7_ffff != before {
        seq![port::w32(register, before & 0xfff7_ffff)]
    } else {
        Seq::empty()
    }) + seq![port::fence(), port::r32(register, after), port::fence()]
}

/// Whether the prefetch was switched off so; other bits stay as they are.
pub open spec fn prefetch_disabled(
    before: u32,
    after: u32,
    register: usize,
    trace: Seq<Exchange>,
    result: Result<(), PnpError>,
) -> bool {
    &&& trace == prefetch_cleared(register, before, after)
    &&& result == (if after / LS2K1000_USB_PREFETCH % 2 == 1 {
        Err::<(), PnpError>(
            PnpError::HardwareFailure("ls2k1000 usb prefetch disable did not latch"),
        )
    } else {
        Ok(())
    })
}

/// Switches the prefetch of the controllers off.
pub fn disable_ehci_prefetch<F: FnMut(Access) -> u64>(port: &mut Port<F>, register: usize) -> (result:
    Result<(), PnpError>)
    requires
        old(port).wf(),
    ensures
        final(port).wf(),
        final(port).performs() == old(port).performs(),
        port::grown(final(port).log(), old(port).log()),
        exists|before: u32, after: u32| #[trigger]
            prefetch_disabled(
                before,
                after,
                register,
                port::since(final(port).log(), old(port).log()),
                result,
            ),
{
    let ghost start = port.log();
    port.barrier();
    let before: u32 = port.read32(register);
    let expected: u32 = before & 0xfff7_ffff;
    if expected != before {
        port.write32(register, expected);
    }
    port.barrier();
    let after: u32 = port.read32(register);
    port.barrier();
    let result: Result<(), PnpError> = if after / LS2K1000_USB_PREFETCH % 2 == 1 {
        Err(PnpError::HardwareFailure("ls2k1000 usb prefetch disable did not latch"))
    } else {
        Ok(())
    };
    proof {
        let trace = prefetch_cleared(register, before, after);
        assert(port.log() =~= start + trace);
        port::lemma_grown(start, trace);
        assert(prefetch_disabled(before, after, register, trace, result));
    }
    result
}

/// Where the registers of operation begin, if the capabilities can be believed.
pub open spec fn operation_offset(size: usize, capability: u32) -> Result<usize, PnpError> {
    let length = capability % 256;
    if size < 0x100 {
        Err(PnpError::Malformed(PnpResourceKind::Mmio, "ehci window too small"))
    } else if capability == u32::MAX || length < 0x10 || length >= size {
        Err(PnpError::HardwareFailure("ehci capability header invalid"))
    } else {
        Ok(length as usize)
    }
}

/// Whether the capabilities were looked at so.
pub open spec fn capability_checked(
    capability: u32,
    size: usize,
    trace: Seq<Exchange>,
    result: Result<usize, PnpError>,
) -> bool {
    &&& result == operation_offset(size, capability)
    &&& trace == if size < 0x100 {
        Seq::<Exchange>::empty()
    } else {
        seq![port::r32(0, capability)]
    }
}

/// Finds where the registers of operation begin.
pub fn find_operation_offset<F: FnMut(Access) -> u64>(port: &mut Port<F>, size: usize) -> (result:
    Result<usize, PnpError>)
    requires
        old(port).wf(),
    ensures
        final(port).wf(),
        final(port).performs() == old(port).performs(),
        port::grown(final(port).log(), old(port).log()),
        exists|capability: u32| #[trigger]
            capability_checked(
                capability,
                size,
                port::since(final(port).log(), old(port).log()),
                result,
            ),
        result matches Ok(op) ==> 0x10 <= op <= 0xff,
{
    let ghost start = port.log();
    if size < 0x100 {
        let result: Result<usize, PnpError> = Err(
            PnpError::Malformed(PnpResourceKind::Mmio, "ehci window too small"),
        );
        proof {
            assert(start + Seq::<Exchange>::empty() =~= start);
            port::lemma_grown(start, Seq::empty());
            assert(capability_checked(0, size, Seq::empty(), result));
        }
        return result;
    }
    let capability: u32 = port.read32(0);
    let length: u32 = capability % 256;
    let result: Result<usize, PnpError> = if capability == u32::MAX || length < 0x10
        || length as usize >= size {
        Err(PnpError::HardwareFailure("ehci capability header invalid"))
    } else {
        Ok(length as usize)
    };
    proof {
        let trace = seq![port::r32(0, capability)];
        assert(port.log() =~= start + trace);
        port::lemma_grown(start, trace);
        assert(capability_checked(capability, size, trace, result));
    }
    result
}

/// What a controller that did not start is reported as.
pub fn init_error(kind: ScanKind) -> (error: PnpError)
    ensures
        error == match kind {
            ScanKind::Ehci => PnpError::HardwareFailure("ehci init failed"),
            ScanKind::Ohci => PnpError::HardwareFailure("ohci init failed"),
            ScanKind::Dwc2 => PnpError::HardwareFailure("dwc2 init failed"),
        },
{
    match kind {
        ScanKind::Ehci => PnpError::HardwareFailure("ehci init failed"),
        ScanKind::Ohci => PnpError::HardwareFailure("ohci init failed"),
        ScanKind::Dwc2 => PnpError::HardwareFailure("dwc2 init failed"),
    }
}

/// The first registers of a device.
pub fn first_mmio(ranges: &Vec<(usize, usize)>) -> (result: Result<(usize, usize), PnpError>)
    ensures
        result == if ranges@.len() > 0 {
            Ok::<(usize, usize), PnpError>(ranges@[0])
        } else {
            Err(PnpError::Missing(PnpResourceKind::Mmio, "usb reg missing"))
        },
{
    if ranges.len() == 0 {
        Err(PnpError::Missing(PnpResourceKind::Mmio, "usb reg missing"))
    } else {
        Ok(ranges[0])
    }
}

/// Whether the first ports were powered.
pub open spec fn powered(calls: Seq<Call>, count: int) -> bool {
    &&& calls.len() == count
    &&& forall|i: int|
        0 <= i < count ==> (#[trigger] calls[i]) is PowerOn && calls[i]->on_port == i
            && calls[i]->power_result is Ok
}

/// Whether a bus was started so: its ports are powered in order, and then searched.
pub open spec fn bus_started(
    stages: Seq<ScanStage>,
    powering: Seq<Call>,
    ports: int,
    before: Seq<Call>,
    after: Seq<Call>,
    next: u8,
    result: Result<Seq<(usize, PortOutcome)>, PnpError>,
) -> bool {
    match result {
        Ok(outcomes) => {
            &&& powered(powering, ports)
            &&& bus::scanned(stages, ports, before + powering, 1, after, next, outcomes)
        },
        Err(error) => {
            &&& error == PnpError::HardwareFailure("usb port power failed")
            &&& 0 < powering.len() <= ports
            &&& powered(powering.drop_last(), powering.len() - 1)
            &&& powering.last() is PowerOn
            &&& powering.last()->on_port == powering.len() - 1
            &&& powering.last()->power_result is Err
            &&& after == before + powering
        },
    }
}

/// What a start found.
pub open spec fn found(result: Result<Vec<(usize, PortOutcome)>, PnpError>) -> Result<
    Seq<(usize, PortOutcome)>,
    PnpError,
> {
    match result {
        Ok(outcomes) => Ok(outcomes@),
        Err(error) => Err(error),
    }
}

/// Powers the ports of a new bus and searches them.
pub fn start_bus<H: UsbHcd>(usb: &mut UsbBus<H>) -> (result: Result<
    Vec<(usize, PortOutcome)>,
    PnpError,
>)
    requires
        old(usb).wf(),
        old(usb).next() == 1,
    ensures
        final(usb).wf(),
        exists|stages: Seq<ScanStage>, powering: Seq<Call>| #[trigger]
            bus_started(
                stages,
                powering,
                old(usb).the_hcd().ports() as int,
                old(usb).calls(),
                final(usb).calls(),
                final(usb).next(),
                found(result),
            ),
{
    let ghost before = usb.calls();
    let ghost mut powering: Seq<Call> = Seq::empty();
    let count: usize = usb.hcd.port_count();
    let ghost ports = count as int;
    let mut i: usize = 0;
    assert(before + powering =~= before);
    while i < count
        invariant
            i <= count,
            count == ports,
            usb.wf(),
            usb.next() == 1,
            usb.the_hcd().ports() == count,
            ports == old(usb).the_hcd().ports(),
            before == old(usb).calls(),
            powered(powering, i as int),
            usb.calls() == before + powering,
        decreases count - i,
    {
        let ghost earlier = powering;
        let power_result = usb.hcd.port_power_on(i);
        proof {
            powering = powering.push(Call::PowerOn { on_port: i, power_result });
            assert(usb.calls() =~= before + powering);
            assert(powering.drop_last() =~= earlier);
        }
        if power_result.is_err() {
            let result: Result<Vec<(usize, PortOutcome)>, PnpError> = Err(
                PnpError::HardwareFailure("usb port power failed"),
            );
            assert(bus_started(
                Seq::empty(),
                powering,
                ports,
                before,
                usb.calls(),
                usb.next(),
                found(result),
            ));
            return result;
        }
        assert forall|k: int| 0 <= k < i + 1 implies (#[trigger] powering[k]) is PowerOn
            && powering[k]->on_port == k && powering[k]->power_result is Ok by {
            if k < i {
                assert(powering[k] == earlier[k]);
            }
        }
        i += 1;
    }
    let ghost middle = usb.calls();
    let outcomes = usb.scan_ports();
    let ghost stages = choose|stages: Seq<ScanStage>| #[trigger]
        bus::scanned(stages, ports, middle, 1, usb.calls(), usb.next(), outcomes@);
    let result: Result<Vec<(usize, PortOutcome)>, PnpError> = Ok(outcomes);
    assert(bus_started(
        stages,
        powering,
        ports,
        before,
        usb.calls(),
        usb.next(),
        found(result),
    ));
    result
}

/// Whether the memory of a controller that is removed may be given back. One that
/// could not be stopped may still use it.
pub fn may_release(shutdown: Result<(), &'static str>) -> (release: bool)
    ensures
        release == (shutdown is Ok),
{
    shutdown.is_ok()
}

/// A word for an error.
pub fn pnp_error_message(error: PnpError) -> (message: &'static str)
    ensures
        message == match error {
            PnpError::OutOfMemory => "out of memory",
            PnpError::ProbeDeferred => "deferred",
            _ => "pnp error",
        },
{
    match error {
        PnpError::OutOfMemory => "out of memory",
        PnpError::ProbeDeferred => "deferred",
        _ => "pnp error",
    }
}

} // verus!
