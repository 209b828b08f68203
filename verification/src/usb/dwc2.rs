//! The host side of the dual-role controller.

use vstd::prelude::*;
use crate::port;
use crate::port::{Access, Exchange, Poll, PollTest, Port};
use crate::usb::bus::{Call, UsbHcd};
use crate::usb::ehci;
use crate::usb::ohci;
use crate::usb::ohci::{fetch, place};
use crate::usb::regs;
use crate::usb::regs::UsbSetup;

verus! {

pub const RESET_TIMEOUT_LOOPS: u32 = 200_000;

pub const CHANNEL_TIMEOUT_LOOPS: u32 = 400_000;

pub const CHANNEL_COUNT: usize = 8;

/// The host side of a dual-role controller.
pub struct Dwc2Hcd<F> {
    pub port: Port<F>,
    /// The channel that is used next.
    pub next_channel: usize,
    pub calls: Ghost<Seq<Call>>,
}

/// The register of a channel.
pub open spec fn chan(index: usize, offset: int) -> usize {
    (regs::DWC2_HCCHAR0 + index * regs::DWC2_HC_CHAN_STRIDE + offset) as usize
}

/// The channel behind another one.
pub open spec fn after_channel(index: usize) -> usize {
    if index + 1 < CHANNEL_COUNT {
        (index + 1) as usize
    } else {
        0
    }
}

/// What a transfer on a channel is.
#[derive(Clone, Copy, PartialEq, Eq, Structural, Debug)]
pub struct ChannelRequest {
    pub address: u8,
    pub ep: u8,
    pub data_in: bool,
    pub eptype: u32,
    pub mps: u32,
    pub pid: u32,
    pub size: usize,
    pub buffer: u32,
}

/// How many packets a transfer has.
pub open spec fn packet_count(size: int, mps: int) -> int {
    if size == 0 {
        1
    } else {
        (size + mps - 1) / mps
    }
}

/// The size word of a transfer.
pub open spec fn size_word(request: ChannelRequest) -> u32 {
    ((request.size as int % 0x1_0000_0000) as u32) | (((packet_count(
        request.size as int,
        request.mps as int,
    ) % 0x2000) * 0x8_0000) as u32) | request.pid
}

/// The characteristics of a transfer.
pub open spec fn char_word(request: ChannelRequest) -> u32 {
    let word = (((request.address % 128) * 0x40_0000) as u32) | (((request.ep % 16) * 0x800)
        as u32) | request.eptype | (request.mps % 0x800) as u32;
    (if request.data_in {
        word | regs::DWC2_HCCHAR_EPDIR
    } else {
        word
    }) | regs::DWC2_HCCHAR_CHENA
}

/// The accesses by which a channel is cleared and started.
pub open spec fn channel_started(channel: usize, request: ChannelRequest) -> Seq<Exchange> {
    seq![
        port::w32(chan(channel, 0), 0),
        port::w32(chan(channel, 4), 0),
        port::w32(chan(channel, 8), 0),
        port::w32(chan(channel, 12), 0),
        port::w32(chan(channel, 16), 0),
        port::w32(chan(channel, 8), regs::DWC2_HCINT_ALL),
        port::w32(chan(channel, 16), size_word(request)),
        port::w32(chan(channel, 20), request.buffer),
        port::fence(),
        port::w32(chan(channel, 0), char_word(request)),
    ]
}

/// What a channel's state says of a transfer that ended.
pub open spec fn channel_result(status: u64) -> Result<(), &'static str> {
    if status % 2 == 1 {
        Ok(())
    } else if status / 4 % 2 == 1 {
        Err("dwc2 channel stall")
    } else if status / 64 % 2 == 1 {
        Err("dwc2 channel transaction error")
    } else if status / 128 % 2 == 1 {
        Err("dwc2 channel babble")
    } else {
        Err("dwc2 channel halted")
    }
}

/// How a transfer on a channel went.
pub ghost struct PhaseRun {
    pub poll: Seq<Exchange>,
    pub ended: Option<u64>,
}

/// The test that a channel has ended.
pub open spec fn channel_ended() -> PollTest {
    ehci::any_set(3)
}

/// Whether a transfer on a channel went so.
pub open spec fn phase_done(
    w: PhaseRun,
    channel: usize,
    request: ChannelRequest,
    trace: Seq<Exchange>,
    result: Result<(), &'static str>,
) -> bool {
    &&& ehci::paced(chan(channel, 8), channel_ended(), CHANNEL_TIMEOUT_LOOPS, 2_000).done(
        w.poll,
        w.ended,
    )
    &&& match w.ended {
        None => {
            &&& trace == channel_started(channel, request) + w.poll
            &&& result == Err::<(), &'static str>("dwc2 channel timeout")
        },
        Some(status) => {
            &&& trace == channel_started(channel, request) + w.poll + seq![
                port::w32(chan(channel, 8), (status as u32) & regs::DWC2_HCINT_ALL),
            ]
            &&& result == channel_result(status)
        },
    }
}

/// Carries a transfer out on a channel.
fn run_phase<F: FnMut(Access) -> u64>(port: &mut Port<F>, channel: usize, request: ChannelRequest) -> (result:
    Result<(), &'static str>)
    requires
        old(port).wf(),
        channel < CHANNEL_COUNT,
        0 < request.mps,
    ensures
        final(port).wf(),
        final(port).performs() == old(port).performs(),
        port::grown(final(port).log(), old(port).log()),
        exists|w: PhaseRun| #[trigger]
            phase_done(
                w,
                channel,
                request,
                port::since(final(port).log(), old(port).log()),
                result,
            ),
{
    let ghost start = port.log();
    let base: usize = regs::DWC2_HCCHAR0 + channel * regs::DWC2_HC_CHAN_STRIDE;
    port.write32(base, 0);
    port.write32(base + 4, 0);
    port.write32(base + 8, 0);
    port.write32(base + 12, 0);
    port.write32(base + 16, 0);
    let packets: u128 = if request.size == 0 {
        1
    } else {
        (request.size as u128 + request.mps as u128 - 1) / (request.mps as u128)
    };
    port.write32(base + 8, regs::DWC2_HCINT_ALL);
    let size_bits: u32 = (request.size as u128 % 0x1_0000_0000) as u32;
    let packet_bits: u32 = ((packets % 0x2000) * 0x8_0000) as u32;
    port.write32(base + 16, size_bits | packet_bits | request.pid);
    port.write32(base + 20, request.buffer);
    port.barrier();
    let address_bits: u32 = ((request.address % 128) as u32) * 0x40_0000;
    let ep_bits: u32 = ((request.ep % 16) as u32) * 0x800;
    let mut word: u32 = address_bits | ep_bits | request.eptype | (request.mps % 0x800);
    if request.data_in {
        word = word | regs::DWC2_HCCHAR_EPDIR;
    }
    port.write32(base, word | regs::DWC2_HCCHAR_CHENA);
    assert(port.log() =~= start + channel_started(channel, request));
    let ghost middle = port.log();
    let ended = port.poll(
        Poll {
            offset: base + 8,
            wide: false,
            test: PollTest::any(3),
            tries: CHANNEL_TIMEOUT_LOOPS,
            pause_ns: Some(2_000),
        },
    );
    let ghost poll = port::since(port.log(), middle);
    let ghost w = PhaseRun { poll, ended };
    match ended {
        None => {
            proof {
                let trace = channel_started(channel, request) + poll;
                assert(port.log() =~= start + trace);
                port::lemma_grown(start, trace);
                assert(phase_done(w, channel, request, trace, Err("dwc2 channel timeout")));
            }
            Err("dwc2 channel timeout")
        },
        Some(status) => {
            port.write32(base + 8, (status as u32) & regs::DWC2_HCINT_ALL);
            let result: Result<(), &'static str> = if status % 2 == 1 {
                Ok(())
            } else if status / 4 % 2 == 1 {
                Err("dwc2 channel stall")
            } else if status / 64 % 2 == 1 {
                Err("dwc2 channel transaction error")
            } else if status / 128 % 2 == 1 {
                Err("dwc2 channel babble")
            } else {
                Err("dwc2 channel halted")
            };
            proof {
                let trace = channel_started(channel, request) + poll + seq![
                    port::w32(chan(channel, 8), (status as u32) & regs::DWC2_HCINT_ALL),
                ];
                assert(port.log() =~= start + trace);
                port::lemma_grown(start, trace);
                assert(phase_done(w, channel, request, trace, result));
            }
            result
        },
    }
}

/// A transfer of a request.
pub open spec fn control_request(
    address: u8,
    data_in: bool,
    pid: u32,
    buffer: int,
    size: usize,
) -> ChannelRequest {
    ChannelRequest {
        address,
        ep: 0,
        data_in,
        eptype: regs::DWC2_HCCHAR_EPTYPE_CONTROL,
        mps: 64,
        pid,
        size,
        buffer: ohci::low32(buffer),
    }
}

/// How a request was made.
pub ghost struct Dwc2Control {
    pub setup: u64,
    pub payload: u64,
    pub first: PhaseRun,
    pub first_trace: Seq<Exchange>,
    pub first_result: Result<(), &'static str>,
    pub second: PhaseRun,
    pub second_trace: Seq<Exchange>,
    pub second_result: Result<(), &'static str>,
    pub third: PhaseRun,
    pub third_trace: Seq<Exchange>,
    pub third_result: Result<(), &'static str>,
}

/// Whether a request was made so: the request itself, its data if there is any, and
/// its confirmation against the direction of the data, each on a channel of its own.
pub open spec fn control_phases(
    w: Dwc2Control,
    channel: usize,
    channel_after: usize,
    address: u8,
    len: usize,
    data_in: bool,
    trace: Seq<Exchange>,
    result: Result<usize, &'static str>,
) -> bool {
    let second_channel = after_channel(channel);
    let third_channel = if len == 0 {
        second_channel
    } else {
        after_channel(second_channel)
    };
    let before_third = w.first_trace + w.second_trace;
    &&& phase_done(
        w.first,
        channel,
        control_request(address, false, regs::DWC2_HCTSIZ_PID_SETUP, w.setup as int, 8),
        w.first_trace,
        w.first_result,
    )
    &&& if w.first_result is Err {
        &&& trace == w.first_trace
        &&& channel_after == second_channel
        &&& result == Err::<usize, &'static str>(w.first_result->Err_0)
    } else {
        &&& if len == 0 {
            w.second_trace == Seq::<Exchange>::empty() && w.second_result == Ok::<
                (),
                &'static str,
            >(())
        } else {
            phase_done(
                w.second,
                second_channel,
                control_request(
                    address,
                    data_in,
                    regs::DWC2_HCTSIZ_PID_DATA1,
                    w.payload as int,
                    len,
                ),
                w.second_trace,
                w.second_result,
            )
        }
        &&& if w.second_result is Err {
            &&& trace == before_third
            &&& channel_after == third_channel
            &&& result == Err::<usize, &'static str>(w.second_result->Err_0)
        } else {
            &&& phase_done(
                w.third,
                third_channel,
                control_request(
                    address,
                    !data_in || len == 0,
                    regs::DWC2_HCTSIZ_PID_DATA1,
                    0,
                    0,
                ),
                w.third_trace,
                w.third_result,
            )
            &&& trace == before_third + w.third_trace
            &&& channel_after == after_channel(third_channel)
            &&& result == match w.third_result {
                Ok(_) => Ok::<usize, &'static str>(len),
                Err(error) => Err(error),
            }
        }
    }
}

/// Makes a request of memory that the controller reaches.
fn run_phases<F: FnMut(Access) -> u64>(
    port: &mut Port<F>,
    next_channel: &mut usize,
    address: u8,
    setup: u64,
    payload: u64,
    len: usize,
    data_in: bool,
) -> (result: Result<usize, &'static str>)
    requires
        old(port).wf(),
        *old(next_channel) < CHANNEL_COUNT,
    ensures
        final(port).wf(),
        final(port).performs() == old(port).performs(),
        *final(next_channel) < CHANNEL_COUNT,
        port::grown(final(port).log(), old(port).log()),
        exists|w: Dwc2Control|
            w.setup == setup && w.payload == payload && #[trigger] control_phases(
                w,
                *old(next_channel),
                *final(next_channel),
                address,
                len,
                data_in,
                port::since(final(port).log(), old(port).log()),
                result,
            ),
{
    let ghost start = port.log();
    let ghost mut w: Dwc2Control = arbitrary();
    proof {
        w = Dwc2Control { setup, payload, ..w };
    }
    let ghost channel0 = *next_channel;
    let first = ChannelRequest {
        address,
        ep: 0,
        data_in: false,
        eptype: regs::DWC2_HCCHAR_EPTYPE_CONTROL,
        mps: 64,
        pid: regs::DWC2_HCTSIZ_PID_SETUP,
        size: 8,
        buffer: (setup % 0x1_0000_0000) as u32,
    };
    let channel: usize = take_channel(next_channel);
    let first_result = run_phase(port, channel, first);
    let ghost first_trace = port::since(port.log(), start);
    proof {
        let run = choose|run: PhaseRun| #[trigger]
            phase_done(run, channel0, first, first_trace, first_result);
        w = Dwc2Control { first: run, first_trace, first_result, ..w };
    }
    if let Err(error) = first_result {
        assert(control_phases(
            w,
            channel0,
            *next_channel,
            address,
            len,
            data_in,
            first_trace,
            Err(error),
        ));
        return Err(error);
    }
    let ghost log1 = port.log();
    let ghost channel1 = *next_channel;
    let mut second_result: Result<(), &'static str> = Ok(());
    let ghost mut second_trace: Seq<Exchange> = Seq::empty();
    if len != 0 {
        let second = ChannelRequest {
            data_in,
            pid: regs::DWC2_HCTSIZ_PID_DATA1,
            size: len,
            buffer: (payload % 0x1_0000_0000) as u32,
            ..first
        };
        let channel: usize = take_channel(next_channel);
        second_result = run_phase(port, channel, second);
        proof {
            second_trace = port::since(port.log(), log1);
            let run = choose|run: PhaseRun| #[trigger]
                phase_done(run, channel1, second, second_trace, second_result);
            w = Dwc2Control { second: run, ..w };
        }
    }
    proof {
        w = Dwc2Control { second_trace, second_result, ..w };
        assert(port.log() =~= start + (first_trace + second_trace));
        port::lemma_grown(start, first_trace + second_trace);
    }
    if let Err(error) = second_result {
        assert(control_phases(
            w,
            channel0,
            *next_channel,
            address,
            len,
            data_in,
            first_trace + second_trace,
            Err(error),
        ));
        return Err(error);
    }
    let ghost log2 = port.log();
    let ghost channel2 = *next_channel;
    let third = ChannelRequest {
        data_in: !data_in || len == 0,
        pid: regs::DWC2_HCTSIZ_PID_DATA1,
        size: 0,
        buffer: 0,
        ..first
    };
    let channel: usize = take_channel(next_channel);
    let third_result = run_phase(port, channel, third);
    let result: Result<usize, &'static str> = match third_result {
        Ok(_) => Ok(len),
        Err(error) => Err(error),
    };
    proof {
        let third_trace = port::since(port.log(), log2);
        let run = choose|run: PhaseRun| #[trigger]
            phase_done(run, channel2, third, third_trace, third_result);
        w = Dwc2Control { third: run, third_trace, third_result, ..w };
        let trace = first_trace + second_trace + third_trace;
        assert(port.log() =~= start + trace);
        port::lemma_grown(start, trace);
        assert(control_phases(
            w,
            channel0,
            *next_channel,
            address,
            len,
            data_in,
            trace,
            result,
        ));
    }
    result
}

/// Takes the next channel; they are used in turn.
fn take_channel(next_channel: &mut usize) -> (channel: usize)
    requires
        *old(next_channel) < CHANNEL_COUNT,
    ensures
        channel == *old(next_channel),
        *final(next_channel) == after_channel(*old(next_channel)),
{
    let channel: usize = *next_channel;
    *next_channel = if channel + 1 < CHANNEL_COUNT {
        channel + 1
    } else {
        0
    };
    channel
}

/// Whether a request was made so, with its memory.
pub open spec fn dwc2_control(
    w: Dwc2Control,
    run_trace: Seq<Exchange>,
    channel: usize,
    channel_after: usize,
    address: u8,
    setup: UsbSetup,
    data: Seq<u8>,
    data_in: bool,
    data_after: Seq<u8>,
    trace: Seq<Exchange>,
    result: Result<usize, &'static str>,
) -> bool {
    &&& control_phases(
        w,
        channel,
        channel_after,
        address,
        data.len() as usize,
        data_in,
        run_trace,
        result,
    )
    &&& data_after.len() == data.len()
    &&& !data_in ==> data_after == data
    &&& trace == ohci::placed(setup.bytes(), w.setup) + ohci::placed(data, w.payload) + run_trace
        + ohci::fetched(data_after, w.payload, data_in) + ohci::fetched(
        setup.bytes(),
        w.setup,
        false,
    )
}

/// A transfer of data.
pub open spec fn data_request(
    address: u8,
    ep: u8,
    data_in: bool,
    interrupt: bool,
    len: usize,
    payload: u64,
) -> ChannelRequest {
    ChannelRequest {
        address,
        ep: ep % 16,
        data_in,
        eptype: if interrupt {
            regs::DWC2_HCCHAR_EPTYPE_INTERRUPT
        } else {
            regs::DWC2_HCCHAR_EPTYPE_BULK
        },
        mps: if interrupt {
            64
        } else {
            512
        },
        pid: regs::DWC2_HCTSIZ_PID_DATA1,
        size: len,
        buffer: ohci::low32(payload as int),
    }
}

/// How data was transferred.
pub ghost struct Dwc2Data {
    pub payload: u64,
    pub run: PhaseRun,
    pub run_trace: Seq<Exchange>,
    pub run_result: Result<(), &'static str>,
}

/// Whether data was transferred so.
pub open spec fn dwc2_data(
    w: Dwc2Data,
    channel: usize,
    address: u8,
    ep: u8,
    data: Seq<u8>,
    data_in: bool,
    interrupt: bool,
    data_after: Seq<u8>,
    trace: Seq<Exchange>,
    result: Result<usize, &'static str>,
) -> bool {
    &&& phase_done(
        w.run,
        channel,
        data_request(address, ep, data_in, interrupt, data.len() as usize, w.payload),
        w.run_trace,
        w.run_result,
    )
    &&& data_after.len() == data.len()
    &&& !data_in ==> data_after == data
    &&& trace == ohci::placed(data, w.payload) + w.run_trace + ohci::fetched(
        data_after,
        w.payload,
        data_in,
    )
    &&& result == match w.run_result {
        Ok(_) => Ok::<usize, &'static str>(data.len() as usize),
        Err(error) => Err(error),
    }
}

/// Transfers data.
fn run_data<F: FnMut(Access) -> u64>(
    port: &mut Port<F>,
    next_channel: &mut usize,
    address: u8,
    ep: u8,
    data: &mut Vec<u8>,
    data_in: bool,
    interrupt: bool,
) -> (result: Result<usize, &'static str>)
    requires
        old(port).wf(),
        *old(next_channel) < CHANNEL_COUNT,
    ensures
        final(port).wf(),
        final(port).performs() == old(port).performs(),
        *final(next_channel) == after_channel(*old(next_channel)),
        final(data)@.len() == old(data)@.len(),
        port::grown(final(port).log(), old(port).log()),
        exists|w: Dwc2Data| #[trigger]
            dwc2_data(
                w,
                *old(next_channel),
                address,
                ep,
                old(data)@,
                data_in,
                interrupt,
                final(data)@,
                port::since(final(port).log(), old(port).log()),
                result,
            ),
{
    let ghost start = port.log();
    let ghost given = data@;
    let payload: u64 = place(port, data);
    let request = ChannelRequest {
        address,
        ep: ep % 16,
        data_in,
        eptype: if interrupt {
            regs::DWC2_HCCHAR_EPTYPE_INTERRUPT
        } else {
            regs::DWC2_HCCHAR_EPTYPE_BULK
        },
        mps: if interrupt {
            64
        } else {
            512
        },
        pid: regs::DWC2_HCTSIZ_PID_DATA1,
        size: data.len(),
        buffer: (payload % 0x1_0000_0000) as u32,
    };
    let channel: usize = take_channel(next_channel);
    let ghost middle = port.log();
    let run_result = run_phase(port, channel, request);
    let ghost run_trace = port::since(port.log(), middle);
    let ghost run = choose|run: PhaseRun| #[trigger]
        phase_done(run, channel, request, run_trace, run_result);
    fetch(port, payload, data, data_in);
    let result: Result<usize, &'static str> = match run_result {
        Ok(_) => Ok(data.len()),
        Err(error) => Err(error),
    };
    proof {
        let w = Dwc2Data { payload, run, run_trace, run_result };
        let trace = ohci::placed(given, payload) + run_trace + ohci::fetched(
            data@,
            payload,
            data_in,
        );
        assert(port.log() =~= start + trace);
        port::lemma_grown(start, trace);
        assert(dwc2_data(
            w,
            channel,
            address,
            ep,
            given,
            data_in,
            interrupt,
            data@,
            trace,
            result,
        ));
    }
    result
}

/// How a controller was started.
pub ghost struct Dwc2Start {
    pub poll: Seq<Exchange>,
    pub ended: Option<u64>,
    pub seen: u32,
    pub usb: u32,
    pub ahb: u32,
    pub otg: u32,
}

/// Whether a controller was started so, as a host with its own access to memory.
pub open spec fn dwc2_started(
    w: Dwc2Start,
    trace: Seq<Exchange>,
    result: Result<(), &'static str>,
) -> bool {
    let reset = seq![port::w32(regs::DWC2_GRSTCTL, regs::DWC2_GRSTCTL_CSFTRST)] + w.poll + seq![
        port::r32(regs::DWC2_GRSTCTL, w.seen),
    ];
    &&& ehci::paced(
        regs::DWC2_GRSTCTL,
        ehci::all_clear(regs::DWC2_GRSTCTL_CSFTRST as u64),
        RESET_TIMEOUT_LOOPS,
        1_000,
    ).done(w.poll, w.ended)
    &&& if w.seen % 2 == 1 {
        trace == reset && result == Err::<(), &'static str>("dwc2 core reset timeout")
    } else {
        &&& trace == reset + seq![
            port::wait(1_000_000),
            port::r32(regs::DWC2_GUSBCFG, w.usb),
            port::w32(
                regs::DWC2_GUSBCFG,
                (w.usb | regs::DWC2_GUSBCFG_FORCEHSTMODE) & 0xffff_fcef,
            ),
            port::wait(1_000_000),
            port::r32(regs::DWC2_GAHBCFG, w.ahb),
            port::w32(regs::DWC2_GAHBCFG, w.ahb | 0x21),
            port::w32(regs::DWC2_GRXFSIZ, 0x200),
            port::w32(regs::DWC2_GNPTXFSIZ, 0x100_0200),
            port::w32(regs::DWC2_HPTXFSIZ, 0x100_0300),
            port::r32(regs::DWC2_OTGCTL, w.otg),
            port::w32(regs::DWC2_OTGCTL, w.otg | regs::DWC2_OTGCTL_HSTEN),
            port::w32(regs::DWC2_GINTMSK, 0),
            port::wait(1_000_000),
        ]
        &&& result == Ok::<(), &'static str>(())
    }
}

/// Starts a controller.
pub fn start_host<F: FnMut(Access) -> u64>(port: &mut Port<F>) -> (result: Result<(), &'static str>)
    requires
        old(port).wf(),
    ensures
        final(port).wf(),
        final(port).performs() == old(port).performs(),
        port::grown(final(port).log(), old(port).log()),
        exists|w: Dwc2Start| #[trigger]
            dwc2_started(w, port::since(final(port).log(), old(port).log()), result),
{
    let ghost start = port.log();
    let ghost mut w: Dwc2Start = arbitrary();
    port.write32(regs::DWC2_GRSTCTL, regs::DWC2_GRSTCTL_CSFTRST);
    let ghost middle = port.log();
    let ended = port.poll(
        Poll {
            offset: regs::DWC2_GRSTCTL,
            wide: false,
            test: PollTest::clear(regs::DWC2_GRSTCTL_CSFTRST as u64),
            tries: RESET_TIMEOUT_LOOPS,
            pause_ns: Some(1_000),
        },
    );
    let ghost poll = port::since(port.log(), middle);
    let seen: u32 = port.read32(regs::DWC2_GRSTCTL);
    let ghost reset = seq![port::w32(regs::DWC2_GRSTCTL, regs::DWC2_GRSTCTL_CSFTRST)] + poll
        + seq![port::r32(regs::DWC2_GRSTCTL, seen)];
    proof {
        w = Dwc2Start { poll, ended, seen, ..w };
        assert(port.log() =~= start + reset);
        port::lemma_grown(start, reset);
    }
    if seen % 2 == 1 {
        assert(dwc2_started(w, reset, Err("dwc2 core reset timeout")));
        return Err("dwc2 core reset timeout");
    }
    port.delay(1_000_000);
    let usb: u32 = port.read32(regs::DWC2_GUSBCFG);
    port.write32(regs::DWC2_GUSBCFG, (usb | regs::DWC2_GUSBCFG_FORCEHSTMODE) & 0xffff_fcef);
    port.delay(1_000_000);
    let ahb: u32 = port.read32(regs::DWC2_GAHBCFG);
    port.write32(regs::DWC2_GAHBCFG, ahb | 0x21);
    port.write32(regs::DWC2_GRXFSIZ, 0x200);
    port.write32(regs::DWC2_GNPTXFSIZ, 0x100_0200);
    port.write32(regs::DWC2_HPTXFSIZ, 0x100_0300);
    let otg: u32 = port.read32(regs::DWC2_OTGCTL);
    port.write32(regs::DWC2_OTGCTL, otg | regs::DWC2_OTGCTL_HSTEN);
    port.write32(regs::DWC2_GINTMSK, 0);
    port.delay(1_000_000);
    proof {
        w = Dwc2Start { usb, ahb, otg, ..w };
        let trace = reset + seq![
            port::wait(1_000_000),
            port::r32(regs::DWC2_GUSBCFG, usb),
            port::w32(
                regs::DWC2_GUSBCFG,
                (usb | regs::DWC2_GUSBCFG_FORCEHSTMODE) & 0xffff_fcef,
            ),
            port::wait(1_000_000),
            port::r32(regs::DWC2_GAHBCFG, ahb),
            port::w32(regs::DWC2_GAHBCFG, ahb | 0x21),
            port::w32(regs::DWC2_GRXFSIZ, 0x200),
            port::w32(regs::DWC2_GNPTXFSIZ, 0x100_0200),
            port::w32(regs::DWC2_HPTXFSIZ, 0x100_0300),
            port::r32(regs::DWC2_OTGCTL, otg),
            port::w32(regs::DWC2_OTGCTL, otg | regs::DWC2_OTGCTL_HSTEN),
            port::w32(regs::DWC2_GINTMSK, 0),
            port::wait(1_000_000),
        ];
        assert(port.log() =~= start + trace);
        port::lemma_grown(start, trace);
        assert(dwc2_started(w, trace, Ok(())));
    }
    Ok(())
}

/// Whether a controller was opened so.
pub open spec fn dwc2_opened<F: FnMut(Access) -> u64>(
    w: Dwc2Start,
    before: Seq<Exchange>,
    trace: Seq<Exchange>,
    result: Result<Dwc2Hcd<F>, &'static str>,
) -> bool {
    match result {
        Ok(hcd) => hcd.port.log() == before + trace && dwc2_started(w, trace, Ok(())),
        Err(error) => dwc2_started(w, trace, Err(error)),
    }
}

impl<F: FnMut(Access) -> u64> Dwc2Hcd<F> {
    /// Starts a controller.
    pub fn new(port: Port<F>) -> (result: Result<Self, &'static str>)
        requires
            port.wf(),
        ensures
            result matches Ok(hcd) ==> hcd.wf() && hcd.calls@ == Seq::<Call>::empty()
                && hcd.next_channel == 0 && hcd.port.performs() == port.performs(),
            exists|w: Dwc2Start, trace: Seq<Exchange>| #[trigger]
                dwc2_opened(w, port.log(), trace, result) && port::all_answered(
                    port.performs(),
                    trace,
                ),
    {
        let ghost start = port.log();
        let mut port = port;
        let started = start_host(&mut port);
        let ghost trace = port::since(port.log(), start);
        let ghost w = choose|w: Dwc2Start| #[trigger] dwc2_started(w, trace, started);
        proof {
            port.growth_is_answered(start);
        }
        if let Err(error) = started {
            let result: Result<Self, &'static str> = Err(error);
            assert(dwc2_started(w, trace, started));
            assert(dwc2_opened(w, start, trace, result));
            return result;
        }
        let hcd = Dwc2Hcd { port, next_channel: 0, calls: Ghost(Seq::empty()) };
        let result: Result<Self, &'static str> = Ok(hcd);
        assert(dwc2_started(w, trace, started));
        assert(dwc2_opened(w, start, trace, result));
        result
    }
}

/// How a port was reset.
pub ghost struct Dwc2PortReset {
    pub first: u32,
    pub second: u32,
    pub third: u32,
    pub poll: Seq<Exchange>,
    pub ended: Option<u64>,
}

/// The test that a port is enabled or its device is gone.
pub open spec fn port_settled() -> PollTest {
    PollTest { mask: 0x1_0002, expected: 0x1_0000, equal: false }
}

/// The speed of the device at an enabled port.
pub open spec fn port_speed(status: u64) -> u8 {
    if status / 0x2_0000 % 4 == 1 {
        regs::USB_SPEED_FULL
    } else if status / 0x2_0000 % 4 == 2 {
        regs::USB_SPEED_LOW
    } else {
        regs::USB_SPEED_HIGH
    }
}

/// Whether a port was reset so.
pub open spec fn dwc2_port_reset(
    w: Dwc2PortReset,
    trace: Seq<Exchange>,
    result: Result<u8, &'static str>,
) -> bool {
    &&& ehci::paced(regs::DWC2_HPRT, port_settled(), RESET_TIMEOUT_LOOPS, 1_000).done(
        w.poll,
        w.ended,
    )
    &&& trace == seq![
        port::r32(regs::DWC2_HPRT, w.first),
        port::w32(
            regs::DWC2_HPRT,
            w.first | regs::DWC2_HPRT_PRTCONNDET | regs::DWC2_HPRT_PRTENCHNG
                | regs::DWC2_HPRT_PRTOVRCURRCHNG,
        ),
        port::r32(regs::DWC2_HPRT, w.second),
        port::w32(regs::DWC2_HPRT, w.second | regs::DWC2_HPRT_PRTRST),
        port::wait(20_000_000),
        port::r32(regs::DWC2_HPRT, w.third),
        port::w32(regs::DWC2_HPRT, w.third & 0xffff_feff),
        port::wait(20_000_000),
    ] + w.poll
    &&& result == match w.ended {
        None => Err::<u8, &'static str>("dwc2 port enable timeout"),
        Some(status) => if status / 2 % 2 == 1 {
            Ok(port_speed(status))
        } else {
            Err("dwc2 device disconnected during reset")
        },
    }
}

impl<F: FnMut(Access) -> u64> UsbHcd for Dwc2Hcd<F> {
    open spec fn wf(&self) -> bool {
        self.port.wf() && self.next_channel < CHANNEL_COUNT
    }

    open spec fn calls(&self) -> Seq<Call> {
        self.calls@
    }

    open spec fn ports(&self) -> usize {
        1
    }

    open spec fn label(&self) -> Seq<char> {
        "dwc2"@
    }

    fn name(&self) -> (name: &'static str) {
        "dwc2"
    }

    fn port_count(&self) -> (count: usize) {
        1
    }

    fn shutdown(&mut self) -> (result: Result<(), &'static str>)
        ensures
            final(self).port.performs() == old(self).port.performs(),
            result is Ok,
            final(self).next_channel == old(self).next_channel,
            final(self).port == old(self).port,
    {
        self.calls = Ghost(self.calls@.push(Call::Shutdown { shutdown_result: Ok(()) }));
        Ok(())
    }

    fn port_power_on(&mut self, port: usize) -> (result: Result<(), &'static str>)
        ensures
            final(self).port.performs() == old(self).port.performs(),
            result is Ok,
            final(self).next_channel == old(self).next_channel,
            exists|status: u32|
                final(self).port.log() == old(self).port.log() + seq![
                    #[trigger] port::r32(regs::DWC2_HPRT, status),
                    port::w32(regs::DWC2_HPRT, status | regs::DWC2_HPRT_PRTPWR),
                    port::wait(100_000_000),
                ],
    {
        let status: u32 = self.port.read32(regs::DWC2_HPRT);
        self.port.write32(regs::DWC2_HPRT, status | regs::DWC2_HPRT_PRTPWR);
        self.port.delay(100_000_000);
        assert(self.port.log() =~= old(self).port.log() + seq![
            port::r32(regs::DWC2_HPRT, status),
            port::w32(regs::DWC2_HPRT, status | regs::DWC2_HPRT_PRTPWR),
            port::wait(100_000_000),
        ]);
        self.calls = Ghost(self.calls@.push(Call::PowerOn { on_port: port, power_result: Ok(()) }));
        Ok(())
    }

    fn port_reset(&mut self, port: usize) -> (result: Result<u8, &'static str>)
        ensures
            final(self).port.performs() == old(self).port.performs(),
            final(self).next_channel == old(self).next_channel,
            port::grown(final(self).port.log(), old(self).port.log()),
            exists|w: Dwc2PortReset| #[trigger]
                dwc2_port_reset(
                    w,
                    port::since(final(self).port.log(), old(self).port.log()),
                    result,
                ),
    {
        let ghost start = self.port.log();
        let first: u32 = self.port.read32(regs::DWC2_HPRT);
        self.port.write32(
            regs::DWC2_HPRT,
            first | regs::DWC2_HPRT_PRTCONNDET | regs::DWC2_HPRT_PRTENCHNG
                | regs::DWC2_HPRT_PRTOVRCURRCHNG,
        );
        let second: u32 = self.port.read32(regs::DWC2_HPRT);
        self.port.write32(regs::DWC2_HPRT, second | regs::DWC2_HPRT_PRTRST);
        self.port.delay(20_000_000);
        let third: u32 = self.port.read32(regs::DWC2_HPRT);
        self.port.write32(regs::DWC2_HPRT, third & 0xffff_feff);
        self.port.delay(20_000_000);
        let ghost middle = self.port.log();
        let ended = self.port.poll(
            Poll {
                offset: regs::DWC2_HPRT,
                wide: false,
                test: PollTest { mask: 0x1_0002, expected: 0x1_0000, equal: false },
                tries: RESET_TIMEOUT_LOOPS,
                pause_ns: Some(1_000),
            },
        );
        let result: Result<u8, &'static str> = match ended {
            None => Err("dwc2 port enable timeout"),
            Some(status) => {
                if status / 2 % 2 == 1 {
                    let speed: u64 = status / 0x2_0000 % 4;
                    if speed == 1 {
                        Ok(regs::USB_SPEED_FULL)
                    } else if speed == 2 {
                        Ok(regs::USB_SPEED_LOW)
                    } else {
                        Ok(regs::USB_SPEED_HIGH)
                    }
                } else {
                    Err("dwc2 device disconnected during reset")
                }
            },
        };
        proof {
            let poll = port::since(self.port.log(), middle);
            let w = Dwc2PortReset { first, second, third, poll, ended };
            let trace = seq![
                port::r32(regs::DWC2_HPRT, first),
                port::w32(
                    regs::DWC2_HPRT,
                    first | regs::DWC2_HPRT_PRTCONNDET | regs::DWC2_HPRT_PRTENCHNG
                        | regs::DWC2_HPRT_PRTOVRCURRCHNG,
                ),
                port::r32(regs::DWC2_HPRT, second),
                port::w32(regs::DWC2_HPRT, second | regs::DWC2_HPRT_PRTRST),
                port::wait(20_000_000),
                port::r32(regs::DWC2_HPRT, third),
                port::w32(regs::DWC2_HPRT, third & 0xffff_feff),
                port::wait(20_000_000),
            ] + poll;
            assert(self.port.log() =~= start + trace);
            port::lemma_grown(start, trace);
            assert(dwc2_port_reset(w, trace, result));
        }
        self.calls = Ghost(
            self.calls@.push(Call::Reset { reset_port: port, reset_result: result }),
        );
        result
    }

    fn port_connected(&mut self, port: usize) -> (connected: bool)
        ensures
            final(self).port.performs() == old(self).port.performs(),
            final(self).next_channel == old(self).next_channel,
            exists|status: u32|
                final(self).port.log() == old(self).port.log().push(
                    #[trigger] port::r32(regs::DWC2_HPRT, status),
                ) && connected == (status / regs::DWC2_HPRT_PRTCONNSTS % 2 == 1),
    {
        let status: u32 = self.port.read32(regs::DWC2_HPRT);
        let connected: bool = status / regs::DWC2_HPRT_PRTCONNSTS % 2 == 1;
        self.calls = Ghost(
            self.calls@.push(Call::Connected { seen_port: port, seen: connected }),
        );
        connected
    }

    fn control_transfer(
        &mut self,
        dev_addr: u8,
        setup: UsbSetup,
        data: &mut Vec<u8>,
        data_in: bool,
    ) -> (result: Result<usize, &'static str>)
        ensures
            final(self).port.performs() == old(self).port.performs(),
            port::grown(final(self).port.log(), old(self).port.log()),
            exists|w: Dwc2Control, run_trace: Seq<Exchange>| #[trigger]
                dwc2_control(
                    w,
                    run_trace,
                    old(self).next_channel,
                    final(self).next_channel,
                    dev_addr,
                    setup,
                    old(data)@,
                    data_in,
                    final(data)@,
                    port::since(final(self).port.log(), old(self).port.log()),
                    result,
                ),
    {
        let ghost start = self.port.log();
        let ghost given = data@;
        let mut bytes = setup.to_bytes();
        let setup_at: u64 = place(&mut self.port, &bytes);
        let payload: u64 = place(&mut self.port, data);
        let ghost middle = self.port.log();
        let result = run_phases(
            &mut self.port,
            &mut self.next_channel,
            dev_addr,
            setup_at,
            payload,
            data.len(),
            data_in,
        );
        let ghost run_trace = port::since(self.port.log(), middle);
        let ghost w = choose|w: Dwc2Control|
            w.setup == setup_at && w.payload == payload && #[trigger] control_phases(
                w,
                old(self).next_channel,
                self.next_channel,
                dev_addr,
                given.len() as usize,
                data_in,
                run_trace,
                result,
            );
        fetch(&mut self.port, payload, data, data_in);
        fetch(&mut self.port, setup_at, &mut bytes, false);
        proof {
            let first = ohci::placed(setup.bytes(), setup_at);
            let second = ohci::placed(given, payload);
            let third = ohci::fetched(data@, payload, data_in);
            let fourth = ohci::fetched(setup.bytes(), setup_at, false);
            let trace = first + second + run_trace + third + fourth;
            port::lemma_five(start, first, second, run_trace, third, fourth);
            assert(self.port.log() == start + trace);
            port::lemma_grown(start, trace);
            assert(dwc2_control(
                w,
                run_trace,
                old(self).next_channel,
                self.next_channel,
                dev_addr,
                setup,
                given,
                data_in,
                data@,
                trace,
                result,
            ));
        }
        self.calls = Ghost(
            self.calls@.push(
                Call::Control {
                    address: dev_addr,
                    setup,
                    data: old(data)@,
                    data_in,
                    result,
                    after: data@,
                },
            ),
        );
        assert(dwc2_control(
            w,
            run_trace,
            old(self).next_channel,
            self.next_channel,
            dev_addr,
            setup,
            old(data)@,
            data_in,
            data@,
            port::since(self.port.log(), old(self).port.log()),
            result,
        ));
        result
    }

    fn bulk_transfer(&mut self, dev_addr: u8, ep: u8, data: &mut Vec<u8>, data_in: bool) -> (result:
        Result<usize, &'static str>)
        ensures
            final(self).port.performs() == old(self).port.performs(),
            final(self).next_channel == after_channel(old(self).next_channel),
            port::grown(final(self).port.log(), old(self).port.log()),
            exists|w: Dwc2Data| #[trigger]
                dwc2_data(
                    w,
                    old(self).next_channel,
                    dev_addr,
                    ep,
                    old(data)@,
                    data_in,
                    false,
                    final(data)@,
                    port::since(final(self).port.log(), old(self).port.log()),
                    result,
                ),
    {
        let result = run_data(
            &mut self.port,
            &mut self.next_channel,
            dev_addr,
            ep,
            data,
            data_in,
            false,
        );
        self.calls = Ghost(
            self.calls@.push(
                Call::Bulk {
                    bulk_address: dev_addr,
                    bulk_ep: ep,
                    bulk_data: old(data)@,
                    bulk_in: data_in,
                    bulk_result: result,
                    bulk_after: data@,
                },
            ),
        );
        let ghost trace = port::since(self.port.log(), old(self).port.log());
        let ghost w = choose|w: Dwc2Data| #[trigger]
            dwc2_data(
                w,
                old(self).next_channel,
                dev_addr,
                ep,
                old(data)@,
                data_in,
                false,
                data@,
                trace,
                result,
            );
        assert(dwc2_data(
            w,
            old(self).next_channel,
            dev_addr,
            ep,
            old(data)@,
            data_in,
            false,
            data@,
            trace,
            result,
        ));
        result
    }

    fn interrupt_transfer(
        &mut self,
        dev_addr: u8,
        ep: u8,
        data: &mut Vec<u8>,
        data_in: bool,
    ) -> (result: Result<usize, &'static str>)
        ensures
            final(self).port.performs() == old(self).port.performs(),
            final(self).next_channel == after_channel(old(self).next_channel),
            port::grown(final(self).port.log(), old(self).port.log()),
            exists|w: Dwc2Data| #[trigger]
                dwc2_data(
                    w,
                    old(self).next_channel,
                    dev_addr,
                    ep,
                    old(data)@,
                    data_in,
                    true,
                    final(data)@,
                    port::since(final(self).port.log(), old(self).port.log()),
                    result,
                ),
    {
        let result = run_data(
            &mut self.port,
            &mut self.next_channel,
            dev_addr,
            ep,
            data,
            data_in,
            true,
        );
        self.calls = Ghost(
            self.calls@.push(
                Call::Interrupt {
                    int_address: dev_addr,
                    int_ep: ep,
                    int_data: old(data)@,
                    int_in: data_in,
                    int_result: result,
                    int_after: data@,
                },
            ),
        );
        let ghost trace = port::since(self.port.log(), old(self).port.log());
        let ghost w = choose|w: Dwc2Data| #[trigger]
            dwc2_data(
                w,
                old(self).next_channel,
                dev_addr,
                ep,
                old(data)@,
                data_in,
                true,
                data@,
                trace,
                result,
            );
        assert(dwc2_data(
            w,
            old(self).next_channel,
            dev_addr,
            ep,
            old(data)@,
            data_in,
            true,
            data@,
            trace,
            result,
        ));
        result
    }

    fn wait(&mut self, duration_ns: u64)
        ensures
            final(self).port.performs() == old(self).port.performs(),
            final(self).next_channel == old(self).next_channel,
            final(self).port.log() == old(self).port.log().push(port::wait(duration_ns)),
    {
        self.port.delay(duration_ns);
        self.calls = Ghost(self.calls@.push(Call::Wait { duration_ns }));
    }
}

/// What the last writes to the registers of a channel say of the transfer on it.
pub ghost struct ChannelOrder {
    pub enabled: bool,
    /// Whether data goes from the device to the host. The bit is shared with the lowest
    /// bit of the endpoint's number.
    pub inward: bool,
    pub address: int,
    pub ep_above: int,
    pub eptype: int,
    pub mps: int,
    pub size: int,
    pub packets: int,
    pub pid: int,
    pub buffer: u32,
}

pub open spec fn channel_order(trace: Seq<Exchange>, channel: usize) -> Option<ChannelOrder> {
    match (
        port::last32(trace, 0x500 + 0x20 * channel),
        port::last32(trace, 0x510 + 0x20 * channel),
        port::last32(trace, 0x514 + 0x20 * channel),
    ) {
        (Some(word), Some(sizes), Some(buffer)) => Some(
            ChannelOrder {
                enabled: word / 0x8000_0000 == 1,
                inward: word / 0x800 % 2 == 1,
                address: word as int / 0x40_0000 % 128,
                ep_above: word as int / 0x1000 % 8,
                eptype: word as int / 0x4_0000 % 4,
                mps: word as int % 0x800,
                size: sizes as int % 0x8_0000,
                packets: sizes as int / 0x8_0000 % 0x400,
                pid: sizes as int / 0x2000_0000,
                buffer,
            },
        ),
        _ => None,
    }
}

proof fn lemma_char_word(a: u32, e: u32, t: u32, m: u32, inward: bool, word: u32)
    requires
        a < 128,
        e < 16,
        t < 4,
        m < 0x800,
        word == (if inward {
            (a * 0x40_0000) as u32 | (e * 0x800) as u32 | (t * 0x4_0000) as u32 | m | 0x800
        } else {
            (a * 0x40_0000) as u32 | (e * 0x800) as u32 | (t * 0x4_0000) as u32 | m
        }) | 0x8000_0000,
    ensures
        word / 0x8000_0000 == 1,
        e % 2 == 0 ==> (word / 0x800 % 2 == 1) == inward,
        word / 0x40_0000 % 128 == a,
        word / 0x1000 % 8 == e / 2,
        word / 0x4_0000 % 4 == t,
        word % 0x800 == m,
{
    let x: u32 = (a * 0x40_0000) as u32;
    let y: u32 = (e * 0x800) as u32;
    let z: u32 = (t * 0x4_0000) as u32;
    let d: u32 = if inward {
        0x800
    } else {
        0
    };
    assert(x | y | z | m | d | 0x8000_0000 == word) by {
        let w = x | y | z | m;
        assert(w | 0 == w) by (bit_vector);
    }
    assert(word / 0x8000_0000 == 1 && word / 0x40_0000 % 128 == a && word / 0x1000 % 8 == e / 2
        && word / 0x4_0000 % 4 == t && word % 0x800 == m && (e % 2 == 0 ==> (word / 0x800 % 2 == 1)
        == (d == 0x800))) by (bit_vector)
        requires
            a < 128,
            e < 16,
            t < 4,
            m < 0x800,
            d == 0 || d == 0x800,
            x == a * 0x40_0000,
            y == e * 0x800,
            z == t * 0x4_0000,
            word == x | y | z | m | d | 0x8000_0000,
    ;
}

proof fn lemma_size_word(size: u32, packets: u32, pid: u32)
    requires
        size < 0x8_0000,
        packets < 0x400,
        pid < 4,
    ensures
        ({
            let word = size | (packets * 0x8_0000) as u32 | (pid * 0x2000_0000) as u32;
            &&& word % 0x8_0000 == size
            &&& word / 0x8_0000 % 0x400 == packets
            &&& word / 0x2000_0000 == pid
        }),
{
    let p: u32 = (packets * 0x8_0000) as u32;
    let q: u32 = (pid * 0x2000_0000) as u32;
    let word = size | p | q;
    assert(word % 0x8_0000 == size && word / 0x8_0000 % 0x400 == packets && word / 0x2000_0000
        == pid) by (bit_vector)
        requires
            size < 0x8_0000,
            packets < 0x400,
            pid < 4,
            p == packets * 0x8_0000,
            q == pid * 0x2000_0000,
            word == size | p | q,
    ;
}

/// Whether a channel was told to carry a transfer out.
#[verifier::opaque]
pub open spec fn ordered(
    trace: Seq<Exchange>,
    channel: usize,
    address: u8,
    ep: u8,
    inward: bool,
    eptype: int,
    mps: int,
    pid: int,
    len: int,
    buffer: int,
) -> bool {
    channel_order(trace, channel) matches Some(order) && {
        &&& order.enabled
        &&& ep % 2 == 0 ==> order.inward == inward
        &&& order.address == address % 128
        &&& order.ep_above == ep % 16 / 2
        &&& order.eptype == eptype
        &&& order.mps == mps
        &&& order.buffer == buffer % 0x1_0000_0000
        &&& 0 <= len < 0x8_0000 && len <= 0x3ff * mps ==> {
            &&& order.pid == pid
            &&& order.size == len
            &&& order.packets >= 1
            &&& order.packets * mps >= len
            &&& order.packets > 1 ==> (order.packets - 1) * mps < len
        }
    }
}

#[verifier::rlimit(40)]
proof fn lemma_ordered(
    w: PhaseRun,
    channel: usize,
    request: ChannelRequest,
    trace: Seq<Exchange>,
    result: Result<(), &'static str>,
    eptype: u32,
    pid: u32,
    buffer: int,
)
    requires
        request.buffer == buffer % 0x1_0000_0000,
        phase_done(w, channel, request, trace, result),
        channel < CHANNEL_COUNT,
        0 < request.mps < 0x800,
        eptype < 4,
        pid < 4,
        request.eptype == eptype * 0x4_0000,
        request.pid == pid * 0x2000_0000,
    ensures
        ordered(
            trace,
            channel,
            request.address,
            request.ep,
            request.data_in,
            eptype as int,
            request.mps as int,
            pid as int,
            request.size as int,
            buffer,
        ),
{
    reveal(ordered);
    let start = channel_started(channel, request);
    let a = 0x500 + 0x20 * channel;
    let s = 0x510 + 0x20 * channel;
    let b = 0x514 + 0x20 * channel;
    let t0 = start.take(6);
    let t1 = t0.push(start[6]);
    let t2 = t1.push(start[7]);
    let t3 = t2.push(start[8]);
    let t4 = t3.push(start[9]);
    assert(t4 =~= start);
    assert forall|offset: int| offset == a || offset == s || offset == b implies port::last32(
        start,
        offset,
    ) == (if offset == a {
        Some(char_word(request))
    } else if offset == s {
        Some(size_word(request))
    } else {
        Some(request.buffer)
    }) by {
        port::lemma_last32_push(t0, start[6], offset);
        port::lemma_last32_push(t1, start[7], offset);
        port::lemma_last32_push(t2, start[8], offset);
        port::lemma_last32_push(t3, start[9], offset);
    }
    let poll = ehci::paced(chan(channel, 8), channel_ended(), CHANNEL_TIMEOUT_LOOPS, 2_000);
    assert forall|offset: int| offset == a || offset == s || offset == b implies port::last32(
        trace,
        offset,
    ) == port::last32(start, offset) by {
        port::lemma_poll_writes_nothing(poll, w.poll, w.ended, offset);
        port::lemma_last32_concat(start, w.poll, offset);
        if let Some(status) = w.ended {
            let last = port::w32(chan(channel, 8), (status as u32) & regs::DWC2_HCINT_ALL);
            assert(trace =~= (start + w.poll).push(last));
            port::lemma_last32_push(start + w.poll, last, offset);
        }
    }
    assert(port::last32(trace, a) == Some(char_word(request)));
    assert(port::last32(trace, s) == Some(size_word(request)));
    assert(port::last32(trace, b) == Some(request.buffer));
    let word = char_word(request);
    assert(request.ep % 16 % 2 == request.ep % 2);
    lemma_char_word(
        (request.address % 128) as u32,
        (request.ep % 16) as u32,
        eptype,
        (request.mps % 0x800) as u32,
        request.data_in,
        word,
    );
    let len = request.size as int;
    let mps = request.mps as int;
    if len < 0x8_0000 && len <= 0x3ff * mps {
        let packets = packet_count(len, mps);
        lemma_packets(len, mps);
        lemma_size_word(len as u32, packets as u32, pid);
    }
}

proof fn lemma_packets(len: int, mps: int)
    requires
        0 <= len,
        0 < mps,
        len <= 0x3ff * mps,
    ensures
        1 <= packet_count(len, mps) <= 0x3ff,
        packet_count(len, mps) * mps >= len,
        packet_count(len, mps) > 1 ==> (packet_count(len, mps) - 1) * mps < len,
{
    let p = packet_count(len, mps);
    if len > 0 {
        let sum = len + mps - 1;
        vstd::arithmetic::div_mod::lemma_fundamental_div_mod(sum, mps);
        vstd::arithmetic::div_mod::lemma_mod_bound(sum, mps);
        assert(p == sum / mps);
        assert(p * mps == mps * p) by (nonlinear_arith);
        assert((p - 1) * mps == p * mps - mps) by (nonlinear_arith);
        assert(p >= 1) by (nonlinear_arith)
            requires
                p * mps >= len,
                len > 0,
                mps > 0,
        ;
        assert(p <= 0x3ff) by (nonlinear_arith)
            requires
                (p - 1) * mps < len,
                len <= 0x3ff * mps,
                mps > 0,
        ;
    }
}

/// A request goes out in three steps on the next channels in turn: its eight bytes are
/// sent to the device; its data, if there is any, goes the way that was asked for; and the
/// confirmation goes against the data, or comes from the device if there is none. All
/// three are for endpoint 0 of the device, in packets of 64 bytes.
pub proof fn request_goes_the_right_way(
    w: Dwc2Control,
    channel: usize,
    channel_after: usize,
    address: u8,
    len: usize,
    data_in: bool,
    trace: Seq<Exchange>,
    result: Result<usize, &'static str>,
)
    requires
        control_phases(w, channel, channel_after, address, len, data_in, trace, result),
        channel < CHANNEL_COUNT,
    ensures
        ordered(w.first_trace, channel, address, 0, false, 0, 64, 2, 8, w.setup as int),
        w.first_result is Ok && len > 0 ==> ordered(
            w.second_trace,
            ((channel + 1) % 8) as usize,
            address,
            0,
            data_in,
            0,
            64,
            1,
            len as int,
            w.payload as int,
        ),
        result is Ok ==> ordered(
            w.third_trace,
            if len == 0 {
                ((channel + 1) % 8) as usize
            } else {
                ((channel + 2) % 8) as usize
            },
            address,
            0,
            len == 0 || !data_in,
            0,
            64,
            1,
            0,
            0,
        ),
        result matches Ok(moved) ==> moved == len && trace == w.first_trace + w.second_trace
            + w.third_trace,
{
    lemma_ordered(
        w.first,
        channel,
        control_request(address, false, regs::DWC2_HCTSIZ_PID_SETUP, w.setup as int, 8),
        w.first_trace,
        w.first_result,
        0,
        2,
        w.setup as int,
    );
    let second = after_channel(channel);
    let third = if len == 0 {
        second
    } else {
        after_channel(second)
    };
    if w.first_result is Ok {
        if len > 0 {
            lemma_ordered(
                w.second,
                second,
                control_request(
                    address,
                    data_in,
                    regs::DWC2_HCTSIZ_PID_DATA1,
                    w.payload as int,
                    len,
                ),
                w.second_trace,
                w.second_result,
                0,
                1,
                w.payload as int,
            );
        }
        if w.second_result is Ok {
            lemma_ordered(
                w.third,
                third,
                control_request(address, !data_in || len == 0, regs::DWC2_HCTSIZ_PID_DATA1, 0, 0),
                w.third_trace,
                w.third_result,
                0,
                1,
                0,
            );
        }
    }
}

/// Data of a bulk or interrupt transfer goes the way that was asked for, to the endpoint
/// that was asked for, from or to the memory where it was placed; what comes in is what
/// was found there afterwards.
pub proof fn data_goes_the_right_way(
    w: Dwc2Data,
    channel: usize,
    address: u8,
    ep: u8,
    data: Seq<u8>,
    data_in: bool,
    interrupt: bool,
    data_after: Seq<u8>,
    trace: Seq<Exchange>,
    result: Result<usize, &'static str>,
)
    requires
        dwc2_data(w, channel, address, ep, data, data_in, interrupt, data_after, trace, result),
        channel < CHANNEL_COUNT,
        data.len() <= usize::MAX,
    ensures
        ordered(
            w.run_trace,
            channel,
            address,
            (ep % 16) as u8,
            data_in,
            if interrupt {
                3
            } else {
                2
            },
            if interrupt {
                64
            } else {
                512
            },
            1,
            data.len() as int,
            w.payload as int,
        ),
        !data_in ==> data_after == data,
        result matches Ok(moved) ==> moved == data.len(),
{
    lemma_ordered(
        w.run,
        channel,
        data_request(address, ep, data_in, interrupt, data.len() as usize, w.payload),
        w.run_trace,
        w.run_result,
        if interrupt {
            3
        } else {
            2
        },
        1,
        w.payload as int,
    );
}

/// What a channel says of a transfer that ended is told apart: it is complete only if the
/// controller says so, and an error is named by the first bit that is set.
pub proof fn channel_errors_are_told_apart(status: u64)
    ensures
        channel_result(status) is Ok <==> status & 1 != 0,
        channel_result(status) == Err::<(), &'static str>("dwc2 channel stall") <==> status & 1 == 0
            && status & 4 != 0,
        status & 1 == 0 && status & 4 == 0 && status & 0x40 != 0 ==> channel_result(status) == Err::<
            (),
            &'static str,
        >("dwc2 channel transaction error"),
        status & 1 == 0 && status & 4 == 0 && status & 0x40 == 0 && status & 0x80 != 0
            ==> channel_result(status) == Err::<(), &'static str>("dwc2 channel babble"),
{
    assert((status & 1 != 0) == (status % 2 == 1) && (status & 4 != 0) == (status / 4 % 2 == 1) && (
    status & 0x40 != 0) == (status / 64 % 2 == 1) && (status & 0x80 != 0) == (status / 128 % 2
        == 1)) by (bit_vector);
    reveal_strlit("dwc2 channel stall");
    reveal_strlit("dwc2 channel transaction error");
    reveal_strlit("dwc2 channel babble");
    reveal_strlit("dwc2 channel halted");
    assert("dwc2 channel stall"@.len() == 18);
    assert("dwc2 channel transaction error"@.len() == 30);
    assert("dwc2 channel babble"@.len() == 19);
    assert("dwc2 channel halted"@.len() == 19);
}

} // verus!
