//! Opening bridges for what is behind them and switching decoding on.

use vstd::prelude::*;
use crate::pci::config_port;
use crate::pci::config_port::{ConfigAccess, ConfigExchange, ConfigPort, ConfigReply, PciBdf};
use crate::pci::resources;
use crate::pci::resources::{
    final_command, function_resource_envelope, program_io_aperture, program_memory_aperture,
    program_prefetch_aperture,
};
use crate::pci::scan::{PciBusNode, PciFunctionNode};
use crate::pci::topology;
use crate::pci::topology::{
    Apertures, PciBridgeApertureTracker, PciBridgeIoWindow, PciBridgeMemoryWindow,
    PciBridgePrefetchWindow, PciResourceEnvelope, PciResourceRange, PciResourceSpace,
    encode_bridge_io_window, encode_bridge_memory_window, encode_bridge_prefetch_window,
};
use crate::pci::tree;
use crate::pci::tree::{
    disable_bridge_forwarding, disable_bridge_io_window, disable_bridge_memory_window,
    disable_bridge_prefetch_window,
};

verus! {

/// What opening a window for a range takes: the range that is forwarded and the
/// register writes.
pub ghost struct ForwardWindow {
    pub forwarded: PciResourceRange,
    pub writes: Seq<ConfigAccess>,
}

/// Whether the registers of an I/O window forward `range`, rounded outward.
pub open spec fn io_encodes(window: PciBridgeIoWindow, range: PciResourceRange, wide: bool) -> bool {
    &&& topology::is_rounded(range, 0x1000, window.forwarded)
    &&& window.decoded_start() == window.forwarded.start
    &&& window.decoded_end() == window.forwarded.end
    &&& window.base_low % 0x10 == (if wide {
        1int
    } else {
        0
    })
    &&& window.limit_low % 0x10 == window.base_low % 0x10
}

/// Whether the registers of a memory window forward `range`, rounded outward.
pub open spec fn memory_encodes(window: PciBridgeMemoryWindow, range: PciResourceRange) -> bool {
    &&& topology::is_rounded(range, 0x10_0000, window.forwarded)
    &&& window.decoded_start() == window.forwarded.start
    &&& window.decoded_end() == window.forwarded.end
    &&& window.base % 0x10 == 0
    &&& window.limit % 0x10 == 0
}

/// Whether the registers of a prefetchable window forward `range`, rounded
/// outward.
pub open spec fn prefetch_encodes(
    window: PciBridgePrefetchWindow,
    range: PciResourceRange,
    wide: bool,
) -> bool {
    &&& topology::is_rounded(range, 0x10_0000, window.forwarded)
    &&& window.decoded_start() == window.forwarded.start
    &&& window.decoded_end() == window.forwarded.end
    &&& window.base % 0x10 == (if wide {
        1int
    } else {
        0
    })
    &&& window.limit % 0x10 == window.base % 0x10
}

/// Whether a window of the space can forward `range`; a wide one reaches
/// further.
pub open spec fn fits(space: PciResourceSpace, range: PciResourceRange, wide: bool) -> bool {
    match space {
        PciResourceSpace::Io => topology::can_round(range, 0x1000) && range.end
            <= topology::PCI_32BIT_ADDRESS_END && (wide || range.end <= topology::PCI_16BIT_IO_END),
        PciResourceSpace::Memory => topology::can_round(range, 0x10_0000) && range.end
            <= topology::PCI_32BIT_ADDRESS_END,
        PciResourceSpace::PrefetchableMemory => topology::can_round(range, 0x10_0000) && (wide
            || range.end <= topology::PCI_32BIT_ADDRESS_END),
    }
}

/// Whether `window` is the window for `range`.
pub open spec fn window_for(
    bdf: PciBdf,
    space: PciResourceSpace,
    range: PciResourceRange,
    wide: bool,
    window: ForwardWindow,
) -> bool {
    match space {
        PciResourceSpace::Io => exists|w: PciBridgeIoWindow| #[trigger]
            io_encodes(w, range, wide) && window == (ForwardWindow {
                forwarded: w.forwarded,
                writes: resources::io_writes(bdf, w),
            }),
        PciResourceSpace::Memory => exists|w: PciBridgeMemoryWindow| #[trigger]
            memory_encodes(w, range) && window == (ForwardWindow {
                forwarded: w.forwarded,
                writes: resources::memory_writes(bdf, w),
            }),
        PciResourceSpace::PrefetchableMemory => exists|w: PciBridgePrefetchWindow| #[trigger]
            prefetch_encodes(w, range, wide) && window == (ForwardWindow {
                forwarded: w.forwarded,
                writes: resources::prefetch_writes(bdf, w),
            }),
    }
}

/// Whether `trace` closes the window of the space.
pub open spec fn closes(space: PciResourceSpace, trace: Seq<ConfigExchange>, bdf: PciBdf) -> bool {
    match space {
        PciResourceSpace::Io => tree::closes_io(trace, bdf),
        PciResourceSpace::Memory => tree::closes_memory(trace, bdf),
        PciResourceSpace::PrefetchableMemory => tree::closes_prefetch(trace, bdf),
    }
}

/// How a bridge is set up for one space. A range that there is none of, that the
/// bridge itself failed in, that no register can hold or that a sibling forwards
/// in part is not forwarded: the window is closed. Else the registers are written
/// in turn; where one fails, the window is closed.
pub open spec fn space_forwarded(
    trace: Seq<ConfigExchange>,
    bdf: PciBdf,
    space: PciResourceSpace,
    wanted: Option<PciResourceRange>,
    wide: bool,
    blocked: bool,
    before: Apertures,
    after: Apertures,
    forwarded: Option<PciResourceRange>,
) -> bool {
    if wanted is Some && !blocked && fits(space, wanted->0, wide) {
        exists|window: ForwardWindow| #[trigger]
            window_for(bdf, space, wanted->0, wide, window) && if before.free(
                space,
                window.forwarded,
            ) {
                &&& after == before.with(space, window.forwarded)
                &&& {
                    ||| forwarded == wanted && resources::written(trace, window.writes, true)
                    ||| forwarded is None && exists|tried: Seq<ConfigExchange>, closing: Seq<ConfigExchange>|
                        trace == tried + closing && #[trigger] resources::written(
                            tried,
                            window.writes,
                            false,
                        ) && #[trigger] closes(space, closing, bdf)
                }
            } else {
                after == before && forwarded is None && closes(space, trace, bdf)
            }
    } else {
        after == before && forwarded is None && closes(space, trace, bdf)
    }
}

/// Closes the window of a space.
fn close_space<F: FnMut(ConfigAccess) -> ConfigReply>(
    port: &mut ConfigPort<F>,
    bdf: PciBdf,
    space: PciResourceSpace,
)
    requires
        old(port).wf(),
    ensures
        final(port).wf(),
        final(port).performs() == old(port).performs(),
        exists|trace: Seq<ConfigExchange>|
            final(port).log() == old(port).log() + trace && #[trigger] closes(space, trace, bdf),
{
    let ghost before = port.log();
    match space {
        PciResourceSpace::Io => {
            disable_bridge_io_window(port, bdf);
            proof {
                let trace = choose|trace: Seq<ConfigExchange>|
                    port.log() == before + trace && #[trigger] tree::closes_io(trace, bdf);
                assert(closes(space, trace, bdf));
            }
        },
        PciResourceSpace::Memory => {
            disable_bridge_memory_window(port, bdf);
            proof {
                let trace = choose|trace: Seq<ConfigExchange>|
                    port.log() == before + trace && #[trigger] tree::closes_memory(trace, bdf);
                assert(closes(space, trace, bdf));
            }
        },
        PciResourceSpace::PrefetchableMemory => {
            disable_bridge_prefetch_window(port, bdf);
            proof {
                let trace = choose|trace: Seq<ConfigExchange>|
                    port.log() == before + trace && #[trigger] tree::closes_prefetch(trace, bdf);
                assert(closes(space, trace, bdf));
            }
        },
    }
}

/// What trying to open the window of a space comes to, before it is closed where
/// that failed.
spec fn tried_to_open(
    before: Seq<ConfigExchange>,
    after: Seq<ConfigExchange>,
    taken: Apertures,
    now: Apertures,
    bdf: PciBdf,
    space: PciResourceSpace,
    range: PciResourceRange,
    wide: bool,
    ok: bool,
) -> bool {
    if fits(space, range, wide) {
        exists|window: ForwardWindow| #[trigger]
            window_for(bdf, space, range, wide, window) && resources::programmed(
                before,
                after,
                taken,
                now,
                space,
                window.forwarded,
                window.writes,
                ok,
            )
    } else {
        !ok && now == taken && after == before
    }
}

/// Opens the window of a space for a range, if a window can hold it.
fn open_space<F: FnMut(ConfigAccess) -> ConfigReply>(
    port: &mut ConfigPort<F>,
    bdf: PciBdf,
    space: PciResourceSpace,
    range: PciResourceRange,
    wide: bool,
    apertures: &mut PciBridgeApertureTracker,
) -> (ok: bool)
    requires
        old(port).wf(),
        old(apertures).wf(),
    ensures
        final(port).wf(),
        final(port).performs() == old(port).performs(),
        final(apertures).wf(),
        tried_to_open(
            old(port).log(),
            final(port).log(),
            old(apertures)@,
            final(apertures)@,
            bdf,
            space,
            range,
            wide,
            ok,
        ),
{
    match space {
        PciResourceSpace::Io => match encode_bridge_io_window(range, wide) {
            Ok(window) => {
                let ghost opened = ForwardWindow {
                    forwarded: window.forwarded,
                    writes: resources::io_writes(bdf, window),
                };
                assert(io_encodes(window, range, wide));
                assert(window_for(bdf, space, range, wide, opened));
                program_io_aperture(port, bdf, window, apertures)
            },
            Err(_) => false,
        },
        PciResourceSpace::Memory => match encode_bridge_memory_window(range) {
            Ok(window) => {
                let ghost opened = ForwardWindow {
                    forwarded: window.forwarded,
                    writes: resources::memory_writes(bdf, window),
                };
                assert(memory_encodes(window, range));
                assert(window_for(bdf, space, range, wide, opened));
                program_memory_aperture(port, bdf, window, apertures)
            },
            Err(_) => false,
        },
        PciResourceSpace::PrefetchableMemory => match encode_bridge_prefetch_window(range, wide) {
            Ok(window) => {
                let ghost opened = ForwardWindow {
                    forwarded: window.forwarded,
                    writes: resources::prefetch_writes(bdf, window),
                };
                assert(prefetch_encodes(window, range, wide));
                assert(window_for(bdf, space, range, wide, opened));
                program_prefetch_aperture(port, bdf, window, apertures)
            },
            Err(_) => false,
        },
    }
}

/// Sets a bridge up for one space.
fn forward_space<F: FnMut(ConfigAccess) -> ConfigReply>(
    port: &mut ConfigPort<F>,
    bdf: PciBdf,
    space: PciResourceSpace,
    wanted: Option<PciResourceRange>,
    wide: bool,
    blocked: bool,
    apertures: &mut PciBridgeApertureTracker,
) -> (forwarded: Option<PciResourceRange>)
    requires
        old(port).wf(),
        old(apertures).wf(),
    ensures
        final(port).wf(),
        final(port).performs() == old(port).performs(),
        final(apertures).wf(),
        exists|trace: Seq<ConfigExchange>|
            final(port).log() == old(port).log() + trace && #[trigger] space_forwarded(
                trace,
                bdf,
                space,
                wanted,
                wide,
                blocked,
                old(apertures)@,
                final(apertures)@,
                forwarded,
            ),
{
    let ghost before = port.log();
    let ghost taken = apertures@;
    if !blocked {
        if let Some(range) = wanted {
            let ok = open_space(port, bdf, space, range, wide, apertures);
            let ghost tried_log = port.log();
            if ok {
                proof {
                    let window = choose|window: ForwardWindow| #[trigger]
                        window_for(bdf, space, range, wide, window) && resources::programmed(
                            before,
                            tried_log,
                            taken,
                            apertures@,
                            space,
                            window.forwarded,
                            window.writes,
                            ok,
                        );
                    let trace = choose|trace: Seq<ConfigExchange>|
                        tried_log == before + trace && #[trigger] resources::written(
                            trace,
                            window.writes,
                            true,
                        );
                    assert(space_forwarded(
                        trace,
                        bdf,
                        space,
                        wanted,
                        wide,
                        blocked,
                        taken,
                        apertures@,
                        wanted,
                    ));
                }
                return wanted;
            }
            close_space(port, bdf, space);
            proof {
                let closing = choose|trace: Seq<ConfigExchange>|
                    port.log() == tried_log + trace && #[trigger] closes(space, trace, bdf);
                if fits(space, range, wide) {
                    let window = choose|window: ForwardWindow| #[trigger]
                        window_for(bdf, space, range, wide, window) && resources::programmed(
                            before,
                            tried_log,
                            taken,
                            apertures@,
                            space,
                            window.forwarded,
                            window.writes,
                            false,
                        );
                    if taken.free(space, window.forwarded) {
                        let tried = choose|trace: Seq<ConfigExchange>|
                            tried_log == before + trace && #[trigger] resources::written(
                                trace,
                                window.writes,
                                false,
                            );
                        let trace = tried + closing;
                        assert(port.log() =~= before + trace);
                        assert(space_forwarded(
                            trace,
                            bdf,
                            space,
                            wanted,
                            wide,
                            blocked,
                            taken,
                            apertures@,
                            None,
                        ));
                    } else {
                        assert(space_forwarded(
                            closing,
                            bdf,
                            space,
                            wanted,
                            wide,
                            blocked,
                            taken,
                            apertures@,
                            None,
                        ));
                    }
                } else {
                    assert(space_forwarded(
                        closing,
                        bdf,
                        space,
                        wanted,
                        wide,
                        blocked,
                        taken,
                        apertures@,
                        None,
                    ));
                }
            }
            return None;
        }
    }
    close_space(port, bdf, space);
    proof {
        let closing = choose|trace: Seq<ConfigExchange>|
            port.log() == before + trace && #[trigger] closes(space, trace, bdf);
        assert(space_forwarded(
            closing,
            bdf,
            space,
            wanted,
            wide,
            blocked,
            taken,
            apertures@,
            None,
        ));
    }
    None
}

/// How a bridge is set up, space by space: I/O, memory, prefetchable memory.
pub open spec fn bridge_forwarded(
    before: Seq<ConfigExchange>,
    after: Seq<ConfigExchange>,
    bdf: PciBdf,
    io_32bit: bool,
    prefetch_64bit: bool,
    wanted: PciResourceEnvelope,
    io_blocked: bool,
    memory_blocked: bool,
    taken: Apertures,
    now: Apertures,
    forwarded: PciResourceEnvelope,
) -> bool {
    exists|
        io: Seq<ConfigExchange>,
        memory: Seq<ConfigExchange>,
        prefetch: Seq<ConfigExchange>,
        first: Apertures,
        second: Apertures,
    |
        {
            &&& after == before + io + memory + prefetch
            &&& #[trigger] space_forwarded(
                io,
                bdf,
                PciResourceSpace::Io,
                wanted.io,
                io_32bit,
                io_blocked,
                taken,
                first,
                forwarded.io,
            )
            &&& #[trigger] space_forwarded(
                memory,
                bdf,
                PciResourceSpace::Memory,
                wanted.memory,
                false,
                memory_blocked,
                first,
                second,
                forwarded.memory,
            )
            &&& #[trigger] space_forwarded(
                prefetch,
                bdf,
                PciResourceSpace::PrefetchableMemory,
                wanted.prefetchable,
                prefetch_64bit,
                memory_blocked,
                second,
                now,
                forwarded.prefetchable,
            )
        }
}

/// Forwards what is behind a bridge, space by space. A space that cannot be
/// forwarded, or that the bridge itself failed in, is closed and left out of the
/// result.
pub fn configure_bridge_forwarding<F: FnMut(ConfigAccess) -> ConfigReply>(
    port: &mut ConfigPort<F>,
    bdf: PciBdf,
    io_32bit: bool,
    prefetch_64bit: bool,
    wanted: PciResourceEnvelope,
    apertures: &mut PciBridgeApertureTracker,
    io_blocked: bool,
    memory_blocked: bool,
) -> (forwarded: PciResourceEnvelope)
    requires
        old(port).wf(),
        old(apertures).wf(),
    ensures
        final(port).wf(),
        final(port).performs() == old(port).performs(),
        final(apertures).wf(),
        bridge_forwarded(
            old(port).log(),
            final(port).log(),
            bdf,
            io_32bit,
            prefetch_64bit,
            wanted,
            io_blocked,
            memory_blocked,
            old(apertures)@,
            final(apertures)@,
            forwarded,
        ),
{
    let ghost before = port.log();
    let ghost taken = apertures@;
    let io = forward_space(
        port,
        bdf,
        PciResourceSpace::Io,
        wanted.io,
        io_32bit,
        io_blocked,
        apertures,
    );
    let ghost after_io = port.log();
    let ghost first = apertures@;
    let memory = forward_space(
        port,
        bdf,
        PciResourceSpace::Memory,
        wanted.memory,
        false,
        memory_blocked,
        apertures,
    );
    let ghost after_memory = port.log();
    let ghost second = apertures@;
    let prefetchable = forward_space(
        port,
        bdf,
        PciResourceSpace::PrefetchableMemory,
        wanted.prefetchable,
        prefetch_64bit,
        memory_blocked,
        apertures,
    );
    proof {
        let t_io = choose|trace: Seq<ConfigExchange>|
            after_io == before + trace && #[trigger] space_forwarded(
                trace,
                bdf,
                PciResourceSpace::Io,
                wanted.io,
                io_32bit,
                io_blocked,
                taken,
                first,
                io,
            );
        let t_memory = choose|trace: Seq<ConfigExchange>|
            after_memory == after_io + trace && #[trigger] space_forwarded(
                trace,
                bdf,
                PciResourceSpace::Memory,
                wanted.memory,
                false,
                memory_blocked,
                first,
                second,
                memory,
            );
        let t_prefetch = choose|trace: Seq<ConfigExchange>|
            port.log() == after_memory + trace && #[trigger] space_forwarded(
                trace,
                bdf,
                PciResourceSpace::PrefetchableMemory,
                wanted.prefetchable,
                prefetch_64bit,
                memory_blocked,
                second,
                apertures@,
                prefetchable,
            );
        assert(port.log() =~= before + t_io + t_memory + t_prefetch);
    }
    PciResourceEnvelope { io, memory, prefetchable }
}

/// A bridge forwards a space as a whole or not at all, and never one that it
/// failed in itself.
pub proof fn forwarded_is_part_of_wanted(
    before: Seq<ConfigExchange>,
    after: Seq<ConfigExchange>,
    bdf: PciBdf,
    io_32bit: bool,
    prefetch_64bit: bool,
    wanted: PciResourceEnvelope,
    io_blocked: bool,
    memory_blocked: bool,
    taken: Apertures,
    now: Apertures,
    forwarded: PciResourceEnvelope,
)
    requires
        bridge_forwarded(
            before,
            after,
            bdf,
            io_32bit,
            prefetch_64bit,
            wanted,
            io_blocked,
            memory_blocked,
            taken,
            now,
            forwarded,
        ),
    ensures
        forwarded.io is None || forwarded.io == wanted.io,
        forwarded.memory is None || forwarded.memory == wanted.memory,
        forwarded.prefetchable is None || forwarded.prefetchable == wanted.prefetchable,
        io_blocked ==> forwarded.io is None,
        memory_blocked ==> forwarded.memory is None && forwarded.prefetchable is None,
{
}

/// Nothing.
pub open spec fn no_resources() -> PciResourceEnvelope {
    PciResourceEnvelope { io: None, memory: None, prefetchable: None }
}

/// `total` grown over a range, if there is one.
pub open spec fn grown_by(
    total: PciResourceEnvelope,
    space: PciResourceSpace,
    range: Option<PciResourceRange>,
) -> PciResourceEnvelope {
    match range {
        Some(range) => total.grown(space, range),
        None => total,
    }
}

/// What a function adds to the resources of its bus: its own and what it
/// forwards, in the spaces that it decodes.
#[verifier::opaque]
pub open spec fn bus_step(
    total: PciResourceEnvelope,
    function: PciFunctionNode,
    down: PciResourceEnvelope,
    command_ok: bool,
) -> PciResourceEnvelope {
    let own = resources::envelope_of(function.bars@);
    match function.original_command {
        None => total,
        Some(original) => if !command_ok {
            total
        } else {
            let command = command_after(function, original, down);
            let with_io = if command % 2 == 1 {
                grown_by(
                    grown_by(total, PciResourceSpace::Io, own.io),
                    PciResourceSpace::Io,
                    down.io,
                )
            } else {
                total
            };
            if command / 2 % 2 == 1 {
                let with_memory = grown_by(
                    grown_by(with_io, PciResourceSpace::Memory, own.memory),
                    PciResourceSpace::Memory,
                    down.memory,
                );
                grown_by(
                    grown_by(with_memory, PciResourceSpace::PrefetchableMemory, own.prefetchable),
                    PciResourceSpace::PrefetchableMemory,
                    down.prefetchable,
                )
            } else {
                with_io
            }
        },
    }
}

/// The command register that a function gets.
pub open spec fn command_after(
    function: PciFunctionNode,
    original: u16,
    down: PciResourceEnvelope,
) -> u16 {
    let own = resources::envelope_of(function.bars@);
    resources::command_for(
        function,
        original,
        own.io is Some || down.io is Some,
        own.memory is Some || own.prefetchable is Some || down.memory is Some
            || down.prefetchable is Some,
    )
}

fn grow_by(total: &mut PciResourceEnvelope, space: PciResourceSpace, range: Option<PciResourceRange>)
    ensures
        *final(total) == grown_by(*old(total), space, range),
{
    if let Some(range) = range {
        total.include_range(space, range);
    }
}

/// The registers of a function in the spaces that it did not fail in.
pub open spec fn usable_resources(function: PciFunctionNode) -> PciResourceEnvelope {
    let own = resources::envelope_of(function.bars@);
    PciResourceEnvelope {
        io: if function.io_failed {
            None
        } else {
            own.io
        },
        memory: if function.memory_failed {
            None
        } else {
            own.memory
        },
        prefetchable: if function.memory_failed {
            None
        } else {
            own.prefetchable
        },
    }
}

/// The ranges with one more, if there is one and it is free.
pub open spec fn noted(
    taken: Apertures,
    space: PciResourceSpace,
    range: Option<PciResourceRange>,
) -> Apertures {
    match range {
        Some(range) if taken.free(space, range) => taken.with(space, range),
        _ => taken,
    }
}

/// What the functions of a bus take themselves, so that no bridge window takes
/// it in.
pub open spec fn local_apertures(functions: Seq<PciFunctionNode>) -> Apertures
    decreases functions.len(),
{
    if functions.len() == 0 {
        Apertures { io: Seq::empty(), memory: Seq::empty() }
    } else {
        let local = usable_resources(functions.last());
        let front = local_apertures(functions.drop_last());
        noted(
            noted(noted(front, PciResourceSpace::Io, local.io), PciResourceSpace::Memory, local.memory),
            PciResourceSpace::PrefetchableMemory,
            local.prefetchable,
        )
    }
}

fn note_local(
    apertures: &mut PciBridgeApertureTracker,
    space: PciResourceSpace,
    range: Option<PciResourceRange>,
)
    requires
        old(apertures).wf(),
    ensures
        final(apertures).wf(),
        final(apertures)@ == noted(old(apertures)@, space, range),
{
    if let Some(wanted) = range {
        let noted = apertures.reserve(space, wanted);
    }
}

/// Notes the resources of the functions themselves, so that no bridge window
/// takes them in.
fn reserve_local(functions: &Vec<PciFunctionNode>) -> (apertures: PciBridgeApertureTracker)
    ensures
        apertures.wf(),
        apertures@ == local_apertures(functions@),
{
    let mut apertures = PciBridgeApertureTracker::new();
    let mut i: usize = 0;
    assert(functions@.take(0) =~= Seq::empty());
    while i < functions.len()
        invariant
            i <= functions@.len(),
            apertures.wf(),
            apertures@ == local_apertures(functions@.take(i as int)),
        decreases functions@.len() - i,
    {
        assert(functions@.take(i + 1).drop_last() =~= functions@.take(i as int));
        let mut local = function_resource_envelope(&functions[i]);
        if functions[i].io_failed {
            local.clear(PciResourceSpace::Io);
        }
        if functions[i].memory_failed {
            local.clear(PciResourceSpace::Memory);
            local.clear(PciResourceSpace::PrefetchableMemory);
        }
        assert(local == usable_resources(functions@[i as int]));
        note_local(&mut apertures, PciResourceSpace::Io, local.io);
        note_local(&mut apertures, PciResourceSpace::Memory, local.memory);
        note_local(&mut apertures, PciResourceSpace::PrefetchableMemory, local.prefetchable);
        i += 1;
    }
    assert(functions@.take(i as int) =~= functions@);
    apertures
}

/// How far the functions of a bus have been gone through.
#[verifier::ext_equal]
pub ghost struct FinalState {
    pub apertures: Apertures,
    pub total: PciResourceEnvelope,
    pub log: Seq<ConfigExchange>,
}

/// How the command register of a function is set and what is then counted. A
/// bridge whose command register cannot be set forwards nothing.
pub open spec fn switched(
    function: PciFunctionNode,
    down: PciResourceEnvelope,
    before: FinalState,
    after: FinalState,
    command_ok: bool,
) -> bool {
    &&& after.apertures == before.apertures
    &&& after.total == bus_step(before.total, function, down, command_ok)
    &&& match function.original_command {
        None => after.log == before.log,
        Some(original) => {
            let set = before.log.push(
                config_port::command_set(
                    function.bdf,
                    command_after(function, original, down),
                    command_ok,
                ),
            );
            if !command_ok && function.bridge is Some {
                exists|trace: Seq<ConfigExchange>|
                    after.log == set + trace && #[trigger] tree::closes_forwarding(
                        trace,
                        function.bdf,
                    )
            } else {
                after.log == set
            }
        },
    }
}

/// Sets the command register of a function and counts what it decodes.
fn switch_on<F: FnMut(ConfigAccess) -> ConfigReply>(
    port: &mut ConfigPort<F>,
    function: &PciFunctionNode,
    down: PciResourceEnvelope,
    total: &mut PciResourceEnvelope,
    Ghost(apertures): Ghost<Apertures>,
) -> (command_ok: bool)
    requires
        old(port).wf(),
    ensures
        final(port).wf(),
        final(port).performs() == old(port).performs(),
        switched(
            *function,
            down,
            (FinalState { apertures, total: *old(total), log: old(port).log() }),
            (FinalState { apertures, total: *final(total), log: final(port).log() }),
            command_ok,
        ),
{
    proof {
        reveal(bus_step);
    }
    let own = function_resource_envelope(function);
    let io_needed = own.io.is_some() || down.io.is_some();
    let memory_needed = own.memory.is_some() || own.prefetchable.is_some() || down.memory.is_some()
        || down.prefetchable.is_some();
    let original: u16 = match function.original_command {
        Some(original) => original,
        None => {
            return false;
        },
    };
    let command: u16 = final_command(function, original, io_needed, memory_needed);
    if !port.set_command(function.bdf, command) {
        if function.bridge.is_some() {
            disable_bridge_forwarding(port, function.bdf);
        }
        return false;
    }
    if command % 2 == 1 {
        grow_by(total, PciResourceSpace::Io, own.io);
        grow_by(total, PciResourceSpace::Io, down.io);
    }
    if command / 2 % 2 == 1 {
        grow_by(total, PciResourceSpace::Memory, own.memory);
        grow_by(total, PciResourceSpace::Memory, down.memory);
        grow_by(total, PciResourceSpace::PrefetchableMemory, own.prefetchable);
        grow_by(total, PciResourceSpace::PrefetchableMemory, down.prefetchable);
    }
    true
}

/// How one function is finished: what is behind its bridge first, then the
/// bridge, then its command register.
pub open spec fn function_finalized(
    function: PciFunctionNode,
    before: FinalState,
    after: FinalState,
) -> bool
    decreases function, 0int,
{
    exists|down: PciResourceEnvelope, middle: FinalState, command_ok: bool| #[trigger]
        switched(function, down, middle, after, command_ok) && match function.bridge {
            None => down == no_resources() && middle == before,
            Some(bridge) => middle.total == before.total && exists|
                below: PciResourceEnvelope,
                log: Seq<ConfigExchange>,
            | #[trigger]
                bridge_forwarded(
                    log,
                    middle.log,
                    function.bdf,
                    bridge.io_32bit,
                    bridge.prefetch_64bit,
                    below,
                    function.io_failed,
                    function.memory_failed,
                    before.apertures,
                    middle.apertures,
                    down,
                ) && tree_finalized(*bridge.downstream, before.log, below, log),
        }
}

/// Whether the states of a bus start with what its functions take themselves.
pub open spec fn states_fit(
    states: Seq<FinalState>,
    functions: Seq<PciFunctionNode>,
    log: Seq<ConfigExchange>,
    total: PciResourceEnvelope,
    after: Seq<ConfigExchange>,
) -> bool {
    &&& states.len() == functions.len() + 1
    &&& states[0] == (FinalState {
        apertures: local_apertures(functions),
        total: no_resources(),
        log,
    })
    &&& states[functions.len() as int].total == total
    &&& states[functions.len() as int].log == after
}

/// How a bus is finished, function by function.
pub open spec fn tree_finalized(
    node: PciBusNode,
    before: Seq<ConfigExchange>,
    total: PciResourceEnvelope,
    after: Seq<ConfigExchange>,
) -> bool
    decreases node, 1int,
{
    exists|states: Seq<FinalState>| #[trigger]
        states_fit(states, node.functions@, before, total, after) && forall|i: int|
            0 <= i < node.functions@.len() ==> function_finalized(
                #[trigger] node.functions@[i],
                states[i],
                states[i + 1],
            )
}

/// Opens the bridges of a tree for what is behind them and switches decoding on,
/// from the leaves up. The result holds what the bus and everything behind its
/// bridges decode.
pub fn finalize_pci_bus<F: FnMut(ConfigAccess) -> ConfigReply>(
    port: &mut ConfigPort<F>,
    node: &PciBusNode,
) -> (total: PciResourceEnvelope)
    requires
        old(port).wf(),
    ensures
        final(port).wf(),
        final(port).performs() == old(port).performs(),
        tree_finalized(*node, old(port).log(), total, final(port).log()),
    decreases *node,
{
    let ghost start = port.log();
    let mut total = PciResourceEnvelope::default();
    let mut apertures = reserve_local(&node.functions);
    let ghost mut states: Seq<FinalState> = seq![
        FinalState { apertures: apertures@, total, log: start },
    ];
    let mut i: usize = 0;
    while i < node.functions.len()
        invariant
            i <= node.functions@.len(),
            port.wf(),
            port.performs() == old(port).performs(),
            apertures.wf(),
            states.len() == i + 1,
            states[0] == (FinalState {
                apertures: local_apertures(node.functions@),
                total: no_resources(),
                log: start,
            }),
            states[i as int] == (FinalState { apertures: apertures@, total, log: port.log() }),
            forall|k: int|
                0 <= k < i ==> function_finalized(
                    #[trigger] node.functions@[k],
                    states[k],
                    states[k + 1],
                ),
        decreases node.functions@.len() - i,
    {
        let function = &node.functions[i];
        let bdf = function.bdf;
        let ghost before = states[i as int];
        let ghost earlier = states;
        let mut down = PciResourceEnvelope::default();
        let ghost mut below_total = no_resources();
        let ghost mut log_below = port.log();
        if let Some(bridge) = &function.bridge {
            assert(decreases_to!(*node => node.functions@[i as int]));
            let below = finalize_pci_bus(port, &bridge.downstream);
            proof {
                below_total = below;
                log_below = port.log();
            }
            down = configure_bridge_forwarding(
                port,
                bdf,
                bridge.io_32bit,
                bridge.prefetch_64bit,
                below,
                &mut apertures,
                function.io_failed,
                function.memory_failed,
            );
        }
        let ghost middle = FinalState { apertures: apertures@, total, log: port.log() };
        let command_ok = switch_on(port, function, down, &mut total, Ghost(apertures@));
        proof {
            let after = FinalState { apertures: apertures@, total, log: port.log() };
            assert(switched(*function, down, middle, after, command_ok));
            match &function.bridge {
                None => {
                    assert(down == no_resources());
                    assert(middle == before);
                },
                Some(bridge) => {
                    assert(bridge_forwarded(
                        log_below,
                        middle.log,
                        function.bdf,
                        bridge.io_32bit,
                        bridge.prefetch_64bit,
                        below_total,
                        function.io_failed,
                        function.memory_failed,
                        before.apertures,
                        middle.apertures,
                        down,
                    ));
                    assert(tree_finalized(
                        *bridge.downstream,
                        before.log,
                        below_total,
                        log_below,
                    ));
                },
            }
            assert(function_finalized(*function, before, after));
            states = states.push(after);
            assert forall|k: int| 0 <= k < i + 1 implies function_finalized(
                #[trigger] node.functions@[k],
                states[k],
                states[k + 1],
            ) by {
                if k < i {
                    assert(states[k] == earlier[k] && states[k + 1] == earlier[k + 1]);
                }
            }
        }
        i += 1;
    }
    assert(states_fit(states, node.functions@, start, total, port.log()));
    total
}

/// A function that decodes I/O adds all its own I/O registers to its bus.
pub proof fn decoded_resources_are_counted(
    total: PciResourceEnvelope,
    function: PciFunctionNode,
    down: PciResourceEnvelope,
    original: u16,
)
    requires
        function.original_command == Some(original),
        command_after(function, original, down) % 2 == 1,
        resources::envelope_of(function.bars@).io is Some,
    ensures
        bus_step(total, function, down, true).io is Some,
        bus_step(total, function, down, true).io->0.start <= resources::envelope_of(
            function.bars@,
        ).io->0.start,
        bus_step(total, function, down, true).io->0.end >= resources::envelope_of(
            function.bars@,
        ).io->0.end,
{
    reveal(bus_step);
}

} // verus!
