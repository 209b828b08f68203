//! Driving the controller of wired interrupts.

use vstd::prelude::*;
use crate::aia::imsic::IrqStatus;
use crate::aia::layout;
use crate::aia::layout::{
    AplicDirectLayout, AplicLayout, AplicSourceMode, ImsicAddressScheme, aplic_source_mode,
};
use crate::platform::PnpError;
use crate::port;
use crate::port::{Access, Exchange, Port};

verus! {

/// How a source is set up.
#[derive(Clone, Copy, PartialEq, Eq, Structural, Debug)]
pub struct AplicSourceState {
    pub mode: AplicSourceMode,
    pub target: u32,
}

/// The message interrupt controller that sources are sent to.
#[derive(Clone, Copy, PartialEq, Eq, Structural, Debug)]
pub struct AplicMsiParent {
    pub controller: u32,
    pub scheme: ImsicAddressScheme,
}

/// How interrupts reach a CPU.
#[derive(Clone, Copy, PartialEq, Eq, Structural, Debug)]
pub enum AplicDelivery {
    Msi(AplicMsiParent),
    Direct(AplicDirectLayout),
}

/// The controller. Offsets are from the start of its registers.
pub struct Aplic {
    pub controller: u32,
    pub layout: AplicLayout,
    pub num_sources: u32,
    pub sources: Vec<AplicSourceState>,
    pub delivery: AplicDelivery,
    pub quiesced: bool,
}

/// What has to be done to set up a source.
#[derive(Clone, Copy, PartialEq, Eq, Structural, Debug)]
pub enum SourceStep {
    /// Nothing; the answer is here.
    Answer(bool),
    /// A message interrupt of this controller is needed first.
    NeedsVector(u32),
    /// The registers can be written.
    Ready,
}

/// The writes that switch off the first `count` sources.
pub open spec fn sources_cleared(layout: AplicLayout, count: int) -> Seq<Exchange>
    decreases count,
{
    if count <= 0 {
        Seq::empty()
    } else {
        sources_cleared(layout, count - 1) + seq![
            port::w32(layout::APLIC_CLRIENUM, count as u32),
            port::w32(layout.sourcecfg_at(count) as usize, 0),
            port::w32(layout.target_at(count) as usize, 0),
        ]
    }
}

/// The value of the domain register for a way of delivery.
pub open spec fn domain_value(delivery: AplicDelivery) -> u32 {
    match delivery {
        AplicDelivery::Msi(_) => 0x104,
        AplicDelivery::Direct(direct) => if direct.service() is Some {
            0x100
        } else {
            0
        },
    }
}

/// The bits of the domain register that are checked.
pub open spec fn domain_bits(value: u32) -> int {
    value / 0x100 % 2 * 0x100 + value / 4 % 2 * 4
}

/// The writes before the domain is switched on.
pub open spec fn delivery_opened(delivery: AplicDelivery) -> Seq<Exchange> {
    match delivery {
        AplicDelivery::Msi(_) => Seq::empty(),
        AplicDelivery::Direct(direct) => if direct.service() is Some {
            seq![
                port::w32(direct.idc_at(layout::APLIC_IDC_ITHRESHOLD)->0, 0),
                port::w32(direct.idc_at(layout::APLIC_IDC_IDELIVERY)->0, 1),
            ]
        } else {
            Seq::empty()
        },
    }
}

/// The writes that reset the delivery registers.
pub open spec fn delivery_reset(delivery: AplicDelivery) -> Seq<Exchange> {
    match delivery {
        AplicDelivery::Msi(_) => Seq::empty(),
        AplicDelivery::Direct(direct) => if direct.service() is Some {
            seq![
                port::w32(direct.idc_at(layout::APLIC_IDC_IDELIVERY)->0, 0),
                port::w32(direct.idc_at(layout::APLIC_IDC_ITHRESHOLD)->0, 0),
            ]
        } else {
            Seq::empty()
        },
    }
}

/// The write that stops delivery.
pub open spec fn delivery_stopped(delivery: AplicDelivery) -> Seq<Exchange> {
    match delivery {
        AplicDelivery::Msi(_) => Seq::empty(),
        AplicDelivery::Direct(direct) => if direct.service() is Some {
            seq![port::w32(direct.idc_at(layout::APLIC_IDC_IDELIVERY)->0, 0)]
        } else {
            Seq::empty()
        },
    }
}

/// The accesses of several claims: each source is delivered.
pub open spec fn direct_rounds(claim: usize, claims: Seq<u32>) -> Seq<Exchange>
    decreases claims.len(),
{
    if claims.len() == 0 {
        Seq::empty()
    } else {
        let value = claims.last();
        direct_rounds(claim, claims.drop_last()) + seq![
            port::r32(claim, value),
            port::told(AplicDirectLayout::claimed(value)->0 as u64),
        ]
    }
}

impl Aplic {
    /// Every source has a state, and the registers are those of its sources.
    pub open spec fn wf(&self) -> bool {
        &&& self.layout.wf()
        &&& self.layout.sources() == self.num_sources
        &&& self.sources@.len() == self.num_sources + 1
        &&& self.delivery matches AplicDelivery::Direct(direct) ==> direct.wf()
    }

    /// A controller with every source off. Where interrupts go straight to a CPU,
    /// every source has its target from the start.
    pub fn new(controller: u32, layout: AplicLayout, num_sources: u32, delivery: AplicDelivery) -> (aplic:
        Self)
        requires
            layout.wf(),
            layout.sources() == num_sources,
            delivery matches AplicDelivery::Direct(direct) ==> direct.wf(),
        ensures
            aplic.wf(),
            aplic.controller == controller,
            aplic.layout == layout,
            aplic.num_sources == num_sources,
            aplic.delivery == delivery,
            !aplic.quiesced,
            aplic.sources@[0] == (AplicSourceState { mode: AplicSourceMode::Inactive, target: 0 }),
            forall|i: int|
                1 <= i <= num_sources ==> #[trigger] aplic.sources@[i] == (AplicSourceState {
                    mode: AplicSourceMode::Inactive,
                    target: first_target(delivery),
                }),
    {
        let target: u32 = match delivery {
            AplicDelivery::Msi(_) => 0,
            AplicDelivery::Direct(direct) => match direct.target() {
                Some(target) => target,
                None => 0,
            },
        };
        let mut sources: Vec<AplicSourceState> = Vec::new();
        sources.push(AplicSourceState { mode: AplicSourceMode::Inactive, target: 0 });
        let mut i: u32 = 0;
        while i < num_sources
            invariant
                i <= num_sources,
                target == first_target(delivery),
                sources@.len() == i + 1,
                sources@[0] == (AplicSourceState { mode: AplicSourceMode::Inactive, target: 0 }),
                forall|k: int|
                    1 <= k <= i ==> #[trigger] sources@[k] == (AplicSourceState {
                        mode: AplicSourceMode::Inactive,
                        target,
                    }),
            decreases num_sources - i,
        {
            sources.push(AplicSourceState { mode: AplicSourceMode::Inactive, target });
            i += 1;
        }
        Aplic { controller, layout, num_sources, sources, delivery, quiesced: false }
    }

    fn clear_sources<F: FnMut(Access) -> u64>(&self, port: &mut Port<F>)
        requires
            self.wf(),
            old(port).wf(),
        ensures
            final(port).wf(),
            final(port).performs() == old(port).performs(),
            final(port).log() == old(port).log() + sources_cleared(
                self.layout,
                self.num_sources as int,
            ),
    {
        let ghost start = port.log();
        let mut source: u32 = 1;
        assert(start + sources_cleared(self.layout, 0) =~= start);
        while source <= self.num_sources
            invariant
                1 <= source <= self.num_sources + 1,
                self.wf(),
                port.wf(),
                port.performs() == old(port).performs(),
                port.log() == start + sources_cleared(self.layout, source - 1),
            decreases self.num_sources + 1 - source,
        {
            port.write32(layout::APLIC_CLRIENUM, source);
            if let Some(offset) = self.layout.sourcecfg_offset(source) {
                port.write32(offset, 0);
            }
            if let Some(offset) = self.layout.target_offset(source) {
                port.write32(offset, 0);
            }
            assert(port.log() =~= start + sources_cleared(self.layout, source as int));
            source += 1;
        }
    }

    /// Switches everything off.
    pub fn initialize<F: FnMut(Access) -> u64>(&self, port: &mut Port<F>)
        requires
            self.wf(),
            old(port).wf(),
        ensures
            final(port).wf(),
            final(port).performs() == old(port).performs(),
            final(port).log() == old(port).log() + seq![port::w32(layout::APLIC_DOMAINCFG, 0)]
                + delivery_reset(self.delivery) + sources_cleared(
                self.layout,
                self.num_sources as int,
            ) + seq![port::fence()],
    {
        let ghost start = port.log();
        port.write32(layout::APLIC_DOMAINCFG, 0);
        if let AplicDelivery::Direct(direct) = self.delivery {
            if let Some(offset) = direct.service_idc_offset(layout::APLIC_IDC_IDELIVERY) {
                port.write32(offset, 0);
            }
            if let Some(offset) = direct.service_idc_offset(layout::APLIC_IDC_ITHRESHOLD) {
                port.write32(offset, 0);
            }
        }
        assert(port.log() =~= start + seq![port::w32(layout::APLIC_DOMAINCFG, 0)] + delivery_reset(
            self.delivery,
        ));
        self.clear_sources(port);
        port.barrier();
        assert(port.log() =~= start + seq![port::w32(layout::APLIC_DOMAINCFG, 0)] + delivery_reset(
            self.delivery,
        ) + sources_cleared(self.layout, self.num_sources as int) + seq![port::fence()]);
    }

    /// Switches the domain on and says whether it took the way of delivery. A
    /// domain that no CPU serves stays off.
    pub fn activate<F: FnMut(Access) -> u64>(&self, port: &mut Port<F>) -> (ok: bool)
        requires
            self.wf(),
            old(port).wf(),
        ensures
            final(port).wf(),
            final(port).performs() == old(port).performs(),
            exists|configured: u32|
                ok == (domain_bits(configured) == domain_value(self.delivery)) && final(port).log()
                    == old(port).log() + delivery_opened(self.delivery) + seq![
                    port::w32(layout::APLIC_DOMAINCFG, domain_value(self.delivery)),
                    port::fence(),
                    #[trigger] port::r32(layout::APLIC_DOMAINCFG, configured),
                ],
    {
        let ghost start = port.log();
        let value: u32 = match self.delivery {
            AplicDelivery::Msi(_) => layout::APLIC_DOMAINCFG_DM + layout::APLIC_DOMAINCFG_IE,
            AplicDelivery::Direct(direct) => {
                let threshold = direct.service_idc_offset(layout::APLIC_IDC_ITHRESHOLD);
                let delivery = direct.service_idc_offset(layout::APLIC_IDC_IDELIVERY);
                match (threshold, delivery) {
                    (Some(threshold), Some(delivery)) => {
                        port.write32(threshold, 0);
                        port.write32(delivery, 1);
                        layout::APLIC_DOMAINCFG_IE
                    },
                    _ => 0,
                }
            },
        };
        assert(value == domain_value(self.delivery));
        assert(port.log() =~= start + delivery_opened(self.delivery));
        port.write32(layout::APLIC_DOMAINCFG, value);
        port.barrier();
        let configured: u32 = port.read32(layout::APLIC_DOMAINCFG);
        assert(port.log() =~= start + delivery_opened(self.delivery) + seq![
            port::w32(layout::APLIC_DOMAINCFG, domain_value(self.delivery)),
            port::fence(),
            port::r32(layout::APLIC_DOMAINCFG, configured),
        ]);
        configured / 0x100 % 2 * 0x100 + configured / 4 % 2 * 4 == value
    }

    /// Switches the domain on; a domain that does not take the way of delivery is
    /// shut again.
    pub fn bring_up<F: FnMut(Access) -> u64>(&mut self, port: &mut Port<F>) -> (result: Result<
        (),
        PnpError,
    >)
        requires
            old(self).wf(),
            old(port).wf(),
            !old(self).quiesced,
        ensures
            final(self).wf(),
            final(port).wf(),
            final(port).performs() == old(port).performs(),
            exists|configured: u32|
                {
                    let on = old(port).log() + delivery_opened(old(self).delivery) + seq![
                        port::w32(layout::APLIC_DOMAINCFG, domain_value(old(self).delivery)),
                        port::fence(),
                        #[trigger] port::r32(layout::APLIC_DOMAINCFG, configured),
                    ];
                    if domain_bits(configured) == domain_value(old(self).delivery) {
                        result is Ok && *final(self) == *old(self) && final(port).log() == on
                    } else {
                        &&& result == Err::<(), PnpError>(
                            PnpError::HardwareFailure("APLIC rejected delivery mode"),
                        )
                        &&& final(self).quiesced
                        &&& final(self).controller == old(self).controller
                        &&& final(self).layout == old(self).layout
                        &&& final(self).num_sources == old(self).num_sources
                        &&& final(self).delivery == old(self).delivery
                        &&& final(self).sources@[0] == old(self).sources@[0]
                        &&& forall|i: int|
                            1 <= i <= old(self).num_sources ==> #[trigger] final(self).sources@[i]
                                == (AplicSourceState { mode: AplicSourceMode::Inactive, target: 0 })
                        &&& final(port).log() == on + old(self).shut_trace()
                    }
                },
    {
        let ghost start = port.log();
        if self.activate(port) {
            return Ok(());
        }
        let ghost configured = choose|configured: u32|
            domain_bits(configured) != domain_value(self.delivery) && port.log() == start
                + delivery_opened(self.delivery) + seq![
                port::w32(layout::APLIC_DOMAINCFG, domain_value(self.delivery)),
                port::fence(),
                #[trigger] port::r32(layout::APLIC_DOMAINCFG, configured),
            ];
        assert(port::r32(layout::APLIC_DOMAINCFG, configured) == port::r32(
            layout::APLIC_DOMAINCFG,
            configured,
        ));
        self.quiesce(port);
        Err(PnpError::HardwareFailure("APLIC rejected delivery mode"))
    }

    /// Whether sources can be delivered at all.
    pub open spec fn served(&self) -> bool {
        self.delivery matches AplicDelivery::Direct(direct) ==> direct.service() is Some
    }

    /// What has to be done to set up a source. A source keeps the way it was first
    /// set up for.
    pub open spec fn step_for(&self, source: u32, mode: AplicSourceMode) -> SourceStep {
        if self.quiesced || !self.served() || source == 0 || source > self.num_sources {
            SourceStep::Answer(false)
        } else {
            let state = self.sources@[source as int];
            if state.mode != AplicSourceMode::Inactive {
                SourceStep::Answer(state.mode == mode)
            } else if state.target == 0 {
                match self.delivery {
                    AplicDelivery::Msi(parent) => SourceStep::NeedsVector(parent.controller),
                    AplicDelivery::Direct(_) => SourceStep::Answer(false),
                }
            } else {
                SourceStep::Ready
            }
        }
    }

    pub fn source_step(&self, source: u32, mode: AplicSourceMode) -> (step: SourceStep)
        requires
            self.wf(),
        ensures
            step == self.step_for(source, mode),
    {
        if self.quiesced || source == 0 || source > self.num_sources {
            return SourceStep::Answer(false);
        }
        if let AplicDelivery::Direct(direct) = self.delivery {
            if direct.service_hart_index().is_none() {
                return SourceStep::Answer(false);
            }
        }
        let state = self.sources[source as usize];
        if state.mode != AplicSourceMode::Inactive {
            return SourceStep::Answer(state.mode == mode);
        }
        if state.target == 0 {
            return match self.delivery {
                AplicDelivery::Msi(parent) => SourceStep::NeedsVector(parent.controller),
                AplicDelivery::Direct(_) => SourceStep::Answer(false),
            };
        }
        SourceStep::Ready
    }

    /// Whether a request to set up a source was answered: with what is known
    /// already, or by setting it up, if need be with the target that `allocate`
    /// gave.
    pub open spec fn source_configured<A: FnMut(u32) -> Option<u32>>(
        &self,
        after: &Aplic,
        source: u32,
        mode: AplicSourceMode,
        ok: bool,
        log: Seq<Exchange>,
        now: Seq<Exchange>,
        allocate: A,
    ) -> bool {
        match self.step_for(source, mode) {
            SourceStep::Answer(answer) => ok == answer && *after == *self && now == log,
            SourceStep::NeedsVector(_) => exists|target: Option<u32>| #[trigger]
                call_ensures(allocate, (source,), target) && match target {
                    None => !ok && *after == *self && now == log,
                    Some(target) => ok && self.source_set(after, source, mode, target, log, now),
                },
            SourceStep::Ready => ok && self.source_set(
                after,
                source,
                mode,
                self.sources@[source as int].target,
                log,
                now,
            ),
        }
    }

    /// Sets up a source. Where it needs a message interrupt, `allocate` gets one
    /// and gives its target register.
    pub fn configure_source<F: FnMut(Access) -> u64, A: FnMut(u32) -> Option<u32>>(
        &mut self,
        port: &mut Port<F>,
        source: u32,
        mode: AplicSourceMode,
        mut allocate: A,
    ) -> (ok: bool)
        requires
            old(self).wf(),
            old(port).wf(),
            forall|source: u32| #[trigger] call_requires(allocate, (source,)),
        ensures
            final(self).wf(),
            final(port).wf(),
            final(port).performs() == old(port).performs(),
            old(self).source_configured(
                final(self),
                source,
                mode,
                ok,
                old(port).log(),
                final(port).log(),
                allocate,
            ),
    {
        let target: u32 = match self.source_step(source, mode) {
            SourceStep::Answer(answer) => {
                return answer;
            },
            SourceStep::NeedsVector(_) => {
                let target = allocate(source);
                assert(call_ensures(allocate, (source,), target));
                match target {
                    Some(target) => target,
                    None => {
                        return false;
                    },
                }
            },
            SourceStep::Ready => self.sources[source as usize].target,
        };
        if let Some(offset) = self.layout.sourcecfg_offset(source) {
            port.write32(offset, mode.code());
        }
        if let Some(offset) = self.layout.target_offset(source) {
            port.write32(offset, target);
        }
        port.barrier();
        assert(port.log() =~= old(port).log() + seq![
            port::w32(self.layout.sourcecfg_at(source as int) as usize, mode.value()),
            port::w32(self.layout.target_at(source as int) as usize, target),
            port::fence(),
        ]);
        self.sources.set(source as usize, AplicSourceState { mode, target });
        true
    }

    /// Whether a source was set up: both its registers are written before it
    /// counts as set up.
    pub open spec fn source_set(
        &self,
        after: &Aplic,
        source: u32,
        mode: AplicSourceMode,
        target: u32,
        log: Seq<Exchange>,
        now: Seq<Exchange>,
    ) -> bool {
        &&& after.controller == self.controller
        &&& after.layout == self.layout
        &&& after.num_sources == self.num_sources
        &&& after.delivery == self.delivery
        &&& after.quiesced == self.quiesced
        &&& after.sources@ == self.sources@.update(
            source as int,
            AplicSourceState { mode, target },
        )
        &&& now == log + seq![
            port::w32(self.layout.sourcecfg_at(source as int) as usize, mode.value()),
            port::w32(self.layout.target_at(source as int) as usize, target),
            port::fence(),
        ]
    }

    /// Enables or disables a source; only one that is set up can be enabled.
    pub fn set_source_enabled<F: FnMut(Access) -> u64>(
        &self,
        port: &mut Port<F>,
        source: u32,
        enabled: bool,
    ) -> (ok: bool)
        requires
            self.wf(),
            old(port).wf(),
        ensures
            final(port).wf(),
            final(port).performs() == old(port).performs(),
            ok == (1 <= source <= self.num_sources && (enabled ==> !self.quiesced
                && self.sources@[source as int].mode != AplicSourceMode::Inactive)),
            final(port).log() == (if ok {
                old(port).log() + seq![
                    port::w32(
                        if enabled {
                            layout::APLIC_SETIENUM
                        } else {
                            layout::APLIC_CLRIENUM
                        },
                        source,
                    ),
                    port::fence(),
                ]
            } else {
                old(port).log()
            }),
    {
        if source == 0 || source > self.num_sources {
            return false;
        }
        if enabled && (self.quiesced || self.sources[source as usize].mode
            == AplicSourceMode::Inactive) {
            return false;
        }
        port.write32(
            if enabled {
                layout::APLIC_SETIENUM
            } else {
                layout::APLIC_CLRIENUM
            },
            source,
        );
        port.barrier();
        assert(port.log() =~= old(port).log() + seq![
            port::w32(
                if enabled {
                    layout::APLIC_SETIENUM
                } else {
                    layout::APLIC_CLRIENUM
                },
                source,
            ),
            port::fence(),
        ]);
        true
    }

    /// Whether a source is raised as long as its line is active.
    pub open spec fn is_level(&self, source: u32) -> bool {
        let mode = self.sources@[source as int].mode;
        mode == AplicSourceMode::LevelHigh || mode == AplicSourceMode::LevelLow
    }

    /// Raises a level source again if its line is still active.
    pub fn retrigger_level<F: FnMut(Access) -> u64>(&self, port: &mut Port<F>, source: u32)
        requires
            self.wf(),
            old(port).wf(),
            source <= self.num_sources,
        ensures
            final(port).wf(),
            final(port).performs() == old(port).performs(),
            final(port).log() == (if self.is_level(source) {
                old(port).log() + seq![port::w32(layout::APLIC_SETIPNUM_LE, source), port::fence()]
            } else {
                old(port).log()
            }),
    {
        let mode = self.sources[source as usize].mode;
        if mode == AplicSourceMode::LevelHigh || mode == AplicSourceMode::LevelLow {
            port.write32(layout::APLIC_SETIPNUM_LE, source);
            port.barrier();
            assert(port.log() =~= old(port).log() + seq![
                port::w32(layout::APLIC_SETIPNUM_LE, source),
                port::fence(),
            ]);
        }
    }

    /// The writes that shut the controller.
    pub open spec fn shut_trace(&self) -> Seq<Exchange> {
        seq![port::w32(layout::APLIC_DOMAINCFG, 0)] + delivery_stopped(self.delivery)
            + sources_cleared(self.layout, self.num_sources as int) + seq![port::fence()]
    }

    /// Shuts the controller for good.
    pub fn quiesce<F: FnMut(Access) -> u64>(&mut self, port: &mut Port<F>)
        requires
            old(self).wf(),
            old(port).wf(),
        ensures
            final(self).wf(),
            final(port).wf(),
            final(port).performs() == old(port).performs(),
            final(self).quiesced,
            final(self).controller == old(self).controller,
            final(self).layout == old(self).layout,
            final(self).num_sources == old(self).num_sources,
            final(self).delivery == old(self).delivery,
            if old(self).quiesced {
                final(self).sources@ == old(self).sources@ && final(port).log() == old(port).log()
            } else {
                &&& final(port).log() == old(port).log() + old(self).shut_trace()
                &&& final(self).sources@[0] == old(self).sources@[0]
                &&& forall|i: int|
                    1 <= i <= old(self).num_sources ==> #[trigger] final(self).sources@[i] == (
                    AplicSourceState { mode: AplicSourceMode::Inactive, target: 0 })
            },
    {
        if self.quiesced {
            return ;
        }
        self.quiesced = true;
        let ghost start = port.log();
        port.write32(layout::APLIC_DOMAINCFG, 0);
        if let AplicDelivery::Direct(direct) = self.delivery {
            if let Some(offset) = direct.service_idc_offset(layout::APLIC_IDC_IDELIVERY) {
                port.write32(offset, 0);
            }
        }
        assert(port.log() =~= start + seq![port::w32(layout::APLIC_DOMAINCFG, 0)]
            + delivery_stopped(self.delivery));
        self.clear_sources(port);
        port.barrier();
        assert(port.log() =~= start + old(self).shut_trace());
        let ghost first = self.sources@[0];
        let mut i: usize = 1;
        while i < self.sources.len()
            invariant
                1 <= i <= self.sources@.len(),
                self.wf(),
                self.quiesced,
                self.controller == old(self).controller,
                self.layout == old(self).layout,
                self.num_sources == old(self).num_sources,
                self.delivery == old(self).delivery,
                self.sources@[0] == first,
                forall|k: int|
                    1 <= k < i ==> #[trigger] self.sources@[k] == (AplicSourceState {
                        mode: AplicSourceMode::Inactive,
                        target: 0,
                    }),
            decreases self.sources@.len() - i,
        {
            self.sources.set(i, AplicSourceState { mode: AplicSourceMode::Inactive, target: 0 });
            i += 1;
        }
    }

    /// Delivers a source whose message interrupt arrived.
    pub fn handle_parent<F: FnMut(Access) -> u64>(&self, port: &mut Port<F>, source: u32) -> (status:
        IrqStatus)
        requires
            self.wf(),
            old(port).wf(),
            source <= self.num_sources,
        ensures
            final(port).wf(),
            final(port).performs() == old(port).performs(),
            status == IrqStatus::Handled,
            final(port).log() == (if self.quiesced {
                old(port).log()
            } else if self.is_level(source) {
                old(port).log() + seq![
                    port::told(source as u64),
                    port::w32(layout::APLIC_SETIPNUM_LE, source),
                    port::fence(),
                ]
            } else {
                old(port).log() + seq![port::told(source as u64)]
            }),
    {
        if self.quiesced {
            return IrqStatus::Handled;
        }
        port.notify(source as u64);
        self.retrigger_level(port, source);
        proof {
            if self.is_level(source) {
                assert(port.log() =~= old(port).log() + seq![
                    port::told(source as u64),
                    port::w32(layout::APLIC_SETIPNUM_LE, source),
                    port::fence(),
                ]);
            } else {
                assert(port.log() =~= old(port).log() + seq![port::told(source as u64)]);
            }
        }
        IrqStatus::Handled
    }

    /// Whether the claim register of the serving CPU is at `claim`.
    pub open spec fn claims_at(&self, claim: usize) -> bool {
        self.delivery matches AplicDelivery::Direct(direct) && direct.idc_at(
            layout::APLIC_IDC_CLAIMI,
        ) == Some(claim)
    }

    /// Delivers the sources that are pending for the serving CPU, at most as many
    /// as there are sources.
    pub fn handle_direct<F: FnMut(Access) -> u64>(&self, port: &mut Port<F>) -> (status: IrqStatus)
        requires
            self.wf(),
            old(port).wf(),
        ensures
            final(port).wf(),
            final(port).performs() == old(port).performs(),
            status == IrqStatus::Handled,
            self.quiesced || (forall|claim: usize| !#[trigger] self.claims_at(claim)) ==> final(port).log() == old(port).log(),
            forall|claim: usize|
                !self.quiesced && #[trigger] self.claims_at(claim) ==> exists|claims: Seq<u32>| {
                    &&& claims.len() <= self.num_sources
                    &&& forall|i: int|
                        0 <= i < claims.len() ==> AplicDirectLayout::claimed(
                            #[trigger] claims[i],
                        ) is Some
                    &&& #[trigger] self.direct_passed(
                        claim,
                        claims,
                        old(port).log(),
                        final(port).log(),
                    )
                },
    {
        if self.quiesced {
            return IrqStatus::Handled;
        }
        let claim: usize = match self.delivery {
            AplicDelivery::Direct(direct) => match direct.service_idc_offset(
                layout::APLIC_IDC_CLAIMI,
            ) {
                Some(claim) => claim,
                None => {
                    return IrqStatus::Handled;
                },
            },
            AplicDelivery::Msi(_) => {
                return IrqStatus::Handled;
            },
        };
        assert(self.claims_at(claim));
        let ghost start = port.log();
        let ghost mut claims: Seq<u32> = Seq::empty();
        let mut round: u32 = 0;
        assert(start + direct_rounds(claim, claims) =~= start);
        while round < self.num_sources
            invariant
                round <= self.num_sources,
                port.wf(),
                port.performs() == old(port).performs(),
                claims.len() == round,
                !self.quiesced,
                self.claims_at(claim),
                start == old(port).log(),
                forall|i: int|
                    0 <= i < claims.len() ==> AplicDirectLayout::claimed(
                        #[trigger] claims[i],
                    ) is Some,
                port.log() == start + direct_rounds(claim, claims),
            decreases self.num_sources - round,
        {
            let value: u32 = port.read32(claim);
            let ghost before = claims;
            match AplicDirectLayout::claimed_source(value) {
                Some(source) => {
                    port.notify(source as u64);
                    proof {
                        claims = claims.push(value);
                        assert(claims.drop_last() =~= before);
                        assert(port.log() =~= start + direct_rounds(claim, claims));
                    }
                },
                None => {
                    assert(port.log() =~= start + direct_rounds(claim, claims) + seq![
                        port::r32(claim, value),
                    ]);
                    assert(self.direct_passed(claim, claims, start, port.log()));
                    return IrqStatus::Handled;
                },
            }
            round += 1;
        }
        assert(self.direct_passed(claim, claims, start, port.log()));
        IrqStatus::Handled
    }

    /// Whether these claims are a pass over the claim register: it ends when
    /// nothing is pending or when there were as many claims as sources.
    pub open spec fn direct_passed(
        &self,
        claim: usize,
        claims: Seq<u32>,
        log: Seq<Exchange>,
        now: Seq<Exchange>,
    ) -> bool {
        if claims.len() == self.num_sources {
            now == log + direct_rounds(claim, claims)
        } else {
            exists|value: u32|
                AplicDirectLayout::claimed(value) is None && now == log + direct_rounds(
                    claim,
                    claims,
                ) + seq![#[trigger] port::r32(claim, value)]
        }
    }

    /// The source that firmware means by the cells of an interrupt, set up as they
    /// say.
    pub fn translate<F: FnMut(Access) -> u64, A: FnMut(u32) -> Option<u32>>(
        &mut self,
        port: &mut Port<F>,
        cells: &[u32],
        allocate: A,
    ) -> (result: Option<u32>)
        requires
            old(self).wf(),
            old(port).wf(),
            forall|source: u32| #[trigger] call_requires(allocate, (source,)),
        ensures
            final(self).wf(),
            final(port).wf(),
            final(port).performs() == old(port).performs(),
            if cells@.len() == 2 && layout::mode_of(cells@[1]) is Ok {
                &&& result is Some ==> result == Some(cells@[0])
                &&& old(self).source_configured(
                    final(self),
                    cells@[0],
                    layout::mode_of(cells@[1])->Ok_0,
                    result is Some,
                    old(port).log(),
                    final(port).log(),
                    allocate,
                )
            } else {
                result is None && *final(self) == *old(self) && final(port).log() == old(port).log()
            },
    {
        if cells.len() != 2 {
            return None;
        }
        match aplic_source_mode(cells[1]) {
            Ok(mode) => if self.configure_source(port, cells[0], mode, allocate) {
                Some(cells[0])
            } else {
                None
            },
            Err(_) => None,
        }
    }

    /// Sets up a source for a way to read its line, if one is asked for.
    pub fn configure_line<F: FnMut(Access) -> u64, A: FnMut(u32) -> Option<u32>>(
        &mut self,
        port: &mut Port<F>,
        hwirq: u32,
        trigger: Option<IrqTrigger>,
        polarity: Option<IrqPolarity>,
        allocate: A,
    ) -> (ok: bool)
        requires
            old(self).wf(),
            old(port).wf(),
            forall|source: u32| #[trigger] call_requires(allocate, (source,)),
        ensures
            final(self).wf(),
            final(port).wf(),
            final(port).performs() == old(port).performs(),
            match requested(trigger, polarity) {
                LineRequest::Mode(mode) => old(self).source_configured(
                    final(self),
                    hwirq,
                    mode,
                    ok,
                    old(port).log(),
                    final(port).log(),
                    allocate,
                ),
                request => ok == (request == LineRequest::Nothing) && *final(self) == *old(self)
                    && final(port).log() == old(port).log(),
            },
    {
        match line_request(trigger, polarity) {
            LineRequest::Nothing => true,
            LineRequest::Incomplete => false,
            LineRequest::Mode(mode) => self.configure_source(port, hwirq, mode, allocate),
        }
    }
}

/// The target register of every source before it is set up.
pub open spec fn first_target(delivery: AplicDelivery) -> u32 {
    match delivery {
        AplicDelivery::Msi(_) => 0,
        AplicDelivery::Direct(direct) => match direct.target_value() {
            Some(target) => target,
            None => 0,
        },
    }
}

/// How an interrupt is raised.
#[derive(Clone, Copy, PartialEq, Eq, Structural, Debug)]
pub enum IrqTrigger {
    Edge,
    Level,
}

/// Which level raises an interrupt.
#[derive(Clone, Copy, PartialEq, Eq, Structural, Debug)]
pub enum IrqPolarity {
    High,
    Low,
}

/// What a request for a way to read a line comes to.
#[derive(Clone, Copy, PartialEq, Eq, Structural, Debug)]
pub enum LineRequest {
    /// Nothing is asked for.
    Nothing,
    Mode(AplicSourceMode),
    /// Only half of it is given.
    Incomplete,
}

/// What a request comes to: both halves are needed.
pub open spec fn requested(trigger: Option<IrqTrigger>, polarity: Option<IrqPolarity>) -> LineRequest {
    match (trigger, polarity) {
        (None, None) => LineRequest::Nothing,
        (Some(IrqTrigger::Edge), Some(IrqPolarity::High)) => LineRequest::Mode(
            AplicSourceMode::EdgeRise,
        ),
        (Some(IrqTrigger::Edge), Some(IrqPolarity::Low)) => LineRequest::Mode(
            AplicSourceMode::EdgeFall,
        ),
        (Some(IrqTrigger::Level), Some(IrqPolarity::High)) => LineRequest::Mode(
            AplicSourceMode::LevelHigh,
        ),
        (Some(IrqTrigger::Level), Some(IrqPolarity::Low)) => LineRequest::Mode(
            AplicSourceMode::LevelLow,
        ),
        _ => LineRequest::Incomplete,
    }
}

pub fn line_request(trigger: Option<IrqTrigger>, polarity: Option<IrqPolarity>) -> (request:
    LineRequest)
    ensures
        request == requested(trigger, polarity),
{
    match (trigger, polarity) {
        (None, None) => LineRequest::Nothing,
        (Some(IrqTrigger::Edge), Some(IrqPolarity::High)) => LineRequest::Mode(
            AplicSourceMode::EdgeRise,
        ),
        (Some(IrqTrigger::Edge), Some(IrqPolarity::Low)) => LineRequest::Mode(
            AplicSourceMode::EdgeFall,
        ),
        (Some(IrqTrigger::Level), Some(IrqPolarity::High)) => LineRequest::Mode(
            AplicSourceMode::LevelHigh,
        ),
        (Some(IrqTrigger::Level), Some(IrqPolarity::Low)) => LineRequest::Mode(
            AplicSourceMode::LevelLow,
        ),
        _ => LineRequest::Incomplete,
    }
}

/// Getting a message interrupt for a source, step by step.
#[derive(Clone, Copy, PartialEq, Eq, Structural, Debug)]
pub enum RouteStage {
    Reserving,
    Allocating,
    Registering { target: u32 },
    Owning { target: u32 },
    Unregistering,
    Freeing,
    Finished(Option<u32>),
}

/// What came of a step.
#[derive(Clone, Copy, PartialEq, Eq, Structural, Debug)]
pub enum RouteEvent {
    Succeeded,
    /// A message interrupt with this address and identity.
    Vector { address: u64, data: u32 },
    Failed,
}

/// The stage after a step. A vector that no target register can name, or whose
/// handler cannot be registered, is given back. Once a handler is registered its
/// vector is given back only if the handler could be removed again, as it may be
/// running elsewhere.
pub open spec fn route_after(
    scheme: ImsicAddressScheme,
    stage: RouteStage,
    event: RouteEvent,
) -> RouteStage {
    match (stage, event) {
        (RouteStage::Reserving, RouteEvent::Succeeded) => RouteStage::Allocating,
        (RouteStage::Allocating, RouteEvent::Vector { address, data }) => if scheme.can_target(
            address,
            data,
        ) {
            RouteStage::Registering {
                target: (scheme.hart_of(address) * 0x4_0000 + scheme.guest_of(address) * 0x1000
                    + data) as u32,
            }
        } else {
            RouteStage::Freeing
        },
        (RouteStage::Registering { target }, RouteEvent::Succeeded) => RouteStage::Owning {
            target,
        },
        (RouteStage::Registering { .. }, _) => RouteStage::Freeing,
        (RouteStage::Owning { target }, RouteEvent::Succeeded) => RouteStage::Finished(
            Some(target),
        ),
        (RouteStage::Owning { .. }, _) => RouteStage::Unregistering,
        (RouteStage::Unregistering, RouteEvent::Succeeded) => RouteStage::Freeing,
        (RouteStage::Finished(result), _) => RouteStage::Finished(result),
        _ => RouteStage::Finished(None),
    }
}

/// The stage after a step.
pub fn advance_route(scheme: ImsicAddressScheme, stage: RouteStage, event: RouteEvent) -> (next:
    RouteStage)
    ensures
        next == route_after(scheme, stage, event),
{
    match (stage, event) {
        (RouteStage::Reserving, RouteEvent::Succeeded) => RouteStage::Allocating,
        (
            RouteStage::Allocating,
            RouteEvent::Vector { address, data },
        ) => match scheme.encode_aplic_target(address, data) {
            Some(target) => RouteStage::Registering { target },
            None => RouteStage::Freeing,
        },
        (RouteStage::Registering { target }, RouteEvent::Succeeded) => RouteStage::Owning {
            target,
        },
        (RouteStage::Registering { .. }, _) => RouteStage::Freeing,
        (RouteStage::Owning { target }, RouteEvent::Succeeded) => RouteStage::Finished(
            Some(target),
        ),
        (RouteStage::Owning { .. }, _) => RouteStage::Unregistering,
        (RouteStage::Unregistering, RouteEvent::Succeeded) => RouteStage::Freeing,
        (RouteStage::Finished(result), _) => RouteStage::Finished(result),
        _ => RouteStage::Finished(None),
    }
}

} // verus!
