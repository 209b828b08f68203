//! Handing out message interrupts and delivering them.

use vstd::prelude::*;
use crate::aia::vector;
use crate::aia::vector::ImsicVectorLayout;
use crate::platform::{PnpError, PnpResourceKind};

verus! {

/// What is asked of the interrupt files of the CPUs.
#[derive(Clone, Copy, PartialEq, Eq, Structural, Debug)]
pub enum ImsicAccess {
    /// Enable or disable an identity of a CPU's file.
    SetEnabled { cpu: usize, id: u32, on: bool },
    /// Forget that an identity is pending.
    Clear { cpu: usize, id: u32 },
    /// Take the most urgent identity of this CPU.
    Claim,
    /// Bring this CPU's file in line with what was set up.
    Sync,
    /// Deliver an interrupt.
    Dispatch(u32),
}

/// A request and its answer.
pub ghost struct ImsicExchange {
    pub access: ImsicAccess,
    pub reply: u64,
}

/// A request that succeeded or failed.
pub open spec fn answered_with(access: ImsicAccess, ok: bool) -> ImsicExchange {
    ImsicExchange {
        access,
        reply: if ok {
            1
        } else {
            0
        },
    }
}

/// A claim of an identity, or of none.
pub open spec fn claimed(id: u32) -> ImsicExchange {
    ImsicExchange { access: ImsicAccess::Claim, reply: id as u64 }
}

/// A request without an answer.
pub open spec fn told(access: ImsicAccess) -> ImsicExchange {
    ImsicExchange { access, reply: 0 }
}

/// What is taken of a reply to an access.
pub open spec fn taken(access: ImsicAccess, reply: u64) -> u64 {
    match access {
        ImsicAccess::SetEnabled { .. } | ImsicAccess::Clear { .. } => if reply != 0 {
            1
        } else {
            0
        },
        ImsicAccess::Claim => reply % 0x1_0000_0000,
        _ => 0,
    }
}

/// Whether an exchange is a call of a function, with what was taken of its reply.
pub open spec fn answered<F: FnMut(ImsicAccess) -> u64>(perform: F, exchange: ImsicExchange) -> bool {
    exists|reply: u64| #[trigger]
        call_ensures(perform, (exchange.access,), reply) && exchange.reply == taken(
            exchange.access,
            reply,
        )
}

/// Whether each exchange of a trace is a call of a function.
pub open spec fn all_answered<F: FnMut(ImsicAccess) -> u64>(
    perform: F,
    trace: Seq<ImsicExchange>,
) -> bool {
    forall|i: int| 0 <= i < trace.len() ==> answered(perform, #[trigger] trace[i])
}

/// Access to the interrupt files of the CPUs.
pub struct ImsicPort<F> {
    perform: F,
    log: Ghost<Seq<ImsicExchange>>,
}

impl<F: FnMut(ImsicAccess) -> u64> ImsicPort<F> {
    /// What was done so far.
    pub closed spec fn log(&self) -> Seq<ImsicExchange> {
        self.log@
    }

    /// The caller's function, which performs the accesses.
    pub closed spec fn performs(&self) -> F {
        self.perform
    }

    /// The caller's function may be called for any access, and gave every reply of the
    /// log.
    pub closed spec fn wf(&self) -> bool {
        &&& forall|access: ImsicAccess| #[trigger] call_requires(self.perform, (access,))
        &&& all_answered(self.perform, self.log@)
    }

    /// Nothing is in the log but calls of the caller's function.
    pub proof fn log_is_answered(&self)
        requires
            self.wf(),
        ensures
            all_answered(self.performs(), self.log()),
    {
    }

    pub fn new(perform: F) -> (port: Self)
        requires
            forall|access: ImsicAccess| #[trigger] call_requires(perform, (access,)),
        ensures
            port.wf(),
            port.performs() == perform,
            port.log() == Seq::<ImsicExchange>::empty(),
    {
        ImsicPort { perform, log: Ghost(Seq::empty()) }
    }

    pub fn set_enabled(&mut self, cpu: usize, id: u32, on: bool) -> (ok: bool)
        requires
            old(self).wf(),
        ensures
            final(self).wf(),
            final(self).performs() == old(self).performs(),
            final(self).log() == old(self).log().push(
                answered_with((ImsicAccess::SetEnabled { cpu, id, on }), ok),
            ),
    {
        let access = ImsicAccess::SetEnabled { cpu, id, on };
        let ok = (self.perform)(access) != 0;
        self.log = Ghost(self.log@.push(answered_with(access, ok)));
        ok
    }

    pub fn clear(&mut self, cpu: usize, id: u32) -> (ok: bool)
        requires
            old(self).wf(),
        ensures
            final(self).wf(),
            final(self).performs() == old(self).performs(),
            final(self).log() == old(self).log().push(
                answered_with((ImsicAccess::Clear { cpu, id }), ok),
            ),
    {
        let access = ImsicAccess::Clear { cpu, id };
        let ok = (self.perform)(access) != 0;
        self.log = Ghost(self.log@.push(answered_with(access, ok)));
        ok
    }

    /// Takes the most urgent identity of this CPU; zero if there is none.
    pub fn claim(&mut self) -> (id: u32)
        requires
            old(self).wf(),
        ensures
            final(self).wf(),
            final(self).performs() == old(self).performs(),
            final(self).log() == old(self).log().push(claimed(id)),
    {
        let id: u32 = ((self.perform)(ImsicAccess::Claim) % 0x1_0000_0000) as u32;
        self.log = Ghost(self.log@.push(claimed(id)));
        id
    }

    pub fn sync(&mut self)
        requires
            old(self).wf(),
        ensures
            final(self).wf(),
            final(self).performs() == old(self).performs(),
            final(self).log() == old(self).log().push(told(ImsicAccess::Sync)),
    {
        let _ = (self.perform)(ImsicAccess::Sync);
        self.log = Ghost(self.log@.push(told(ImsicAccess::Sync)));
    }

    pub fn dispatch(&mut self, hwirq: u32)
        requires
            old(self).wf(),
        ensures
            final(self).wf(),
            final(self).performs() == old(self).performs(),
            final(self).log() == old(self).log().push(told(ImsicAccess::Dispatch(hwirq))),
    {
        let _ = (self.perform)(ImsicAccess::Dispatch(hwirq));
        self.log = Ghost(self.log@.push(told(ImsicAccess::Dispatch(hwirq))));
    }
}

/// The interrupt file of a CPU.
#[derive(Clone, Copy, PartialEq, Eq, Structural, Debug)]
pub struct ImsicCpuFile {
    pub logical_cpu: usize,
    pub hart_id: u64,
    pub msi_address: u64,
}

/// A message interrupt: what a device writes, and where.
#[derive(Clone, Copy, PartialEq, Eq, Structural, Debug)]
pub struct MsiVector {
    pub hwirq: u32,
    pub address: u64,
    pub data: u32,
}

/// Whether an interrupt was for the controller.
#[derive(Clone, Copy, PartialEq, Eq, Structural, Debug)]
pub enum IrqStatus {
    Handled,
    Unhandled,
}

/// The message interrupt controller.
pub struct Imsic {
    controller: u32,
    num_ids: u32,
    files: Vec<ImsicCpuFile>,
    vector_layout: ImsicVectorLayout,
    allocated: Vec<bool>,
    next_ordinal: usize,
    quiesced: bool,
}

/// The first file of a CPU from `from` on; the number of files if there is none.
pub open spec fn file_of_cpu(files: Seq<ImsicCpuFile>, logical_cpu: usize, from: int) -> int
    decreases files.len() - from,
{
    if from >= files.len() {
        files.len() as int
    } else if files[from].logical_cpu == logical_cpu {
        from
    } else {
        file_of_cpu(files, logical_cpu, from + 1)
    }
}

/// The identities of a file up to `count` that are in use.
pub open spec fn live_ids(
    used: Seq<bool>,
    num_ids: u32,
    file: int,
    cpu: usize,
    count: int,
) -> Seq<ImsicAccess>
    decreases count,
{
    if count <= 0 {
        Seq::empty()
    } else {
        let front = live_ids(used, num_ids, file, cpu, count - 1);
        if used[vector::number_of(num_ids, file, count)] {
            front.push(ImsicAccess::SetEnabled { cpu, id: count as u32, on: false })
        } else {
            front
        }
    }
}

/// What disables all identities of the first `count` files that are in use.
pub open spec fn live_files(
    files: Seq<ImsicCpuFile>,
    used: Seq<bool>,
    num_ids: u32,
    count: int,
) -> Seq<ImsicAccess>
    decreases count,
{
    if count <= 0 {
        Seq::empty()
    } else {
        live_files(files, used, num_ids, count - 1) + live_ids(
            used,
            num_ids,
            count - 1,
            files[count - 1].logical_cpu,
            num_ids as int,
        )
    }
}

/// Whether `trace` makes these requests, whatever was answered.
pub open spec fn makes(trace: Seq<ImsicExchange>, accesses: Seq<ImsicAccess>) -> bool {
    &&& trace.len() == accesses.len()
    &&& forall|i: int| 0 <= i < trace.len() ==> (#[trigger] trace[i]).access == accesses[i]
}

impl Imsic {
    pub closed spec fn handle(&self) -> u32 {
        self.controller
    }

    pub closed spec fn ids(&self) -> u32 {
        self.num_ids
    }

    pub closed spec fn cpu_files(&self) -> Seq<ImsicCpuFile> {
        self.files@
    }

    /// Which identities are in use, by number.
    pub closed spec fn used(&self) -> Seq<bool> {
        self.allocated@
    }

    /// Where the search for a free identity starts.
    pub closed spec fn next(&self) -> int {
        self.next_ordinal as int
    }

    pub closed spec fn is_quiet(&self) -> bool {
        self.quiesced
    }

    pub closed spec fn layout(&self) -> ImsicVectorLayout {
        self.vector_layout
    }

    pub closed spec fn fits(&self) -> bool {
        &&& self.vector_layout.wf()
        &&& self.vector_layout.file_count() == self.files@.len()
        &&& self.vector_layout.ids() == self.num_ids
        &&& self.allocated@.len() == self.files@.len() * (self.num_ids + 1)
        &&& self.next_ordinal < self.files@.len() * self.num_ids
    }

    /// There is a file, every identity has a place, and the search starts at one.
    pub open spec fn wf(&self) -> bool {
        &&& self.fits()
        &&& self.layout().wf()
        &&& self.layout().file_count() == self.cpu_files().len()
        &&& self.layout().ids() == self.ids()
        &&& self.used().len() == self.cpu_files().len() * (self.ids() + 1)
        &&& 0 <= self.next() < self.cpu_files().len() * self.ids()
    }

    /// Whether nothing but what is in use, and where the search starts, differs.
    pub open spec fn same_controller(&self, other: &Imsic) -> bool {
        &&& self.handle() == other.handle()
        &&& self.ids() == other.ids()
        &&& self.cpu_files() == other.cpu_files()
        &&& self.layout() == other.layout()
    }

    pub fn new(controller: u32, num_ids: u32, files: Vec<ImsicCpuFile>) -> (result: Result<
        Self,
        PnpError,
    >)
        ensures
            match result {
                Ok(imsic) => {
                    &&& ImsicVectorLayout::possible(files.len(), num_ids)
                    &&& imsic.wf()
                    &&& imsic.handle() == controller
                    &&& imsic.ids() == num_ids
                    &&& imsic.cpu_files() == files@
                    &&& forall|i: int| 0 <= i < imsic.used().len() ==> !#[trigger] imsic.used()[i]
                    &&& imsic.next() == 0
                    &&& !imsic.is_quiet()
                },
                Err(error) => !ImsicVectorLayout::possible(files.len(), num_ids) && error
                    == PnpError::Malformed(
                    PnpResourceKind::Msi,
                    "imsic vector namespace exceeds generic hwirq width",
                ),
            },
    {
        let vector_layout = match ImsicVectorLayout::new(files.len(), num_ids) {
            Some(layout) => layout,
            None => {
                return Err(
                    PnpError::Malformed(
                        PnpResourceKind::Msi,
                        "imsic vector namespace exceeds generic hwirq width",
                    ),
                );
            },
        };
        let slots: usize = files.len() * (num_ids as usize + 1);
        let mut allocated: Vec<bool> = Vec::new();
        allocated.resize(slots, false);
        proof {
            assert(0 < files@.len() * num_ids) by (nonlinear_arith)
                requires
                    files@.len() > 0,
                    num_ids > 0,
            ;
        }
        Ok(
            Imsic {
                controller,
                num_ids,
                files,
                vector_layout,
                allocated,
                next_ordinal: 0,
                quiesced: false,
            },
        )
    }

    /// The place of the identity that is handed out under an ordinal.
    pub open spec fn place_of(&self, ordinal: int) -> int {
        let (file, id) = self.layout().ordered(ordinal);
        vector::number_of(self.ids(), file, id)
    }

    /// The ordinal `offset` steps behind where the search starts.
    pub open spec fn searched(&self, offset: int) -> int {
        (self.next() + offset) % (self.cpu_files().len() * self.ids())
    }

    /// Whether the identity `offset` steps on is the first that is free.
    pub open spec fn first_free(&self, offset: int) -> bool {
        &&& 0 <= offset < self.cpu_files().len() * self.ids()
        &&& !self.used()[self.place_of(self.searched(offset))]
        &&& forall|k: int|
            0 <= k < offset ==> self.used()[self.place_of(#[trigger] self.searched(k))]
    }

    /// Whether a message of a vector arrives as its interrupt: it goes to the file of a CPU,
    /// and what that CPU claims there then stands for the number of the vector.
    pub open spec fn message_arrives(&self, vector: MsiVector) -> bool {
        exists|file: int|
            0 <= file < self.cpu_files().len() && (#[trigger] self.cpu_files()[file]).msi_address
                == vector.address && {
                let cpu = self.cpu_files()[file].logical_cpu;
                file_of_cpu(self.cpu_files(), cpu, 0) == file ==> self.number_claimed(
                    cpu,
                    vector.data,
                ) == Some(vector.hwirq)
            }
    }

    /// Hands out an identity: the first free one from where the last search
    /// stopped. None is handed out once the controller is shut.
    pub fn allocate_vector(&mut self) -> (result: Option<MsiVector>)
        requires
            old(self).wf(),
        ensures
            final(self).wf(),
            final(self).same_controller(old(self)),
            final(self).is_quiet() == old(self).is_quiet(),
            match result {
                None => {
                    &&& final(self).used() == old(self).used()
                    &&& final(self).next() == old(self).next()
                    &&& old(self).is_quiet() || forall|offset: int| !#[trigger] old(self).first_free(offset)
                },
                Some(vector) => !old(self).is_quiet() && exists|offset: int| #[trigger]
                    old(self).first_free(offset) && {
                        let ordinal = old(self).searched(offset);
                        let (file, id) = old(self).layout().ordered(ordinal);
                        let place = old(self).place_of(ordinal);
                        &&& final(self).used() == old(self).used().update(place, true)
                        &&& final(self).next() == (ordinal + 1) % (old(self).cpu_files().len()
                            * old(self).ids())
                        &&& vector.hwirq == place
                        &&& vector.address == old(self).cpu_files()[file].msi_address
                        &&& vector.data == id
                    },
            },
            result matches Some(vector) ==> !old(self).in_use(vector.hwirq) && final(self).in_use(
                vector.hwirq,
            ) && final(self).message_arrives(vector),
    {
        if self.quiesced {
            return None;
        }
        let capacity: usize = self.vector_layout.capacity();
        let mut offset: usize = 0;
        while offset < capacity
            invariant
                offset <= capacity,
                capacity == self.files@.len() * self.num_ids,
                *self == *old(self),
                self.wf(),
                !self.quiesced,
                forall|k: int|
                    0 <= k < offset ==> self.used()[self.place_of(#[trigger] self.searched(k))],
            decreases capacity - offset,
        {
            let ordinal: usize = if self.next_ordinal >= capacity - offset {
                self.next_ordinal - (capacity - offset)
            } else {
                self.next_ordinal + offset
            };
            proof {
                let sum = self.next_ordinal + offset;
                assert(sum % (capacity as int) == ordinal) by {
                    if sum >= capacity {
                        vstd::arithmetic::div_mod::lemma_fundamental_div_mod_converse(
                            sum,
                            capacity as int,
                            1,
                            ordinal as int,
                        );
                    } else {
                        vstd::arithmetic::div_mod::lemma_small_mod(sum as nat, capacity as nat);
                    }
                }
                assert(ordinal == self.searched(offset as int));
            }
            match self.vector_layout.ordinal(ordinal) {
                Some((file_index, id, slot, hwirq)) => {
                    if !self.allocated[slot] {
                        let ghost before = *self;
                        let next: usize = if ordinal + 1 == capacity {
                            0
                        } else {
                            ordinal + 1
                        };
                        proof {
                            if ordinal + 1 == capacity {
                                vstd::arithmetic::div_mod::lemma_fundamental_div_mod_converse(
                                    ordinal + 1,
                                    capacity as int,
                                    1,
                                    0,
                                );
                            } else {
                                vstd::arithmetic::div_mod::lemma_small_mod(
                                    (ordinal + 1) as nat,
                                    capacity as nat,
                                );
                            }
                            assert(before.first_free(offset as int));
                        }
                        self.next_ordinal = next;
                        self.allocated.set(slot, true);
                        proof {
                            vector::numbers_decode(before.layout(), file_index as int, id as int);
                            assert(self.cpu_files()[file_index as int].msi_address
                                == before.cpu_files()[file_index as int].msi_address);
                        }
                        return Some(
                            MsiVector {
                                hwirq,
                                address: self.files[file_index].msi_address,
                                data: id,
                            },
                        );
                    }
                },
                None => {
                    return None;
                },
            }
            offset += 1;
        }
        None
    }

    /// The number of an identity that this CPU claimed, if it is in use.
    pub open spec fn number_claimed(&self, logical_cpu: usize, id: u32) -> Option<u32> {
        let file = file_of_cpu(self.cpu_files(), logical_cpu, 0);
        let place = vector::number_of(self.ids(), file, id as int);
        if file < self.cpu_files().len() && 1 <= id <= self.ids() && self.used()[place] {
            Some(place as u32)
        } else {
            None
        }
    }

    pub fn claimed_hwirq(&self, logical_cpu: usize, id: u32) -> (result: Option<u32>)
        requires
            self.wf(),
        ensures
            result == self.number_claimed(logical_cpu, id),
    {
        let mut file: usize = 0;
        while file < self.files.len() && self.files[file].logical_cpu != logical_cpu
            invariant
                file <= self.files@.len(),
                file_of_cpu(self.files@, logical_cpu, 0) == file_of_cpu(
                    self.files@,
                    logical_cpu,
                    file as int,
                ),
            decreases self.files@.len() - file,
        {
            file += 1;
        }
        match self.vector_layout.slot(file, id) {
            Some(slot) => if self.allocated[slot] {
                self.vector_layout.hwirq(file, id)
            } else {
                None
            },
            None => None,
        }
    }

    /// Whether a number stands for an identity that is in use.
    pub open spec fn in_use(&self, hwirq: u32) -> bool {
        self.layout().decoded(hwirq) is Some && self.used()[hwirq as int]
    }

    proof fn lemma_decoded(&self, hwirq: u32)
        requires
            self.wf(),
            self.layout().decoded(hwirq) is Some,
        ensures
            hwirq < self.used().len(),
    {
        let stride = self.ids() + 1;
        let file = hwirq as int / stride;
        assert(hwirq < self.cpu_files().len() * stride) by (nonlinear_arith)
            requires
                file == hwirq as int / stride,
                file < self.cpu_files().len(),
                stride > 0,
        ;
    }

    /// Enables or disables an identity that is in use.
    pub fn set_identity_enabled<F: FnMut(ImsicAccess) -> u64>(
        &self,
        port: &mut ImsicPort<F>,
        hwirq: u32,
        enabled: bool,
    ) -> (ok: bool)
        requires
            self.wf(),
            old(port).wf(),
        ensures
            final(port).wf(),
            final(port).performs() == old(port).performs(),
            if (enabled && self.is_quiet()) || !self.in_use(hwirq) {
                !ok && final(port).log() == old(port).log()
            } else {
                let (file, id, _) = self.layout().decoded(hwirq)->0;
                final(port).log() == old(port).log().push(
                    answered_with(
                        ImsicAccess::SetEnabled {
                            cpu: self.cpu_files()[file as int].logical_cpu,
                            id,
                            on: enabled,
                        },
                        ok,
                    ),
                )
            },
    {
        if enabled && self.quiesced {
            return false;
        }
        match self.vector_layout.decode(hwirq) {
            Some((file_index, id, slot)) => {
                proof {
                    self.lemma_decoded(hwirq);
                }
                if !self.allocated[slot] {
                    return false;
                }
                port.set_enabled(self.files[file_index].logical_cpu, id, enabled)
            },
            None => false,
        }
    }

    /// Takes an identity back. It stays in use unless it was disabled and
    /// cleared, so that nobody else gets it before.
    pub fn free_vector<F: FnMut(ImsicAccess) -> u64>(
        &mut self,
        port: &mut ImsicPort<F>,
        hwirq: u32,
    )
        requires
            old(self).wf(),
            old(port).wf(),
        ensures
            final(self).wf(),
            final(port).wf(),
            final(port).performs() == old(port).performs(),
            final(self).same_controller(old(self)),
            final(self).next() == old(self).next(),
            final(self).is_quiet() == old(self).is_quiet(),
            if !old(self).in_use(hwirq) {
                final(port).log() == old(port).log() && final(self).used() == old(self).used()
            } else {
                let (file, id, _) = old(self).layout().decoded(hwirq)->0;
                let cpu = old(self).cpu_files()[file as int].logical_cpu;
                let off = ImsicAccess::SetEnabled { cpu, id, on: false };
                let clear = ImsicAccess::Clear { cpu, id };
                ||| final(port).log() == old(port).log().push(answered_with(off, false))
                    && final(self).used() == old(self).used()
                ||| final(port).log() == old(port).log().push(answered_with(off, true)).push(
                    answered_with(clear, false),
                ) && final(self).used() == old(self).used()
                ||| final(port).log() == old(port).log().push(answered_with(off, true)).push(
                    answered_with(clear, true),
                ) && final(self).used() == old(self).used().update(hwirq as int, false)
            },
    {
        match self.vector_layout.decode(hwirq) {
            Some((file_index, id, slot)) => {
                proof {
                    self.lemma_decoded(hwirq);
                }
                if !self.allocated[slot] {
                    return ;
                }
                let cpu: usize = self.files[file_index].logical_cpu;
                if port.set_enabled(cpu, id, false) && port.clear(cpu, id) {
                    self.allocated.set(slot, false);
                }
            },
            None => {},
        }
    }

    /// Disables the identities of a file that are in use.
    fn quiesce_file<F: FnMut(ImsicAccess) -> u64>(&self, port: &mut ImsicPort<F>, file: usize)
        requires
            self.wf(),
            old(port).wf(),
            file < self.cpu_files().len(),
        ensures
            final(port).wf(),
            final(port).performs() == old(port).performs(),
            exists|trace: Seq<ImsicExchange>|
                final(port).log() == old(port).log() + trace && #[trigger] makes(
                    trace,
                    live_ids(
                        self.used(),
                        self.ids(),
                        file as int,
                        self.cpu_files()[file as int].logical_cpu,
                        self.ids() as int,
                    ),
                ),
    {
        let cpu: usize = self.files[file].logical_cpu;
        let ghost start = port.log();
        let ghost mut trace: Seq<ImsicExchange> = Seq::empty();
        assert(start + trace =~= start);
        let mut id: u32 = 0;
        while id < self.num_ids
            invariant
                id <= self.num_ids,
                self.wf(),
                file < self.files@.len(),
                cpu == self.files@[file as int].logical_cpu,
                port.wf(),
                port.performs() == old(port).performs(),
                port.log() == start + trace,
                makes(
                    trace,
                    live_ids(self.used(), self.ids(), file as int, cpu, id as int),
                ),
            decreases self.num_ids - id,
        {
            let ghost before = trace;
            id += 1;
            if let Some(slot) = self.vector_layout.slot(file, id) {
                if self.allocated[slot] {
                    let ok = port.set_enabled(cpu, id, false);
                    proof {
                        trace = trace.push(
                            answered_with((ImsicAccess::SetEnabled { cpu, id, on: false }), ok),
                        );
                        assert(port.log() =~= start + trace);
                        let now = live_ids(self.used(), self.ids(), file as int, cpu, id as int);
                        assert forall|i: int| 0 <= i < trace.len() implies (
                        #[trigger] trace[i]).access == now[i] by {
                            if i < before.len() {
                                assert(trace[i] == before[i]);
                            }
                        }
                    }
                }
            }
        }
    }

    /// Shuts the controller: disables every identity that is in use.
    pub fn quiesce<F: FnMut(ImsicAccess) -> u64>(&mut self, port: &mut ImsicPort<F>)
        requires
            old(self).wf(),
            old(port).wf(),
        ensures
            final(self).wf(),
            final(port).wf(),
            final(port).performs() == old(port).performs(),
            final(self).same_controller(old(self)),
            final(self).used() == old(self).used(),
            final(self).next() == old(self).next(),
            final(self).is_quiet(),
            if old(self).is_quiet() {
                final(port).log() == old(port).log()
            } else {
                exists|trace: Seq<ImsicExchange>|
                    final(port).log() == old(port).log() + trace && #[trigger] makes(
                        trace,
                        live_files(
                            old(self).cpu_files(),
                            old(self).used(),
                            old(self).ids(),
                            old(self).cpu_files().len() as int,
                        ).push(ImsicAccess::Sync),
                    )
            },
    {
        if self.quiesced {
            return ;
        }
        self.quiesced = true;
        let ghost start = port.log();
        let ghost mut trace: Seq<ImsicExchange> = Seq::empty();
        assert(start + trace =~= start);
        let mut file: usize = 0;
        while file < self.files.len()
            invariant
                file <= self.files@.len(),
                self.wf(),
                self.same_controller(old(self)),
                self.used() == old(self).used(),
                self.next() == old(self).next(),
                self.is_quiet(),
                port.wf(),
                port.performs() == old(port).performs(),
                port.log() == start + trace,
                makes(
                    trace,
                    live_files(self.cpu_files(), self.used(), self.ids(), file as int),
                ),
            decreases self.files@.len() - file,
        {
            let ghost log_before = port.log();
            let ghost before = trace;
            self.quiesce_file(port, file);
            proof {
                let ids = live_ids(
                    self.used(),
                    self.ids(),
                    file as int,
                    self.cpu_files()[file as int].logical_cpu,
                    self.ids() as int,
                );
                let part = choose|part: Seq<ImsicExchange>|
                    port.log() == log_before + part && #[trigger] makes(part, ids);
                let earlier = live_files(self.cpu_files(), self.used(), self.ids(), file as int);
                let now = live_files(self.cpu_files(), self.used(), self.ids(), file + 1);
                trace = trace + part;
                assert(port.log() =~= start + trace);
                assert(now == earlier + ids);
                assert forall|i: int| 0 <= i < trace.len() implies (#[trigger] trace[i]).access
                    == now[i] by {
                    if i < before.len() {
                        assert(trace[i] == before[i]);
                    } else {
                        assert(trace[i] == part[i - before.len()]);
                    }
                }
            }
            file += 1;
        }
        port.sync();
        proof {
            let earlier = live_files(
                self.cpu_files(),
                self.used(),
                self.ids(),
                self.cpu_files().len() as int,
            );
            let before = trace;
            trace = trace.push(told(ImsicAccess::Sync));
            assert(port.log() =~= start + trace);
            let now = earlier.push(ImsicAccess::Sync);
            assert forall|i: int| 0 <= i < trace.len() implies (#[trigger] trace[i]).access
                == now[i] by {
                if i < before.len() {
                    assert(trace[i] == before[i]);
                }
            }
            assert(makes(trace, now));
        }
    }

    /// The requests of one claim: an identity in use is delivered, unless the
    /// controller is shut; an unknown one is dropped.
    pub open spec fn claim_round(&self, logical_cpu: usize, id: u32) -> Seq<ImsicExchange> {
        match self.number_claimed(logical_cpu, id) {
            Some(hwirq) if !self.is_quiet() => seq![
                claimed(id),
                told(ImsicAccess::Dispatch(hwirq)),
            ],
            _ => seq![claimed(id)],
        }
    }

    pub open spec fn claim_rounds(&self, logical_cpu: usize, claims: Seq<u32>) -> Seq<ImsicExchange>
        decreases claims.len(),
    {
        if claims.len() == 0 {
            Seq::empty()
        } else {
            self.claim_rounds(logical_cpu, claims.drop_last()) + self.claim_round(
                logical_cpu,
                claims.last(),
            )
        }
    }

    /// The requests of a pass: it ends when nothing is pending, or after one claim
    /// more than there are identities.
    pub open spec fn pass_trace(&self, logical_cpu: usize, claims: Seq<u32>) -> Seq<ImsicExchange> {
        if claims.len() == self.ids() + 1 {
            self.claim_rounds(logical_cpu, claims)
        } else {
            self.claim_rounds(logical_cpu, claims).push(claimed(0))
        }
    }

    /// Delivers what is pending for this CPU.
    pub fn dispatch_pending<F: FnMut(ImsicAccess) -> u64>(
        &self,
        port: &mut ImsicPort<F>,
        logical_cpu: usize,
    ) -> (status: IrqStatus)
        requires
            self.wf(),
            old(port).wf(),
        ensures
            final(port).wf(),
            final(port).performs() == old(port).performs(),
            exists|claims: Seq<u32>|
                {
                    &&& claims.len() <= self.ids() + 1
                    &&& forall|i: int| 0 <= i < claims.len() ==> #[trigger] claims[i] != 0
                    &&& (status == IrqStatus::Handled) == (claims.len() > 0)
                    &&& final(port).log() == old(port).log() + #[trigger] self.pass_trace(
                        logical_cpu,
                        claims,
                    )
                },
    {
        let ghost start = port.log();
        let ghost mut claims: Seq<u32> = Seq::empty();
        let mut saw_identity = false;
        let mut round: u64 = 0;
        let rounds: u64 = self.num_ids as u64 + 1;
        assert(start + self.claim_rounds(logical_cpu, claims) =~= start);
        while round < rounds
            invariant
                round <= rounds,
                rounds == self.num_ids + 1,
                self.wf(),
                port.wf(),
                port.performs() == old(port).performs(),
                claims.len() == round,
                saw_identity == (round > 0),
                forall|i: int| 0 <= i < claims.len() ==> #[trigger] claims[i] != 0,
                port.log() == start + self.claim_rounds(logical_cpu, claims),
                start == old(port).log(),
            decreases rounds - round,
        {
            let id: u32 = port.claim();
            if id == 0 {
                assert(port.log() =~= start + self.pass_trace(logical_cpu, claims));
                return if saw_identity {
                    IrqStatus::Handled
                } else {
                    IrqStatus::Unhandled
                };
            }
            saw_identity = true;
            let ghost before = claims;
            if let Some(hwirq) = self.claimed_hwirq(logical_cpu, id) {
                if !self.quiesced {
                    port.dispatch(hwirq);
                }
            }
            proof {
                claims = claims.push(id);
                assert(claims.drop_last() =~= before);
                assert(port.log() =~= start + self.claim_rounds(logical_cpu, claims));
            }
            round += 1;
        }
        assert(port.log() =~= start + self.pass_trace(logical_cpu, claims));
        IrqStatus::Handled
    }
}

/// An identity that is handed out was free, and is handed out to nobody else
/// before it is taken back.
pub proof fn identities_are_not_shared(imsic: Imsic, offset: int, hwirq: u32)
    requires
        imsic.wf(),
        imsic.first_free(offset),
        imsic.in_use(hwirq),
    ensures
        imsic.place_of(imsic.searched(offset)) != hwirq,
{
}

} // verus!
