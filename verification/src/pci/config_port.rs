//! Access to configuration space.
//!
//! A [`ConfigPort`] hands every access to a function of the caller's and keeps,
//! for contracts only, the sequence of accesses that were made and what came
//! back.

use vstd::prelude::*;

verus! {

/// Where a function sits.
#[derive(Clone, Copy, PartialEq, Eq, Structural, Debug)]
pub struct PciBdf {
    pub segment: u16,
    pub bus: u8,
    pub device: u8,
    pub function: u8,
}

/// What the header of a function says.
#[derive(Clone, Copy, PartialEq, Eq, Structural, Debug)]
pub struct PciFunctionInfo {
    pub header_type: u8,
    pub class: u8,
    pub subclass: u8,
    pub multi_function: bool,
    pub bar_count: u8,
}

/// One access to configuration space.
#[derive(Clone, Copy, PartialEq, Eq, Structural, Debug)]
pub enum ConfigAccess {
    /// Look whether a function is there.
    Look(PciBdf),
    /// Read the command register.
    Command(PciBdf),
    /// Write the command register.
    SetCommand(PciBdf, u16),
    Read16(PciBdf, u16),
    Read32(PciBdf, u16),
    Write16(PciBdf, u16, u16),
    Write32(PciBdf, u16, u32),
}

/// What an access gave back.
#[derive(Clone, Copy, PartialEq, Eq, Structural, Debug)]
pub enum ConfigReply {
    Failed,
    Done,
    Value(u32),
    Function(PciFunctionInfo),
}

/// An access and what it gave back.
pub ghost struct ConfigExchange {
    pub access: ConfigAccess,
    pub reply: ConfigReply,
}

/// A look at a function.
pub open spec fn looked(bdf: PciBdf, info: Option<PciFunctionInfo>) -> ConfigExchange {
    ConfigExchange {
        access: ConfigAccess::Look(bdf),
        reply: match info {
            Some(info) => ConfigReply::Function(info),
            None => ConfigReply::Failed,
        },
    }
}

/// The reply of a read.
pub open spec fn value_reply(value: Option<u32>) -> ConfigReply {
    match value {
        Some(value) => ConfigReply::Value(value),
        None => ConfigReply::Failed,
    }
}

/// The reply of a write.
pub open spec fn done_reply(ok: bool) -> ConfigReply {
    if ok {
        ConfigReply::Done
    } else {
        ConfigReply::Failed
    }
}

/// A read of the command register.
pub open spec fn command_read(bdf: PciBdf, value: Option<u16>) -> ConfigExchange {
    ConfigExchange {
        access: ConfigAccess::Command(bdf),
        reply: match value {
            Some(value) => ConfigReply::Value(value as u32),
            None => ConfigReply::Failed,
        },
    }
}

/// A write of the command register.
pub open spec fn command_set(bdf: PciBdf, value: u16, ok: bool) -> ConfigExchange {
    ConfigExchange { access: ConfigAccess::SetCommand(bdf, value), reply: done_reply(ok) }
}

/// A 16-bit read.
pub open spec fn cr16(bdf: PciBdf, offset: u16, value: Option<u16>) -> ConfigExchange {
    ConfigExchange {
        access: ConfigAccess::Read16(bdf, offset),
        reply: match value {
            Some(value) => ConfigReply::Value(value as u32),
            None => ConfigReply::Failed,
        },
    }
}

/// A 32-bit read.
pub open spec fn cr32(bdf: PciBdf, offset: u16, value: Option<u32>) -> ConfigExchange {
    ConfigExchange { access: ConfigAccess::Read32(bdf, offset), reply: value_reply(value) }
}

/// A 16-bit write.
pub open spec fn cw16(bdf: PciBdf, offset: u16, value: u16, ok: bool) -> ConfigExchange {
    ConfigExchange { access: ConfigAccess::Write16(bdf, offset, value), reply: done_reply(ok) }
}

/// A 32-bit write.
pub open spec fn cw32(bdf: PciBdf, offset: u16, value: u32, ok: bool) -> ConfigExchange {
    ConfigExchange { access: ConfigAccess::Write32(bdf, offset, value), reply: done_reply(ok) }
}

/// What is taken of a reply to an access: what it asks for, in its width, or that it
/// failed.
pub open spec fn taken(access: ConfigAccess, reply: ConfigReply) -> ConfigReply {
    match access {
        ConfigAccess::Look(_) => match reply {
            ConfigReply::Function(_) => reply,
            _ => ConfigReply::Failed,
        },
        ConfigAccess::Command(_) | ConfigAccess::Read16(_, _) => match reply {
            ConfigReply::Value(value) => ConfigReply::Value((value % 0x1_0000) as u32),
            _ => ConfigReply::Failed,
        },
        ConfigAccess::Read32(_, _) => match reply {
            ConfigReply::Value(_) => reply,
            _ => ConfigReply::Failed,
        },
        _ => done_reply(reply != ConfigReply::Failed),
    }
}

/// Whether an exchange is a call of a function, with what was taken of its reply.
pub open spec fn answered<F: FnMut(ConfigAccess) -> ConfigReply>(perform: F, exchange: ConfigExchange) -> bool {
    exists|reply: ConfigReply| #[trigger]
        call_ensures(perform, (exchange.access,), reply) && exchange.reply == taken(
            exchange.access,
            reply,
        )
}

/// Whether each exchange of a trace is a call of a function.
pub open spec fn all_answered<F: FnMut(ConfigAccess) -> ConfigReply>(
    perform: F,
    trace: Seq<ConfigExchange>,
) -> bool {
    forall|i: int| 0 <= i < trace.len() ==> answered(perform, #[trigger] trace[i])
}

/// Access to the configuration space of a host.
pub struct ConfigPort<F> {
    perform: F,
    log: Ghost<Seq<ConfigExchange>>,
}

impl<F: FnMut(ConfigAccess) -> ConfigReply> ConfigPort<F> {
    /// What was done so far.
    pub closed spec fn log(&self) -> Seq<ConfigExchange> {
        self.log@
    }

    /// The caller's function, which performs the accesses.
    pub closed spec fn performs(&self) -> F {
        self.perform
    }

    /// The caller's function may be called for any access, and gave every reply of the
    /// log.
    pub closed spec fn wf(&self) -> bool {
        &&& forall|access: ConfigAccess| #[trigger] call_requires(self.perform, (access,))
        &&& all_answered(self.perform, self.log@)
    }

    /// Nothing is in the log but calls of the caller's function.
    pub proof fn log_is_answered(&self)
        requires
            self.wf(),
        ensures
            all_answered(self.performs(), self.log()),
    {
    }

    pub fn new(perform: F) -> (port: Self)
        requires
            forall|access: ConfigAccess| #[trigger] call_requires(perform, (access,)),
        ensures
            port.wf(),
            port.performs() == perform,
            port.log() == Seq::<ConfigExchange>::empty(),
    {
        ConfigPort { perform, log: Ghost(Seq::empty()) }
    }

    pub fn look(&mut self, bdf: PciBdf) -> (info: Option<PciFunctionInfo>)
        requires
            old(self).wf(),
        ensures
            final(self).wf(),
            final(self).performs() == old(self).performs(),
            final(self).log() == old(self).log().push(looked(bdf, info)),
    {
        let info = match (self.perform)(ConfigAccess::Look(bdf)) {
            ConfigReply::Function(info) => Some(info),
            _ => None,
        };
        self.log = Ghost(self.log@.push(looked(bdf, info)));
        info
    }

    pub fn command(&mut self, bdf: PciBdf) -> (value: Option<u16>)
        requires
            old(self).wf(),
        ensures
            final(self).wf(),
            final(self).performs() == old(self).performs(),
            final(self).log() == old(self).log().push(command_read(bdf, value)),
    {
        let value = match (self.perform)(ConfigAccess::Command(bdf)) {
            ConfigReply::Value(value) => Some((value % 0x1_0000) as u16),
            _ => None,
        };
        self.log = Ghost(self.log@.push(command_read(bdf, value)));
        value
    }

    pub fn set_command(&mut self, bdf: PciBdf, value: u16) -> (ok: bool)
        requires
            old(self).wf(),
        ensures
            final(self).wf(),
            final(self).performs() == old(self).performs(),
            final(self).log() == old(self).log().push(command_set(bdf, value, ok)),
    {
        let ok = match (self.perform)(ConfigAccess::SetCommand(bdf, value)) {
            ConfigReply::Failed => false,
            _ => true,
        };
        self.log = Ghost(self.log@.push(command_set(bdf, value, ok)));
        ok
    }

    pub fn read16(&mut self, bdf: PciBdf, offset: u16) -> (value: Option<u16>)
        requires
            old(self).wf(),
        ensures
            final(self).wf(),
            final(self).performs() == old(self).performs(),
            final(self).log() == old(self).log().push(cr16(bdf, offset, value)),
    {
        let value = match (self.perform)(ConfigAccess::Read16(bdf, offset)) {
            ConfigReply::Value(value) => Some((value % 0x1_0000) as u16),
            _ => None,
        };
        self.log = Ghost(self.log@.push(cr16(bdf, offset, value)));
        value
    }

    pub fn read32(&mut self, bdf: PciBdf, offset: u16) -> (value: Option<u32>)
        requires
            old(self).wf(),
        ensures
            final(self).wf(),
            final(self).performs() == old(self).performs(),
            final(self).log() == old(self).log().push(cr32(bdf, offset, value)),
    {
        let value = match (self.perform)(ConfigAccess::Read32(bdf, offset)) {
            ConfigReply::Value(value) => Some(value),
            _ => None,
        };
        self.log = Ghost(self.log@.push(cr32(bdf, offset, value)));
        value
    }

    pub fn write16(&mut self, bdf: PciBdf, offset: u16, value: u16) -> (ok: bool)
        requires
            old(self).wf(),
        ensures
            final(self).wf(),
            final(self).performs() == old(self).performs(),
            final(self).log() == old(self).log().push(cw16(bdf, offset, value, ok)),
    {
        let ok = match (self.perform)(ConfigAccess::Write16(bdf, offset, value)) {
            ConfigReply::Failed => false,
            _ => true,
        };
        self.log = Ghost(self.log@.push(cw16(bdf, offset, value, ok)));
        ok
    }

    pub fn write32(&mut self, bdf: PciBdf, offset: u16, value: u32) -> (ok: bool)
        requires
            old(self).wf(),
        ensures
            final(self).wf(),
            final(self).performs() == old(self).performs(),
            final(self).log() == old(self).log().push(cw32(bdf, offset, value, ok)),
    {
        let ok = match (self.perform)(ConfigAccess::Write32(bdf, offset, value)) {
            ConfigReply::Failed => false,
            _ => true,
        };
        self.log = Ghost(self.log@.push(cw32(bdf, offset, value, ok)));
        ok
    }
}

} // verus!
