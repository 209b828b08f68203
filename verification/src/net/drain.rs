//! What a shard does with packets that were put together again: they are parsed like
//! any other, and what they come to is handed out.

use vstd::prelude::*;

verus! {

/// What the caller of a drain does next.
#[derive(Clone, Copy, PartialEq, Eq, Structural, Debug)]
pub enum DrainAction {
    /// Take a batch that waits to be parsed.
    TakeInput,
    /// Parse it.
    Parse,
    /// Hand the records of the batch back, and move out what waits.
    HandBack,
    /// Move out what still waits.
    MoveOut,
    /// The drain is over, and was allowed or not.
    Finish(bool),
}

/// A drain: the batches that it may still take, and what is next.
#[derive(Clone, Copy, PartialEq, Eq, Structural, Debug)]
pub struct ReassemblyDrain {
    pub batches_left: usize,
    pub next: DrainAction,
}

/// Whether a command names an interface and a configuration.
pub open spec fn command_addressed(config_usable: bool, interface: u32) -> bool {
    config_usable && interface != 0
}

/// Whether a batch can be parsed now: nothing waits where its packets would go, the
/// command names an interface and a configuration, there is a batch, and the stack was
/// configured at boot.
pub fn parse_command_ready(
    output_waits: bool,
    config_usable: bool,
    interface: u32,
    has_input: bool,
    booted: bool,
) -> (ready: bool)
    ensures
        ready == (!output_waits && command_addressed(config_usable, interface) && has_input
            && booted),
{
    !output_waits && config_usable && interface != 0 && has_input && booted
}

impl ReassemblyDrain {
    /// The action that follows on a batch.
    pub open spec fn onward(batches_left: usize) -> DrainAction {
        if batches_left == 0 {
            DrainAction::MoveOut
        } else {
            DrainAction::TakeInput
        }
    }

    /// The drain after its action went well or not.
    pub open spec fn after(self, success: bool) -> Self {
        match self.next {
            DrainAction::TakeInput => if success && self.batches_left > 0 {
                ReassemblyDrain {
                    batches_left: (self.batches_left - 1) as usize,
                    next: DrainAction::Parse,
                }
            } else {
                ReassemblyDrain { next: DrainAction::MoveOut, ..self }
            },
            DrainAction::Parse => ReassemblyDrain {
                next: if success {
                    DrainAction::HandBack
                } else {
                    Self::onward(self.batches_left)
                },
                ..self
            },
            DrainAction::HandBack => ReassemblyDrain {
                next: Self::onward(self.batches_left),
                ..self
            },
            DrainAction::MoveOut => ReassemblyDrain { next: DrainAction::Finish(true), ..self },
            DrainAction::Finish(_) => self,
        }
    }

    /// How many actions are left at most.
    pub open spec fn actions_left(self) -> int {
        3 * self.batches_left + match self.next {
            DrainAction::TakeInput => 2int,
            DrainAction::Parse => 4,
            DrainAction::HandBack => 3,
            DrainAction::MoveOut => 1,
            DrainAction::Finish(_) => -3 * self.batches_left,
        }
    }

    /// Begins a drain of at most `capacity` batches.
    pub fn begin(config_usable: bool, interface: u32, booted: bool, capacity: usize) -> (drain: Self)
        ensures
            drain.batches_left == capacity,
            drain.next == (if !command_addressed(config_usable, interface) || !booted {
                DrainAction::Finish(false)
            } else {
                Self::onward(capacity)
            }),
    {
        let next = if !config_usable || interface == 0 || !booted {
            DrainAction::Finish(false)
        } else if capacity == 0 {
            DrainAction::MoveOut
        } else {
            DrainAction::TakeInput
        };
        ReassemblyDrain { batches_left: capacity, next }
    }

    /// Takes in how the action went.
    pub fn report(&mut self, success: bool)
        ensures
            *final(self) == old(self).after(success),
            !(old(self).next is Finish) ==> final(self).actions_left() < old(self).actions_left(),
    {
        match self.next {
            DrainAction::TakeInput => {
                if success && self.batches_left > 0 {
                    self.batches_left = self.batches_left - 1;
                    self.next = DrainAction::Parse;
                } else {
                    self.next = DrainAction::MoveOut;
                }
            },
            DrainAction::Parse => {
                if success {
                    self.next = DrainAction::HandBack;
                } else if self.batches_left == 0 {
                    self.next = DrainAction::MoveOut;
                } else {
                    self.next = DrainAction::TakeInput;
                }
            },
            DrainAction::HandBack => {
                if self.batches_left == 0 {
                    self.next = DrainAction::MoveOut;
                } else {
                    self.next = DrainAction::TakeInput;
                }
            },
            DrainAction::MoveOut => {
                self.next = DrainAction::Finish(true);
            },
            DrainAction::Finish(_) => {},
        }
    }
}

} // verus!
