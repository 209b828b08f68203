//! Who may run on a protocol shard, and what one turn on it does.
//!
//! A turn runs the control commands of the turn, then its flow commands, then
//! hands out what is to be sent. The caller performs one [`TurnAction`] at a
//! time and reports what came of it.

use vstd::prelude::*;

verus! {

/// Result of a turn.
#[derive(Clone, Copy, PartialEq, Eq, Structural, Debug)]
pub enum TurnStatus {
    Done,
    Busy,
    Invalid,
}

/// What the caller of a turn does next.
#[derive(Clone, Copy, PartialEq, Eq, Structural, Debug)]
pub enum TurnAction {
    /// Try to take the execution lease of the shard.
    AcquireLease,
    /// Note that work is left for the holder of the lease.
    MarkPending,
    /// Look up and lock the control plane.
    LockControlPlane,
    /// Run a control command.
    RunControl(usize),
    /// Look up the state of the shard.
    BorrowShard,
    /// Run a flow command.
    RunCommand(usize),
    /// Hand out the frames to be sent.
    FinalizeTx,
    /// Give the lease back and look whether work came in meanwhile.
    ReleaseLease,
    /// Give the lease back after a failure.
    DropLease,
    /// The turn is over.
    Finish(TurnStatus),
}

/// Where a turn stands.
#[derive(Clone, Copy, PartialEq, Eq, Structural, Debug)]
pub enum TurnPhase {
    Lease,
    Pending,
    Control,
    ControlCommand,
    Shard,
    FlowCommand,
    Transmit,
    Release,
    Failed,
    Over(TurnStatus),
}

/// One turn on a shard.
#[derive(Clone, Copy, PartialEq, Eq, Structural, Debug)]
pub struct ShardTurn {
    pub controls: usize,
    pub commands: usize,
    pub controls_done: usize,
    pub commands_done: usize,
    pub lease_held: bool,
    pub transmitted: bool,
    pub committed: bool,
    pub phase: TurnPhase,
}

/// Whether a turn may begin: only on the shard's own processor, on a shard that
/// exists, and with control commands only on shard zero. A turn without any
/// command is accepted everywhere.
pub open spec fn turn_admitted(
    commands: usize,
    controls: usize,
    shard: u16,
    current_cpu: usize,
    shard_count: usize,
) -> bool {
    &&& commands != 0 || controls != 0 ==> shard == current_cpu && shard < shard_count
    &&& controls != 0 ==> shard == 0
}

impl ShardTurn {
    /// What holds of a turn at any time: control commands come first, flow
    /// commands run under the lease only, a turn is committed only when all of it
    /// was done, and one that is over does not hold the lease.
    pub open spec fn wf(&self) -> bool {
        &&& self.controls_done <= self.controls
        &&& self.commands_done <= self.commands
        &&& self.commands_done > 0 ==> self.controls_done == self.controls && (self.lease_held
            || self.phase is Over)
        &&& self.lease_held ==> self.commands > 0
        &&& self.transmitted ==> self.commands_done == self.commands && self.commands > 0
        &&& self.committed ==> self.controls_done == self.controls && self.commands_done
            == self.commands && (self.commands > 0 ==> self.transmitted)
        &&& self.phase == TurnPhase::Over(TurnStatus::Done) <==> self.committed && self.phase
            != TurnPhase::Release
        &&& match self.phase {
            TurnPhase::Lease => self.commands > 0 && !self.lease_held && self.controls_done == 0
                && self.commands_done == 0,
            TurnPhase::Pending => self.controls_done == 0 && self.commands_done == 0
                && !self.lease_held,
            TurnPhase::Control => self.controls > 0 && self.controls_done == 0
                && self.commands_done == 0 && (self.commands > 0 ==> self.lease_held),
            TurnPhase::ControlCommand => self.controls_done < self.controls && self.commands_done
                == 0 && (self.commands > 0 ==> self.lease_held),
            TurnPhase::Shard => self.controls_done == self.controls && self.commands_done == 0
                && self.commands > 0 && self.lease_held,
            TurnPhase::FlowCommand => self.controls_done == self.controls && self.commands_done
                < self.commands && self.lease_held,
            TurnPhase::Transmit => self.controls_done == self.controls && self.commands_done
                == self.commands && self.commands > 0 && self.lease_held,
            TurnPhase::Release => self.committed && self.lease_held,
            TurnPhase::Failed => !self.committed && self.lease_held,
            TurnPhase::Over(_) => !self.lease_held,
        }
    }

    /// Steps that are left at most.
    pub open spec fn steps_left(&self) -> int {
        match self.phase {
            TurnPhase::Lease => 7 + self.controls + self.commands,
            TurnPhase::Pending => 1,
            TurnPhase::Control => 6 + self.controls + self.commands,
            TurnPhase::ControlCommand => 5 + self.controls - self.controls_done + self.commands,
            TurnPhase::Shard => 4 + self.commands,
            TurnPhase::FlowCommand => 3 + self.commands - self.commands_done,
            TurnPhase::Transmit => 2,
            TurnPhase::Release => 1,
            TurnPhase::Failed => 1,
            TurnPhase::Over(_) => 0,
        }
    }

    /// What is to be done in the phase that the turn is in.
    pub open spec fn pending_action(&self) -> TurnAction {
        match self.phase {
            TurnPhase::Lease => TurnAction::AcquireLease,
            TurnPhase::Pending => TurnAction::MarkPending,
            TurnPhase::Control => TurnAction::LockControlPlane,
            TurnPhase::ControlCommand => TurnAction::RunControl(self.controls_done),
            TurnPhase::Shard => TurnAction::BorrowShard,
            TurnPhase::FlowCommand => TurnAction::RunCommand(self.commands_done),
            TurnPhase::Transmit => TurnAction::FinalizeTx,
            TurnPhase::Release => TurnAction::ReleaseLease,
            TurnPhase::Failed => TurnAction::DropLease,
            TurnPhase::Over(status) => TurnAction::Finish(status),
        }
    }

    /// The phase behind the lease.
    pub open spec fn after_lease(controls: usize) -> TurnPhase {
        if controls > 0 {
            TurnPhase::Control
        } else {
            TurnPhase::Shard
        }
    }

    /// The phase behind a failure: the lease is given back first, if it is held.
    pub open spec fn after_failure(lease_held: bool) -> TurnPhase {
        if lease_held {
            TurnPhase::Failed
        } else {
            TurnPhase::Over(TurnStatus::Invalid)
        }
    }

    /// The turn once the pending action was done, with `success` or without.
    pub open spec fn after(self, success: bool) -> ShardTurn {
        let invalid = Self::after_failure(self.lease_held);
        match self.phase {
            TurnPhase::Lease => if success {
                ShardTurn { lease_held: true, phase: Self::after_lease(self.controls), ..self }
            } else {
                ShardTurn { phase: TurnPhase::Pending, ..self }
            },
            TurnPhase::Pending => ShardTurn { phase: TurnPhase::Over(TurnStatus::Busy), ..self },
            TurnPhase::Control => ShardTurn {
                phase: if success {
                    TurnPhase::ControlCommand
                } else {
                    invalid
                },
                ..self
            },
            TurnPhase::ControlCommand => {
                let done = (self.controls_done + 1) as usize;
                if done < self.controls {
                    ShardTurn { controls_done: done, ..self }
                } else if self.commands > 0 {
                    ShardTurn { controls_done: done, phase: TurnPhase::Shard, ..self }
                } else {
                    ShardTurn {
                        controls_done: done,
                        committed: true,
                        phase: TurnPhase::Over(TurnStatus::Done),
                        ..self
                    }
                }
            },
            TurnPhase::Shard => ShardTurn {
                phase: if success {
                    TurnPhase::FlowCommand
                } else {
                    invalid
                },
                ..self
            },
            TurnPhase::FlowCommand => if !success {
                ShardTurn { phase: invalid, ..self }
            } else if self.commands_done + 1 < self.commands {
                ShardTurn { commands_done: (self.commands_done + 1) as usize, ..self }
            } else {
                ShardTurn {
                    commands_done: (self.commands_done + 1) as usize,
                    phase: TurnPhase::Transmit,
                    ..self
                }
            },
            TurnPhase::Transmit => if success {
                ShardTurn {
                    transmitted: true,
                    committed: true,
                    phase: TurnPhase::Release,
                    ..self
                }
            } else {
                ShardTurn { phase: invalid, ..self }
            },
            TurnPhase::Release => ShardTurn {
                lease_held: false,
                phase: TurnPhase::Over(TurnStatus::Done),
                ..self
            },
            TurnPhase::Failed => ShardTurn {
                lease_held: false,
                phase: TurnPhase::Over(TurnStatus::Invalid),
                ..self
            },
            TurnPhase::Over(_) => self,
        }
    }

    /// Begins a turn.
    pub fn begin(
        commands: usize,
        controls: usize,
        shard: u16,
        current_cpu: usize,
        shard_count: usize,
    ) -> (turn: ShardTurn)
        ensures
            turn.wf(),
            turn.commands == commands,
            turn.controls == controls,
            turn.controls_done == 0,
            turn.commands_done == 0,
            !turn.lease_held,
            !turn.transmitted,
            turn.phase == (if !turn_admitted(commands, controls, shard, current_cpu, shard_count) {
                TurnPhase::Over(TurnStatus::Invalid)
            } else if commands > 0 {
                TurnPhase::Lease
            } else if controls > 0 {
                TurnPhase::Control
            } else {
                TurnPhase::Over(TurnStatus::Done)
            }),
    {
        let index: usize = shard as usize;
        let mut turn = ShardTurn {
            controls,
            commands,
            controls_done: 0,
            commands_done: 0,
            lease_held: false,
            transmitted: false,
            committed: false,
            phase: TurnPhase::Over(TurnStatus::Invalid),
        };
        if (commands > 0 || controls > 0) && (index != current_cpu || index >= shard_count) {
            return turn;
        }
        if controls > 0 && shard != 0 {
            return turn;
        }
        if commands > 0 {
            turn.phase = TurnPhase::Lease;
        } else if controls > 0 {
            turn.phase = TurnPhase::Control;
        } else {
            turn.committed = true;
            turn.phase = TurnPhase::Over(TurnStatus::Done);
        }
        turn
    }

    /// What the caller is to do now.
    pub fn action(&self) -> (action: TurnAction)
        ensures
            action == self.pending_action(),
    {
        match self.phase {
            TurnPhase::Lease => TurnAction::AcquireLease,
            TurnPhase::Pending => TurnAction::MarkPending,
            TurnPhase::Control => TurnAction::LockControlPlane,
            TurnPhase::ControlCommand => TurnAction::RunControl(self.controls_done),
            TurnPhase::Shard => TurnAction::BorrowShard,
            TurnPhase::FlowCommand => TurnAction::RunCommand(self.commands_done),
            TurnPhase::Transmit => TurnAction::FinalizeTx,
            TurnPhase::Release => TurnAction::ReleaseLease,
            TurnPhase::Failed => TurnAction::DropLease,
            TurnPhase::Over(status) => TurnAction::Finish(status),
        }
    }

    /// Where a failure leads to.
    fn failure(&self) -> (phase: TurnPhase)
        ensures
            phase == Self::after_failure(self.lease_held),
    {
        if self.lease_held {
            TurnPhase::Failed
        } else {
            TurnPhase::Over(TurnStatus::Invalid)
        }
    }

    /// Takes in what came of the action.
    pub fn report(&mut self, success: bool)
        requires
            old(self).wf(),
        ensures
            final(self).wf(),
            *final(self) == old(self).after(success),
            old(self).steps_left() > 0 ==> final(self).steps_left() < old(self).steps_left(),
    {
        match self.phase {
            TurnPhase::Lease => {
                if success {
                    self.lease_held = true;
                    self.phase = if self.controls > 0 {
                        TurnPhase::Control
                    } else {
                        TurnPhase::Shard
                    };
                } else {
                    self.phase = TurnPhase::Pending;
                }
            },
            TurnPhase::Pending => {
                self.phase = TurnPhase::Over(TurnStatus::Busy);
            },
            TurnPhase::Control => {
                self.phase = if success {
                    TurnPhase::ControlCommand
                } else {
                    self.failure()
                };
            },
            TurnPhase::ControlCommand => {
                self.controls_done = self.controls_done + 1;
                if self.controls_done == self.controls {
                    if self.commands > 0 {
                        self.phase = TurnPhase::Shard;
                    } else {
                        self.committed = true;
                        self.phase = TurnPhase::Over(TurnStatus::Done);
                    }
                }
            },
            TurnPhase::Shard => {
                self.phase = if success {
                    TurnPhase::FlowCommand
                } else {
                    self.failure()
                };
            },
            TurnPhase::FlowCommand => {
                if success {
                    self.commands_done = self.commands_done + 1;
                    if self.commands_done == self.commands {
                        self.phase = TurnPhase::Transmit;
                    }
                } else {
                    self.phase = self.failure();
                }
            },
            TurnPhase::Transmit => {
                if success {
                    self.transmitted = true;
                    self.committed = true;
                    self.phase = TurnPhase::Release;
                } else {
                    self.phase = self.failure();
                }
            },
            TurnPhase::Release => {
                self.lease_held = false;
                self.phase = TurnPhase::Over(TurnStatus::Done);
            },
            TurnPhase::Failed => {
                self.lease_held = false;
                self.phase = TurnPhase::Over(TurnStatus::Invalid);
            },
            TurnPhase::Over(_) => {},
        }
    }
}

/// A turn that ends well ran every control command and every flow command, and
/// a turn that ends otherwise committed nothing.
pub proof fn committed_turn_is_complete(turn: ShardTurn, status: TurnStatus)
    requires
        turn.wf(),
        turn.phase == TurnPhase::Over(status),
    ensures
        status == TurnStatus::Done <==> turn.committed,
        status == TurnStatus::Done ==> turn.controls_done == turn.controls && turn.commands_done
            == turn.commands,
{
}

/// A turn that took the lease gives it back before it is over, however it ends: the
/// lease goes only with an action that asks for it.
pub proof fn finished_turn_holds_no_lease(turn: ShardTurn, success: bool)
    requires
        turn.wf(),
    ensures
        turn.phase is Over ==> !turn.lease_held,
        turn.lease_held && !turn.after(success).lease_held ==> turn.pending_action()
            == TurnAction::ReleaseLease || turn.pending_action() == TurnAction::DropLease,
{
}

/// Status of a turn that a task runs on the shard itself: `granted` says
/// whether the lease was free, `present` whether the shard exists, and `ran`
/// what the command gave, if there is one.
pub fn local_turn_status(
    shard: u16,
    shard_count: usize,
    header_valid: bool,
    granted: bool,
    present: bool,
    ran: Option<bool>,
) -> (result: (TurnStatus, bool))
    ensures
        result.1 == (result.0 == TurnStatus::Done),
        result.0 == TurnStatus::Invalid <==> (shard >= shard_count || !header_valid || (granted && (
        !present || ran != Some(true)))),
        result.0 == TurnStatus::Busy <==> shard < shard_count && header_valid && !granted,
{
    if shard as usize >= shard_count || !header_valid {
        return (TurnStatus::Invalid, false);
    }
    if !granted {
        return (TurnStatus::Busy, false);
    }
    if !present {
        return (TurnStatus::Invalid, false);
    }
    match ran {
        Some(true) => (TurnStatus::Done, true),
        _ => (TurnStatus::Invalid, false),
    }
}

/// Whether a turn may be dispatched at all.
pub fn turn_entry_allowed(quiesced: bool, generation: u64, header_valid: bool) -> (allowed: bool)
    ensures
        allowed == (!quiesced && generation != 0 && header_valid),
{
    !quiesced && generation != 0 && header_valid
}

/// The generation number of the flow hash key: the first four bytes of the
/// boot nonce, little endian, and never zero.
pub fn rss_generation(nonce: &[u8]) -> (generation: u32)
    requires
        nonce.len() >= 4,
    ensures
        generation >= 1,
        ({
            let raw = nonce@[0] + nonce@[1] * 0x100 + nonce@[2] * 0x1_0000 + nonce@[3] * 0x100_0000;
            generation == (if raw == 0 {
                1
            } else {
                raw
            })
        }),
{
    let raw: u32 = nonce[0] as u32 + nonce[1] as u32 * 0x100 + nonce[2] as u32 * 0x1_0000
        + nonce[3] as u32 * 0x100_0000;
    if raw == 0 {
        1
    } else {
        raw
    }
}

/// Why a stack could not be registered.
#[derive(Clone, Copy, PartialEq, Eq, Structural, Debug)]
pub enum NetStackRegisterErrorKind {
    RegistrarNotReady,
    AlreadyActive,
    InvalidRegistration,
    ResourceExhausted,
}

/// Why a stack could not be removed.
#[derive(Clone, Copy, PartialEq, Eq, Structural, Debug)]
pub enum NetStackRemoveError {
    NoStack,
    OwnerMismatch,
    Busy,
}

/// The error code of a failed registration.
pub fn map_register_error(error: NetStackRegisterErrorKind) -> (code: i32)
    ensures
        code == match error {
            NetStackRegisterErrorKind::RegistrarNotReady => -19i32,
            NetStackRegisterErrorKind::AlreadyActive => -16i32,
            NetStackRegisterErrorKind::InvalidRegistration => -22i32,
            NetStackRegisterErrorKind::ResourceExhausted => -12i32,
        },
{
    match error {
        NetStackRegisterErrorKind::RegistrarNotReady => -19,
        NetStackRegisterErrorKind::AlreadyActive => -16,
        NetStackRegisterErrorKind::InvalidRegistration => -22,
        NetStackRegisterErrorKind::ResourceExhausted => -12,
    }
}

/// The error code of a failed removal.
pub fn map_remove_error(error: NetStackRemoveError) -> (code: i32)
    ensures
        code == match error {
            NetStackRemoveError::NoStack => -19i32,
            NetStackRemoveError::OwnerMismatch => -1i32,
            NetStackRemoveError::Busy => -16i32,
        },
{
    match error {
        NetStackRemoveError::NoStack => -19,
        NetStackRemoveError::OwnerMismatch => -1,
        NetStackRemoveError::Busy => -16,
    }
}

/// The number of shards to set up, or why the stack cannot start: it is
/// running, it has no boot configuration, or the configuration does not fit.
pub fn shards_to_initialize(running: bool, active_cpus: Option<u16>, max_cpus: usize) -> (result:
    Result<usize, i32>)
    ensures
        match result {
            Ok(count) => !running && active_cpus == Some(count as u16) && 0 < count <= max_cpus
                && count <= 0xffff,
            Err(code) => {
                &&& code == -16 <==> running
                &&& code == -19 <==> !running && active_cpus is None
                &&& code == -22 <==> !running && active_cpus is Some && (active_cpus->0 == 0
                    || active_cpus->0 > max_cpus)
                &&& code == -16 || code == -19 || code == -22
            },
        },
{
    if running {
        return Err(-16);
    }
    let count: usize = match active_cpus {
        Some(count) => count as usize,
        None => {
            return Err(-19);
        },
    };
    if count == 0 || count > max_cpus {
        return Err(-22);
    }
    Ok(count)
}

/// What removing the stack comes to: a stack that is gone already counts as
/// removed.
pub fn finalize_outcome(registered: bool, removal: Result<(), NetStackRemoveError>) -> (result: (
    Result<(), i32>,
    bool,
))
    ensures
        result.1 == (registered && (removal is Ok || removal == Err::<(), NetStackRemoveError>(
            NetStackRemoveError::NoStack,
        ))),
        result.0 is Ok <==> !registered || result.1,
        result.0 matches Err(code) ==> (code == -1 <==> removal == Err::<(), NetStackRemoveError>(
            NetStackRemoveError::OwnerMismatch,
        )) && (code == -16 <==> removal == Err::<(), NetStackRemoveError>(
            NetStackRemoveError::Busy,
        )),
{
    if !registered {
        return (Ok(()), false);
    }
    match removal {
        Ok(()) => (Ok(()), true),
        Err(error) => match error {
            NetStackRemoveError::NoStack => (Ok(()), true),
            _ => (Err(map_remove_error(error)), false),
        },
    }
}

} // verus!
