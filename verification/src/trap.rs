//! The trap-handling policy, separated from the machine work.
//!
//! Reading the cause registers, advancing `sepc`, switching tasks and
//! returning to user mode are privileged-hardware work outside this
//! crate; what belongs here is the decision: which action each trap
//! cause demands. The surrounding runtime performs the returned action.

use vstd::prelude::*;

verus! {

/// The trap causes the kernel distinguishes.
#[derive(Clone, Copy, PartialEq, Eq, Structural, Debug)]
pub enum TrapCause {
    /// An `ecall` from user mode: a system call.
    UserEnvCall,
    /// A store access or store page fault.
    StoreFault,
    /// An instruction access or instruction page fault.
    InstructionFault,
    /// A load access or load page fault.
    LoadFault,
    /// An illegal instruction.
    IllegalInstruction,
    /// The supervisor timer interrupt.
    SupervisorTimer,
    /// Anything else.
    Unknown,
}

/// What the runtime must do about a trap.
#[derive(Clone, Copy, PartialEq, Eq, Structural, Debug)]
pub enum TrapAction {
    /// Advance past the `ecall` and dispatch the system call.
    HandleSyscall,
    /// Kill the faulting application with the given exit code and
    /// schedule the next one.
    KillApp(i32),
    /// Arm the next timer tick and let the next ready task run.
    TickAndYield,
    /// An unsupported trap: the kernel itself must give up.
    KernelPanic,
}

/// The trap policy: memory faults kill the application with code -2,
/// illegal instructions with code -3, system calls are dispatched, timer
/// ticks reschedule, and anything else stops the kernel.
pub open spec fn spec_trap_dispatch(cause: TrapCause) -> TrapAction {
    match cause {
        TrapCause::UserEnvCall => TrapAction::HandleSyscall,
        TrapCause::StoreFault => TrapAction::KillApp(-2i32),
        TrapCause::InstructionFault => TrapAction::KillApp(-2i32),
        TrapCause::LoadFault => TrapAction::KillApp(-2i32),
        TrapCause::IllegalInstruction => TrapAction::KillApp(-3i32),
        TrapCause::SupervisorTimer => TrapAction::TickAndYield,
        TrapCause::Unknown => TrapAction::KernelPanic,
    }
}

/// Decide what to do about one trap.
pub fn trap_dispatch(cause: TrapCause) -> (r: TrapAction)
    ensures
        r == spec_trap_dispatch(cause),
{
    match cause {
        TrapCause::UserEnvCall => TrapAction::HandleSyscall,
        TrapCause::StoreFault => TrapAction::KillApp(-2),
        TrapCause::InstructionFault => TrapAction::KillApp(-2),
        TrapCause::LoadFault => TrapAction::KillApp(-2),
        TrapCause::IllegalInstruction => TrapAction::KillApp(-3),
        TrapCause::SupervisorTimer => TrapAction::TickAndYield,
        TrapCause::Unknown => TrapAction::KernelPanic,
    }
}

} // verus!
