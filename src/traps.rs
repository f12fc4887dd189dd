use vstd::prelude::*;
use crate::process::TrapFrame;

verus! {

/// Kind of an exception.
#[derive(Clone, Copy, Debug, PartialEq, Eq, Structural)]
pub enum Kind {
    Synchronous,
    Irq,
    Fiq,
    SError,
}

/// Where an exception came from.
#[derive(Clone, Copy, Debug, PartialEq, Eq, Structural)]
pub enum Source {
    CurrentSpEl0,
    CurrentSpElx,
    LowerAArch64,
    LowerAArch32,
}

/// Source and kind of an exception, as the vector table reports them.
#[derive(Clone, Copy, Debug, PartialEq, Eq, Structural)]
pub struct Info {
    pub source: Source,
    pub kind: Kind,
}

/// Cause of an instruction or data abort.
#[derive(Clone, Copy, Debug, PartialEq, Eq, Structural)]
pub enum Fault {
    AddressSize,
    Translation,
    AccessFlag,
    Permission,
    Alignment,
    TlbConflict,
    Other(u8),
}

/// The decoded reason of a synchronous exception.
#[derive(Clone, Copy, Debug, PartialEq, Eq, Structural)]
pub enum Syndrome {
    /// A breakpoint instruction with its immediate.
    Brk(u16),
    /// A supervisor call with its immediate, the system-call number.
    Svc(u16),
    /// An instruction fetch faulted.
    InstructionAbort { kind: Fault, level: u8 },
    /// A data access faulted.
    DataAbort { kind: Fault, level: u8 },
    /// Anything else, with the raw syndrome value.
    Other(u32),
}

/// The fault named by the status code `code` (the low six bits of the
/// syndrome).
pub open spec fn fault_of(code: int) -> Fault {
    if code / 4 == 0 {
        Fault::AddressSize
    } else if code / 4 == 1 {
        Fault::Translation
    } else if code / 4 == 2 {
        Fault::AccessFlag
    } else if code / 4 == 3 {
        Fault::Permission
    } else if code == 0x21 {
        Fault::Alignment
    } else if code == 0x30 {
        Fault::TlbConflict
    } else {
        Fault::Other(code as u8)
    }
}

/// The syndrome that the syndrome register value `esr` reports: the
/// exception class is bits 26 to 31, the specific information bits 0 to 24.
pub open spec fn syndrome_of(esr: u32) -> Syndrome {
    let ec = esr as int / 0x400_0000;
    let iss = esr as int % 0x200_0000;
    if ec == 0x15 {
        Syndrome::Svc((iss % 0x10000) as u16)
    } else if ec == 0x3C {
        Syndrome::Brk((iss % 0x10000) as u16)
    } else if ec == 0x20 || ec == 0x21 {
        Syndrome::InstructionAbort { kind: fault_of(iss % 64), level: (iss % 4) as u8 }
    } else if ec == 0x24 || ec == 0x25 {
        Syndrome::DataAbort { kind: fault_of(iss % 64), level: (iss % 4) as u8 }
    } else {
        Syndrome::Other(esr)
    }
}

/// Decodes a fault status code.
pub fn fault_from(code: u32) -> (r: Fault)
    requires
        code < 64,
    ensures
        r == fault_of(code as int),
{
    if code / 4 == 0 {
        Fault::AddressSize
    } else if code / 4 == 1 {
        Fault::Translation
    } else if code / 4 == 2 {
        Fault::AccessFlag
    } else if code / 4 == 3 {
        Fault::Permission
    } else if code == 0x21 {
        Fault::Alignment
    } else if code == 0x30 {
        Fault::TlbConflict
    } else {
        Fault::Other(code as u8)
    }
}

impl Syndrome {
    /// Decodes the syndrome register value `esr`.
    pub fn decode(esr: u32) -> (r: Syndrome)
        ensures
            r == syndrome_of(esr),
    {
        let ec = esr / 0x400_0000;
        let iss = esr % 0x200_0000;
        if ec == 0x15 {
            Syndrome::Svc((iss % 0x10000) as u16)
        } else if ec == 0x3C {
            Syndrome::Brk((iss % 0x10000) as u16)
        } else if ec == 0x20 || ec == 0x21 {
            Syndrome::InstructionAbort { kind: fault_from(iss % 64), level: (iss % 4) as u8 }
        } else if ec == 0x24 || ec == 0x25 {
            Syndrome::DataAbort { kind: fault_from(iss % 64), level: (iss % 4) as u8 }
        } else {
            Syndrome::Other(esr)
        }
    }
}

/// What the trap handler does about an exception.
#[derive(Clone, Copy, Debug, PartialEq, Eq, Structural)]
pub enum TrapAction {
    /// Step over the breakpoint instruction and resume.
    Breakpoint,
    /// Run system call number `n`.
    Syscall(u16),
    /// Resolve a page fault (of an instruction fetch or a data access) of the
    /// given kind and level.
    PageFault { kind: Fault, level: u8 },
    /// Look at the pending interrupt lines.
    Interrupt,
    /// Nothing handles this exception: halt.
    Halt,
}

/// The action for an exception of `info` whose syndrome register holds `esr`.
pub open spec fn action_of(info: Info, esr: u32) -> TrapAction {
    match info.kind {
        Kind::Synchronous => match syndrome_of(esr) {
            Syndrome::Brk(_) => TrapAction::Breakpoint,
            Syndrome::Svc(n) => TrapAction::Syscall(n),
            Syndrome::InstructionAbort { kind, level } => TrapAction::PageFault { kind, level },
            Syndrome::DataAbort { kind, level } => TrapAction::PageFault { kind, level },
            Syndrome::Other(_) => TrapAction::Halt,
        },
        Kind::Irq => TrapAction::Interrupt,
        _ => TrapAction::Halt,
    }
}

/// Classifies an exception.
pub fn classify(info: Info, esr: u32) -> (r: TrapAction)
    ensures
        r == action_of(info, esr),
{
    match info.kind {
        Kind::Synchronous => match Syndrome::decode(esr) {
            Syndrome::Brk(_) => TrapAction::Breakpoint,
            Syndrome::Svc(n) => TrapAction::Syscall(n),
            Syndrome::InstructionAbort { kind, level } => TrapAction::PageFault { kind, level },
            Syndrome::DataAbort { kind, level } => TrapAction::PageFault { kind, level },
            Syndrome::Other(_) => TrapAction::Halt,
        },
        Kind::Irq => TrapAction::Interrupt,
        _ => TrapAction::Halt,
    }
}

/// Steps over a breakpoint instruction: the return address moves past it.
pub fn skip_breakpoint(tf: &mut TrapFrame)
    requires
        old(tf).elr <= u64::MAX - 4,
    ensures
        *final(tf) == (TrapFrame { elr: (old(tf).elr + 4) as u64, ..*old(tf) }),
{
    tf.elr = tf.elr + 4;
}

} // verus!
