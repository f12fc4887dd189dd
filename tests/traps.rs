use rustable::process::TrapFrame;
use rustable::traps::{classify, skip_breakpoint, Fault, Info, Kind, Source, Syndrome, TrapAction};

#[test]
fn syndromes_decode() {
    assert_eq!(Syndrome::decode((0x15 << 26) | 3), Syndrome::Svc(3));
    assert_eq!(Syndrome::decode((0x3C << 26) | 0x1_0007), Syndrome::Brk(7));
    assert_eq!(
        Syndrome::decode((0x24 << 26) | 0b000110),
        Syndrome::DataAbort { kind: Fault::Translation, level: 2 }
    );
    assert_eq!(
        Syndrome::decode((0x20 << 26) | 0b001101),
        Syndrome::InstructionAbort { kind: Fault::Permission, level: 1 }
    );
    assert_eq!(
        Syndrome::decode((0x25 << 26) | 0x21),
        Syndrome::DataAbort { kind: Fault::Alignment, level: 1 }
    );
    assert_eq!(Syndrome::decode(0x0100_0000), Syndrome::Other(0x0100_0000));
}

#[test]
fn exceptions_classify() {
    let sync = Info { source: Source::LowerAArch64, kind: Kind::Synchronous };
    assert_eq!(classify(sync, (0x15 << 26) | 4), TrapAction::Syscall(4));
    assert_eq!(classify(sync, 0x3C << 26), TrapAction::Breakpoint);
    assert_eq!(
        classify(sync, (0x24 << 26) | 0b001011),
        TrapAction::PageFault { kind: Fault::AccessFlag, level: 3 }
    );
    assert_eq!(classify(sync, 0x20 << 26), TrapAction::PageFault { kind: Fault::AddressSize, level: 0 });
    assert_eq!(classify(sync, 0), TrapAction::Halt);
    let irq = Info { source: Source::CurrentSpElx, kind: Kind::Irq };
    assert_eq!(classify(irq, 0), TrapAction::Interrupt);
    let fiq = Info { source: Source::CurrentSpEl0, kind: Kind::Fiq };
    assert_eq!(classify(fiq, 0), TrapAction::Halt);
    let serr = Info { source: Source::LowerAArch32, kind: Kind::SError };
    assert_eq!(classify(serr, 0x15 << 26), TrapAction::Halt);
}

#[test]
fn breakpoints_are_stepped_over() {
    let mut tf = TrapFrame::zeroed();
    tf.elr = 0x1000;
    skip_breakpoint(&mut tf);
    assert_eq!(tf.elr, 0x1004);
}

#[test]
fn every_fault_kind_decodes() {
    let abort = |code: u32| Syndrome::decode((0x24 << 26) | code);
    assert_eq!(abort(0b000001), Syndrome::DataAbort { kind: Fault::AddressSize, level: 1 });
    assert_eq!(abort(0b001000), Syndrome::DataAbort { kind: Fault::AccessFlag, level: 0 });
    assert_eq!(abort(0b110000), Syndrome::DataAbort { kind: Fault::TlbConflict, level: 0 });
    assert_eq!(abort(0b010000), Syndrome::DataAbort { kind: Fault::Other(0b010000), level: 0 });
}
