use vmem::{Asm, AsmError, Reg};

fn code(f: impl FnOnce(&mut Asm)) -> Vec<u8> {
    let mut a = Asm::new();
    f(&mut a);
    a.assemble(0).unwrap()
}

#[test]
fn basic_encodings() {
    assert_eq!(
        code(|a| {
            a.push(Reg::Rax);
        }),
        [0x50]
    );
    assert_eq!(
        code(|a| {
            a.push(Reg::R15);
        }),
        [0x41, 0x57]
    );
    assert_eq!(
        code(|a| {
            a.pop(Reg::Rax);
        }),
        [0x58]
    );
    assert_eq!(
        code(|a| {
            a.ret();
        }),
        [0xC3]
    );
    assert_eq!(
        code(|a| {
            a.mov_imm(Reg::Rax, 0x1122334455667788);
        }),
        [0x48, 0xB8, 0x88, 0x77, 0x66, 0x55, 0x44, 0x33, 0x22, 0x11]
    );
    assert_eq!(
        code(|a| {
            a.mov_imm(Reg::R8, 1);
        }),
        [0x49, 0xB8, 1, 0, 0, 0, 0, 0, 0, 0]
    );
    assert_eq!(
        code(|a| {
            a.mov_rr(Reg::Rbx, Reg::Rax);
        }),
        [0x48, 0x89, 0xC3]
    );
    assert_eq!(
        code(|a| {
            a.xor_rr(Reg::Rax, Reg::Rax);
        }),
        [0x48, 0x31, 0xC0]
    );
    assert_eq!(
        code(|a| {
            a.add_imm(Reg::Rax, 0x10);
        }),
        [0x48, 0x81, 0xC0, 0x10, 0, 0, 0]
    );
    assert_eq!(
        code(|a| {
            a.sub_imm(Reg::Rax, 0x10);
        }),
        [0x48, 0x81, 0xE8, 0x10, 0, 0, 0]
    );
}

#[test]
fn mem_operands() {
    // mov [rbx+0x10], rax
    assert_eq!(
        code(|a| {
            a.store(Reg::Rbx, 0x10, Reg::Rax);
        }),
        [0x48, 0x89, 0x83, 0x10, 0, 0, 0]
    );
    // mov [rsp+0x10], rax  -> needs SIB 0x24
    assert_eq!(
        code(|a| {
            a.store(Reg::Rsp, 0x10, Reg::Rax);
        }),
        [0x48, 0x89, 0x84, 0x24, 0x10, 0, 0, 0]
    );
    // mov rax, [rbx+0x10]
    assert_eq!(
        code(|a| {
            a.load(Reg::Rax, Reg::Rbx, 0x10);
        }),
        [0x48, 0x8B, 0x83, 0x10, 0, 0, 0]
    );
    // mov [r13+0x4], r9
    assert_eq!(
        code(|a| {
            a.store(Reg::R13, 4, Reg::R9);
        }),
        [0x4D, 0x89, 0x8D, 4, 0, 0, 0]
    );
}

#[test]
fn jmp_abs_indirect() {
    let b = code(|a| {
        a.jmp_abs(0xDEAD_BEEF_1234_5678);
    });
    assert_eq!(&b[..6], &[0xFF, 0x25, 0, 0, 0, 0]);
    assert_eq!(
        u64::from_le_bytes(b[6..14].try_into().unwrap()),
        0xDEAD_BEEF_1234_5678
    );
}

#[test]
fn rel32_label_resolution() {
    // jmp forward over a nop to a label
    let mut a = Asm::new();
    a.jmp_label("end");
    a.nop();
    a.label("end");
    a.ret();
    let bytes = a.assemble(0x4000).unwrap();
    // E9 rel32 | 90 | C3 ; rel = (5+1) - 5 = 1
    assert_eq!(bytes[0], 0xE9);
    assert_eq!(i32::from_le_bytes(bytes[1..5].try_into().unwrap()), 1);
    assert_eq!(&bytes[5..], &[0x90, 0xC3]);
}

#[test]
fn undefined_label_errors() {
    let mut a = Asm::new();
    a.jmp_label("nowhere");
    assert!(matches!(
        a.assemble(0x1000),
        Err(AsmError::UndefinedLabel(_))
    ));
}

#[test]
fn macro_smoke() {
    let mut code = Asm::new();
    code.pushad();
    code.mov_imm(Reg::Rax, 0x1000u64);
    code.store(Reg::Rbx, 0x10, Reg::Rax);
    code.xor_rr(Reg::Rax, Reg::Rax);
    code.popad();
    code.ret();
    let bytes = code.assemble(0x2000).unwrap();
    assert_eq!(bytes[0], 0x50); // push rax
    assert_eq!(*bytes.last().unwrap(), 0xC3); // ret
}

#[test]
fn register_fields() {
    assert!(!Reg::Rdi.hi());
    assert!(Reg::R8.hi());
    assert_eq!(Reg::Rsp.low3(), 4);
    assert_eq!(Reg::R12.low3(), 4);
    assert_eq!(Reg::R15.low3(), 7);
}

#[test]
fn builder_is_chainable_and_counts_bytes() {
    let mut a = Asm::default();
    assert!(a.is_empty());
    a.nop().int3().raw(&[1, 2, 3]).nops(2).ret();
    assert_eq!(a.len(), 8);
    assert!(!a.is_empty());
    assert_eq!(
        a.assemble(0).unwrap(),
        [0x90, 0xCC, 1, 2, 3, 0x90, 0x90, 0xC3]
    );
}

#[test]
fn negative_displacements_and_immediates() {
    assert_eq!(
        code(|a| {
            a.load(Reg::Rax, Reg::R12, -8);
        }),
        [0x49, 0x8B, 0x84, 0x24, 0xF8, 0xFF, 0xFF, 0xFF]
    );
    assert_eq!(
        code(|a| {
            a.add_imm(Reg::R9, -1);
        }),
        [0x49, 0x81, 0xC1, 0xFF, 0xFF, 0xFF, 0xFF]
    );
}

#[test]
fn pushad_and_popad_mirror_each_other() {
    let saved = code(|a| {
        a.pushad();
    });
    let restored = code(|a| {
        a.popad();
    });
    // every register but rsp, the extended ones with a prefix
    assert_eq!(saved.len(), 7 + 8 * 2);
    assert_eq!(restored.len(), saved.len());
    assert_eq!(saved[..3], [0x50, 0x51, 0x52]);
    assert_eq!(restored[restored.len() - 3..], [0x5A, 0x59, 0x58]);
}

#[test]
fn branches_reach_absolute_targets_and_back() {
    let mut a = Asm::new();
    a.label("top");
    a.nop();
    a.call(0x1000);
    a.jmp_label("top");
    a.call_label("top");
    a.jmp(0x3000);
    let b = a.assemble(0x2000).unwrap();
    // call at 0x2001 ends at 0x2006
    assert_eq!(b[1], 0xE8);
    assert_eq!(
        i32::from_le_bytes(b[2..6].try_into().unwrap()),
        0x1000 - 0x2006
    );
    assert_eq!(b[6], 0xE9);
    assert_eq!(i32::from_le_bytes(b[7..11].try_into().unwrap()), -0xB);
    assert_eq!(b[11], 0xE8);
    assert_eq!(i32::from_le_bytes(b[12..16].try_into().unwrap()), -0x10);
    assert_eq!(b[16], 0xE9);
    assert_eq!(
        i32::from_le_bytes(b[17..21].try_into().unwrap()),
        0x3000 - 0x2015
    );
}

#[test]
fn label_branches_do_not_depend_on_the_base() {
    let mut a = Asm::new();
    a.jmp_label("x");
    a.nops(3);
    a.label("x");
    assert_eq!(
        a.assemble(0x1000).unwrap(),
        a.assemble(0xFFFF_FFFF_FFFF_FFF0).unwrap()
    );
}

#[test]
fn later_label_of_one_name_counts() {
    let mut a = Asm::new();
    a.label("x");
    a.jmp_label("x");
    a.nop();
    a.label("x");
    let b = a.assemble(0).unwrap();
    assert_eq!(i32::from_le_bytes(b[1..5].try_into().unwrap()), 1);
}

#[test]
fn far_branch_errors_with_its_distance() {
    let mut a = Asm::new();
    a.jmp(0x1_0000_0000);
    match a.assemble(0) {
        Err(AsmError::Rel32OutOfRange { rel }) => assert_eq!(rel, 0x1_0000_0000 - 5),
        _ => panic!("must be out of range"),
    }
    let mut edge = Asm::new();
    edge.jmp(0x8000_0004);
    assert!(edge.assemble(0).is_ok());
    let mut over = Asm::new();
    over.jmp(0x8000_0005);
    assert!(over.assemble(0).is_err());
}

#[test]
fn assembler_errors_in_words() {
    assert_eq!(
        AsmError::UndefinedLabel("nowhere".to_string()).message(),
        "undefined label 'nowhere'"
    );
    assert_eq!(
        AsmError::Rel32OutOfRange { rel: -2147483653 }.message(),
        "rel32 target out of range (delta -2147483653)"
    );
}
