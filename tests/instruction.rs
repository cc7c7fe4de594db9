use brain_opt::instruction::{format_data, Effects, Instruction, Register64};

#[test]
fn sources_of_instructions() {
    assert_eq!(Instruction::MovImm(Register64::rax, 0).to_source(), "xor rax, rax");
    assert_eq!(Instruction::MovImm(Register64::rdx, 12).to_source(), "mov rdx, 12");
    assert_eq!(Instruction::AddImm(Register64::rbx, 1).to_source(), "inc rbx");
    assert_eq!(Instruction::AddImm(Register64::rbx, 30000).to_source(), "add rbx, 30000");
    assert_eq!(Instruction::SubImm(Register64::rbx, 1).to_source(), "dec rbx");
    assert_eq!(Instruction::SubImm(Register64::rbx, 7).to_source(), "sub rbx, 7");
    assert_eq!(Instruction::AddPtr8Imm(Register64::rbx, 255).to_source(), "dec byte [rbx]");
    assert_eq!(Instruction::AddPtr8Imm(Register64::rbx, 1).to_source(), "inc byte [rbx]");
    assert_eq!(Instruction::AddPtr8Imm(Register64::rbx, 5).to_source(), "add byte [rbx], 5");
    assert_eq!(Instruction::MovPtr8Imm(Register64::rsi, 0).to_source(), "mov byte [rsi], 0");
    assert_eq!(Instruction::MovPtr32Imm(Register64::rbx, 1234567).to_source(), "mov dword [rbx], 1234567");
    assert_eq!(Instruction::IsZeroPtr8(Register64::rbx).to_source(), "cmp byte [rbx], 0");
    assert_eq!(Instruction::IsZero(Register64::rax).to_source(), "test rax, rax");
    assert_eq!(Instruction::JumpZero(".label3".to_string()).to_source(), "jz .label3");
    assert_eq!(Instruction::Label(".label3".to_string()).to_source(), ".label3:");
    assert_eq!(
        Instruction::Data("constant_output0".to_string(), vec![72, 105, 10]).to_source(),
        "constant_output0: db \"Hi\",0xa"
    );
}

#[test]
fn data_is_quoted_and_hex() {
    assert_eq!(format_data(&vec![]), "");
    assert_eq!(format_data(&vec![0x41, 0x42]), "\"AB\"");
    assert_eq!(format_data(&vec![0, 0x41, 200]), "0x0,\"A\",0xc8");
    assert_eq!(format_data(&vec![0x22]), "0x22");
    assert_eq!(format_data(&vec![0x61, 0x2c, 0x62]), "\"a,b\"");
}

#[test]
fn effects_of_instructions() {
    assert_eq!(Instruction::AddPtr8Imm(Register64::rbx, 0).effects(), Some(Effects::flag()));
    assert_eq!(Instruction::AddPtr8Imm(Register64::rbx, 3).effects(), Some(Effects::arithmetic()));
    assert_eq!(Instruction::Label("x".to_string()).effects(), Some(Effects::label()));
    assert_eq!(Instruction::Data("x".to_string(), vec![1]).effects(), None);
    assert!(Instruction::Label("x".to_string()).affects_zero_flag());
    assert!(!Instruction::Jump("x".to_string()).affects_zero_flag());
    assert!(Instruction::JumpNonZero("x".to_string()).reads_zf());
    assert!(!Instruction::IsZero(Register64::rax).reads_zf());
}

#[test]
fn combine_fuses_adjacent_instructions() {
    let r = Register64::rbx;
    let c = Instruction::AddPtr8Imm(r, 250).combine(Instruction::AddPtr8Imm(r, 10));
    assert_eq!(c.len(), 1);
    assert!(matches!(c[0], Instruction::AddPtr8Imm(_, 4)));
    let c = Instruction::AddPtr8Imm(r, 3).combine(Instruction::MovPtr8Imm(r, 9));
    assert!(matches!(c[..], [Instruction::MovPtr8Imm(_, 9)]));
    let c = Instruction::MovPtr8Imm(r, 9).combine(Instruction::AddPtr8Imm(r, 1));
    assert!(matches!(c[..], [Instruction::MovPtr8Imm(_, 10)]));
    let c = Instruction::AddImm(r, 3).combine(Instruction::SubImm(r, 3));
    assert!(c.is_empty());
    let c = Instruction::AddImm(r, 3).combine(Instruction::SubImm(r, 5));
    assert!(matches!(c[..], [Instruction::SubImm(_, 2)]));
    let c = Instruction::SubImm(r, 3).combine(Instruction::AddImm(r, 5));
    assert!(matches!(c[..], [Instruction::AddImm(_, 2)]));
    let c = Instruction::SubImm(r, 3).combine(Instruction::SubImm(r, 5));
    assert!(matches!(c[..], [Instruction::SubImm(_, 8)]));
    let c = Instruction::AddImm(r, 3).combine(Instruction::AddImm(Register64::rax, 5));
    assert_eq!(c.len(), 2);
    let c = Instruction::JumpZero("a".to_string()).combine(Instruction::JumpZero("b".to_string()));
    assert_eq!(c.len(), 1);
    assert_eq!(c[0].to_source(), "jz a");
}
