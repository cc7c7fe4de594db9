use brain_opt::instruction::{Effects, Instruction, Register64};
use brain_opt::optimizer::{
    label_index, move_data_to_end, optimize, optimize_adjacent, optimize_adjancent_mem_movs,
    optimize_constant_output, optimize_dead_jumps, optimize_exit, optimize_jump_skip_recheck,
    optimize_redundant_movs, optimize_remove_dead_code, optimize_remove_nops,
    optimize_remove_unused_labels, optimize_start_cells, optimize_zero_flags, optimize_zero_loop,
    separate_data, Optimizer, Pass, PassFn, PassId,
};

use Register64::{rbx, rdi, rdx, rsi};

fn text(v: &[Instruction]) -> Vec<String> {
    v.iter().map(|i| i.to_source()).collect()
}

fn s(x: &str) -> String {
    x.to_string()
}

fn write_byte(v: u8) -> Vec<Instruction> {
    vec![
        Instruction::MovPtr8Imm(rbx, v),
        Instruction::MovImm(rdi, 1),
        Instruction::Mov(rsi, rbx),
        Instruction::MovImm(rdx, 1),
        Instruction::NamedBlackBox(s("write"), s("call write"), Effects::volatile()),
    ]
}

#[test]
fn start_cells_table() {
    let r = optimize_start_cells(vec![
        Instruction::AddPtr8Imm(rbx, 5),
        Instruction::AddPtr8Imm(rbx, 0),
        Instruction::AddImm(rbx, 1),
    ]);
    assert_eq!(text(&r), vec!["mov byte [rbx], 5", "inc rbx"]);
    let r = optimize_start_cells(vec![
        Instruction::AddPtr8Imm(rbx, 2),
        Instruction::Label(s("x")),
        Instruction::AddPtr8Imm(rbx, 3),
    ]);
    assert_eq!(text(&r), vec!["mov byte [rbx], 2", "x:", "add byte [rbx], 3"]);
}

#[test]
fn zero_loop_table() {
    for d in [255u8, 1] {
        let r = optimize_zero_loop(vec![
            Instruction::Label(s("L")),
            Instruction::AddPtr8Imm(rbx, d),
            Instruction::JumpNonZero(s("L")),
        ]);
        assert_eq!(text(&r), vec!["mov byte [rbx], 0"]);
    }
    let r = optimize_zero_loop(vec![
        Instruction::Label(s("L")),
        Instruction::AddPtr8Imm(rbx, 2),
        Instruction::JumpNonZero(s("L")),
    ]);
    assert_eq!(r.len(), 3);
    let r = optimize_zero_loop(vec![
        Instruction::Label(s("L")),
        Instruction::AddPtr8Imm(rbx, 1),
        Instruction::JumpNonZero(s("M")),
    ]);
    assert_eq!(r.len(), 3);
}

#[test]
fn adjacent_mem_movs_table() {
    let r = optimize_adjancent_mem_movs(vec![
        Instruction::MovPtr8Imm(rbx, 1),
        Instruction::MovPtr8Imm(rbx, 2),
        Instruction::MovPtr8Imm(rbx, 3),
        Instruction::MovPtr8Imm(rbx, 4),
    ]);
    let v: u32 = 1 | 2 << 8 | 3 << 16 | 4 << 24;
    assert_eq!(text(&r), vec![format!("mov dword [rbx], {}", v), s("add rbx, 4")]);
    let r = optimize_adjancent_mem_movs(vec![
        Instruction::MovPtr8Imm(rbx, 0xaa),
        Instruction::MovPtr8Imm(rbx, 0xbb),
        Instruction::MovPtr8Imm(rbx, 0xcc),
    ]);
    assert_eq!(text(&r), vec![format!("mov word [rbx], {}", 0xbbaau32), s("add rbx, 2"), s("mov byte [rbx], 204")]);
    let nine: Vec<Instruction> = (1..=9u8).map(|b| Instruction::MovPtr8Imm(rbx, b)).collect();
    let r = optimize_adjancent_mem_movs(nine);
    assert_eq!(text(&r), vec![
        format!("mov qword [rbx], {}", u64::from_le_bytes([1, 2, 3, 4, 5, 6, 7, 8])),
        s("add rbx, 8"),
        s("mov byte [rbx], 9"),
    ]);
    let r = optimize_adjancent_mem_movs(vec![Instruction::MovPtr8Imm(rbx, 1), Instruction::MovPtr8Imm(rsi, 2)]);
    assert_eq!(r.len(), 2);
}

#[test]
fn adjacent_folds_left_to_right() {
    let r = optimize_adjacent(vec![
        Instruction::AddImm(rbx, 1),
        Instruction::AddImm(rbx, 2),
        Instruction::SubImm(rbx, 3),
        Instruction::AddPtr8Imm(rbx, 1),
        Instruction::AddPtr8Imm(rbx, 1),
    ]);
    assert_eq!(text(&r), vec!["add byte [rbx], 2"]);
    assert!(optimize_adjacent(vec![]).is_empty());
}

#[test]
fn unused_labels_go() {
    let r = optimize_remove_unused_labels(vec![
        Instruction::Label(s("a")),
        Instruction::Label(s("b")),
        Instruction::JumpZero(s("b")),
        Instruction::Label(s("c")),
    ]);
    assert_eq!(text(&r), vec!["b:", "jz b"]);
}

#[test]
fn dead_code_after_jump_goes() {
    let r = optimize_remove_dead_code(vec![
        Instruction::Jump(s("a")),
        Instruction::AddImm(rbx, 1),
        Instruction::Label(s("a")),
        Instruction::Jump(s("b")),
        Instruction::AddImm(rbx, 1),
        Instruction::Label(s("c")),
        Instruction::Label(s("b")),
    ]);
    assert_eq!(text(&r), vec!["a:", "jmp b", "inc rbx", "c:", "b:"]);
}

#[test]
fn repeated_jumps_go() {
    let r = optimize_dead_jumps(vec![
        Instruction::IsZeroPtr8(rbx),
        Instruction::JumpZero(s("a")),
        Instruction::MovImm(rdi, 1),
        Instruction::JumpZero(s("b")),
        Instruction::JumpNonZero(s("c")),
    ]);
    assert_eq!(text(&r), vec!["cmp byte [rbx], 0", "jz a", "mov rdi, 1", "jnz c"]);
    let r = optimize_dead_jumps(vec![Instruction::JumpZero(s("a")), Instruction::JumpZero(s("b"))]);
    assert_eq!(text(&r), vec!["jz a"]);
    let r = optimize_dead_jumps(vec![
        Instruction::IsZeroPtr8(rbx),
        Instruction::JumpZero(s("a")),
        Instruction::JumpZero(s("b")),
    ]);
    assert_eq!(text(&r), vec!["cmp byte [rbx], 0", "jz a"]);
}

#[test]
fn redundant_compares_go() {
    let r = optimize_zero_flags(vec![
        Instruction::AddPtr8Imm(rbx, 1),
        Instruction::IsZeroPtr8(rbx),
        Instruction::JumpNonZero(s("a")),
        Instruction::IsZeroPtr8(rbx),
        Instruction::Label(s("a")),
        Instruction::IsZeroPtr8(rbx),
    ]);
    assert_eq!(text(&r), vec!["inc byte [rbx]", "jnz a", "a:", "cmp byte [rbx], 0"]);
    let r = optimize_zero_flags(vec![
        Instruction::NamedBlackBox(s("read"), s("call _read"), Effects::volatile()),
        Instruction::MovImm(rdi, 0),
        Instruction::IsZeroPtr8(rbx),
        Instruction::NamedBlackBox(s("write"), s("call _write"), Effects::volatile()),
        Instruction::IsZeroPtr8(rbx),
    ]);
    assert_eq!(text(&r), vec!["call _read", "xor rdi, rdi", "call _write", "cmp byte [rbx], 0"]);
}

#[test]
fn unread_flags_go() {
    let r = optimize_remove_nops(vec![
        Instruction::IsZeroPtr8(rbx),
        Instruction::AddPtr8Imm(rbx, 0),
        Instruction::IsZeroPtr8(rbx),
        Instruction::JumpZero(s("a")),
        Instruction::BlackBox(s("nop"), Effects::nop()),
        Instruction::IsZero(rbx),
    ]);
    assert_eq!(text(&r), vec!["cmp byte [rbx], 0", "jz a"]);
}

#[test]
fn work_before_exit_goes() {
    let r = optimize_exit(vec![
        Instruction::AddPtr8Imm(rbx, 3),
        Instruction::AddImm(rbx, 1),
        Instruction::BlackBox(s("add rsp, 30000"), Effects::volatile()),
        Instruction::MovImm(rdi, 0),
        Instruction::NamedBlackBox(s("exit"), s("call exit"), Effects::volatile()),
    ]);
    assert_eq!(text(&r), vec!["add byte [rbx], 3", "inc rbx", "add rsp, 30000", "xor rdi, rdi", "call exit"]);
    let r = optimize_exit(vec![
        Instruction::AddPtr8Imm(rbx, 3),
        Instruction::AddImm(rbx, 1),
        Instruction::MovImm(rdi, 0),
        Instruction::NamedBlackBox(s("exit"), s("call exit"), Effects::volatile()),
    ]);
    assert_eq!(text(&r), vec!["xor rdi, rdi", "call exit"]);
}

#[test]
fn constant_output_makes_one_write() {
    let mut ops = write_byte(b'h');
    ops.extend(write_byte(b'i'));
    ops.push(Instruction::AddImm(rbx, 1));
    ops.extend(write_byte(10));
    let r = optimize_constant_output(ops);
    assert_eq!(text(&r), vec![
        "mov rdi, 1",
        "mov rsi, constant_output0",
        "mov rdx, 2",
        "call write",
        "inc rbx",
        "mov rdi, 1",
        "mov rsi, constant_output1",
        "mov rdx, 1",
        "call write",
        "constant_output0: db \"hi\"",
        "constant_output1: db 0xa",
    ]);
    let r = optimize_constant_output(vec![Instruction::AddImm(rbx, 1)]);
    assert_eq!(text(&r), vec!["inc rbx"]);
}

#[test]
fn jumps_skip_rechecks() {
    let r = optimize_jump_skip_recheck(vec![
        Instruction::IsZeroPtr8(rbx),
        Instruction::JumpZero(s("end")),
        Instruction::Label(s("start")),
        Instruction::AddImm(rbx, 1),
        Instruction::IsZeroPtr8(rbx),
        Instruction::JumpNonZero(s("start")),
        Instruction::Label(s("end")),
        Instruction::IsZeroPtr8(rbx),
        Instruction::JumpNonZero(s("x")),
        Instruction::MovImm(rdi, 0),
    ]);
    assert_eq!(text(&r), vec![
        "cmp byte [rbx], 0",
        "jz .jump_skip_recheck0",
        "start:",
        "inc rbx",
        "cmp byte [rbx], 0",
        "jnz start",
        "end:",
        "cmp byte [rbx], 0",
        "jnz x",
        ".jump_skip_recheck0:",
        "xor rdi, rdi",
    ]);
}

#[test]
fn redundant_movs_go() {
    let r = optimize_redundant_movs(vec![
        Instruction::MovImm(rdi, 1),
        Instruction::MovImm(rdi, 1),
        Instruction::MovImm(rdx, 1),
        Instruction::Mov(rdi, rdx),
        Instruction::AddImm(rdi, 1),
        Instruction::MovImm(rdi, 1),
        Instruction::Label(s("a")),
        Instruction::MovImm(rdi, 1),
    ]);
    assert_eq!(text(&r), vec!["mov rdi, 1", "mov rdx, 1", "inc rdi", "mov rdi, 1", "a:", "mov rdi, 1"]);
}

#[test]
fn data_moves_to_the_end() {
    let ops = vec![
        Instruction::Data(s("d0"), vec![1]),
        Instruction::AddImm(rbx, 1),
        Instruction::Data(s("d1"), vec![2]),
        Instruction::SubImm(rbx, 2),
    ];
    let (code, data) = separate_data(ops);
    assert_eq!(text(&code), vec!["inc rbx", "sub rbx, 2"]);
    assert_eq!(text(&data), vec!["d0: db 0x1", "d1: db 0x2"]);
    let r = move_data_to_end(vec![Instruction::Data(s("d0"), vec![65]), Instruction::AddImm(rbx, 1)]);
    assert_eq!(text(&r), vec!["inc rbx", "d0: db \"A\""]);
}

#[test]
fn data_is_sorted_by_name_then_bytes() {
    let (_, data) = separate_data(vec![
        Instruction::Data(s("b"), vec![]),
        Instruction::Data(s("a"), vec![]),
    ]);
    assert_eq!(text(&data), vec!["a: db ", "b: db "]);
    let r = move_data_to_end(vec![
        Instruction::Data(s("constant_output2"), vec![2]),
        Instruction::Data(s("constant_output10"), vec![10]),
        Instruction::AddImm(rbx, 1),
        Instruction::Data(s("constant_output1"), vec![1]),
        Instruction::Data(s("x"), vec![5, 1]),
        Instruction::Data(s("x"), vec![5]),
        Instruction::Data(s("x"), vec![4, 9]),
    ]);
    assert_eq!(text(&r), vec![
        "inc rbx",
        "constant_output1: db 0x1",
        "constant_output10: db 0xa",
        "constant_output2: db 0x2",
        "x: db 0x4,0x9",
        "x: db 0x5",
        "x: db 0x5,0x1",
    ]);
}

#[test]
fn labels_are_found_by_name() {
    let ops = vec![Instruction::AddImm(rbx, 1), Instruction::Label(s("a")), Instruction::Label(s("a"))];
    assert_eq!(label_index(&ops, &s("a")), Some(1));
    assert_eq!(label_index(&ops, &s("b")), None);
}

#[test]
fn registry_and_scheduler() {
    let mut o = Optimizer::new();
    let a = o.add_pass(Pass::new("remove_unused_labels", PassFn::RemoveUnusedLabels, vec![]));
    let b = o.add_pass(Pass::new("zero_loop", PassFn::ZeroLoop, vec![a]));
    assert_eq!(a, PassId(0));
    assert_eq!(b, PassId(1));
    assert_eq!(o.get_id("zero_loop"), b);
    assert_eq!(o.get(b).name(), "zero_loop");
    let (r, runs) = o.run(vec![
        Instruction::Label(s("L")),
        Instruction::AddPtr8Imm(rbx, 255),
        Instruction::JumpNonZero(s("L")),
        Instruction::Label(s("M")),
    ]);
    assert_eq!(text(&r), vec!["mov byte [rbx], 0"]);
    assert_eq!(runs, 3);
}

#[test]
fn full_schedule_on_a_counting_loop() {
    let r = optimize(vec![
        Instruction::AddPtr8Imm(rbx, 3),
        Instruction::Label(s(".label0")),
        Instruction::AddPtr8Imm(rbx, 255),
        Instruction::IsZeroPtr8(rbx),
        Instruction::JumpNonZero(s(".label0")),
        Instruction::MovImm(rdi, 7),
        Instruction::BlackBox(s("call something"), Effects::volatile()),
    ]);
    assert_eq!(text(&r), vec!["mov byte [rbx], 3", "mov byte [rbx], 0", "mov rdi, 7", "call something"]);
}
