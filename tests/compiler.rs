use brain_opt::compiler::{Label, State, Step, StepInterpreter, StepInterpreterState, Tape};
use brain_opt::target_abi::{Operations, ABI};
use brain_opt::error::Error;
use brain_opt::{compile_tokens, parse};

const HELLO: &str = "++++++++[>++++[>++>+++>+++
                >+<<<<-]>+>+>->>+[<]<-]>>.>-
                --.+++++++..+++.>>.<-.<.+++.
                ------.--------.>>+.>++.";

fn optimized_steps(src: &str) -> Vec<Step> {
    let mut state = State::new();
    for t in parse(src) {
        state.append(t);
    }
    state.optimize().unwrap();
    state.get_steps().clone()
}

fn printed_bytes(steps: &[Step]) -> Vec<u8> {
    let mut out = Vec::new();
    for w in steps.windows(2) {
        if let (Step::Add(v), Step::Output) = (w[0], w[1]) {
            out.push(v);
        }
    }
    out
}

#[test]
fn append_lowers_tokens() {
    let mut state = State::new();
    for t in parse("+-<>[.,]") {
        state.append(t);
    }
    assert_eq!(state.get_steps(), &vec![
        Step::Add(1),
        Step::Add(255),
        Step::Prev(1),
        Step::Next(1),
        Step::JumpToIf(false, Label(1)),
        Step::Label(Label(0)),
        Step::Output,
        Step::Input,
        Step::JumpToIf(true, Label(0)),
        Step::Label(Label(1)),
    ]);
}

#[test]
fn combine_merges_pointer_moves() {
    assert_eq!(State::combine(Step::Add(200), Step::Add(100)).unwrap(), vec![Step::Add(44)]);
    assert_eq!(State::combine(Step::Next(2), Step::Next(3)).unwrap(), vec![Step::Next(5)]);
    assert_eq!(State::combine(Step::Prev(2), Step::Prev(3)).unwrap(), vec![Step::Prev(5)]);
    assert_eq!(State::combine(Step::Next(5), Step::Prev(2)).unwrap(), vec![Step::Next(3)]);
    assert_eq!(State::combine(Step::Next(2), Step::Prev(5)).unwrap(), vec![Step::Prev(3)]);
    assert_eq!(State::combine(Step::Prev(5), Step::Next(2)).unwrap(), vec![Step::Prev(3)]);
    assert_eq!(State::combine(Step::Prev(2), Step::Next(5)).unwrap(), vec![Step::Next(3)]);
    assert_eq!(State::combine(Step::Next(4), Step::Prev(4)).unwrap(), vec![]);
    assert!(matches!(State::combine(Step::Next(u64::MAX), Step::Next(1)), Err(Error::InternalCompilerError)));
    assert!(matches!(State::combine(Step::Prev(u64::MAX), Step::Prev(2)), Err(Error::InternalCompilerError)));
    assert_eq!(State::combine(Step::Output, Step::Add(1)).unwrap(), vec![Step::Output, Step::Add(1)]);
}

#[test]
fn peephole_merges_runs() {
    let mut state = State::new();
    for t in parse(">>><<+++--,") {
        state.append(t);
    }
    state.optimize_peephole_combine().unwrap();
    assert_eq!(state.get_steps(), &vec![Step::Next(1), Step::Add(1), Step::Input]);
}

#[test]
fn tape_grows_wraps_and_trims() {
    let mut t = Tape::new();
    t.add(3, 250);
    t.add(3, 10);
    assert_eq!(t.0, vec![0, 0, 0, 4]);
    assert_eq!(t.get(3), 4);
    assert_eq!(t.get(100), 0);
    t.add(5, 0);
    t.trim();
    assert_eq!(t.0, vec![0, 0, 0, 4]);
}

#[test]
fn tapes_compare_by_cells() {
    assert_eq!(Tape(vec![1, 0, 0]), Tape(vec![1]));
    assert_eq!(Tape(vec![]), Tape(vec![0, 0]));
    assert_ne!(Tape(vec![1, 2]), Tape(vec![1]));
    assert_ne!(Tape(vec![0, 0, 3]), Tape(vec![0, 0, 4]));
}

#[test]
fn interpreter_steps_and_jumps() {
    let steps = vec![Step::Add(2), Step::Output, Step::JumpTo(Label(7)), Step::Add(1), Step::Label(Label(7)), Step::Input];
    let mut intp = StepInterpreter {
        steps: &steps,
        state: StepInterpreterState { index: 0, tape: Tape::new(), pointer: 0, output: Vec::new() },
    };
    assert_eq!(intp.step().unwrap(), true);
    assert_eq!(intp.step().unwrap(), true);
    assert_eq!(intp.state.output, vec![2]);
    assert_eq!(intp.step().unwrap(), true);
    assert_eq!(intp.state.index, 5);
    assert_eq!(intp.step().unwrap(), false);
    assert_eq!(intp.state.index, 5);
    assert!(!intp.done());
    assert!(!intp.jump_to(Label(9)));
    assert_eq!(intp.state.index, 5);
    assert!(intp.jump_to(Label(7)));
    assert_eq!(intp.state.index, 4);
}

#[test]
fn prev_below_origin_is_an_internal_error() {
    let mut state = State::new();
    for t in parse("<+.") {
        state.append(t);
    }
    assert!(matches!(state.optimize(), Err(Error::InternalCompilerError)));
    assert!(matches!(compile_tokens(parse("<+."), ABI::Linux), Err(Error::InternalCompilerError)));
}

#[test]
fn missing_label_is_an_internal_error() {
    let steps = vec![Step::JumpTo(Label(3)), Step::Output];
    let mut intp = StepInterpreter {
        steps: &steps,
        state: StepInterpreterState { index: 0, tape: Tape::new(), pointer: 0, output: Vec::new() },
    };
    assert!(matches!(intp.step(), Err(Error::InternalCompilerError)));
    assert_eq!(intp.state.index, 0);
}

#[test]
fn pointer_moves_freely_to_the_right() {
    let src = format!("{}+.", ">".repeat(40000));
    assert_eq!(optimized_steps(&src), vec![
        Step::Add(1),
        Step::Output,
        Step::Label(Label(0)),
        Step::Add(1),
        Step::JumpToIf(true, Label(0)),
    ]);
}

#[test]
fn plus_plus_plus_dot_prints_three() {
    assert_eq!(optimized_steps("+++."), vec![
        Step::Add(3),
        Step::Output,
        Step::Label(Label(0)),
        Step::Add(1),
        Step::JumpToIf(true, Label(0)),
    ]);
    let (listing, _) = compile_tokens(parse("+++."), ABI::Linux).unwrap();
    assert!(listing.contains("constant_output0: db 0x3"));
    assert!(listing.contains("mov rsi, constant_output0"));
    assert!(!listing.contains("call read"));
}

#[test]
fn add_program_prints_five() {
    assert_eq!(optimized_steps("++ > +++ < [->+<] > ."), vec![
        Step::Add(5),
        Step::Output,
        Step::Label(Label(2)),
        Step::Add(1),
        Step::JumpToIf(true, Label(2)),
    ]);
}

#[test]
fn hello_world_is_evaluated_at_compile_time() {
    let steps = optimized_steps(HELLO);
    assert_eq!(printed_bytes(&steps), b"Hello World!\n".to_vec());
    assert_eq!(steps.len(), 5 * 13);
    let (listing, _) = compile_tokens(parse(HELLO), ABI::Linux).unwrap();
    assert!(listing.contains("constant_output0: db \"H\""));
    assert!(!listing.contains("call read"));
}

#[test]
fn input_first_keeps_the_program() {
    assert_eq!(optimized_steps(",."), vec![Step::Input, Step::Output]);
    let (listing, _) = compile_tokens(parse(",."), ABI::Linux).unwrap();
    assert!(listing.contains("call read"));
    assert!(listing.contains("mov byte [rsi], 0"));
    assert!(listing.contains("call write"));
}

#[test]
fn cat_program_keeps_its_loop() {
    assert_eq!(optimized_steps(",[.,]"), vec![
        Step::Input,
        Step::JumpToIf(false, Label(1)),
        Step::Label(Label(0)),
        Step::Output,
        Step::Input,
        Step::JumpToIf(true, Label(0)),
        Step::Label(Label(1)),
    ]);
}

#[test]
fn output_then_input_resumes_after_the_prefix() {
    assert_eq!(optimized_steps("++.>+,."), vec![
        Step::Add(2),
        Step::Output,
        Step::Label(Label(0)),
        Step::Add(1),
        Step::JumpToIf(true, Label(0)),
        Step::Add(2),
        Step::Next(1),
        Step::Add(1),
        Step::Next(1),
        Step::Prev(1),
        Step::JumpTo(Label(1)),
        Step::Add(2),
        Step::Output,
        Step::Next(1),
        Step::Add(1),
        Step::Label(Label(1)),
        Step::Input,
        Step::Output,
    ]);
}

#[test]
fn infinite_loop_compiles() {
    assert_eq!(optimized_steps("+[]"), vec![
        Step::Add(1),
        Step::Next(1),
        Step::Prev(1),
        Step::JumpTo(Label(2)),
        Step::Add(1),
        Step::JumpToIf(false, Label(1)),
        Step::Label(Label(0)),
        Step::Label(Label(2)),
        Step::JumpToIf(true, Label(0)),
        Step::Label(Label(1)),
    ]);
    let (listing, _) = compile_tokens(parse("+[]"), ABI::Linux).unwrap();
    assert!(!listing.contains("constant_output"));
    assert!(!listing.contains("call write"));
}

#[test]
fn assembly_has_header_prologue_and_exit() {
    let (listing, link) = compile_tokens(parse(""), ABI::Linux).unwrap();
    assert_eq!(
        listing,
        "extern read\nextern write\nextern exit\nglobal main\n\nsection .text\nmain:\nsub rsp, 30000\nmov rcx, 30000\nmov rdi, rsp\nxor al, al\nrep stosb\nmov rbx, rsp\nsub rsp, 8\nadd rsp, 30000\nxor rdi, rdi\ncall exit\nsection .data\n\n"
    );
    assert_eq!(link.entrypoint, "main");
    assert_eq!(link.object_format, "elf64");
    let (listing, link) = compile_tokens(parse("."), ABI::MacOS).unwrap();
    assert!(listing.starts_with("extern _read\nextern _write\nextern _exit\nglobal _main\n"));
    assert!(listing.contains("call _write"));
    assert_eq!(link.linker_cmd, "ld");
}

#[test]
fn step_lowering_uses_the_abi() {
    let mut ops = ABI::Linux.operations();
    let v = Step::Input.to_assembly(brain_opt::instruction::Register64::rbx, &mut ops);
    let text: Vec<String> = v.iter().map(|i| i.to_source()).collect();
    assert_eq!(text, vec![
        "xor rdi, rdi",
        "mov rsi, rbx",
        "mov rdx, 1",
        "call read",
        "test rax, rax",
        "jnz .interface_linux0",
        "mov byte [rsi], 0",
        ".interface_linux0:",
    ]);
    let v = Step::Input.to_assembly(brain_opt::instruction::Register64::rbx, &mut ops);
    assert_eq!(v[7].to_source(), ".interface_linux1:");
    let v = Step::JumpToIf(true, Label(12)).to_assembly(brain_opt::instruction::Register64::rbx, &mut ops);
    assert_eq!(v[1].to_source(), "jnz .label12");
    assert_eq!(Label(40).name(), ".label40");
}
