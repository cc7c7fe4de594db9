//! The low-level IR: x86-64 flavoured instructions with declared effects.
use vstd::prelude::*;

use crate::text::{decimal_of, hex_of, push_char, push_decimal, push_hex, push_str};

verus! {

/// The 64-bit registers the compiler uses.
#[allow(non_camel_case_types)]
#[derive(Debug, Clone, Copy, PartialEq, Eq, Structural, Hash)]
pub enum Register64 {
    rax,
    rbx,
    rcx,
    rdx,
    rsi,
    rdi,
    rsp,
    r10,
    r11,
    r12,
}

/// The assembly name of a register.
pub open spec fn reg_name(r: Register64) -> Seq<char> {
    match r {
        Register64::rax => "rax"@,
        Register64::rbx => "rbx"@,
        Register64::rcx => "rcx"@,
        Register64::rdx => "rdx"@,
        Register64::rsi => "rsi"@,
        Register64::rdi => "rdi"@,
        Register64::rsp => "rsp"@,
        Register64::r10 => "r10"@,
        Register64::r11 => "r11"@,
        Register64::r12 => "r12"@,
    }
}

impl Register64 {
    /// The assembly name of the register.
    pub fn name(&self) -> (r: &'static str)
        ensures
            r@ == reg_name(*self),
    {
        match self {
            Register64::rax => "rax",
            Register64::rbx => "rbx",
            Register64::rcx => "rcx",
            Register64::rdx => "rdx",
            Register64::rsi => "rsi",
            Register64::rdi => "rdi",
            Register64::rsp => "rsp",
            Register64::r10 => "r10",
            Register64::r11 => "r11",
            Register64::r12 => "r12",
        }
    }

    /// The assembly name of the register, as an owned string.
    pub fn to_string(&self) -> (r: String)
        ensures
            r@ == reg_name(*self),
    {
        let mut s = String::new();
        push_str(&mut s, self.name());
        assert(s@ =~= reg_name(*self));
        s
    }
}

/// What state an instruction may change.
#[derive(Debug, Clone, Copy, PartialEq, Eq, Structural, Hash)]
pub struct Effects {
    /// Affects flags (only the zero flag is considered)
    pub flags: bool,
    /// Affects registers
    pub registers: bool,
    /// Conditional branching
    pub control_flow: bool,
    /// Affects the stack
    pub stack: bool,
    /// File I/O
    pub io: bool,
}

pub open spec fn effects_of(flags: bool, registers: bool, control_flow: bool, stack: bool, io: bool) -> Effects {
    Effects { flags, registers, control_flow, stack, io }
}

impl Effects {
    /// Volatile operation, must be neither moved nor removed
    pub fn volatile() -> (e: Effects)
        ensures
            e == eff_volatile(),
    {
        Effects { flags: true, registers: true, control_flow: true, stack: true, io: true }
    }

    /// Register-only operation
    pub fn reg() -> (e: Effects)
        ensures
            e == eff_reg(),
    {
        Effects { flags: false, registers: true, control_flow: false, stack: false, io: false }
    }

    /// Flag operation
    pub fn flag() -> (e: Effects)
        ensures
            e == eff_flag(),
    {
        Effects { flags: true, registers: false, control_flow: false, stack: false, io: false }
    }

    /// Register and flag operation
    pub fn arithmetic() -> (e: Effects)
        ensures
            e == eff_arithmetic(),
    {
        Effects { flags: true, registers: true, control_flow: false, stack: false, io: false }
    }

    /// Jump
    pub fn jump() -> (e: Effects)
        ensures
            e == eff_jump(),
    {
        Effects { flags: false, registers: false, control_flow: true, stack: false, io: false }
    }

    /// Label: any jump may land here, so flags and registers are unknown
    pub fn label() -> (e: Effects)
        ensures
            e == eff_label(),
    {
        Effects { flags: true, registers: true, control_flow: false, stack: false, io: false }
    }

    /// No-op
    pub fn nop() -> (e: Effects)
        ensures
            e == eff_nop(),
    {
        Effects { flags: false, registers: false, control_flow: false, stack: false, io: false }
    }
}

pub open spec fn eff_volatile() -> Effects {
    effects_of(true, true, true, true, true)
}

pub open spec fn eff_reg() -> Effects {
    effects_of(false, true, false, false, false)
}

pub open spec fn eff_flag() -> Effects {
    effects_of(true, false, false, false, false)
}

pub open spec fn eff_arithmetic() -> Effects {
    effects_of(true, true, false, false, false)
}

pub open spec fn eff_jump() -> Effects {
    effects_of(false, false, true, false, false)
}

pub open spec fn eff_label() -> Effects {
    effects_of(true, true, false, false, false)
}

pub open spec fn eff_nop() -> Effects {
    effects_of(false, false, false, false, false)
}

/// One low-level instruction.
#[derive(Debug)]
pub enum Instruction {
    /// Raw assembly that the optimizer passes through
    BlackBox(String, Effects),
    /// Raw assembly with a name the optimizer recognises
    NamedBlackBox(String, String, Effects),
    /// `mov rax, 2`
    MovImm(Register64, u64),
    /// `mov rax, label`
    MovImmVar(Register64, String),
    /// `mov rax, rbx`
    Mov(Register64, Register64),
    /// `mov byte [rax], 2`
    MovPtr8Imm(Register64, u8),
    /// `mov word [rax], 2`
    MovPtr16Imm(Register64, u16),
    /// `mov dword [rax], 2`
    MovPtr32Imm(Register64, u32),
    /// `mov qword [rax], 2`
    MovPtr64Imm(Register64, u64),
    /// `add rax, 2`
    AddImm(Register64, u64),
    /// `sub rax, 2`
    SubImm(Register64, u64),
    /// `add byte [rax], 2`
    AddPtr8Imm(Register64, u8),
    /// `add word [rax], 2`
    AddPtr16Imm(Register64, u16),
    /// `add dword [rax], 2`
    AddPtr32Imm(Register64, u32),
    /// `add qword [rax], 2`
    AddPtr64Imm(Register64, u64),
    /// `test rax, rax` (followed by a conditional jump)
    IsZero(Register64),
    /// `cmp byte [rax], 0` (followed by a conditional jump)
    IsZeroPtr8(Register64),
    /// `jz .label2`
    JumpZero(String),
    /// `jnz .label2`
    JumpNonZero(String),
    /// `jmp .label2`
    Jump(String),
    /// `.label2:`
    Label(String),
    /// `name: db "abc", 10, 13` (in section .data)
    Data(String, Vec<u8>),
}

/// The mathematical value of an `Instruction`: strings as character sequences.
pub enum Op {
    BlackBox(Seq<char>, Effects),
    NamedBlackBox(Seq<char>, Seq<char>, Effects),
    MovImm(Register64, u64),
    MovImmVar(Register64, Seq<char>),
    Mov(Register64, Register64),
    MovPtr8Imm(Register64, u8),
    MovPtr16Imm(Register64, u16),
    MovPtr32Imm(Register64, u32),
    MovPtr64Imm(Register64, u64),
    AddImm(Register64, u64),
    SubImm(Register64, u64),
    AddPtr8Imm(Register64, u8),
    AddPtr16Imm(Register64, u16),
    AddPtr32Imm(Register64, u32),
    AddPtr64Imm(Register64, u64),
    IsZero(Register64),
    IsZeroPtr8(Register64),
    JumpZero(Seq<char>),
    JumpNonZero(Seq<char>),
    Jump(Seq<char>),
    Label(Seq<char>),
    Data(Seq<char>, Seq<u8>),
}

impl View for Instruction {
    type V = Op;

    open spec fn view(&self) -> Op {
        match self {
            Instruction::BlackBox(s, e) => Op::BlackBox(s@, *e),
            Instruction::NamedBlackBox(n, s, e) => Op::NamedBlackBox(n@, s@, *e),
            Instruction::MovImm(r, v) => Op::MovImm(*r, *v),
            Instruction::MovImmVar(r, l) => Op::MovImmVar(*r, l@),
            Instruction::Mov(a, b) => Op::Mov(*a, *b),
            Instruction::MovPtr8Imm(r, v) => Op::MovPtr8Imm(*r, *v),
            Instruction::MovPtr16Imm(r, v) => Op::MovPtr16Imm(*r, *v),
            Instruction::MovPtr32Imm(r, v) => Op::MovPtr32Imm(*r, *v),
            Instruction::MovPtr64Imm(r, v) => Op::MovPtr64Imm(*r, *v),
            Instruction::AddImm(r, v) => Op::AddImm(*r, *v),
            Instruction::SubImm(r, v) => Op::SubImm(*r, *v),
            Instruction::AddPtr8Imm(r, v) => Op::AddPtr8Imm(*r, *v),
            Instruction::AddPtr16Imm(r, v) => Op::AddPtr16Imm(*r, *v),
            Instruction::AddPtr32Imm(r, v) => Op::AddPtr32Imm(*r, *v),
            Instruction::AddPtr64Imm(r, v) => Op::AddPtr64Imm(*r, *v),
            Instruction::IsZero(r) => Op::IsZero(*r),
            Instruction::IsZeroPtr8(r) => Op::IsZeroPtr8(*r),
            Instruction::JumpZero(l) => Op::JumpZero(l@),
            Instruction::JumpNonZero(l) => Op::JumpNonZero(l@),
            Instruction::Jump(l) => Op::Jump(l@),
            Instruction::Label(l) => Op::Label(l@),
            Instruction::Data(n, d) => Op::Data(n@, d@),
        }
    }
}

/// The values of a sequence of instructions.
pub open spec fn ops_view(s: Seq<Instruction>) -> Seq<Op> {
    Seq::new(s.len(), |i: int| s[i]@)
}

pub proof fn lemma_ops_view_push(s: Seq<Instruction>, x: Instruction)
    ensures
        ops_view(s.push(x)) == ops_view(s).push(x@),
{
    assert(ops_view(s.push(x)) =~= ops_view(s).push(x@));
}

pub proof fn lemma_ops_view_add(s: Seq<Instruction>, t: Seq<Instruction>)
    ensures
        ops_view(s + t) == ops_view(s) + ops_view(t),
{
    assert(ops_view(s + t) =~= ops_view(s) + ops_view(t));
}

impl Clone for Instruction {
    fn clone(&self) -> (r: Self)
        ensures
            r@ == self@,
    {
        match self {
            Instruction::BlackBox(s, e) => Instruction::BlackBox(s.clone(), *e),
            Instruction::NamedBlackBox(n, s, e) => Instruction::NamedBlackBox(
                n.clone(),
                s.clone(),
                *e,
            ),
            Instruction::MovImm(r, v) => Instruction::MovImm(*r, *v),
            Instruction::MovImmVar(r, l) => Instruction::MovImmVar(*r, l.clone()),
            Instruction::Mov(a, b) => Instruction::Mov(*a, *b),
            Instruction::MovPtr8Imm(r, v) => Instruction::MovPtr8Imm(*r, *v),
            Instruction::MovPtr16Imm(r, v) => Instruction::MovPtr16Imm(*r, *v),
            Instruction::MovPtr32Imm(r, v) => Instruction::MovPtr32Imm(*r, *v),
            Instruction::MovPtr64Imm(r, v) => Instruction::MovPtr64Imm(*r, *v),
            Instruction::AddImm(r, v) => Instruction::AddImm(*r, *v),
            Instruction::SubImm(r, v) => Instruction::SubImm(*r, *v),
            Instruction::AddPtr8Imm(r, v) => Instruction::AddPtr8Imm(*r, *v),
            Instruction::AddPtr16Imm(r, v) => Instruction::AddPtr16Imm(*r, *v),
            Instruction::AddPtr32Imm(r, v) => Instruction::AddPtr32Imm(*r, *v),
            Instruction::AddPtr64Imm(r, v) => Instruction::AddPtr64Imm(*r, *v),
            Instruction::IsZero(r) => Instruction::IsZero(*r),
            Instruction::IsZeroPtr8(r) => Instruction::IsZeroPtr8(*r),
            Instruction::JumpZero(l) => Instruction::JumpZero(l.clone()),
            Instruction::JumpNonZero(l) => Instruction::JumpNonZero(l.clone()),
            Instruction::Jump(l) => Instruction::Jump(l.clone()),
            Instruction::Label(l) => Instruction::Label(l.clone()),
            Instruction::Data(n, d) => Instruction::Data(n.clone(), d.clone()),
        }
    }
}

/// What an instruction may change; `None` for data, which is never executed.
pub open spec fn op_effects(o: Op) -> Option<Effects> {
    match o {
        Op::BlackBox(_, e) => Some(e),
        Op::NamedBlackBox(_, _, e) => Some(e),
        Op::MovImm(_, _) => Some(eff_reg()),
        Op::MovImmVar(_, _) => Some(eff_reg()),
        Op::Mov(_, _) => Some(eff_reg()),
        Op::MovPtr8Imm(_, _) => Some(eff_reg()),
        Op::MovPtr16Imm(_, _) => Some(eff_reg()),
        Op::MovPtr32Imm(_, _) => Some(eff_reg()),
        Op::MovPtr64Imm(_, _) => Some(eff_reg()),
        Op::AddImm(_, v) => Some(if v == 0 { eff_flag() } else { eff_arithmetic() }),
        Op::SubImm(_, v) => Some(if v == 0 { eff_flag() } else { eff_arithmetic() }),
        Op::AddPtr8Imm(_, v) => Some(if v == 0 { eff_flag() } else { eff_arithmetic() }),
        Op::AddPtr16Imm(_, v) => Some(if v == 0 { eff_flag() } else { eff_arithmetic() }),
        Op::AddPtr32Imm(_, v) => Some(if v == 0 { eff_flag() } else { eff_arithmetic() }),
        Op::AddPtr64Imm(_, v) => Some(if v == 0 { eff_flag() } else { eff_arithmetic() }),
        Op::IsZero(_) => Some(eff_flag()),
        Op::IsZeroPtr8(_) => Some(eff_flag()),
        Op::JumpZero(_) => Some(eff_jump()),
        Op::JumpNonZero(_) => Some(eff_jump()),
        Op::Jump(_) => Some(eff_jump()),
        Op::Label(_) => Some(eff_label()),
        Op::Data(_, _) => None,
    }
}

/// Whether an instruction may read the zero flag.
pub open spec fn op_reads_zf(o: Op) -> bool {
    match o {
        Op::BlackBox(_, _) => true,
        Op::NamedBlackBox(_, _, _) => true,
        Op::JumpZero(_) => true,
        Op::JumpNonZero(_) => true,
        _ => false,
    }
}

/// Whether an instruction may change the zero flag.
pub open spec fn op_affects_zf(o: Op) -> bool {
    match op_effects(o) {
        Some(e) => e.flags,
        None => false,
    }
}

/// The label a jump goes to, if the instruction is a jump.
pub open spec fn jump_target(o: Op) -> Option<Seq<char>> {
    match o {
        Op::JumpZero(l) => Some(l),
        Op::JumpNonZero(l) => Some(l),
        Op::Jump(l) => Some(l),
        _ => None,
    }
}

/// Two adjacent instructions fused into at most two equivalent ones.
pub open spec fn combine_ops(a: Op, b: Op) -> Seq<Op> {
    match (a, b) {
        (Op::AddPtr8Imm(r0, v0), Op::AddPtr8Imm(r1, v1)) if r0 == r1 => seq![
            Op::AddPtr8Imm(r0, ((v0 + v1) % 256) as u8),
        ],
        (Op::AddPtr8Imm(r0, _), Op::MovPtr8Imm(r1, v1)) if r0 == r1 => seq![Op::MovPtr8Imm(r0, v1)],
        (Op::MovPtr8Imm(r0, v0), Op::AddPtr8Imm(r1, v1)) if r0 == r1 => seq![
            Op::MovPtr8Imm(r0, ((v0 + v1) % 256) as u8),
        ],
        (Op::AddImm(r0, v0), Op::AddImm(r1, v1)) if r0 == r1 => seq![
            Op::AddImm(r0, ((v0 + v1) % 0x1_0000_0000_0000_0000) as u64),
        ],
        (Op::AddImm(r0, v0), Op::SubImm(r1, v1)) if r0 == r1 => signed_move(r0, v0 as int - v1 as int),
        (Op::SubImm(r0, v0), Op::AddImm(r1, v1)) if r0 == r1 => signed_move(r0, v1 as int - v0 as int),
        (Op::SubImm(r0, v0), Op::SubImm(r1, v1)) if r0 == r1 => seq![
            Op::SubImm(r0, ((v0 + v1) % 0x1_0000_0000_0000_0000) as u64),
        ],
        (Op::JumpZero(t), Op::JumpZero(_)) => seq![Op::JumpZero(t)],
        (Op::JumpNonZero(t), Op::JumpNonZero(_)) => seq![Op::JumpNonZero(t)],
        _ => seq![a, b],
    }
}

/// A register moved by `d`: nothing when `d` is zero, else one add or one subtract.
pub open spec fn signed_move(r: Register64, d: int) -> Seq<Op> {
    if d == 0 {
        seq![]
    } else if d > 0 {
        seq![Op::AddImm(r, d as u64)]
    } else {
        seq![Op::SubImm(r, (-d) as u64)]
    }
}

/// The assembly text of one instruction.
pub open spec fn source_of(o: Op) -> Seq<char> {
    match o {
        Op::BlackBox(s, _) => s,
        Op::NamedBlackBox(_, s, _) => s,
        Op::MovImm(r, v) => if v == 0 {
            "xor "@ + reg_name(r) + ", "@ + reg_name(r)
        } else {
            "mov "@ + reg_name(r) + ", "@ + decimal_of(v as nat)
        },
        Op::MovImmVar(r, l) => "mov "@ + reg_name(r) + ", "@ + l,
        Op::Mov(a, b) => "mov "@ + reg_name(a) + ", "@ + reg_name(b),
        Op::MovPtr8Imm(r, v) => "mov byte ["@ + reg_name(r) + "], "@ + decimal_of(v as nat),
        Op::MovPtr16Imm(r, v) => "mov word ["@ + reg_name(r) + "], "@ + decimal_of(v as nat),
        Op::MovPtr32Imm(r, v) => "mov dword ["@ + reg_name(r) + "], "@ + decimal_of(v as nat),
        Op::MovPtr64Imm(r, v) => "mov qword ["@ + reg_name(r) + "], "@ + decimal_of(v as nat),
        Op::AddImm(r, v) => if v == 1 {
            "inc "@ + reg_name(r)
        } else {
            "add "@ + reg_name(r) + ", "@ + decimal_of(v as nat)
        },
        Op::SubImm(r, v) => if v == 1 {
            "dec "@ + reg_name(r)
        } else {
            "sub "@ + reg_name(r) + ", "@ + decimal_of(v as nat)
        },
        Op::AddPtr8Imm(r, v) => if v == 255 {
            "dec byte ["@ + reg_name(r) + "]"@
        } else if v == 1 {
            "inc byte ["@ + reg_name(r) + "]"@
        } else {
            "add byte ["@ + reg_name(r) + "], "@ + decimal_of(v as nat)
        },
        Op::AddPtr16Imm(r, v) => "add word ["@ + reg_name(r) + "], "@ + decimal_of(v as nat),
        Op::AddPtr32Imm(r, v) => "add dword ["@ + reg_name(r) + "], "@ + decimal_of(v as nat),
        Op::AddPtr64Imm(r, v) => "add qword ["@ + reg_name(r) + "], "@ + decimal_of(v as nat),
        Op::IsZero(r) => "test "@ + reg_name(r) + ", "@ + reg_name(r),
        Op::IsZeroPtr8(r) => "cmp byte ["@ + reg_name(r) + "], 0"@,
        Op::JumpZero(l) => "jz "@ + l,
        Op::JumpNonZero(l) => "jnz "@ + l,
        Op::Jump(l) => "jmp "@ + l,
        Op::Label(l) => l + ":"@,
        Op::Data(n, d) => n + ": db "@ + data_text(d, false, true),
    }
}

/// Whether a byte is written inside a quoted string in a `db` line: printable
/// ASCII other than the double quote.
pub open spec fn quotable(b: u8) -> bool {
    0x20 <= b <= 0x7e && b != 0x22
}

/// The operands of a `db` line: runs of quotable bytes as one quoted string,
/// other bytes in hexadecimal, all separated by commas. `open` tells whether
/// a quoted string is open; `first` whether nothing was written yet.
pub open spec fn data_text(d: Seq<u8>, open: bool, first: bool) -> Seq<char>
    decreases d.len(),
{
    if d.len() == 0 {
        if open {
            "\""@
        } else {
            seq![]
        }
    } else if quotable(d[0]) {
        let start = if open {
            seq![]
        } else if first {
            "\""@
        } else {
            ",\""@
        };
        start.push(d[0] as char) + data_text(d.skip(1), true, false)
    } else {
        let close = if open {
            "\""@
        } else {
            seq![]
        };
        let sep = if first {
            seq![]
        } else {
            ","@
        };
        close + sep + "0x"@ + hex_of(d[0]) + data_text(d.skip(1), false, false)
    }
}

/// The operands of a `db` line holding `data` (see `data_text`).
pub fn format_data(data: &Vec<u8>) -> (r: String)
    ensures
        r@ == data_text(data@, false, true),
{
    let mut result = String::new();
    let mut in_string = false;
    let mut first = true;
    let mut index: usize = 0;
    assert(data@.skip(0) =~= data@);
    assert(result@ =~= Seq::<char>::empty());
    while index < data.len()
        invariant
            index <= data.len(),
            result@ + data_text(data@.skip(index as int), in_string, first) == data_text(
                data@,
                false,
                true,
            ),
        decreases data.len() - index,
    {
        let ghost before = result@;
        let ghost rest = data@.skip(index as int);
        assert(rest.skip(1) =~= data@.skip(index + 1));
        let byte = data[index];
        if 0x20 <= byte && byte <= 0x7e && byte != 0x22 {
            if !in_string {
                if !first {
                    push_char(&mut result, ',');
                }
                push_char(&mut result, '"');
            }
            push_char(&mut result, byte as char);
            proof {
                reveal_strlit("\"");
                reveal_strlit(",\"");
                let start = if in_string {
                    seq![]
                } else if first {
                    "\""@
                } else {
                    ",\""@
                };
                assert(result@ =~= before + start.push(byte as char));
                assert(before + data_text(rest, in_string, first) =~= result@ + data_text(
                    rest.skip(1),
                    true,
                    false,
                ));
            }
            in_string = true;
        } else {
            if in_string {
                push_char(&mut result, '"');
            }
            if !first {
                push_char(&mut result, ',');
            }
            push_str(&mut result, "0x");
            push_hex(&mut result, byte);
            proof {
                reveal_strlit("\"");
                reveal_strlit(",");
                let close = if in_string {
                    "\""@
                } else {
                    seq![]
                };
                let sep = if first {
                    seq![]
                } else {
                    ","@
                };
                assert(result@ =~= before + close + sep + "0x"@ + hex_of(byte));
                assert(before + data_text(rest, in_string, first) =~= result@ + data_text(
                    rest.skip(1),
                    false,
                    false,
                ));
            }
            in_string = false;
        }
        first = false;
        index += 1;
    }
    if in_string {
        push_char(&mut result, '"');
    }
    proof {
        reveal_strlit("\"");
        assert(data@.skip(index as int) =~= Seq::<u8>::empty());
        assert(result@ =~= data_text(data@, false, true));
    }
    result
}


fn signed_move_exec(r: Register64, plus: u64, minus: u64) -> (v: Vec<Instruction>)
    ensures
        ops_view(v@) == signed_move(r, plus as int - minus as int),
{
    let v = if plus == minus {
        Vec::new()
    } else if plus > minus {
        let d = plus - minus;
        vec![Instruction::AddImm(r, d)]
    } else {
        let d = minus - plus;
        vec![Instruction::SubImm(r, d)]
    };
    assert(ops_view(v@) =~= signed_move(r, plus as int - minus as int));
    v
}

/// Appends `<prefix><register>], <value>`.
fn push_ptr_imm(s: &mut String, prefix: &str, r: Register64, v: u64)
    ensures
        final(s)@ == old(s)@ + prefix@ + reg_name(r) + "], "@ + decimal_of(v as nat),
{
    push_str(s, prefix);
    push_str(s, r.name());
    push_str(s, "], ");
    push_decimal(s, v);
    assert(final(s)@ =~= old(s)@ + prefix@ + reg_name(r) + "], "@ + decimal_of(v as nat));
}

impl Instruction {

    /// Fuses this instruction with the next one where a single equivalent one exists.
    pub fn combine(self, other: Self) -> (r: Vec<Self>)
        ensures
            ops_view(r@) == combine_ops(self@, other@),
    {
        let ghost a = self@;
        let ghost b = other@;
        let r = match (&self, &other) {
            (Instruction::AddPtr8Imm(r0, v0), Instruction::AddPtr8Imm(r1, v1)) if *r0 == *r1 => {
                vec![Instruction::AddPtr8Imm(*r0, v0.wrapping_add(*v1))]
            },
            (Instruction::AddPtr8Imm(r0, _), Instruction::MovPtr8Imm(r1, v1)) if *r0 == *r1 => {
                vec![Instruction::MovPtr8Imm(*r0, *v1)]
            },
            (Instruction::MovPtr8Imm(r0, v0), Instruction::AddPtr8Imm(r1, v1)) if *r0 == *r1 => {
                vec![Instruction::MovPtr8Imm(*r0, v0.wrapping_add(*v1))]
            },
            (Instruction::AddImm(r0, v0), Instruction::AddImm(r1, v1)) if *r0 == *r1 => {
                vec![Instruction::AddImm(*r0, v0.wrapping_add(*v1))]
            },
            (Instruction::AddImm(r0, v0), Instruction::SubImm(r1, v1)) if *r0 == *r1 => {
                signed_move_exec(*r0, *v0, *v1)
            },
            (Instruction::SubImm(r0, v0), Instruction::AddImm(r1, v1)) if *r0 == *r1 => {
                signed_move_exec(*r0, *v1, *v0)
            },
            (Instruction::SubImm(r0, v0), Instruction::SubImm(r1, v1)) if *r0 == *r1 => {
                vec![Instruction::SubImm(*r0, v0.wrapping_add(*v1))]
            },
            (Instruction::JumpZero(_), Instruction::JumpZero(_)) => vec![self],
            (Instruction::JumpNonZero(_), Instruction::JumpNonZero(_)) => vec![self],
            _ => vec![self, other],
        };
        assert(ops_view(r@) =~= combine_ops(a, b));
        r
    }

    /// The assembly text of this instruction.
    pub fn to_source(&self) -> (r: String)
        ensures
            r@ == source_of(self@),
    {
        let mut s = String::new();
        match self {
            Instruction::BlackBox(src, _) => {
                push_str(&mut s, src.as_str());
            },
            Instruction::NamedBlackBox(_, src, _) => {
                push_str(&mut s, src.as_str());
            },
            Instruction::MovImm(r, v) => {
                if *v == 0 {
                    push_str(&mut s, "xor ");
                    push_str(&mut s, r.name());
                    push_str(&mut s, ", ");
                    push_str(&mut s, r.name());
                } else {
                    push_str(&mut s, "mov ");
                    push_str(&mut s, r.name());
                    push_str(&mut s, ", ");
                    push_decimal(&mut s, *v);
                }
            },
            Instruction::MovImmVar(r, l) => {
                push_str(&mut s, "mov ");
                push_str(&mut s, r.name());
                push_str(&mut s, ", ");
                push_str(&mut s, l.as_str());
            },
            Instruction::Mov(a, b) => {
                push_str(&mut s, "mov ");
                push_str(&mut s, a.name());
                push_str(&mut s, ", ");
                push_str(&mut s, b.name());
            },
            Instruction::MovPtr8Imm(r, v) => {
                push_ptr_imm(&mut s, "mov byte [", *r, *v as u64);
            },
            Instruction::MovPtr16Imm(r, v) => {
                push_ptr_imm(&mut s, "mov word [", *r, *v as u64);
            },
            Instruction::MovPtr32Imm(r, v) => {
                push_ptr_imm(&mut s, "mov dword [", *r, *v as u64);
            },
            Instruction::MovPtr64Imm(r, v) => {
                push_ptr_imm(&mut s, "mov qword [", *r, *v);
            },
            Instruction::AddImm(r, v) => {
                if *v == 1 {
                    push_str(&mut s, "inc ");
                    push_str(&mut s, r.name());
                } else {
                    push_str(&mut s, "add ");
                    push_str(&mut s, r.name());
                    push_str(&mut s, ", ");
                    push_decimal(&mut s, *v);
                }
            },
            Instruction::SubImm(r, v) => {
                if *v == 1 {
                    push_str(&mut s, "dec ");
                    push_str(&mut s, r.name());
                } else {
                    push_str(&mut s, "sub ");
                    push_str(&mut s, r.name());
                    push_str(&mut s, ", ");
                    push_decimal(&mut s, *v);
                }
            },
            Instruction::AddPtr8Imm(r, v) => {
                if *v == 255 {
                    push_str(&mut s, "dec byte [");
                    push_str(&mut s, r.name());
                    push_str(&mut s, "]");
                } else if *v == 1 {
                    push_str(&mut s, "inc byte [");
                    push_str(&mut s, r.name());
                    push_str(&mut s, "]");
                } else {
                    push_ptr_imm(&mut s, "add byte [", *r, *v as u64);
                }
            },
            Instruction::AddPtr16Imm(r, v) => {
                push_ptr_imm(&mut s, "add word [", *r, *v as u64);
            },
            Instruction::AddPtr32Imm(r, v) => {
                push_ptr_imm(&mut s, "add dword [", *r, *v as u64);
            },
            Instruction::AddPtr64Imm(r, v) => {
                push_ptr_imm(&mut s, "add qword [", *r, *v);
            },
            Instruction::IsZero(r) => {
                push_str(&mut s, "test ");
                push_str(&mut s, r.name());
                push_str(&mut s, ", ");
                push_str(&mut s, r.name());
            },
            Instruction::IsZeroPtr8(r) => {
                push_str(&mut s, "cmp byte [");
                push_str(&mut s, r.name());
                push_str(&mut s, "], 0");
            },
            Instruction::JumpZero(l) => {
                push_str(&mut s, "jz ");
                push_str(&mut s, l.as_str());
            },
            Instruction::JumpNonZero(l) => {
                push_str(&mut s, "jnz ");
                push_str(&mut s, l.as_str());
            },
            Instruction::Jump(l) => {
                push_str(&mut s, "jmp ");
                push_str(&mut s, l.as_str());
            },
            Instruction::Label(l) => {
                push_str(&mut s, l.as_str());
                push_str(&mut s, ":");
            },
            Instruction::Data(n, d) => {
                push_str(&mut s, n.as_str());
                push_str(&mut s, ": db ");
                let t = format_data(d);
                push_str(&mut s, t.as_str());
            },
        }
        assert(s@ =~= source_of(self@));
        s
    }
    /// Whether this instruction may change the zero flag.
    pub fn affects_zero_flag(&self) -> (r: bool)
        ensures
            r == op_affects_zf(self@),
    {
        match self.effects() {
            Some(e) => e.flags,
            None => false,
        }
    }

    /// Whether this instruction may read the zero flag.
    pub fn reads_zf(&self) -> (r: bool)
        ensures
            r == op_reads_zf(self@),
    {
        match self {
            Instruction::BlackBox(_, _) => true,
            Instruction::NamedBlackBox(_, _, _) => true,
            Instruction::JumpZero(_) => true,
            Instruction::JumpNonZero(_) => true,
            _ => false,
        }
    }

    /// What this instruction may change; `None` for static data, which must not be executed.
    pub fn effects(&self) -> (r: Option<Effects>)
        ensures
            r == op_effects(self@),
    {
        match self {
            Instruction::BlackBox(_, e) => Some(*e),
            Instruction::NamedBlackBox(_, _, e) => Some(*e),
            Instruction::MovImm(_, _) => Some(Effects::reg()),
            Instruction::MovImmVar(_, _) => Some(Effects::reg()),
            Instruction::Mov(_, _) => Some(Effects::reg()),
            Instruction::MovPtr8Imm(_, _) => Some(Effects::reg()),
            Instruction::MovPtr16Imm(_, _) => Some(Effects::reg()),
            Instruction::MovPtr32Imm(_, _) => Some(Effects::reg()),
            Instruction::MovPtr64Imm(_, _) => Some(Effects::reg()),
            Instruction::AddImm(_, v) => Some(if *v == 0 { Effects::flag() } else { Effects::arithmetic() }),
            Instruction::SubImm(_, v) => Some(if *v == 0 { Effects::flag() } else { Effects::arithmetic() }),
            Instruction::AddPtr8Imm(_, v) => Some(if *v == 0 { Effects::flag() } else { Effects::arithmetic() }),
            Instruction::AddPtr16Imm(_, v) => Some(if *v == 0 { Effects::flag() } else { Effects::arithmetic() }),
            Instruction::AddPtr32Imm(_, v) => Some(if *v == 0 { Effects::flag() } else { Effects::arithmetic() }),
            Instruction::AddPtr64Imm(_, v) => Some(if *v == 0 { Effects::flag() } else { Effects::arithmetic() }),
            Instruction::IsZero(_) => Some(Effects::flag()),
            Instruction::IsZeroPtr8(_) => Some(Effects::flag()),
            Instruction::JumpZero(_) => Some(Effects::jump()),
            Instruction::JumpNonZero(_) => Some(Effects::jump()),
            Instruction::Jump(_) => Some(Effects::jump()),
            Instruction::Label(_) => Some(Effects::label()),
            Instruction::Data(_, _) => None,
        }
    }
}

} // verus!
