//! Target ABIs: calling conventions, symbols and the linker to use.
use vstd::prelude::*;

use crate::instruction::{ops_view, Effects, Instruction, Op, Register64};
use crate::text::{owned, push_str, strings_view};

pub mod linux;
pub mod macos;

verus! {

/// Instructions for linking.
#[derive(Debug)]
pub struct LinkerInfo {
    /// Entry point symbol name, e.g. `main`
    pub entrypoint: String,
    /// Libraries to link against, e.g. `libc`
    pub libraries: Vec<String>,
    /// External symbols, e.g. `write`
    pub externs: Vec<String>,
    /// Object file format, e.g. `elf64`
    pub object_format: String,
    /// Linker command, e.g. `clang`
    pub linker_cmd: String,
    /// Linker extra arguments, e.g. `-no-pie`
    pub linker_args: Vec<String>,
}

/// The mathematical value of a `LinkerInfo`.
pub struct LinkerInfoView {
    pub entrypoint: Seq<char>,
    pub libraries: Seq<Seq<char>>,
    pub externs: Seq<Seq<char>>,
    pub object_format: Seq<char>,
    pub linker_cmd: Seq<char>,
    pub linker_args: Seq<Seq<char>>,
}

impl View for LinkerInfo {
    type V = LinkerInfoView;

    open spec fn view(&self) -> LinkerInfoView {
        LinkerInfoView {
            entrypoint: self.entrypoint@,
            libraries: strings_view(self.libraries@),
            externs: strings_view(self.externs@),
            object_format: self.object_format@,
            linker_cmd: self.linker_cmd@,
            linker_args: strings_view(self.linker_args@),
        }
    }
}

/// One `extern` line per external symbol.
pub open spec fn extern_lines(externs: Seq<Seq<char>>) -> Seq<char>
    decreases externs.len(),
{
    if externs.len() == 0 {
        seq![]
    } else {
        extern_lines(externs.drop_last()) + "extern "@ + externs.last() + "\n"@
    }
}

/// The assembly header: the external symbols and the global entry point.
pub open spec fn header_text(l: LinkerInfoView) -> Seq<char> {
    extern_lines(l.externs) + "global "@ + l.entrypoint + "\n"@
}

impl LinkerInfo {
    /// The assembly header that declares the symbols.
    pub fn to_assembly(&self) -> (r: String)
        ensures
            r@ == header_text(self@),
    {
        let mut r = String::new();
        let mut i: usize = 0;
        while i < self.externs.len()
            invariant
                i <= self.externs.len(),
                r@ == extern_lines(strings_view(self.externs@).take(i as int)),
            decreases self.externs.len() - i,
        {
            assert(strings_view(self.externs@).take(i + 1).drop_last() =~= strings_view(
                self.externs@,
            ).take(i as int));
            push_str(&mut r, "extern ");
            push_str(&mut r, self.externs[i].as_str());
            push_str(&mut r, "\n");
            i += 1;
        }
        assert(strings_view(self.externs@).take(i as int) =~= strings_view(self.externs@));
        push_str(&mut r, "global ");
        push_str(&mut r, self.entrypoint.as_str());
        push_str(&mut r, "\n");
        r
    }
}

/// A vector of owned strings.
pub fn strings(v: &[&str]) -> (r: Vec<String>)
    ensures
        r@.len() == v@.len(),
        forall|i: int| 0 <= i < v@.len() ==> r@[i]@ == v@[i]@,
{
    let mut r: Vec<String> = Vec::new();
    let mut i: usize = 0;
    while i < v.len()
        invariant
            i <= v@.len(),
            r@.len() == i,
            forall|j: int| 0 <= j < i ==> r@[j]@ == v@[j]@,
        decreases v@.len() - i,
    {
        r.push(owned(v[i]));
        i += 1;
    }
    r
}

/// The effects of a call into the C library that returns.
pub open spec fn call_effects() -> Effects {
    Effects { flags: true, registers: true, control_flow: false, stack: false, io: true }
}

pub fn call() -> (e: Effects)
    ensures
        e == call_effects(),
{
    Effects { flags: true, registers: true, control_flow: false, stack: false, io: true }
}

/// `write(1, pointer, count)`, with the call named `write`.
pub open spec fn write_ops(call_text: Seq<char>, pointer: Register64, count: u64) -> Seq<Op> {
    seq![
        Op::MovImm(Register64::rdi, 1),
        Op::Mov(Register64::rsi, pointer),
        Op::MovImm(Register64::rdx, count),
        Op::NamedBlackBox("write"@, call_text, call_effects()),
    ]
}

/// `read(0, pointer, 1)`, storing a zero at end of input.
pub open spec fn read_ops(call: Op, pointer: Register64, label: Seq<char>) -> Seq<Op> {
    seq![
        Op::MovImm(Register64::rdi, 0),
        Op::Mov(Register64::rsi, pointer),
        Op::MovImm(Register64::rdx, 1),
        call,
        Op::IsZero(Register64::rax),
        Op::JumpNonZero(label),
        Op::MovPtr8Imm(Register64::rsi, 0),
        Op::Label(label),
    ]
}

/// Builds the instructions of `read_ops`.
pub fn read_instructions(call: Instruction, pointer: Register64, label: String) -> (r: Vec<
    Instruction,
>)
    ensures
        ops_view(r@) == read_ops(call@, pointer, label@),
{
    let r = vec![
        Instruction::MovImm(Register64::rdi, 0),
        Instruction::Mov(Register64::rsi, pointer),
        Instruction::MovImm(Register64::rdx, 1),
        call,
        Instruction::IsZero(Register64::rax),
        Instruction::JumpNonZero(label.clone()),
        Instruction::MovPtr8Imm(Register64::rsi, 0),
        Instruction::Label(label),
    ];
    assert(ops_view(r@) =~= read_ops(call@, pointer, label@));
    r
}

/// Builds the instructions of `write_ops`.
pub fn write_instructions(call_text: &str, pointer: Register64, count: u64) -> (r: Vec<Instruction>)
    ensures
        ops_view(r@) == write_ops(call_text@, pointer, count),
{
    let r = vec![
        Instruction::MovImm(Register64::rdi, 1),
        Instruction::Mov(Register64::rsi, pointer),
        Instruction::MovImm(Register64::rdx, count),
        Instruction::NamedBlackBox(owned("write"), owned(call_text), call()),
    ];
    assert(ops_view(r@) =~= write_ops(call_text@, pointer, count));
    r
}

/// The target ABIs.
#[derive(Debug, Clone, Copy, PartialEq, Eq, Structural)]
pub enum ABI {
    Linux,
    MacOS,
}

/// What the operations of an ABI emit.
pub trait Operations {
    /// The ABI these operations are for.
    spec fn abi(&self) -> ABI;

    /// How many local labels were handed out.
    spec fn labels_used(&self) -> nat;

    /// Linker info
    fn linker_info(&self) -> (r: LinkerInfo)
        ensures
            r@ == linker_info_of(self.abi()),
    ;

    /// Program startup code
    fn startup(&mut self) -> (r: Vec<Instruction>)
        ensures
            r@.len() == 0,
            final(self).abi() == old(self).abi(),
            final(self).labels_used() == old(self).labels_used(),
    ;

    /// Stops the program with a successful exit code
    fn exit(&mut self) -> (r: Vec<Instruction>)
        ensures
            ops_view(r@) == exit_ops(old(self).abi()),
            final(self).abi() == old(self).abi(),
            final(self).labels_used() == old(self).labels_used(),
    ;

    /// Reads a single byte from stdin into `[pointer]`, zero at end of input
    fn read_byte(&mut self, pointer: Register64) -> (r: Vec<Instruction>)
        requires
            old(self).labels_used() < usize::MAX,
        ensures
            ops_view(r@) == read_byte_ops(old(self).abi(), pointer, old(self).labels_used()),
            final(self).abi() == old(self).abi(),
            final(self).labels_used() == old(self).labels_used() + 1,
    ;

    /// Writes `count` bytes from `[pointer]` to stdout
    fn write_bytes(&mut self, pointer: Register64, count: u64) -> (r: Vec<Instruction>)
        ensures
            ops_view(r@) == write_ops(write_call(old(self).abi()), pointer, count),
            final(self).abi() == old(self).abi(),
            final(self).labels_used() == old(self).labels_used(),
    ;
}

/// The linker info of an ABI.
pub open spec fn linker_info_of(abi: ABI) -> LinkerInfoView {
    match abi {
        ABI::Linux => LinkerInfoView {
            entrypoint: "main"@,
            libraries: seq!["libc"@],
            externs: seq!["read"@, "write"@, "exit"@],
            object_format: "elf64"@,
            linker_cmd: "clang"@,
            linker_args: seq!["-no-pie"@],
        },
        ABI::MacOS => LinkerInfoView {
            entrypoint: "_main"@,
            libraries: seq!["libc"@],
            externs: seq!["_read"@, "_write"@, "_exit"@],
            object_format: "macho64"@,
            linker_cmd: "ld"@,
            linker_args: seq!["-lSystem"@, "-macosx_version_min"@, "10.10.0"@],
        },
    }
}

/// The text of the call to `write`.
pub open spec fn write_call(abi: ABI) -> Seq<char> {
    match abi {
        ABI::Linux => "call write"@,
        ABI::MacOS => "call _write"@,
    }
}

/// The name of the `n`th local label of an ABI's operations.
pub open spec fn local_label(abi: ABI, n: nat) -> Seq<char> {
    match abi {
        ABI::Linux => ".interface_linux"@ + crate::text::decimal_of(n),
        ABI::MacOS => ".interface_macos"@ + crate::text::decimal_of(n),
    }
}

/// The instructions that read a byte.
pub open spec fn read_byte_ops(abi: ABI, pointer: Register64, n: nat) -> Seq<Op> {
    match abi {
        ABI::Linux => read_ops(
            Op::BlackBox("call read"@, call_effects()),
            pointer,
            local_label(abi, n),
        ),
        ABI::MacOS => read_ops(
            Op::NamedBlackBox("read"@, "call _read"@, call_effects()),
            pointer,
            local_label(abi, n),
        ),
    }
}

/// The instructions that end the program with exit code zero.
pub open spec fn exit_ops(abi: ABI) -> Seq<Op> {
    match abi {
        ABI::Linux => seq![
            Op::BlackBox("add rsp, 30000"@, crate::instruction::eff_volatile()),
            Op::MovImm(Register64::rdi, 0),
            Op::NamedBlackBox("exit"@, "call exit"@, crate::instruction::eff_volatile()),
        ],
        ABI::MacOS => seq![
            Op::MovImm(Register64::rdi, 0),
            Op::BlackBox("call _exit"@, crate::instruction::eff_volatile()),
        ],
    }
}

/// The operations of one ABI.
#[derive(Debug)]
pub enum AbiOperations {
    Linux(linux::Interface),
    MacOS(macos::Interface),
}

impl Operations for AbiOperations {
    open spec fn abi(&self) -> ABI {
        match self {
            AbiOperations::Linux(_) => ABI::Linux,
            AbiOperations::MacOS(_) => ABI::MacOS,
        }
    }

    open spec fn labels_used(&self) -> nat {
        match self {
            AbiOperations::Linux(i) => i.labels_used(),
            AbiOperations::MacOS(i) => i.labels_used(),
        }
    }

    fn linker_info(&self) -> (r: LinkerInfo) {
        match self {
            AbiOperations::Linux(i) => i.linker_info(),
            AbiOperations::MacOS(i) => i.linker_info(),
        }
    }

    fn startup(&mut self) -> (r: Vec<Instruction>) {
        match self {
            AbiOperations::Linux(i) => i.startup(),
            AbiOperations::MacOS(i) => i.startup(),
        }
    }

    fn exit(&mut self) -> (r: Vec<Instruction>) {
        match self {
            AbiOperations::Linux(i) => i.exit(),
            AbiOperations::MacOS(i) => i.exit(),
        }
    }

    fn read_byte(&mut self, pointer: Register64) -> (r: Vec<Instruction>) {
        match self {
            AbiOperations::Linux(i) => i.read_byte(pointer),
            AbiOperations::MacOS(i) => i.read_byte(pointer),
        }
    }

    fn write_bytes(&mut self, pointer: Register64, count: u64) -> (r: Vec<Instruction>) {
        match self {
            AbiOperations::Linux(i) => i.write_bytes(pointer, count),
            AbiOperations::MacOS(i) => i.write_bytes(pointer, count),
        }
    }
}

impl ABI {
    /// The ABI of an operating system name (`"linux"`, `"macos"`), if it has one.
    pub fn pick_default(os: &str) -> (r: Option<Self>)
        ensures
            r == abi_named(os@),
    {
        ABI::from_name(os)
    }

    /// The ABI of a target name: `"linux"` or `"macos"`.
    pub fn from_name(name: &str) -> (r: Option<Self>)
        ensures
            r == abi_named(name@),
    {
        let n = owned(name);
        if n == owned("linux") {
            Some(ABI::Linux)
        } else if n == owned("macos") {
            Some(ABI::MacOS)
        } else {
            None
        }
    }

    /// The target names.
    pub fn variants() -> (r: Vec<&'static str>)
        ensures
            r@.len() == 2,
            abi_named(r@[0]@) == Some(ABI::Linux),
            abi_named(r@[1]@) == Some(ABI::MacOS),
    {
        let r = vec!["linux", "macos"];
        proof {
            reveal_strlit("linux");
            reveal_strlit("macos");
            assert("macos"@[0] != "linux"@[0]);
        }
        r
    }

    /// Fresh operations of this ABI.
    pub fn operations(self) -> (r: AbiOperations)
        ensures
            r.abi() == self,
            r.labels_used() == 0,
    {
        match self {
            ABI::Linux => AbiOperations::Linux(linux::Interface::new()),
            ABI::MacOS => AbiOperations::MacOS(macos::Interface::new()),
        }
    }
}

/// The ABI a name selects.
pub open spec fn abi_named(name: Seq<char>) -> Option<ABI> {
    if name == "linux"@ {
        Some(ABI::Linux)
    } else if name == "macos"@ {
        Some(ABI::MacOS)
    } else {
        None
    }
}

} // verus!
