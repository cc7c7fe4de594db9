//! The high-level IR (`Step`), its construction from tokens, its optimizer and
//! its lowering to instructions.
use vstd::prelude::*;

use crate::instruction::{lemma_ops_view_add, ops_view, source_of, Instruction, Op, Register64};
use crate::optimizer::{code_part, data_part, optimize, optimized, separate_data, sort_ops};
use crate::error::Error;
use crate::parser::{balanced, depth, Token};
use crate::target_abi::{
    exit_ops, header_text, linker_info_of, read_byte_ops, write_call, write_ops, LinkerInfo,
    Operations, ABI,
};
use crate::text::{decimal_of, push_decimal, push_str};

verus! {

/// Steps the startup evaluator runs at most before it hands over to the program.
pub const EVAL_FUEL: u64 = 10000000;

/// A position in the high-level IR; each one is defined once.
#[derive(Debug, Clone, Copy, PartialEq, Eq, Structural, Hash)]
pub struct Label(pub usize);

/// The assembly name of a label.
pub open spec fn label_text(l: Label) -> Seq<char> {
    ".label"@ + decimal_of(l.0 as nat)
}

impl Label {
    /// The assembly name of the label, `.labelN`.
    pub fn name(&self) -> (r: String)
        ensures
            r@ == label_text(*self),
    {
        let mut s = String::new();
        push_str(&mut s, ".label");
        push_decimal(&mut s, self.0 as u64);
        assert(s@ =~= label_text(*self));
        s
    }
}

/// One instruction of the high-level IR.
#[derive(Debug, Clone, Copy, PartialEq, Eq, Structural, Hash)]
pub enum Step {
    /// Move the pointer right
    Next(u64),
    /// Move the pointer left
    Prev(u64),
    /// Add to the current cell, wrapping (`Add(255)` subtracts one)
    Add(u8),
    /// Jump to the label
    JumpTo(Label),
    /// Jump to the label if the current cell is nonzero (`true`) or zero (`false`)
    JumpToIf(bool, Label),
    /// A position that jumps go to
    Label(Label),
    /// Write the current cell
    Output,
    /// Read into the current cell
    Input,
}

/// The steps a token lowers to, given the labels of its loop.
pub open spec fn token_steps(t: Token, start: Label, end: Label) -> Seq<Step> {
    match t {
        Token::Next => seq![Step::Next(1)],
        Token::Prev => seq![Step::Prev(1)],
        Token::Increment => seq![Step::Add(1)],
        Token::Decrement => seq![Step::Add(255)],
        Token::Output => seq![Step::Output],
        Token::Input => seq![Step::Input],
        Token::JumpForwards => seq![Step::JumpToIf(false, end), Step::Label(start)],
        Token::JumpBackwards => seq![Step::JumpToIf(true, start), Step::Label(end)],
    }
}

/// Two adjacent steps merged, or both unchanged when no rule applies.
pub open spec fn combine_steps(a: Step, b: Step) -> Seq<Step> {
    match (a, b) {
        (Step::Add(x), Step::Add(y)) => seq![Step::Add(((x + y) % 256) as u8)],
        (Step::Next(x), Step::Next(y)) => if x + y <= u64::MAX {
            seq![Step::Next((x + y) as u64)]
        } else {
            seq![a, b]
        },
        (Step::Prev(x), Step::Prev(y)) => if x + y <= u64::MAX {
            seq![Step::Prev((x + y) as u64)]
        } else {
            seq![a, b]
        },
        (Step::Next(x), Step::Prev(y)) => if x == y {
            seq![]
        } else if x > y {
            seq![Step::Next((x - y) as u64)]
        } else {
            seq![Step::Prev((y - x) as u64)]
        },
        (Step::Prev(x), Step::Next(y)) => if x == y {
            seq![]
        } else if x > y {
            seq![Step::Prev((x - y) as u64)]
        } else {
            seq![Step::Next((y - x) as u64)]
        },
        _ => seq![a, b],
    }
}

/// Whether two adjacent moves in one direction add up past `u64::MAX`.
pub open spec fn sum_overflows(a: Step, b: Step) -> bool {
    match (a, b) {
        (Step::Next(x), Step::Next(y)) => x + y > u64::MAX,
        (Step::Prev(x), Step::Prev(y)) => x + y > u64::MAX,
        _ => false,
    }
}

/// Whether the peephole pass meets a pair of moves whose sum overflows.
pub open spec fn peephole_overflows(w: Seq<Step>) -> bool
    decreases w.len(),
{
    if w.len() < 2 {
        false
    } else if sum_overflows(w[0], w[1]) {
        true
    } else {
        let c = combine_steps(w[0], w[1]);
        if c.len() == 2 {
            peephole_overflows(w.skip(1))
        } else {
            peephole_overflows(c + w.skip(2))
        }
    }
}

/// The peephole pass: left to right, a pair that merges is replaced by its
/// merge, which is then paired with the step after it; a pair that does not
/// merge moves the cursor by one.
pub open spec fn peephole(w: Seq<Step>) -> Seq<Step>
    decreases w.len(),
{
    if w.len() < 2 {
        w
    } else {
        let c = combine_steps(w[0], w[1]);
        if c.len() == 2 {
            seq![w[0]] + peephole(w.skip(1))
        } else {
            peephole(c + w.skip(2))
        }
    }
}

/// The value of a tape cell; cells never written are zero.
pub open spec fn cell(t: Seq<u8>, p: int) -> u8 {
    if 0 <= p < t.len() {
        t[p]
    } else {
        0
    }
}

/// The tape grown with zeros to hold cell `p`, and `v` added to that cell.
pub open spec fn tape_add(t: Seq<u8>, p: nat, v: u8) -> Seq<u8> {
    let g = if p < t.len() {
        t
    } else {
        t + Seq::new((p + 1 - t.len()) as nat, |i: int| 0u8)
    };
    g.update(p as int, ((g[p as int] + v) % 256) as u8)
}

/// The tape without its trailing zero cells.
pub open spec fn trim(t: Seq<u8>) -> Seq<u8>
    decreases t.len(),
{
    if t.len() > 0 && t.last() == 0 {
        trim(t.drop_last())
    } else {
        t
    }
}

/// A symbolic tape: the cells written so far, all later cells zero.
#[derive(Debug)]
pub struct Tape(pub Vec<u8>);

impl Tape {
    /// An empty tape.
    pub fn new() -> (r: Self)
        ensures
            r.0@ == Seq::<u8>::empty(),
    {
        Tape(Vec::new())
    }

    /// Adds `add` to cell `index`, growing the tape with zeros to reach it.
    pub fn add(&mut self, index: usize, add: u8)
        requires
            index < usize::MAX,
        ensures
            final(self).0@ == tape_add(old(self).0@, index as nat, add),
    {
        let ghost t = self.0@;
        while self.0.len() <= index
            invariant
                index < usize::MAX,
                t.len() <= self.0.len(),
                self.0.len() <= t.len() || self.0.len() <= index + 1,
                self.0@ == t + Seq::new((self.0.len() - t.len()) as nat, |i: int| 0u8),
            decreases index + 1 - self.0.len(),
        {
            self.0.push(0);
            assert(self.0@ =~= t + Seq::new((self.0.len() - t.len()) as nat, |i: int| 0u8));
        }
        let v = self.0[index].wrapping_add(add);
        self.0.set(index, v);
        proof {
            let g = if index < t.len() {
                t
            } else {
                t + Seq::new((index + 1 - t.len()) as nat, |i: int| 0u8)
            };
            assert(old(self).0@ == t);
            if index < t.len() {
                assert(t + Seq::new(0, |i: int| 0u8) =~= t);
            }
            assert(self.0@ =~= g.update(index as int, ((g[index as int] + add) % 256) as u8));
        }
    }

    /// Drops the trailing zero cells.
    pub fn trim(&mut self)
        ensures
            final(self).0@ == trim(old(self).0@),
    {
        while self.0.len() > 0 && self.0[self.0.len() - 1] == 0
            invariant
                trim(self.0@) == trim(old(self).0@),
            decreases self.0.len(),
        {
            self.0.pop();
        }
    }

    /// The value of cell `i`: zero beyond the written cells.
    pub fn get(&self, i: usize) -> (r: u8)
        ensures
            r == cell(self.0@, i as int),
    {
        if i < self.0.len() {
            self.0[i]
        } else {
            0
        }
    }
}

impl PartialEq for Tape {
    /// Whether the two tapes hold the same cells; trailing zeros do not count.
    fn eq(&self, other: &Tape) -> (r: bool) {
        let n = if self.0.len() > other.0.len() {
            self.0.len()
        } else {
            other.0.len()
        };
        let mut i: usize = 0;
        while i < n
            invariant
                i <= n,
                n == if self.0@.len() > other.0@.len() {
                    self.0@.len()
                } else {
                    other.0@.len()
                },
                forall|p: int| 0 <= p < i ==> #[trigger] cell(self.0@, p) == cell(other.0@, p),
            decreases n - i,
        {
            if self.get(i) != other.get(i) {
                return false;
            }
            i += 1;
        }
        assert forall|p: int| #[trigger] cell(self.0@, p) == cell(other.0@, p) by {
            if 0 <= p < n {
            }
        }
        true
    }
}

impl vstd::std_specs::cmp::PartialEqSpecImpl for Tape {
    open spec fn obeys_eq_spec() -> bool {
        true
    }

    open spec fn eq_spec(&self, other: &Tape) -> bool {
        forall|p: int| #[trigger] cell(self.0@, p) == cell(other.0@, p)
    }
}

/// The state of the step machine.
pub struct Machine {
    /// The next step to run
    pub index: int,
    /// The cells written so far
    pub tape: Seq<u8>,
    /// The cell under the pointer
    pub pointer: int,
    /// The bytes written so far
    pub output: Seq<u8>,
    /// The bytes still to read, or `None` where the input is not known and an
    /// input step stops the machine
    pub input: Option<Seq<u8>>,
}

/// The machine before the first step.
pub open spec fn start() -> Machine {
    Machine { index: 0, tape: seq![], pointer: 0, output: seq![], input: None }
}

/// The tape grown with zeros to hold cell `p`, and that cell set to `v`.
pub open spec fn tape_set(t: Seq<u8>, p: nat, v: u8) -> Seq<u8> {
    let g = if p < t.len() {
        t
    } else {
        t + Seq::new((p + 1 - t.len()) as nat, |i: int| 0u8)
    };
    g.update(p as int, v)
}

/// The index of the first `Label(l)` at or after `i`.
pub open spec fn label_from(s: Seq<Step>, l: Label, i: int) -> Option<int>
    decreases s.len() - i,
{
    if i < 0 || i >= s.len() {
        None
    } else if s[i] == Step::Label(l) {
        Some(i)
    } else {
        label_from(s, l, i + 1)
    }
}

/// The machine after a jump to `l`: just past the label.
pub open spec fn jumped(s: Seq<Step>, m: Machine, l: Label) -> Option<Machine> {
    match label_from(s, l, 0) {
        Some(j) => Some(Machine { index: j + 1, ..m }),
        None => None,
    }
}

/// One step of the machine, or `None` where it stops: at an input while the
/// input is not known, or at a fault (see `step_fault`). A known input gives
/// its next byte, or zero at its end.
pub open spec fn machine_step(s: Seq<Step>, m: Machine) -> Option<Machine> {
    let next = Machine { index: m.index + 1, ..m };
    match s[m.index] {
        Step::Next(n) => if m.pointer + n < usize::MAX {
            Some(Machine { pointer: m.pointer + n, ..next })
        } else {
            None
        },
        Step::Prev(n) => if m.pointer - n >= 0 {
            Some(Machine { pointer: m.pointer - n, ..next })
        } else {
            None
        },
        Step::Add(v) => Some(Machine { tape: tape_add(m.tape, m.pointer as nat, v), ..next }),
        Step::JumpTo(l) => jumped(s, m, l),
        Step::JumpToIf(c, l) => if c == (cell(m.tape, m.pointer) != 0) {
            jumped(s, m, l)
        } else {
            Some(next)
        },
        Step::Label(_) => Some(next),
        Step::Output => Some(Machine { output: m.output.push(cell(m.tape, m.pointer)), ..next }),
        Step::Input => match m.input {
            Some(inp) => if inp.len() > 0 {
                Some(
                    Machine {
                        tape: tape_set(m.tape, m.pointer as nat, inp[0]),
                        input: Some(inp.skip(1)),
                        ..next
                    },
                )
            } else {
                Some(Machine { tape: tape_set(m.tape, m.pointer as nat, 0), ..next })
            },
            None => None,
        },
    }
}

/// Whether the next step cannot run: a move below the first cell, a move to
/// the largest index or past it, or a jump to a missing label.
pub open spec fn step_fault(s: Seq<Step>, m: Machine) -> bool {
    match s[m.index] {
        Step::Next(n) => m.pointer + n >= usize::MAX,
        Step::Prev(n) => m.pointer - n < 0,
        Step::JumpTo(l) => label_from(s, l, 0) is None,
        Step::JumpToIf(c, l) => c == (cell(m.tape, m.pointer) != 0) && label_from(s, l, 0) is None,
        _ => false,
    }
}

/// Whether the run of at most `fuel` steps from `m` ends at a fault.
pub open spec fn run_faults(s: Seq<Step>, m: Machine, fuel: nat) -> bool
    decreases fuel,
{
    if fuel == 0 || m.index < 0 || m.index >= s.len() {
        false
    } else {
        match machine_step(s, m) {
            Some(m2) => run_faults(s, m2, (fuel - 1) as nat),
            None => step_fault(s, m),
        }
    }
}

/// The machine after at most `fuel` steps: it stops early at the end of the
/// program or where `machine_step` stops.
pub open spec fn run(s: Seq<Step>, m: Machine, fuel: nat) -> Machine
    decreases fuel,
{
    if fuel == 0 || m.index < 0 || m.index >= s.len() {
        m
    } else {
        match machine_step(s, m) {
            Some(m2) => run(s, m2, (fuel - 1) as nat),
            None => m,
        }
    }
}

/// The steps that write `out` from a zero cell, each byte followed by a loop
/// that counts the cell back to zero; their loops use labels from `first` on.
pub open spec fn emit_bytes(out: Seq<u8>, first: nat) -> Seq<Step>
    decreases out.len(),
{
    if out.len() == 0 {
        seq![]
    } else {
        let l = Label((first + out.len() - 1) as usize);
        emit_bytes(out.drop_last(), first) + seq![
            Step::Add(out.last()),
            Step::Output,
            Step::Label(l),
            Step::Add(1),
            Step::JumpToIf(true, l),
        ]
    }
}

/// The steps that write tape `t` from zero cells, leaving the pointer just past it.
pub open spec fn tape_steps(t: Seq<u8>) -> Seq<Step>
    decreases t.len(),
{
    if t.len() == 0 {
        seq![]
    } else {
        tape_steps(t.drop_last()) + seq![Step::Add(t.last()), Step::Next(1)]
    }
}

/// The move from cell `from` to cell `to`.
pub open spec fn pointer_fix(from: nat, to: nat) -> Seq<Step> {
    if from > to {
        seq![Step::Prev((from - to) as u64)]
    } else if from < to {
        seq![Step::Next((to - from) as u64)]
    } else {
        seq![]
    }
}

/// The program entered at step `index`: a jump to a label inserted there.
pub open spec fn resume_at(s: Seq<Step>, index: int, l: Label) -> Seq<Step> {
    if index == 0 {
        s
    } else {
        seq![Step::JumpTo(l)] + s.take(index) + seq![Step::Label(l)] + s.skip(index)
    }
}

/// The result of the startup evaluator on `s`, with labels from `first` on.
/// A program that ran to its end becomes the bytes it wrote. Otherwise the
/// program is rebuilt as the bytes written, the tape, the pointer and a jump
/// to the step where evaluation stopped.
pub open spec fn startup(s: Seq<Step>, first: nat) -> Seq<Step> {
    let m = run(s, start(), EVAL_FUEL as nat);
    if m.index == s.len() {
        emit_bytes(m.output, first)
    } else {
        let t = trim(m.tape);
        emit_bytes(m.output, first) + tape_steps(t) + pointer_fix(t.len(), m.pointer as nat)
            + resume_at(s, m.index, Label((first + m.output.len()) as usize))
    }
}

/// How many labels `startup` takes.
pub open spec fn startup_labels(s: Seq<Step>) -> nat {
    let m = run(s, start(), EVAL_FUEL as nat);
    if m.index == s.len() || m.index == 0 {
        m.output.len()
    } else {
        m.output.len() + 1
    }
}

// ---------------------------------------------------------------- merging steps

pub proof fn lemma_tape_add_twice(t: Seq<u8>, p: nat, x: u8, y: u8)
    ensures
        tape_add(tape_add(t, p, x), p, y) == tape_add(t, p, ((x + y) % 256) as u8),
{
    let once = tape_add(t, p, x);
    let g = if p < t.len() {
        t
    } else {
        t + Seq::new((p + 1 - t.len()) as nat, |i: int| 0u8)
    };
    assert(once.len() == g.len());
    assert(p < once.len());
    let v = g[p as int];
    assert(((((v + x) % 256) as u8) + y) % 256 == (v + (((x + y) % 256) as u8)) % 256) by (
    nonlinear_arith)
        requires
            0 <= v < 256,
            0 <= x < 256,
            0 <= y < 256,
    ;
    assert(tape_add(once, p, y) =~= tape_add(t, p, ((x + y) % 256) as u8));
}

// ---------------------------------------------------------------- replaying output

/// The steps of one byte of `emit_bytes`.
pub open spec fn byte_block(b: u8, l: Label) -> Seq<Step> {
    seq![Step::Add(b), Step::Output, Step::Label(l), Step::Add(1), Step::JumpToIf(true, l)]
}

/// Whether no step reads input.
pub open spec fn reads_nothing(s: Seq<Step>) -> bool {
    forall|k: int| 0 <= k < s.len() ==> s[k] != Step::Input
}

pub proof fn lemma_emit_bytes_shape(out: Seq<u8>, first: nat)
    requires
        first + out.len() <= LABEL_LIMIT,
    ensures
        emit_bytes(out, first).len() == 5 * out.len(),
        forall|k: int, j: int|
            0 <= k < out.len() && 0 <= j < 5 ==> #[trigger] emit_bytes(out, first)[5 * k + j]
                == byte_block(out[k], Label((first + k) as usize))[j],
    decreases out.len(),
{
    if out.len() > 0 {
        let d = out.drop_last();
        lemma_emit_bytes_shape(d, first);
        let p = emit_bytes(d, first);
        let n = out.len() - 1;
        assert forall|k: int, j: int| 0 <= k < out.len() && 0 <= j < 5 implies #[trigger] emit_bytes(
            out,
            first,
        )[5 * k + j] == byte_block(out[k], Label((first + k) as usize))[j] by {
            if k < n {
                assert(emit_bytes(out, first)[5 * k + j] == p[5 * k + j]);
                assert(d[k] == out[k]);
            } else {
                assert(emit_bytes(out, first)[5 * k + j] == byte_block(
                    out.last(),
                    Label((first + n) as usize),
                )[j]);
            }
        }
    }
}

pub proof fn lemma_label_from_first(s: Seq<Step>, l: Label, i: int, j: int)
    requires
        0 <= i <= j < s.len(),
        s[j] == Step::Label(l),
        forall|t: int| i <= t < j ==> s[t] != Step::Label(l),
    ensures
        label_from(s, l, i) == Some(j),
    decreases j - i,
{
    if i < j {
        lemma_label_from_first(s, l, i + 1, j);
    }
}

pub proof fn lemma_emit_bytes_labels(out: Seq<u8>, first: nat, k: int, tail: Seq<Step>)
    requires
        first + out.len() <= LABEL_LIMIT,
        0 <= k < out.len(),
    ensures
        label_from((emit_bytes(out, first) + tail), Label((first + k) as usize), 0) == Some(5 * k + 2),
{
    let p = (emit_bytes(out, first) + tail);
    let l = Label((first + k) as usize);
    lemma_emit_bytes_shape(out, first);
    assert(p[5 * k + 2] == byte_block(out[k], l)[2]);
    assert forall|t: int| 0 <= t < 5 * k + 2 implies p[t] != Step::Label(l) by {
        let kk = t / 5;
        let jj = t % 5;
        assert(t == 5 * kk + jj);
        assert(p[5 * kk + jj] == byte_block(out[kk], Label((first + kk) as usize))[jj]);
    }
    lemma_label_from_first(p, l, 0, 5 * k + 2);
}

/// Steps the program of `emit_bytes` runs from byte `k` on.
pub open spec fn replay_fuel(out: Seq<u8>, k: int) -> nat
    decreases out.len() - k,
{
    if k < 0 || k >= out.len() {
        0
    } else {
        (3 + 2 * (256 - out[k])) as nat + replay_fuel(out, k + 1)
    }
}

/// The machine of the `emit_bytes` program before byte `k`: the bytes before
/// it written, the current cell zero.
pub open spec fn before_byte(out: Seq<u8>, k: int, t: Seq<u8>) -> Machine {
    Machine { index: 5 * k, tape: t, pointer: 0, output: out.take(k), input: None }
}

pub proof fn lemma_count_up(out: Seq<u8>, first: nat, k: int, c: u8, extra: nat, tail: Seq<Step>)
    requires
        first + out.len() <= LABEL_LIMIT,
        0 <= k < out.len(),
    ensures
        run(
            (emit_bytes(out, first) + tail),
            Machine { index: 5 * k + 3, tape: seq![c], pointer: 0, output: out.take(k + 1), input: None },
            (2 * (256 - c) + extra) as nat,
        ) == run(
            (emit_bytes(out, first) + tail),
            Machine { index: 5 * k + 5, tape: seq![0u8], pointer: 0, output: out.take(k + 1), input: None },
            extra,
        ),
    decreases 256 - c,
{
    let p = (emit_bytes(out, first) + tail);
    let l = Label((first + k) as usize);
    lemma_emit_bytes_shape(out, first);
    lemma_emit_bytes_labels(out, first, k, tail);
    assert(p[5 * k + 3] == byte_block(out[k], l)[3]);
    assert(p[5 * k + 4] == byte_block(out[k], l)[4]);
    let m = Machine { index: 5 * k + 3, tape: seq![c], pointer: 0, output: out.take(k + 1), input: None };
    let c1 = ((c + 1) % 256) as u8;
    let m1 = Machine { index: 5 * k + 4, tape: seq![c1], pointer: 0, output: out.take(k + 1), input: None };
    assert(tape_add(seq![c], 0, 1) =~= seq![c1]);
    assert(machine_step(p, m) == Some(m1));
    let f = (2 * (256 - c) + extra) as nat;
    assert(run(p, m, f) == run(p, m1, (f - 1) as nat));
    if c == 255 {
        let m2 = Machine { index: 5 * k + 5, tape: seq![0u8], pointer: 0, output: out.take(k + 1), input: None };
        assert(machine_step(p, m1) == Some(m2));
        assert(run(p, m1, (f - 1) as nat) == run(p, m2, extra));
    } else {
        let m2 = Machine { index: 5 * k + 3, tape: seq![c1], pointer: 0, output: out.take(k + 1), input: None };
        assert(machine_step(p, m1) == Some(m2));
        assert(run(p, m1, (f - 1) as nat) == run(p, m2, (f - 2) as nat));
        lemma_count_up(out, first, k, c1, extra, tail);
    }
}

pub proof fn lemma_replay_from(out: Seq<u8>, first: nat, k: int, t: Seq<u8>, tail: Seq<Step>)
    requires
        first + out.len() <= LABEL_LIMIT,
        0 <= k <= out.len(),
        t.len() <= 1,
        cell(t, 0) == 0,
    ensures
        run((emit_bytes(out, first) + tail), before_byte(out, k, t), replay_fuel(out, k))
            == before_byte(
            out,
            out.len() as int,
            if k == out.len() {
                t
            } else {
                seq![0u8]
            },
        ),
    decreases out.len() - k,
{
    let p = (emit_bytes(out, first) + tail);
    lemma_emit_bytes_shape(out, first);
    if k == out.len() {
    } else {
        let b = out[k];
        let l = Label((first + k) as usize);
        assert(p[5 * k + 0] == byte_block(b, l)[0]);
        assert(p[5 * k + 1] == byte_block(b, l)[1]);
        assert(p[5 * k + 2] == byte_block(b, l)[2]);
        let f = replay_fuel(out, k);
        let more = replay_fuel(out, k + 1);
        let m0 = before_byte(out, k, t);
        let m1 = Machine { index: 5 * k + 1, tape: seq![b], pointer: 0, output: out.take(k), input: None };
        assert(tape_add(t, 0, b) =~= seq![b]);
        assert(machine_step(p, m0) == Some(m1));
        let m2 = Machine { index: 5 * k + 2, tape: seq![b], pointer: 0, output: out.take(k + 1), input: None };
        assert(out.take(k).push(b) =~= out.take(k + 1));
        assert(machine_step(p, m1) == Some(m2));
        let m3 = Machine { index: 5 * k + 3, tape: seq![b], pointer: 0, output: out.take(k + 1), input: None };
        assert(machine_step(p, m2) == Some(m3));
        assert(run(p, m0, f) == run(p, m1, (f - 1) as nat));
        assert(run(p, m1, (f - 1) as nat) == run(p, m2, (f - 2) as nat));
        assert(run(p, m2, (f - 2) as nat) == run(p, m3, (f - 3) as nat));
        lemma_count_up(out, first, k, b, more, tail);
        lemma_replay_from(out, first, k + 1, seq![0u8], tail);
        assert(before_byte(out, k + 1, seq![0u8]) == Machine {
            index: 5 * k + 5,
            tape: seq![0u8],
            pointer: 0,
            output: out.take(k + 1),
            input: None,
        });
    }
}

/// The steps that write the bytes of a finished program read nothing, and
/// run from a fresh machine they end having written exactly those bytes.
pub proof fn emitted_bytes_replay(out: Seq<u8>, first: nat)
    requires
        first + out.len() <= LABEL_LIMIT,
    ensures
        reads_nothing(emit_bytes(out, first)),
        run(emit_bytes(out, first), start(), replay_fuel(out, 0)).index == emit_bytes(
            out,
            first,
        ).len(),
        run(emit_bytes(out, first), start(), replay_fuel(out, 0)).output == out,
{
    lemma_emit_bytes_shape(out, first);
    let p = emit_bytes(out, first);
    assert forall|i: int| 0 <= i < p.len() implies p[i] != Step::Input by {
        let kk = i / 5;
        let jj = i % 5;
        assert(i == 5 * kk + jj);
        assert(p[5 * kk + jj] == byte_block(out[kk], Label((first + kk) as usize))[jj]);
    }
    assert(out.take(0) =~= seq![]);
    assert(before_byte(out, 0, seq![]) == start());
    lemma_replay_from(out, first, 0, seq![], seq![]);
    assert(p + seq![] =~= p);
    assert(out.take(out.len() as int) =~= out);
}

pub proof fn lemma_tape_steps_read_nothing(t: Seq<u8>)
    ensures
        reads_nothing(tape_steps(t)),
    decreases t.len(),
{
    if t.len() > 0 {
        lemma_tape_steps_read_nothing(t.drop_last());
        let p = tape_steps(t.drop_last());
        let q = seq![Step::Add(t.last()), Step::Next(1)];
        assert forall|k: int| 0 <= k < tape_steps(t).len() implies tape_steps(t)[k]
            != Step::Input by {
            if k < p.len() {
                assert(tape_steps(t)[k] == p[k]);
            } else {
                assert(tape_steps(t)[k] == q[k - p.len()]);
            }
        }
    }
}

/// The startup evaluator keeps the output of a program that reads nothing:
/// its result reads nothing either, and where the program ran to its end
/// within the evaluator's steps, the result run from a fresh machine ends
/// having written exactly the bytes the program wrote.
pub proof fn startup_keeps_output(s: Seq<Step>, first: nat)
    requires
        reads_nothing(s),
        first + EVAL_FUEL < LABEL_LIMIT,
    ensures
        reads_nothing(startup(s, first)),
        run(s, start(), EVAL_FUEL as nat).index == s.len() ==> {
            let out = run(s, start(), EVAL_FUEL as nat).output;
            let r = startup(s, first);
            &&& run(r, start(), replay_fuel(out, 0)).index == r.len()
            &&& run(r, start(), replay_fuel(out, 0)).output == out
        },
{
    let m = run(s, start(), EVAL_FUEL as nat);
    lemma_run_output_bound(s, start(), EVAL_FUEL as nat);
    lemma_run_index(s, start(), EVAL_FUEL as nat);
    emitted_bytes_replay(m.output, first);
    if m.index != s.len() {
        let t = trim(m.tape);
        let l = Label((first + m.output.len()) as usize);
        let a = emit_bytes(m.output, first);
        let b = tape_steps(t);
        let c = pointer_fix(t.len(), m.pointer as nat);
        let d = resume_at(s, m.index, l);
        lemma_tape_steps_read_nothing(t);
        assert(reads_nothing(d)) by {
            if m.index != 0 {
                let e = seq![Step::JumpTo(l)] + s.take(m.index) + seq![Step::Label(l)] + s.skip(m.index);
                assert forall|k: int| 0 <= k < e.len() implies e[k] != Step::Input by {
                    if k == 0 {
                    } else if k < 1 + m.index {
                        assert(e[k] == s[k - 1]);
                    } else if k == 1 + m.index {
                    } else {
                        assert(e[k] == s[k - 2]);
                    }
                }
            }
        }
        let r = a + b + c + d;
        assert forall|k: int| 0 <= k < r.len() implies r[k] != Step::Input by {
            if k < a.len() {
                assert(r[k] == a[k]);
            } else if k < a.len() + b.len() {
                assert(r[k] == b[k - a.len()]);
            } else if k < a.len() + b.len() + c.len() {
                assert(r[k] == c[k - a.len() - b.len()]);
            } else {
                assert(r[k] == d[k - a.len() - b.len() - c.len()]);
            }
        }
    }
}

pub proof fn lemma_run_index(s: Seq<Step>, m: Machine, fuel: nat)
    requires
        0 <= m.index <= s.len(),
    ensures
        0 <= run(s, m, fuel).index <= s.len(),
    decreases fuel,
{
    if !(fuel == 0 || m.index < 0 || m.index >= s.len()) {
        match machine_step(s, m) {
            Some(m2) => {
                match s[m.index] {
                    Step::JumpTo(l) => lemma_label_from_bounds(s, l, 0),
                    Step::JumpToIf(_, l) => lemma_label_from_bounds(s, l, 0),
                    _ => {},
                }
                lemma_run_index(s, m2, (fuel - 1) as nat);
            },
            None => {},
        }
    }
}

pub proof fn lemma_run_output_bound(s: Seq<Step>, m: Machine, fuel: nat)
    ensures
        run(s, m, fuel).output.len() <= m.output.len() + fuel,
    decreases fuel,
{
    if !(fuel == 0 || m.index < 0 || m.index >= s.len()) {
        match machine_step(s, m) {
            Some(m2) => {
                assert(m2.output.len() <= m.output.len() + 1) by {
                    match s[m.index] {
                        Step::JumpTo(l) => {},
                        Step::JumpToIf(_, l) => {},
                        _ => {},
                    }
                }
                lemma_run_output_bound(s, m2, (fuel - 1) as nat);
            },
            None => {},
        }
    }
}

/// Whether optimizing steps `s` meets an internal error: pointer moves whose
/// sum overflows, or a fault while the program is evaluated.
pub open spec fn optimize_fails(s: Seq<Step>) -> bool {
    peephole_overflows(s) || run_faults(peephole(s), start(), EVAL_FUEL as nat)
}

/// The builder of the high-level IR.
#[derive(Debug)]
pub struct State {
    scope: Vec<(Label, Label)>,
    next_label: Label,
    steps: Vec<Step>,
}

/// Labels above this bound are never handed out.
pub const LABEL_LIMIT: usize = 0x4000_0000;

impl State {
    /// The steps built so far.
    pub closed spec fn steps(&self) -> Seq<Step> {
        self.steps@
    }

    /// The next label to hand out.
    pub closed spec fn next_label(&self) -> nat {
        self.next_label.0 as nat
    }

    /// The open loops, innermost last, as (start, end) labels.
    pub closed spec fn scope(&self) -> Seq<(Label, Label)> {
        self.scope@
    }

    /// An empty program.
    pub fn new() -> (r: Self)
        ensures
            r.steps() == Seq::<Step>::empty(),
            r.next_label() == 0,
            r.scope() == Seq::<(Label, Label)>::empty(),
    {
        State { scope: Vec::new(), next_label: Label(0), steps: Vec::new() }
    }

    /// The steps built so far.
    pub fn get_steps(&self) -> (r: &Vec<Step>)
        ensures
            r@ == self.steps(),
    {
        &self.steps
    }

    fn get_label(&mut self) -> (r: Label)
        requires
            old(self).next_label.0 < usize::MAX,
        ensures
            r == old(self).next_label,
            final(self).next_label.0 == old(self).next_label.0 + 1,
            final(self).steps == old(self).steps,
            final(self).scope == old(self).scope,
    {
        let result = self.next_label;
        self.next_label = Label(self.next_label.0 + 1);
        result
    }

    /// Lowers one token: a `[` opens a loop with two new labels, a `]` closes
    /// the innermost open loop.
    pub fn append(&mut self, token: Token)
        requires
            old(self).next_label() + 2 <= LABEL_LIMIT,
            token == Token::JumpBackwards ==> old(self).scope().len() > 0,
        ensures
            token == Token::JumpForwards ==> {
                let start = Label(old(self).next_label() as usize);
                let end = Label((old(self).next_label() + 1) as usize);
                &&& final(self).steps() == old(self).steps() + token_steps(token, start, end)
                &&& final(self).scope() == old(self).scope().push((start, end))
                &&& final(self).next_label() == old(self).next_label() + 2
            },
            token == Token::JumpBackwards ==> {
                let (start, end) = old(self).scope().last();
                &&& final(self).steps() == old(self).steps() + token_steps(token, start, end)
                &&& final(self).scope() == old(self).scope().drop_last()
                &&& final(self).next_label() == old(self).next_label()
            },
            token != Token::JumpForwards && token != Token::JumpBackwards ==> {
                &&& final(self).steps() == old(self).steps() + token_steps(
                    token,
                    Label(0),
                    Label(0),
                )
                &&& final(self).scope() == old(self).scope()
                &&& final(self).next_label() == old(self).next_label()
            },
    {
        let ghost s0 = self.steps@;
        match token {
            Token::Next => self.steps.push(Step::Next(1)),
            Token::Prev => self.steps.push(Step::Prev(1)),
            Token::Increment => self.steps.push(Step::Add(1)),
            Token::Decrement => self.steps.push(Step::Add(255)),
            Token::Output => self.steps.push(Step::Output),
            Token::Input => self.steps.push(Step::Input),
            Token::JumpForwards => {
                let source_label = self.get_label();
                let target_label = self.get_label();
                self.scope.push((source_label, target_label));
                self.steps.push(Step::JumpToIf(false, target_label));
                self.steps.push(Step::Label(source_label));
            },
            Token::JumpBackwards => {
                let (source_label, target_label) = self.scope.pop().unwrap();
                self.steps.push(Step::JumpToIf(true, source_label));
                self.steps.push(Step::Label(target_label));
            },
        }
        proof {
            let (start, end) = if token == Token::JumpForwards {
                (Label(old(self).next_label() as usize), Label((old(self).next_label() + 1) as usize))
            } else if token == Token::JumpBackwards {
                old(self).scope().last()
            } else {
                (Label(0), Label(0))
            };
            assert(self.steps@ =~= s0 + token_steps(token, start, end));
            assert(token == Token::JumpBackwards ==> self.scope@ =~= old(self).scope@.drop_last());
        }
    }

    /// Merges two adjacent steps where one step does the same.
    pub fn combine(a: Step, b: Step) -> (r: Result<Vec<Step>, Error>)
        ensures
            r is Err <==> sum_overflows(a, b),
            r matches Err(e) ==> e is InternalCompilerError,
            r matches Ok(v) ==> v@ == combine_steps(a, b),
    {
        let r = match (a, b) {
            (Step::Add(x), Step::Add(y)) => vec![Step::Add(x.wrapping_add(y))],
            (Step::Next(x), Step::Next(y)) => match x.checked_add(y) {
                Some(z) => vec![Step::Next(z)],
                None => {
                    return Err(Error::InternalCompilerError);
                },
            },
            (Step::Prev(x), Step::Prev(y)) => match x.checked_add(y) {
                Some(z) => vec![Step::Prev(z)],
                None => {
                    return Err(Error::InternalCompilerError);
                },
            },
            (Step::Next(x), Step::Prev(y)) => if x == y {
                Vec::new()
            } else if x > y {
                let d = x - y;
                vec![Step::Next(d)]
            } else {
                let d = y - x;
                vec![Step::Prev(d)]
            },
            (Step::Prev(x), Step::Next(y)) => if x == y {
                Vec::new()
            } else if x > y {
                let d = x - y;
                vec![Step::Prev(d)]
            } else {
                let d = y - x;
                vec![Step::Next(d)]
            },
            _ => vec![a, b],
        };
        assert(r@ =~= combine_steps(a, b));
        Ok(r)
    }

    /// Runs the peephole pass over the steps.
    pub fn optimize_peephole_combine(&mut self) -> (r: Result<(), Error>)
        ensures
            r is Err <==> peephole_overflows(old(self).steps()),
            r matches Err(e) ==> e is InternalCompilerError,
            r is Ok ==> final(self).steps() == peephole(old(self).steps()),
            r is Err ==> final(self).steps() == old(self).steps(),
            final(self).next_label() == old(self).next_label(),
            final(self).scope() == old(self).scope(),
    {
        let ghost s = self.steps@;
        let mut out: Vec<Step> = Vec::new();
        let mut head: Option<Step> = None;
        let mut k: usize = 0;
        let ghost mut w: Seq<Step> = s;
        assert(s.skip(0) =~= s);
        loop
            invariant_except_break
                w == (match head {
                    Some(h) => seq![h],
                    None => seq![],
                }) + s.skip(k as int),
                peephole(s) == out@ + peephole(w),
                peephole_overflows(s) == peephole_overflows(w),
            invariant
                k <= s.len(),
                s == self.steps@,
            ensures
                peephole(s) == out@,
                !peephole_overflows(s),
            decreases w.len(),
        {
            let rest = self.steps.len() - k;
            let short = if head.is_some() {
                rest < 1
            } else {
                rest < 2
            };
            if short {
                assert(out@ + w =~= out@ + peephole(w));
                let ghost before = out@;
                if let Some(h) = head {
                    out.push(h);
                }
                while k < self.steps.len()
                    invariant
                        k <= s.len(),
                        s == self.steps@,
                        out@ + s.skip(k as int) == before + w,
                    decreases s.len() - k,
                {
                    assert(s.skip(k as int) =~= seq![s[k as int]] + s.skip(k + 1));
                    out.push(self.steps[k]);
                    k += 1;
                }
                assert(out@ =~= before + w);
                break ;
            }
            let a;
            let b;
            let k2: usize;
            match head {
                Some(h) => {
                    a = h;
                    b = self.steps[k];
                    k2 = k + 1;
                },
                None => {
                    a = self.steps[k];
                    b = self.steps[k + 1];
                    k2 = k + 2;
                },
            }
            assert(w[0] == a && w[1] == b);
            assert(w.skip(2) =~= s.skip(k2 as int));
            let c = match Self::combine(a, b) {
                Ok(c) => c,
                Err(e) => {
                    return Err(e);
                },
            };
            if c.len() == 2 {
                assert(w.skip(1) =~= seq![b] + s.skip(k2 as int));
                out.push(a);
                head = Some(b);
                proof {
                    w = w.skip(1);
                }
            } else if c.len() == 1 {
                head = Some(c[0]);
                proof {
                    w = c@ + w.skip(2);
                    assert(w =~= seq![c[0]] + s.skip(k2 as int));
                }
            } else {
                head = None;
                proof {
                    w = c@ + w.skip(2);
                    assert(w =~= s.skip(k2 as int));
                }
            }
            k = k2;
        }
        self.steps = out;
        Ok(())
    }
}


/// A machine whose pointer and tape fit the evaluator's integers.
pub open spec fn machine_wf(m: Machine) -> bool {
    &&& 0 <= m.index
    &&& 0 <= m.pointer < usize::MAX
    &&& m.tape.len() <= usize::MAX
}

pub proof fn lemma_label_from_bounds(s: Seq<Step>, l: Label, i: int)
    ensures
        label_from(s, l, i) matches Some(j) ==> 0 <= i <= j < s.len() && s[j] == Step::Label(l),
    decreases s.len() - i,
{
    if 0 <= i < s.len() && s[i] != Step::Label(l) {
        lemma_label_from_bounds(s, l, i + 1);
    }
}

pub proof fn lemma_step_wf(s: Seq<Step>, m: Machine)
    requires
        machine_wf(m),
        m.index < s.len(),
    ensures
        machine_step(s, m) matches Some(m2) ==> machine_wf(m2) && m2.output.len() <= m.output.len()
            + 1 && m2.index <= s.len(),
{
    match s[m.index] {
        Step::JumpTo(l) => lemma_label_from_bounds(s, l, 0),
        Step::JumpToIf(_, l) => lemma_label_from_bounds(s, l, 0),
        _ => {},
    }
}

/// The state of the startup evaluator.
#[derive(Debug)]
pub struct StepInterpreterState {
    /// Step index
    pub index: usize,
    /// Tape
    pub tape: Tape,
    /// Tape pointer (index)
    pub pointer: usize,
    /// Output buffer
    pub output: Vec<u8>,
}

impl StepInterpreterState {
    /// The machine this state stands for.
    pub open spec fn machine(&self) -> Machine {
        Machine {
            index: self.index as int,
            tape: self.tape.0@,
            pointer: self.pointer as int,
            output: self.output@,
            input: None,
        }
    }
}

/// Runs steps symbolically from a known state.
pub struct StepInterpreter<'a> {
    /// Instructions
    pub steps: &'a [Step],
    /// Current state
    pub state: StepInterpreterState,
}

impl<'a> StepInterpreter<'a> {
    /// Whether all steps have run.
    pub fn done(&self) -> (r: bool)
        ensures
            r == (self.state.index == self.steps@.len()),
    {
        self.state.index == self.steps.len()
    }

    /// Moves to the first `Label(label)`; `false`, with nothing changed, where
    /// there is none.
    pub fn jump_to(&mut self, label: Label) -> (found: bool)
        ensures
            final(self).steps == old(self).steps,
            match label_from(old(self).steps@, label, 0) {
                Some(j) => found && final(self).state.machine() == (Machine {
                    index: j,
                    ..old(self).state.machine()
                }),
                None => !found && final(self).state.machine() == old(self).state.machine(),
            },
            final(self).state.tape == old(self).state.tape,
    {
        let ghost s = self.steps@;
        let mut i: usize = 0;
        while i < self.steps.len()
            invariant
                s == self.steps@,
                self.steps == old(self).steps,
                self.state == old(self).state,
                i <= s.len(),
                label_from(s, label, i as int) == label_from(s, label, 0),
            decreases s.len() - i,
        {
            if self.steps[i] == Step::Label(label) {
                self.state.index = i;
                return true;
            }
            i += 1;
        }
        false
    }

    /// Runs one step. `Ok(false)`, with nothing changed, at an input, whose
    /// value is not known; an error, with nothing changed, at a fault (see
    /// `step_fault`).
    pub fn step(&mut self) -> (r: Result<bool, Error>)
        requires
            old(self).state.index < old(self).steps@.len(),
            machine_wf(old(self).state.machine()),
        ensures
            final(self).steps == old(self).steps,
            machine_wf(final(self).state.machine()),
            match machine_step(old(self).steps@, old(self).state.machine()) {
                Some(m) => r == Ok::<bool, Error>(true) && final(self).state.machine() == m,
                None => final(self).state.machine() == old(self).state.machine() && if step_fault(
                    old(self).steps@,
                    old(self).state.machine(),
                ) {
                    r matches Err(e) && e is InternalCompilerError
                } else {
                    r == Ok::<bool, Error>(false)
                },
            },
    {
        proof {
            lemma_step_wf(self.steps@, self.state.machine());
            lemma_label_from_bounds(self.steps@, Label(0), 0);
        }
        let p = self.state.pointer;
        match self.steps[self.state.index] {
            Step::Next(n) => {
                let room: usize = usize::MAX - 1 - p;
                if (n as u128) <= (room as u128) {
                    self.state.pointer = p + n as usize;
                } else {
                    return Err(Error::InternalCompilerError);
                }
            },
            Step::Prev(n) => {
                if (n as u128) <= (p as u128) {
                    self.state.pointer = p - n as usize;
                } else {
                    return Err(Error::InternalCompilerError);
                }
            },
            Step::Add(n) => self.state.tape.add(p, n),
            Step::JumpTo(label) => {
                proof {
                    lemma_label_from_bounds(self.steps@, label, 0);
                }
                if !self.jump_to(label) {
                    return Err(Error::InternalCompilerError);
                }
            },
            Step::JumpToIf(cond, label) => {
                if cond == (self.state.tape.get(p) != 0) {
                    proof {
                        lemma_label_from_bounds(self.steps@, label, 0);
                    }
                    if !self.jump_to(label) {
                        return Err(Error::InternalCompilerError);
                    }
                }
            },
            Step::Label(_) => {},
            Step::Output => {
                let v = self.state.tape.get(p);
                self.state.output.push(v);
            },
            Step::Input => {
                return Ok(false);
            },
        }
        self.state.index = self.state.index + 1;
        Ok(true)
    }
}

/// Appends `src[from..to]` to `dst`.
fn push_range(dst: &mut Vec<Step>, src: &Vec<Step>, from: usize, to: usize)
    requires
        from <= to <= src.len(),
    ensures
        final(dst)@ == old(dst)@ + src@.subrange(from as int, to as int),
{
    let mut i = from;
    while i < to
        invariant
            from <= i <= to <= src.len(),
            dst@ == old(dst)@ + src@.subrange(from as int, i as int),
        decreases to - i,
    {
        dst.push(src[i]);
        i += 1;
        assert(dst@ =~= old(dst)@ + src@.subrange(from as int, i as int));
    }
}

pub proof fn lemma_emit_bytes_next(out: Seq<u8>, first: nat, i: int)
    requires
        0 <= i < out.len(),
    ensures
        emit_bytes(out.take(i + 1), first) == emit_bytes(out.take(i), first) + seq![
            Step::Add(out[i]),
            Step::Output,
            Step::Label(Label((first + i) as usize)),
            Step::Add(1),
            Step::JumpToIf(true, Label((first + i) as usize)),
        ],
{
    assert(out.take(i + 1).drop_last() =~= out.take(i));
}

pub proof fn lemma_tape_steps_next(t: Seq<u8>, i: int)
    requires
        0 <= i < t.len(),
    ensures
        tape_steps(t.take(i + 1)) == tape_steps(t.take(i)) + seq![Step::Add(t[i]), Step::Next(1)],
{
    assert(t.take(i + 1).drop_last() =~= t.take(i));
}

impl State {
    /// Appends the steps that write `out` (see `emit_bytes`), with labels from
    /// the next free one on.
    fn push_output(&mut self, new_steps: &mut Vec<Step>, out: &Vec<u8>)
        requires
            old(self).next_label() + out.len() < LABEL_LIMIT,
        ensures
            final(new_steps)@ == old(new_steps)@ + emit_bytes(out@, old(self).next_label()),
            final(self).next_label() == old(self).next_label() + out.len(),
            final(self).steps == old(self).steps,
            final(self).scope == old(self).scope,
    {
        let ghost first = self.next_label();
        let mut i: usize = 0;
        assert(out@.take(0) =~= seq![]);
        assert(new_steps@ =~= old(new_steps)@ + emit_bytes(out@.take(0), first));
        while i < out.len()
            invariant
                i <= out.len(),
                first == old(self).next_label(),
                self.next_label() == first + i,
                first + out.len() < LABEL_LIMIT,
                new_steps@ == old(new_steps)@ + emit_bytes(out@.take(i as int), first),
                self.steps == old(self).steps,
                self.scope == old(self).scope,
            decreases out.len() - i,
        {
            proof {
                lemma_emit_bytes_next(out@, first, i as int);
            }
            let label_zero = self.get_label();
            new_steps.push(Step::Add(out[i]));
            new_steps.push(Step::Output);
            new_steps.push(Step::Label(label_zero));
            new_steps.push(Step::Add(1));
            new_steps.push(Step::JumpToIf(true, label_zero));
            i += 1;
            assert(new_steps@ =~= old(new_steps)@ + emit_bytes(out@.take(i as int), first));
        }
        assert(out@.take(i as int) =~= out@);
    }

    /// Runs the program until it first needs input and replaces what ran by
    /// its result (see `startup`).
    pub fn optimize_startup(&mut self) -> (r: Result<(), Error>)
        requires
            old(self).next_label() + EVAL_FUEL < LABEL_LIMIT,
        ensures
            r is Err <==> run_faults(old(self).steps(), start(), EVAL_FUEL as nat),
            r matches Err(e) ==> e is InternalCompilerError,
            r is Ok ==> final(self).steps() == startup(old(self).steps(), old(self).next_label()),
            r is Ok ==> final(self).next_label() == old(self).next_label() + startup_labels(
                old(self).steps(),
            ),
            r is Err ==> final(self).steps() == old(self).steps() && final(self).next_label()
                == old(self).next_label(),
            final(self).scope() == old(self).scope(),
    {
        let ghost s = self.steps@;
        let ghost first = self.next_label();
        let ghost m_end = run(s, start(), EVAL_FUEL as nat);
        let mut intp = StepInterpreter {
            steps: self.steps.as_slice(),
            state: StepInterpreterState {
                index: 0,
                tape: Tape::new(),
                pointer: 0,
                output: Vec::new(),
            },
        };
        let mut fuel: u64 = EVAL_FUEL;
        assert(intp.state.machine() == start());
        loop
            invariant
                intp.steps@ == s,
                s == self.steps@,
                machine_wf(intp.state.machine()),
                intp.state.index <= s.len(),
                fuel <= EVAL_FUEL,
                intp.state.output.len() + fuel <= EVAL_FUEL,
                run(s, intp.state.machine(), fuel as nat) == m_end,
                run_faults(s, intp.state.machine(), fuel as nat) == run_faults(
                    s,
                    start(),
                    EVAL_FUEL as nat,
                ),
            ensures
                intp.state.machine() == m_end,
                intp.state.index <= s.len(),
                !run_faults(s, start(), EVAL_FUEL as nat),
            decreases fuel,
        {
            if intp.done() || fuel == 0 {
                break ;
            }
            proof {
                lemma_step_wf(s, intp.state.machine());
            }
            match intp.step() {
                Ok(true) => {},
                Ok(false) => {
                    break ;
                },
                Err(e) => {
                    return Err(e);
                },
            }
            fuel -= 1;
        }
        let mut end_state = intp.state;
        let mut new_steps: Vec<Step> = Vec::new();
        if end_state.index == self.steps.len() {
            self.push_output(&mut new_steps, &end_state.output);
            assert(new_steps@ =~= emit_bytes(m_end.output, first));
            self.steps = new_steps;
        } else {
            end_state.tape.trim();
            self.push_output(&mut new_steps, &end_state.output);
            let ghost t = end_state.tape.0@;
            let ghost pre = new_steps@;
            let tape_len = end_state.tape.0.len();
            let mut i: usize = 0;
            assert(t.take(0) =~= seq![]);
            assert(new_steps@ =~= pre + tape_steps(t.take(0)));
            while i < tape_len
                invariant
                    i <= tape_len,
                    tape_len == t.len(),
                    t == end_state.tape.0@,
                    new_steps@ == pre + tape_steps(t.take(i as int)),
                decreases tape_len - i,
            {
                proof {
                    lemma_tape_steps_next(t, i as int);
                }
                new_steps.push(Step::Add(end_state.tape.0[i]));
                new_steps.push(Step::Next(1));
                i += 1;
                assert(new_steps@ =~= pre + tape_steps(t.take(i as int)));
            }
            assert(t.take(i as int) =~= t);
            let pointer = end_state.pointer;
            if tape_len > pointer {
                new_steps.push(Step::Prev((tape_len - pointer) as u64));
            } else if tape_len < pointer {
                new_steps.push(Step::Next((pointer - tape_len) as u64));
            }
            assert(new_steps@ =~= pre + tape_steps(t) + pointer_fix(t.len(), m_end.pointer as nat));
            let ghost pre2 = new_steps@;
            let index = end_state.index;
            if index != 0 {
                let label_zero = self.get_label();
                new_steps.push(Step::JumpTo(label_zero));
                push_range(&mut new_steps, &self.steps, 0, index);
                new_steps.push(Step::Label(label_zero));
                let len = self.steps.len();
                push_range(&mut new_steps, &self.steps, index, len);
                assert(s.take(index as int) =~= s.subrange(0, index as int));
                assert(s.skip(index as int) =~= s.subrange(index as int, len as int));
                assert(new_steps@ =~= pre2 + resume_at(
                    s,
                    index as int,
                    Label((first + m_end.output.len()) as usize),
                ));
            } else {
                let len = self.steps.len();
                push_range(&mut new_steps, &self.steps, 0, len);
                assert(s.subrange(0, len as int) =~= s);
                assert(new_steps@ =~= pre2 + resume_at(
                    s,
                    index as int,
                    Label((first + m_end.output.len()) as usize),
                ));
            }
            self.steps = new_steps;
        }
        Ok(())
    }

    /// Runs the peephole pass, then the startup evaluator.
    pub fn optimize(&mut self) -> (r: Result<(), Error>)
        requires
            old(self).next_label() + EVAL_FUEL < LABEL_LIMIT,
        ensures
            r is Err <==> optimize_fails(old(self).steps()),
            r matches Err(e) ==> e is InternalCompilerError,
            r is Ok ==> final(self).steps() == startup(
                peephole(old(self).steps()),
                old(self).next_label(),
            ),
            r is Ok ==> final(self).next_label() == old(self).next_label() + startup_labels(
                peephole(old(self).steps()),
            ),
    {
        self.optimize_peephole_combine()?;
        self.optimize_startup()
    }
}


// ---------------------------------------------------------------- lowering

/// The instructions a step lowers to, with `pointer` as the tape pointer and
/// `n` local labels of the ABI used before it.
pub open spec fn step_ops(st: Step, pointer: Register64, abi: ABI, n: nat) -> Seq<Op> {
    match st {
        Step::Next(c) => seq![Op::AddImm(pointer, c)],
        Step::Prev(c) => seq![Op::SubImm(pointer, c)],
        Step::Add(v) => seq![Op::AddPtr8Imm(pointer, v)],
        Step::JumpTo(l) => seq![Op::Jump(label_text(l))],
        Step::JumpToIf(c, l) => seq![
            Op::IsZeroPtr8(pointer),
            if c {
                Op::JumpNonZero(label_text(l))
            } else {
                Op::JumpZero(label_text(l))
            },
        ],
        Step::Label(l) => seq![Op::Label(label_text(l))],
        Step::Output => write_ops(write_call(abi), pointer, 1),
        Step::Input => read_byte_ops(abi, pointer, n),
    }
}

/// How many inputs stand among the first `k` steps.
pub open spec fn inputs_before(s: Seq<Step>, k: int) -> nat
    decreases k,
{
    if k <= 0 {
        0
    } else {
        inputs_before(s, k - 1) + if s[k - 1] == Step::Input {
            1nat
        } else {
            0nat
        }
    }
}

/// The first `k` steps lowered one after another.
pub open spec fn lowered(s: Seq<Step>, k: int, pointer: Register64, abi: ABI) -> Seq<Op>
    decreases k,
{
    if k <= 0 {
        seq![]
    } else {
        lowered(s, k - 1, pointer, abi) + step_ops(s[k - 1], pointer, abi, inputs_before(s, k - 1))
    }
}

/// The whole program lowered: the steps, then the exit.
pub open spec fn program_ops(s: Seq<Step>, abi: ABI) -> Seq<Op> {
    lowered(s, s.len() as int, Register64::rbx, abi) + exit_ops(abi)
}

/// Lines of assembly text, one per instruction, joined by line breaks.
pub open spec fn lines(s: Seq<Op>) -> Seq<char>
    decreases s.len(),
{
    if s.len() == 0 {
        seq![]
    } else if s.len() == 1 {
        source_of(s[0])
    } else {
        lines(s.drop_last()) + "\n"@ + source_of(s.last())
    }
}

/// The code that allocates the zeroed tape on the stack and points `rbx` at it.
pub open spec fn prologue_text() -> Seq<char> {
    "sub rsp, 30000\nmov rcx, 30000\nmov rdi, rsp\nxor al, al\nrep stosb\nmov rbx, rsp\nsub rsp, 8"@
}

/// The assembly file of an optimized program.
pub open spec fn assembly_text(abi: ABI, ops: Seq<Op>) -> Seq<char> {
    let info = linker_info_of(abi);
    let code = code_part(ops, ops.len() as int);
    let data = sort_ops(data_part(ops, ops.len() as int));
    header_text(info) + "\nsection .text\n"@ + info.entrypoint + ":\n"@ + prologue_text() + "\n"@
        + lines(code) + "\nsection .data\n"@ + lines(data) + "\n"@
}

/// Appends the lines of `ops`.
fn push_lines(out: &mut String, ops: &Vec<Instruction>)
    ensures
        final(out)@ == old(out)@ + lines(ops_view(ops@)),
{
    let ghost s = ops_view(ops@);
    let mut i: usize = 0;
    assert(s.take(0) =~= seq![]);
    while i < ops.len()
        invariant
            s == ops_view(ops@),
            i <= ops.len(),
            out@ == old(out)@ + lines(s.take(i as int)),
        decreases ops.len() - i,
    {
        assert(s.take(i + 1).drop_last() =~= s.take(i as int));
        if i > 0 {
            push_str(out, "\n");
        }
        let line = ops[i].to_source();
        push_str(out, line.as_str());
        i += 1;
        assert(s.take(i as int).last() == s[i - 1]);
    }
    assert(s.take(i as int) =~= s);
}

impl Step {
    /// The instructions this step lowers to.
    pub fn to_assembly<O: Operations>(self, pointer: Register64, abi_ops: &mut O) -> (r: Vec<
        Instruction,
    >)
        requires
            old(abi_ops).labels_used() < usize::MAX,
        ensures
            ops_view(r@) == step_ops(self, pointer, old(abi_ops).abi(), old(abi_ops).labels_used()),
            final(abi_ops).abi() == old(abi_ops).abi(),
            final(abi_ops).labels_used() == old(abi_ops).labels_used() + if self == Step::Input {
                1nat
            } else {
                0nat
            },
    {
        let r = match self {
            Step::Next(count) => vec![Instruction::AddImm(pointer, count)],
            Step::Prev(count) => vec![Instruction::SubImm(pointer, count)],
            Step::Add(n) => vec![Instruction::AddPtr8Imm(pointer, n)],
            Step::JumpTo(label) => vec![Instruction::Jump(label.name())],
            Step::JumpToIf(condition, label) => vec![
                Instruction::IsZeroPtr8(pointer),
                if condition {
                    Instruction::JumpNonZero(label.name())
                } else {
                    Instruction::JumpZero(label.name())
                },
            ],
            Step::Label(label) => vec![Instruction::Label(label.name())],
            Step::Output => abi_ops.write_bytes(pointer, 1),
            Step::Input => abi_ops.read_byte(pointer),
        };
        assert(ops_view(r@) =~= step_ops(self, pointer, old(abi_ops).abi(), old(abi_ops).labels_used()));
        r
    }
}

impl State {
    /// The program lowered for `abi`, before the passes run.
    pub fn lower(&self, abi: ABI) -> (r: Vec<Instruction>)
        ensures
            ops_view(r@) == program_ops(self.steps(), abi),
    {
        let ghost s = self.steps@;
        let mut abi_ops = abi.operations();
        let mut body = abi_ops.startup();
        let ghost pre = ops_view(body@);
        assert(pre =~= seq![]);
        let mut i: usize = 0;
        while i < self.steps.len()
            invariant
                s == self.steps@,
                i <= s.len(),
                abi_ops.abi() == abi,
                abi_ops.labels_used() == inputs_before(s, i as int),
                inputs_before(s, i as int) <= i,
                ops_view(body@) == lowered(s, i as int, Register64::rbx, abi),
            decreases s.len() - i,
        {
            let mut v = self.steps[i].to_assembly(Register64::rbx, &mut abi_ops);
            proof {
                lemma_ops_view_add(body@, v@);
            }
            body.append(&mut v);
            i += 1;
        }
        let mut exit = abi_ops.exit();
        proof {
            lemma_ops_view_add(body@, exit@);
        }
        body.append(&mut exit);
        body
    }

    /// The assembly file of the program for `abi`, after the passes ran.
    pub fn to_assembly(&self, abi: ABI) -> (r: String)
        ensures
            r@ == assembly_text(abi, optimized(program_ops(self.steps(), abi))),
    {
        let ops = self.lower(abi);
        let body = optimize(ops);
        let ghost o = ops_view(body@);
        let (code, data) = separate_data(body);
        let info = abi.operations().linker_info();
        let mut s = info.to_assembly();
        push_str(&mut s, "\nsection .text\n");
        push_str(&mut s, info.entrypoint.as_str());
        push_str(&mut s, ":\n");
        push_str(
            &mut s,
            "sub rsp, 30000\nmov rcx, 30000\nmov rdi, rsp\nxor al, al\nrep stosb\nmov rbx, rsp\nsub rsp, 8",
        );
        push_str(&mut s, "\n");
        push_lines(&mut s, &code);
        push_str(&mut s, "\nsection .data\n");
        push_lines(&mut s, &data);
        push_str(&mut s, "\n");
        assert(s@ =~= assembly_text(abi, o));
        s
    }
}

// ---------------------------------------------------------------- defined labels

/// The label a step jumps to, if it jumps.
pub open spec fn step_target(st: Step) -> Option<Label> {
    match st {
        Step::JumpTo(l) => Some(l),
        Step::JumpToIf(_, l) => Some(l),
        _ => None,
    }
}

/// Whether `s` defines label `l`.
pub open spec fn defines(s: Seq<Step>, l: Label) -> bool {
    exists|i: int| 0 <= i < s.len() && s[i] == Step::Label(l)
}

/// Whether every jump of `s` goes to a label that `s` defines.
pub open spec fn targets_defined(s: Seq<Step>) -> bool {
    forall|i: int| 0 <= i < s.len() && step_target(#[trigger] s[i]) is Some ==> defines(
        s,
        step_target(s[i])->0,
    )
}

/// While loops are open: each jump goes to a defined label or to the end of
/// an open loop, and the start of each open loop is defined.
pub open spec fn open_loops_ok(s: Seq<Step>, scope: Seq<(Label, Label)>) -> bool {
    &&& forall|i: int|
        0 <= i < s.len() && step_target(#[trigger] s[i]) is Some ==> defines(
            s,
            step_target(s[i])->0,
        ) || exists|j: int| 0 <= j < scope.len() && scope[j].1 == step_target(s[i])->0
    &&& forall|j: int| 0 <= j < scope.len() ==> defines(s, #[trigger] scope[j].0)
}

pub proof fn lemma_defines_grows(s: Seq<Step>, e: Seq<Step>, l: Label)
    requires
        defines(s, l),
    ensures
        defines(s + e, l),
{
    let i = choose|i: int| 0 <= i < s.len() && s[i] == Step::Label(l);
    assert((s + e)[i] == Step::Label(l));
}

pub proof fn lemma_built_open_loops(t: Seq<Token>, k: int)
    requires
        balanced(t),
        0 <= k <= t.len(),
    ensures
        built(t.take(k)).1.len() == depth(t.take(k)),
        open_loops_ok(built(t.take(k)).0, built(t.take(k)).1),
    decreases k,
{
    if k == 0 {
        assert(t.take(0) =~= seq![]);
    } else {
        lemma_built_open_loops(t, k - 1);
        let u = t.take(k);
        assert(u.drop_last() =~= t.take(k - 1));
        let (s, scope, n) = built(t.take(k - 1));
        let (s2, scope2, n2) = built(u);
        let tok = u.last();
        assert(depth(t.take(k)) >= 0);
        if tok == Token::JumpForwards {
            let start = Label(n as usize);
            let end = Label((n + 1) as usize);
            let e = token_steps(tok, start, end);
            assert(s2 == s + e);
            assert forall|i: int| 0 <= i < s2.len() && step_target(#[trigger] s2[i]) is Some implies defines(
                s2,
                step_target(s2[i])->0,
            ) || exists|j: int| 0 <= j < scope2.len() && scope2[j].1 == step_target(s2[i])->0 by {
                if i < s.len() {
                    assert(s2[i] == s[i]);
                    let l = step_target(s[i])->0;
                    if defines(s, l) {
                        lemma_defines_grows(s, e, l);
                    } else {
                        let j = choose|j: int| 0 <= j < scope.len() && scope[j].1 == l;
                        assert(scope2[j] == scope[j]);
                    }
                } else {
                    assert(i == s.len());
                    assert(scope2[scope.len() as int].1 == end);
                }
            }
            assert forall|j: int| 0 <= j < scope2.len() implies defines(s2, #[trigger] scope2[j].0) by {
                if j < scope.len() {
                    assert(scope2[j] == scope[j]);
                    lemma_defines_grows(s, e, scope[j].0);
                } else {
                    assert(s2[s.len() + 1int] == Step::Label(start));
                }
            }
        } else if tok == Token::JumpBackwards {
            let (start, end) = scope.last();
            let e = token_steps(tok, start, end);
            assert(s2 == s + e);
            assert(scope2 =~= scope.drop_last());
            assert(defines(s, start));
            lemma_defines_grows(s, e, start);
            assert(s2[s.len() + 1int] == Step::Label(end));
            assert forall|i: int| 0 <= i < s2.len() && step_target(#[trigger] s2[i]) is Some implies defines(
                s2,
                step_target(s2[i])->0,
            ) || exists|j: int| 0 <= j < scope2.len() && scope2[j].1 == step_target(s2[i])->0 by {
                if i < s.len() {
                    assert(s2[i] == s[i]);
                    let l = step_target(s[i])->0;
                    if defines(s, l) {
                        lemma_defines_grows(s, e, l);
                    } else {
                        let j = choose|j: int| 0 <= j < scope.len() && scope[j].1 == l;
                        if j < scope.len() - 1 {
                            assert(scope2[j] == scope[j]);
                        } else {
                            assert(l == end);
                        }
                    }
                } else {
                    assert(i == s.len());
                }
            }
            assert forall|j: int| 0 <= j < scope2.len() implies defines(s2, #[trigger] scope2[j].0) by {
                assert(scope2[j] == scope[j]);
                lemma_defines_grows(s, e, scope[j].0);
            }
        } else {
            let e = token_steps(tok, Label(0), Label(0));
            assert(s2 == s + e);
            assert(scope2 == scope);
            assert forall|i: int| 0 <= i < s2.len() && step_target(#[trigger] s2[i]) is Some implies defines(
                s2,
                step_target(s2[i])->0,
            ) || exists|j: int| 0 <= j < scope2.len() && scope2[j].1 == step_target(s2[i])->0 by {
                if i < s.len() {
                    assert(s2[i] == s[i]);
                    let l = step_target(s[i])->0;
                    if defines(s, l) {
                        lemma_defines_grows(s, e, l);
                    }
                }
            }
            assert forall|j: int| 0 <= j < scope2.len() implies defines(s2, #[trigger] scope2[j].0) by {
                lemma_defines_grows(s, e, scope[j].0);
            }
        }
    }
}

/// The steps of balanced tokens jump only to labels they define.
pub proof fn built_jumps_are_defined(t: Seq<Token>)
    requires
        balanced(t),
    ensures
        targets_defined(built(t).0),
{
    lemma_built_open_loops(t, t.len() as int);
    assert(t.take(t.len() as int) =~= t);
}

/// Whether a step is neither a cell addition nor a pointer move.
pub open spec fn is_control(st: Step) -> bool {
    !(st is Add || st is Next || st is Prev)
}

/// The steps of `s` that are neither additions nor moves, in order.
pub open spec fn controls(s: Seq<Step>) -> Seq<Step>
    decreases s.len(),
{
    if s.len() == 0 {
        seq![]
    } else {
        (if is_control(s[0]) {
            seq![s[0]]
        } else {
            seq![]
        }) + controls(s.skip(1))
    }
}

pub proof fn lemma_controls_add(a: Seq<Step>, b: Seq<Step>)
    ensures
        controls(a + b) == controls(a) + controls(b),
    decreases a.len(),
{
    if a.len() == 0 {
        assert(a + b =~= b);
    } else {
        assert((a + b).skip(1) =~= a.skip(1) + b);
        lemma_controls_add(a.skip(1), b);
        assert(controls(a + b) =~= controls(a) + controls(b));
    }
}

pub proof fn lemma_controls_of_step(x: Step)
    ensures
        controls(seq![x]) == (if is_control(x) {
            seq![x]
        } else {
            seq![]
        }),
{
    assert(seq![x].skip(1) =~= Seq::<Step>::empty());
    assert(controls(Seq::<Step>::empty()) == Seq::<Step>::empty());
    let h = if is_control(x) {
        seq![x]
    } else {
        seq![]
    };
    assert(controls(seq![x]) == h + controls(seq![x].skip(1)));
    assert(h + Seq::<Step>::empty() =~= h);
    assert(controls(seq![x]) =~= (if is_control(x) {
        seq![x]
    } else {
        seq![]
    }));
}

pub proof fn lemma_peephole_controls(w: Seq<Step>)
    ensures
        controls(peephole(w)) == controls(w),
    decreases w.len(),
{
    if w.len() >= 2 {
        let c = combine_steps(w[0], w[1]);
        if c.len() == 2 {
            lemma_peephole_controls(w.skip(1));
            assert(w =~= seq![w[0]] + w.skip(1));
            lemma_controls_add(seq![w[0]], peephole(w.skip(1)));
            lemma_controls_add(seq![w[0]], w.skip(1));
        } else {
            lemma_peephole_controls(c + w.skip(2));
            lemma_controls_add(c, w.skip(2));
            assert(w =~= seq![w[0], w[1]] + w.skip(2));
            lemma_controls_add(seq![w[0], w[1]], w.skip(2));
            assert(seq![w[0], w[1]] =~= seq![w[0]] + seq![w[1]]);
            lemma_controls_add(seq![w[0]], seq![w[1]]);
            lemma_controls_of_step(w[0]);
            lemma_controls_of_step(w[1]);
            if c.len() == 1 {
                lemma_controls_of_step(c[0]);
                assert(c =~= seq![c[0]]);
            }
            assert(controls(c) =~= controls(seq![w[0], w[1]]));
        }
    }
}

pub proof fn lemma_control_in_controls(s: Seq<Step>, k: int)
    requires
        0 <= k < s.len(),
        is_control(s[k]),
    ensures
        exists|j: int| 0 <= j < controls(s).len() && controls(s)[j] == s[k],
    decreases s.len(),
{
    let h = if is_control(s[0]) {
        seq![s[0]]
    } else {
        seq![]
    };
    if k == 0 {
        assert(controls(s)[0] == s[0]);
    } else {
        lemma_control_in_controls(s.skip(1), k - 1);
        let j = choose|j: int|
            0 <= j < controls(s.skip(1)).len() && controls(s.skip(1))[j] == s.skip(1)[k - 1];
        assert(controls(s)[h.len() + j] == controls(s.skip(1))[j]);
    }
}

pub proof fn lemma_controls_in_source(s: Seq<Step>, j: int)
    requires
        0 <= j < controls(s).len(),
    ensures
        exists|k: int| 0 <= k < s.len() && s[k] == controls(s)[j],
    decreases s.len(),
{
    let h = if is_control(s[0]) {
        seq![s[0]]
    } else {
        seq![]
    };
    if j < h.len() {
        assert(controls(s)[j] == s[0]);
    } else {
        lemma_controls_in_source(s.skip(1), j - h.len());
        let k = choose|k: int|
            0 <= k < s.skip(1).len() && s.skip(1)[k] == controls(s.skip(1))[j - h.len()];
        assert(s[k + 1] == s.skip(1)[k]);
    }
}

pub proof fn lemma_same_controls_targets(a: Seq<Step>, b: Seq<Step>)
    requires
        controls(a) == controls(b),
        targets_defined(a),
    ensures
        targets_defined(b),
{
    assert forall|i: int| 0 <= i < b.len() && step_target(#[trigger] b[i]) is Some implies defines(
        b,
        step_target(b[i])->0,
    ) by {
        let l = step_target(b[i])->0;
        lemma_control_in_controls(b, i);
        let j = choose|j: int| 0 <= j < controls(b).len() && controls(b)[j] == b[i];
        lemma_controls_in_source(a, j);
        let k = choose|k: int| 0 <= k < a.len() && a[k] == controls(a)[j];
        assert(step_target(a[k]) == Some(l));
        let d = choose|d: int| 0 <= d < a.len() && a[d] == Step::Label(l);
        lemma_control_in_controls(a, d);
        let j2 = choose|j2: int| 0 <= j2 < controls(a).len() && controls(a)[j2] == a[d];
        lemma_controls_in_source(b, j2);
    }
}

/// The peephole pass keeps every label and every jump: where each jump of
/// `s` goes to a label that `s` defines, so does each jump of its result.
pub proof fn peephole_keeps_targets(s: Seq<Step>)
    requires
        targets_defined(s),
    ensures
        targets_defined(peephole(s)),
        controls(peephole(s)) == controls(s),
{
    lemma_peephole_controls(s);
    lemma_same_controls_targets(s, peephole(s));
}

pub proof fn lemma_defines_within(pre: Seq<Step>, x: Seq<Step>, post: Seq<Step>, l: Label)
    requires
        defines(x, l),
    ensures
        defines(pre + x + post, l),
{
    let i = choose|i: int| 0 <= i < x.len() && x[i] == Step::Label(l);
    assert((pre + x + post)[pre.len() + i] == Step::Label(l));
}

pub proof fn lemma_tape_steps_no_jumps(t: Seq<u8>)
    ensures
        forall|k: int| 0 <= k < tape_steps(t).len() ==> step_target(#[trigger] tape_steps(t)[k]) is None,
    decreases t.len(),
{
    if t.len() > 0 {
        lemma_tape_steps_no_jumps(t.drop_last());
        let p = tape_steps(t.drop_last());
        let q = seq![Step::Add(t.last()), Step::Next(1)];
        assert forall|k: int| 0 <= k < tape_steps(t).len() implies step_target(
            #[trigger] tape_steps(t)[k],
        ) is None by {
            if k < p.len() {
                assert(tape_steps(t)[k] == p[k]);
            } else {
                assert(tape_steps(t)[k] == q[k - p.len()]);
            }
        }
    }
}

pub proof fn lemma_emit_bytes_targets(out: Seq<u8>, first: nat)
    requires
        first + out.len() <= LABEL_LIMIT,
    ensures
        targets_defined(emit_bytes(out, first)),
{
    lemma_emit_bytes_shape(out, first);
    let a = emit_bytes(out, first);
    assert forall|i: int| 0 <= i < a.len() && step_target(#[trigger] a[i]) is Some implies defines(
        a,
        step_target(a[i])->0,
    ) by {
        let k = i / 5;
        let j = i % 5;
        let l = Label((first + k) as usize);
        assert(i == 5 * k + j);
        assert(a[5 * k + j] == byte_block(out[k], l)[j]);
        assert(j == 4);
        assert(a[5 * k + 2] == byte_block(out[k], l)[2]);
    }
}

/// The startup evaluator keeps jumps to defined labels: where each jump of `s`
/// goes to a label that `s` defines, so does each jump of its result.
pub proof fn startup_keeps_targets(s: Seq<Step>, first: nat)
    requires
        targets_defined(s),
        first + EVAL_FUEL < LABEL_LIMIT,
    ensures
        targets_defined(startup(s, first)),
{
    let m = run(s, start(), EVAL_FUEL as nat);
    lemma_run_output_bound(s, start(), EVAL_FUEL as nat);
    lemma_run_index(s, start(), EVAL_FUEL as nat);
    lemma_emit_bytes_targets(m.output, first);
    if m.index != s.len() {
        let t = trim(m.tape);
        let l = Label((first + m.output.len()) as usize);
        let a = emit_bytes(m.output, first);
        let b = tape_steps(t);
        let c = pointer_fix(t.len(), m.pointer as nat);
        let d = resume_at(s, m.index, l);
        lemma_tape_steps_no_jumps(t);
        assert(targets_defined(d)) by {
            if m.index != 0 {
                let x = m.index;
                assert(d[x + 1] == Step::Label(l));
                assert forall|i: int| 0 <= i < d.len() && step_target(#[trigger] d[i]) is Some implies defines(
                    d,
                    step_target(d[i])->0,
                ) by {
                    if i > 0 && i != x + 1 {
                        let k = if i < x + 1 {
                            i - 1
                        } else {
                            i - 2
                        };
                        assert(d[i] == s[k]);
                        let l2 = step_target(s[k])->0;
                        let w = choose|w: int| 0 <= w < s.len() && s[w] == Step::Label(l2);
                        if w < x {
                            assert(d[w + 1] == s[w]);
                        } else {
                            assert(d[w + 2] == s[w]);
                        }
                    }
                }
            }
        }
        let r = a + b + c + d;
        assert forall|i: int| 0 <= i < r.len() && step_target(#[trigger] r[i]) is Some implies defines(
            r,
            step_target(r[i])->0,
        ) by {
            let lt = step_target(r[i])->0;
            if i < a.len() {
                assert(r[i] == a[i]);
                lemma_defines_within(seq![], a, b + c + d, lt);
                assert(seq![] + a + (b + c + d) =~= r);
            } else if i < a.len() + b.len() {
                assert(r[i] == b[i - a.len()]);
            } else if i < a.len() + b.len() + c.len() {
                assert(r[i] == c[i - a.len() - b.len()]);
            } else {
                assert(r[i] == d[i - a.len() - b.len() - c.len()]);
                lemma_defines_within(a + b + c, d, seq![], lt);
                assert(a + b + c + d + seq![] =~= r);
            }
        }
    }
}

/// The program that balanced tokens lower to, after the peephole pass and the
/// startup evaluator, jumps only to labels it defines.
pub proof fn optimized_steps_jump_to_defined_labels(t: Seq<Token>)
    requires
        balanced(t),
        t.len() <= TOKEN_LIMIT,
    ensures
        targets_defined(startup(peephole(built(t).0), built(t).2)),
{
    built_jumps_are_defined(t);
    peephole_keeps_targets(built(t).0);
    lemma_built_label_count(t, t.len() as int);
    assert(t.take(t.len() as int) =~= t);
    startup_keeps_targets(peephole(built(t).0), built(t).2);
}

pub proof fn lemma_built_label_count(t: Seq<Token>, k: int)
    requires
        0 <= k <= t.len(),
    ensures
        built(t.take(k)).2 <= 2 * k,
    decreases k,
{
    if k > 0 {
        lemma_built_label_count(t, k - 1);
        assert(t.take(k).drop_last() =~= t.take(k - 1));
    }
}

// ---------------------------------------------------------------- whole programs

/// Tokens longer than this are not compiled: the labels would not fit.
pub const TOKEN_LIMIT: usize = 0x1000_0000;

/// The steps, open loops and next label after lowering tokens `t` one by one.
pub open spec fn built(t: Seq<Token>) -> (Seq<Step>, Seq<(Label, Label)>, nat)
    decreases t.len(),
{
    if t.len() == 0 {
        (seq![], seq![], 0)
    } else {
        let (s, scope, n) = built(t.drop_last());
        let tok = t.last();
        if tok == Token::JumpForwards {
            let start = Label(n as usize);
            let end = Label((n + 1) as usize);
            (s + token_steps(tok, start, end), scope.push((start, end)), n + 2)
        } else if tok == Token::JumpBackwards {
            let (start, end) = scope.last();
            (s + token_steps(tok, start, end), scope.drop_last(), n)
        } else {
            (s + token_steps(tok, Label(0), Label(0)), scope, n)
        }
    }
}

/// The assembly file the compiler writes for tokens `t`.
pub open spec fn compiled(t: Seq<Token>, abi: ABI) -> Seq<char> {
    let (s, _, n) = built(t);
    assembly_text(abi, optimized(program_ops(startup(peephole(s), n), abi)))
}

/// Compiles balanced tokens for an ABI: the assembly file and how to link it,
/// or an internal error (see `optimize_fails`).
pub fn compile_tokens(tokens: Vec<Token>, abi: ABI) -> (r: Result<(String, LinkerInfo), Error>)
    requires
        balanced(tokens@),
        tokens@.len() <= TOKEN_LIMIT,
    ensures
        r is Err <==> optimize_fails(built(tokens@).0),
        r matches Err(e) ==> e is InternalCompilerError,
        r matches Ok(v) ==> v.0@ == compiled(tokens@, abi) && v.1@ == linker_info_of(abi),
{
    let mut state = State::new();
    let mut i: usize = 0;
    assert(tokens@.take(0) =~= seq![]);
    while i < tokens.len()
        invariant
            i <= tokens.len() <= TOKEN_LIMIT,
            balanced(tokens@),
            (state.steps(), state.scope(), state.next_label()) == built(tokens@.take(i as int)),
            state.scope().len() == depth(tokens@.take(i as int)),
            state.next_label() <= 2 * i,
        decreases tokens.len() - i,
    {
        let tok = tokens[i];
        assert(tokens@.take(i + 1).drop_last() =~= tokens@.take(i as int));
        assert(tokens@.take(i + 1).last() == tok);
        assert(depth(tokens@.take(i + 1)) >= 0);
        state.append(tok);
        i += 1;
    }
    assert(tokens@.take(i as int) =~= tokens@);
    state.optimize()?;
    let linker_info = abi.operations().linker_info();
    Ok((state.to_assembly(abi), linker_info))
}

} // verus!
