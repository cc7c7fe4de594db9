//! Peephole passes over instructions and the scheduler that runs them.
use vstd::prelude::*;

use crate::instruction::{
    combine_ops, jump_target, lemma_ops_view_add, lemma_ops_view_push, op_affects_zf, op_effects,
    op_reads_zf, ops_view, eff_nop, Effects, Instruction, Op, Register64,
};
use crate::text::{decimal_of, owned, push_decimal, push_str};
use vstd::string::StrSliceExecFns;

verus! {

/// Appends a copy of `x` to `v`.
fn push_copy(v: &mut Vec<Instruction>, x: &Instruction)
    ensures
        ops_view(final(v)@) == ops_view(old(v)@).push(x@),
{
    let c = x.clone();
    proof {
        lemma_ops_view_push(v@, c);
    }
    v.push(c);
}

/// Whether `op` jumps to `l`.
fn jumps_to(op: &Instruction, l: &String) -> (r: bool)
    ensures
        r == (jump_target(op@) == Some(l@)),
{
    match op {
        Instruction::Jump(t) => *t == *l,
        Instruction::JumpZero(t) => *t == *l,
        Instruction::JumpNonZero(t) => *t == *l,
        _ => false,
    }
}

// ---------------------------------------------------------------- labels

/// Whether some jump of `s` goes to `l`.
pub open spec fn label_used(s: Seq<Op>, l: Seq<char>) -> bool {
    exists|k: int| 0 <= k < s.len() && jump_target(#[trigger] s[k]) == Some(l)
}

/// Whether `o` stays: every instruction but a label that no jump of `all` goes to.
pub open spec fn keeps_label(all: Seq<Op>, o: Op) -> bool {
    match o {
        Op::Label(l) => label_used(all, l),
        _ => true,
    }
}

/// The first `n` instructions of `s`, unused labels dropped.
pub open spec fn used_labels_only(s: Seq<Op>, n: int) -> Seq<Op>
    decreases n,
{
    if n <= 0 {
        seq![]
    } else {
        let p = used_labels_only(s, n - 1);
        if keeps_label(s, s[n - 1]) {
            p.push(s[n - 1])
        } else {
            p
        }
    }
}

/// Whether some jump of `ops` goes to `l`.
fn is_label_used(ops: &Vec<Instruction>, l: &String) -> (r: bool)
    ensures
        r == label_used(ops_view(ops@), l@),
{
    let ghost s = ops_view(ops@);
    let mut j: usize = 0;
    while j < ops.len()
        invariant
            s == ops_view(ops@),
            j <= ops.len(),
            forall|k: int| 0 <= k < j ==> jump_target(#[trigger] s[k]) != Some(l@),
        decreases ops.len() - j,
    {
        if jumps_to(&ops[j], l) {
            assert(jump_target(s[j as int]) == Some(l@));
            return true;
        }
        j += 1;
    }
    false
}

/// Removes labels that no jump goes to.
pub fn optimize_remove_unused_labels(ops: Vec<Instruction>) -> (r: Vec<Instruction>)
    ensures
        ops_view(r@) == used_labels_only(ops_view(ops@), ops@.len() as int),
{
    let ghost s = ops_view(ops@);
    let mut result: Vec<Instruction> = Vec::new();
    let mut index: usize = 0;
    while index < ops.len()
        invariant
            s == ops_view(ops@),
            index <= ops.len(),
            ops_view(result@) == used_labels_only(s, index as int),
        decreases ops.len() - index,
    {
        let keep = match &ops[index] {
            Instruction::Label(l) => is_label_used(&ops, l),
            _ => true,
        };
        if keep {
            push_copy(&mut result, &ops[index]);
        }
        index += 1;
    }
    result
}

// ---------------------------------------------------------------- zero flags

/// The index of the last instruction before `k` that may change the zero flag.
pub open spec fn flag_source(s: Seq<Op>, k: int) -> Option<int>
    decreases k,
{
    if k <= 0 {
        None
    } else if op_affects_zf(s[k - 1]) {
        Some(k - 1)
    } else {
        flag_source(s, k - 1)
    }
}

/// Whether `s[k]` compares `[r]` with zero although the zero flag already
/// tells: the last flag setter before it compared or added to `[r]`, or is
/// the call named `read`.
pub open spec fn redundant_compare(s: Seq<Op>, k: int) -> bool {
    match s[k] {
        Op::IsZeroPtr8(r) => match flag_source(s, k) {
            Some(j) => match s[j] {
                Op::IsZeroPtr8(r1) => r1 == r,
                Op::AddPtr8Imm(r1, _) => r1 == r,
                Op::NamedBlackBox(n, _, _) => n == "read"@,
                _ => false,
            },
            None => false,
        },
        _ => false,
    }
}

/// The first `n` instructions of `s`, redundant compares dropped.
pub open spec fn needed_compares(s: Seq<Op>, n: int) -> Seq<Op>
    decreases n,
{
    if n <= 0 {
        seq![]
    } else {
        let p = needed_compares(s, n - 1);
        if redundant_compare(s, n - 1) {
            p
        } else {
            p.push(s[n - 1])
        }
    }
}

fn find_flag_source(ops: &Vec<Instruction>, k: usize) -> (r: Option<usize>)
    requires
        k <= ops.len(),
    ensures
        r matches Some(j) ==> j < k && flag_source(ops_view(ops@), k as int) == Some(j as int),
        r is None ==> flag_source(ops_view(ops@), k as int) is None,
{
    let ghost s = ops_view(ops@);
    let mut i = k;
    while i > 0
        invariant
            s == ops_view(ops@),
            i <= k <= ops.len(),
            flag_source(s, k as int) == flag_source(s, i as int),
        decreases i,
    {
        if ops[i - 1].affects_zero_flag() {
            return Some(i - 1);
        }
        i -= 1;
    }
    None
}

/// Removes compares of a cell with zero where the zero flag already tells.
pub fn optimize_zero_flags(ops: Vec<Instruction>) -> (r: Vec<Instruction>)
    ensures
        ops_view(r@) == needed_compares(ops_view(ops@), ops@.len() as int),
{
    let ghost s = ops_view(ops@);
    let mut result: Vec<Instruction> = Vec::new();
    let mut index: usize = 0;
    while index < ops.len()
        invariant
            s == ops_view(ops@),
            index <= ops.len(),
            ops_view(result@) == needed_compares(s, index as int),
        decreases ops.len() - index,
    {
        let mut redundant = false;
        if let Instruction::IsZeroPtr8(r0) = &ops[index] {
            if let Some(j) = find_flag_source(&ops, index) {
                redundant = match &ops[j] {
                    Instruction::IsZeroPtr8(r1) => *r1 == *r0,
                    Instruction::AddPtr8Imm(r1, _) => *r1 == *r0,
                    Instruction::NamedBlackBox(n, _, _) => *n == owned("read"),
                    _ => false,
                };
            }
        }
        if !redundant {
            push_copy(&mut result, &ops[index]);
        }
        index += 1;
    }
    result
}

// ---------------------------------------------------------------- nops

/// Whether the zero flag as it stands before `s[j]` is read: some instruction
/// from `j` on reads it before one changes it.
pub open spec fn flag_read_from(s: Seq<Op>, j: int) -> bool
    decreases s.len() - j,
{
    if j < 0 || j >= s.len() {
        false
    } else if op_reads_zf(s[j]) {
        true
    } else if op_affects_zf(s[j]) {
        false
    } else {
        flag_read_from(s, j + 1)
    }
}

/// Whether `s[k]` has an effect: it is data, or it changes something other
/// than the zero flag, or it changes the zero flag and that is read.
pub open spec fn has_effect(s: Seq<Op>, k: int) -> bool {
    match op_effects(s[k]) {
        None => true,
        Some(e) => if e == eff_nop() {
            false
        } else if e.flags && !(e.registers || e.control_flow) {
            flag_read_from(s, k + 1)
        } else {
            true
        },
    }
}

/// The first `n` instructions of `s`, those without effect dropped.
pub open spec fn effective(s: Seq<Op>, n: int) -> Seq<Op>
    decreases n,
{
    if n <= 0 {
        seq![]
    } else {
        let p = effective(s, n - 1);
        if has_effect(s, n - 1) {
            p.push(s[n - 1])
        } else {
            p
        }
    }
}

fn is_flag_read_from(ops: &Vec<Instruction>, j: usize) -> (r: bool)
    ensures
        r == flag_read_from(ops_view(ops@), j as int),
{
    let ghost s = ops_view(ops@);
    let mut i = j;
    while i < ops.len()
        invariant
            s == ops_view(ops@),
            j <= i,
            flag_read_from(s, j as int) == flag_read_from(s, i as int),
        decreases ops.len() - i,
    {
        if ops[i].reads_zf() {
            return true;
        } else if ops[i].affects_zero_flag() {
            return false;
        }
        i += 1;
    }
    false
}

/// Removes instructions that have no effect, and flag changes that nothing reads.
pub fn optimize_remove_nops(ops: Vec<Instruction>) -> (r: Vec<Instruction>)
    ensures
        ops_view(r@) == effective(ops_view(ops@), ops@.len() as int),
{
    let ghost s = ops_view(ops@);
    let mut result: Vec<Instruction> = Vec::new();
    let mut index: usize = 0;
    while index < ops.len()
        invariant
            s == ops_view(ops@),
            index <= ops.len(),
            ops_view(result@) == effective(s, index as int),
        decreases ops.len() - index,
    {
        let required = match ops[index].effects() {
            None => true,
            Some(efs) => if efs == Effects::nop() {
                false
            } else if efs.flags && !(efs.registers || efs.control_flow) {
                is_flag_read_from(&ops, index + 1)
            } else {
                true
            },
        };
        if required {
            push_copy(&mut result, &ops[index]);
        }
        index += 1;
    }
    result
}

// ---------------------------------------------------------------- exit

/// Whether an instruction is the call named `exit`.
pub open spec fn is_exit(o: Op) -> bool {
    o matches Op::NamedBlackBox(n, _, _) && n == "exit"@
}

/// Whether an instruction jumps or does I/O.
pub open spec fn is_barrier(o: Op) -> bool {
    match op_effects(o) {
        Some(e) => e.control_flow || e.io,
        None => false,
    }
}

/// The index of the first exit call, jump or I/O at or after `j`.
pub open spec fn next_barrier(s: Seq<Op>, j: int) -> Option<int>
    decreases s.len() - j,
{
    if j < 0 || j >= s.len() {
        None
    } else if is_exit(s[j]) || is_barrier(s[j]) {
        Some(j)
    } else {
        next_barrier(s, j + 1)
    }
}

/// Whether `s[k]` is dead before the exit: it neither jumps nor does I/O,
/// and the exit call comes next among such instructions, not right after it
/// (the instruction right before the call sets the exit code).
pub open spec fn dead_before_exit(s: Seq<Op>, k: int) -> bool {
    &&& !(s[k] is Label)
    &&& op_effects(s[k]) is Some
    &&& !is_barrier(s[k])
    &&& next_barrier(s, k + 1) matches Some(j) && is_exit(s[j]) && j > k + 1
}

/// The first `n` instructions of `s`, those dead before the exit dropped.
pub open spec fn live_before_exit(s: Seq<Op>, n: int) -> Seq<Op>
    decreases n,
{
    if n <= 0 {
        seq![]
    } else {
        let p = live_before_exit(s, n - 1);
        if dead_before_exit(s, n - 1) {
            p
        } else {
            p.push(s[n - 1])
        }
    }
}

fn is_exit_call(op: &Instruction) -> (r: bool)
    ensures
        r == is_exit(op@),
{
    match op {
        Instruction::NamedBlackBox(name, _, _) => *name == owned("exit"),
        _ => false,
    }
}

fn is_barrier_exec(op: &Instruction) -> (r: bool)
    ensures
        r == is_barrier(op@),
{
    match op.effects() {
        Some(e) => e.control_flow || e.io,
        None => false,
    }
}

fn find_barrier(ops: &Vec<Instruction>, j: usize) -> (r: Option<usize>)
    ensures
        r matches Some(b) ==> next_barrier(ops_view(ops@), j as int) == Some(b as int) && b
            < ops@.len(),
        r is None ==> next_barrier(ops_view(ops@), j as int) is None,
{
    let ghost s = ops_view(ops@);
    let mut i = j;
    while i < ops.len()
        invariant
            s == ops_view(ops@),
            j <= i,
            next_barrier(s, j as int) == next_barrier(s, i as int),
        decreases ops.len() - i,
    {
        if is_exit_call(&ops[i]) || is_barrier_exec(&ops[i]) {
            return Some(i);
        }
        i += 1;
    }
    None
}

/// Removes instructions whose work the exit call makes useless.
pub fn optimize_exit(ops: Vec<Instruction>) -> (r: Vec<Instruction>)
    ensures
        ops_view(r@) == live_before_exit(ops_view(ops@), ops@.len() as int),
{
    let ghost s = ops_view(ops@);
    let mut result: Vec<Instruction> = Vec::new();
    let mut index: usize = 0;
    while index < ops.len()
        invariant
            s == ops_view(ops@),
            index <= ops.len(),
            ops_view(result@) == live_before_exit(s, index as int),
        decreases ops.len() - index,
    {
        let op = &ops[index];
        let mut dead = false;
        let candidate = match op {
            Instruction::Label(_) => false,
            _ => op.effects().is_some() && !is_barrier_exec(op),
        };
        if candidate {
            if let Some(j) = find_barrier(&ops, index + 1) {
                dead = is_exit_call(&ops[j]) && j > index + 1;
            }
        }
        if !dead {
            push_copy(&mut result, op);
        }
        index += 1;
    }
    result
}


// ---------------------------------------------------------------- zero loop

/// The register of a zeroing loop `L: add byte [r], ±1; jnz L` at `s[i]`.
pub open spec fn zero_loop_at(s: Seq<Op>, i: int) -> Option<Register64> {
    if 0 <= i && i + 2 < s.len() {
        match (s[i], s[i + 1], s[i + 2]) {
            (Op::Label(l), Op::AddPtr8Imm(r, v), Op::JumpNonZero(t)) => if l == t && (v == 1 || v
                == 255) {
                Some(r)
            } else {
                None
            },
            _ => None,
        }
    } else {
        None
    }
}

/// `s` from `i` on, each zeroing loop replaced by a store of zero.
pub open spec fn zero_loops_from(s: Seq<Op>, i: int) -> Seq<Op>
    decreases s.len() - i,
{
    if i < 0 || i >= s.len() {
        seq![]
    } else {
        match zero_loop_at(s, i) {
            Some(r) => seq![Op::MovPtr8Imm(r, 0)] + zero_loops_from(s, i + 3),
            None => seq![s[i]] + zero_loops_from(s, i + 1),
        }
    }
}

/// Replaces the loops `[-]` and `[+]` by a store of zero.
pub fn optimize_zero_loop(ops: Vec<Instruction>) -> (r: Vec<Instruction>)
    ensures
        ops_view(r@) == zero_loops_from(ops_view(ops@), 0),
{
    let ghost s = ops_view(ops@);
    let mut result: Vec<Instruction> = Vec::new();
    let mut index: usize = 0;
    while index < ops.len()
        invariant
            s == ops_view(ops@),
            index <= ops.len() + 2,
            ops_view(result@) + zero_loops_from(s, index as int) == zero_loops_from(s, 0),
        decreases ops.len() + 2 - index,
    {
        let ghost before = ops_view(result@);
        let mut reg: Option<Register64> = None;
        if ops.len() - index > 2 {
            if let (Instruction::Label(l), Instruction::AddPtr8Imm(r, v), Instruction::JumpNonZero(t)) = (
                &ops[index],
                &ops[index + 1],
                &ops[index + 2],
            ) {
                if *l == *t && (*v == 1 || *v == 255) {
                    reg = Some(*r);
                }
            }
        }
        assert(reg == zero_loop_at(s, index as int));
        if let Some(r) = reg {
            let z = Instruction::MovPtr8Imm(r, 0);
            proof {
                lemma_ops_view_push(result@, z);
            }
            result.push(z);
            index += 3;
        } else {
            push_copy(&mut result, &ops[index]);
            index += 1;
        }
        assert(ops_view(result@) + zero_loops_from(s, index as int) =~= before + zero_loops_from(
            s,
            (index - if reg is Some { 3int } else { 1int }) as int,
        ));
    }
    assert(zero_loops_from(s, index as int) == Seq::<Op>::empty());
    assert(ops_view(result@) =~= ops_view(result@) + zero_loops_from(s, index as int));
    result
}

// ---------------------------------------------------------------- start cells

/// `s` from `i` on with its leading cell additions, which act on zero cells,
/// turned into stores: an add of zero is dropped, pointer moves are kept, and
/// the first other instruction ends the rewrite.
pub open spec fn start_cells_from(s: Seq<Op>, i: int) -> Seq<Op>
    decreases s.len() - i,
{
    if i < 0 || i >= s.len() {
        seq![]
    } else {
        match s[i] {
            Op::AddPtr8Imm(r, v) => if v == 0 {
                start_cells_from(s, i + 1)
            } else {
                seq![Op::MovPtr8Imm(r, v)] + start_cells_from(s, i + 1)
            },
            Op::AddImm(_, _) => seq![s[i]] + start_cells_from(s, i + 1),
            _ => s.skip(i),
        }
    }
}

/// Turns the additions to cells at program start into stores.
pub fn optimize_start_cells(ops: Vec<Instruction>) -> (r: Vec<Instruction>)
    ensures
        ops_view(r@) == start_cells_from(ops_view(ops@), 0),
{
    let ghost s = ops_view(ops@);
    let mut result: Vec<Instruction> = Vec::new();
    let mut index: usize = 0;
    let mut leading = true;
    while index < ops.len()
        invariant
            s == ops_view(ops@),
            index <= ops.len(),
            leading ==> ops_view(result@) + start_cells_from(s, index as int) == start_cells_from(
                s,
                0,
            ),
            !leading ==> ops_view(result@) + s.skip(index as int) == start_cells_from(s, 0),
        decreases ops.len() - index,
    {
        let ghost before = ops_view(result@);
        if leading {
            match &ops[index] {
                Instruction::AddPtr8Imm(r, v) => {
                    if *v != 0 {
                        let m = Instruction::MovPtr8Imm(*r, *v);
                        proof {
                            lemma_ops_view_push(result@, m);
                        }
                        result.push(m);
                    }
                },
                Instruction::AddImm(_, _) => {
                    push_copy(&mut result, &ops[index]);
                },
                _ => {
                    leading = false;
                },
            }
        }
        if !leading {
            assert(s.skip(index as int) =~= seq![s[index as int]] + s.skip(index + 1));
            push_copy(&mut result, &ops[index]);
        }
        index += 1;
        assert(leading ==> ops_view(result@) + start_cells_from(s, index as int) =~= before
            + start_cells_from(s, index - 1));
        assert(!leading ==> ops_view(result@) + s.skip(index as int) =~= before + s.skip(
            index - 1,
        ));
    }
    assert(s.skip(index as int) =~= Seq::<Op>::empty());
    assert(ops_view(result@) =~= ops_view(result@) + s.skip(index as int));
    result
}

// ---------------------------------------------------------------- dead code

/// The index of the first label at or after `j`.
pub open spec fn next_label_at(s: Seq<Op>, j: int) -> Option<int>
    decreases s.len() - j,
{
    if j < 0 || j >= s.len() {
        None
    } else if s[j] is Label {
        Some(j)
    } else {
        next_label_at(s, j + 1)
    }
}

/// The end of the dead code after an unconditional jump at `s[i]`: the next
/// label, where it is the jump's own target and code stands between them.
pub open spec fn dead_code_end(s: Seq<Op>, i: int) -> Option<int> {
    match s[i] {
        Op::Jump(l) => match next_label_at(s, i + 1) {
            Some(j) => if s[j] == Op::Label(l) && i + 1 < j < s.len() {
                Some(j)
            } else {
                None
            },
            None => None,
        },
        _ => None,
    }
}

/// `s` from `i` on, each jump over dead code to the label right after it dropped
/// together with that code.
pub open spec fn live_code_from(s: Seq<Op>, i: int) -> Seq<Op>
    decreases s.len() - i,
{
    if i < 0 || i >= s.len() {
        seq![]
    } else {
        match dead_code_end(s, i) {
            Some(j) => live_code_from(s, j),
            None => seq![s[i]] + live_code_from(s, i + 1),
        }
    }
}

fn find_label(ops: &Vec<Instruction>, j: usize) -> (r: Option<usize>)
    ensures
        r matches Some(b) ==> next_label_at(ops_view(ops@), j as int) == Some(b as int) && j <= b
            < ops@.len(),
        r is None ==> next_label_at(ops_view(ops@), j as int) is None,
{
    let ghost s = ops_view(ops@);
    let mut i = j;
    while i < ops.len()
        invariant
            s == ops_view(ops@),
            j <= i,
            next_label_at(s, j as int) == next_label_at(s, i as int),
        decreases ops.len() - i,
    {
        if let Instruction::Label(_) = &ops[i] {
            return Some(i);
        }
        i += 1;
    }
    None
}

/// Removes the code between an unconditional jump and its target label
/// where that label is the next one.
pub fn optimize_remove_dead_code(ops: Vec<Instruction>) -> (r: Vec<Instruction>)
    ensures
        ops_view(r@) == live_code_from(ops_view(ops@), 0),
{
    let ghost s = ops_view(ops@);
    let mut result: Vec<Instruction> = Vec::new();
    let mut index: usize = 0;
    while index < ops.len()
        invariant
            s == ops_view(ops@),
            index <= ops.len(),
            ops_view(result@) + live_code_from(s, index as int) == live_code_from(s, 0),
        decreases ops.len() - index,
    {
        let ghost before = ops_view(result@);
        let mut end: Option<usize> = None;
        if let Instruction::Jump(l0) = &ops[index] {
            if let Some(j) = find_label(&ops, index + 1) {
                if let Instruction::Label(l1) = &ops[j] {
                    if *l0 == *l1 && j > index + 1 {
                        end = Some(j);
                    }
                }
            }
        }
        assert(match end {
            Some(j) => dead_code_end(s, index as int) == Some(j as int),
            None => dead_code_end(s, index as int) is None,
        });
        match end {
            Some(j) => {
                index = j;
            },
            None => {
                push_copy(&mut result, &ops[index]);
                index += 1;
                assert(ops_view(result@) + live_code_from(s, index as int) =~= before
                    + live_code_from(s, index - 1));
            },
        }
    }
    assert(ops_view(result@) =~= ops_view(result@) + live_code_from(s, index as int));
    result
}

// ---------------------------------------------------------------- dead jumps

/// Whether two instructions are conditional jumps on the same condition.
pub open spec fn same_condition(a: Op, b: Op) -> bool {
    (a is JumpZero && b is JumpZero) || (a is JumpNonZero && b is JumpNonZero)
}

/// Whether, looking back from `p[k - 1]` to `p[0]`, a jump on the same
/// condition as `o` comes before any change of the zero flag.
pub open spec fn repeats_from(p: Seq<Op>, o: Op, k: int) -> bool
    decreases k,
{
    if k <= 0 {
        false
    } else if op_affects_zf(p[k - 1]) {
        false
    } else if same_condition(p[k - 1], o) {
        true
    } else {
        repeats_from(p, o, k - 1)
    }
}

/// Whether conditional jump `o` after `p` is never taken: an earlier jump on
/// the same condition, with the same flag, was not taken.
pub open spec fn repeated_jump(p: Seq<Op>, o: Op) -> bool {
    (o is JumpZero || o is JumpNonZero) && repeats_from(p, o, p.len() as int)
}

/// The first `n` instructions of `s`, repeated jumps dropped.
pub open spec fn live_jumps(s: Seq<Op>, n: int) -> Seq<Op>
    decreases n,
{
    if n <= 0 {
        seq![]
    } else {
        let p = live_jumps(s, n - 1);
        if repeated_jump(p, s[n - 1]) {
            p
        } else {
            p.push(s[n - 1])
        }
    }
}

fn same_condition_exec(a: &Instruction, b: &Instruction) -> (r: bool)
    ensures
        r == same_condition(a@, b@),
{
    match (a, b) {
        (Instruction::JumpZero(_), Instruction::JumpZero(_)) => true,
        (Instruction::JumpNonZero(_), Instruction::JumpNonZero(_)) => true,
        _ => false,
    }
}

fn is_repeated_jump(result: &Vec<Instruction>, op: &Instruction) -> (r: bool)
    ensures
        r == repeated_jump(ops_view(result@), op@),
{
    let ghost p = ops_view(result@);
    match op {
        Instruction::JumpZero(_) => {},
        Instruction::JumpNonZero(_) => {},
        _ => {
            return false;
        },
    }
    let mut k = result.len();
    while k > 0
        invariant
            p == ops_view(result@),
            k <= result.len(),
            repeats_from(p, op@, p.len() as int) == repeats_from(p, op@, k as int),
        decreases k,
    {
        if result[k - 1].affects_zero_flag() {
            return false;
        }
        if same_condition_exec(&result[k - 1], op) {
            return true;
        }
        k -= 1;
    }
    false
}

/// Removes conditional jumps that an earlier jump on the same flag makes dead.
pub fn optimize_dead_jumps(ops: Vec<Instruction>) -> (r: Vec<Instruction>)
    ensures
        ops_view(r@) == live_jumps(ops_view(ops@), ops@.len() as int),
{
    let ghost s = ops_view(ops@);
    let mut result: Vec<Instruction> = Vec::new();
    let mut index: usize = 0;
    while index < ops.len()
        invariant
            s == ops_view(ops@),
            index <= ops.len(),
            ops_view(result@) == live_jumps(s, index as int),
        decreases ops.len() - index,
    {
        if !is_repeated_jump(&result, &ops[index]) {
            push_copy(&mut result, &ops[index]);
        }
        index += 1;
    }
    result
}

// ---------------------------------------------------------------- adjacent

/// The first `n` instructions of `s` folded left to right: each one is
/// combined with the last one kept.
pub open spec fn adjacent(s: Seq<Op>, n: int) -> Seq<Op>
    decreases n,
{
    if n <= 0 {
        seq![]
    } else {
        let p = adjacent(s, n - 1);
        if p.len() == 0 {
            seq![s[n - 1]]
        } else {
            p.drop_last() + combine_ops(p.last(), s[n - 1])
        }
    }
}

/// Combines adjacent instructions.
pub fn optimize_adjacent(ops: Vec<Instruction>) -> (r: Vec<Instruction>)
    ensures
        ops_view(r@) == adjacent(ops_view(ops@), ops@.len() as int),
{
    let ghost s = ops_view(ops@);
    let mut result: Vec<Instruction> = Vec::new();
    let mut index: usize = 0;
    while index < ops.len()
        invariant
            s == ops_view(ops@),
            index <= ops.len(),
            ops_view(result@) == adjacent(s, index as int),
        decreases ops.len() - index,
    {
        let ghost before = result@;
        let b = ops[index].clone();
        match result.pop() {
            Some(last) => {
                let mut c = last.combine(b);
                proof {
                    assert(before.drop_last() =~= result@);
                    assert(ops_view(before).drop_last() =~= ops_view(result@));
                    lemma_ops_view_add(result@, c@);
                }
                result.append(&mut c);
            },
            None => {
                proof {
                    lemma_ops_view_push(result@, b);
                }
                result.push(b);
                assert(ops_view(result@) =~= seq![s[index as int]]);
            },
        }
        index += 1;
    }
    result
}


// ---------------------------------------------------------------- memory stores

/// How many stores of a byte to `[r]` stand one after another from `s[i]` on.
pub open spec fn store_run(s: Seq<Op>, i: int, r: Register64) -> nat
    decreases s.len() - i,
{
    if 0 <= i < s.len() && (s[i] matches Op::MovPtr8Imm(r1, _) && r1 == r) {
        1 + store_run(s, i + 1, r)
    } else {
        0
    }
}

/// The widest store, of 2, 4 or 8 bytes, that a run of `n` byte stores fills.
pub open spec fn store_width(n: nat) -> nat {
    if n >= 8 {
        8
    } else if n >= 4 {
        4
    } else {
        2
    }
}

/// The number whose little-endian bytes are `b`.
pub open spec fn le_value(b: Seq<u8>) -> nat
    decreases b.len(),
{
    if b.len() == 0 {
        0
    } else {
        (b[0] + 256 * le_value(b.skip(1))) as nat
    }
}

/// Byte `i` of `v`, counting from the least significant one.
pub open spec fn byte_of(v: nat, i: nat) -> nat
    decreases i,
{
    if i == 0 {
        v % 256
    } else {
        byte_of(v / 256, (i - 1) as nat)
    }
}

/// The bytes stored by `w` byte stores from `s[i]` on.
pub open spec fn stored_bytes(s: Seq<Op>, i: int, w: nat) -> Seq<u8> {
    Seq::new(
        w,
        |j: int|
            match s[i + j] {
                Op::MovPtr8Imm(_, b) => b,
                _ => 0,
            },
    )
}

/// A store of `w` bytes holding `v`.
pub open spec fn wide_store(r: Register64, w: nat, v: nat) -> Op {
    if w == 2 {
        Op::MovPtr16Imm(r, v as u16)
    } else if w == 4 {
        Op::MovPtr32Imm(r, v as u32)
    } else {
        Op::MovPtr64Imm(r, v as u64)
    }
}

/// `s` from `i` on, each run of two or more byte stores to `[r]` turned into
/// one wide store of its first 2, 4 or 8 bytes and a move of `r` past them.
pub open spec fn packed_from(s: Seq<Op>, i: int) -> Seq<Op>
    decreases s.len() - i,
{
    if i < 0 || i >= s.len() {
        seq![]
    } else {
        match s[i] {
            Op::MovPtr8Imm(r, _) => if store_run(s, i, r) >= 2 && i + store_width(store_run(s, i, r))
                <= s.len() {
                let w = store_width(store_run(s, i, r));
                seq![
                    wide_store(r, w, le_value(stored_bytes(s, i, w))),
                    Op::AddImm(r, w as u64),
                ] + packed_from(s, i + w)
            } else {
                seq![s[i]] + packed_from(s, i + 1)
            },
            _ => seq![s[i]] + packed_from(s, i + 1),
        }
    }
}

pub proof fn lemma_store_run(s: Seq<Op>, i: int, r: Register64, c: int)
    requires
        0 <= i,
        0 <= c,
        forall|j: int| 0 <= j < c ==> (#[trigger] s[i + j] matches Op::MovPtr8Imm(r1, _) && r1 == r) && i + j
            < s.len(),
    ensures
        store_run(s, i, r) >= c,
        (i + c >= s.len() || !(s[i + c] matches Op::MovPtr8Imm(r1, _) && r1 == r)) ==> store_run(
            s,
            i,
            r,
        ) == c,
    decreases c,
{
    if c > 0 {
        assert forall|j: int| 0 <= j < c - 1 implies (#[trigger] s[(i + 1) + j] matches Op::MovPtr8Imm(
            r1,
            _,
        ) && r1 == r) && (i + 1) + j < s.len() by {
            assert(s[i + (j + 1)] == s[(i + 1) + j]);
        }
        assert(s[i + 0] == s[i]);
        lemma_store_run(s, i + 1, r, c - 1);
    }
}

/// The number with little-endian bytes `b`, `b` of at most eight bytes.
fn le_pack(b: &Vec<u8>) -> (v: u64)
    requires
        b.len() <= 8,
    ensures
        v == le_value(b@),
        v < pow256(b@.len()),
{
    let mut v: u64 = 0;
    let mut j = b.len();
    assert(b@.skip(j as int) =~= seq![]);
    while j > 0
        invariant
            j <= b.len() <= 8,
            v == le_value(b@.skip(j as int)),
            v < pow256((b.len() - j) as nat),
        decreases j,
    {
        assert(b@.skip(j - 1).skip(1) =~= b@.skip(j as int));
        proof {
            lemma_pow256_le((b.len() - j + 1) as nat);
        }
        v = v * 256 + b[j - 1] as u64;
        j -= 1;
    }
    assert(b@.skip(0) =~= b@);
    v
}

/// 256 to the power `n`.
pub open spec fn pow256(n: nat) -> nat
    decreases n,
{
    if n == 0 {
        1
    } else {
        256 * pow256((n - 1) as nat)
    }
}

pub proof fn lemma_pow256_le(n: nat)
    requires
        n <= 8,
    ensures
        pow256(n) <= 0x1_0000_0000_0000_0000,
{
    reveal_with_fuel(pow256, 9);
    if n < 8 {
        assert(pow256(n) <= pow256(8)) by {
            lemma_pow256_mono(n, 8);
        }
    }
}

pub proof fn lemma_pow256_mono(a: nat, b: nat)
    requires
        a <= b,
    ensures
        pow256(a) <= pow256(b),
    decreases b - a,
{
    if a < b {
        lemma_pow256_mono(a, (b - 1) as nat);
    }
}

/// How many byte stores to `[r0]` stand from `ops[index]` on, at most eight.
fn store_run_len(ops: &Vec<Instruction>, index: usize, r0: Register64) -> (c: usize)
    requires
        index < ops.len(),
        ops@[index as int]@ matches Op::MovPtr8Imm(r1, _) && r1 == r0,
    ensures
        1 <= c <= 8,
        c <= ops.len() - index,
        c < 8 ==> c == store_run(ops_view(ops@), index as int, r0),
        c == 8 ==> store_run(ops_view(ops@), index as int, r0) >= 8,
{
    let ghost s = ops_view(ops@);
    let mut c: usize = 0;
    while c < 8 && c < ops.len() - index
        invariant
            s == ops_view(ops@),
            index < ops.len(),
            c <= 8,
            c <= ops.len() - index,
            forall|j: int| 0 <= j < c ==> (#[trigger] s[index + j] matches Op::MovPtr8Imm(r1, _)
                && r1 == r0) && index + j < s.len(),
        ensures
            c < 8 && c < ops.len() - index ==> !(s[index + c as int] matches Op::MovPtr8Imm(r1, _)
                && r1 == r0),
        decreases 8 - c,
    {
        if let Instruction::MovPtr8Imm(r1, _) = &ops[index + c] {
            if *r1 != r0 {
                break ;
            }
        } else {
            break ;
        }
        c += 1;
    }
    proof {
        lemma_store_run(s, index as int, r0, c as int);
        if c == 0 {
            assert(s[index as int] == s[index + 0]);
        }
    }
    c
}

/// The bytes of the `w` byte stores from `ops[index]` on.
fn collect_bytes(ops: &Vec<Instruction>, index: usize, w: usize) -> (b: Vec<u8>)
    requires
        w <= ops.len() - index,
    ensures
        b@ == stored_bytes(ops_view(ops@), index as int, w as nat),
        b@.len() == w,
{
    let ghost s = ops_view(ops@);
    let mut b: Vec<u8> = Vec::new();
    let mut j: usize = 0;
    while j < w
        invariant
            s == ops_view(ops@),
            w <= ops.len() - index,
            j <= w,
            b@ =~= stored_bytes(s, index as int, j as nat),
        decreases w - j,
    {
        let v = match &ops[index + j] {
            Instruction::MovPtr8Imm(_, x) => *x,
            _ => 0,
        };
        b.push(v);
        j += 1;
    }
    b
}

/// Merges runs of byte stores to the same register into wider stores.
pub fn optimize_adjancent_mem_movs(ops: Vec<Instruction>) -> (r: Vec<Instruction>)
    ensures
        ops_view(r@) == packed_from(ops_view(ops@), 0),
{
    let ghost s = ops_view(ops@);
    let mut result: Vec<Instruction> = Vec::new();
    let mut index: usize = 0;
    while index < ops.len()
        invariant
            s == ops_view(ops@),
            index <= ops.len(),
            ops_view(result@) + packed_from(s, index as int) == packed_from(s, 0),
        decreases ops.len() - index,
    {
        let ghost before = ops_view(result@);
        let mut done = false;
        if let Instruction::MovPtr8Imm(r0, _) = &ops[index] {
            let r0 = *r0;
            let c = store_run_len(&ops, index, r0);
            if c > 1 {
                let w: usize = if c >= 8 {
                    8
                } else if c >= 4 {
                    4
                } else {
                    2
                };
                assert(w == store_width(store_run(s, index as int, r0)));
                let imms = collect_bytes(&ops, index, w);
                let orred = le_pack(&imms);
                proof {
                    reveal_with_fuel(pow256, 5);
                }
                let store = if w == 2 {
                    Instruction::MovPtr16Imm(r0, orred as u16)
                } else if w == 4 {
                    Instruction::MovPtr32Imm(r0, orred as u32)
                } else {
                    Instruction::MovPtr64Imm(r0, orred)
                };
                let step = Instruction::AddImm(r0, w as u64);
                proof {
                    lemma_ops_view_push(result@, store);
                    lemma_ops_view_push(result@.push(store), step);
                }
                result.push(store);
                result.push(step);
                index += w;
                done = true;
                assert(ops_view(result@) + packed_from(s, index as int) =~= before + packed_from(
                    s,
                    index - w,
                ));
            }
        }
        if !done {
            push_copy(&mut result, &ops[index]);
            index += 1;
            assert(ops_view(result@) + packed_from(s, index as int) =~= before + packed_from(
                s,
                index - 1,
            ));
        }
    }
    assert(ops_view(result@) =~= ops_view(result@) + packed_from(s, index as int));
    result
}

/// The wide store of a run of byte stores holds each byte at its offset:
/// byte `i` of the packed value, least significant first, is the `i`th byte stored.
pub proof fn packed_store_keeps_bytes(b: Seq<u8>, i: nat)
    requires
        i < b.len(),
    ensures
        byte_of(le_value(b), i) == b[i as int],
    decreases i,
{
    let v = le_value(b);
    let rest = le_value(b.skip(1));
    assert(v == b[0] + 256 * rest);
    assert(v % 256 == b[0] as nat) by (nonlinear_arith)
        requires
            v == b[0] + 256 * rest,
            b[0] < 256,
    ;
    if i > 0 {
        assert(v / 256 == rest) by (nonlinear_arith)
            requires
                v == b[0] + 256 * rest,
                b[0] < 256,
        ;
        packed_store_keeps_bytes(b.skip(1), (i - 1) as nat);
    }
}

pub proof fn lemma_store_run_bound(s: Seq<Op>, i: int, r: Register64)
    requires
        0 <= i,
    ensures
        i + store_run(s, i, r) <= s.len() || store_run(s, i, r) == 0,
        forall|j: int|
            0 <= j < store_run(s, i, r) ==> (#[trigger] s[i + j] matches Op::MovPtr8Imm(r1, _) && r1
                == r),
    decreases s.len() - i,
{
    if 0 <= i < s.len() && (s[i] matches Op::MovPtr8Imm(r1, _) && r1 == r) {
        lemma_store_run_bound(s, i + 1, r);
        assert forall|j: int| 0 <= j < store_run(s, i, r) implies (#[trigger] s[i + j] matches Op::MovPtr8Imm(
            r1,
            _,
        ) && r1 == r) by {
            if j > 0 {
                assert(s[(i + 1) + (j - 1)] == s[i + j]);
            }
        }
    }
}

/// Where a run of two or more byte stores to `[r]` starts at `s[i]`, the pass
/// puts there one store of 2, 4 or 8 bytes and a move of `r` past them, and
/// byte `j` of the stored value, least significant first, is the byte of the
/// `j`th store of the run.
pub proof fn packed_run_keeps_bytes(s: Seq<Op>, i: int, r: Register64, j: nat)
    requires
        0 <= i < s.len(),
        s[i] matches Op::MovPtr8Imm(r1, _) && r1 == r,
        store_run(s, i, r) >= 2,
        j < store_width(store_run(s, i, r)),
    ensures
        ({
            let w = store_width(store_run(s, i, r));
            let v = le_value(stored_bytes(s, i, w));
            &&& packed_from(s, i)[0] == wide_store(r, w, v)
            &&& packed_from(s, i)[1] == Op::AddImm(r, w as u64)
            &&& s[i + j] matches Op::MovPtr8Imm(_, b) && byte_of(v, j) == b
        }),
{
    let w = store_width(store_run(s, i, r));
    lemma_store_run_bound(s, i, r);
    assert(s[i + 0] == s[i]);
    assert(i + w <= s.len());
    packed_store_keeps_bytes(stored_bytes(s, i, w), j);
    assert(s[i + j as int] matches Op::MovPtr8Imm(_, _));
}

/// Where a zeroing loop `L: add byte [r], d; jnz L` with `d` one or 255 starts
/// at `s[i]`, the pass puts a store of zero to `[r]` there, and the loop it
/// replaces always ends, with the cell at zero.
pub proof fn zero_loop_rewrite_matches(s: Seq<Op>, i: int, v: u8)
    requires
        zero_loop_at(s, i) is Some,
    ensures
        zero_loops_from(s, i)[0] == Op::MovPtr8Imm(zero_loop_at(s, i)->0, 0),
        s[i + 1] matches Op::AddPtr8Imm(_, d) && zero_loop_turns(v, d) >= 1 && spin(
            v,
            d,
            zero_loop_turns(v, d),
        ) == 0,
{
    if let Op::AddPtr8Imm(_, d) = s[i + 1] {
        zero_loop_ends_at_zero(v, d);
    }
}

// ---------------------------------------------------------------- redundant movs

/// The index of a register in a table of registers.
pub open spec fn reg_index(r: Register64) -> int {
    match r {
        Register64::rax => 0,
        Register64::rbx => 1,
        Register64::rcx => 2,
        Register64::rdx => 3,
        Register64::rsi => 4,
        Register64::rdi => 5,
        Register64::rsp => 6,
        Register64::r10 => 7,
        Register64::r11 => 8,
        Register64::r12 => 9,
    }
}

fn reg_slot(r: Register64) -> (i: usize)
    ensures
        i == reg_index(r),
{
    match r {
        Register64::rax => 0,
        Register64::rbx => 1,
        Register64::rcx => 2,
        Register64::rdx => 3,
        Register64::rsi => 4,
        Register64::rdi => 5,
        Register64::rsp => 6,
        Register64::r10 => 7,
        Register64::r11 => 8,
        Register64::r12 => 9,
    }
}

/// Nothing known of any register.
pub open spec fn unknown_regs() -> Seq<Option<u64>> {
    Seq::new(10, |i: int| None)
}

/// What is known of the registers after `o`: labels and black boxes forget
/// everything, moves copy or set a value, other writes to a register forget it.
pub open spec fn known_after_op(k: Seq<Option<u64>>, o: Op) -> Seq<Option<u64>> {
    match o {
        Op::BlackBox(_, _) => unknown_regs(),
        Op::NamedBlackBox(_, _, _) => unknown_regs(),
        Op::Label(_) => unknown_regs(),
        Op::Mov(r, r2) => k.update(reg_index(r), k[reg_index(r2)]),
        Op::MovImm(r, v) => k.update(reg_index(r), Some(v)),
        Op::MovImmVar(r, _) => k.update(reg_index(r), None),
        Op::AddImm(r, _) => k.update(reg_index(r), None),
        Op::SubImm(r, _) => k.update(reg_index(r), None),
        _ => k,
    }
}

/// What is known of the registers after the first `n` instructions.
pub open spec fn known_regs(s: Seq<Op>, n: int) -> Seq<Option<u64>>
    decreases n,
{
    if n <= 0 {
        unknown_regs()
    } else {
        known_after_op(known_regs(s, n - 1), s[n - 1])
    }
}

/// Whether `o` moves into a register the value it already holds.
pub open spec fn redundant_mov(k: Seq<Option<u64>>, o: Op) -> bool {
    match o {
        Op::MovImm(r, v) => k[reg_index(r)] == Some(v),
        Op::Mov(r1, r2) => k[reg_index(r1)] is Some && k[reg_index(r1)] == k[reg_index(r2)],
        _ => false,
    }
}

/// The first `n` instructions of `s`, redundant moves dropped.
pub open spec fn needed_movs(s: Seq<Op>, n: int) -> Seq<Op>
    decreases n,
{
    if n <= 0 {
        seq![]
    } else {
        let p = needed_movs(s, n - 1);
        if redundant_mov(known_regs(s, n - 1), s[n - 1]) {
            p
        } else {
            p.push(s[n - 1])
        }
    }
}

fn forget_all(known: &mut Vec<Option<u64>>)
    requires
        old(known)@.len() == 10,
    ensures
        final(known)@ == unknown_regs(),
{
    let mut i: usize = 0;
    while i < 10
        invariant
            known@.len() == 10,
            i <= 10,
            forall|j: int| 0 <= j < i ==> known@[j] is None,
        decreases 10 - i,
    {
        known.set(i, None);
        i += 1;
    }
    assert(known@ =~= unknown_regs());
}

/// Removes moves into registers that already hold the value.
pub fn optimize_redundant_movs(ops: Vec<Instruction>) -> (r: Vec<Instruction>)
    ensures
        ops_view(r@) == needed_movs(ops_view(ops@), ops@.len() as int),
{
    let ghost s = ops_view(ops@);
    let mut known: Vec<Option<u64>> = vec![None, None, None, None, None, None, None, None, None, None];
    assert(known@ =~= unknown_regs());
    let mut result: Vec<Instruction> = Vec::new();
    let mut index: usize = 0;
    while index < ops.len()
        invariant
            s == ops_view(ops@),
            index <= ops.len(),
            known@ == known_regs(s, index as int),
            known@.len() == 10,
            ops_view(result@) == needed_movs(s, index as int),
        decreases ops.len() - index,
    {
        let op = &ops[index];
        let redundant = match op {
            Instruction::MovImm(r, imm) => known[reg_slot(*r)] == Some(*imm),
            Instruction::Mov(r1, r2) => match (known[reg_slot(*r1)], known[reg_slot(*r2)]) {
                (Some(a), Some(b)) => a == b,
                _ => false,
            },
            _ => false,
        };
        if !redundant {
            push_copy(&mut result, op);
        }
        match op {
            Instruction::BlackBox(_, _) | Instruction::NamedBlackBox(_, _, _) | Instruction::Label(
                _,
            ) => {
                forget_all(&mut known);
            },
            Instruction::Mov(r, r2) => {
                let v = known[reg_slot(*r2)];
                known.set(reg_slot(*r), v);
            },
            Instruction::MovImm(r, imm) => {
                known.set(reg_slot(*r), Some(*imm));
            },
            Instruction::MovImmVar(r, _) | Instruction::AddImm(r, _) | Instruction::SubImm(r, _) => {
                known.set(reg_slot(*r), None);
            },
            _ => {},
        }
        index += 1;
    }
    result
}


// ---------------------------------------------------------------- constant output

/// The byte and the call of a one-byte write of a constant at `s[i]`: a store
/// of the byte to `[r]`, then `write(1, r, 1)` through the call named `write`.
/// The call comes back without its name.
pub open spec fn written_byte(s: Seq<Op>, i: int) -> Option<(u8, Op)> {
    if 0 <= i && i + 4 < s.len() {
        match (s[i], s[i + 4]) {
            (Op::MovPtr8Imm(r0, imm), Op::NamedBlackBox(n, f, e)) => if s[i + 1] == Op::MovImm(
                Register64::rdi,
                1,
            ) && s[i + 2] == Op::Mov(Register64::rsi, r0) && s[i + 3] == Op::MovImm(
                Register64::rdx,
                1,
            ) && n == "write"@ {
                Some((imm, Op::BlackBox(f, e)))
            } else {
                None
            },
            _ => None,
        }
    } else {
        None
    }
}

/// The name of the `n`th data blob.
pub open spec fn data_name(n: nat) -> Seq<char> {
    "constant_output"@ + decimal_of(n)
}

/// One write of the bytes `run`, stored as data blob `n`, through `call`.
pub open spec fn blob_write(run: Seq<u8>, call: Op, n: nat) -> Seq<Op> {
    if run.len() == 0 {
        seq![]
    } else {
        seq![
            Op::MovImm(Register64::rdi, 1),
            Op::MovImmVar(Register64::rsi, data_name(n)),
            Op::MovImm(Register64::rdx, run.len() as u64),
            call,
        ]
    }
}

/// The data blob `n` holding `run`.
pub open spec fn blob_data(run: Seq<u8>, n: nat) -> Seq<Op> {
    if run.len() == 0 {
        seq![]
    } else {
        seq![Op::Data(data_name(n), run)]
    }
}

/// The code and the data for `s` from `i` on, where `run` holds the bytes of
/// the one-byte writes just before `i`, `call` the call of the first of them,
/// and `n` the number of the next blob. Each run of one-byte writes becomes
/// one write of a blob.
pub open spec fn outputs_from(s: Seq<Op>, i: int, run: Seq<u8>, call: Op, n: nat) -> (
    Seq<Op>,
    Seq<Op>,
)
    decreases s.len() - i,
{
    if i < 0 || i >= s.len() {
        (blob_write(run, call, n), blob_data(run, n))
    } else {
        match written_byte(s, i) {
            Some((b, c)) => outputs_from(
                s,
                i + 5,
                run.push(b),
                if run.len() == 0 {
                    c
                } else {
                    call
                },
                n,
            ),
            None => {
                let m = if run.len() == 0 {
                    n
                } else {
                    n + 1
                };
                let (code, data) = outputs_from(s, i + 1, seq![], call, m);
                (blob_write(run, call, n) + seq![s[i]] + code, blob_data(run, n) + data)
            },
        }
    }
}

/// A call that is never used: the call before any write was seen.
pub open spec fn no_call() -> Op {
    Op::BlackBox(seq![], eff_nop())
}

/// The result of the constant output pass: the code, then the data blobs.
pub open spec fn constant_outputs(s: Seq<Op>) -> Seq<Op> {
    let (code, data) = outputs_from(s, 0, seq![], no_call(), 0);
    code + data
}

fn written_byte_at(ops: &Vec<Instruction>, i: usize) -> (r: Option<(u8, Instruction)>)
    ensures
        match written_byte(ops_view(ops@), i as int) {
            Some((b, c)) => r matches Some((b1, c1)) && b1 == b && c1@ == c,
            None => r is None,
        },
{
    if ops.len() <= i || ops.len() - i <= 4 {
        return None;
    }
    if let Instruction::MovPtr8Imm(r0, imm) = &ops[i] {
        let ok = match (&ops[i + 1], &ops[i + 2], &ops[i + 3]) {
            (Instruction::MovImm(a, x), Instruction::Mov(b, c), Instruction::MovImm(d, y)) => *a
                == Register64::rdi && *x == 1 && *b == Register64::rsi && *c == *r0 && *d
                == Register64::rdx && *y == 1,
            _ => false,
        };
        if ok {
            if let Instruction::NamedBlackBox(name, f, e) = &ops[i + 4] {
                if *name == owned("write") {
                    return Some((*imm, Instruction::BlackBox(f.clone(), *e)));
                }
            }
        }
    }
    None
}

/// The name of the `n`th data blob.
fn blob_name(n: u64) -> (r: String)
    ensures
        r@ == data_name(n as nat),
{
    let mut name = String::new();
    push_str(&mut name, "constant_output");
    push_decimal(&mut name, n);
    assert(name@ =~= data_name(n as nat));
    name
}

/// Appends the write of a nonempty run and its blob.
fn flush_run(
    result: &mut Vec<Instruction>,
    data: &mut Vec<Instruction>,
    run: &Vec<u8>,
    call: &Instruction,
    n: u64,
)
    requires
        run@.len() > 0,
    ensures
        ops_view(final(result)@) == ops_view(old(result)@) + blob_write(run@, call@, n as nat),
        ops_view(final(data)@) == ops_view(old(data)@) + blob_data(run@, n as nat),
{
    let name = blob_name(n);
    let w = vec![
        Instruction::MovImm(Register64::rdi, 1),
        Instruction::MovImmVar(Register64::rsi, name.clone()),
        Instruction::MovImm(Register64::rdx, run.len() as u64),
        call.clone(),
    ];
    let mut d = vec![Instruction::Data(name, run.clone())];
    let mut w = w;
    proof {
        lemma_ops_view_add(result@, w@);
        lemma_ops_view_add(data@, d@);
        assert(ops_view(w@) =~= blob_write(run@, call@, n as nat));
        assert(ops_view(d@) =~= blob_data(run@, n as nat));
    }
    result.append(&mut w);
    data.append(&mut d);
}

/// Turns runs of one-byte writes of constants into single writes of data blobs.
pub fn optimize_constant_output(ops: Vec<Instruction>) -> (r: Vec<Instruction>)
    ensures
        ops_view(r@) == constant_outputs(ops_view(ops@)),
{
    let ghost s = ops_view(ops@);
    let ghost all = outputs_from(s, 0, seq![], no_call(), 0);
    let mut result: Vec<Instruction> = Vec::new();
    let mut const_strings: Vec<Instruction> = Vec::new();
    let mut current_bytes: Vec<u8> = Vec::new();
    let mut write_fn = Instruction::BlackBox(String::new(), Effects::nop());
    let mut name_label: u64 = 0;
    let mut index: usize = 0;
    while index < ops.len()
        invariant
            s == ops_view(ops@),
            name_label <= index,
            index <= ops.len() + 4,
            ({
                let (code, data) = outputs_from(
                    s,
                    index as int,
                    current_bytes@,
                    write_fn@,
                    name_label as nat,
                );
                (ops_view(result@) + code, ops_view(const_strings@) + data) == all
            }),
        decreases ops.len() + 4 - index,
    {
        match written_byte_at(&ops, index) {
            Some((b, c)) => {
                let ghost before = outputs_from(
                    s,
                    index as int,
                    current_bytes@,
                    write_fn@,
                    name_label as nat,
                );
                let ghost call2 = if current_bytes@.len() == 0 {
                    c@
                } else {
                    write_fn@
                };
                assert(before == outputs_from(
                    s,
                    index + 5,
                    current_bytes@.push(b),
                    call2,
                    name_label as nat,
                ));
                if current_bytes.len() == 0 {
                    write_fn = c;
                }
                current_bytes.push(b);
                index += 5;
            },
            None => {
                let ghost r0 = ops_view(result@);
                let ghost d0 = ops_view(const_strings@);
                let ghost run = current_bytes@;
                let ghost n0 = name_label as nat;
                let ghost m = if run.len() == 0 {
                    n0
                } else {
                    n0 + 1
                };
                proof {
                    let (c1, d1) = outputs_from(s, index + 1, seq![], write_fn@, m);
                    assert(outputs_from(s, index as int, run, write_fn@, n0) == (blob_write(
                        run,
                        write_fn@,
                        n0,
                    ) + seq![s[index as int]] + c1, blob_data(run, n0) + d1));
                    assert(run.len() == 0 ==> run =~= seq![]);
                }
                if current_bytes.len() > 0 {
                    flush_run(&mut result, &mut const_strings, &current_bytes, &write_fn, name_label);
                    name_label += 1;
                    current_bytes = Vec::new();
                }
                push_copy(&mut result, &ops[index]);
                index += 1;
                proof {
                    let (code, data) = outputs_from(
                        s,
                        index as int,
                        current_bytes@,
                        write_fn@,
                        name_label as nat,
                    );
                    assert(ops_view(result@) + code =~= r0 + (blob_write(run, write_fn@, n0) + seq![
                        s[index - 1],
                    ] + code));
                    assert(ops_view(const_strings@) + data =~= d0 + (blob_data(run, n0) + data));
                }
            },
        }
    }
    proof {
        let (code, data) = outputs_from(
            s,
            index as int,
            current_bytes@,
            write_fn@,
            name_label as nat,
        );
        assert(code == blob_write(current_bytes@, write_fn@, name_label as nat));
    }
    if current_bytes.len() > 0 {
        flush_run(&mut result, &mut const_strings, &current_bytes, &write_fn, name_label);
    }
    proof {
        lemma_ops_view_add(result@, const_strings@);
        assert(current_bytes@.len() == 0 ==> ops_view(result@) =~= ops_view(result@) + blob_write(
            current_bytes@,
            write_fn@,
            name_label as nat,
        ));
        assert(current_bytes@.len() == 0 ==> ops_view(const_strings@) =~= ops_view(
            const_strings@,
        ) + blob_data(current_bytes@, name_label as nat));
    }
    result.append(&mut const_strings);
    result
}

// ---------------------------------------------------------------- labels by name

/// The index of the first `Label(l)` at or after `i`.
pub open spec fn label_at_from(s: Seq<Op>, l: Seq<char>, i: int) -> Option<int>
    decreases s.len() - i,
{
    if i < 0 || i >= s.len() {
        None
    } else if s[i] == Op::Label(l) {
        Some(i)
    } else {
        label_at_from(s, l, i + 1)
    }
}

/// The index of the first `Label(label)`, if there is one.
pub fn label_index(ops: &Vec<Instruction>, label: &String) -> (r: Option<usize>)
    ensures
        match label_at_from(ops_view(ops@), label@, 0) {
            Some(j) => r == Some(j as usize) && 0 <= j < ops@.len(),
            None => r is None,
        },
{
    let ghost s = ops_view(ops@);
    let mut i: usize = 0;
    while i < ops.len()
        invariant
            s == ops_view(ops@),
            i <= ops.len(),
            label_at_from(s, label@, i as int) == label_at_from(s, label@, 0),
        decreases ops.len() - i,
    {
        if let Instruction::Label(l) = &ops[i] {
            if *l == *label {
                return Some(i);
            }
        }
        i += 1;
    }
    None
}


// ---------------------------------------------------------------- jump skip recheck

/// The index of the target label of the conditional jump at `s[p]` where the
/// jump may skip the test after that label: the jump follows a compare of
/// `[r]` with zero, and the label is followed by the same compare and a jump
/// on the opposite condition, which then is never taken.
pub open spec fn recheck_skip(s: Seq<Op>, p: int) -> Option<int> {
    if 1 <= p < s.len() {
        match (s[p - 1], s[p]) {
            (Op::IsZeroPtr8(r), Op::JumpZero(l)) => match label_at_from(s, l, 0) {
                Some(li) => if 0 <= li && li + 2 < s.len() && s[li + 1] == Op::IsZeroPtr8(r)
                    && s[li + 2] is JumpNonZero {
                    Some(li)
                } else {
                    None
                },
                None => None,
            },
            (Op::IsZeroPtr8(r), Op::JumpNonZero(l)) => match label_at_from(s, l, 0) {
                Some(li) => if 0 <= li && li + 2 < s.len() && s[li + 1] == Op::IsZeroPtr8(r)
                    && s[li + 2] is JumpZero {
                    Some(li)
                } else {
                    None
                },
                None => None,
            },
            _ => None,
        }
    } else {
        None
    }
}

/// How many jumps before `s[p]` skip a recheck.
pub open spec fn skips_before(s: Seq<Op>, p: int) -> nat
    decreases p,
{
    if p <= 0 {
        0
    } else {
        skips_before(s, p - 1) + if recheck_skip(s, p - 1) is Some {
            1nat
        } else {
            0nat
        }
    }
}

/// The name of the `k`th label placed after a recheck.
pub open spec fn skip_label(k: nat) -> Seq<char> {
    ".jump_skip_recheck"@ + decimal_of(k)
}

/// `s[p]`, sent to its own label after the recheck where it skips one.
pub open spec fn retargeted(s: Seq<Op>, p: int) -> Op {
    match recheck_skip(s, p) {
        Some(_) => match s[p] {
            Op::JumpZero(_) => Op::JumpZero(skip_label(skips_before(s, p))),
            Op::JumpNonZero(_) => Op::JumpNonZero(skip_label(skips_before(s, p))),
            _ => s[p],
        },
        None => s[p],
    }
}

/// The labels placed right after `s[q]` for the jumps before `s[p]` that skip
/// the recheck ending at `s[q]`, the latest jump's label first.
pub open spec fn landing_labels(s: Seq<Op>, q: int, p: int) -> Seq<Op>
    decreases p,
{
    if p <= 0 {
        seq![]
    } else {
        (if recheck_skip(s, p - 1) == Some(q - 2) {
            seq![Op::Label(skip_label(skips_before(s, p - 1)))]
        } else {
            seq![]
        }) + landing_labels(s, q, p - 1)
    }
}

/// The first `n` instructions of `s` with jumps that skip a recheck retargeted,
/// and their labels placed after the rechecks.
pub open spec fn rechecks_skipped(s: Seq<Op>, n: int) -> Seq<Op>
    decreases n,
{
    if n <= 0 {
        seq![]
    } else {
        rechecks_skipped(s, n - 1) + seq![retargeted(s, n - 1)] + landing_labels(
            s,
            n - 1,
            s.len() as int,
        )
    }
}

fn recheck_skip_at(ops: &Vec<Instruction>, p: usize) -> (r: Option<usize>)
    ensures
        match recheck_skip(ops_view(ops@), p as int) {
            Some(li) => r == Some(li as usize),
            None => r is None,
        },
{
    if p == 0 || p >= ops.len() {
        return None;
    }
    if let Instruction::IsZeroPtr8(r) = &ops[p - 1] {
        let (label, zero) = match &ops[p] {
            Instruction::JumpZero(l) => (l, true),
            Instruction::JumpNonZero(l) => (l, false),
            _ => {
                return None;
            },
        };
        if let Some(li) = label_index(ops, label) {
            if ops.len() - li > 2 {
                let ok = match (&ops[li + 1], &ops[li + 2]) {
                    (Instruction::IsZeroPtr8(r1), Instruction::JumpNonZero(_)) => *r1 == *r && zero,
                    (Instruction::IsZeroPtr8(r1), Instruction::JumpZero(_)) => *r1 == *r && !zero,
                    _ => false,
                };
                if ok {
                    return Some(li);
                }
            }
        }
    }
    None
}

/// The name of the `k`th label placed after a recheck.
fn skip_label_name(k: u64) -> (r: String)
    ensures
        r@ == skip_label(k as nat),
{
    let mut name = String::new();
    push_str(&mut name, ".jump_skip_recheck");
    push_decimal(&mut name, k);
    assert(name@ =~= skip_label(k as nat));
    name
}

/// Sends a conditional jump whose target label is followed by a test that
/// cannot pass straight past that test.
pub fn optimize_jump_skip_recheck(ops: Vec<Instruction>) -> (r: Vec<Instruction>)
    ensures
        ops_view(r@) == rechecks_skipped(ops_view(ops@), ops@.len() as int),
{
    let ghost s = ops_view(ops@);
    let len = ops.len();
    let mut skips: Vec<Option<usize>> = Vec::new();
    let mut numbers: Vec<u64> = Vec::new();
    let mut count: u64 = 0;
    let mut p: usize = 0;
    while p < len
        invariant
            s == ops_view(ops@),
            len == ops.len(),
            p <= len,
            skips@.len() == p,
            numbers@.len() == p,
            count == skips_before(s, p as int),
            count <= p,
            forall|j: int|
                0 <= j < p ==> match recheck_skip(s, j) {
                    Some(li) => #[trigger] skips@[j] == Some(li as usize),
                    None => skips@[j] is None,
                },
            forall|j: int| 0 <= j < p ==> #[trigger] numbers@[j] == skips_before(s, j),
        decreases len - p,
    {
        let t = recheck_skip_at(&ops, p);
        skips.push(t);
        numbers.push(count);
        if t.is_some() {
            count += 1;
        }
        p += 1;
    }
    let mut result: Vec<Instruction> = Vec::new();
    let mut q: usize = 0;
    while q < len
        invariant
            s == ops_view(ops@),
            len == ops.len(),
            q <= len,
            skips@.len() == len,
            numbers@.len() == len,
            forall|j: int|
                0 <= j < len ==> match recheck_skip(s, j) {
                    Some(li) => #[trigger] skips@[j] == Some(li as usize),
                    None => skips@[j] is None,
                },
            forall|j: int| 0 <= j < len ==> #[trigger] numbers@[j] == skips_before(s, j),
            ops_view(result@) == rechecks_skipped(s, q as int),
        decreases len - q,
    {
        let ghost before = ops_view(result@);
        let op = match (&ops[q], skips[q]) {
            (Instruction::JumpZero(_), Some(_)) => Instruction::JumpZero(skip_label_name(numbers[q])),
            (Instruction::JumpNonZero(_), Some(_)) => Instruction::JumpNonZero(
                skip_label_name(numbers[q]),
            ),
            _ => ops[q].clone(),
        };
        proof {
            lemma_ops_view_push(result@, op);
        }
        result.push(op);
        let ghost mid = ops_view(result@);
        let mut p = len;
        while p > 0
            invariant
                s == ops_view(ops@),
                len == ops.len(),
                q < len,
                p <= len,
                skips@.len() == len,
                numbers@.len() == len,
                forall|j: int|
                    0 <= j < len ==> match recheck_skip(s, j) {
                        Some(li) => #[trigger] skips@[j] == Some(li as usize),
                        None => skips@[j] is None,
                    },
                forall|j: int| 0 <= j < len ==> #[trigger] numbers@[j] == skips_before(s, j),
                ops_view(result@) + landing_labels(s, q as int, p as int) == mid + landing_labels(
                    s,
                    q as int,
                    len as int,
                ),
            decreases p,
        {
            let ghost at = ops_view(result@);
            let hit = match skips[p - 1] {
                Some(li) => q >= 2 && li == q - 2,
                None => false,
            };
            if hit {
                let l = Instruction::Label(skip_label_name(numbers[p - 1]));
                proof {
                    lemma_ops_view_push(result@, l);
                }
                result.push(l);
            }
            p -= 1;
            assert(ops_view(result@) + landing_labels(s, q as int, p as int) =~= at
                + landing_labels(s, q as int, p + 1));
        }
        assert(ops_view(result@) =~= ops_view(result@) + landing_labels(s, q as int, 0));
        q += 1;
        assert(ops_view(result@) =~= rechecks_skipped(s, q as int));
    }
    result
}

// ---------------------------------------------------------------- data

/// The first `n` instructions of `s` that are not data.
pub open spec fn code_part(s: Seq<Op>, n: int) -> Seq<Op>
    decreases n,
{
    if n <= 0 {
        seq![]
    } else if s[n - 1] is Data {
        code_part(s, n - 1)
    } else {
        code_part(s, n - 1).push(s[n - 1])
    }
}

/// The data among the first `n` instructions of `s`.
pub open spec fn data_part(s: Seq<Op>, n: int) -> Seq<Op>
    decreases n,
{
    if n <= 0 {
        seq![]
    } else if s[n - 1] is Data {
        data_part(s, n - 1).push(s[n - 1])
    } else {
        data_part(s, n - 1)
    }
}

/// Whether `a` comes before `b`, element by element, a proper prefix first.
pub open spec fn lex_lt(a: Seq<int>, b: Seq<int>) -> bool
    decreases a.len(),
{
    if a.len() == 0 {
        b.len() > 0
    } else if b.len() == 0 {
        false
    } else if a[0] < b[0] {
        true
    } else if a[0] > b[0] {
        false
    } else {
        lex_lt(a.skip(1), b.skip(1))
    }
}

/// The characters of a name as numbers.
pub open spec fn name_key(n: Seq<char>) -> Seq<int> {
    n.map_values(|c: char| c as int)
}

/// The bytes of a blob as numbers.
pub open spec fn bytes_key(d: Seq<u8>) -> Seq<int> {
    d.map_values(|b: u8| b as int)
}

/// Whether data item `a` comes before data item `b`: by name, then by bytes.
pub open spec fn data_lt(a: Op, b: Op) -> bool {
    match (a, b) {
        (Op::Data(n1, d1), Op::Data(n2, d2)) => lex_lt(name_key(n1), name_key(n2)) || (name_key(n1)
            == name_key(n2) && lex_lt(bytes_key(d1), bytes_key(d2))),
        _ => false,
    }
}

/// Where `x` goes in `d` from `p` on: before the first item it comes before.
pub open spec fn insert_pos(d: Seq<Op>, x: Op, p: int) -> int
    decreases d.len() - p,
{
    if p < 0 || p >= d.len() || data_lt(x, d[p]) {
        p
    } else {
        insert_pos(d, x, p + 1)
    }
}

/// `s` sorted by `data_lt`, each item placed after the items it does not come before.
pub open spec fn sort_ops(s: Seq<Op>) -> Seq<Op>
    decreases s.len(),
{
    if s.len() == 0 {
        seq![]
    } else {
        let d = sort_ops(s.drop_last());
        d.insert(insert_pos(d, s.last(), 0), s.last())
    }
}

/// Whether no later item of `d` comes before an earlier one.
pub open spec fn data_sorted(d: Seq<Op>) -> bool {
    forall|i: int, j: int| 0 <= i < j < d.len() ==> !data_lt(#[trigger] d[j], #[trigger] d[i])
}

pub proof fn lemma_lex_lt_facts(a: Seq<int>, b: Seq<int>, c: Seq<int>)
    ensures
        lex_lt(a, b) ==> !lex_lt(b, a),
        lex_lt(a, b) || lex_lt(b, a) || a == b,
        lex_lt(a, b) && lex_lt(b, c) ==> lex_lt(a, c),
    decreases a.len(),
{
    if a.len() > 0 && b.len() > 0 {
        lemma_lex_lt_facts(a.skip(1), b.skip(1), c.skip(1));
        if a[0] == b[0] && !lex_lt(a.skip(1), b.skip(1)) && !lex_lt(b.skip(1), a.skip(1)) {
            assert(a =~= seq![a[0]] + a.skip(1));
            assert(b =~= seq![b[0]] + b.skip(1));
        }
        if c.len() > 0 && a[0] == b[0] && b[0] == c[0] {
            lemma_lex_lt_facts(a.skip(1), b.skip(1), c.skip(1));
        }
    } else if a.len() == 0 && b.len() == 0 {
        assert(a =~= b);
    }
}

pub proof fn lemma_data_lt_facts(a: Op, b: Op, c: Op)
    requires
        a is Data,
        b is Data,
        c is Data,
    ensures
        data_lt(a, b) ==> !data_lt(b, a),
        data_lt(a, b) && data_lt(b, c) ==> data_lt(a, c),
        !data_lt(a, b) && !data_lt(b, a) ==> !data_lt(a, c) || data_lt(b, c),
{
    match (a, b, c) {
        (Op::Data(n1, d1), Op::Data(n2, d2), Op::Data(n3, d3)) => {
            lemma_lex_lt_facts(name_key(n1), name_key(n2), name_key(n3));
            lemma_lex_lt_facts(name_key(n2), name_key(n1), name_key(n3));
            lemma_lex_lt_facts(name_key(n1), name_key(n3), name_key(n2));
            lemma_lex_lt_facts(name_key(n2), name_key(n3), name_key(n1));
            lemma_lex_lt_facts(name_key(n3), name_key(n1), name_key(n2));
            lemma_lex_lt_facts(bytes_key(d1), bytes_key(d2), bytes_key(d3));
            lemma_lex_lt_facts(bytes_key(d2), bytes_key(d1), bytes_key(d3));
            lemma_lex_lt_facts(bytes_key(d1), bytes_key(d3), bytes_key(d2));
            lemma_lex_lt_facts(bytes_key(d2), bytes_key(d3), bytes_key(d1));
            lemma_lex_lt_facts(bytes_key(d3), bytes_key(d1), bytes_key(d2));
        },
        _ => {},
    }
}

pub proof fn lemma_insert_pos(d: Seq<Op>, x: Op, p: int)
    requires
        0 <= p <= d.len(),
    ensures
        p <= insert_pos(d, x, p) <= d.len(),
        forall|q: int| p <= q < insert_pos(d, x, p) ==> !data_lt(x, #[trigger] d[q]),
        insert_pos(d, x, p) < d.len() ==> data_lt(x, d[insert_pos(d, x, p)]),
    decreases d.len() - p,
{
    if p < d.len() && !data_lt(x, d[p]) {
        lemma_insert_pos(d, x, p + 1);
    }
}

/// Sorting data keeps the items and puts them in order: the result is a
/// permutation of its input in which no item comes before an earlier one.
pub proof fn sorted_data_is_ordered(s: Seq<Op>)
    requires
        forall|i: int| 0 <= i < s.len() ==> #[trigger] s[i] is Data,
    ensures
        data_sorted(sort_ops(s)),
        sort_ops(s).to_multiset() == s.to_multiset(),
        forall|i: int| 0 <= i < sort_ops(s).len() ==> #[trigger] sort_ops(s)[i] is Data,
    decreases s.len(),
{
    broadcast use vstd::seq_lib::group_to_multiset_ensures;

    if s.len() == 0 {
        assert(sort_ops(s).to_multiset() =~= s.to_multiset());
    } else {
        let t = s.drop_last();
        assert forall|i: int| 0 <= i < t.len() implies #[trigger] t[i] is Data by {
            assert(t[i] == s[i]);
        }
        sorted_data_is_ordered(t);
        let d = sort_ops(t);
        let x = s.last();
        let p = insert_pos(d, x, 0);
        lemma_insert_pos(d, x, 0);
        let r = d.insert(p, x);
        assert(r == sort_ops(s));
        vstd::seq_lib::to_multiset_insert(d, p, x);
        vstd::seq_lib::to_multiset_build(t, x);
        assert(t.push(x) =~= s);
        assert forall|i: int| 0 <= i < r.len() implies #[trigger] r[i] is Data by {
            if i < p {
                assert(r[i] == d[i]);
            } else if i > p {
                assert(r[i] == d[i - 1]);
            }
        }
        assert forall|i: int, j: int| 0 <= i < j < r.len() implies !data_lt(
            #[trigger] r[j],
            #[trigger] r[i],
        ) by {
            if j < p {
                assert(r[i] == d[i] && r[j] == d[j]);
            } else if i > p {
                assert(r[i] == d[i - 1] && r[j] == d[j - 1]);
            } else if i < p && j > p {
                assert(r[i] == d[i] && r[j] == d[j - 1]);
                assert(!data_lt(x, d[i]));
                assert(!data_lt(d[j - 1], d[i]));
                lemma_data_lt_facts(d[i], x, d[j - 1]);
                lemma_data_lt_facts(x, d[i], d[j - 1]);
                lemma_data_lt_facts(d[j - 1], x, d[i]);
                if p < d.len() {
                    assert(data_lt(x, d[p]));
                    lemma_data_lt_facts(x, d[p], d[j - 1]);
                    lemma_data_lt_facts(d[j - 1], d[p], x);
                }
            } else if i == p {
                assert(r[j] == d[j - 1]);
                assert(data_lt(x, d[p]));
                if j - 1 > p {
                    assert(!data_lt(d[j - 1], d[p]));
                    lemma_data_lt_facts(x, d[p], d[j - 1]);
                    lemma_data_lt_facts(d[j - 1], d[p], x);
                    lemma_data_lt_facts(d[p], d[j - 1], x);
                    lemma_data_lt_facts(d[j - 1], x, d[p]);
                } else {
                    lemma_data_lt_facts(x, d[p], d[p]);
                }
            } else {
                assert(j == p);
                assert(r[i] == d[i]);
                assert(!data_lt(x, d[i]));
            }
        }
    }
}

/// Compares two names character by character: -1, 0 or 1.
fn compare_names(a: &String, b: &String) -> (r: i8)
    ensures
        r == -1 <==> lex_lt(name_key(a@), name_key(b@)),
        r == 0 <==> name_key(a@) == name_key(b@),
        r == 1 <==> lex_lt(name_key(b@), name_key(a@)),
{
    let ghost ka = name_key(a@);
    let ghost kb = name_key(b@);
    let la = a.as_str().unicode_len();
    let lb = b.as_str().unicode_len();
    let mut i: usize = 0;
    proof {
        lemma_lex_lt_facts(ka, kb, kb);
        assert(ka.skip(0) =~= ka);
        assert(kb.skip(0) =~= kb);
    }
    while i < la && i < lb
        invariant
            la == a@.len(),
            lb == b@.len(),
            i <= la,
            i <= lb,
            ka == name_key(a@),
            kb == name_key(b@),
            ka.take(i as int) == kb.take(i as int),
            lex_lt(ka, kb) == lex_lt(ka.skip(i as int), kb.skip(i as int)),
            lex_lt(kb, ka) == lex_lt(kb.skip(i as int), ka.skip(i as int)),
        decreases la - i,
    {
        let ca = a.as_str().get_char(i);
        let cb = b.as_str().get_char(i);
        assert(ka.skip(i as int)[0] == ca as int);
        assert(kb.skip(i as int)[0] == cb as int);
        if (ca as u32) < (cb as u32) {
            proof {
                lemma_lex_lt_facts(ka, kb, kb);
            }
            return -1;
        }
        if (ca as u32) > (cb as u32) {
            proof {
                lemma_lex_lt_facts(ka, kb, kb);
            }
            return 1;
        }
        assert(ka.skip(i as int).skip(1) =~= ka.skip(i + 1));
        assert(kb.skip(i as int).skip(1) =~= kb.skip(i + 1));
        assert(ka.take(i + 1) =~= ka.take(i as int).push(ka[i as int]));
        assert(kb.take(i + 1) =~= kb.take(i as int).push(kb[i as int]));
        i += 1;
    }
    proof {
        lemma_lex_lt_facts(ka, kb, kb);
        if la == lb {
            assert(ka =~= ka.take(i as int));
            assert(kb =~= kb.take(i as int));
        }
    }
    if la < lb {
        -1
    } else if la > lb {
        1
    } else {
        0
    }
}

/// Whether bytes `a` come before bytes `b`.
fn bytes_before(a: &Vec<u8>, b: &Vec<u8>) -> (r: bool)
    ensures
        r == lex_lt(bytes_key(a@), bytes_key(b@)),
{
    let ghost ka = bytes_key(a@);
    let ghost kb = bytes_key(b@);
    let mut i: usize = 0;
    proof {
        assert(ka.skip(0) =~= ka);
        assert(kb.skip(0) =~= kb);
    }
    while i < a.len() && i < b.len()
        invariant
            i <= a.len(),
            i <= b.len(),
            ka == bytes_key(a@),
            kb == bytes_key(b@),
            lex_lt(ka, kb) == lex_lt(ka.skip(i as int), kb.skip(i as int)),
        decreases a.len() - i,
    {
        assert(ka.skip(i as int)[0] == a[i as int] as int);
        assert(kb.skip(i as int)[0] == b[i as int] as int);
        if a[i] < b[i] {
            return true;
        }
        if a[i] > b[i] {
            return false;
        }
        assert(ka.skip(i as int).skip(1) =~= ka.skip(i + 1));
        assert(kb.skip(i as int).skip(1) =~= kb.skip(i + 1));
        i += 1;
    }
    i < b.len()
}

/// Whether data item `a` comes before data item `b` (see `data_lt`).
fn data_before(a: &Instruction, b: &Instruction) -> (r: bool)
    ensures
        r == data_lt(a@, b@),
{
    match (a, b) {
        (Instruction::Data(n1, d1), Instruction::Data(n2, d2)) => {
            let c = compare_names(n1, n2);
            c == -1 || (c == 0 && bytes_before(d1, d2))
        },
        _ => false,
    }
}

/// Sorts data items by name, then by bytes (see `sort_ops`).
pub fn sort_data(v: &Vec<Instruction>) -> (r: Vec<Instruction>)
    ensures
        ops_view(r@) == sort_ops(ops_view(v@)),
{
    let ghost s = ops_view(v@);
    let mut result: Vec<Instruction> = Vec::new();
    let mut i: usize = 0;
    assert(s.take(0) =~= seq![]);
    while i < v.len()
        invariant
            s == ops_view(v@),
            i <= v.len(),
            ops_view(result@) == sort_ops(s.take(i as int)),
        decreases v.len() - i,
    {
        let ghost d = ops_view(result@);
        let x = v[i].clone();
        let mut p: usize = 0;
        while p < result.len() && !data_before(&x, &result[p])
            invariant
                p <= result.len(),
                d == ops_view(result@),
                insert_pos(d, x@, p as int) == insert_pos(d, x@, 0),
            decreases result.len() - p,
        {
            p += 1;
        }
        let ghost xv = x@;
        result.insert(p, x);
        assert(ops_view(result@) =~= d.insert(p as int, xv));
        assert(s.take(i + 1).drop_last() =~= s.take(i as int));
        assert(s.take(i + 1).last() == xv);
        i += 1;
    }
    assert(s.take(i as int) =~= s);
    result
}

/// Splits instructions into code, in its order, and data, sorted by name and
/// then by bytes.
pub fn separate_data(ops: Vec<Instruction>) -> (r: (Vec<Instruction>, Vec<Instruction>))
    ensures
        ops_view(r.0@) == code_part(ops_view(ops@), ops@.len() as int),
        ops_view(r.1@) == sort_ops(data_part(ops_view(ops@), ops@.len() as int)),
        data_sorted(ops_view(r.1@)),
        ops_view(r.1@).to_multiset() == data_part(ops_view(ops@), ops@.len() as int).to_multiset(),
{
    let ghost s = ops_view(ops@);
    let mut code: Vec<Instruction> = Vec::new();
    let mut data: Vec<Instruction> = Vec::new();
    let mut index: usize = 0;
    while index < ops.len()
        invariant
            s == ops_view(ops@),
            index <= ops.len(),
            ops_view(code@) == code_part(s, index as int),
            ops_view(data@) == data_part(s, index as int),
        decreases ops.len() - index,
    {
        if let Instruction::Data(_, _) = &ops[index] {
            push_copy(&mut data, &ops[index]);
        } else {
            push_copy(&mut code, &ops[index]);
        }
        index += 1;
    }
    proof {
        lemma_data_part_is_data(s, s.len() as int);
        sorted_data_is_ordered(data_part(s, s.len() as int));
    }
    (code, sort_data(&data))
}

pub proof fn lemma_data_part_is_data(s: Seq<Op>, n: int)
    requires
        n <= s.len(),
    ensures
        forall|i: int| 0 <= i < data_part(s, n).len() ==> #[trigger] data_part(s, n)[i] is Data,
    decreases n,
{
    if n > 0 {
        lemma_data_part_is_data(s, n - 1);
        let p = data_part(s, n - 1);
        assert forall|i: int| 0 <= i < data_part(s, n).len() implies #[trigger] data_part(s, n)[i] is Data by {
            if i < p.len() {
                assert(data_part(s, n)[i] == p[i]);
            }
        }
    }
}

/// The code of `s`, then its data, sorted.
pub open spec fn data_at_end(s: Seq<Op>) -> Seq<Op> {
    code_part(s, s.len() as int) + sort_ops(data_part(s, s.len() as int))
}

/// Moves the data after the code.
pub fn move_data_to_end(ops: Vec<Instruction>) -> (r: Vec<Instruction>)
    ensures
        ops_view(r@) == data_at_end(ops_view(ops@)),
{
    let (mut code, mut data) = separate_data(ops);
    proof {
        lemma_ops_view_add(code@, data@);
    }
    code.append(&mut data);
    code
}


// ---------------------------------------------------------------- scheduler

/// The passes the scheduler can run.
#[derive(Debug, Clone, Copy, PartialEq, Eq, Structural)]
pub enum PassFn {
    RemoveUnusedLabels,
    StartCells,
    ZeroLoop,
    ZeroFlags,
    RemoveNops,
    Adjacent,
    AdjacentMemMovs,
    ConstantOutput,
    DeadJumps,
    JumpSkipRecheck,
    RemoveDeadCode,
    Exit,
    RedundantMovs,
}

/// What a pass does to a sequence of instructions.
pub open spec fn apply_pass(f: PassFn, s: Seq<Op>) -> Seq<Op> {
    match f {
        PassFn::RemoveUnusedLabels => used_labels_only(s, s.len() as int),
        PassFn::StartCells => start_cells_from(s, 0),
        PassFn::ZeroLoop => zero_loops_from(s, 0),
        PassFn::ZeroFlags => needed_compares(s, s.len() as int),
        PassFn::RemoveNops => effective(s, s.len() as int),
        PassFn::Adjacent => adjacent(s, s.len() as int),
        PassFn::AdjacentMemMovs => packed_from(s, 0),
        PassFn::ConstantOutput => constant_outputs(s),
        PassFn::DeadJumps => live_jumps(s, s.len() as int),
        PassFn::JumpSkipRecheck => rechecks_skipped(s, s.len() as int),
        PassFn::RemoveDeadCode => live_code_from(s, 0),
        PassFn::Exit => live_before_exit(s, s.len() as int),
        PassFn::RedundantMovs => needed_movs(s, s.len() as int),
    }
}

/// Runs one pass.
pub fn run_pass(f: PassFn, ops: Vec<Instruction>) -> (r: Vec<Instruction>)
    ensures
        ops_view(r@) == apply_pass(f, ops_view(ops@)),
{
    match f {
        PassFn::RemoveUnusedLabels => optimize_remove_unused_labels(ops),
        PassFn::StartCells => optimize_start_cells(ops),
        PassFn::ZeroLoop => optimize_zero_loop(ops),
        PassFn::ZeroFlags => optimize_zero_flags(ops),
        PassFn::RemoveNops => optimize_remove_nops(ops),
        PassFn::Adjacent => optimize_adjacent(ops),
        PassFn::AdjacentMemMovs => optimize_adjancent_mem_movs(ops),
        PassFn::ConstantOutput => optimize_constant_output(ops),
        PassFn::DeadJumps => optimize_dead_jumps(ops),
        PassFn::JumpSkipRecheck => optimize_jump_skip_recheck(ops),
        PassFn::RemoveDeadCode => optimize_remove_dead_code(ops),
        PassFn::Exit => optimize_exit(ops),
        PassFn::RedundantMovs => optimize_redundant_movs(ops),
    }
}

/// The index of a registered pass.
#[derive(Debug, Clone, Copy, PartialEq, Eq, Structural)]
pub struct PassId(pub usize);

/// A named pass and the passes to run right after it.
#[derive(Debug)]
pub struct Pass {
    /// Name of the pass
    name: String,
    /// What it does
    function: PassFn,
    /// Passes to run right after this one
    cleanup: Vec<PassId>,
}

/// The mathematical value of a `Pass`.
pub struct PassView {
    pub name: Seq<char>,
    pub function: PassFn,
    pub cleanup: Seq<usize>,
}

impl View for Pass {
    type V = PassView;

    closed spec fn view(&self) -> PassView {
        PassView {
            name: self.name@,
            function: self.function,
            cleanup: Seq::new(self.cleanup@.len(), |i: int| self.cleanup@[i].0),
        }
    }
}

impl Pass {
    /// A pass with its cleanups.
    pub fn new(name: &str, function: PassFn, cleanup: Vec<PassId>) -> (r: Self)
        ensures
            r@.name == name@,
            r@.function == function,
            r@.cleanup == Seq::new(cleanup@.len(), |i: int| cleanup@[i].0),
    {
        Pass { name: owned(name), function, cleanup }
    }

    /// The name of the pass.
    pub fn name(&self) -> (r: &String)
        ensures
            r@ == self@.name,
    {
        &self.name
    }
}

impl Clone for Pass {
    fn clone(&self) -> (r: Self)
        ensures
            r@ == self@,
    {
        let r = Pass { name: self.name.clone(), function: self.function, cleanup: self.cleanup.clone() };
        assert(r@.cleanup =~= self@.cleanup);
        r
    }
}

/// The registry of passes, indexed by `PassId`.
#[derive(Debug)]
pub struct Optimizer {
    /// Passes
    passes: Vec<Pass>,
}

/// The views of a sequence of passes.
pub open spec fn passes_view(v: Seq<Pass>) -> Seq<PassView> {
    Seq::new(v.len(), |i: int| v[i]@)
}

/// Names are distinct, and each pass's cleanups were registered before it.
pub open spec fn registry_wf(p: Seq<PassView>) -> bool {
    &&& forall|i: int, j: int| 0 <= i < j < p.len() ==> p[i].name != p[j].name
    &&& forall|i: int, k: int|
        0 <= i < p.len() && 0 <= k < p[i].cleanup.len() ==> #[trigger] p[i].cleanup[k] < i
}

/// The number of pass runs that a run of pass `id` can lead to, itself included.
pub open spec fn cost(p: Seq<PassView>, id: int) -> nat
    decreases id, if 0 <= id < p.len() {
        p[id].cleanup.len() + 1
    } else {
        0
    },
{
    if 0 <= id < p.len() {
        1 + cost_list(p, p[id].cleanup, id)
    } else {
        1
    }
}

/// The summed cost of the cleanups `cl` below `bound`.
pub open spec fn cost_list(p: Seq<PassView>, cl: Seq<usize>, bound: int) -> nat
    decreases bound, cl.len(),
{
    if cl.len() == 0 {
        0
    } else {
        cost_list(p, cl.drop_last(), bound) + if 0 <= cl.last() < bound {
            cost(p, cl.last() as int)
        } else {
            0
        }
    }
}

/// The summed cost of the passes waiting in a queue.
pub open spec fn queue_cost(p: Seq<PassView>, q: Seq<usize>) -> nat
    decreases q.len(),
{
    if q.len() == 0 {
        0
    } else {
        queue_cost(p, q.drop_last()) + cost(p, q.last() as int)
    }
}

/// The queue after the cleanups `cl` are pushed, each unless it is already on top.
pub open spec fn push_cleanups(q: Seq<usize>, cl: Seq<usize>) -> Seq<usize>
    decreases cl.len(),
{
    if cl.len() == 0 {
        q
    } else {
        let q1 = push_cleanups(q, cl.drop_last());
        if q1.len() > 0 && q1.last() == cl.last() {
            q1
        } else {
            q1.push(cl.last())
        }
    }
}

/// The instructions after the scheduler runs from queue `q` with at most `fuel`
/// pass runs: it pops a pass, runs it, moves the data to the end and pushes
/// the pass's cleanups.
pub open spec fn scheduled(p: Seq<PassView>, q: Seq<usize>, s: Seq<Op>, fuel: nat) -> Seq<Op>
    decreases fuel,
{
    if fuel == 0 || q.len() == 0 || q.last() >= p.len() {
        s
    } else {
        let id = q.last() as int;
        scheduled(
            p,
            push_cleanups(q.drop_last(), p[id].cleanup),
            data_at_end(apply_pass(p[id].function, s)),
            (fuel - 1) as nat,
        )
    }
}

/// The queue the scheduler starts from: every pass, the first on top.
pub open spec fn initial_queue(n: nat) -> Seq<usize> {
    Seq::new(n, |i: int| (n - 1 - i) as usize)
}

pub proof fn lemma_push_cleanups_cost(p: Seq<PassView>, q: Seq<usize>, cl: Seq<usize>, bound: int)
    requires
        forall|k: int| 0 <= k < cl.len() ==> #[trigger] cl[k] < bound,
    ensures
        queue_cost(p, push_cleanups(q, cl)) <= queue_cost(p, q) + cost_list(p, cl, bound),
        forall|k: int|
            0 <= k < push_cleanups(q, cl).len() ==> #[trigger] push_cleanups(q, cl)[k] < p.len()
                || (k < q.len() && push_cleanups(q, cl)[k] == q[k]) || push_cleanups(q, cl)[k]
                < bound,
    decreases cl.len(),
{
    if cl.len() > 0 {
        assert forall|k: int| 0 <= k < cl.drop_last().len() implies #[trigger] cl.drop_last()[k]
            < bound by {
            assert(cl.drop_last()[k] == cl[k]);
        }
        lemma_push_cleanups_cost(p, q, cl.drop_last(), bound);
        let q1 = push_cleanups(q, cl.drop_last());
        if !(q1.len() > 0 && q1.last() == cl.last()) {
            assert(q1.push(cl.last()).drop_last() =~= q1);
        }
    }
}

pub proof fn lemma_cost_pos(p: Seq<PassView>, id: int)
    ensures
        cost(p, id) >= 1,
{
}

impl Optimizer {
    /// The registered passes.
    pub closed spec fn passes(&self) -> Seq<PassView> {
        passes_view(self.passes@)
    }

    /// An empty registry.
    pub fn new() -> (r: Self)
        ensures
            r.passes() == Seq::<PassView>::empty(),
    {
        let r = Optimizer { passes: Vec::new() };
        assert(r.passes() =~= Seq::<PassView>::empty());
        r
    }

    /// Registers a pass under a new name; its cleanups must be registered already.
    pub fn add_pass(&mut self, pass: Pass) -> (r: PassId)
        requires
            registry_wf(old(self).passes()),
            forall|i: int| 0 <= i < old(self).passes().len() ==> old(self).passes()[i].name
                != pass@.name,
            forall|k: int| 0 <= k < pass@.cleanup.len() ==> #[trigger] pass@.cleanup[k] < old(
                self,
            ).passes().len(),
        ensures
            final(self).passes() == old(self).passes().push(pass@),
            registry_wf(final(self).passes()),
            r.0 == old(self).passes().len(),
    {
        let ghost v = pass@;
        self.passes.push(pass);
        assert(self.passes() =~= old(self).passes().push(v));
        PassId(self.passes.len() - 1)
    }

    /// The id of the pass named `name`, which is registered.
    pub fn get_id(&self, name: &str) -> (r: PassId)
        requires
            exists|i: int| 0 <= i < self.passes().len() && #[trigger] self.passes()[i].name == name@,
        ensures
            r.0 < self.passes().len(),
            self.passes()[r.0 as int].name == name@,
    {
        let n = owned(name);
        let mut i: usize = 0;
        while i < self.passes.len()
            invariant
                i <= self.passes.len(),
                n@ == name@,
                forall|j: int| 0 <= j < i ==> self.passes()[j].name != name@,
                exists|j: int| 0 <= j < self.passes().len() && #[trigger] self.passes()[j].name
                    == name@,
            decreases self.passes.len() - i,
        {
            if self.passes[i].name == n {
                return PassId(i);
            }
            i += 1;
        }
        proof {
            let j = choose|j: int| 0 <= j < self.passes().len() && #[trigger] self.passes()[j].name
                == name@;
            assert(self.passes()[j].name != name@);
        }
        PassId(0)
    }

    /// A copy of pass `id`.
    pub fn get(&self, id: PassId) -> (r: Pass)
        requires
            id.0 < self.passes().len(),
        ensures
            r@ == self.passes()[id.0 as int],
    {
        self.passes[id.0].clone()
    }

    /// Runs every pass, the first registered first, each followed by moving
    /// the data to the end and by its cleanups; returns the instructions and
    /// the number of pass runs, which the registry bounds whatever the program.
    pub fn run(&self, ops: Vec<Instruction>) -> (r: (Vec<Instruction>, usize))
        requires
            registry_wf(self.passes()),
        ensures
            ops_view(r.0@) == scheduled(
                self.passes(),
                initial_queue(self.passes().len()),
                ops_view(ops@),
                queue_cost(self.passes(), initial_queue(self.passes().len())),
            ),
            r.1 <= queue_cost(self.passes(), initial_queue(self.passes().len())),
    {
        let ghost p = self.passes();
        let ghost q0 = initial_queue(p.len());
        let ghost fuel0 = queue_cost(p, q0);
        let ghost s0 = ops_view(ops@);
        let n = self.passes.len();
        let mut queue: Vec<usize> = Vec::new();
        let mut i: usize = 0;
        while i < n
            invariant
                i <= n,
                n == p.len(),
                queue@ == Seq::new(i as nat, |k: int| (n - 1 - k) as usize),
            decreases n - i,
        {
            queue.push(n - 1 - i);
            i += 1;
            assert(queue@ =~= Seq::new(i as nat, |k: int| (n - 1 - k) as usize));
        }
        let mut ops = ops;
        let mut count: usize = 0;
        let ghost mut fuel: nat = fuel0;
        loop
            invariant
                p == self.passes(),
                registry_wf(p),
                forall|k: int| 0 <= k < queue@.len() ==> #[trigger] queue@[k] < p.len(),
                queue_cost(p, queue@) <= fuel,
                count + fuel <= fuel0,
                scheduled(p, queue@, ops_view(ops@), fuel) == scheduled(p, q0, s0, fuel0),
            ensures
                ops_view(ops@) == scheduled(p, q0, s0, fuel0),
                count <= fuel0,
            decreases fuel,
        {
            let id = match queue.pop() {
                Some(id) => id,
                None => {
                    break ;
                },
            };
            let ghost q1 = queue@;
            proof {
                lemma_cost_pos(p, id as int);
                assert(q1 =~= q1.push(id).drop_last());
            }
            let pass = &self.passes[id];
            ops = run_pass(pass.function, ops);
            ops = move_data_to_end(ops);
            let mut k: usize = 0;
            while k < pass.cleanup.len()
                invariant
                    k <= pass.cleanup.len(),
                    p == self.passes(),
                    registry_wf(p),
                    id < p.len(),
                    pass@ == p[id as int],
                    queue@ == push_cleanups(q1, p[id as int].cleanup.take(k as int)),
                    forall|j: int| 0 <= j < queue@.len() ==> #[trigger] queue@[j] < p.len(),
                decreases pass.cleanup.len() - k,
            {
                let c = pass.cleanup[k].0;
                assert(p[id as int].cleanup.take(k + 1).drop_last() =~= p[id as int].cleanup.take(
                    k as int,
                ));
                assert(p[id as int].cleanup[k as int] == c);
                assert(c < id);
                let top = queue.len();
                if top == 0 || queue[top - 1] != c {
                    queue.push(c);
                }
                k += 1;
            }
            proof {
                let cl = p[id as int].cleanup;
                assert(cl.take(cl.len() as int) =~= cl);
                assert forall|j: int| 0 <= j < cl.len() implies #[trigger] cl[j] < id by {}
                lemma_push_cleanups_cost(p, q1, cl, id as int);
                assert(queue_cost(p, q1.push(id)) == queue_cost(p, q1) + cost(p, id as int));
                fuel = (fuel - 1) as nat;
            }
            if count < usize::MAX {
                count += 1;
            }
        }
        (ops, count)
    }
}


/// The passes of the compiler with their cleanups, in the order they first run.
pub open spec fn default_passes() -> Seq<PassView> {
    seq![
        PassView { name: "remove_unused_labels"@, function: PassFn::RemoveUnusedLabels, cleanup: seq![] },
        PassView { name: "start_cells"@, function: PassFn::StartCells, cleanup: seq![0usize] },
        PassView { name: "zero_loop"@, function: PassFn::ZeroLoop, cleanup: seq![] },
        PassView { name: "zero_flags"@, function: PassFn::ZeroFlags, cleanup: seq![0usize] },
        PassView { name: "remove_nops"@, function: PassFn::RemoveNops, cleanup: seq![0usize] },
        PassView { name: "adjacent"@, function: PassFn::Adjacent, cleanup: seq![4usize] },
        PassView { name: "adjacent_mem_movs"@, function: PassFn::AdjacentMemMovs, cleanup: seq![4usize, 2usize, 5usize] },
        PassView { name: "constant_output"@, function: PassFn::ConstantOutput, cleanup: seq![] },
        PassView { name: "dead_jumps"@, function: PassFn::DeadJumps, cleanup: seq![0usize, 4usize] },
        PassView { name: "jump_skip_recheck"@, function: PassFn::JumpSkipRecheck, cleanup: seq![0usize, 8usize] },
        PassView { name: "remove_dead_code"@, function: PassFn::RemoveDeadCode, cleanup: seq![0usize, 4usize] },
        PassView { name: "exit"@, function: PassFn::Exit, cleanup: seq![0usize, 8usize, 3usize, 4usize] },
    ]
}

pub proof fn lemma_default_passes_wf()
    ensures
        registry_wf(default_passes()),
{
    reveal_strlit("remove_unused_labels");
    reveal_strlit("start_cells");
    reveal_strlit("zero_loop");
    reveal_strlit("zero_flags");
    reveal_strlit("remove_nops");
    reveal_strlit("adjacent");
    reveal_strlit("adjacent_mem_movs");
    reveal_strlit("constant_output");
    reveal_strlit("dead_jumps");
    reveal_strlit("jump_skip_recheck");
    reveal_strlit("remove_dead_code");
    reveal_strlit("exit");
    let d = default_passes();
    assert forall|i: int, j: int| 0 <= i < j < d.len() implies d[i].name != d[j].name by {
        assert(0 <= i < 12 && 0 <= j < 12);
        assert(d[i].name.len() != d[j].name.len() || d[i].name[0] != d[j].name[0]) by {
            assert(i == 0 || i == 1 || i == 2 || i == 3 || i == 4 || i == 5 || i == 6 || i == 7
                || i == 8 || i == 9 || i == 10 || i == 11);
            assert(j == 0 || j == 1 || j == 2 || j == 3 || j == 4 || j == 5 || j == 6 || j == 7
                || j == 8 || j == 9 || j == 10 || j == 11);
        }
    }
    assert forall|i: int, k: int| 0 <= i < d.len() && 0 <= k < d[i].cleanup.len() implies
        #[trigger] d[i].cleanup[k] < i by {
        assert(i == 0 || i == 1 || i == 2 || i == 3 || i == 4 || i == 5 || i == 6 || i == 7 || i
            == 8 || i == 9 || i == 10 || i == 11);
    }
}

/// The instructions after the compiler's passes ran to completion.
pub open spec fn optimized(s: Seq<Op>) -> Seq<Op> {
    scheduled(default_passes(), initial_queue(12), s, queue_cost(default_passes(), initial_queue(12)))
}

fn add_default(optimizer: &mut Optimizer, k: usize, name: &str, function: PassFn, cleanup: Vec<PassId>)
    requires
        k < 12,
        old(optimizer).passes() == default_passes().take(k as int),
        name@ == default_passes()[k as int].name,
        function == default_passes()[k as int].function,
        Seq::new(cleanup@.len(), |i: int| cleanup@[i].0) == default_passes()[k as int].cleanup,
    ensures
        final(optimizer).passes() == default_passes().take(k + 1),
{
    proof {
        lemma_default_passes_wf();
        let d = default_passes();
        let t = d.take(k as int);
        assert forall|i: int, j: int| 0 <= i < j < t.len() implies t[i].name != t[j].name by {
            assert(t[i] == d[i] && t[j] == d[j]);
        }
        assert forall|i: int, c: int| 0 <= i < t.len() && 0 <= c < t[i].cleanup.len() implies
            #[trigger] t[i].cleanup[c] < i by {
            assert(t[i] == d[i]);
        }
        assert forall|i: int| 0 <= i < t.len() implies t[i].name != name@ by {
            assert(t[i] == d[i]);
        }
    }
    let pass = Pass::new(name, function, cleanup);
    proof {
        let d = default_passes();
        assert(pass@ == d[k as int]);
        assert forall|c: int| 0 <= c < pass@.cleanup.len() implies #[trigger] pass@.cleanup[c] < k by {
            assert(d[k as int].cleanup[c] < k);
        }
    }
    optimizer.add_pass(pass);
    assert(default_passes().take(k as int).push(default_passes()[k as int]) =~= default_passes().take(
        k + 1,
    ));
}

/// Runs the compiler's passes to completion.
pub fn optimize(ops: Vec<Instruction>) -> (r: Vec<Instruction>)
    ensures
        ops_view(r@) == optimized(ops_view(ops@)),
{
    let mut optimizer = Optimizer::new();
    assert(optimizer.passes() =~= default_passes().take(0));
    let c: Vec<PassId> = vec![];
    assert(Seq::new(c@.len(), |i: int| c@[i].0) =~= default_passes()[0].cleanup);
    add_default(&mut optimizer, 0, "remove_unused_labels", PassFn::RemoveUnusedLabels, c);
    let c: Vec<PassId> = vec![PassId(0)];
    assert(Seq::new(c@.len(), |i: int| c@[i].0) =~= default_passes()[1].cleanup);
    add_default(&mut optimizer, 1, "start_cells", PassFn::StartCells, c);
    let c: Vec<PassId> = vec![];
    assert(Seq::new(c@.len(), |i: int| c@[i].0) =~= default_passes()[2].cleanup);
    add_default(&mut optimizer, 2, "zero_loop", PassFn::ZeroLoop, c);
    let c: Vec<PassId> = vec![PassId(0)];
    assert(Seq::new(c@.len(), |i: int| c@[i].0) =~= default_passes()[3].cleanup);
    add_default(&mut optimizer, 3, "zero_flags", PassFn::ZeroFlags, c);
    let c: Vec<PassId> = vec![PassId(0)];
    assert(Seq::new(c@.len(), |i: int| c@[i].0) =~= default_passes()[4].cleanup);
    add_default(&mut optimizer, 4, "remove_nops", PassFn::RemoveNops, c);
    let c: Vec<PassId> = vec![PassId(4)];
    assert(Seq::new(c@.len(), |i: int| c@[i].0) =~= default_passes()[5].cleanup);
    add_default(&mut optimizer, 5, "adjacent", PassFn::Adjacent, c);
    let c: Vec<PassId> = vec![PassId(4), PassId(2), PassId(5)];
    assert(Seq::new(c@.len(), |i: int| c@[i].0) =~= default_passes()[6].cleanup);
    add_default(&mut optimizer, 6, "adjacent_mem_movs", PassFn::AdjacentMemMovs, c);
    let c: Vec<PassId> = vec![];
    assert(Seq::new(c@.len(), |i: int| c@[i].0) =~= default_passes()[7].cleanup);
    add_default(&mut optimizer, 7, "constant_output", PassFn::ConstantOutput, c);
    let c: Vec<PassId> = vec![PassId(0), PassId(4)];
    assert(Seq::new(c@.len(), |i: int| c@[i].0) =~= default_passes()[8].cleanup);
    add_default(&mut optimizer, 8, "dead_jumps", PassFn::DeadJumps, c);
    let c: Vec<PassId> = vec![PassId(0), PassId(8)];
    assert(Seq::new(c@.len(), |i: int| c@[i].0) =~= default_passes()[9].cleanup);
    add_default(&mut optimizer, 9, "jump_skip_recheck", PassFn::JumpSkipRecheck, c);
    let c: Vec<PassId> = vec![PassId(0), PassId(4)];
    assert(Seq::new(c@.len(), |i: int| c@[i].0) =~= default_passes()[10].cleanup);
    add_default(&mut optimizer, 10, "remove_dead_code", PassFn::RemoveDeadCode, c);
    let c: Vec<PassId> = vec![PassId(0), PassId(8), PassId(3), PassId(4)];
    assert(Seq::new(c@.len(), |i: int| c@[i].0) =~= default_passes()[11].cleanup);
    add_default(&mut optimizer, 11, "exit", PassFn::Exit, c);
    assert(default_passes().take(12) =~= default_passes());
    proof {
        lemma_default_passes_wf();
    }
    let (result, _count) = optimizer.run(ops);
    result
}


// ---------------------------------------------------------------- laws

pub proof fn lemma_used_labels_only_keeps(s: Seq<Op>, n: int, k: int)
    requires
        0 <= k < n <= s.len(),
        keeps_label(s, s[k]),
    ensures
        exists|j: int|
            0 <= j < used_labels_only(s, n).len() && #[trigger] used_labels_only(s, n)[j] == s[k],
    decreases n,
{
    if k < n - 1 {
        lemma_used_labels_only_keeps(s, n - 1, k);
        let p = used_labels_only(s, n - 1);
        let j = choose|j: int| 0 <= j < p.len() && #[trigger] p[j] == s[k];
        let r = used_labels_only(s, n);
        if keeps_label(s, s[n - 1]) {
            assert(r == p.push(s[n - 1]));
            assert(r[j] == p[j]);
        } else {
            assert(r == p);
        }
        assert(0 <= j < r.len() && r[j] == s[k]);
    } else {
        let p = used_labels_only(s, n - 1);
        let r = used_labels_only(s, n);
        assert(r == p.push(s[n - 1]));
        assert(0 <= p.len() < r.len() && r[p.len() as int] == s[k]);
    }
}

/// Removing unused labels keeps every jump, and every label that a jump goes
/// to: a label that some jump of `s` targets is still defined afterwards, and
/// still targeted.
pub proof fn remove_unused_labels_keeps_targets(s: Seq<Op>, l: Seq<char>)
    requires
        label_used(s, l),
        exists|k: int| 0 <= k < s.len() && s[k] == Op::Label(l),
    ensures
        exists|k: int|
            0 <= k < used_labels_only(s, s.len() as int).len() && used_labels_only(
                s,
                s.len() as int,
            )[k] == Op::Label(l),
        label_used(used_labels_only(s, s.len() as int), l),
{
    let k = choose|k: int| 0 <= k < s.len() && s[k] == Op::Label(l);
    lemma_used_labels_only_keeps(s, s.len() as int, k);
    let kj = choose|kj: int| 0 <= kj < s.len() && jump_target(#[trigger] s[kj]) == Some(l);
    lemma_used_labels_only_keeps(s, s.len() as int, kj);
    let r = used_labels_only(s, s.len() as int);
    let j = choose|j: int| 0 <= j < r.len() && #[trigger] r[j] == s[kj];
    assert(jump_target(r[j]) == Some(l));
}

/// The value of a byte after `k` additions of `d`, wrapping.
pub open spec fn spin(v: u8, d: u8, k: nat) -> int {
    (v + k * d) % 256
}

/// How many times the body of a zeroing loop runs: it adds `d` and repeats
/// while the cell is nonzero.
pub open spec fn zero_loop_turns(v: u8, d: u8) -> nat {
    if v == 0 {
        256
    } else if d == 1 {
        (256 - v) as nat
    } else {
        v as nat
    }
}

/// A loop that adds one, or subtracts one, to a cell until it is zero always
/// ends, with the cell at zero: which is what its replacement, a store of zero,
/// does.
pub proof fn zero_loop_ends_at_zero(v: u8, d: u8)
    requires
        d == 1 || d == 255,
    ensures
        zero_loop_turns(v, d) >= 1,
        spin(v, d, zero_loop_turns(v, d)) == 0,
        forall|j: nat| 0 < j < zero_loop_turns(v, d) ==> #[trigger] spin(v, d, j) != 0,
{
    let t = zero_loop_turns(v, d);
    if d == 1 {
        assert(spin(v, d, t) == 0) by (nonlinear_arith)
            requires
                d == 1,
                t == (if v == 0 {
                    256
                } else {
                    256 - v
                }),
                spin(v, d, t) == (v + t * d) % 256,
        ;
        assert forall|j: nat| 0 < j < t implies #[trigger] spin(v, d, j) != 0 by {
            assert(j * d == j) by (nonlinear_arith)
                requires
                    d == 1,
            ;
        }
    } else {
        assert(spin(v, d, t) == 0) by (nonlinear_arith)
            requires
                d == 255,
                t == (if v == 0 {
                    256
                } else {
                    v as int
                }),
                spin(v, d, t) == (v + t * d) % 256,
        ;
        assert forall|j: nat| 0 < j < t implies #[trigger] spin(v, d, j) != 0 by {
            assert(v + j * d == 256 * j + (v - j)) by (nonlinear_arith)
                requires
                    d == 255,
            ;
            assert((256 * j + (v - j)) % 256 == (v - j) % 256) by (nonlinear_arith);
        }
    }
}

pub proof fn lemma_cost_list_push(p: Seq<PassView>, cl: Seq<usize>, x: usize, bound: int)
    ensures
        cost_list(p, cl.push(x), bound) == cost_list(p, cl, bound) + if 0 <= x < bound {
            cost(p, x as int)
        } else {
            0
        },
{
    assert(cl.push(x).drop_last() =~= cl);
}

pub proof fn lemma_queue_cost_push(p: Seq<PassView>, q: Seq<usize>, x: usize)
    ensures
        queue_cost(p, q.push(x)) == queue_cost(p, q) + cost(p, x as int),
{
    assert(q.push(x).drop_last() =~= q);
}

/// The scheduler of the compiler's passes ends after at most 43 pass runs,
/// whatever the program: the registry is well formed and its starting queue
/// costs 43, which bounds the runs of `Optimizer::run`.
pub proof fn scheduler_runs_are_bounded()
    ensures
        registry_wf(default_passes()),
        queue_cost(default_passes(), initial_queue(12)) == 43,
{
    lemma_default_passes_wf();
    let d = default_passes();
    assert(d[0].cleanup =~= seq![]);
    assert(cost_list(d, Seq::<usize>::empty(), 0) == 0);
    assert(Seq::<usize>::empty() =~= d[0].cleanup);
    assert(cost(d, 0) == 1);
    assert(d[1].cleanup =~= seq![0usize]);
    assert(cost_list(d, Seq::<usize>::empty(), 1) == 0);
    lemma_cost_list_push(d, Seq::<usize>::empty(), 0, 1);
    assert(Seq::<usize>::empty().push(0) =~= d[1].cleanup);
    assert(cost(d, 1) == 2);
    assert(d[2].cleanup =~= seq![]);
    assert(cost_list(d, Seq::<usize>::empty(), 2) == 0);
    assert(Seq::<usize>::empty() =~= d[2].cleanup);
    assert(cost(d, 2) == 1);
    assert(d[3].cleanup =~= seq![0usize]);
    assert(cost_list(d, Seq::<usize>::empty(), 3) == 0);
    lemma_cost_list_push(d, Seq::<usize>::empty(), 0, 3);
    assert(Seq::<usize>::empty().push(0) =~= d[3].cleanup);
    assert(cost(d, 3) == 2);
    assert(d[4].cleanup =~= seq![0usize]);
    assert(cost_list(d, Seq::<usize>::empty(), 4) == 0);
    lemma_cost_list_push(d, Seq::<usize>::empty(), 0, 4);
    assert(Seq::<usize>::empty().push(0) =~= d[4].cleanup);
    assert(cost(d, 4) == 2);
    assert(d[5].cleanup =~= seq![4usize]);
    assert(cost_list(d, Seq::<usize>::empty(), 5) == 0);
    lemma_cost_list_push(d, Seq::<usize>::empty(), 4, 5);
    assert(Seq::<usize>::empty().push(4) =~= d[5].cleanup);
    assert(cost(d, 5) == 3);
    assert(d[6].cleanup =~= seq![4usize, 2usize, 5usize]);
    assert(cost_list(d, Seq::<usize>::empty(), 6) == 0);
    lemma_cost_list_push(d, Seq::<usize>::empty(), 4, 6);
    lemma_cost_list_push(d, Seq::<usize>::empty().push(4), 2, 6);
    lemma_cost_list_push(d, Seq::<usize>::empty().push(4).push(2), 5, 6);
    assert(Seq::<usize>::empty().push(4).push(2).push(5) =~= d[6].cleanup);
    assert(cost(d, 6) == 7);
    assert(d[7].cleanup =~= seq![]);
    assert(cost_list(d, Seq::<usize>::empty(), 7) == 0);
    assert(Seq::<usize>::empty() =~= d[7].cleanup);
    assert(cost(d, 7) == 1);
    assert(d[8].cleanup =~= seq![0usize, 4usize]);
    assert(cost_list(d, Seq::<usize>::empty(), 8) == 0);
    lemma_cost_list_push(d, Seq::<usize>::empty(), 0, 8);
    lemma_cost_list_push(d, Seq::<usize>::empty().push(0), 4, 8);
    assert(Seq::<usize>::empty().push(0).push(4) =~= d[8].cleanup);
    assert(cost(d, 8) == 4);
    assert(d[9].cleanup =~= seq![0usize, 8usize]);
    assert(cost_list(d, Seq::<usize>::empty(), 9) == 0);
    lemma_cost_list_push(d, Seq::<usize>::empty(), 0, 9);
    lemma_cost_list_push(d, Seq::<usize>::empty().push(0), 8, 9);
    assert(Seq::<usize>::empty().push(0).push(8) =~= d[9].cleanup);
    assert(cost(d, 9) == 6);
    assert(d[10].cleanup =~= seq![0usize, 4usize]);
    assert(cost_list(d, Seq::<usize>::empty(), 10) == 0);
    lemma_cost_list_push(d, Seq::<usize>::empty(), 0, 10);
    lemma_cost_list_push(d, Seq::<usize>::empty().push(0), 4, 10);
    assert(Seq::<usize>::empty().push(0).push(4) =~= d[10].cleanup);
    assert(cost(d, 10) == 4);
    assert(d[11].cleanup =~= seq![0usize, 8usize, 3usize, 4usize]);
    assert(cost_list(d, Seq::<usize>::empty(), 11) == 0);
    lemma_cost_list_push(d, Seq::<usize>::empty(), 0, 11);
    lemma_cost_list_push(d, Seq::<usize>::empty().push(0), 8, 11);
    lemma_cost_list_push(d, Seq::<usize>::empty().push(0).push(8), 3, 11);
    lemma_cost_list_push(d, Seq::<usize>::empty().push(0).push(8).push(3), 4, 11);
    assert(Seq::<usize>::empty().push(0).push(8).push(3).push(4) =~= d[11].cleanup);
    assert(cost(d, 11) == 10);
    assert(queue_cost(d, Seq::<usize>::empty()) == 0);
    lemma_queue_cost_push(d, Seq::<usize>::empty(), 11);
    lemma_queue_cost_push(d, Seq::<usize>::empty().push(11), 10);
    lemma_queue_cost_push(d, Seq::<usize>::empty().push(11).push(10), 9);
    lemma_queue_cost_push(d, Seq::<usize>::empty().push(11).push(10).push(9), 8);
    lemma_queue_cost_push(d, Seq::<usize>::empty().push(11).push(10).push(9).push(8), 7);
    lemma_queue_cost_push(d, Seq::<usize>::empty().push(11).push(10).push(9).push(8).push(7), 6);
    lemma_queue_cost_push(d, Seq::<usize>::empty().push(11).push(10).push(9).push(8).push(7).push(6), 5);
    lemma_queue_cost_push(d, Seq::<usize>::empty().push(11).push(10).push(9).push(8).push(7).push(6).push(5), 4);
    lemma_queue_cost_push(d, Seq::<usize>::empty().push(11).push(10).push(9).push(8).push(7).push(6).push(5).push(4), 3);
    lemma_queue_cost_push(d, Seq::<usize>::empty().push(11).push(10).push(9).push(8).push(7).push(6).push(5).push(4).push(3), 2);
    lemma_queue_cost_push(d, Seq::<usize>::empty().push(11).push(10).push(9).push(8).push(7).push(6).push(5).push(4).push(3).push(2), 1);
    lemma_queue_cost_push(d, Seq::<usize>::empty().push(11).push(10).push(9).push(8).push(7).push(6).push(5).push(4).push(3).push(2).push(1), 0);
    assert(Seq::<usize>::empty().push(11).push(10).push(9).push(8).push(7).push(6).push(5).push(4).push(3).push(2).push(1).push(0) =~= initial_queue(12));
}

} // verus!
