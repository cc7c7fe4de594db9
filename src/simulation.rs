//! The peephole pass keeps what a program does: every run of the step machine
//! that reaches the end of the program writes the same bytes after the pass.
use vstd::prelude::*;

use crate::compiler::{
    before_byte, built, cell, emitted_bytes_replay, lemma_built_label_count, lemma_built_open_loops, TOKEN_LIMIT, combine_steps, controls, emit_bytes, is_control, label_from,
    lemma_control_in_controls, lemma_controls_in_source, lemma_peephole_controls, lemma_emit_bytes_shape,
    lemma_label_from_first, lemma_replay_from, lemma_run_index, lemma_run_output_bound,
    lemma_step_wf, lemma_tape_add_twice, machine_step, machine_wf, peephole, pointer_fix,
    replay_fuel, resume_at, run, start, startup, step_target, tape_add, tape_set, tape_steps, trim,
    Label, Machine, Step, EVAL_FUEL, LABEL_LIMIT,
};
use crate::parser::{balanced, Token};

verus! {

/// Whether a step adds to a cell or moves the pointer.
pub open spec fn is_arith(st: Step) -> bool {
    st is Add || st is Next || st is Prev
}

/// Whether the run of `s` from `m` with `fuel` steps reaches the end of `s`.
pub open spec fn finishes(s: Seq<Step>, m: Machine, fuel: nat) -> bool {
    run(s, m, fuel).index == s.len()
}

/// Where step `i` of a program stands once the pair at `p` is replaced by `k` steps.
pub open spec fn shifted(p: int, k: int, i: int) -> int {
    if i <= p {
        i
    } else {
        i - 2 + k
    }
}

pub proof fn lemma_label_from_scan(s: Seq<Step>, l: Label, i: int)
    requires
        0 <= i,
    ensures
        label_from(s, l, i) matches Some(j) ==> i <= j < s.len() && s[j] == Step::Label(l) && forall|
            t: int,
        | i <= t < j ==> s[t] != Step::Label(l),
        label_from(s, l, i) is None ==> forall|t: int| i <= t < s.len() ==> s[t] != Step::Label(l),
    decreases s.len() - i,
{
    if i < s.len() && s[i] != Step::Label(l) {
        lemma_label_from_scan(s, l, i + 1);
    }
}

pub proof fn lemma_label_from_absent(s: Seq<Step>, l: Label, i: int)
    requires
        0 <= i,
        forall|t: int| i <= t < s.len() ==> s[t] != Step::Label(l),
    ensures
        label_from(s, l, i) is None,
    decreases s.len() - i,
{
    if i < s.len() {
        lemma_label_from_absent(s, l, i + 1);
    }
}

/// The merged program finds each label where the original one does, shifted.
pub proof fn lemma_merge_labels(pre: Seq<Step>, a: Step, b: Step, c: Seq<Step>, post: Seq<Step>, l: Label)
    requires
        is_arith(a),
        is_arith(b),
        c.len() <= 1,
        forall|t: int| 0 <= t < c.len() ==> is_arith(#[trigger] c[t]),
    ensures
        match label_from(pre + seq![a, b] + post, l, 0) {
            Some(j) => label_from(pre + c + post, l, 0) == Some(shifted(pre.len() as int, c.len() as int, j)),
            None => label_from(pre + c + post, l, 0) is None,
        },
{
    let s = pre + seq![a, b] + post;
    let s2 = pre + c + post;
    let p = pre.len() as int;
    let k = c.len() as int;
    lemma_label_from_scan(s, l, 0);
    assert forall|t: int| 0 <= t < s2.len() && t >= p + k implies s2[t] == s[t + 2 - k] by {}
    assert forall|t: int| 0 <= t < s2.len() && t < p implies s2[t] == s[t] by {}
    assert forall|t: int| p <= t < p + k implies s2[t] == c[t - p] by {}
    match label_from(s, l, 0) {
        Some(j) => {
            assert(j != p && j != p + 1);
            let j2 = shifted(p, k, j);
            assert(s2[j2] == Step::Label(l));
            assert forall|t: int| 0 <= t < j2 implies s2[t] != Step::Label(l) by {
                if t >= p + k {
                    assert(s2[t] == s[t + 2 - k]);
                } else if t >= p {
                    assert(is_arith(c[t - p]));
                }
            }
            lemma_label_from_first(s2, l, 0, j2);
        },
        None => {
            assert forall|t: int| 0 <= t < s2.len() implies s2[t] != Step::Label(l) by {
                if t >= p + k {
                    assert(s2[t] == s[t + 2 - k]);
                } else if t >= p {
                    assert(is_arith(c[t - p]));
                } else {
                    assert(s2[t] == s[t]);
                }
            }
            lemma_label_from_absent(s2, l, 0);
        },
    }
}

pub proof fn lemma_run_finished(s: Seq<Step>, m: Machine, f: nat, g: nat)
    requires
        f <= g,
        finishes(s, m, f),
    ensures
        run(s, m, g) == run(s, m, f),
    decreases f,
{
    if m.index < 0 || m.index >= s.len() {
    } else if f == 0 {
    } else {
        match machine_step(s, m) {
            Some(m2) => {
                lemma_run_finished(s, m2, (f - 1) as nat, (g - 1) as nat);
            },
            None => {},
        }
    }
}

/// A machine of the original program seen in the merged one.
pub open spec fn shift_machine(p: int, k: int, m: Machine) -> Machine {
    Machine { index: shifted(p, k, m.index), ..m }
}

/// Replacing an arithmetic pair by its merge keeps every finishing run: the
/// merged program finishes too, with the same output.
pub proof fn lemma_merge_simulates(
    pre: Seq<Step>,
    a: Step,
    b: Step,
    post: Seq<Step>,
    m: Machine,
    f: nat,
)
    requires
        is_arith(a),
        is_arith(b),
        combine_steps(a, b).len() != 2,
        0 <= m.index <= pre.len() + 2 + post.len(),
        m.index != pre.len() + 1,
        finishes(pre + seq![a, b] + post, m, f),
    ensures
        finishes(
            pre + combine_steps(a, b) + post,
            shift_machine(pre.len() as int, combine_steps(a, b).len() as int, m),
            f,
        ),
        run(
            pre + combine_steps(a, b) + post,
            shift_machine(pre.len() as int, combine_steps(a, b).len() as int, m),
            f,
        ).output == run(pre + seq![a, b] + post, m, f).output,
    decreases f,
{
    let s = pre + seq![a, b] + post;
    let c = combine_steps(a, b);
    let s2 = pre + c + post;
    let p = pre.len() as int;
    let k = c.len() as int;
    let m2 = shift_machine(p, k, m);
    assert(c.len() <= 1);
    assert(forall|t: int| 0 <= t < c.len() ==> is_arith(#[trigger] c[t]));
    assert(s2.len() == s.len() - 2 + k);
    if m.index == s.len() {
        assert(m2.index == s2.len());
        assert(run(s, m, f) == m);
        assert(run(s2, m2, f) == m2);
    } else {
        assert(f > 0);
        let ms = machine_step(s, m);
        assert(ms is Some);
        let m1 = ms->0;
        assert(run(s, m, f) == run(s, m1, (f - 1) as nat));
        if m.index == p {
            assert(s[p] == a && s[p + 1] == b);
            assert(m1.index == p + 1);
            assert(f > 1);
            let ms1 = machine_step(s, m1);
            assert(ms1 is Some);
            let n = ms1->0;
            assert(n.index == p + 2);
            assert(run(s, m1, (f - 1) as nat) == run(s, n, (f - 2) as nat));
            lemma_merge_simulates(pre, a, b, post, n, (f - 2) as nat);
            let n2 = shift_machine(p, k, n);
            assert(n2.index == p + k);
            lemma_run_finished(s2, n2, (f - 2) as nat, (f - k) as nat);
            if k == 0 {
                assert(n2 == m2) by {
                    match (a, b) {
                        (Step::Next(x), Step::Prev(y)) => {},
                        (Step::Prev(x), Step::Next(y)) => {},
                        _ => {},
                    }
                }
            } else {
                assert(s2[p] == c[0]);
                assert(machine_step(s2, m2) == Some(n2)) by {
                    match (a, b) {
                        (Step::Add(x), Step::Add(y)) => {
                            lemma_tape_add_twice(m.tape, m.pointer as nat, x, y);
                        },
                        _ => {},
                    }
                }
                assert(run(s2, m2, f) == run(s2, n2, (f - 1) as nat));
            }
        } else {
            assert(m.index < p || m.index >= p + 2);
            assert(s2[m2.index] == s[m.index]);
            match s[m.index] {
                Step::JumpTo(l) => {
                    lemma_merge_labels(pre, a, b, c, post, l);
                    lemma_label_from_scan(s, l, 0);
                },
                Step::JumpToIf(_, l) => {
                    lemma_merge_labels(pre, a, b, c, post, l);
                    lemma_label_from_scan(s, l, 0);
                },
                _ => {},
            }
            assert(m1.index != p + 1);
            assert(machine_step(s2, m2) == Some(shift_machine(p, k, m1)));
            assert(0 <= m1.index <= s.len()) by {
                match s[m.index] {
                    Step::JumpTo(l) => {
                        lemma_label_from_scan(s, l, 0);
                    },
                    Step::JumpToIf(_, l) => {
                        lemma_label_from_scan(s, l, 0);
                    },
                    _ => {},
                }
            }
            lemma_merge_simulates(pre, a, b, post, m1, (f - 1) as nat);
            assert(run(s2, m2, f) == run(s2, shift_machine(p, k, m1), (f - 1) as nat));
        }
    }
}

/// `pre + w` and `pre + peephole(w)`: every run of the first from its first
/// step that reaches its end is matched by one of the second.
pub proof fn lemma_peephole_simulates(pre: Seq<Step>, w: Seq<Step>, m0: Machine, f: nat)
    requires
        m0.index == 0,
        finishes(pre + w, m0, f),
    ensures
        finishes(pre + peephole(w), m0, f),
        run(pre + peephole(w), m0, f).output == run(pre + w, m0, f).output,
    decreases w.len(),
{
    if w.len() >= 2 {
        let c = combine_steps(w[0], w[1]);
        if c.len() == 2 {
            assert(pre + w =~= (pre + seq![w[0]]) + w.skip(1));
            lemma_peephole_simulates(pre + seq![w[0]], w.skip(1), m0, f);
            assert(pre + peephole(w) =~= (pre + seq![w[0]]) + peephole(w.skip(1)));
        } else {
            let a = w[0];
            let b = w[1];
            let post = w.skip(2);
            assert(is_arith(a) && is_arith(b)) by {
                match (a, b) {
                    (Step::Add(_), Step::Add(_)) => {},
                    (Step::Next(_), Step::Next(_)) => {},
                    (Step::Prev(_), Step::Prev(_)) => {},
                    (Step::Next(_), Step::Prev(_)) => {},
                    (Step::Prev(_), Step::Next(_)) => {},
                    _ => {},
                }
            }
            assert(pre + w =~= pre + seq![a, b] + post);
            lemma_merge_simulates(pre, a, b, post, m0, f);
            assert(shift_machine(pre.len() as int, c.len() as int, m0) == m0);
            assert(pre + c + post =~= pre + (c + post));
            lemma_peephole_simulates(pre, c + post, m0, f);
        }
    }
}

/// The peephole pass keeps what a program does: where a run of `s` from its
/// first step, on any tape and any input, reaches the end of `s` within `f`
/// steps, the same run of `peephole(s)` reaches its end too, having written
/// the same bytes.
pub proof fn peephole_keeps_output(s: Seq<Step>, m0: Machine, f: nat)
    requires
        m0.index == 0,
        finishes(s, m0, f),
    ensures
        finishes(peephole(s), m0, f),
        run(peephole(s), m0, f).output == run(s, m0, f).output,
{
    assert(seq![] + s =~= s);
    assert(seq![] + peephole(s) =~= peephole(s));
    lemma_peephole_simulates(seq![], s, m0, f);
}


// ---------------------------------------------------------------- resuming

/// Whether two tapes hold the same cells.
pub open spec fn same_cells(a: Seq<u8>, b: Seq<u8>) -> bool {
    forall|p: int| #[trigger] cell(a, p) == cell(b, p)
}

pub proof fn lemma_cell_tape_add(t: Seq<u8>, p: nat, v: u8, q: int)
    ensures
        cell(tape_add(t, p, v), q) == if q == p {
            ((cell(t, p as int) + v) % 256) as u8
        } else {
            cell(t, q)
        },
{
}

pub proof fn lemma_cell_tape_set(t: Seq<u8>, p: nat, v: u8, q: int)
    ensures
        cell(tape_set(t, p, v), q) == if q == p {
            v
        } else {
            cell(t, q)
        },
{
}

pub proof fn lemma_run_add(s: Seq<Step>, m: Machine, a: nat, b: nat)
    ensures
        run(s, m, a + b) == run(s, run(s, m, a), b),
    decreases a,
{
    if a > 0 && 0 <= m.index < s.len() {
        match machine_step(s, m) {
            Some(m2) => {
                lemma_run_add(s, m2, (a - 1) as nat, b);
                assert((a + b - 1) as nat == (a - 1) as nat + b);
            },
            None => {
                if b > 0 {
                }
            },
        }
    }
}

pub proof fn lemma_trim_same_cells(t: Seq<u8>)
    ensures
        same_cells(trim(t), t),
        trim(t).len() <= t.len(),
    decreases t.len(),
{
    if t.len() > 0 && t.last() == 0 {
        lemma_trim_same_cells(t.drop_last());
    }
}

pub proof fn lemma_tape_steps_shape(t: Seq<u8>)
    ensures
        tape_steps(t).len() == 2 * t.len(),
        forall|k: int|
            0 <= k < t.len() ==> #[trigger] tape_steps(t)[2 * k] == Step::Add(t[k]) && tape_steps(
                t,
            )[2 * k + 1] == Step::Next(1),
    decreases t.len(),
{
    if t.len() > 0 {
        lemma_tape_steps_shape(t.drop_last());
        let p = tape_steps(t.drop_last());
        assert forall|k: int| 0 <= k < t.len() implies #[trigger] tape_steps(t)[2 * k] == Step::Add(
            t[k],
        ) && tape_steps(t)[2 * k + 1] == Step::Next(1) by {
            if k < t.len() - 1 {
                assert(tape_steps(t)[2 * k] == p[2 * k]);
                assert(tape_steps(t)[2 * k + 1] == p[2 * k + 1]);
                assert(t.drop_last()[k] == t[k]);
            }
        }
    }
}

/// The program `x + tape_steps(t) + y` writes `t` from cell `k` on.
pub proof fn lemma_tape_phase(x: Seq<Step>, t: Seq<u8>, y: Seq<Step>, k: int, m: Machine)
    requires
        0 <= k <= t.len(),
        t.len() < usize::MAX,
        m.index == x.len() + 2 * k,
        m.pointer == k,
        forall|q: int| #[trigger] cell(m.tape, q) == if 0 <= q < k {
            t[q]
        } else {
            0
        },
    ensures
        run(x + tape_steps(t) + y, m, (2 * (t.len() - k)) as nat).index == x.len() + 2 * t.len(),
        run(x + tape_steps(t) + y, m, (2 * (t.len() - k)) as nat).pointer == t.len(),
        run(x + tape_steps(t) + y, m, (2 * (t.len() - k)) as nat).output == m.output,
        run(x + tape_steps(t) + y, m, (2 * (t.len() - k)) as nat).input == m.input,
        same_cells(run(x + tape_steps(t) + y, m, (2 * (t.len() - k)) as nat).tape, t),
    decreases t.len() - k,
{
    let r = x + tape_steps(t) + y;
    lemma_tape_steps_shape(t);
    if k == t.len() {
        assert forall|q: int| #[trigger] cell(m.tape, q) == cell(t, q) by {}
    } else {
        assert(r[x.len() + 2 * k] == tape_steps(t)[2 * k]);
        assert(r[x.len() + 2 * k + 1] == tape_steps(t)[2 * k + 1]);
        let t1 = tape_add(m.tape, k as nat, t[k]);
        let m1 = Machine { index: m.index + 1, tape: t1, ..m };
        assert(machine_step(r, m) == Some(m1));
        let m2 = Machine { index: m.index + 2, pointer: k + 1, ..m1 };
        assert(machine_step(r, m1) == Some(m2));
        let f = (2 * (t.len() - k)) as nat;
        assert(run(r, m, f) == run(r, m1, (f - 1) as nat));
        assert(run(r, m1, (f - 1) as nat) == run(r, m2, (f - 2) as nat));
        assert forall|q: int| #[trigger] cell(m2.tape, q) == if 0 <= q < k + 1 {
            t[q]
        } else {
            0
        } by {
            lemma_cell_tape_add(m.tape, k as nat, t[k], q);
            assert(cell(m.tape, k) == 0);
        }
        lemma_tape_phase(x, t, y, k + 1, m2);
    }
}

/// Where step `j` of `s` stands in `h + resume_at(s, i, l)`, with `o` the length of `h`.
pub open spec fn resume_pos(o: int, i: int, j: int) -> int {
    if i == 0 {
        o + j
    } else if j < i {
        o + 1 + j
    } else {
        o + 2 + j
    }
}

pub proof fn lemma_resume_shape(h: Seq<Step>, s: Seq<Step>, i: int, l: Label)
    requires
        0 <= i <= s.len(),
    ensures
        (h + resume_at(s, i, l)).len() == resume_pos(h.len() as int, i, s.len() as int),
        forall|j: int|
            0 <= j < s.len() ==> (h + resume_at(s, i, l))[#[trigger] resume_pos(h.len() as int, i, j)]
                == s[j],
        i != 0 ==> (h + resume_at(s, i, l))[h.len() as int] == Step::JumpTo(l),
        i != 0 ==> (h + resume_at(s, i, l))[h.len() + 1 + i] == Step::Label(l),
{
}

/// How jumps of `s` may be resumed: their labels are neither `l` nor defined in `h`.
pub open spec fn resumable(h: Seq<Step>, s: Seq<Step>, l: Label) -> bool {
    forall|q: int|
        0 <= q < s.len() && #[trigger] step_target(s[q]) is Some ==> step_target(s[q])->0 != l
            && forall|t: int| 0 <= t < h.len() ==> h[t] != Step::Label(step_target(s[q])->0)
}

pub proof fn lemma_resume_labels(h: Seq<Step>, s: Seq<Step>, i: int, l: Label, lb: Label)
    requires
        0 <= i <= s.len(),
        lb != l,
        forall|t: int| 0 <= t < h.len() ==> h[t] != Step::Label(lb),
    ensures
        match label_from(s, lb, 0) {
            Some(q) => label_from(h + resume_at(s, i, l), lb, 0) == Some(
                resume_pos(h.len() as int, i, q),
            ),
            None => label_from(h + resume_at(s, i, l), lb, 0) is None,
        },
{
    let r = h + resume_at(s, i, l);
    let o = h.len() as int;
    lemma_resume_shape(h, s, i, l);
    lemma_label_from_scan(s, lb, 0);
    assert forall|t: int| 0 <= t < r.len() && r[t] == Step::Label(lb) implies exists|j: int|
        0 <= j < s.len() && t == resume_pos(o, i, j) by {
        if t < o {
            assert(r[t] == h[t]);
        } else if i != 0 && t == o {
        } else if i != 0 && t == o + 1 + i {
        } else {
            let j = if i == 0 {
                t - o
            } else if t < o + 1 + i {
                t - o - 1
            } else {
                t - o - 2
            };
            assert(t == resume_pos(o, i, j));
        }
    }
    match label_from(s, lb, 0) {
        Some(q) => {
            let tq = resume_pos(o, i, q);
            assert forall|t: int| 0 <= t < tq implies r[t] != Step::Label(lb) by {
                if r[t] == Step::Label(lb) {
                    let j = choose|j: int| 0 <= j < s.len() && t == resume_pos(o, i, j);
                    assert(s[j] == Step::Label(lb));
                }
            }
            lemma_label_from_first(r, lb, 0, tq);
        },
        None => {
            assert forall|t: int| 0 <= t < r.len() implies r[t] != Step::Label(lb) by {
                if r[t] == Step::Label(lb) {
                    let j = choose|j: int| 0 <= j < s.len() && t == resume_pos(o, i, j);
                    assert(s[j] == Step::Label(lb));
                }
            }
            lemma_label_from_absent(r, lb, 0);
        },
    }
}

/// A machine of `s` and one of `h + resume_at(s, i, l)` that stand for each
/// other: the second may still stand on the inserted label.
pub open spec fn resumed(o: int, i: int, m: Machine, m2: Machine) -> bool {
    &&& m2.pointer == m.pointer
    &&& m2.output == m.output
    &&& m2.input == m.input
    &&& same_cells(m.tape, m2.tape)
    &&& (m2.index == resume_pos(o, i, m.index) || (i != 0 && m.index == i && m2.index == o + 1 + i))
}

/// Steps the resumed program needs for `f` steps of `s`.
pub open spec fn resume_fuel(o: int, i: int, m: Machine, m2: Machine, f: nat) -> nat {
    2 * f + if m2.index != resume_pos(o, i, m.index) {
        1nat
    } else {
        0nat
    }
}

/// One step of `s` and the matching step of the resumed program.
pub proof fn lemma_resume_step(h: Seq<Step>, s: Seq<Step>, i: int, l: Label, m: Machine, m2: Machine)
    requires
        0 <= i <= s.len(),
        resumable(h, s, l),
        0 <= m.index < s.len(),
        resumed(h.len() as int, i, m, m2),
        m2.index == resume_pos(h.len() as int, i, m.index),
        machine_step(s, m) is Some,
    ensures
        machine_step(h + resume_at(s, i, l), m2) is Some,
        resumed(
            h.len() as int,
            i,
            machine_step(s, m)->0,
            machine_step(h + resume_at(s, i, l), m2)->0,
        ),
        0 <= (machine_step(s, m)->0).index <= s.len(),
{
    let r = h + resume_at(s, i, l);
    let o = h.len() as int;
    lemma_resume_shape(h, s, i, l);
    let j = m.index;
    let m1 = machine_step(s, m)->0;
    assert(r[m2.index] == s[j]);
    assert(cell(m.tape, m.pointer) == cell(m2.tape, m2.pointer));
    match s[j] {
        Step::JumpTo(lb) => {
            assert(step_target(s[j]) == Some(lb));
            lemma_resume_labels(h, s, i, l, lb);
            lemma_label_from_scan(s, lb, 0);
        },
        Step::JumpToIf(_, lb) => {
            assert(step_target(s[j]) == Some(lb));
            lemma_resume_labels(h, s, i, l, lb);
            lemma_label_from_scan(s, lb, 0);
        },
        Step::Add(v) => {
            let n = machine_step(r, m2)->0;
            assert forall|p: int| #[trigger] cell(m1.tape, p) == cell(n.tape, p) by {
                lemma_cell_tape_add(m.tape, m.pointer as nat, v, p);
                lemma_cell_tape_add(m2.tape, m2.pointer as nat, v, p);
            }
        },
        Step::Input => {
            match m.input {
                Some(inp) => {
                    let n = machine_step(r, m2)->0;
                    let v: u8 = if inp.len() > 0 {
                        inp[0]
                    } else {
                        0
                    };
                    assert forall|p: int| #[trigger] cell(m1.tape, p) == cell(n.tape, p) by {
                        lemma_cell_tape_set(m.tape, m.pointer as nat, v, p);
                        lemma_cell_tape_set(m2.tape, m2.pointer as nat, v, p);
                    }
                },
                None => {},
            }
        },
        _ => {},
    }
}

pub proof fn lemma_resume_simulates(
    h: Seq<Step>,
    s: Seq<Step>,
    i: int,
    l: Label,
    m: Machine,
    m2: Machine,
    f: nat,
)
    requires
        0 <= i <= s.len(),
        resumable(h, s, l),
        0 <= m.index <= s.len(),
        resumed(h.len() as int, i, m, m2),
        finishes(s, m, f),
    ensures
        finishes(h + resume_at(s, i, l), m2, resume_fuel(h.len() as int, i, m, m2, f)),
        run(h + resume_at(s, i, l), m2, resume_fuel(h.len() as int, i, m, m2, f)).output == run(
            s,
            m,
            f,
        ).output,
    decreases f, if m2.index != resume_pos(h.len() as int, i, m.index) {
        1int
    } else {
        0int
    },
{
    let r = h + resume_at(s, i, l);
    let o = h.len() as int;
    lemma_resume_shape(h, s, i, l);
    if m2.index != resume_pos(o, i, m.index) {
        let m3 = Machine { index: m2.index + 1, ..m2 };
        assert(machine_step(r, m2) == Some(m3));
        lemma_resume_simulates(h, s, i, l, m, m3, f);
        assert(run(r, m2, 2 * f + 1) == run(r, m3, 2 * f));
    } else if m.index == s.len() {
        assert(run(s, m, f) == m);
        assert(m2.index == r.len());
        assert(run(r, m2, 2 * f + 1) == m2);
    } else {
        let j = m.index;
        assert(f > 0);
        let m1 = machine_step(s, m)->0;
        assert(machine_step(s, m) is Some);
        assert(run(s, m, f) == run(s, m1, (f - 1) as nat));
        lemma_resume_step(h, s, i, l, m, m2);
        let n = machine_step(r, m2)->0;
        lemma_resume_simulates(h, s, i, l, m1, n, (f - 1) as nat);
        assert(run(r, m2, 2 * f) == run(r, n, (2 * f - 1) as nat));
        lemma_run_finished(r, n, resume_fuel(o, i, m1, n, (f - 1) as nat), (2 * f - 1) as nat);
    }
}


pub proof fn lemma_run_wf(s: Seq<Step>, m: Machine, f: nat)
    requires
        machine_wf(m),
        m.index <= s.len(),
    ensures
        machine_wf(run(s, m, f)),
    decreases f,
{
    if f > 0 && 0 <= m.index < s.len() {
        lemma_step_wf(s, m);
        match machine_step(s, m) {
            Some(m2) => lemma_run_wf(s, m2, (f - 1) as nat),
            None => {},
        }
    }
}

pub proof fn lemma_run_input_unknown(s: Seq<Step>, m: Machine, f: nat)
    requires
        m.input is None,
    ensures
        run(s, m, f).input is None,
    decreases f,
{
    if f > 0 && 0 <= m.index < s.len() {
        match machine_step(s, m) {
            Some(m2) => lemma_run_input_unknown(s, m2, (f - 1) as nat),
            None => {},
        }
    }
}

/// Whether every label that `s` defines or jumps to is below `first`.
pub open spec fn labels_below(s: Seq<Step>, first: nat) -> bool {
    forall|q: int|
        0 <= q < s.len() ==> (#[trigger] step_target(s[q]) matches Some(lb) ==> lb.0 < first) && (
        s[q] matches Step::Label(lb) ==> lb.0 < first)
}

/// The steps that rebuild the state define only the labels of the bytes.
pub proof fn lemma_prefix_labels(out: Seq<u8>, first: nat, t: Seq<u8>, c: Seq<Step>, lb: Label)
    requires
        first + out.len() <= LABEL_LIMIT,
        forall|u: int| 0 <= u < c.len() ==> !(#[trigger] c[u] is Label),
        lb.0 < first || lb.0 >= first + out.len(),
    ensures
        forall|u: int|
            0 <= u < (emit_bytes(out, first) + tape_steps(t) + c).len() ==> (emit_bytes(out, first)
                + tape_steps(t) + c)[u] != Step::Label(lb),
{
    let a = emit_bytes(out, first);
    let b = tape_steps(t);
    let h = a + b + c;
    lemma_emit_bytes_shape(out, first);
    lemma_tape_steps_shape(t);
    assert forall|u: int| 0 <= u < h.len() implies h[u] != Step::Label(lb) by {
        if u < a.len() {
            let kk = u / 5;
            let jj = u % 5;
            assert(u == 5 * kk + jj);
            assert(a[5 * kk + jj] == crate::compiler::byte_block(
                out[kk],
                Label((first + kk) as usize),
            )[jj]);
            assert(h[u] == a[u]);
            assert(((first + kk) as usize) as nat == first + kk);
        } else if u < a.len() + b.len() {
            let kk = (u - a.len()) / 2;
            let jj = (u - a.len()) % 2;
            assert(u - a.len() == 2 * kk + jj);
            assert(h[u] == b[u - a.len()]);
            assert(b[2 * kk] == Step::Add(t[kk]));
        } else {
            assert(h[u] == c[u - a.len() - b.len()]);
        }
    }
}

pub proof fn lemma_fix_phase(h0: Seq<Step>, len: nat, p: int, rest: Seq<Step>, m: Machine)
    requires
        0 <= p < usize::MAX,
        len < usize::MAX,
        m.index == h0.len(),
        m.pointer == len,
    ensures
        run(h0 + pointer_fix(len, p as nat) + rest, m, pointer_fix(len, p as nat).len()) == (Machine {
            index: (h0.len() + pointer_fix(len, p as nat).len()) as int,
            pointer: p,
            ..m
        }),
{
    let c = pointer_fix(len, p as nat);
    let r = h0 + c + rest;
    let mc = Machine { index: (h0.len() + c.len()) as int, pointer: p, ..m };
    if c.len() == 1 {
        assert(r[h0.len() as int] == c[0]);
        assert(machine_step(r, m) == Some(mc));
        assert(run(r, m, 1) == run(r, mc, 0));
    } else {
        assert(mc == m);
    }
}

pub proof fn lemma_jump_phase(h: Seq<Step>, s: Seq<Step>, i: int, l: Label, m: Machine)
    requires
        0 < i <= s.len(),
        forall|u: int| 0 <= u < h.len() ==> h[u] != Step::Label(l),
        labels_below(s, l.0 as nat),
        m.index == h.len(),
    ensures
        run(h + resume_at(s, i, l), m, 1) == (Machine { index: h.len() + 2 + i, ..m }),
{
    let r = h + resume_at(s, i, l);
    lemma_resume_shape(h, s, i, l);
    assert forall|u: int| 0 <= u < h.len() + 1 + i implies r[u] != Step::Label(l) by {
        if u < h.len() {
            assert(r[u] == h[u]);
        } else if u > h.len() {
            let q = u - h.len() - 1;
            assert(u == resume_pos(h.len() as int, i, q));
            assert(r[u] == s[q]);
            if s[q] == Step::Label(l) {
                assert(step_target(s[q]) is None);
                assert(s[q] matches Step::Label(lb) ==> lb.0 < l.0);
            }
        }
    }
    lemma_label_from_first(r, l, 0, h.len() + 1 + i);
    let md = Machine { index: h.len() + 2 + i, ..m };
    assert(machine_step(r, m) == Some(md));
    assert(run(r, m, 1) == run(r, md, 0));
}

/// The startup evaluator keeps what a program does where it stopped before the
/// end: where `s` runs to its end from a fresh machine in `EVAL_FUEL + f`
/// steps, so does the rebuilt program, having written the same bytes. This
/// holds where the labels of `s` are below those the evaluator hands out, and
/// where the tape to rebuild ends before the largest index.
#[verifier::rlimit(50)]
pub proof fn startup_resumes(s: Seq<Step>, first: nat, f: nat)
    requires
        first + EVAL_FUEL < LABEL_LIMIT,
        labels_below(s, first),
        run(s, start(), EVAL_FUEL as nat).index != s.len(),
        trim(run(s, start(), EVAL_FUEL as nat).tape).len() < usize::MAX,
        finishes(s, start(), EVAL_FUEL as nat + f),
    ensures
        exists|g: nat|
            finishes(startup(s, first), start(), g) && run(startup(s, first), start(), g).output
                == run(s, start(), EVAL_FUEL as nat + f).output,
{
    let fuel = EVAL_FUEL as nat;
    let me = run(s, start(), fuel);
    lemma_run_output_bound(s, start(), fuel);
    lemma_run_index(s, start(), fuel);
    lemma_run_wf(s, start(), fuel);
    lemma_run_input_unknown(s, start(), fuel);
    let out = me.output;
    let t = trim(me.tape);
    let i = me.index;
    let p = me.pointer;
    let l = Label((first + out.len()) as usize);
    let a = emit_bytes(out, first);
    let b = tape_steps(t);
    let c = pointer_fix(t.len(), p as nat);
    let d = resume_at(s, i, l);
    let h = a + b + c;
    let r = startup(s, first);
    assert(r == a + b + c + d);
    lemma_emit_bytes_shape(out, first);
    lemma_tape_steps_shape(t);
    lemma_trim_same_cells(me.tape);
    // the bytes
    let ra = replay_fuel(out, 0);
    assert(a + (b + c + d) =~= r);
    assert(out.take(0) =~= seq![]);
    assert(before_byte(out, 0, seq![]) == start());
    lemma_replay_from(out, first, 0, seq![], b + c + d);
    let ta: Seq<u8> = if out.len() == 0 {
        seq![]
    } else {
        seq![0u8]
    };
    let ma = before_byte(out, out.len() as int, ta);
    assert(run(r, start(), ra) == ma);
    assert(out.take(out.len() as int) =~= out);
    // the tape
    let rb = (2 * t.len()) as nat;
    assert(a + b + (c + d) =~= r);
    lemma_tape_phase(a, t, c + d, 0, ma);
    let mb = run(r, ma, rb);
    // the pointer
    let rc = c.len();
    assert(a + b + c + d =~= r);
    lemma_fix_phase(a + b, t.len(), p, d, mb);
    let mc = Machine { index: h.len() as int, pointer: p, ..mb };
    assert(run(r, mb, rc) == mc);
    assert forall|q: int| #[trigger] cell(me.tape, q) == cell(mc.tape, q) by {
        assert(cell(t, q) == cell(me.tape, q));
    }
    // the jump back into the program
    let rd: nat = if i == 0 {
        0
    } else {
        1
    };
    let md = Machine { index: resume_pos(h.len() as int, i, i), ..mc };
    assert(h + d =~= r);
    assert(forall|u: int| 0 <= u < c.len() ==> !(#[trigger] c[u] is Label));
    if i != 0 {
        lemma_prefix_labels(out, first, t, c, l);
        lemma_jump_phase(h, s, i, l, mc);
    } else {
        assert(run(r, mc, 0) == mc);
    }
    assert(run(r, mc, rd) == md);
    assert(resumed(h.len() as int, i, me, md));
    // the rest of the program
    assert forall|q: int| 0 <= q < s.len() && #[trigger] step_target(s[q]) is Some implies step_target(
        s[q],
    )->0 != l && forall|u: int| 0 <= u < h.len() ==> h[u] != Step::Label(step_target(s[q])->0) by {
        lemma_prefix_labels(out, first, t, c, step_target(s[q])->0);
    }
    lemma_run_add(s, start(), fuel, f);
    lemma_resume_simulates(h, s, i, l, me, md, f);
    let re = resume_fuel(h.len() as int, i, me, md, f);
    lemma_run_add(r, mc, rd, re);
    lemma_run_add(r, mb, rc, rd + re);
    lemma_run_add(r, ma, rb, rc + (rd + re));
    lemma_run_add(r, start(), ra, rb + (rc + (rd + re)));
    let g = ra + (rb + (rc + (rd + re)));
    assert(run(r, start(), g) == run(r, md, re));
    assert(run(s, start(), fuel + f) == run(s, me, f));
    assert(finishes(r, md, re));
    assert(finishes(r, start(), g));
    assert(run(r, start(), g).output == run(s, start(), fuel + f).output);
}


pub proof fn lemma_built_labels_below(t: Seq<Token>, k: int)
    requires
        balanced(t),
        t.len() <= TOKEN_LIMIT,
        0 <= k <= t.len(),
    ensures
        labels_below(built(t.take(k)).0, built(t.take(k)).2),
        forall|j: int|
            0 <= j < built(t.take(k)).1.len() ==> (#[trigger] built(t.take(k)).1[j]).0.0
                < built(t.take(k)).2 && built(t.take(k)).1[j].1.0 < built(t.take(k)).2,
    decreases k,
{
    if k == 0 {
        assert(t.take(0) =~= seq![]);
    } else {
        lemma_built_labels_below(t, k - 1);
        let u = t.take(k);
        assert(u.drop_last() =~= t.take(k - 1));
        let (s0, scope, n) = built(t.take(k - 1));
        let (s2, scope2, n2) = built(u);
        lemma_built_open_loops(t, k - 1);
        lemma_built_open_loops(t, k);
        lemma_built_label_count(t, k - 1);
        assert(n <= n2);
        assert forall|q: int| 0 <= q < s2.len() implies (#[trigger] step_target(s2[q]) matches Some(
            lb,
        ) ==> lb.0 < n2) && (s2[q] matches Step::Label(lb) ==> lb.0 < n2) by {
            if q < s0.len() {
                assert(s2[q] == s0[q]);
                assert(step_target(s0[q]) matches Some(lb) ==> lb.0 < n);
            } else if u.last() == Token::JumpBackwards {
                assert(scope.len() > 0) by {
                    assert(crate::parser::depth(t.take(k)) >= 0);
                }
                assert(scope.last() == scope[scope.len() - 1]);
            }
        }
        assert forall|j: int| 0 <= j < scope2.len() implies (#[trigger] scope2[j]).0.0 < n2
            && scope2[j].1.0 < n2 by {
            if u.last() == Token::JumpBackwards {
                assert(scope2[j] == scope[j]);
            } else if j < scope.len() {
                assert(scope2[j] == scope[j]);
            }
        }
    }
}

pub proof fn lemma_same_controls_labels_below(a: Seq<Step>, b: Seq<Step>, n: nat)
    requires
        controls(a) == controls(b),
        labels_below(a, n),
    ensures
        labels_below(b, n),
{
    assert forall|q: int| 0 <= q < b.len() implies (#[trigger] step_target(b[q]) matches Some(lb)
        ==> lb.0 < n) && (b[q] matches Step::Label(lb) ==> lb.0 < n) by {
        if is_control(b[q]) {
            lemma_control_in_controls(b, q);
            let j = choose|j: int| 0 <= j < controls(b).len() && controls(b)[j] == b[q];
            lemma_controls_in_source(a, j);
            let k = choose|k: int| 0 <= k < a.len() && a[k] == controls(a)[j];
            assert(step_target(a[k]) matches Some(lb) ==> lb.0 < n);
        }
    }
}

/// The steps that balanced tokens lower to, after the peephole pass, use only
/// labels below those the startup evaluator hands out: the evaluator's
/// labels are fresh.
pub proof fn compiled_labels_are_fresh(t: Seq<Token>)
    requires
        balanced(t),
        t.len() <= TOKEN_LIMIT,
    ensures
        labels_below(peephole(built(t).0), built(t).2),
{
    lemma_built_labels_below(t, t.len() as int);
    assert(t.take(t.len() as int) =~= t);
    lemma_peephole_controls(built(t).0);
    lemma_same_controls_labels_below(built(t).0, peephole(built(t).0), built(t).2);
}


/// The steps the compiler lowers keep what the program does: where the steps
/// of balanced tokens run to their end from a fresh machine in `EVAL_FUEL + f`
/// steps, the steps after the peephole pass and the startup evaluator run to
/// their end too, having written the same bytes. This holds where the tape the
/// evaluator rebuilds ends before the largest index.
pub proof fn compiled_steps_keep_output(t: Seq<Token>, f: nat)
    requires
        balanced(t),
        t.len() <= TOKEN_LIMIT,
        finishes(built(t).0, start(), EVAL_FUEL as nat + f),
        trim(run(peephole(built(t).0), start(), EVAL_FUEL as nat).tape).len() < usize::MAX,
    ensures
        exists|g: nat|
            finishes(startup(peephole(built(t).0), built(t).2), start(), g) && run(
                startup(peephole(built(t).0), built(t).2),
                start(),
                g,
            ).output == run(built(t).0, start(), EVAL_FUEL as nat + f).output,
{
    let s0 = built(t).0;
    let n = built(t).2;
    let p = peephole(s0);
    let fuel = EVAL_FUEL as nat;
    lemma_built_label_count(t, t.len() as int);
    assert(t.take(t.len() as int) =~= t);
    peephole_keeps_output(s0, start(), fuel + f);
    let m = run(p, start(), fuel);
    if m.index == p.len() {
        lemma_run_output_bound(p, start(), fuel);
        emitted_bytes_replay(m.output, n);
        lemma_run_finished(p, start(), fuel, fuel + f);
        let g = replay_fuel(m.output, 0);
        assert(finishes(startup(p, n), start(), g));
    } else {
        compiled_labels_are_fresh(t);
        startup_resumes(p, n, f);
    }
}


/// The peephole pass never makes a program longer.
pub proof fn peephole_never_grows(w: Seq<Step>)
    ensures
        peephole(w).len() <= w.len(),
    decreases w.len(),
{
    if w.len() >= 2 {
        let c = combine_steps(w[0], w[1]);
        if c.len() == 2 {
            peephole_never_grows(w.skip(1));
        } else {
            peephole_never_grows(c + w.skip(2));
        }
    }
}

} // verus!
