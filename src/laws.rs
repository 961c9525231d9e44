use vstd::prelude::*;
use crate::ir::{depth_at, lemma_depth_same_weights, lemma_paired_unique_close, lemma_paired_unique_open, paired, weight, Instruction};
use crate::interp::{run_spec, step_spec, MachineState, Outcome};
use crate::parser::{bump, count_of, erase, is_op, extend, fold, merges, parses_to, shape, significant, single};

verus! {

/// Parsing is a function of the text: two programs that both parse from
/// the same text are the same program.
pub proof fn lemma_parse_deterministic(s: Seq<char>, a: Seq<Instruction>, b: Seq<Instruction>)
    requires
        parses_to(s, a),
        parses_to(s, b),
    ensures
        a == b,
{
    assert(shape(a).len() == shape(b).len());
    assert forall|i: int| 0 <= i < a.len() implies weight(#[trigger] a[i]) == weight(b[i]) by {
        assert(shape(a)[i] == shape(b)[i]);
    }
    lemma_depth_same_weights(a, b);
    assert forall|i: int| 0 <= i < a.len() implies #[trigger] a[i] == b[i] by {
        assert(shape(a)[i] == erase(a[i]));
        assert(shape(b)[i] == erase(b[i]));
        if a[i] is JumpIfZero {
            let ta = a[i]->JumpIfZero_0 as int;
            let tb = b[i]->JumpIfZero_0 as int;
            assert(paired(a, i, ta - 1));
            assert(paired(b, i, tb - 1));
            assert(shape(a)[ta - 1] == shape(b)[ta - 1]);
            assert(paired(b, i, ta - 1));
            lemma_paired_unique_close(b, i, ta - 1, tb - 1);
        } else if a[i] is JumpIfNotZero {
            let ta = a[i]->JumpIfNotZero_0 as int;
            let tb = b[i]->JumpIfNotZero_0 as int;
            assert(paired(a, ta - 1, i));
            assert(paired(b, tb - 1, i));
            assert(shape(a)[ta - 1] == shape(b)[ta - 1]);
            assert(paired(b, ta - 1, i));
            lemma_paired_unique_open(b, ta - 1, tb - 1, i);
        }
    }
    assert(a =~= b);
}

/// `k` plus signs.
pub open spec fn pluses(k: nat) -> Seq<char> {
    Seq::new(k, |i: int| '+')
}

proof fn lemma_fold_pluses(k: nat)
    requires
        1 <= k <= 255,
    ensures
        fold(pluses(k)) == seq![Instruction::Add(k as u8)],
    decreases k,
{
    assert(pluses(k).last() == '+');
    if k > 1 {
        lemma_fold_pluses((k - 1) as nat);
        assert(pluses(k).drop_last() =~= pluses((k - 1) as nat));
        let f = seq![Instruction::Add((k - 1) as u8)];
        assert(f.last() == Instruction::Add((k - 1) as u8));
        assert(merges(f.last(), '+'));
        assert(bump(f.last()) == Instruction::Add(k as u8));
        assert(fold(pluses(k)) == extend(f, '+'));
        assert(seq![Instruction::Add((k - 1) as u8)].drop_last().push(Instruction::Add(k as u8))
            =~= seq![Instruction::Add(k as u8)]);
    } else {
        assert(pluses(k).drop_last() =~= Seq::<char>::empty());
        assert(fold(pluses(k).drop_last()) =~= Seq::<Instruction>::empty());
        assert(fold(pluses(k)) == extend(Seq::<Instruction>::empty(), '+'));
        assert(Seq::<Instruction>::empty().push(Instruction::Add(1)) =~= seq![Instruction::Add(1)]);
    }
}

/// Cells wrap modulo 256: the program of 256 `+` parses to `Add(255)`,
/// `Add(1)`, and the interpreter, run from any state at its start, halts after
/// it with the tape unchanged and nothing written.
pub proof fn lemma_wrap_around(
    s: Seq<char>,
    p: Seq<Instruction>,
    st: MachineState,
    input: Seq<u8>,
)
    requires
        parses_to(s, p),
        significant(s) == pluses(256),
        st.ip == 0,
        st.done == 0,
        0 <= st.mp < st.tape.len(),
    ensures
        p == seq![Instruction::Add(255), Instruction::Add(1)],
        run_spec(p, st, input, 3) == (
        MachineState { ip: 2, ..st },
        Seq::<u8>::empty(),
        Outcome::Halted,
    ),
{
    lemma_fold_pluses(255);
    assert(pluses(256).drop_last() =~= pluses(255));
    assert(pluses(256).last() == '+');
    let q = seq![Instruction::Add(255), Instruction::Add(1)];
    assert(fold(pluses(256)) =~= q);
    assert(shape(p) == q);
    assert(p.len() == 2);
    assert(erase(p[0]) == shape(p)[0]);
    assert(erase(p[1]) == shape(p)[1]);
    assert(p =~= q);
    let v = st.tape[st.mp];
    let st1 = step_spec(p, st).0;
    assert(st1.tape == st.tape.update(st.mp, ((v + 255) % 256) as u8));
    let st2 = step_spec(p, st1).0;
    assert(st2.tape =~= st.tape);
    assert(st2 == MachineState { ip: 2, ..st });
    assert(run_spec(p, st2, input, 1) == (st2, Seq::<u8>::empty(), Outcome::Halted));
    assert(run_spec(p, st1, input, 2) == run_spec(p, st2, input, 1));
}

/// Machine state for running straight-line code one whole instruction at a
/// time: cells past the end of `tape` read zero until written.
pub struct LineConf {
    pub mp: int,
    pub tape: Seq<u8>,
    pub input: Seq<u8>,
    pub output: Seq<u8>,
}

pub open spec fn line_cell(c: LineConf) -> u8 {
    if 0 <= c.mp < c.tape.len() {
        c.tape[c.mp]
    } else {
        0
    }
}

pub open spec fn line_set(c: LineConf, b: u8) -> LineConf {
    let t = if c.mp < c.tape.len() {
        c.tape
    } else {
        c.tape + Seq::new((c.mp + 1 - c.tape.len()) as nat, |i: int| 0u8)
    };
    LineConf { tape: t.update(c.mp, b), ..c }
}

/// `k` reads of one byte each into the current cell; `None` once input runs out.
pub open spec fn line_read(c: LineConf, k: nat) -> Option<LineConf>
    decreases k,
{
    if k == 0 {
        Some(c)
    } else {
        match line_read(c, (k - 1) as nat) {
            None => None,
            Some(d) => if d.input.len() == 0 {
                None
            } else {
                Some(LineConf { input: d.input.drop_first(), ..line_set(d, d.input[0]) })
            },
        }
    }
}

/// `k` writes of the current cell.
pub open spec fn line_write(c: LineConf, k: nat) -> LineConf
    decreases k,
{
    if k == 0 {
        c
    } else {
        let d = line_write(c, (k - 1) as nat);
        LineConf { output: d.output.push(line_cell(d)), ..d }
    }
}

/// One whole instruction of straight-line code; `None` on a fault. Jumps are
/// not straight-line code and fault.
pub open spec fn line_ins(ins: Instruction, c: LineConf) -> Option<LineConf> {
    match ins {
        Instruction::Add(n) => Some(line_set(c, ((line_cell(c) + n) % 256) as u8)),
        Instruction::Sub(n) => Some(line_set(c, ((line_cell(c) - n) % 256) as u8)),
        Instruction::Right(n) => Some(LineConf { mp: c.mp + n, ..c }),
        Instruction::Left(n) => if c.mp < n {
            None
        } else {
            Some(LineConf { mp: c.mp - n, ..c })
        },
        Instruction::Input(n) => line_read(c, n as nat),
        Instruction::Output(n) => Some(line_write(c, n as nat)),
        _ => None,
    }
}

/// Straight-line code run instruction by instruction.
pub open spec fn line_run(p: Seq<Instruction>, c: LineConf) -> Option<LineConf>
    decreases p.len(),
{
    if p.len() == 0 {
        Some(c)
    } else {
        match line_run(p.drop_last(), c) {
            None => None,
            Some(d) => line_ins(p.last(), d),
        }
    }
}

proof fn lemma_set_twice(c: LineConf, a: u8, b: u8)
    requires
        c.mp >= 0,
    ensures
        line_cell(line_set(c, a)) == a,
        line_set(line_set(c, a), b) == line_set(c, b),
{
    let d = line_set(c, a);
    assert(line_set(d, b).tape =~= line_set(c, b).tape);
}

proof fn lemma_wrap_step(a: int)
    ensures
        ((((a % 256) as u8) + 1) % 256) as u8 == ((a + 1) % 256) as u8,
        ((((a % 256) as u8) - 1) % 256) as u8 == ((a - 1) % 256) as u8,
{
}

proof fn lemma_bump_is_one_more(ins: Instruction, x: char, c: LineConf)
    requires
        merges(ins, x),
        count_of(ins) < usize::MAX,
        c.mp >= 0,
    ensures
        line_ins(bump(ins), c) == match line_ins(ins, c) {
            None => None,
            Some(d) => line_ins(single(x), d),
        },
{
    match ins {
        Instruction::Add(n) => {
            let a = line_cell(c) + n;
            lemma_set_twice(c, (a % 256) as u8, ((a + 1) % 256) as u8);
            lemma_wrap_step(a);
            assert(single(x) == Instruction::Add(1));
            assert(bump(ins) == Instruction::Add((n + 1) as u8));
            let d = line_set(c, (a % 256) as u8);
            assert(line_ins(ins, c) == Some(d));
            assert(line_ins(Instruction::Add(1), d) == Some(line_set(d, ((line_cell(d) + 1) % 256) as u8)));
            assert(line_ins(bump(ins), c) == Some(line_set(c, ((a + 1) % 256) as u8)));
            assert(line_cell(d) == (a % 256) as u8);
            assert(((line_cell(d) + 1) % 256) as u8 == ((a + 1) % 256) as u8);
            assert(line_set(d, ((a + 1) % 256) as u8) == line_set(c, ((a + 1) % 256) as u8));
        },
        Instruction::Sub(n) => {
            let a = line_cell(c) - n;
            lemma_set_twice(c, (a % 256) as u8, ((a - 1) % 256) as u8);
            lemma_wrap_step(a);
            assert(single(x) == Instruction::Sub(1));
            assert(bump(ins) == Instruction::Sub((n + 1) as u8));
            let d = line_set(c, (a % 256) as u8);
            assert(line_ins(ins, c) == Some(d));
            assert(line_ins(Instruction::Sub(1), d) == Some(line_set(d, ((line_cell(d) - 1) % 256) as u8)));
            assert(line_ins(bump(ins), c) == Some(line_set(c, ((a - 1) % 256) as u8)));
        },
        Instruction::Input(n) => {
            let r = line_read(c, n as nat);
            if let Some(d) = r {
                assert(line_read(d, 0) == Some(d));
            }
        },
        Instruction::Output(n) => {
            let d = line_write(c, n as nat);
            assert(line_write(d, 0) == d);
        },
        _ => {},
    }
}

proof fn lemma_line_ins_mp(ins: Instruction, c: LineConf)
    requires
        c.mp >= 0,
    ensures
        line_ins(ins, c) matches Some(d) ==> d.mp == c.mp || ins is Right || ins is Left,
        line_ins(ins, c) matches Some(d) ==> d.mp >= 0,
{
    match ins {
        Instruction::Input(n) => lemma_line_read_mp(c, n as nat),
        Instruction::Output(n) => lemma_line_write_mp(c, n as nat),
        _ => {},
    }
}

proof fn lemma_line_read_mp(c: LineConf, k: nat)
    ensures
        line_read(c, k) matches Some(d) ==> d.mp == c.mp,
    decreases k,
{
    if k > 0 {
        lemma_line_read_mp(c, (k - 1) as nat);
    }
}

proof fn lemma_line_write_mp(c: LineConf, k: nat)
    ensures
        line_write(c, k).mp == c.mp,
    decreases k,
{
    if k > 0 {
        lemma_line_write_mp(c, (k - 1) as nat);
    }
}

proof fn lemma_line_run_mp(p: Seq<Instruction>, c: LineConf)
    requires
        c.mp >= 0,
    ensures
        line_run(p, c) matches Some(d) ==> d.mp >= 0,
    decreases p.len(),
{
    if p.len() > 0 {
        lemma_line_run_mp(p.drop_last(), c);
        if let Some(d) = line_run(p.drop_last(), c) {
            lemma_line_ins_mp(p.last(), d);
        }
    }
}

proof fn lemma_fold_counts(t: Seq<char>)
    ensures
        forall|i: int| 0 <= i < fold(t).len() ==> count_of(#[trigger] fold(t)[i]) <= t.len(),
    decreases t.len(),
{
    if t.len() > 0 {
        let t0 = t.drop_last();
        lemma_fold_counts(t0);
        let f0 = fold(t0);
        assert(fold(t) == extend(f0, t.last()));
        assert forall|i: int| 0 <= i < fold(t).len() implies count_of(#[trigger] fold(t)[i]) <= t.len() by {
            if f0.len() > 0 && merges(f0.last(), t.last()) {
                if i < f0.len() - 1 {
                    assert(fold(t)[i] == f0[i]);
                } else {
                    assert(fold(t)[i] == bump(f0.last()));
                    assert(count_of(f0[f0.len() - 1]) <= t0.len());
                }
            } else {
                if i < f0.len() {
                    assert(fold(t)[i] == f0[i]);
                } else {
                    assert(fold(t)[i] == single(t.last()));
                }
            }
        }
    }
}

/// Run-length folding keeps the meaning of straight-line code.
proof fn lemma_fold_line(t: Seq<char>, c: LineConf)
    requires
        t.len() <= usize::MAX,
        c.mp >= 0,
        forall|i: int| 0 <= i < t.len() ==> #[trigger] t[i] != '[' && t[i] != ']',
    ensures
        line_run(fold(t), c) == line_run(t.map_values(|x: char| single(x)), c),
    decreases t.len(),
{
    if t.len() > 0 {
        let t0 = t.drop_last();
        let x = t.last();
        lemma_fold_line(t0, c);
        let u = t.map_values(|x: char| single(x));
        let u0 = t0.map_values(|x: char| single(x));
        assert(u.drop_last() =~= u0);
        let f0 = fold(t0);
        if f0.len() > 0 && merges(f0.last(), x) {
            let q = f0.drop_last();
            assert(fold(t) == q.push(bump(f0.last())));
            assert(q.push(bump(f0.last())).drop_last() == q);
            assert(f0 == q.push(f0.last()));
            assert(q.push(f0.last()).drop_last() == q);
            match line_run(q, c) {
                None => {},
                Some(d) => {
                    lemma_line_run_mp(q, c);
                    lemma_fold_counts(t0);
                    assert(count_of(f0[f0.len() - 1]) <= t0.len());
                    lemma_bump_is_one_more(f0.last(), x, d);
                },
            }
        } else {
            assert(fold(t).drop_last() == f0);
        }
    }
}

/// For a text whose significant characters hold no bracket, running the
/// parsed program a whole instruction at a time gives the same result as
/// running its characters one at a time.
pub proof fn lemma_run_length_faithful(s: Seq<char>, p: Seq<Instruction>, c: LineConf)
    requires
        c.mp >= 0,
        significant(s).len() <= usize::MAX,
        parses_to(s, p),
        forall|i: int|
            0 <= i < significant(s).len() ==> #[trigger] significant(s)[i] != '['
                && significant(s)[i] != ']',
    ensures
        line_run(p, c) == line_run(significant(s).map_values(|x: char| single(x)), c),
{
    let t = significant(s);
    lemma_significant_ops(s);
    lemma_fold_line(t, c);
    lemma_fold_no_jumps(t);
    assert forall|i: int| 0 <= i < p.len() implies #[trigger] p[i] == fold(t)[i] by {
        assert(shape(p)[i] == erase(p[i]));
    }
    assert(p =~= fold(t));
}

proof fn lemma_significant_ops(s: Seq<char>)
    ensures
        forall|i: int| 0 <= i < significant(s).len() ==> is_op(#[trigger] significant(s)[i]),
    decreases s.len(),
{
    if s.len() > 0 {
        lemma_significant_ops(s.drop_first());
        let head: Seq<char> = if is_op(s[0]) {
            seq![s[0]]
        } else {
            seq![]
        };
        assert(significant(s) == head + significant(s.drop_first()));
        assert forall|i: int| 0 <= i < significant(s).len() implies is_op(#[trigger] significant(s)[i]) by {
            if i >= head.len() {
                assert(significant(s)[i] == significant(s.drop_first())[i - head.len()]);
            }
        }
    }
}

proof fn lemma_fold_no_jumps(t: Seq<char>)
    requires
        forall|i: int| 0 <= i < t.len() ==> #[trigger] t[i] != '[' && t[i] != ']' && is_op(t[i]),
    ensures
        forall|i: int|
            0 <= i < fold(t).len() ==> !(#[trigger] fold(t)[i] is JumpIfZero) && !(
            fold(t)[i] is JumpIfNotZero),
    decreases t.len(),
{
    if t.len() > 0 {
        let t0 = t.drop_last();
        lemma_fold_no_jumps(t0);
        let f0 = fold(t0);
        assert(t[t.len() - 1] == t.last());
        assert(fold(t) == extend(f0, t.last()));
        assert forall|i: int| 0 <= i < fold(t).len() implies !(#[trigger] fold(t)[i] is JumpIfZero)
            && !(fold(t)[i] is JumpIfNotZero) by {
            if f0.len() > 0 && merges(f0.last(), t.last()) {
                if i < f0.len() - 1 {
                    assert(fold(t)[i] == f0[i]);
                } else {
                    assert(fold(t)[i] == bump(f0.last()));
                }
            } else {
                if i < f0.len() {
                    assert(fold(t)[i] == f0[i]);
                } else {
                    assert(fold(t)[i] == single(t.last()));
                }
            }
        }
    }
}

} // verus!
