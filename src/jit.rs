use vstd::prelude::*;
use crate::ir::{well_formed, BFProgram, Instruction};

verus! {

/// The largest code length, `ret` included, that 32-bit signed displacements
/// can span.
pub const MAX_CODE_LEN: usize = 0x7fff_ffff;

/// The largest pointer step that a sign-extended 32-bit immediate holds.
pub const MAX_STEP: usize = 0x7fff_ffff;

/// Why a program cannot be lowered.
#[derive(Clone, Copy, Debug, PartialEq, Eq, Structural)]
pub enum LowerError {
    /// The code would exceed `MAX_CODE_LEN` bytes, or a pointer step exceeds
    /// `MAX_STEP`.
    TooLarge,
}

/// The four little-endian bytes of `v` taken modulo 2^32.
pub open spec fn le32(v: int) -> Seq<u8> {
    let u = v % 0x1_0000_0000;
    seq![
        (u % 256) as u8,
        ((u / 256) % 256) as u8,
        ((u / 0x1_0000) % 256) as u8,
        ((u / 0x100_0000) % 256) as u8,
    ]
}

/// `push rdi; mov rax, nr; mov rsi, rdi; mov rdi, fd; mov rdx, 1; syscall; pop rdi`
pub open spec fn syscall_code(nr: u8, fd: u8) -> Seq<u8> {
    seq![
        0x57u8,
        0x48, 0xc7, 0xc0, nr, 0x00, 0x00, 0x00,
        0x48, 0x89, 0xfe,
        0x48, 0xc7, 0xc7, fd, 0x00, 0x00, 0x00,
        0x48, 0xc7, 0xc2, 0x01, 0x00, 0x00, 0x00,
        0x0f, 0x05,
        0x5f,
    ]
}

/// `n` copies of `b`.
pub open spec fn repeat(b: Seq<u8>, n: nat) -> Seq<u8>
    decreases n,
{
    if n == 0 {
        Seq::empty()
    } else {
        repeat(b, (n - 1) as nat) + b
    }
}

/// `xor rax, rax; mov al, [rdi]; test rax, rax`
pub open spec fn test_code() -> Seq<u8> {
    seq![0x48u8, 0x31, 0xc0, 0x8a, 0x07, 0x48, 0x85, 0xc0]
}

/// Length of the machine code of one instruction.
pub open spec fn ins_len(ins: Instruction) -> nat {
    match ins {
        Instruction::Add(_) => 3,
        Instruction::Sub(_) => 3,
        Instruction::Left(_) => 7,
        Instruction::Right(_) => 7,
        Instruction::Input(n) => (28 * n) as nat,
        Instruction::Output(n) => (28 * n) as nat,
        Instruction::JumpIfZero(_) => 14,
        Instruction::JumpIfNotZero(_) => 14,
    }
}

/// Native offset at which the code of instruction `k` starts.
pub open spec fn offset(s: Seq<Instruction>, k: int) -> nat
    decreases k,
{
    if k <= 0 {
        0
    } else {
        offset(s, k - 1) + ins_len(s[k - 1])
    }
}

/// Displacement of the jump of instruction `i` to the start of instruction `t`:
/// relative to the end of the 14-byte jump sequence.
pub open spec fn disp(s: Seq<Instruction>, i: int, t: int) -> int {
    offset(s, t) - (offset(s, i) + 14)
}

/// Machine code of instruction `i`; a jump on zero with its displacement
/// filled in only when `patched`.
pub open spec fn encode(s: Seq<Instruction>, i: int, patched: bool) -> Seq<u8> {
    match s[i] {
        Instruction::Add(n) => seq![0x80u8, 0x07, n],
        Instruction::Sub(n) => seq![0x80u8, 0x2f, n],
        Instruction::Right(n) => seq![0x48u8, 0x81, 0xc7] + le32(n as int),
        Instruction::Left(n) => seq![0x48u8, 0x81, 0xef] + le32(n as int),
        Instruction::Output(n) => repeat(syscall_code(1, 1), n as nat),
        Instruction::Input(n) => repeat(syscall_code(0, 0), n as nat),
        Instruction::JumpIfZero(t) => test_code() + seq![0x0fu8, 0x84] + if patched {
            le32(disp(s, i, t as int))
        } else {
            seq![0u8, 0, 0, 0]
        },
        Instruction::JumpIfNotZero(t) => test_code() + seq![0x0fu8, 0x85] + le32(
            disp(s, i, t as int),
        ),
    }
}

/// Code of the first `k` instructions, where a jump on zero is patched
/// exactly when its index is in `done`.
pub open spec fn code_with(s: Seq<Instruction>, k: int, done: Seq<usize>) -> Seq<u8>
    decreases k,
{
    if k <= 0 {
        Seq::empty()
    } else {
        code_with(s, k - 1, done) + encode(s, k - 1, done.contains((k - 1) as usize))
    }
}

/// The machine code of a program: every instruction's code in order, all
/// jumps resolved, then `ret`.
pub open spec fn lower(s: Seq<Instruction>) -> Seq<u8> {
    code_with(s, s.len() as int, Seq::new(s.len(), |i: int| i as usize)) + seq![0xc3u8]
}

/// The program fits the encoding: pointer steps fit the immediate, and the
/// whole code fits the displacement range.
pub open spec fn lowerable(s: Seq<Instruction>) -> bool {
    &&& offset(s, s.len() as int) + 1 <= MAX_CODE_LEN
    &&& forall|i: int|
        0 <= i < s.len() ==> match #[trigger] s[i] {
            Instruction::Left(n) | Instruction::Right(n) => n <= MAX_STEP,
            _ => true,
        }
}

pub proof fn lemma_offset_monotone(s: Seq<Instruction>, a: int, b: int)
    requires
        a <= b,
    ensures
        offset(s, a) <= offset(s, b),
    decreases b - a,
{
    if a < b {
        lemma_offset_monotone(s, a, b - 1);
    }
}

proof fn lemma_repeat_len(b: Seq<u8>, n: nat)
    ensures
        repeat(b, n).len() == n * b.len(),
    decreases n,
{
    if n > 0 {
        let m = (n - 1) as nat;
        lemma_repeat_len(b, m);
        assert(repeat(b, n) == repeat(b, m) + b);
        assert(n * b.len() == m * b.len() + b.len()) by (nonlinear_arith)
            requires
                n == m + 1,
        ;
    } else {
        assert(n * b.len() == 0) by (nonlinear_arith)
            requires
                n == 0,
        ;
    }
}

proof fn lemma_encode_len(s: Seq<Instruction>, i: int, patched: bool)
    requires
        0 <= i < s.len(),
    ensures
        encode(s, i, patched).len() == ins_len(s[i]),
{
    match s[i] {
        Instruction::Output(n) => {
            assert(syscall_code(1, 1).len() == 28);
            lemma_repeat_len(syscall_code(1, 1), n as nat);
        },
        Instruction::Input(n) => {
            assert(syscall_code(0, 0).len() == 28);
            lemma_repeat_len(syscall_code(0, 0), n as nat);
        },
        _ => {},
    }
}

proof fn lemma_code_with_len(s: Seq<Instruction>, k: int, done: Seq<usize>)
    requires
        0 <= k <= s.len(),
    ensures
        code_with(s, k, done).len() == offset(s, k),
    decreases k,
{
    if k > 0 {
        lemma_code_with_len(s, k - 1, done);
        lemma_encode_len(s, k - 1, done.contains((k - 1) as usize));
    }
}


/// `b` with the four bytes from `at` on replaced by `w`.
pub open spec fn write4(b: Seq<u8>, at: int, w: Seq<u8>) -> Seq<u8> {
    b.update(at, w[0]).update(at + 1, w[1]).update(at + 2, w[2]).update(at + 3, w[3])
}

/// The code depends on `done` only through the jumps on zero it names.
proof fn lemma_code_with_same(s: Seq<Instruction>, k: int, d1: Seq<usize>, d2: Seq<usize>)
    requires
        0 <= k <= s.len(),
        forall|j: int|
            0 <= j < k && #[trigger] s[j] is JumpIfZero ==> (d1.contains(j as usize)
                <==> d2.contains(j as usize)),
    ensures
        code_with(s, k, d1) == code_with(s, k, d2),
    decreases k,
{
    if k > 0 {
        lemma_code_with_same(s, k - 1, d1, d2);
        if !(s[k - 1] is JumpIfZero) {
            assert(encode(s, k - 1, true) == encode(s, k - 1, false));
        }
    }
}

/// Patching the jump on zero at `i` writes its displacement into the four
/// bytes that follow its opcode.
proof fn lemma_patch(s: Seq<Instruction>, k: int, done: Seq<usize>, i: int)
    requires
        0 <= i < k <= s.len(),
        s[i] is JumpIfZero,
        !done.contains(i as usize),
        s.len() <= usize::MAX,
    ensures
        code_with(s, k, done.push(i as usize)) == write4(
            code_with(s, k, done),
            offset(s, i) + 10int,
            le32(disp(s, i, s[i]->JumpIfZero_0 as int)),
        ),
    decreases k,
{
    let d2 = done.push(i as usize);
    let w = le32(disp(s, i, s[i]->JumpIfZero_0 as int));
    let at = offset(s, i) + 10int;
    assert forall|j: int| 0 <= j < k && j != i implies (#[trigger] d2.contains(j as usize) <==> done.contains(j as usize)) by {
        if d2.contains(j as usize) {
            let q = choose|q: int| 0 <= q < d2.len() && d2[q] == j as usize;
            assert(q != done.len());
            assert(done[q] == j as usize);
        }
        if done.contains(j as usize) {
            let q = choose|q: int| 0 <= q < done.len() && done[q] == j as usize;
            assert(d2[q] == j as usize);
        }
    }
    assert(d2[done.len() as int] == i as usize);
    assert(d2.contains(i as usize));
    if k == i + 1 {
        lemma_code_with_same(s, i, d2, done);
        lemma_code_with_len(s, i, done);
        let a = code_with(s, i, done);
        assert(code_with(s, k, done) == a + encode(s, i, false));
        assert(code_with(s, k, d2) == a + encode(s, i, true));
        assert(code_with(s, k, d2) =~= write4(code_with(s, k, done), at, w));
    } else {
        lemma_patch(s, k - 1, done, i);
        lemma_code_with_len(s, k - 1, done);
        lemma_offset_monotone(s, i + 1, k - 1);
        let a = code_with(s, k - 1, done);
        let e = encode(s, k - 1, done.contains((k - 1) as usize));
        assert(encode(s, k - 1, d2.contains((k - 1) as usize)) == e);
        assert(code_with(s, k, d2) == code_with(s, k - 1, d2) + e);
        assert(code_with(s, k, d2) =~= write4(a + e, at, w));
    }
}

/// The machine code length of `ins`, if it is at most `room`.
fn code_len_of(ins: Instruction, room: usize) -> (r: Option<usize>)
    ensures
        r matches Some(l) ==> l == ins_len(ins) && l <= room,
        r is None ==> ins_len(ins) > room,
{
    let l: usize = match ins {
        Instruction::Add(_) | Instruction::Sub(_) => 3,
        Instruction::Left(_) | Instruction::Right(_) => 7,
        Instruction::Input(c) | Instruction::Output(c) => {
            if c > room / 28 {
                assert(28 * c > room) by (nonlinear_arith)
                    requires
                        c > room / 28,
                ;
                return None;
            }
            assert(28 * c <= room) by (nonlinear_arith)
                requires
                    c <= room / 28,
            ;
            28 * c
        },
        Instruction::JumpIfZero(_) | Instruction::JumpIfNotZero(_) => 14,
    };
    if l > room {
        None
    } else {
        Some(l)
    }
}

fn emit_le32(code: &mut Vec<u8>, v: u32)
    ensures
        final(code)@ == old(code)@ + le32(v as int),
{
    code.push((v % 256) as u8);
    code.push(((v / 256) % 256) as u8);
    code.push(((v / 0x1_0000) % 256) as u8);
    code.push(((v / 0x100_0000) % 256) as u8);
    assert(final(code)@ =~= old(code)@ + le32(v as int));
}

fn emit_syscall(code: &mut Vec<u8>, nr: u8, fd: u8)
    ensures
        final(code)@ == old(code)@ + syscall_code(nr, fd),
{
    code.push(0x57);
    code.push(0x48);
    code.push(0xc7);
    code.push(0xc0);
    code.push(nr);
    code.push(0x00);
    code.push(0x00);
    code.push(0x00);
    code.push(0x48);
    code.push(0x89);
    code.push(0xfe);
    code.push(0x48);
    code.push(0xc7);
    code.push(0xc7);
    code.push(fd);
    code.push(0x00);
    code.push(0x00);
    code.push(0x00);
    code.push(0x48);
    code.push(0xc7);
    code.push(0xc2);
    code.push(0x01);
    code.push(0x00);
    code.push(0x00);
    code.push(0x00);
    code.push(0x0f);
    code.push(0x05);
    code.push(0x5f);
    assert(final(code)@ =~= old(code)@ + syscall_code(nr, fd));
}

fn emit_syscalls(code: &mut Vec<u8>, nr: u8, fd: u8, count: usize)
    ensures
        final(code)@ == old(code)@ + repeat(syscall_code(nr, fd), count as nat),
{
    let mut k: usize = 0;
    assert(old(code)@ == old(code)@ + repeat(syscall_code(nr, fd), 0));
    while k < count
        invariant
            k <= count,
            code@ == old(code)@ + repeat(syscall_code(nr, fd), k as nat),
        decreases count - k,
    {
        emit_syscall(code, nr, fd);
        proof {
            assert(repeat(syscall_code(nr, fd), (k + 1) as nat) == repeat(
                syscall_code(nr, fd),
                k as nat,
            ) + syscall_code(nr, fd));
            assert(code@ =~= old(code)@ + repeat(syscall_code(nr, fd), (k + 1) as nat));
        }
        k += 1;
    }
}

fn emit_test(code: &mut Vec<u8>, op: u8)
    ensures
        final(code)@ == old(code)@ + test_code() + seq![0x0fu8, op],
{
    code.push(0x48);
    code.push(0x31);
    code.push(0xc0);
    code.push(0x8a);
    code.push(0x07);
    code.push(0x48);
    code.push(0x85);
    code.push(0xc0);
    code.push(0x0f);
    code.push(op);
    assert(final(code)@ =~= old(code)@ + test_code() + seq![0x0fu8, op]);
}


/// Jumps on non-zero go back, jumps on zero go forward, all within the program.
spec fn jumps_ordered(s: Seq<Instruction>) -> bool {
    forall|k: int|
        0 <= k < s.len() ==> match #[trigger] s[k] {
            Instruction::JumpIfZero(t) => k + 1 < t <= s.len(),
            Instruction::JumpIfNotZero(t) => t <= k,
            _ => true,
        }
}

proof fn lemma_jumps_ordered(s: Seq<Instruction>)
    requires
        well_formed(s),
    ensures
        jumps_ordered(s),
{
    assert forall|k: int| 0 <= k < s.len() implies match #[trigger] s[k] {
        Instruction::JumpIfZero(t) => k + 1 < t <= s.len(),
        Instruction::JumpIfNotZero(t) => t <= k,
        _ => true,
    } by {
        if s[k] is JumpIfZero {
        } else if s[k] is JumpIfNotZero {
        }
    }
}

/// Writes the displacement from the end of the four bytes at `site` to
/// `target` into those bytes.
fn patch_one(code: &mut Vec<u8>, site: usize, target: usize)
    requires
        site + 4 <= target,
        target <= old(code)@.len(),
        target <= MAX_CODE_LEN,
    ensures
        final(code)@ == write4(old(code)@, site as int, le32(target - (site + 4))),
{
    let d = (target - (site + 4)) as u32;
    code.set(site, (d % 256) as u8);
    code.set(site + 1, ((d / 256) % 256) as u8);
    code.set(site + 2, ((d / 0x1_0000) % 256) as u8);
    code.set(site + 3, ((d / 0x100_0000) % 256) as u8);
}

/// Appends the code of instruction `i`, a jump on zero with a placeholder
/// displacement; false, and nothing promised of `code`, when it does not fit.
fn emit_one(ins: &Vec<Instruction>, i: usize, offsets: &Vec<usize>, code: &mut Vec<u8>) -> (ok: bool)
    requires
        ins@[i as int] matches Instruction::JumpIfNotZero(t) ==> t <= i,
        i < ins@.len(),
        offsets@.len() == i + 1,
        forall|k: int| 0 <= k <= i ==> #[trigger] offsets@[k] == offset(ins@, k),
        old(code)@.len() == offset(ins@, i as int),
        offset(ins@, i as int) + 1 <= MAX_CODE_LEN,
    ensures
        ok ==> final(code)@ == old(code)@ + encode(ins@, i as int, false),
        ok ==> offset(ins@, i + 1) + 1 <= MAX_CODE_LEN,
        ok <==> (offset(ins@, i + 1) + 1 <= MAX_CODE_LEN && match ins@[i as int] {
            Instruction::Left(c) | Instruction::Right(c) => c <= MAX_STEP,
            _ => true,
        }),
{
    let ghost s = ins@;
    let cur = code.len();
    let instruction = ins[i];
    match code_len_of(instruction, MAX_CODE_LEN - 1 - cur) {
        Some(l) => {},
        None => {
            return false;
        },
    };
    match instruction {
        Instruction::Add(c) => {
            code.push(0x80);
            code.push(0x07);
            code.push(c);
            assert(final(code)@ =~= old(code)@ + encode(s, i as int, false));
        },
        Instruction::Sub(c) => {
            code.push(0x80);
            code.push(0x2f);
            code.push(c);
            assert(final(code)@ =~= old(code)@ + encode(s, i as int, false));
        },
        Instruction::Right(c) => {
            if c > MAX_STEP {
                return false;
            }
            code.push(0x48);
            code.push(0x81);
            code.push(0xc7);
            emit_le32(code, c as u32);
            assert(final(code)@ =~= old(code)@ + encode(s, i as int, false));
        },
        Instruction::Left(c) => {
            if c > MAX_STEP {
                return false;
            }
            code.push(0x48);
            code.push(0x81);
            code.push(0xef);
            emit_le32(code, c as u32);
            assert(final(code)@ =~= old(code)@ + encode(s, i as int, false));
        },
        Instruction::Output(c) => {
            emit_syscalls(code, 1, 1, c);
        },
        Instruction::Input(c) => {
            emit_syscalls(code, 0, 0, c);
        },
        Instruction::JumpIfZero(_) => {
            emit_test(code, 0x84);
            code.push(0);
            code.push(0);
            code.push(0);
            code.push(0);
            assert(final(code)@ =~= old(code)@ + encode(s, i as int, false));
        },
        Instruction::JumpIfNotZero(t) => {
            // the target follows the matching open bracket, already emitted
            proof {
                lemma_offset_monotone(s, t as int, i as int);
            }
            let back = cur + 14 - offsets[t];
            emit_test(code, 0x85);
            emit_le32(code, (0xffff_ffff - back as u32) + 1);
            assert((0xffff_ffffu32 - back as u32 + 1) as int == disp(s, i as int, t as int)
                % 0x1_0000_0000);
            assert(final(code)@ =~= old(code)@ + encode(s, i as int, false));
        },
    }
    true
}

impl BFProgram {
    /// Lowers the program to x86-64 machine code that takes the tape pointer
    /// in `rdi` and ends in `ret`. Jumps on zero are emitted with a
    /// placeholder displacement and patched once every offset is known.
    #[verifier::rlimit(60)]
    pub fn jit_compile(&self) -> (r: Result<Vec<u8>, LowerError>)
        ensures
            r is Ok <==> lowerable(self@),
            r matches Ok(code) ==> code@ == lower(self@),
    {
        let ins = self.checked_instructions();
        let n = ins.len();
        let ghost s = ins@;
        let mut byte_code: Vec<u8> = Vec::new();
        // native offset at which each instruction starts
        let mut offsets: Vec<usize> = Vec::new();
        offsets.push(0);
        // (patch site, target instruction) of each jump on zero
        let mut patches: Vec<(usize, usize)> = Vec::new();
        let ghost mut opens: Seq<usize> = Seq::empty();
        let mut i: usize = 0;
        proof {
            lemma_jumps_ordered(s);
        }
        while i < n
            invariant
                n == s.len(),
                s == self@,
                ins@ == s,
                jumps_ordered(s),
                i <= n,
                byte_code@ == code_with(s, i as int, Seq::empty()),
                byte_code@.len() == offset(s, i as int),
                offset(s, i as int) + 1 <= MAX_CODE_LEN,
                offsets@.len() == i + 1,
                forall|k: int| 0 <= k <= i ==> #[trigger] offsets@[k] == offset(s, k),
                forall|k: int|
                    0 <= k < i ==> match #[trigger] s[k] {
                        Instruction::Left(c) | Instruction::Right(c) => c <= MAX_STEP,
                        _ => true,
                    },
                patches@.len() == opens.len(),
                opens.no_duplicates(),
                forall|q: int|
                    0 <= q < opens.len() ==> {
                        &&& #[trigger] opens[q] < i
                        &&& s[opens[q] as int] is JumpIfZero
                        &&& patches@[q] == (
                        (offset(s, opens[q] as int) + 10) as usize,
                        s[opens[q] as int]->JumpIfZero_0,
                    )
                    },
                forall|k: int| 0 <= k < i && #[trigger] s[k] is JumpIfZero ==> opens.contains(k as usize),
            decreases n - i,
        {
            let ghost before = byte_code@;
            let ghost opens0 = opens;
            if !emit_one(ins, i, &offsets, &mut byte_code) {
                proof {
                    lemma_offset_monotone(s, i as int + 1, n as int);
                    assert(s[i as int] == s[i as int]);
                }
                return Err(LowerError::TooLarge);
            }
            proof {
                lemma_encode_len(s, i as int, false);
            }
            if let Instruction::JumpIfZero(t) = ins[i] {
                patches.push((offsets[i] + 10, t));
                proof {
                    opens = opens.push(i);
                }
            }
            offsets.push(byte_code.len());
            proof {
                assert forall|k: int| 0 <= k < i + 1 && #[trigger] s[k] is JumpIfZero implies opens.contains(k as usize) by {
                    if k == i {
                        assert(opens[opens.len() - 1] == i);
                    } else {
                        let q = choose|q: int| 0 <= q < opens0.len() && opens0[q] == k as usize;
                        assert(opens[q] == k as usize);
                    }
                }
            }
            i += 1;
        }
        let ghost emitted = byte_code@;
        let mut p: usize = 0;
        assert(opens.subrange(0, 0) == Seq::<usize>::empty());
        while p < patches.len()
            invariant
                n == s.len(),
                s == self@,
                jumps_ordered(s),
                p <= patches@.len(),
                patches@.len() == opens.len(),
                opens.no_duplicates(),
                byte_code@ == code_with(s, n as int, opens.subrange(0, p as int)),
                byte_code@.len() == offset(s, n as int),
                offset(s, n as int) + 1 <= MAX_CODE_LEN,
                offsets@.len() == n + 1,
                forall|k: int| 0 <= k <= n ==> #[trigger] offsets@[k] == offset(s, k),
                forall|q: int|
                    0 <= q < opens.len() ==> {
                        &&& #[trigger] opens[q] < n
                        &&& s[opens[q] as int] is JumpIfZero
                        &&& patches@[q] == (
                        (offset(s, opens[q] as int) + 10) as usize,
                        s[opens[q] as int]->JumpIfZero_0,
                    )
                    },
            decreases patches.len() - p,
        {
            let (site, target) = patches[p];
            let ghost o = opens[p as int] as int;
            proof {
                lemma_offset_monotone(s, o + 1, target as int);
                lemma_offset_monotone(s, target as int, n as int);
                lemma_offset_monotone(s, o + 1, n as int);
            }
            patch_one(&mut byte_code, site, offsets[target]);
            proof {
                let done = opens.subrange(0, p as int);
                assert(!done.contains(o as usize)) by {
                    if done.contains(o as usize) {
                        let q = choose|q: int| 0 <= q < done.len() && done[q] == o as usize;
                        assert(opens[q] == opens[p as int]);
                    }
                }
                lemma_patch(s, n as int, done, o);
                assert(offsets@[target as int] - (site + 4) == disp(s, o, target as int));
                assert(opens.subrange(0, p as int + 1) == done.push(o as usize));
            }
            p += 1;
        }
        proof {
            assert(opens.subrange(0, opens.len() as int) == opens);
            let all = Seq::new(s.len(), |j: int| j as usize);
            assert forall|j: int|
                0 <= j < n && #[trigger] s[j] is JumpIfZero implies (opens.contains(j as usize)
                    <==> all.contains(j as usize)) by {
                assert(all[j] == j as usize);
            }
            lemma_code_with_same(s, n as int, opens, all);
        }
        byte_code.push(0xc3);
        Ok(byte_code)
    }
}


/// Static pointer drift before instruction `k`: the `Right` counts minus the
/// `Left` counts of the instructions before it, each counted once as written.
pub open spec fn drift(s: Seq<Instruction>, k: int) -> int
    decreases k,
{
    if k <= 0 {
        0
    } else {
        drift(s, k - 1) + match s[k - 1] {
            Instruction::Right(n) => n as int,
            Instruction::Left(n) => -(n as int),
            _ => 0,
        }
    }
}

/// Every static drift of the program stays within a tape of `size` cells.
pub open spec fn drift_within(s: Seq<Instruction>, size: int) -> bool {
    forall|k: int| 0 <= k <= s.len() ==> 0 <= #[trigger] drift(s, k) < size
}

impl BFProgram {
    /// Whether the static pointer drift of the program stays on a tape of
    /// `size` cells, as native code, which checks no bounds, needs.
    pub fn drift_fits(&self, size: usize) -> (r: bool)
        ensures
            r == drift_within(self@, size as int),
    {
        let ins = self.instructions();
        let n = ins.len();
        if size == 0 {
            assert(drift(self@, 0) == 0);
            return false;
        }
        let mut pos: usize = 0;
        let mut i: usize = 0;
        while i < n
            invariant
                n == ins@.len(),
                ins@ == self@,
                i <= n,
                pos < size,
                pos as int == drift(self@, i as int),
                forall|k: int| 0 <= k <= i ==> 0 <= #[trigger] drift(self@, k) < size,
            decreases n - i,
        {
            match ins[i] {
                Instruction::Right(c) => {
                    if c >= size - pos {
                        assert(drift(self@, i + 1) >= size);
                        return false;
                    }
                    pos = pos + c;
                },
                Instruction::Left(c) => {
                    if c > pos {
                        assert(drift(self@, i + 1) < 0);
                        return false;
                    }
                    pos = pos - c;
                },
                _ => {},
            }
            i = i + 1;
        }
        true
    }
}

} // verus!
