use vstd::prelude::*;
use std::str::Chars;
use vstd::std_specs::iter::IteratorSpec;
use vstd::string::StrSliceExecFns;
use crate::ir::{
    depth, depth_at, lemma_depth_push, lemma_depth_same_weights, lemma_linked_well_formed,
    linked, paired, weight, count_positive, well_formed, BFProgram, Instruction,
};

verus! {

broadcast use vstd::string::group_string_axioms;

/// Why a source text has no program.
#[derive(Clone, Copy, Debug, PartialEq, Eq, Structural)]
pub enum ParseError {
    /// A `]` with no open `[` before it.
    UnmatchedClose,
    /// The text ends with a `[` still open.
    UnmatchedOpen,
}

/// The eight characters that carry meaning.
pub open spec fn is_op(c: char) -> bool {
    c == '+' || c == '-' || c == '<' || c == '>' || c == ',' || c == '.' || c == '['
        || c == ']'
}

/// The significant characters of a text, in order.
pub open spec fn significant(s: Seq<char>) -> Seq<char>
    decreases s.len(),
{
    if s.len() == 0 {
        seq![]
    } else {
        (if is_op(s[0]) {
            seq![s[0]]
        } else {
            seq![]
        }) + significant(s.drop_first())
    }
}

/// The instruction a single significant character stands for, before linking.
pub open spec fn single(c: char) -> Instruction {
    if c == '+' {
        Instruction::Add(1)
    } else if c == '-' {
        Instruction::Sub(1)
    } else if c == '<' {
        Instruction::Left(1)
    } else if c == '>' {
        Instruction::Right(1)
    } else if c == ',' {
        Instruction::Input(1)
    } else if c == '.' {
        Instruction::Output(1)
    } else if c == '[' {
        Instruction::JumpIfZero(0)
    } else {
        Instruction::JumpIfNotZero(0)
    }
}

/// Whether the character `c` continues the run that `ins` counts.
/// Runs of `+` and `-` are cut into pieces of at most 255.
pub open spec fn merges(ins: Instruction, c: char) -> bool {
    match ins {
        Instruction::Add(n) => c == '+' && n < 255,
        Instruction::Sub(n) => c == '-' && n < 255,
        Instruction::Left(_) => c == '<',
        Instruction::Right(_) => c == '>',
        Instruction::Input(_) => c == ',',
        Instruction::Output(_) => c == '.',
        _ => false,
    }
}

/// `ins` with its count one higher.
pub open spec fn bump(ins: Instruction) -> Instruction {
    match ins {
        Instruction::Add(n) => Instruction::Add((n + 1) as u8),
        Instruction::Sub(n) => Instruction::Sub((n + 1) as u8),
        Instruction::Left(n) => Instruction::Left((n + 1) as usize),
        Instruction::Right(n) => Instruction::Right((n + 1) as usize),
        Instruction::Input(n) => Instruction::Input((n + 1) as usize),
        Instruction::Output(n) => Instruction::Output((n + 1) as usize),
        _ => ins,
    }
}

/// Adds one significant character to a folded sequence.
pub open spec fn extend(p: Seq<Instruction>, c: char) -> Seq<Instruction> {
    if p.len() > 0 && merges(p.last(), c) {
        p.drop_last().push(bump(p.last()))
    } else {
        p.push(single(c))
    }
}

/// Run-length folding of a sequence of significant characters; brackets
/// carry the placeholder target 0.
pub open spec fn fold(t: Seq<char>) -> Seq<Instruction>
    decreases t.len(),
{
    if t.len() == 0 {
        seq![]
    } else {
        extend(fold(t.drop_last()), t.last())
    }
}

/// An instruction with its jump target replaced by 0.
pub open spec fn erase(ins: Instruction) -> Instruction {
    match ins {
        Instruction::JumpIfZero(_) => Instruction::JumpIfZero(0),
        Instruction::JumpIfNotZero(_) => Instruction::JumpIfNotZero(0),
        _ => ins,
    }
}

pub open spec fn shape(s: Seq<Instruction>) -> Seq<Instruction> {
    s.map_values(|i: Instruction| erase(i))
}

/// Count of `[` minus count of `]`.
pub open spec fn bracket_depth(t: Seq<char>) -> int
    decreases t.len(),
{
    if t.len() == 0 {
        0
    } else {
        bracket_depth(t.drop_last()) + if t.last() == '[' {
            1int
        } else if t.last() == ']' {
            -1int
        } else {
            0int
        }
    }
}

/// Some prefix closes more brackets than it opens.
pub open spec fn closes_early(t: Seq<char>) -> bool {
    exists|k: int| 0 <= k <= t.len() && #[trigger] bracket_depth(t.subrange(0, k)) < 0
}

/// The brackets of the significant characters of `s` balance.
pub open spec fn balanced(s: Seq<char>) -> bool {
    !closes_early(significant(s)) && bracket_depth(significant(s)) == 0
}

/// `p` is the program of the text `s`: its brackets balance, `p` is the
/// run-length folding of its significant characters, and every jump targets
/// the instruction after its partner.
pub open spec fn parses_to(s: Seq<char>, p: Seq<Instruction>) -> bool {
    &&& balanced(s)
    &&& shape(p) == fold(significant(s))
    &&& linked(p)
}

/// What parsing `s` gives.
pub open spec fn parse_result(s: Seq<char>, r: Result<Seq<Instruction>, ParseError>) -> bool {
    &&& (r is Ok <==> balanced(s))
    &&& match r {
        Ok(p) => parses_to(s, p),
        Err(ParseError::UnmatchedClose) => closes_early(significant(s)),
        Err(ParseError::UnmatchedOpen) => !closes_early(significant(s)) && bracket_depth(
            significant(s),
        ) > 0,
    }
}

pub proof fn lemma_significant_len(s: Seq<char>)
    ensures
        significant(s).len() <= s.len(),
    decreases s.len(),
{
    if s.len() > 0 {
        lemma_significant_len(s.drop_first());
    }
}

/// A lazy reader of the significant characters of a text.
struct BFSourceCode<'a> {
    chars: Chars<'a>,
}

fn is_op_char(c: char) -> (r: bool)
    ensures
        r == is_op(c),
{
    c == '+' || c == '-' || c == '<' || c == '>' || c == ',' || c == '.' || c == '[' || c == ']'
}

fn single_of(c: char) -> (r: Instruction)
    ensures
        r == single(c),
{
    if c == '+' {
        Instruction::Add(1)
    } else if c == '-' {
        Instruction::Sub(1)
    } else if c == '<' {
        Instruction::Left(1)
    } else if c == '>' {
        Instruction::Right(1)
    } else if c == ',' {
        Instruction::Input(1)
    } else if c == '.' {
        Instruction::Output(1)
    } else if c == '[' {
        Instruction::JumpIfZero(0)
    } else {
        Instruction::JumpIfNotZero(0)
    }
}

/// The next count of `last` if `c` continues its run.
fn merged(last: Instruction, c: char) -> (r: Option<Instruction>)
    requires
        merges(last, c) ==> match last {
            Instruction::Left(n) | Instruction::Right(n) | Instruction::Input(n)
            | Instruction::Output(n) => n < usize::MAX,
            _ => true,
        },
    ensures
        r == if merges(last, c) {
            Some(bump(last))
        } else {
            None::<Instruction>
        },
{
    match last {
        Instruction::Add(n) => if c == '+' && n < 255 {
            Some(Instruction::Add(n + 1))
        } else {
            None
        },
        Instruction::Sub(n) => if c == '-' && n < 255 {
            Some(Instruction::Sub(n + 1))
        } else {
            None
        },
        Instruction::Left(n) => if c == '<' {
            Some(Instruction::Left(n + 1))
        } else {
            None
        },
        Instruction::Right(n) => if c == '>' {
            Some(Instruction::Right(n + 1))
        } else {
            None
        },
        Instruction::Input(n) => if c == ',' {
            Some(Instruction::Input(n + 1))
        } else {
            None
        },
        Instruction::Output(n) => if c == '.' {
            Some(Instruction::Output(n + 1))
        } else {
            None
        },
        _ => None,
    }
}

impl<'a> BFSourceCode<'a> {
    /// The next significant character, skipping all others.
    fn next(&mut self) -> (r: Option<char>)
        requires
            old(self).chars.decrease() is Some,
        ensures
            final(self).chars.decrease() is Some,
            r is Some ==> final(self).chars.decrease()->0 < old(self).chars.decrease()->0,
            significant(old(self).chars.remaining()) == match r {
                Some(c) => seq![c] + significant(final(self).chars.remaining()),
                None => Seq::<char>::empty(),
            },
            r matches Some(c) ==> is_op(c),
            r matches Some(c) ==> exists|k: int|
                0 <= k < old(self).chars.remaining().len() && old(self).chars.remaining()[k] == c
                    && (forall|j: int| 0 <= j < k ==> !is_op(old(self).chars.remaining()[j]))
                    && final(self).chars.remaining() == old(self).chars.remaining().subrange(
                    k + 1,
                    old(self).chars.remaining().len() as int,
                ),
            r is None ==> final(self).chars.remaining().len() == 0,
    {
        let ghost mut skipped: Seq<char> = Seq::empty();
        assert(old(self).chars.remaining() == skipped + self.chars.remaining());
        loop
            invariant
                significant(self.chars.remaining()) == significant(old(self).chars.remaining()),
                old(self).chars.remaining() == skipped + self.chars.remaining(),
                forall|j: int| 0 <= j < skipped.len() ==> !is_op(#[trigger] skipped[j]),
                self.chars.decrease() is Some,
                self.chars.decrease()->0 <= old(self).chars.decrease()->0,
            decreases self.chars.decrease()->0,
        {
            let ghost before = self.chars.remaining();
            let ghost measure = self.chars.decrease()->0;
            match self.chars.next() {
                Some(c) => {
                    assert(before.drop_first() == self.chars.remaining());
                    assert(self.chars.decrease()->0 < measure);
                    let ghost whole = old(self).chars.remaining();
                    let ghost k = skipped.len() as int;
                    if is_op_char(c) {
                        assert(whole[k] == c);
                        assert(self.chars.remaining() =~= whole.subrange(k + 1, whole.len() as int));
                        assert(forall|j: int| 0 <= j < k ==> whole[j] == skipped[j]);
                        return Some(c);
                    }
                    proof {
                        skipped = skipped.push(c);
                        assert(whole =~= skipped + self.chars.remaining());
                    }
                },
                None => {
                    return None;
                },
            }
        }
    }
}


/// The count an instruction carries; jumps carry none.
pub open spec fn count_of(ins: Instruction) -> int {
    match ins {
        Instruction::Add(n) => n as int,
        Instruction::Sub(n) => n as int,
        Instruction::Left(n) => n as int,
        Instruction::Right(n) => n as int,
        Instruction::Input(n) => n as int,
        Instruction::Output(n) => n as int,
        _ => 0,
    }
}

proof fn lemma_bracket_depth_push(t: Seq<char>, c: char)
    ensures
        bracket_depth(t.push(c)) == bracket_depth(t) + if c == '[' {
            1int
        } else if c == ']' {
            -1int
        } else {
            0int
        },
        forall|k: int| 0 <= k <= t.len() ==> #[trigger] t.push(c).subrange(0, k) == t.subrange(0, k),
        t.push(c).subrange(0, t.len() as int + 1) == t.push(c),
{
    assert(t.push(c).drop_last() == t);
    assert forall|k: int| 0 <= k <= t.len() implies #[trigger] t.push(c).subrange(0, k) == t.subrange(0, k) by {
        assert(t.push(c).subrange(0, k) =~= t.subrange(0, k));
    }
    assert(t.push(c).subrange(0, t.len() as int + 1) =~= t.push(c));
}

proof fn lemma_fold_push(t: Seq<char>, c: char)
    ensures
        fold(t.push(c)) == extend(fold(t), c),
{
    assert(t.push(c).drop_last() == t);
}

/// The linking state of the parser: `stack` holds the open brackets still
/// waiting for their partner, and every closed pair is linked.
#[verifier::opaque]
spec fn link_state(s: Seq<Instruction>, stack: Seq<usize>) -> bool {
    &&& depth(s) == stack.len()
    &&& forall|j: int|
        0 <= j < stack.len() ==> {
            &&& #[trigger] stack[j] < s.len()
            &&& s[stack[j] as int] == Instruction::JumpIfZero(0)
            &&& depth_at(s, stack[j] as int) == j
        }
    &&& forall|j: int, k: int|
        #![trigger stack[j], depth_at(s, k)]
        0 <= j < stack.len() && stack[j] < k <= s.len() ==> depth_at(s, k) > j
    &&& forall|i: int|
        0 <= i < s.len() && #[trigger] s[i] is JumpIfZero ==> (s[i]->JumpIfZero_0 == 0
            <==> stack.contains(i as usize))
    &&& forall|i: int|
        0 <= i < s.len() && #[trigger] s[i] is JumpIfZero && s[i]->JumpIfZero_0 != 0 ==> {
            let t = s[i]->JumpIfZero_0 as int;
            paired(s, i, t - 1)
        }
    &&& forall|i: int|
        0 <= i < s.len() && #[trigger] s[i] is JumpIfNotZero ==> {
            let t = s[i]->JumpIfNotZero_0 as int;
            1 <= t && paired(s, t - 1, i)
        }
}

proof fn lemma_link_push_plain(s: Seq<Instruction>, stack: Seq<usize>, x: Instruction)
    requires
        link_state(s, stack),
        weight(x) == 0,
    ensures
        link_state(s.push(x), stack),
{
    reveal(link_state);
    let s2 = s.push(x);
    lemma_depth_push(s, x);
    assert(s2.subrange(0, s2.len() as int) == s2);
    assert forall|i: int|
        0 <= i < s2.len() && #[trigger] s2[i] is JumpIfZero && s2[i]->JumpIfZero_0 != 0 implies {
            let t = s2[i]->JumpIfZero_0 as int;
            paired(s2, i, t - 1)
        } by {
        let t = s2[i]->JumpIfZero_0 as int;
        assert(paired(s, i, t - 1));
    }
    assert forall|i: int| 0 <= i < s2.len() && #[trigger] s2[i] is JumpIfNotZero implies {
        let t = s2[i]->JumpIfNotZero_0 as int;
        1 <= t && paired(s2, t - 1, i)
    } by {
        let t = s[i]->JumpIfNotZero_0 as int;
        assert(paired(s, t - 1, i));
    }
    assert forall|j: int, k: int|
        #![trigger stack[j], depth_at(s2, k)]
        0 <= j < stack.len() && stack[j] < k <= s2.len() implies depth_at(s2, k) > j by {
        if k <= s.len() {
            assert(depth_at(s, k) > j);
        }
    }
}

proof fn lemma_link_replace_last(s: Seq<Instruction>, stack: Seq<usize>, x: Instruction)
    requires
        link_state(s, stack),
        s.len() > 0,
        weight(s.last()) == 0,
        weight(x) == 0,
    ensures
        link_state(s.update(s.len() - 1, x), stack),
{
    reveal(link_state);
    let s2 = s.update(s.len() - 1, x);
    assert forall|i: int| 0 <= i < s.len() implies weight(#[trigger] s[i]) == weight(s2[i]) by {}
    lemma_depth_same_weights(s, s2);
    assert(s.subrange(0, s.len() as int) == s);
    assert(s2.subrange(0, s2.len() as int) == s2);
    assert(depth_at(s2, s2.len() as int) == depth_at(s, s.len() as int));
    assert forall|i: int|
        0 <= i < s2.len() && #[trigger] s2[i] is JumpIfZero && s2[i]->JumpIfZero_0 != 0 implies {
            let t = s2[i]->JumpIfZero_0 as int;
            paired(s2, i, t - 1)
        } by {
        let t = s2[i]->JumpIfZero_0 as int;
        assert(s2[i] == s[i]);
        assert(paired(s, i, t - 1));
        assert(s2[t - 1] == s[t - 1]);
    }
    assert forall|i: int| 0 <= i < s2.len() && #[trigger] s2[i] is JumpIfNotZero implies {
        let t = s2[i]->JumpIfNotZero_0 as int;
        1 <= t && paired(s2, t - 1, i)
    } by {
        assert(s2[i] == s[i]);
        let t = s[i]->JumpIfNotZero_0 as int;
        assert(paired(s, t - 1, i));
        assert(s2[t - 1] == s[t - 1]);
    }
    assert forall|j: int, k: int|
        #![trigger stack[j], depth_at(s2, k)]
        0 <= j < stack.len() && stack[j] < k <= s2.len() implies depth_at(s2, k) > j by {
        assert(depth_at(s, k) > j);
    }
    assert forall|i: int|
        0 <= i < s2.len() && #[trigger] s2[i] is JumpIfZero implies (s2[i]->JumpIfZero_0 == 0
            <==> stack.contains(i as usize)) by {
        assert(s2[i] == s[i]);
    }
    assert forall|j: int| 0 <= j < stack.len() implies {
        &&& #[trigger] stack[j] < s2.len()
        &&& s2[stack[j] as int] == Instruction::JumpIfZero(0)
        &&& depth_at(s2, stack[j] as int) == j
    } by {
        assert(s2[stack[j] as int] == s[stack[j] as int]);
    }
}

proof fn lemma_link_open(s: Seq<Instruction>, stack: Seq<usize>)
    requires
        link_state(s, stack),
        s.len() <= usize::MAX,
    ensures
        link_state(s.push(Instruction::JumpIfZero(0)), stack.push(s.len() as usize)),
{
    reveal(link_state);
    let s2 = s.push(Instruction::JumpIfZero(0));
    let st2 = stack.push(s.len() as usize);
    let n = s.len() as int;
    lemma_depth_push(s, Instruction::JumpIfZero(0));
    assert(s2.subrange(0, s2.len() as int) == s2);
    assert forall|i: int|
        0 <= i < s2.len() && #[trigger] s2[i] is JumpIfZero implies (s2[i]->JumpIfZero_0 == 0
            <==> st2.contains(i as usize)) by {
        if i < n {
            if stack.contains(i as usize) {
                let j = choose|j: int| 0 <= j < stack.len() && stack[j] == i as usize;
                assert(st2[j] == i as usize);
            }
            if st2.contains(i as usize) {
                let j = choose|j: int| 0 <= j < st2.len() && st2[j] == i as usize;
                if j == stack.len() {
                    assert(false);
                }
                assert(stack[j] == i as usize);
            }
        } else {
            assert(st2[stack.len() as int] == i as usize);
        }
    }
    assert forall|j: int| 0 <= j < st2.len() implies {
        &&& #[trigger] st2[j] < s2.len()
        &&& s2[st2[j] as int] == Instruction::JumpIfZero(0)
        &&& depth_at(s2, st2[j] as int) == j
    } by {
        if j < stack.len() {
            assert(stack[j] == st2[j]);
        }
    }
    assert forall|i: int|
        0 <= i < s2.len() && #[trigger] s2[i] is JumpIfZero && s2[i]->JumpIfZero_0 != 0 implies {
            let t = s2[i]->JumpIfZero_0 as int;
            paired(s2, i, t - 1)
        } by {
        let t = s2[i]->JumpIfZero_0 as int;
        assert(paired(s, i, t - 1));
    }
    assert forall|i: int| 0 <= i < s2.len() && #[trigger] s2[i] is JumpIfNotZero implies {
        let t = s2[i]->JumpIfNotZero_0 as int;
        1 <= t && paired(s2, t - 1, i)
    } by {
        let t = s[i]->JumpIfNotZero_0 as int;
        assert(paired(s, t - 1, i));
    }
    assert forall|j: int, k: int|
        #![trigger st2[j], depth_at(s2, k)]
        0 <= j < st2.len() && st2[j] < k <= s2.len() implies depth_at(s2, k) > j by {
        if j < stack.len() {
            assert(stack[j] == st2[j]);
            if k <= n {
                assert(depth_at(s, k) > j);
            }
        }
    }
}

proof fn lemma_link_close(s: Seq<Instruction>, stack: Seq<usize>)
    requires
        link_state(s, stack),
        stack.len() > 0,
        s.len() + 1 <= usize::MAX,
    ensures
        stack.last() < s.len(),
        s[stack.last() as int] == Instruction::JumpIfZero(0),
        ({
            let o = stack.last();
            link_state(
                s.push(Instruction::JumpIfNotZero((o + 1) as usize)).update(
                    o as int,
                    Instruction::JumpIfZero((s.len() + 1) as usize),
                ),
                stack.drop_last(),
            )
        }),
{
    reveal(link_state);
    let o = stack.last();
    let n = s.len() as int;
    let top = stack.len() - 1;
    let s1 = s.push(Instruction::JumpIfNotZero((o + 1) as usize));
    let s2 = s1.update(o as int, Instruction::JumpIfZero((n + 1) as usize));
    let st2 = stack.drop_last();
    lemma_depth_push(s, Instruction::JumpIfNotZero((o + 1) as usize));
    assert forall|i: int| 0 <= i < s1.len() implies weight(#[trigger] s1[i]) == weight(s2[i]) by {}
    lemma_depth_same_weights(s1, s2);
    assert(stack[top] == o);
    assert(s2.subrange(0, n + 1) == s2);
    assert(depth_at(s2, n + 1) == depth_at(s1, n + 1));
    assert(depth_at(s, o as int) == top);
    assert(depth_at(s2, o as int) == depth_at(s1, o as int));
    assert(depth(s2) == st2.len());
    assert forall|k: int| o < k <= n implies #[trigger] depth_at(s2, k) > depth_at(s2, o as int) by {
        assert(stack[top] < k <= s.len());
        assert(depth_at(s, k) > top);
    }
    assert(paired(s2, o as int, n));
    assert forall|j: int| 0 <= j < st2.len() implies {
        &&& #[trigger] st2[j] < s2.len()
        &&& s2[st2[j] as int] == Instruction::JumpIfZero(0)
        &&& depth_at(s2, st2[j] as int) == j
    } by {
        assert(stack[j] == st2[j]);
        if stack[j] == o {
            assert(depth_at(s, stack[j] as int) == j);
        }
    }
    assert forall|i: int|
        0 <= i < s2.len() && #[trigger] s2[i] is JumpIfZero implies (s2[i]->JumpIfZero_0 == 0
            <==> st2.contains(i as usize)) by {
        if i != o {
            if stack.contains(i as usize) {
                let j = choose|j: int| 0 <= j < stack.len() && stack[j] == i as usize;
                assert(j != top);
                assert(st2[j] == i as usize);
            }
            if st2.contains(i as usize) {
                let j = choose|j: int| 0 <= j < st2.len() && st2[j] == i as usize;
                assert(stack[j] == i as usize);
            }
        } else {
            if st2.contains(i as usize) {
                let j = choose|j: int| 0 <= j < st2.len() && st2[j] == i as usize;
                assert(stack[j] == o);
                assert(depth_at(s, o as int) == j);
            }
        }
    }
    assert forall|i: int|
        0 <= i < s2.len() && #[trigger] s2[i] is JumpIfZero && s2[i]->JumpIfZero_0 != 0 implies {
            let t = s2[i]->JumpIfZero_0 as int;
            paired(s2, i, t - 1)
        } by {
        if i != o {
            let t = s2[i]->JumpIfZero_0 as int;
            assert(paired(s, i, t - 1));
        }
    }
    assert forall|i: int| 0 <= i < s2.len() && #[trigger] s2[i] is JumpIfNotZero implies {
        let t = s2[i]->JumpIfNotZero_0 as int;
        1 <= t && paired(s2, t - 1, i)
    } by {
        if i != n {
            let t = s[i]->JumpIfNotZero_0 as int;
            assert(paired(s, t - 1, i));
        }
    }
    assert forall|j: int, k: int|
        #![trigger st2[j], depth_at(s2, k)]
        0 <= j < st2.len() && st2[j] < k <= s2.len() implies depth_at(s2, k) > j by {
        assert(stack[j] == st2[j]);
        if k <= n {
            assert(depth_at(s, k) > j);
        }
    }
}

impl<'a> BFSourceCode<'a> {
    /// Folds runs and links brackets over the rest of the text.
    fn parse_program(&mut self) -> (r: Result<Vec<Instruction>, ParseError>)
        requires
            old(self).chars.decrease() is Some,
            significant(old(self).chars.remaining()).len() <= usize::MAX,
        ensures
            ({
                let t = significant(old(self).chars.remaining());
                &&& r is Ok <==> (!closes_early(t) && bracket_depth(t) == 0)
                &&& r matches Ok(v) ==> shape(v@) == fold(t) && linked(v@) && well_formed(v@)
                &&& r matches Err(e) ==> (e == ParseError::UnmatchedClose <==> closes_early(t))
            }),
            r is Ok ==> final(self).chars.remaining().len() == 0,
    {
        let mut instructions: Vec<Instruction> = Vec::new();
        let mut jump_stack: Vec<usize> = Vec::new();
        let ghost total = significant(self.chars.remaining());
        let ghost mut consumed: Seq<char> = Seq::empty();
        proof {
            assert(total == consumed + significant(self.chars.remaining()));
            assert(consumed.subrange(0, 0) == consumed);
            reveal(link_state);
            assert(instructions@.subrange(0, 0) == instructions@);
        }
        loop
            invariant
                self.chars.decrease() is Some,
                total == significant(old(self).chars.remaining()),
                total == consumed + significant(self.chars.remaining()),
                total.len() <= usize::MAX,
                shape(instructions@) == fold(consumed),
                instructions@.len() <= consumed.len(),
                bracket_depth(consumed) == jump_stack@.len(),
                link_state(instructions@, jump_stack@),
                forall|k: int|
                    0 <= k <= consumed.len() ==> #[trigger] bracket_depth(consumed.subrange(0, k))
                        >= 0,
                forall|i: int|
                    0 <= i < instructions@.len() ==> count_positive(#[trigger] instructions@[i])
                        && count_of(instructions@[i]) <= consumed.len(),
            decreases self.chars.decrease()->0,
        {
            let ghost s0 = instructions@;
            let ghost stack0 = jump_stack@;
            let current_char = self.next();
            match current_char {
                None => {
                    assert(consumed == total);
                    if jump_stack.len() > 0 {
                        assert(!closes_early(total));
                        return Err(ParseError::UnmatchedOpen);
                    }
                    proof {
                        reveal(link_state);
                        assert forall|i: int|
                            0 <= i < instructions@.len() && #[trigger] instructions@[i] is JumpIfZero
                                implies {
                            let t = instructions@[i]->JumpIfZero_0 as int;
                            1 <= t && paired(instructions@, i, t - 1)
                        } by {
                            assert(!jump_stack@.contains(i as usize));
                        }
                        lemma_linked_well_formed(instructions@);
                        assert(!closes_early(total));
                    }
                    return Ok(instructions);
                },
                Some(c) => {
                    proof {
                        assert(total == consumed.push(c) + significant(self.chars.remaining()));
                        lemma_bracket_depth_push(consumed, c);
                        lemma_fold_push(consumed, c);
                        assert(total.subrange(0, consumed.len() as int + 1) == consumed.push(c));
                    }
                    let n = instructions.len();
                    if c == '[' {
                        proof {
                            lemma_link_open(s0, stack0);
                        }
                        jump_stack.push(n);
                        instructions.push(Instruction::JumpIfZero(0));
                        assert(shape(instructions@) =~= extend(shape(s0), c));
                    } else if c == ']' {
                        if jump_stack.len() == 0 {
                            proof {
                                assert(bracket_depth(total.subrange(0, consumed.len() as int + 1)) < 0);
                            }
                            return Err(ParseError::UnmatchedClose);
                        }
                        proof {
                            lemma_link_close(s0, stack0);
                        }
                        let o = jump_stack.pop().unwrap();
                        instructions.push(Instruction::JumpIfNotZero(o + 1));
                        instructions.set(o, Instruction::JumpIfZero(n + 1));
                        assert(shape(instructions@) =~= extend(shape(s0), c));
                        assert forall|i: int| 0 <= i < instructions@.len() implies count_positive(
                            #[trigger] instructions@[i],
                        ) && count_of(instructions@[i]) <= consumed.len() + 1 by {
                            if i < n && i != o {
                                assert(instructions@[i] == s0[i]);
                            }
                        }
                    } else {
                        let m = if n > 0 {
                            merged(instructions[n - 1], c)
                        } else {
                            None
                        };
                        match m {
                            Some(b) => {
                                proof {
                                    lemma_link_replace_last(s0, stack0, b);
                                }
                                instructions.set(n - 1, b);
                                assert(s0.drop_last() == instructions@.drop_last());
                                assert(shape(instructions@) =~= extend(shape(s0), c));
                            },
                            None => {
                                proof {
                                    lemma_link_push_plain(s0, stack0, single(c));
                                }
                                instructions.push(single_of(c));
                                assert(shape(instructions@) =~= extend(shape(s0), c));
                            },
                        }
                    }
                    proof {
                        consumed = consumed.push(c);
                    }
                },
            }
        }
    }
}

impl BFProgram {
    /// Parses a source text. Characters other than the eight operators are
    /// skipped; a run of `+` or `-` longer than 255 becomes several
    /// instructions of at most 255 each.
    pub fn parse_program(source_code: &str) -> (r: Result<BFProgram, ParseError>)
        ensures
            r is Ok <==> balanced(source_code@),
            r matches Ok(p) ==> parses_to(source_code@, p@) && well_formed(p@),
            r matches Err(e) ==> (e == ParseError::UnmatchedClose <==> closes_early(
                significant(source_code@),
            )),
    {
        // the character count of a `str` fits in a `usize`
        source_code.unicode_len();
        let mut source = BFSourceCode { chars: source_code.chars() };
        proof {
            lemma_significant_len(source_code@);
        }
        match source.parse_program() {
            Ok(instructions) => Ok(BFProgram::from_instructions(instructions)),
            Err(e) => Err(e),
        }
    }
}

} // verus!
