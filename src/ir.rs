use vstd::prelude::*;

verus! {

/// One instruction of the intermediate representation.
#[derive(Clone, Copy, Debug, PartialEq, Eq, Structural)]
pub enum Instruction {
    Add(u8),
    Sub(u8),
    Left(usize),
    Right(usize),
    Input(usize),
    Output(usize),
    JumpIfZero(usize),
    JumpIfNotZero(usize),
}

/// A parsed program: a well-formed sequence of instructions.
pub struct BFProgram {
    instructions: Vec<Instruction>,
}

/// Net bracket depth of an instruction sequence: opens minus closes.
pub open spec fn depth(s: Seq<Instruction>) -> int
    decreases s.len(),
{
    if s.len() == 0 {
        0
    } else {
        depth(s.drop_last()) + weight(s.last())
    }
}

/// How an instruction changes the bracket depth.
pub open spec fn weight(ins: Instruction) -> int {
    match ins {
        Instruction::JumpIfZero(_) => 1,
        Instruction::JumpIfNotZero(_) => -1,
        _ => 0,
    }
}

/// Depth before the instruction at index `k`.
pub open spec fn depth_at(s: Seq<Instruction>, k: int) -> int {
    depth(s.subrange(0, k))
}

/// The open bracket at `o` and the close bracket at `c` enclose each other:
/// the depth comes back to its level at `o` right after `c`, and not earlier.
pub open spec fn paired(s: Seq<Instruction>, o: int, c: int) -> bool {
    &&& 0 <= o < c < s.len()
    &&& s[o] is JumpIfZero
    &&& s[c] is JumpIfNotZero
    &&& depth_at(s, c + 1) == depth_at(s, o)
    &&& forall|k: int| o < k <= c ==> #[trigger] depth_at(s, k) > depth_at(s, o)
}

/// Every jump targets the instruction after its nesting partner.
pub open spec fn linked(s: Seq<Instruction>) -> bool {
    &&& forall|i: int|
        0 <= i < s.len() && #[trigger] s[i] is JumpIfZero ==> {
            let t = s[i]->JumpIfZero_0 as int;
            1 <= t && paired(s, i, t - 1)
        }
    &&& forall|i: int|
        0 <= i < s.len() && #[trigger] s[i] is JumpIfNotZero ==> {
            let t = s[i]->JumpIfNotZero_0 as int;
            1 <= t && paired(s, t - 1, i)
        }
}

/// Counted instructions carry a count of at least one.
pub open spec fn count_positive(ins: Instruction) -> bool {
    match ins {
        Instruction::Add(n) => n >= 1,
        Instruction::Sub(n) => n >= 1,
        Instruction::Left(n) => n >= 1,
        Instruction::Right(n) => n >= 1,
        Instruction::Input(n) => n >= 1,
        Instruction::Output(n) => n >= 1,
        _ => true,
    }
}

/// The invariant of a parsed program: positive counts, and bracket pairs whose
/// targets point one past each other.
pub open spec fn well_formed(s: Seq<Instruction>) -> bool {
    &&& forall|i: int| 0 <= i < s.len() ==> count_positive(#[trigger] s[i])
    &&& forall|i: int|
        0 <= i < s.len() && #[trigger] s[i] is JumpIfZero ==> {
            let t = s[i]->JumpIfZero_0 as int;
            i < t - 1 < s.len() && s[t - 1] == Instruction::JumpIfNotZero((i + 1) as usize)
        }
    &&& forall|i: int|
        0 <= i < s.len() && #[trigger] s[i] is JumpIfNotZero ==> {
            let t = s[i]->JumpIfNotZero_0 as int;
            1 <= t && t - 1 < i && s[t - 1] == Instruction::JumpIfZero((i + 1) as usize)
        }
}

/// Depths agree on sequences whose instructions have the same weights.
pub proof fn lemma_depth_same_weights(a: Seq<Instruction>, b: Seq<Instruction>)
    requires
        a.len() == b.len(),
        forall|i: int| 0 <= i < a.len() ==> weight(#[trigger] a[i]) == weight(b[i]),
    ensures
        forall|k: int|
            #![trigger depth_at(a, k)]
            #![trigger depth_at(b, k)]
            0 <= k <= a.len() ==> depth_at(a, k) == depth_at(b, k),
    decreases a.len(),
{
    if a.len() > 0 {
        lemma_depth_same_weights(a.drop_last(), b.drop_last());
        assert forall|k: int| 0 <= k <= a.len() implies #[trigger] depth_at(a, k) == depth_at(b, k) by {
            if k < a.len() {
                assert(a.subrange(0, k) == a.drop_last().subrange(0, k));
                assert(b.subrange(0, k) == b.drop_last().subrange(0, k));
                assert(depth_at(a.drop_last(), k) == depth_at(b.drop_last(), k));
            } else {
                assert(a.subrange(0, k) == a);
                assert(b.subrange(0, k) == b);
                assert(a.drop_last().subrange(0, k - 1) == a.drop_last());
                assert(b.drop_last().subrange(0, k - 1) == b.drop_last());
                assert(depth_at(a.drop_last(), k - 1) == depth_at(b.drop_last(), k - 1));
            }
        }
    }
}

/// Appending an instruction keeps the depths before it.
pub proof fn lemma_depth_push(s: Seq<Instruction>, x: Instruction)
    ensures
        forall|k: int|
            #![trigger depth_at(s.push(x), k)]
            #![trigger depth_at(s, k)]
            0 <= k <= s.len() ==> depth_at(s.push(x), k) == depth_at(s, k),
        depth_at(s.push(x), s.len() as int + 1) == depth(s) + weight(x),
        depth_at(s, s.len() as int) == depth(s),
{
    assert forall|k: int| 0 <= k <= s.len() implies #[trigger] depth_at(s.push(x), k) == depth_at(s, k) by {
        assert(s.push(x).subrange(0, k) == s.subrange(0, k));
    }
    assert(s.push(x).subrange(0, s.len() as int + 1) == s.push(x));
    assert(s.push(x).drop_last() == s);
    assert(s.subrange(0, s.len() as int) == s);
}

/// A close bracket has at most one nesting partner.
pub proof fn lemma_paired_unique_open(s: Seq<Instruction>, o1: int, o2: int, c: int)
    requires
        paired(s, o1, c),
        paired(s, o2, c),
    ensures
        o1 == o2,
{
    if o1 < o2 {
        assert(depth_at(s, o2) > depth_at(s, o1));
    } else if o2 < o1 {
        assert(depth_at(s, o1) > depth_at(s, o2));
    }
}

/// An open bracket has at most one nesting partner.
pub proof fn lemma_paired_unique_close(s: Seq<Instruction>, o: int, c1: int, c2: int)
    requires
        paired(s, o, c1),
        paired(s, o, c2),
    ensures
        c1 == c2,
{
    if c1 < c2 {
        assert(depth_at(s, c1 + 1) > depth_at(s, o));
    } else if c2 < c1 {
        assert(depth_at(s, c2 + 1) > depth_at(s, o));
    }
}

/// Linked brackets meet the pairing invariant of a parsed program.
pub proof fn lemma_linked_well_formed(s: Seq<Instruction>)
    requires
        linked(s),
        forall|i: int| 0 <= i < s.len() ==> count_positive(#[trigger] s[i]),
    ensures
        well_formed(s),
{
    assert forall|i: int| 0 <= i < s.len() && #[trigger] s[i] is JumpIfZero implies {
        let t = s[i]->JumpIfZero_0 as int;
        i < t - 1 < s.len() && s[t - 1] == Instruction::JumpIfNotZero((i + 1) as usize)
    } by {
        let t = s[i]->JumpIfZero_0 as int;
        assert(s[t - 1] is JumpIfNotZero);
        let u = s[t - 1]->JumpIfNotZero_0 as int;
        lemma_paired_unique_open(s, i, u - 1, t - 1);
    }
    assert forall|i: int| 0 <= i < s.len() && #[trigger] s[i] is JumpIfNotZero implies {
        let t = s[i]->JumpIfNotZero_0 as int;
        1 <= t && t - 1 < i && s[t - 1] == Instruction::JumpIfZero((i + 1) as usize)
    } by {
        let t = s[i]->JumpIfNotZero_0 as int;
        assert(s[t - 1] is JumpIfZero);
        let u = s[t - 1]->JumpIfZero_0 as int;
        lemma_paired_unique_close(s, t - 1, u - 1, i);
    }
}

impl View for BFProgram {
    type V = Seq<Instruction>;

    closed spec fn view(&self) -> Seq<Instruction> {
        self.instructions@
    }
}

impl BFProgram {
    #[verifier::type_invariant]
    spec fn inv(&self) -> bool {
        well_formed(self.instructions@)
    }

    pub(crate) fn from_instructions(instructions: Vec<Instruction>) -> (r: BFProgram)
        requires
            well_formed(instructions@),
        ensures
            r@ == instructions@,
    {
        BFProgram { instructions }
    }

    /// The instructions, with the invariant that every program keeps.
    pub(crate) fn checked_instructions(&self) -> (r: &Vec<Instruction>)
        ensures
            r@ == self@,
            well_formed(r@),
    {
        proof {
            use_type_invariant(self);
        }
        &self.instructions
    }

    /// The program's instructions.
    pub fn instructions(&self) -> (r: &Vec<Instruction>)
        ensures
            r@ == self@,
    {
        &self.instructions
    }
}

} // verus!
