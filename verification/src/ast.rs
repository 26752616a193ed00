use vstd::prelude::*;

verus! {

/// A Brainfuck program: an ordered sequence of instructions.
pub type Program = Vec<Instruction>;

/// Brainfuck instructions, extended with the fused forms the optimizer emits.
#[derive(Debug, PartialEq)]
pub enum Instruction {
    /// Add to the current data cell, modulo 256.
    Add(i64),
    /// Move the data pointer by a signed offset.
    Move(i64),
    /// Store this value into the current data cell, modulo 256.
    Store(i64),
    /// Add `factor * current cell` into the cell at the given offset:
    /// `Mul(offset, factor)`.
    Mul(i64, i64),
    /// Move the data pointer in the given increments until it rests on a
    /// zero cell.
    Scan(i64),
    /// Read one byte of input into the current data cell; 0 at end of input.
    Read,
    /// Write the current data cell to the output.
    Write,
    /// Repeat the body until the current data cell is zero.
    Loop(Vec<Instruction>),
}

/// The mathematical shape of an instruction: payloads as unbounded integers,
/// loop bodies as sequences. Contracts and proofs speak of this form.
pub ghost enum Ins {
    Add(int),
    Move(int),
    Store(int),
    Mul(int, int),
    Scan(int),
    Read,
    Write,
    Loop(Seq<Ins>),
}

/// The mathematical value of one instruction.
pub open spec fn view_ins(i: Instruction) -> Ins
    decreases i,
{
    match i {
        Instruction::Add(n) => Ins::Add(n as int),
        Instruction::Move(n) => Ins::Move(n as int),
        Instruction::Store(n) => Ins::Store(n as int),
        Instruction::Mul(o, f) => Ins::Mul(o as int, f as int),
        Instruction::Scan(n) => Ins::Scan(n as int),
        Instruction::Read => Ins::Read,
        Instruction::Write => Ins::Write,
        Instruction::Loop(body) => Ins::Loop(view_seq(body@)),
    }
}

/// The mathematical value of a sequence of instructions.
pub open spec fn view_seq(s: Seq<Instruction>) -> Seq<Ins>
    decreases s,
{
    if s.len() == 0 {
        Seq::empty()
    } else {
        seq![view_ins(s[0])] + view_seq(s.drop_first())
    }
}

/// The mathematical value of a program.
pub open spec fn view_prog(p: Vec<Instruction>) -> Seq<Ins> {
    view_seq(p@)
}

/// Structural weight of one instruction. A loop weighs two more than its
/// body, so every rewrite of the optimizer strictly shrinks this measure;
/// the fixpoint iteration terminates because of it.
pub open spec fn isz(i: Ins) -> nat
    decreases i,
{
    match i {
        Ins::Loop(b) => 2 + psz(b),
        _ => 1nat,
    }
}

/// Structural weight of an instruction sequence.
pub open spec fn psz(p: Seq<Ins>) -> nat
    decreases p,
{
    if p.len() == 0 {
        0nat
    } else {
        isz(p[0]) + psz(p.drop_first())
    }
}

pub proof fn lemma_psz_append(a: Seq<Ins>, b: Seq<Ins>)
    ensures
        psz(a + b) == psz(a) + psz(b),
    decreases a,
{
    if a.len() == 0 {
        assert(a + b =~= b);
    } else {
        assert((a + b).drop_first() =~= a.drop_first() + b);
        lemma_psz_append(a.drop_first(), b);
    }
}

pub proof fn lemma_psz_split(s: Seq<Ins>, k: int)
    requires
        0 <= k <= s.len(),
    ensures
        psz(s) == psz(s.take(k)) + psz(s.skip(k)),
{
    assert(s =~= s.take(k) + s.skip(k));
    lemma_psz_append(s.take(k), s.skip(k));
}

pub proof fn lemma_psz_len_le(s: Seq<Ins>)
    ensures
        s.len() <= psz(s),
    decreases s,
{
    if s.len() > 0 {
        lemma_psz_len_le(s.drop_first());
        assert(isz(s[0]) >= 1) by {
            if !(s[0] is Loop) {
                assert(isz(s[0]) == 1);
            }
        }
    }
}

pub proof fn lemma_psz_skip(s: Seq<Ins>, k: int)
    requires
        1 <= k <= s.len(),
    ensures
        psz(s.skip(k)) + k <= psz(s),
{
    lemma_psz_split(s, k);
    lemma_psz_len_le(s.take(k));
}

pub proof fn lemma_psz_elem(s: Seq<Ins>, i: int)
    requires
        0 <= i < s.len(),
    ensures
        isz(s[i]) <= psz(s),
    decreases s,
{
    if i > 0 {
        lemma_psz_elem(s.drop_first(), i - 1);
    }
}

pub proof fn lemma_view_seq_len(s: Seq<Instruction>)
    ensures
        view_seq(s).len() == s.len(),
    decreases s,
{
    if s.len() > 0 {
        lemma_view_seq_len(s.drop_first());
    }
}

pub proof fn lemma_view_seq_index(s: Seq<Instruction>, i: int)
    requires
        0 <= i < s.len(),
    ensures
        view_seq(s).len() == s.len(),
        view_seq(s)[i] == view_ins(s[i]),
    decreases s,
{
    lemma_view_seq_len(s);
    if i > 0 {
        lemma_view_seq_index(s.drop_first(), i - 1);
    }
}

pub proof fn lemma_view_seq_append(a: Seq<Instruction>, b: Seq<Instruction>)
    ensures
        view_seq(a + b) =~= view_seq(a) + view_seq(b),
{
    lemma_view_seq_len(a);
    lemma_view_seq_len(b);
    lemma_view_seq_len(a + b);
    assert forall|i: int| 0 <= i < a.len() + b.len() implies view_seq(a + b)[i] == (view_seq(a)
        + view_seq(b))[i] by {
        lemma_view_seq_index(a + b, i);
        if i < a.len() {
            lemma_view_seq_index(a, i);
        } else {
            lemma_view_seq_index(b, i - a.len());
        }
    }
}

pub proof fn lemma_view_seq_single(x: Instruction)
    ensures
        view_seq(seq![x]) =~= seq![view_ins(x)],
{
    assert(seq![x].len() == 1);
    assert(seq![x][0] == x);
    assert(seq![x].drop_first() =~= Seq::<Instruction>::empty());
    assert(view_seq(Seq::<Instruction>::empty()) =~= Seq::<Ins>::empty());
    assert(view_seq(seq![x]) == seq![view_ins(seq![x][0])] + view_seq(seq![x].drop_first()));
    assert(view_seq(seq![x]) =~= seq![view_ins(x)]);
}

pub proof fn lemma_view_seq_push(s: Seq<Instruction>, x: Instruction)
    ensures
        view_seq(s.push(x)) =~= view_seq(s).push(view_ins(x)),
{
    lemma_view_seq_len(s);
    lemma_view_seq_len(s.push(x));
    assert forall|i: int| 0 <= i < s.len() + 1 implies view_seq(s.push(x))[i] == view_seq(s).push(
        view_ins(x),
    )[i] by {
        lemma_view_seq_index(s.push(x), i);
        if i < s.len() {
            lemma_view_seq_index(s, i);
        }
    }
}

/// Structural copy of one instruction.
pub fn copy_ins(i: &Instruction) -> (r: Instruction)
    ensures
        view_ins(r) == view_ins(*i),
    decreases isz(view_ins(*i)), 0int,
{
    match i {
        Instruction::Add(n) => Instruction::Add(*n),
        Instruction::Move(n) => Instruction::Move(*n),
        Instruction::Store(n) => Instruction::Store(*n),
        Instruction::Mul(o, f) => Instruction::Mul(*o, *f),
        Instruction::Scan(n) => Instruction::Scan(*n),
        Instruction::Read => Instruction::Read,
        Instruction::Write => Instruction::Write,
        Instruction::Loop(body) => Instruction::Loop(copy_prog(body)),
    }
}

/// Structural copy of a program.
pub fn copy_prog(p: &Vec<Instruction>) -> (r: Vec<Instruction>)
    ensures
        view_prog(r) == view_prog(*p),
    decreases psz(view_prog(*p)), 1int,
{
    let mut out: Vec<Instruction> = Vec::new();
    let mut i: usize = 0;
    proof {
        assert(view_prog(out) =~= view_seq(p@).take(0));
    }
    while i < p.len()
        invariant
            0 <= i <= p.len(),
            view_prog(out) =~= view_seq(p@).take(i as int),
        decreases p.len() - i,
    {
        proof {
            lemma_view_seq_index(p@, i as int);
            lemma_psz_elem(view_seq(p@), i as int);
        }
        let ins = copy_ins(&p[i]);
        proof {
            lemma_view_seq_push(out@, ins);
        }
        out.push(ins);
        i = i + 1;
        proof {
            lemma_view_seq_len(p@);
            assert(view_prog(out) =~= view_seq(p@).take(i as int));
        }
    }
    proof {
        lemma_view_seq_len(p@);
        assert(view_seq(p@).take(p@.len() as int) =~= view_seq(p@));
    }
    out
}

/// Structural equality of two instructions, spans of source text aside.
pub fn eq_ins(a: &Instruction, b: &Instruction) -> (r: bool)
    ensures
        r == (view_ins(*a) == view_ins(*b)),
    decreases isz(view_ins(*a)), 0int,
{
    match (a, b) {
        (Instruction::Add(x), Instruction::Add(y)) => x == y,
        (Instruction::Move(x), Instruction::Move(y)) => x == y,
        (Instruction::Store(x), Instruction::Store(y)) => x == y,
        (Instruction::Mul(o1, f1), Instruction::Mul(o2, f2)) => o1 == o2 && f1 == f2,
        (Instruction::Scan(x), Instruction::Scan(y)) => x == y,
        (Instruction::Read, Instruction::Read) => true,
        (Instruction::Write, Instruction::Write) => true,
        (Instruction::Loop(x), Instruction::Loop(y)) => eq_prog(x, y),
        _ => false,
    }
}

/// Structural equality of two programs.
pub fn eq_prog(a: &Vec<Instruction>, b: &Vec<Instruction>) -> (r: bool)
    ensures
        r == (view_prog(*a) == view_prog(*b)),
    decreases psz(view_prog(*a)), 1int,
{
    proof {
        lemma_view_seq_len(a@);
        lemma_view_seq_len(b@);
    }
    if a.len() != b.len() {
        return false;
    }
    let mut i: usize = 0;
    while i < a.len()
        invariant
            0 <= i <= a.len(),
            a.len() == b.len(),
            view_prog(*a).len() == a.len(),
            view_prog(*b).len() == b.len(),
            forall|j: int| 0 <= j < i ==> view_prog(*a)[j] == view_prog(*b)[j],
        decreases a.len() - i,
    {
        proof {
            lemma_view_seq_index(a@, i as int);
            lemma_view_seq_index(b@, i as int);
            lemma_psz_elem(view_seq(a@), i as int);
        }
        if !eq_ins(&a[i], &b[i]) {
            assert(view_prog(*a)[i as int] != view_prog(*b)[i as int]);
            return false;
        }
        i = i + 1;
    }
    proof {
        assert(view_prog(*a) =~= view_prog(*b));
    }
    true
}

} // verus!
