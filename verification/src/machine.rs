use vstd::prelude::*;

use crate::ast::Instruction;
use crate::ast::Program;
use crate::ast::Ins;
use crate::ast::isz;
use crate::ast::psz;
use crate::ast::lemma_psz_elem;
use crate::ast::view_ins;
use crate::ast::view_seq;
use crate::ast::view_prog;
use crate::ast::lemma_view_seq_index;
use crate::ast::lemma_view_seq_len;
use crate::ast::copy_prog;
use crate::optimizer::in_i64;
use crate::semantics::State;
use crate::semantics::cell_add;
use crate::semantics::byte_of;
use crate::semantics::run_ins;
use crate::semantics::run_seq;

verus! {

/// Number of cells on the interpreter's tape.
pub open spec fn tape_len() -> int {
    30000
}

/// One state of the bounded interpreter: a tape of fixed length, a data
/// pointer that may point anywhere, the input not yet read, and the output
/// written so far.
#[verifier::ext_equal]
pub ghost struct MState {
    pub mem: Seq<u8>,
    pub ptr: int,
    pub inp: Seq<u8>,
    pub out: Seq<u8>,
}

/// How a bounded run ends: the program ran to completion; a cell outside
/// the tape (or a pointer outside the machine's integers) was touched; or
/// the fuel ran out. Each case carries the state at that point.
pub ghost enum MRun {
    Done(MState),
    Fault(MState),
    Spent(MState),
}

/// The state an outcome carries.
pub open spec fn mrun_state(r: MRun) -> MState {
    match r {
        MRun::Done(m) => m,
        MRun::Fault(m) => m,
        MRun::Spent(m) => m,
    }
}

pub open spec fn m_in_bounds(m: MState, i: int) -> bool {
    0 <= i < m.mem.len()
}

/// Run one instruction on the bounded machine. Cell accesses outside the
/// tape fault; loops are bounded by `fuel` as in the reference semantics.
pub open spec fn exec_m_ins(i: Ins, m: MState, fuel: nat) -> MRun
    decreases fuel, isz(i), 0int,
{
    match i {
        Ins::Add(n) => {
            if m_in_bounds(m, m.ptr) {
                MRun::Done(
                    MState { mem: m.mem.update(m.ptr, cell_add(m.mem[m.ptr], n)), ..m },
                )
            } else {
                MRun::Fault(m)
            }
        },
        Ins::Move(n) => {
            if in_i64(m.ptr + n) {
                MRun::Done(MState { ptr: m.ptr + n, ..m })
            } else {
                MRun::Fault(m)
            }
        },
        Ins::Store(n) => {
            if m_in_bounds(m, m.ptr) {
                MRun::Done(MState { mem: m.mem.update(m.ptr, byte_of(n)), ..m })
            } else {
                MRun::Fault(m)
            }
        },
        Ins::Mul(o, f) => {
            if !in_i64(m.ptr + o) {
                MRun::Fault(m)
            } else if m_in_bounds(m, m.ptr) && m_in_bounds(m, m.ptr + o) {
                MRun::Done(
                    MState {
                        mem: m.mem.update(
                            m.ptr + o,
                            cell_add(m.mem[m.ptr + o], f * (m.mem[m.ptr] as int)),
                        ),
                        ..m
                    },
                )
            } else {
                MRun::Fault(m)
            }
        },
        Ins::Scan(n) => {
            if !m_in_bounds(m, m.ptr) {
                MRun::Fault(m)
            } else if m.mem[m.ptr] == 0 {
                MRun::Done(m)
            } else if !in_i64(m.ptr + n) {
                MRun::Fault(m)
            } else if fuel == 0 {
                MRun::Spent(m)
            } else {
                exec_m_ins(Ins::Scan(n), MState { ptr: m.ptr + n, ..m }, (fuel - 1) as nat)
            }
        },
        Ins::Read => {
            if !m_in_bounds(m, m.ptr) {
                MRun::Fault(m)
            } else if m.inp.len() == 0 {
                MRun::Done(MState { mem: m.mem.update(m.ptr, 0u8), ..m })
            } else {
                MRun::Done(
                    MState {
                        mem: m.mem.update(m.ptr, m.inp[0]),
                        inp: m.inp.drop_first(),
                        ..m
                    },
                )
            }
        },
        Ins::Write => {
            if m_in_bounds(m, m.ptr) {
                MRun::Done(MState { out: m.out.push(m.mem[m.ptr]), ..m })
            } else {
                MRun::Fault(m)
            }
        },
        Ins::Loop(b) => {
            if !m_in_bounds(m, m.ptr) {
                MRun::Fault(m)
            } else if m.mem[m.ptr] == 0 {
                MRun::Done(m)
            } else if fuel == 0 {
                MRun::Spent(m)
            } else {
                match exec_m_seq(b, m, fuel) {
                    MRun::Done(m1) => exec_m_ins(Ins::Loop(b), m1, (fuel - 1) as nat),
                    other => other,
                }
            }
        },
    }
}

/// Run a sequence of instructions on the bounded machine.
pub open spec fn exec_m_seq(p: Seq<Ins>, m: MState, fuel: nat) -> MRun
    decreases fuel, psz(p), 1int,
{
    if p.len() == 0 {
        MRun::Done(m)
    } else {
        proof {
            lemma_psz_elem(p, 0);
            assert(isz(p[0]) >= 1) by {
                if !(p[0] is Loop) {
                    assert(isz(p[0]) == 1);
                }
            }
        }
        match exec_m_ins(p[0], m, fuel) {
            MRun::Done(m1) => exec_m_seq(p.drop_first(), m1, fuel),
            other => other,
        }
    }
}

/// The unbounded state a bounded state stands for: the tape extended with
/// zeroes on both sides.
pub open spec fn abs_tape(mem: Seq<u8>) -> Map<int, u8> {
    Map::total(|i: int| if 0 <= i < mem.len() { mem[i] } else { 0u8 })
}

pub open spec fn abs_st(m: MState) -> State {
    State { tape: abs_tape(m.mem), ptr: m.ptr, inp: m.inp, out: m.out }
}

proof fn lemma_abs_update(mem: Seq<u8>, i: int, v: u8)
    requires
        0 <= i < mem.len(),
    ensures
        abs_tape(mem.update(i, v)) =~= abs_tape(mem).insert(i, v),
{
}

/// A completed bounded run computes exactly what the reference semantics
/// computes: whenever the interpreter finishes an instruction without a
/// fault, the reference run finishes too, in the state the interpreter's
/// state stands for.
pub proof fn lemma_machine_refines_ins(i: Ins, m: MState, fuel: nat)
    requires
        exec_m_ins(i, m, fuel) is Done,
    ensures
        run_ins(i, abs_st(m), fuel) == Some(abs_st(mrun_state(exec_m_ins(i, m, fuel)))),
    decreases fuel, isz(i), 0int,
{
    match i {
        Ins::Add(n) => {
            lemma_abs_update(m.mem, m.ptr, cell_add(m.mem[m.ptr], n));
            assert(abs_st(mrun_state(exec_m_ins(i, m, fuel))) =~~= run_ins(
                i,
                abs_st(m),
                fuel,
            )->Some_0);
        },
        Ins::Move(n) => {
            assert(abs_st(mrun_state(exec_m_ins(i, m, fuel))) =~~= run_ins(
                i,
                abs_st(m),
                fuel,
            )->Some_0);
        },
        Ins::Store(n) => {
            lemma_abs_update(m.mem, m.ptr, byte_of(n));
            assert(abs_st(mrun_state(exec_m_ins(i, m, fuel))) =~~= run_ins(
                i,
                abs_st(m),
                fuel,
            )->Some_0);
        },
        Ins::Mul(o, f) => {
            lemma_abs_update(
                m.mem,
                m.ptr + o,
                cell_add(m.mem[m.ptr + o], f * (m.mem[m.ptr] as int)),
            );
            assert(abs_st(mrun_state(exec_m_ins(i, m, fuel))) =~~= run_ins(
                i,
                abs_st(m),
                fuel,
            )->Some_0);
        },
        Ins::Scan(n) => {
            if m.mem[m.ptr] != 0 {
                let m1 = MState { ptr: m.ptr + n, ..m };
                lemma_machine_refines_ins(Ins::Scan(n), m1, (fuel - 1) as nat);
                assert(abs_st(m1) =~~= State { ptr: m.ptr + n, ..abs_st(m) });
            } else {
                assert(abs_st(mrun_state(exec_m_ins(i, m, fuel))) =~~= run_ins(
                    i,
                    abs_st(m),
                    fuel,
                )->Some_0);
            }
        },
        Ins::Read => {
            if m.inp.len() == 0 {
                lemma_abs_update(m.mem, m.ptr, 0u8);
            } else {
                lemma_abs_update(m.mem, m.ptr, m.inp[0]);
            }
            assert(abs_st(mrun_state(exec_m_ins(i, m, fuel))) =~~= run_ins(
                i,
                abs_st(m),
                fuel,
            )->Some_0);
        },
        Ins::Write => {
            assert(abs_st(mrun_state(exec_m_ins(i, m, fuel))) =~~= run_ins(
                i,
                abs_st(m),
                fuel,
            )->Some_0);
        },
        Ins::Loop(b) => {
            if m.mem[m.ptr] != 0 {
                match exec_m_seq(b, m, fuel) {
                    MRun::Done(m1) => {
                        lemma_machine_refines_seq(b, m, fuel);
                        lemma_machine_refines_ins(Ins::Loop(b), m1, (fuel - 1) as nat);
                    },
                    _ => {},
                }
            }
        },
    }
}

/// A completed bounded run of a sequence computes what the reference
/// semantics computes.
pub proof fn lemma_machine_refines_seq(p: Seq<Ins>, m: MState, fuel: nat)
    requires
        exec_m_seq(p, m, fuel) is Done,
    ensures
        run_seq(p, abs_st(m), fuel) == Some(abs_st(mrun_state(exec_m_seq(p, m, fuel)))),
    decreases fuel, psz(p), 1int,
{
    if p.len() > 0 {
        lemma_psz_elem(p, 0);
        assert(isz(p[0]) >= 1) by {
            if !(p[0] is Loop) {
                assert(isz(p[0]) == 1);
            }
        }
        match exec_m_ins(p[0], m, fuel) {
            MRun::Done(m1) => {
                lemma_machine_refines_ins(p[0], m, fuel);
                lemma_machine_refines_seq(p.drop_first(), m1, fuel);
            },
            _ => {},
        }
    }
}

/// Every tape a bounded state stands for is total.
pub proof fn lemma_abs_st_wf(m: MState)
    ensures
        crate::semantics::st_wf(abs_st(m)),
{
    assert forall|i: int| abs_st(m).tape.dom().contains(i) by {
        assert(Set::<int>::full().contains(i));
    }
}

/// When a source program terminates under the reference semantics, a
/// completed interpreter run of its optimized form ends in exactly the
/// state the reference semantics gives the source program: same tape,
/// pointer, remaining input, and output.
pub proof fn lemma_optimized_run_matches_reference(p: Seq<Ins>, m: MState, fuel: nat, f0: nat)
    requires
        exec_m_seq(crate::optimizer::optimize_spec(p), m, fuel) is Done,
        run_seq(p, abs_st(m), f0) is Some,
    ensures
        Some(
            abs_st(mrun_state(exec_m_seq(crate::optimizer::optimize_spec(p), m, fuel))),
        ) == run_seq(p, abs_st(m), f0),
{
    let q = crate::optimizer::optimize_spec(p);
    let s = abs_st(m);
    lemma_abs_st_wf(m);
    lemma_machine_refines_seq(q, m, fuel);
    let f2 = crate::equiv::lemma_optimize_preserves(p, s, f0);
    let fm = if f2 > fuel {
        f2
    } else {
        fuel
    };
    crate::semantics::lemma_run_seq_mono(q, s, f2, fm);
    crate::semantics::lemma_run_seq_mono(q, s, fuel, fm);
}

/// The interpreter's mutable state, apart from the program.
struct Core {
    mem: Vec<u8>,
    ptr: i64,
    input: Vec<u8>,
    pos: usize,
    output: Vec<u8>,
}

impl Core {
    spec fn wf(&self) -> bool {
        self.mem@.len() == tape_len() && self.pos <= self.input@.len()
    }

    spec fn view_st(&self) -> MState {
        MState {
            mem: self.mem@,
            ptr: self.ptr as int,
            inp: self.input@.skip(self.pos as int),
            out: self.output@,
        }
    }
}

/// How a bounded interpreter run ended.
#[derive(Debug, PartialEq, Eq, Structural)]
pub enum MachineStatus {
    /// The program ran to completion.
    Done,
    /// A cell outside the tape was touched.
    Fault,
    /// The fuel ran out before the program completed.
    OutOfFuel,
}

pub open spec fn status_of(r: MRun) -> MachineStatus {
    match r {
        MRun::Done(m) => MachineStatus::Done,
        MRun::Fault(m) => MachineStatus::Fault,
        MRun::Spent(m) => MachineStatus::OutOfFuel,
    }
}

/// A byte value reduced modulo 256 from a signed payload.
fn byte_val(n: i64) -> (r: u8)
    ensures
        r as int == byte_of(n as int),
{
    if n >= 0 {
        let r = (n % 256) as u8;
        proof {
            assert(r as int == (n as int) % 256);
        }
        r
    } else {
        let k = -1 - n;
        let r = (255 - (k % 256)) as u8;
        proof {
            lemma_byte_of_negative(n as int);
        }
        r
    }
}

proof fn lemma_byte_of_negative(n: int)
    requires
        n < 0,
    ensures
        byte_of(n) == 255 - ((-1 - n) % 256),
{
    let k = -1 - n;
    vstd::arithmetic::div_mod::lemma_fundamental_div_mod(k, 256);
    let q = k / 256;
    let r = k % 256;
    vstd::arithmetic::div_mod::lemma_mod_bound(k, 256);
    assert(n == 256 * (-q - 1) + (255 - r));
    vstd::arithmetic::div_mod::lemma_mod_multiples_vanish(-q - 1, 255 - r, 256);
    vstd::arithmetic::div_mod::lemma_small_mod((255 - r) as nat, 256);
}

proof fn lemma_cell_add_reduced(x: u8, d: int)
    ensures
        cell_add(x, d) as int == ((x as int) + (d % 256)) % 256,
{
    vstd::arithmetic::div_mod::lemma_add_mod_noop(x as int, d, 256);
    vstd::arithmetic::div_mod::lemma_small_mod(x as nat, 256);
    vstd::arithmetic::div_mod::lemma_mod_bound(d, 256);
    vstd::arithmetic::div_mod::lemma_small_mod(((x as int) + (d % 256)) as nat % 256 as nat, 256);
    assert(((x as int) % 256 + d % 256) % 256 == ((x as int) + d) % 256);
    vstd::arithmetic::div_mod::lemma_add_mod_noop(x as int, d % 256, 256);
    vstd::arithmetic::div_mod::lemma_mod_twice(d, 256);
}

/// The current cell moved by a signed delta, modulo 256.
fn cell_add_val(x: u8, d: i64) -> (r: u8)
    ensures
        r as int == cell_add(x, d as int) as int,
{
    let db = byte_val(d);
    let sum: u32 = (x as u32) + (db as u32);
    let r = (sum % 256) as u8;
    proof {
        lemma_cell_add_reduced(x, d as int);
        vstd::arithmetic::div_mod::lemma_mod_bound(d as int, 256);
    }
    r
}

/// A cell moved by `factor * value`, modulo 256, the factor given as a
/// signed payload.
fn mul_cell_val(x: u8, f: i64, v: u8) -> (r: u8)
    ensures
        r as int == cell_add(x, (f as int) * (v as int)) as int,
{
    let fb = byte_val(f);
    proof {
        assert((fb as int) * (v as int) <= 255 * 255) by (nonlinear_arith)
            requires
                0 <= fb as int <= 255,
                0 <= v as int <= 255,
        ;
    }
    let sum: u32 = (x as u32) + (fb as u32) * (v as u32);
    let r = (sum % 256) as u8;
    proof {
        let d = (f as int) * (v as int);
        lemma_cell_add_reduced(x, d);
        vstd::arithmetic::div_mod::lemma_mul_mod_noop_left(f as int, v as int, 256);
        lemma_cell_add_reduced(x, (fb as int) * (v as int));
        vstd::arithmetic::div_mod::lemma_mod_bound((fb as int) * (v as int), 256);
        vstd::arithmetic::div_mod::lemma_mod_bound(d, 256);
        assert(d % 256 == ((fb as int) * (v as int)) % 256);
    }
    r
}

/// Run one instruction on the interpreter's state.
#[verifier::rlimit(100)]
fn step_ins(i: &Instruction, c: &mut Core, fuel: u64) -> (r: MachineStatus)
    requires
        old(c).wf(),
    ensures
        final(c).wf(),
        ({
            let res = exec_m_ins(view_ins(*i), old(c).view_st(), fuel as nat);
            r == status_of(res) && final(c).view_st() == mrun_state(res)
        }),
    decreases fuel, isz(view_ins(*i)), 0int,
{
    let ghost m0 = c.view_st();
    match i {
        Instruction::Add(n) => {
            if 0 <= c.ptr && c.ptr < 30000 {
                let p = c.ptr as usize;
                let nv = cell_add_val(c.mem[p], *n);
                c.mem.set(p, nv);
                proof {
                    assert(c.view_st() =~~= mrun_state(
                        exec_m_ins(view_ins(*i), m0, fuel as nat),
                    ));
                }
                MachineStatus::Done
            } else {
                MachineStatus::Fault
            }
        },
        Instruction::Move(n) => {
            match c.ptr.checked_add(*n) {
                Some(p2) => {
                    c.ptr = p2;
                    proof {
                        assert(c.view_st() =~~= mrun_state(
                            exec_m_ins(view_ins(*i), m0, fuel as nat),
                        ));
                    }
                    MachineStatus::Done
                },
                None => MachineStatus::Fault,
            }
        },
        Instruction::Store(n) => {
            if 0 <= c.ptr && c.ptr < 30000 {
                let p = c.ptr as usize;
                let nv = byte_val(*n);
                c.mem.set(p, nv);
                proof {
                    assert(c.view_st() =~~= mrun_state(
                        exec_m_ins(view_ins(*i), m0, fuel as nat),
                    ));
                }
                MachineStatus::Done
            } else {
                MachineStatus::Fault
            }
        },
        Instruction::Mul(o, f) => {
            match c.ptr.checked_add(*o) {
                Some(t) => {
                    if 0 <= c.ptr && c.ptr < 30000 && 0 <= t && t < 30000 {
                        let p = c.ptr as usize;
                        let tp = t as usize;
                        let nv = mul_cell_val(c.mem[tp], *f, c.mem[p]);
                        c.mem.set(tp, nv);
                        proof {
                            assert(c.view_st() =~~= mrun_state(
                                exec_m_ins(view_ins(*i), m0, fuel as nat),
                            ));
                        }
                        MachineStatus::Done
                    } else {
                        MachineStatus::Fault
                    }
                },
                None => MachineStatus::Fault,
            }
        },
        Instruction::Scan(n) => {
            if !(0 <= c.ptr && c.ptr < 30000) {
                MachineStatus::Fault
            } else if c.mem[c.ptr as usize] == 0 {
                MachineStatus::Done
            } else {
                match c.ptr.checked_add(*n) {
                    Some(p2) => {
                        if fuel == 0 {
                            MachineStatus::OutOfFuel
                        } else {
                            c.ptr = p2;
                            proof {
                                assert(c.view_st() =~~= MState { ptr: m0.ptr + *n, ..m0 });
                            }
                            step_ins(i, c, fuel - 1)
                        }
                    },
                    None => MachineStatus::Fault,
                }
            }
        },
        Instruction::Read => {
            if !(0 <= c.ptr && c.ptr < 30000) {
                MachineStatus::Fault
            } else {
                let p = c.ptr as usize;
                if c.pos < c.input.len() {
                    let b = c.input[c.pos];
                    c.mem.set(p, b);
                    c.pos = c.pos + 1;
                    proof {
                        assert(m0.inp[0] == b);
                        assert(c.view_st().inp =~= m0.inp.drop_first());
                        assert(c.view_st() =~~= mrun_state(
                            exec_m_ins(view_ins(*i), m0, fuel as nat),
                        ));
                    }
                } else {
                    c.mem.set(p, 0);
                    proof {
                        assert(m0.inp.len() == 0);
                        assert(c.view_st() =~~= mrun_state(
                            exec_m_ins(view_ins(*i), m0, fuel as nat),
                        ));
                    }
                }
                MachineStatus::Done
            }
        },
        Instruction::Write => {
            if 0 <= c.ptr && c.ptr < 30000 {
                let p = c.ptr as usize;
                let b = c.mem[p];
                c.output.push(b);
                proof {
                    assert(c.view_st() =~~= mrun_state(
                        exec_m_ins(view_ins(*i), m0, fuel as nat),
                    ));
                }
                MachineStatus::Done
            } else {
                MachineStatus::Fault
            }
        },
        Instruction::Loop(body) => {
            proof {
                assert(isz(view_ins(*i)) == 2 + psz(view_seq(body@)));
            }
            if !(0 <= c.ptr && c.ptr < 30000) {
                MachineStatus::Fault
            } else if c.mem[c.ptr as usize] == 0 {
                MachineStatus::Done
            } else if fuel == 0 {
                MachineStatus::OutOfFuel
            } else {
                let inner = step_seq(body, c, fuel);
                match inner {
                    MachineStatus::Done => step_ins(i, c, fuel - 1),
                    other => other,
                }
            }
        },
    }
}

/// Run a sequence of instructions on the interpreter's state.
#[verifier::loop_isolation(false)]
fn step_seq(p: &Vec<Instruction>, c: &mut Core, fuel: u64) -> (r: MachineStatus)
    requires
        old(c).wf(),
    ensures
        final(c).wf(),
        ({
            let res = exec_m_seq(view_prog(*p), old(c).view_st(), fuel as nat);
            r == status_of(res) && final(c).view_st() == mrun_state(res)
        }),
    decreases fuel, psz(view_prog(*p)), 1int,
{
    let ghost v = view_seq(p@);
    let ghost m0 = c.view_st();
    proof {
        lemma_view_seq_len(p@);
        assert(v.skip(0) =~= v);
    }
    let mut idx: usize = 0;
    while idx < p.len()
        invariant
            0 <= idx <= p.len(),
            c.wf(),
            exec_m_seq(v, m0, fuel as nat) == exec_m_seq(
                v.skip(idx as int),
                c.view_st(),
                fuel as nat,
            ),
        decreases p.len() - idx,
    {
        let ghost w = v.skip(idx as int);
        proof {
            lemma_view_seq_index(p@, idx as int);
            assert(w[0] == v[idx as int]);
            assert(w.skip(1) =~= v.skip(idx as int + 1));
            lemma_psz_elem(v, idx as int);
        }
        let st = step_ins(&p[idx], c, fuel);
        match st {
            MachineStatus::Done => {},
            other => {
                return other;
            },
        }
        idx = idx + 1;
    }
    proof {
        assert(v.skip(p.len() as int) =~= Seq::<Ins>::empty());
    }
    MachineStatus::Done
}

/// The initial interpreter state: a zeroed tape, the pointer at cell zero,
/// the given pending input, and no output.
pub open spec fn init_mstate(inp: Seq<u8>) -> MState {
    MState {
        mem: Seq::new(tape_len() as nat, |i: int| 0u8),
        ptr: 0,
        inp: inp,
        out: Seq::empty(),
    }
}

/// A reference interpreter for the instruction set: a tape of 30,000 cells,
/// input and output as byte vectors, and a fuel bound on loops so that every
/// run returns.
pub struct Machine {
    program: Program,
    core: Core,
}

impl Machine {
    /// The tape is complete and no more input was consumed than was given.
    pub closed spec fn wf(&self) -> bool {
        self.core.wf()
    }

    /// The program the machine runs.
    pub closed spec fn prog(&self) -> Seq<Ins> {
        view_prog(self.program)
    }

    /// The machine's tape, pointer, pending input and output.
    pub closed spec fn state(&self) -> MState {
        self.core.view_st()
    }

    /// A machine for the given program, with a zeroed tape and no input.
    pub fn new(program: &Program) -> (m: Machine)
        ensures
            m.wf(),
            m.prog() == view_prog(*program),
            m.state() == init_mstate(Seq::empty()),
    {
        let prog = copy_prog(program);
        let mut mem: Vec<u8> = Vec::new();
        let mut k: usize = 0;
        while k < 30000
            invariant
                0 <= k <= 30000,
                mem@.len() == k,
                forall|j: int| 0 <= j < k ==> mem@[j] == 0u8,
            decreases 30000 - k,
        {
            mem.push(0);
            k = k + 1;
        }
        let m = Machine {
            program: prog,
            core: Core { mem: mem, ptr: 0, input: Vec::new(), pos: 0, output: Vec::new() },
        };
        proof {
            assert(m.state().mem =~= init_mstate(Seq::empty()).mem);
            assert(m.state().inp =~= init_mstate(Seq::empty()).inp);
            assert(m.state() =~~= init_mstate(Seq::empty()));
        }
        m
    }

    /// Replace the pending input.
    pub fn set_input(&mut self, input: Vec<u8>)
        requires
            old(self).wf(),
        ensures
            final(self).wf(),
            final(self).prog() == old(self).prog(),
            final(self).state() == (MState { inp: input@, ..old(self).state() }),
    {
        let ghost inp = input@;
        self.core.input = input;
        self.core.pos = 0;
        proof {
            assert(self.state().inp =~= inp);
            assert(self.state() =~~= (MState { inp: inp, ..old(self).state() }));
        }
    }

    /// Run the machine's program on its current state. `fuel` bounds how
    /// often each loop may come around; the result says whether the program
    /// completed, touched a cell off the tape, or ran out of fuel, exactly
    /// as the bounded semantics says, and the state is the state that
    /// semantics reaches.
    pub fn run(&mut self, fuel: u64) -> (r: MachineStatus)
        requires
            old(self).wf(),
        ensures
            final(self).wf(),
            final(self).prog() == old(self).prog(),
            ({
                let res = exec_m_seq(old(self).prog(), old(self).state(), fuel as nat);
                r == status_of(res) && final(self).state() == mrun_state(res)
            }),
    {
        step_seq(&self.program, &mut self.core, fuel)
    }

    /// The output written so far.
    pub fn output(&self) -> (o: &Vec<u8>)
        ensures
            o@ == self.state().out,
    {
        &self.core.output
    }
}

} // verus!
