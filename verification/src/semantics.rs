use vstd::prelude::*;

use crate::ast::Ins;
use crate::ast::isz;
use crate::ast::psz;
use crate::ast::lemma_psz_elem;

verus! {

/// One state of the abstract machine the instructions act on: an unbounded
/// zero-initialized tape of bytes, a data pointer, the input not yet read,
/// and the output written so far.
#[verifier::ext_equal]
pub ghost struct State {
    pub tape: Map<int, u8>,
    pub ptr: int,
    pub inp: Seq<u8>,
    pub out: Seq<u8>,
}

/// The tape assigns a byte to every cell.
pub open spec fn st_wf(s: State) -> bool {
    forall|i: int| s.tape.dom().contains(i)
}

/// The state a run starts from: all cells zero, pointer at the origin,
/// nothing written yet.
pub open spec fn init_state(inp: Seq<u8>) -> State {
    State { tape: Map::total(|i: int| 0u8), ptr: 0, inp: inp, out: Seq::empty() }
}

/// An initial state's tape assigns a byte to every cell.
pub proof fn lemma_init_state_wf(inp: Seq<u8>)
    ensures
        st_wf(init_state(inp)),
{
    assert forall|i: int| init_state(inp).tape.dom().contains(i) by {
        assert(Set::<int>::full().contains(i));
    }
}

/// A cell value moved by a signed delta, modulo 256.
pub open spec fn cell_add(x: u8, d: int) -> u8 {
    (((x as int) + d) % 256) as u8
}

/// A signed value reduced to a byte, modulo 256.
pub open spec fn byte_of(n: int) -> u8 {
    (n % 256) as u8
}

/// Run one instruction. `fuel` bounds how often each loop may come around;
/// `None` means some loop was cut short, never an error. A terminating
/// execution is `Some` for every large enough fuel.
pub open spec fn run_ins(i: Ins, s: State, fuel: nat) -> Option<State>
    decreases fuel, isz(i), 0int,
{
    match i {
        Ins::Add(n) => Some(
            State { tape: s.tape.insert(s.ptr, cell_add(s.tape[s.ptr], n)), ..s },
        ),
        Ins::Move(n) => Some(State { ptr: s.ptr + n, ..s }),
        Ins::Store(n) => Some(State { tape: s.tape.insert(s.ptr, byte_of(n)), ..s }),
        Ins::Mul(o, f) => Some(
            State {
                tape: s.tape.insert(
                    s.ptr + o,
                    cell_add(s.tape[s.ptr + o], f * (s.tape[s.ptr] as int)),
                ),
                ..s
            },
        ),
        Ins::Scan(n) => {
            if s.tape[s.ptr] == 0 {
                Some(s)
            } else if fuel == 0 {
                None
            } else {
                run_ins(Ins::Scan(n), State { ptr: s.ptr + n, ..s }, (fuel - 1) as nat)
            }
        },
        Ins::Read => {
            if s.inp.len() == 0 {
                Some(State { tape: s.tape.insert(s.ptr, 0u8), ..s })
            } else {
                Some(
                    State {
                        tape: s.tape.insert(s.ptr, s.inp[0]),
                        inp: s.inp.drop_first(),
                        ..s
                    },
                )
            }
        },
        Ins::Write => Some(State { out: s.out.push(s.tape[s.ptr]), ..s }),
        Ins::Loop(b) => {
            if s.tape[s.ptr] == 0 {
                Some(s)
            } else if fuel == 0 {
                None
            } else {
                match run_seq(b, s, fuel) {
                    Some(s1) => run_ins(Ins::Loop(b), s1, (fuel - 1) as nat),
                    None => None,
                }
            }
        },
    }
}

/// Run a sequence of instructions in order.
pub open spec fn run_seq(p: Seq<Ins>, s: State, fuel: nat) -> Option<State>
    decreases fuel, psz(p), 1int,
{
    if p.len() == 0 {
        Some(s)
    } else {
        proof {
            lemma_psz_elem(p, 0);
            assert(isz(p[0]) >= 1) by {
                if !(p[0] is Loop) {
                    assert(isz(p[0]) == 1);
                }
            }
        }
        match run_ins(p[0], s, fuel) {
            Some(s1) => run_seq(p.drop_first(), s1, fuel),
            None => None,
        }
    }
}

/// More fuel never changes a completed run of one instruction.
pub proof fn lemma_run_ins_mono(i: Ins, s: State, f1: nat, f2: nat)
    requires
        f1 <= f2,
        run_ins(i, s, f1) is Some,
    ensures
        run_ins(i, s, f2) == run_ins(i, s, f1),
    decreases f1, isz(i), 0int,
{
    match i {
        Ins::Scan(n) => {
            if s.tape[s.ptr] != 0 {
                lemma_run_ins_mono(
                    Ins::Scan(n),
                    State { ptr: s.ptr + n, ..s },
                    (f1 - 1) as nat,
                    (f2 - 1) as nat,
                );
            }
        },
        Ins::Loop(b) => {
            if s.tape[s.ptr] != 0 {
                let s1 = run_seq(b, s, f1)->Some_0;
                lemma_run_seq_mono(b, s, f1, f2);
                lemma_run_ins_mono(Ins::Loop(b), s1, (f1 - 1) as nat, (f2 - 1) as nat);
            }
        },
        _ => {},
    }
}

/// More fuel never changes a completed run of a sequence.
pub proof fn lemma_run_seq_mono(p: Seq<Ins>, s: State, f1: nat, f2: nat)
    requires
        f1 <= f2,
        run_seq(p, s, f1) is Some,
    ensures
        run_seq(p, s, f2) == run_seq(p, s, f1),
    decreases f1, psz(p), 1int,
{
    if p.len() > 0 {
        lemma_psz_elem(p, 0);
        assert(isz(p[0]) >= 1) by {
            if !(p[0] is Loop) {
                assert(isz(p[0]) == 1);
            }
        }
        let s1 = run_ins(p[0], s, f1)->Some_0;
        lemma_run_ins_mono(p[0], s, f1, f2);
        lemma_run_seq_mono(p.drop_first(), s1, f1, f2);
    }
}

/// Running one program after another is running their concatenation.
pub proof fn lemma_run_seq_append(p1: Seq<Ins>, p2: Seq<Ins>, s: State, fuel: nat)
    ensures
        run_seq(p1 + p2, s, fuel) == (match run_seq(p1, s, fuel) {
            Some(m) => run_seq(p2, m, fuel),
            None => None,
        }),
    decreases p1.len(),
{
    if p1.len() == 0 {
        assert(p1 + p2 =~= p2);
    } else {
        assert((p1 + p2)[0] == p1[0]);
        assert((p1 + p2).drop_first() =~= p1.drop_first() + p2);
        match run_ins(p1[0], s, fuel) {
            Some(s1) => {
                lemma_run_seq_append(p1.drop_first(), p2, s1, fuel);
            },
            None => {},
        }
    }
}

/// Running keeps the tape total.
pub proof fn lemma_run_ins_wf(i: Ins, s: State, fuel: nat)
    requires
        st_wf(s),
        run_ins(i, s, fuel) is Some,
    ensures
        st_wf(run_ins(i, s, fuel)->Some_0),
    decreases fuel, isz(i), 0int,
{
    match i {
        Ins::Scan(n) => {
            if s.tape[s.ptr] != 0 {
                lemma_run_ins_wf(Ins::Scan(n), State { ptr: s.ptr + n, ..s }, (fuel - 1) as nat);
            }
        },
        Ins::Loop(b) => {
            if s.tape[s.ptr] != 0 {
                let s1 = run_seq(b, s, fuel)->Some_0;
                lemma_run_seq_wf(b, s, fuel);
                lemma_run_ins_wf(Ins::Loop(b), s1, (fuel - 1) as nat);
            }
        },
        _ => {},
    }
}

/// Running keeps the tape total.
pub proof fn lemma_run_seq_wf(p: Seq<Ins>, s: State, fuel: nat)
    requires
        st_wf(s),
        run_seq(p, s, fuel) is Some,
    ensures
        st_wf(run_seq(p, s, fuel)->Some_0),
    decreases fuel, psz(p), 1int,
{
    if p.len() > 0 {
        lemma_psz_elem(p, 0);
        assert(isz(p[0]) >= 1) by {
            if !(p[0] is Loop) {
                assert(isz(p[0]) == 1);
            }
        }
        let s1 = run_ins(p[0], s, fuel)->Some_0;
        lemma_run_ins_wf(p[0], s, fuel);
        lemma_run_seq_wf(p.drop_first(), s1, fuel);
    }
}

} // verus!
