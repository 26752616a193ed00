use vstd::prelude::*;

use crate::ast::Ins;
use crate::ast::psz;
use crate::ast::lemma_psz_elem;
use crate::ast::lemma_psz_skip;
use crate::semantics::State;
use crate::semantics::init_state;
use crate::semantics::lemma_init_state_wf;
use crate::semantics::st_wf;
use crate::semantics::cell_add;
use crate::semantics::byte_of;
use crate::semantics::run_ins;
use crate::semantics::run_seq;
use crate::semantics::lemma_run_ins_mono;
use crate::semantics::lemma_run_seq_mono;
use crate::semantics::lemma_run_seq_append;
use crate::semantics::lemma_run_ins_wf;
use crate::semantics::lemma_run_seq_wf;
use crate::optimizer::in_i64;
use crate::optimizer::mul_run_len;
use crate::optimizer::upsert_at;
use crate::optimizer::lookup_at;
use crate::optimizer::mul_scan;
use crate::optimizer::emit_from;
use crate::optimizer::mul_or_loop;
use crate::optimizer::opt_loop;
use crate::optimizer::pass;
use crate::optimizer::optimize_spec;
use crate::optimizer::lemma_pass_shrinks;
use crate::optimizer::lemma_mul_run_len_bounds;

verus! {

proof fn lemma_cell_add_zero(x: u8)
    ensures
        cell_add(x, 0) == x,
{
    vstd::arithmetic::div_mod::lemma_small_mod(x as nat, 256);
}

proof fn lemma_cell_add_add(x: u8, a: int, b: int)
    ensures
        cell_add(cell_add(x, a), b) == cell_add(x, a + b),
{
    let m = 256;
    let y = (x as int) + a;
    vstd::arithmetic::div_mod::lemma_add_mod_noop(y, b, m);
    vstd::arithmetic::div_mod::lemma_mod_twice(y, m);
    vstd::arithmetic::div_mod::lemma_add_mod_noop(y % m, b, m);
    vstd::arithmetic::div_mod::lemma_mod_bound(y, m);
}

proof fn lemma_store_add(a: int, b: int)
    ensures
        cell_add(byte_of(a), b) == byte_of(a + b),
{
    let m = 256;
    vstd::arithmetic::div_mod::lemma_add_mod_noop(a, b, m);
    vstd::arithmetic::div_mod::lemma_mod_twice(a, m);
    vstd::arithmetic::div_mod::lemma_add_mod_noop(a % m, b, m);
    vstd::arithmetic::div_mod::lemma_mod_bound(a, m);
}

proof fn lemma_cell_add_cancel(x: u8)
    ensures
        cell_add(x, -(x as int)) == 0,
{
    vstd::arithmetic::div_mod::lemma_small_mod(0, 256);
}

/// Writing back a cell's own value changes nothing on a total tape.
proof fn lemma_insert_same(s: State, p: int)
    requires
        st_wf(s),
    ensures
        (State { tape: s.tape.insert(p, s.tape[p]), ..s }) == s,
{
    assert(s.tape.insert(p, s.tape[p]) =~= s.tape);
    assert(State { tape: s.tape.insert(p, s.tape[p]), ..s } =~~= s);
}

/// Dropping `Add(0)` preserves the state.
proof fn lemma_add_zero_noop(s: State, fuel: nat)
    requires
        st_wf(s),
    ensures
        run_ins(Ins::Add(0), s, fuel) == Some(s),
{
    lemma_cell_add_zero(s.tape[s.ptr]);
    lemma_insert_same(s, s.ptr);
}

/// Dropping `Move(0)` preserves the state.
proof fn lemma_move_zero_noop(s: State, fuel: nat)
    ensures
        run_ins(Ins::Move(0), s, fuel) == Some(s),
{
    assert(run_ins(Ins::Move(0), s, fuel)->Some_0 =~~= s);
}

/// Two adjacent `Add`s act as their fused sum.
proof fn lemma_fuse_add(s: State, a: int, b: int, fuel: nat)
    requires
        st_wf(s),
    ensures
        run_ins(Ins::Add(b), run_ins(Ins::Add(a), s, fuel)->Some_0, fuel) == run_ins(
            Ins::Add(a + b),
            s,
            fuel,
        ),
{
    let s1 = run_ins(Ins::Add(a), s, fuel)->Some_0;
    lemma_cell_add_add(s.tape[s.ptr], a, b);
    assert(run_ins(Ins::Add(b), s1, fuel)->Some_0 =~~= run_ins(Ins::Add(a + b), s, fuel)->Some_0);
}

/// Two adjacent `Move`s act as their fused sum.
proof fn lemma_fuse_move(s: State, a: int, b: int, fuel: nat)
    ensures
        run_ins(Ins::Move(b), run_ins(Ins::Move(a), s, fuel)->Some_0, fuel) == run_ins(
            Ins::Move(a + b),
            s,
            fuel,
        ),
{
    let s1 = run_ins(Ins::Move(a), s, fuel)->Some_0;
    assert(run_ins(Ins::Move(b), s1, fuel)->Some_0 =~~= run_ins(Ins::Move(a + b), s, fuel)->Some_0);
}

/// A `Store` followed by an `Add` acts as a fused `Store`.
proof fn lemma_fuse_store_add(s: State, a: int, b: int, fuel: nat)
    ensures
        run_ins(Ins::Add(b), run_ins(Ins::Store(a), s, fuel)->Some_0, fuel) == run_ins(
            Ins::Store(a + b),
            s,
            fuel,
        ),
{
    let s1 = run_ins(Ins::Store(a), s, fuel)->Some_0;
    lemma_store_add(a, b);
    assert(run_ins(Ins::Add(b), s1, fuel)->Some_0 =~~= run_ins(
        Ins::Store(a + b),
        s,
        fuel,
    )->Some_0);
}

/// An `Add` or `Store` followed by a `Store` acts as the `Store` alone.
proof fn lemma_store_wins(s: State, first: Ins, v: int, fuel: nat)
    requires
        first is Add || first is Store,
    ensures
        run_ins(Ins::Store(v), run_ins(first, s, fuel)->Some_0, fuel) == run_ins(
            Ins::Store(v),
            s,
            fuel,
        ),
{
    let s1 = run_ins(first, s, fuel)->Some_0;
    assert(run_ins(Ins::Store(v), s1, fuel)->Some_0 =~~= run_ins(Ins::Store(v), s, fuel)->Some_0);
}

/// After `Store(0)` the current cell is zero, so a loop that follows is
/// never entered.
proof fn lemma_store_zero_loop(s: State, body: Seq<Ins>, fuel: nat)
    ensures
        run_ins(Ins::Loop(body), run_ins(Ins::Store(0), s, fuel)->Some_0, fuel) == run_ins(
            Ins::Store(0),
            s,
            fuel,
        ),
{
    let s1 = run_ins(Ins::Store(0), s, fuel)->Some_0;
    assert(s1.tape[s1.ptr] == 0);
}

/// With the current cell zero, a run of `Mul`s changes nothing.
proof fn lemma_muls_on_zero(w: Seq<Ins>, s: State, fuel: nat)
    requires
        st_wf(s),
        s.tape[s.ptr] == 0,
        forall|t: int| 0 <= t < w.len() ==> w[t] is Mul,
    ensures
        run_seq(w, s, fuel) == Some(s),
    decreases w.len(),
{
    if w.len() > 0 {
        assert(w[0] is Mul);
        let s1 = run_ins(w[0], s, fuel)->Some_0;
        match w[0] {
            Ins::Mul(o, f) => {
                assert(f * (s.tape[s.ptr] as int) == 0) by (nonlinear_arith)
                    requires
                        s.tape[s.ptr] as int == 0,
                ;
                lemma_cell_add_zero(s.tape[s.ptr + o]);
                lemma_insert_same(s, s.ptr + o);
                assert(s1 == s);
            },
            _ => {},
        }
        lemma_muls_on_zero(w.drop_first(), s, fuel);
    }
}

/// A loop with an empty body completes only when the cell is already zero,
/// and then changes nothing.
proof fn lemma_empty_loop(s: State, fuel: nat)
    requires
        run_ins(Ins::Loop(Seq::empty()), s, fuel) is Some,
    ensures
        run_ins(Ins::Loop(Seq::empty()), s, fuel) == Some(s),
    decreases fuel,
{
    if s.tape[s.ptr] != 0 && fuel > 0 {
        assert(run_seq(Seq::<Ins>::empty(), s, fuel) == Some(s));
        assert(run_ins(Ins::Loop(Seq::empty()), s, fuel) == run_ins(
            Ins::Loop(Seq::empty()),
            s,
            (fuel - 1) as nat,
        ));
        lemma_empty_loop(s, (fuel - 1) as nat);
    }
}

/// A loop whose body is `Store(0)` acts as a single `Store(0)`.
proof fn lemma_loop_store0(s: State, fuel: nat, f2: nat)
    requires
        st_wf(s),
        run_ins(Ins::Loop(seq![Ins::Store(0)]), s, fuel) is Some,
    ensures
        run_ins(Ins::Store(0), s, f2) == run_ins(Ins::Loop(seq![Ins::Store(0)]), s, fuel),
{
    let body = seq![Ins::Store(0)];
    assert(body[0] == Ins::Store(0int));
    assert(body.drop_first() =~= Seq::<Ins>::empty());
    assert(byte_of(0) == 0) by {
        vstd::arithmetic::div_mod::lemma_small_mod(0, 256);
    }
    if s.tape[s.ptr] == 0 {
        lemma_insert_same(s, s.ptr);
        assert(run_ins(Ins::Store(0), s, f2)->Some_0 =~~= s);
    } else {
        let s1 = State { tape: s.tape.insert(s.ptr, 0u8), ..s };
        assert(run_ins(body[0], s, fuel) == Some(s1));
        assert(run_seq(Seq::<Ins>::empty(), s1, fuel) == Some(s1));
        assert(run_seq(body, s, fuel) == Some(s1));
        assert(s1.tape[s1.ptr] == 0);
        assert(run_ins(Ins::Loop(body), s1, (fuel - 1) as nat) == Some(s1));
        assert(run_ins(Ins::Store(0), s, f2)->Some_0 =~~= s1);
    }
}

/// The canonical clear loop sets the current cell to zero.
proof fn lemma_clear_loop(s: State, fuel: nat)
    requires
        st_wf(s),
        run_ins(Ins::Loop(seq![Ins::Add(-1)]), s, fuel) is Some,
    ensures
        run_ins(Ins::Loop(seq![Ins::Add(-1)]), s, fuel) == Some(
            State { tape: s.tape.insert(s.ptr, 0u8), ..s },
        ),
    decreases fuel,
{
    let body = seq![Ins::Add(-1)];
    assert(body[0] == Ins::Add(-1));
    assert(body.drop_first() =~= Seq::<Ins>::empty());
    let v = s.tape[s.ptr];
    if v == 0 {
        assert(s.tape.insert(s.ptr, 0u8) =~= s.tape);
        assert((State { tape: s.tape.insert(s.ptr, 0u8), ..s }) =~~= s);
    } else {
        assert(cell_add(v, -1) == (v - 1) as u8) by {
            vstd::arithmetic::div_mod::lemma_small_mod((v - 1) as nat, 256);
        }
        let s1 = State { tape: s.tape.insert(s.ptr, (v - 1) as u8), ..s };
        assert(run_ins(body[0], s, fuel) == Some(s1));
        assert(run_seq(Seq::<Ins>::empty(), s1, fuel) == Some(s1));
        assert(run_seq(body, s, fuel) == Some(s1));
        lemma_clear_loop(s1, (fuel - 1) as nat);
        assert(s1.tape.insert(s1.ptr, 0u8) =~= s.tape.insert(s.ptr, 0u8));
        assert((State { tape: s1.tape.insert(s1.ptr, 0u8), ..s1 }) =~~= (State {
            tape: s.tape.insert(s.ptr, 0u8),
            ..s
        }));
    }
}

/// A loop whose body is one `Move(n)` acts exactly as `Scan(n)`, fuel for
/// fuel, whether or not it completes.
proof fn lemma_scan_loop(s: State, n: int, fuel: nat)
    ensures
        run_ins(Ins::Loop(seq![Ins::Move(n)]), s, fuel) == run_ins(Ins::Scan(n), s, fuel),
    decreases fuel,
{
    let body = seq![Ins::Move(n)];
    assert(body[0] == Ins::Move(n));
    assert(body.drop_first() =~= Seq::<Ins>::empty());
    if s.tape[s.ptr] != 0 && fuel > 0 {
        let s1 = State { ptr: s.ptr + n, ..s };
        assert(run_ins(body[0], s, fuel) == Some(s1));
        assert(run_seq(Seq::<Ins>::empty(), s1, fuel) == Some(s1));
        assert(run_seq(body, s, fuel) == Some(s1));
        lemma_scan_loop(s1, n, (fuel - 1) as nat);
    }
}

/// The net delta an association list records for an offset; zero if absent.
pub open spec fn delta_of(acc: Seq<(int, int)>, o: int) -> int {
    match lookup_at(acc, 0, o) {
        Some(d) => d,
        None => 0,
    }
}

/// No two entries of the association list share an offset.
pub open spec fn keys_distinct(acc: Seq<(int, int)>) -> bool {
    forall|j: int, k: int| 0 <= j < k < acc.len() ==> acc[j].0 != acc[k].0
}

proof fn lemma_lookup_agrees(a: Seq<(int, int)>, b: Seq<(int, int)>, t: int, o: int)
    requires
        0 <= t <= a.len(),
        a.len() == b.len(),
        forall|k: int| t <= k < a.len() ==> a[k] == b[k],
    ensures
        lookup_at(a, t, o) == lookup_at(b, t, o),
    decreases a.len() - t,
{
    if t < a.len() && a[t].0 != o {
        lemma_lookup_agrees(a, b, t + 1, o);
    }
}

proof fn lemma_lookup_push(a: Seq<(int, int)>, t: int, e: (int, int), o: int)
    requires
        0 <= t <= a.len(),
    ensures
        lookup_at(a.push(e), t, o) == (match lookup_at(a, t, o) {
            Some(d) => Some(d),
            None => if o == e.0 {
                Some(e.1)
            } else {
                None
            },
        }),
    decreases a.len() - t,
{
    assert(a.push(e).len() == a.len() + 1);
    if t < a.len() {
        assert(a.push(e)[t] == a[t]);
        if a[t].0 != o {
            lemma_lookup_push(a, t + 1, e, o);
        }
    } else {
        assert(a.push(e)[t] == e);
    }
}

proof fn lemma_lookup_absent(a: Seq<(int, int)>, t: int, o: int)
    requires
        0 <= t <= a.len(),
        forall|k: int| t <= k < a.len() ==> a[k].0 != o,
    ensures
        lookup_at(a, t, o) is None,
    decreases a.len() - t,
{
    if t < a.len() {
        lemma_lookup_absent(a, t + 1, o);
    }
}

/// What one `upsert_at` from scan position `j` does to the list: entries
/// before `j` stay, keys stay, and the recorded value for the key moves by
/// the delta while every other lookup from `j` is unchanged.
proof fn lemma_upsert_props(acc: Seq<(int, int)>, j: int, off: int, d: int, o: int)
    requires
        0 <= j <= acc.len(),
        upsert_at(acc, j, off, d) is Some,
    ensures
        ({
            let acc2 = upsert_at(acc, j, off, d)->Some_0;
            &&& acc.len() <= acc2.len() <= acc.len() + 1
            &&& (forall|t: int| 0 <= t < j ==> acc2[t] == acc[t])
            &&& (forall|t: int| 0 <= t < acc.len() ==> acc2[t].0 == acc[t].0)
            &&& (acc2.len() > acc.len() ==> acc2[acc.len() as int] == (off, d) && (forall|t: int|
                j <= t < acc.len() ==> acc[t].0 != off))
            &&& lookup_at(acc2, j, o) == (if o == off {
                match lookup_at(acc, j, off) {
                    Some(x) => Some(x + d),
                    None => Some(d),
                }
            } else {
                lookup_at(acc, j, o)
            })
        }),
    decreases acc.len() - j,
{
    let acc2 = upsert_at(acc, j, off, d)->Some_0;
    if j == acc.len() {
        lemma_lookup_push(acc, j, (off, d), o);
        assert(lookup_at(acc, j, o) is None);
    } else if acc[j].0 == off {
        assert(acc2 == acc.update(j, (off, acc[j].1 + d)));
        if o == off {
            assert(lookup_at(acc2, j, o) == Some(acc[j].1 + d));
        } else {
            lemma_lookup_agrees(acc2, acc, j + 1, o);
        }
    } else {
        lemma_upsert_props(acc, j + 1, off, d, o);
        let acc3 = upsert_at(acc, j + 1, off, d)->Some_0;
        assert(acc2 == acc3);
        assert(acc2[j] == acc[j]);
    }
}

proof fn lemma_upsert_distinct(acc: Seq<(int, int)>, off: int, d: int)
    requires
        keys_distinct(acc),
        upsert_at(acc, 0, off, d) is Some,
    ensures
        keys_distinct(upsert_at(acc, 0, off, d)->Some_0),
{
    let acc2 = upsert_at(acc, 0, off, d)->Some_0;
    lemma_upsert_props(acc, 0, off, d, off);
    assert forall|j: int, k: int| 0 <= j < k < acc2.len() implies acc2[j].0 != acc2[k].0 by {
        if k < acc.len() {
        } else if acc2.len() > acc.len() {
            assert(acc2[k] == (off, d));
            assert(acc[j].0 != off);
        }
    }
}

/// The state after adding, for every offset, `mult` times its recorded
/// delta: the effect of `mult` rounds of a balanced `Add`/`Move` body.
spec fn apply_deltas(s: State, acc: Seq<(int, int)>, mult: int) -> State {
    State {
        tape: Map::total(|i: int| cell_add(s.tape[i], delta_of(acc, i - s.ptr) * mult)),
        ..s
    }
}

proof fn lemma_apply_deltas_wf(s: State, acc: Seq<(int, int)>, mult: int)
    ensures
        st_wf(apply_deltas(s, acc, mult)),
{
    assert forall|i: int| apply_deltas(s, acc, mult).tape.dom().contains(i) by {
        assert(Set::<int>::full().contains(i));
    }
}

proof fn lemma_delta_of_empty(o: int)
    ensures
        delta_of(Seq::empty(), o) == 0,
{
    assert(lookup_at(Seq::empty(), 0, o) is None);
}

/// The association list a multiplication scan builds has pairwise distinct
/// offsets.
proof fn lemma_mul_scan_distinct(q: Seq<Ins>, i: int, acc: Seq<(int, int)>, off: int)
    requires
        0 <= i <= q.len(),
        keys_distinct(acc),
        mul_scan(q, i, acc, off) is Some,
    ensures
        keys_distinct(mul_scan(q, i, acc, off)->Some_0.0),
    decreases q.len() - i,
{
    if i < q.len() {
        match q[i] {
            Ins::Add(d) => {
                lemma_upsert_distinct(acc, off, d);
                lemma_mul_scan_distinct(q, i + 1, upsert_at(acc, 0, off, d)->Some_0, off);
            },
            Ins::Move(m) => {
                lemma_mul_scan_distinct(q, i + 1, acc, off + m);
            },
            _ => {},
        }
    }
}

/// Running the rest of a balanced `Add`/`Move` body carries the state from
/// the deltas accumulated so far to the deltas of the whole body.
proof fn lemma_straight_run(
    q: Seq<Ins>,
    i: int,
    acc: Seq<(int, int)>,
    off: int,
    s0: State,
    fuel: nat,
)
    requires
        st_wf(s0),
        0 <= i <= q.len(),
        keys_distinct(acc),
        mul_scan(q, i, acc, off) is Some,
    ensures
        ({
            let r = mul_scan(q, i, acc, off)->Some_0;
            run_seq(
                q.skip(i),
                State { ptr: s0.ptr + off, ..apply_deltas(s0, acc, 1) },
                fuel,
            ) == Some(State { ptr: s0.ptr + r.1, ..apply_deltas(s0, r.0, 1) })
        }),
    decreases q.len() - i,
{
    let s_cur = State { ptr: s0.ptr + off, ..apply_deltas(s0, acc, 1) };
    if i == q.len() {
        assert(q.skip(i) =~= Seq::<Ins>::empty());
    } else {
        let w = q.skip(i);
        assert(w[0] == q[i]);
        assert(w.drop_first() =~= q.skip(i + 1));
        match q[i] {
            Ins::Add(d) => {
                let acc2 = upsert_at(acc, 0, off, d)->Some_0;
                lemma_upsert_distinct(acc, off, d);
                let s1 = run_ins(Ins::Add(d), s_cur, fuel)->Some_0;
                assert(s1 == (State { ptr: s0.ptr + off, ..apply_deltas(s0, acc2, 1) })) by {
                    let goal = State { ptr: s0.ptr + off, ..apply_deltas(s0, acc2, 1) };
                    assert forall|x: int| s1.tape[x] == goal.tape[x] by {
                        lemma_upsert_props(acc, 0, off, d, x - s0.ptr);
                        if x == s0.ptr + off {
                            lemma_cell_add_add(s0.tape[x], delta_of(acc, off) * 1, d);
                        }
                    }
                    assert(s1.tape =~= goal.tape);
                    assert(s1 =~~= goal);
                }
                lemma_straight_run(q, i + 1, acc2, off, s0, fuel);
            },
            Ins::Move(m) => {
                let s1 = run_ins(Ins::Move(m), s_cur, fuel)->Some_0;
                assert(s1 == (State { ptr: s0.ptr + (off + m), ..apply_deltas(s0, acc, 1) }));
                lemma_straight_run(q, i + 1, acc, off + m, s0, fuel);
            },
            _ => {},
        }
    }
}

/// A loop whose body is balanced with delta -1 at the origin runs its body
/// once per unit of the starting cell: the final state adds `cell` times
/// each recorded delta, which also clears the starting cell.
proof fn lemma_mul_loop_run(q: Seq<Ins>, acc: Seq<(int, int)>, s: State, fuel: nat)
    requires
        st_wf(s),
        keys_distinct(acc),
        mul_scan(q, 0, Seq::empty(), 0) is Some,
        mul_scan(q, 0, Seq::empty(), 0)->Some_0.0 == acc,
        mul_scan(q, 0, Seq::empty(), 0)->Some_0.1 == 0,
        delta_of(acc, 0) == -1,
        run_ins(Ins::Loop(q), s, fuel) is Some,
    ensures
        run_ins(Ins::Loop(q), s, fuel) == Some(apply_deltas(s, acc, s.tape[s.ptr] as int)),
    decreases fuel,
{
    let v = s.tape[s.ptr];
    if v == 0 {
        assert(apply_deltas(s, acc, 0) == s) by {
            assert forall|x: int| apply_deltas(s, acc, 0).tape[x] == s.tape[x] by {
                assert(delta_of(acc, x - s.ptr) * 0 == 0);
                lemma_cell_add_zero(s.tape[x]);
            }
            assert(apply_deltas(s, acc, 0).tape =~= s.tape);
            assert(apply_deltas(s, acc, 0) =~~= s);
        }
    } else {
        assert(fuel > 0);
        assert((State { ptr: s.ptr + 0, ..apply_deltas(s, Seq::empty(), 1) }) == s) by {
            assert forall|x: int| apply_deltas(s, Seq::empty(), 1).tape[x] == s.tape[x] by {
                lemma_delta_of_empty(x - s.ptr);
                lemma_cell_add_zero(s.tape[x]);
            }
            assert(apply_deltas(s, Seq::empty(), 1).tape =~= s.tape);
            assert((State { ptr: s.ptr + 0, ..apply_deltas(s, Seq::empty(), 1) }) =~~= s);
        }
        lemma_straight_run(q, 0, Seq::empty(), 0, s, fuel);
        assert(q.skip(0) =~= q);
        let s1 = State { ptr: s.ptr + 0, ..apply_deltas(s, acc, 1) };
        assert(run_seq(q, s, fuel) == Some(s1));
        assert(s1.tape[s1.ptr] == cell_add(v, delta_of(acc, 0) * 1));
        assert(cell_add(v, -1) == (v - 1) as u8) by {
            vstd::arithmetic::div_mod::lemma_small_mod((v - 1) as nat, 256);
        }
        assert(s1.tape[s1.ptr] == (v - 1) as u8);
        lemma_apply_deltas_wf(s, acc, 1);
        assert(st_wf(s1));
        lemma_mul_loop_run(q, acc, s1, (fuel - 1) as nat);
        assert(apply_deltas(s1, acc, (v - 1) as int) == apply_deltas(s, acc, v as int)) by {
            assert forall|x: int|
                apply_deltas(s1, acc, (v - 1) as int).tape[x] == apply_deltas(
                    s,
                    acc,
                    v as int,
                ).tape[x] by {
                let d = delta_of(acc, x - s.ptr);
                lemma_cell_add_add(s.tape[x], d * 1, d * ((v - 1) as int));
                assert(d * 1 + d * ((v - 1) as int) == d * (v as int)) by (nonlinear_arith);
            }
            assert(apply_deltas(s1, acc, (v - 1) as int).tape =~= apply_deltas(
                s,
                acc,
                v as int,
            ).tape);
            assert(apply_deltas(s1, acc, (v - 1) as int) =~~= apply_deltas(s, acc, v as int));
        }
    }
}

/// The recorded delta for an offset other than the origin.
spec fn nz_delta(acc: Seq<(int, int)>, o: int) -> int {
    if o == 0 {
        0
    } else {
        delta_of(acc, o)
    }
}

/// The state after the `Mul`s for the first `j` entries have run, the
/// starting cell holding `v`.
spec fn emitted_state(s0: State, acc: Seq<(int, int)>, j: int, v: int) -> State {
    State {
        tape: Map::total(|i: int| cell_add(s0.tape[i], nz_delta(acc.take(j), i - s0.ptr) * v)),
        ..s0
    }
}

/// Running the emitted `Mul` instructions from entry `j` on carries the
/// state from the first `j` entries' deltas to all of them.
proof fn lemma_emit_run(acc: Seq<(int, int)>, j: int, s0: State, v: int, fuel: nat)
    requires
        st_wf(s0),
        keys_distinct(acc),
        0 <= j <= acc.len(),
        v == s0.tape[s0.ptr] as int,
    ensures
        run_seq(emit_from(acc, j), emitted_state(s0, acc, j, v), fuel) == Some(
            emitted_state(s0, acc, acc.len() as int, v),
        ),
    decreases acc.len() - j,
{
    let m_j = emitted_state(s0, acc, j, v);
    if j == acc.len() {
        assert(emit_from(acc, j) =~= Seq::<Ins>::empty());
    } else {
        let o = acc[j].0;
        let d = acc[j].1;
        assert(acc.take(j + 1) =~= acc.take(j).push(acc[j]));
        assert(forall|t: int| 0 <= t < j ==> acc.take(j)[t] == acc[t]);
        assert(m_j.tape[m_j.ptr] == s0.tape[s0.ptr]) by {
            assert(nz_delta(acc.take(j), 0) == 0);
            assert(0 * v == 0);
            lemma_cell_add_zero(s0.tape[s0.ptr]);
        }
        if o == 0 || d == 0 {
            assert(emitted_state(s0, acc, j + 1, v) == m_j) by {
                assert forall|x: int|
                    emitted_state(s0, acc, j + 1, v).tape[x] == m_j.tape[x] by {
                    let oo = x - s0.ptr;
                    lemma_lookup_push(acc.take(j), 0, acc[j], oo);
                    if oo != 0 && lookup_at(acc.take(j), 0, oo) is None && oo == o {
                        assert(nz_delta(acc.take(j + 1), oo) == d);
                        assert(d == 0);
                    }
                }
                assert(emitted_state(s0, acc, j + 1, v).tape =~= m_j.tape);
                assert(emitted_state(s0, acc, j + 1, v) =~~= m_j);
            }
            lemma_emit_run(acc, j + 1, s0, v, fuel);
        } else {
            let w = emit_from(acc, j);
            assert(w == seq![Ins::Mul(o, d)] + emit_from(acc, j + 1));
            assert(w[0] == Ins::Mul(o, d));
            assert(w.drop_first() =~= emit_from(acc, j + 1));
            assert forall|t: int| 0 <= t < j implies acc[t].0 != o by {
                assert(acc[t].0 != acc[j].0);
            }
            lemma_lookup_absent(acc.take(j), 0, o);
            assert(nz_delta(acc.take(j), o) == 0);
            let s1 = run_ins(Ins::Mul(o, d), m_j, fuel)->Some_0;
            assert(s1 == emitted_state(s0, acc, j + 1, v)) by {
                let goal = emitted_state(s0, acc, j + 1, v);
                assert(m_j.tape[m_j.ptr + o] == cell_add(s0.tape[s0.ptr + o], 0 * v));
                assert(m_j.tape[m_j.ptr + o] == s0.tape[s0.ptr + o]) by {
                    lemma_cell_add_zero(s0.tape[s0.ptr + o]);
                }
                assert forall|x: int| s1.tape[x] == goal.tape[x] by {
                    let oo = x - s0.ptr;
                    lemma_lookup_push(acc.take(j), 0, acc[j], oo);
                    if x == m_j.ptr + o {
                        assert(nz_delta(acc.take(j + 1), oo) == d);
                        assert(s1.tape[x] == cell_add(
                            s0.tape[x],
                            d * (m_j.tape[m_j.ptr] as int),
                        ));
                    }
                }
                assert(s1.tape =~= goal.tape);
                assert(s1 =~~= goal);
            }
            lemma_emit_run(acc, j + 1, s0, v, fuel);
        }
    }
}

proof fn lemma_run_single(x: Ins, s: State, fuel: nat)
    ensures
        run_seq(seq![x], s, fuel) == run_ins(x, s, fuel),
{
    assert(seq![x].len() == 1);
    assert(seq![x][0] == x);
    assert(seq![x].drop_first() =~= Seq::<Ins>::empty());
    match run_ins(x, s, fuel) {
        Some(s1) => {
            assert(run_seq(Seq::<Ins>::empty(), s1, fuel) == Some(s1));
        },
        None => {},
    }
}

/// A loop that completes and satisfies the multiplication pattern acts as
/// the emitted `Mul`s followed by `Store(0)`.
proof fn lemma_mul_rewrite(q: Seq<Ins>, s: State, fuel: nat) -> (f2: nat)
    requires
        st_wf(s),
        run_ins(Ins::Loop(q), s, fuel) is Some,
        mul_scan(q, 0, Seq::empty(), 0) is Some,
        mul_scan(q, 0, Seq::empty(), 0)->Some_0.1 == 0,
        lookup_at(mul_scan(q, 0, Seq::empty(), 0)->Some_0.0, 0, 0) == Some(-1int),
    ensures
        run_seq(mul_or_loop(q), s, f2) == run_ins(Ins::Loop(q), s, fuel),
{
    let acc = mul_scan(q, 0, Seq::empty(), 0)->Some_0.0;
    let v = s.tape[s.ptr];
    assert(keys_distinct(Seq::<(int, int)>::empty()));
    lemma_mul_scan_distinct(q, 0, Seq::empty(), 0);
    assert(delta_of(acc, 0) == -1);
    lemma_mul_loop_run(q, acc, s, fuel);
    assert(mul_or_loop(q) == emit_from(acc, 0) + seq![Ins::Store(0)]);
    lemma_run_seq_append(emit_from(acc, 0), seq![Ins::Store(0)], s, fuel);
    assert(emitted_state(s, acc, 0, v as int) == s) by {
        assert(acc.take(0) =~= Seq::<(int, int)>::empty());
        assert forall|x: int| emitted_state(s, acc, 0, v as int).tape[x] == s.tape[x] by {
            lemma_delta_of_empty(x - s.ptr);
            assert(nz_delta(Seq::empty(), x - s.ptr) == 0);
            assert(0 * (v as int) == 0);
            lemma_cell_add_zero(s.tape[x]);
        }
        assert(emitted_state(s, acc, 0, v as int).tape =~= s.tape);
        assert(emitted_state(s, acc, 0, v as int) =~~= s);
    }
    lemma_emit_run(acc, 0, s, v as int, fuel);
    let e = emitted_state(s, acc, acc.len() as int, v as int);
    assert(run_seq(emit_from(acc, 0), s, fuel) == Some(e));
    lemma_run_single(Ins::Store(0), e, fuel);
    let e2 = run_ins(Ins::Store(0), e, fuel)->Some_0;
    assert(e2 == apply_deltas(s, acc, v as int)) by {
        let goal = apply_deltas(s, acc, v as int);
        assert(byte_of(0) == 0) by {
            vstd::arithmetic::div_mod::lemma_small_mod(0, 256);
        }
        assert(acc.take(acc.len() as int) =~= acc);
        assert forall|x: int| e2.tape[x] == goal.tape[x] by {
            if x == s.ptr {
                assert(delta_of(acc, 0) * (v as int) == -(v as int)) by (nonlinear_arith)
                    requires
                        delta_of(acc, 0) == -1,
                ;
                lemma_cell_add_cancel(v);
            }
        }
        assert(e2.tape =~= goal.tape);
        assert(e2 =~~= goal);
    }
    fuel
}

/// Every position in the counted run of `Mul`s holds a `Mul`.
proof fn lemma_mul_run_all(s: Seq<Ins>, i: int)
    requires
        0 <= i <= s.len(),
    ensures
        forall|t: int| i <= t < i + mul_run_len(s, i) ==> s[t] is Mul,
    decreases s.len() - i,
{
    lemma_mul_run_len_bounds(s, i);
    if i < s.len() && s[i] is Mul {
        lemma_mul_run_all(s, i + 1);
        lemma_mul_run_len_bounds(s, i + 1);
    }
}

spec fn nat_max(a: nat, b: nat) -> nat {
    if a > b {
        a
    } else {
        b
    }
}

/// One sweep preserves behavior: a run of the program that completes is
/// matched by a run of the swept program from the same state, ending in the
/// same state.
pub proof fn lemma_pass_preserves(p: Seq<Ins>, s: State, fuel: nat) -> (f2: nat)
    requires
        st_wf(s),
        run_seq(p, s, fuel) is Some,
    ensures
        run_seq(pass(p), s, f2) == run_seq(p, s, fuel),
    decreases psz(p), 0int, 0nat,
{
    if p.len() == 0 {
        fuel
    } else {
        lemma_psz_skip(p, 1);
        if p.len() >= 2 {
            lemma_psz_skip(p, 2);
        }
        assert(p.drop_first() =~= p.skip(1));
        let s1 = run_ins(p[0], s, fuel)->Some_0;
        lemma_run_ins_wf(p[0], s, fuel);
        let t = run_seq(p, s, fuel);
        assert(run_seq(p.skip(1), s1, fuel) == t);
        if p.len() >= 2 {
            assert(p.skip(1).drop_first() =~= p.skip(2));
            assert(p.skip(1)[0] == p[1]);
        }
        match p[0] {
            Ins::Add(a) => {
                if a == 0 {
                    lemma_add_zero_noop(s, fuel);
                    assert(s1 == s);
                    lemma_pass_preserves(p.skip(1), s, fuel)
                } else if p.len() >= 2 && p[1] is Add {
                    let b = match p[1] { Ins::Add(b) => b, _ => 0 };
                    let s2 = run_ins(p[1], s1, fuel)->Some_0;
                    lemma_run_ins_wf(p[1], s1, fuel);
                    assert(run_seq(p.skip(2), s2, fuel) == t);
                    if in_i64(a + b) {
                        lemma_fuse_add(s, a, b, fuel);
                        let fr = lemma_pass_preserves(p.skip(2), s2, fuel);
                        lemma_chunk(Ins::Add(a + b), s, s2, p.skip(2), fuel, fr, t)
                    } else {
                        let fr = lemma_pass_preserves(p.skip(1), s1, fuel);
                        lemma_chunk(Ins::Add(a), s, s1, p.skip(1), fuel, fr, t)
                    }
                } else if p.len() >= 2 && p[1] is Store {
                    let v = match p[1] { Ins::Store(v) => v, _ => 0 };
                    let s2 = run_ins(p[1], s1, fuel)->Some_0;
                    lemma_run_ins_wf(p[1], s1, fuel);
                    assert(run_seq(p.skip(2), s2, fuel) == t);
                    lemma_store_wins(s, p[0], v, fuel);
                    let fr = lemma_pass_preserves(p.skip(2), s2, fuel);
                    lemma_chunk(Ins::Store(v), s, s2, p.skip(2), fuel, fr, t)
                } else {
                    let fr = lemma_pass_preserves(p.skip(1), s1, fuel);
                    lemma_chunk(Ins::Add(a), s, s1, p.skip(1), fuel, fr, t)
                }
            },
            Ins::Move(a) => {
                if a == 0 {
                    lemma_move_zero_noop(s, fuel);
                    assert(s1 == s);
                    lemma_pass_preserves(p.skip(1), s, fuel)
                } else if p.len() >= 2 && p[1] is Move {
                    let b = match p[1] { Ins::Move(b) => b, _ => 0 };
                    let s2 = run_ins(p[1], s1, fuel)->Some_0;
                    lemma_run_ins_wf(p[1], s1, fuel);
                    assert(run_seq(p.skip(2), s2, fuel) == t);
                    if in_i64(a + b) {
                        lemma_fuse_move(s, a, b, fuel);
                        let fr = lemma_pass_preserves(p.skip(2), s2, fuel);
                        lemma_chunk(Ins::Move(a + b), s, s2, p.skip(2), fuel, fr, t)
                    } else {
                        let fr = lemma_pass_preserves(p.skip(1), s1, fuel);
                        lemma_chunk(Ins::Move(a), s, s1, p.skip(1), fuel, fr, t)
                    }
                } else {
                    let fr = lemma_pass_preserves(p.skip(1), s1, fuel);
                    lemma_chunk(Ins::Move(a), s, s1, p.skip(1), fuel, fr, t)
                }
            },
            Ins::Store(a) => {
                if p.len() >= 2 && p[1] is Add {
                    let b = match p[1] { Ins::Add(b) => b, _ => 0 };
                    let s2 = run_ins(p[1], s1, fuel)->Some_0;
                    lemma_run_ins_wf(p[1], s1, fuel);
                    assert(run_seq(p.skip(2), s2, fuel) == t);
                    if in_i64(a + b) {
                        lemma_fuse_store_add(s, a, b, fuel);
                        let fr = lemma_pass_preserves(p.skip(2), s2, fuel);
                        lemma_chunk(Ins::Store(a + b), s, s2, p.skip(2), fuel, fr, t)
                    } else {
                        let fr = lemma_pass_preserves(p.skip(1), s1, fuel);
                        lemma_chunk(Ins::Store(a), s, s1, p.skip(1), fuel, fr, t)
                    }
                } else if p.len() >= 2 && p[1] is Store {
                    let v = match p[1] { Ins::Store(v) => v, _ => 0 };
                    let s2 = run_ins(p[1], s1, fuel)->Some_0;
                    lemma_run_ins_wf(p[1], s1, fuel);
                    assert(run_seq(p.skip(2), s2, fuel) == t);
                    lemma_store_wins(s, p[0], v, fuel);
                    let fr = lemma_pass_preserves(p.skip(2), s2, fuel);
                    lemma_chunk(Ins::Store(v), s, s2, p.skip(2), fuel, fr, t)
                } else if a == 0 && p.len() >= 2 && p[1] is Loop {
                    let s2 = run_ins(p[1], s1, fuel)->Some_0;
                    assert(run_seq(p.skip(2), s2, fuel) == t);
                    let body = match p[1] { Ins::Loop(b) => b, _ => Seq::empty() };
                    lemma_store_zero_loop(s, body, fuel);
                    assert(s2 == s1);
                    let fr = lemma_pass_preserves(p.skip(2), s1, fuel);
                    lemma_chunk(Ins::Store(0), s, s1, p.skip(2), fuel, fr, t)
                } else if a == 0 && p.len() >= 2 && p[1] is Mul {
                    let k = mul_run_len(p, 1);
                    lemma_mul_run_len_bounds(p, 2);
                    assert(k == 1 + mul_run_len(p, 2));
                    lemma_psz_skip(p, 1 + k);
                    lemma_mul_run_all(p, 1);
                    let muls = p.skip(1).take(k);
                    assert(p.skip(1) =~= muls + p.skip(1 + k));
                    lemma_run_seq_append(muls, p.skip(1 + k), s1, fuel);
                    assert(s1.tape[s1.ptr] == byte_of(0));
                    assert(byte_of(0) == 0) by {
                        vstd::arithmetic::div_mod::lemma_small_mod(0, 256);
                    }
                    assert(forall|u: int| 0 <= u < k ==> muls[u] == p[1 + u]);
                    assert(forall|u: int| 0 <= u < k ==> muls[u] is Mul);
                    lemma_muls_on_zero(muls, s1, fuel);
                    assert(run_seq(p.skip(1 + k), s1, fuel) == t);
                    let fr = lemma_pass_preserves(p.skip(1 + k), s1, fuel);
                    lemma_chunk(Ins::Store(0), s, s1, p.skip(1 + k), fuel, fr, t)
                } else {
                    let fr = lemma_pass_preserves(p.skip(1), s1, fuel);
                    lemma_chunk(Ins::Store(a), s, s1, p.skip(1), fuel, fr, t)
                }
            },
            Ins::Loop(body) => {
                lemma_psz_elem(p, 0);
                let fl = lemma_opt_loop_preserves(body, s, fuel);
                let fr = lemma_pass_preserves(p.skip(1), s1, fuel);
                let f2 = nat_max(fl, fr);
                lemma_run_seq_mono(opt_loop(body), s, fl, f2);
                lemma_run_seq_mono(pass(p.skip(1)), s1, fr, f2);
                lemma_run_seq_append(opt_loop(body), pass(p.skip(1)), s, f2);
                f2
            },
            _ => {
                let fr = lemma_pass_preserves(p.skip(1), s1, fuel);
                lemma_chunk(p[0], s, s1, p.skip(1), fuel, fr, t)
            },
        }
    }
}

/// Stitch one rewritten head instruction onto the preserved rest: if the
/// head takes `s` to `m` and the swept rest takes `m` to the final state,
/// the head plus the swept rest takes `s` there too.
proof fn lemma_chunk(
    x: Ins,
    s: State,
    m: State,
    rest: Seq<Ins>,
    fuel: nat,
    fr: nat,
    t: Option<State>,
) -> (f2: nat)
    requires
        run_ins(x, s, fuel) == Some(m),
        run_seq(pass(rest), m, fr) == t,
        t is Some,
    ensures
        run_seq(seq![x] + pass(rest), s, f2) == t,
{
    let f2 = nat_max(fuel, fr);
    lemma_run_ins_mono(x, s, fuel, f2);
    lemma_run_seq_mono(pass(rest), m, fr, f2);
    lemma_run_seq_append(seq![x], pass(rest), s, f2);
    lemma_run_single(x, s, f2);
    f2
}

/// Rewriting one loop preserves behavior.
proof fn lemma_opt_loop_preserves(body: Seq<Ins>, s: State, fuel: nat) -> (f2: nat)
    requires
        st_wf(s),
        run_ins(Ins::Loop(body), s, fuel) is Some,
    ensures
        run_seq(opt_loop(body), s, f2) == run_ins(Ins::Loop(body), s, fuel),
    decreases psz(body), 2int, 0nat,
{
    if body.len() == 0 {
        assert(body =~= Seq::<Ins>::empty());
        lemma_empty_loop(s, fuel);
        fuel
    } else if body =~= seq![Ins::Store(0)] {
        lemma_loop_store0(s, fuel, fuel);
        lemma_run_single(Ins::Store(0), s, fuel);
        fuel
    } else if body =~= seq![Ins::Add(-1)] {
        lemma_clear_loop(s, fuel);
        lemma_run_single(Ins::Store(0), s, fuel);
        assert(byte_of(0) == 0) by {
            vstd::arithmetic::div_mod::lemma_small_mod(0, 256);
        }
        assert(run_ins(Ins::Store(0), s, fuel)->Some_0 =~~= (State {
            tape: s.tape.insert(s.ptr, 0u8),
            ..s
        }));
        fuel
    } else if body.len() == 1 && body[0] is Move && !(body =~= seq![Ins::Move(0)]) {
        let n = match body[0] { Ins::Move(n) => n, _ => 0 };
        assert(body =~= seq![Ins::Move(n)]);
        lemma_scan_loop(s, n, fuel);
        lemma_run_single(Ins::Scan(n), s, fuel);
        fuel
    } else {
        let q = pass(body);
        let fb = lemma_loop_body_pass(body, s, fuel);
        assert(run_ins(Ins::Loop(q), s, fb) == run_ins(Ins::Loop(body), s, fuel));
        let sc = mul_scan(q, 0, Seq::empty(), 0);
        if sc is Some && sc->Some_0.1 == 0 && lookup_at(sc->Some_0.0, 0, 0) == Some(-1int) {
            lemma_mul_rewrite(q, s, fb)
        } else {
            assert(mul_or_loop(q) == seq![Ins::Loop(q)]);
            lemma_run_single(Ins::Loop(q), s, fb);
            fb
        }
    }
}

/// Sweeping a loop's body preserves the loop's behavior.
proof fn lemma_loop_body_pass(body: Seq<Ins>, s: State, fuel: nat) -> (f2: nat)
    requires
        st_wf(s),
        run_ins(Ins::Loop(body), s, fuel) is Some,
    ensures
        run_ins(Ins::Loop(pass(body)), s, f2) == run_ins(Ins::Loop(body), s, fuel),
    decreases psz(body), 1int, fuel,
{
    let q = pass(body);
    if s.tape[s.ptr] == 0 {
        fuel
    } else {
        let s_mid = run_seq(body, s, fuel)->Some_0;
        lemma_run_seq_wf(body, s, fuel);
        let f_tail = lemma_loop_body_pass(body, s_mid, (fuel - 1) as nat);
        let f_body = lemma_pass_preserves(body, s, fuel);
        let f2 = (nat_max(f_body, f_tail) + 1) as nat;
        lemma_run_seq_mono(q, s, f_body, f2);
        lemma_run_ins_mono(Ins::Loop(q), s_mid, f_tail, (f2 - 1) as nat);
        assert(run_ins(Ins::Loop(q), s, f2) == run_ins(Ins::Loop(q), s_mid, (f2 - 1) as nat));
        f2
    }
}

/// The optimizer preserves observable behavior: a run of the program that
/// completes under the reference semantics is matched by a run of the
/// optimized program from the same state, ending in the same state — same
/// tape, pointer, remaining input and output. Of a run that never completes
/// (such as an empty loop spinning on a nonzero cell, which the optimizer
/// reads as a no-op) nothing is claimed.
pub proof fn lemma_optimize_preserves(p: Seq<Ins>, s: State, fuel: nat) -> (f2: nat)
    requires
        st_wf(s),
        run_seq(p, s, fuel) is Some,
    ensures
        run_seq(optimize_spec(p), s, f2) == run_seq(p, s, fuel),
    decreases psz(p),
{
    if pass(p) == p {
        fuel
    } else {
        lemma_pass_shrinks(p);
        let f1 = lemma_pass_preserves(p, s, fuel);
        let f2 = lemma_optimize_preserves(pass(p), s, f1);
        f2
    }
}

/// The optimizer preserves what a program does with its input: when the
/// source program, started on a zeroed tape with the given input, completes,
/// the optimized program completes on that input in the very same state —
/// in particular with the same output.
pub proof fn lemma_optimize_preserves_output(p: Seq<Ins>, inp: Seq<u8>, fuel: nat) -> (f2: nat)
    requires
        run_seq(p, init_state(inp), fuel) is Some,
    ensures
        run_seq(optimize_spec(p), init_state(inp), f2) == run_seq(p, init_state(inp), fuel),
{
    lemma_init_state_wf(inp);
    lemma_optimize_preserves(p, init_state(inp), fuel)
}

} // verus!
