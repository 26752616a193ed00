use vstd::prelude::*;

use crate::ast::Instruction;
use crate::ast::Program;
use crate::ast::Ins;
use crate::ast::isz;
use crate::ast::psz;
use crate::ast::lemma_psz_append;
use crate::ast::lemma_psz_split;
use crate::ast::lemma_psz_len_le;
use crate::ast::lemma_psz_skip;
use crate::ast::lemma_psz_elem;
use crate::ast::view_ins;
use crate::ast::view_seq;
use crate::ast::view_prog;
use crate::ast::lemma_view_seq_len;
use crate::ast::lemma_view_seq_index;
use crate::ast::lemma_view_seq_push;
use crate::ast::lemma_view_seq_append;
use crate::ast::lemma_view_seq_single;
use crate::ast::copy_ins;
use crate::ast::eq_prog;

verus! {

/// Whether a mathematical integer fits the 64-bit signed payload of an
/// instruction. Rewrites that would overflow a payload do not fire.
pub open spec fn in_i64(x: int) -> bool {
    i64::MIN <= x <= i64::MAX
}

/// Length of the run of `Mul` instructions that starts at index `i`.
pub open spec fn mul_run_len(s: Seq<Ins>, i: int) -> int
    decreases s.len() - i when 0 <= i <= s.len()
{
    if i < s.len() && s[i] is Mul {
        1 + mul_run_len(s, i + 1)
    } else {
        0
    }
}

/// Add `d` to the entry for `off` in an association list of net cell deltas,
/// scanning from index `j`; a missing entry is appended. `None` when the sum
/// leaves the 64-bit payload range.
pub open spec fn upsert_at(acc: Seq<(int, int)>, j: int, off: int, d: int) -> Option<
    Seq<(int, int)>,
>
    decreases acc.len() - j when 0 <= j <= acc.len()
{
    if j == acc.len() {
        Some(acc.push((off, d)))
    } else if acc[j].0 == off {
        if in_i64(acc[j].1 + d) {
            Some(acc.update(j, (off, acc[j].1 + d)))
        } else {
            None
        }
    } else {
        upsert_at(acc, j + 1, off, d)
    }
}

/// The net delta recorded for offset `off`, if any, scanning from index `j`.
pub open spec fn lookup_at(acc: Seq<(int, int)>, j: int, off: int) -> Option<int>
    decreases acc.len() - j when 0 <= j <= acc.len()
{
    if j == acc.len() {
        None
    } else if acc[j].0 == off {
        Some(acc[j].1)
    } else {
        lookup_at(acc, j + 1, off)
    }
}

/// Walk a loop body made of `Add` and `Move` instructions, accumulating the
/// net delta per relative offset and the net pointer displacement. `None`
/// when another instruction occurs or a payload leaves the 64-bit range.
pub open spec fn mul_scan(q: Seq<Ins>, i: int, acc: Seq<(int, int)>, off: int) -> Option<
    (Seq<(int, int)>, int),
>
    decreases q.len() - i when 0 <= i <= q.len()
{
    if i == q.len() {
        Some((acc, off))
    } else {
        match q[i] {
            Ins::Add(d) => match upsert_at(acc, 0, off, d) {
                Some(acc2) => mul_scan(q, i + 1, acc2, off),
                None => None,
            },
            Ins::Move(m) => if in_i64(off + m) {
                mul_scan(q, i + 1, acc, off + m)
            } else {
                None
            },
            _ => None,
        }
    }
}

/// One `Mul(off, delta)` per recorded offset, from index `j` on, in first-use
/// order; offset zero and zero deltas are elided.
pub open spec fn emit_from(acc: Seq<(int, int)>, j: int) -> Seq<Ins>
    decreases acc.len() - j when 0 <= j <= acc.len()
{
    if j == acc.len() {
        Seq::empty()
    } else if acc[j].0 == 0 || acc[j].1 == 0 {
        emit_from(acc, j + 1)
    } else {
        seq![Ins::Mul(acc[j].0, acc[j].1)] + emit_from(acc, j + 1)
    }
}

/// Rewrite an already-swept loop body: a balanced `Add`/`Move` body with net
/// displacement zero and delta -1 at the origin becomes one `Mul` per other
/// touched offset followed by `Store(0)`; anything else is wrapped back into
/// a `Loop`.
pub open spec fn mul_or_loop(q: Seq<Ins>) -> Seq<Ins> {
    match mul_scan(q, 0, Seq::empty(), 0) {
        Some((acc, off)) => if off == 0 && lookup_at(acc, 0, 0) == Some(-1int) {
            emit_from(acc, 0) + seq![Ins::Store(0)]
        } else {
            seq![Ins::Loop(q)]
        },
        None => seq![Ins::Loop(q)],
    }
}

/// Rewrite one loop, given its body: empty loops vanish, the canonical clear
/// loops become `Store(0)`, a single nonzero `Move` becomes a `Scan`, and any
/// other body is swept once and offered to the multiplication rewrite.
pub open spec fn opt_loop(body: Seq<Ins>) -> Seq<Ins>
    decreases psz(body), 2int,
{
    if body.len() == 0 {
        Seq::empty()
    } else if body =~= seq![Ins::Store(0)] {
        seq![Ins::Store(0)]
    } else if body =~= seq![Ins::Add(-1)] {
        seq![Ins::Store(0)]
    } else if body.len() == 1 && body[0] is Move && !(body =~= seq![Ins::Move(0)]) {
        seq![Ins::Scan(match body[0] { Ins::Move(n) => n, _ => 0 })]
    } else {
        mul_or_loop(pass(body))
    }
}

/// One left-to-right sweep with one token of lookahead. Each step applies
/// the first rewrite that fires: drop `Add(0)`/`Move(0)`; fuse adjacent
/// `Add`s, `Move`s, and `Store`+`Add`; a `Store` absorbs what precedes or
/// follows it; a `Store(0)` swallows a following loop or run of `Mul`s;
/// loops are rewritten by `opt_loop`; everything else is copied.
pub open spec fn pass(s: Seq<Ins>) -> Seq<Ins>
    decreases psz(s), 1int,
{
    if s.len() == 0 {
        Seq::empty()
    } else {
        proof {
            lemma_psz_skip(s, 1);
            if s.len() >= 2 {
                lemma_psz_skip(s, 2);
            }
        }
        match s[0] {
            Ins::Add(a) => {
                if a == 0 {
                    pass(s.skip(1))
                } else if s.len() >= 2 && s[1] is Add {
                    let b = match s[1] { Ins::Add(b) => b, _ => 0 };
                    if in_i64(a + b) {
                        seq![Ins::Add(a + b)] + pass(s.skip(2))
                    } else {
                        seq![Ins::Add(a)] + pass(s.skip(1))
                    }
                } else if s.len() >= 2 && s[1] is Store {
                    let v = match s[1] { Ins::Store(v) => v, _ => 0 };
                    seq![Ins::Store(v)] + pass(s.skip(2))
                } else {
                    seq![Ins::Add(a)] + pass(s.skip(1))
                }
            },
            Ins::Move(a) => {
                if a == 0 {
                    pass(s.skip(1))
                } else if s.len() >= 2 && s[1] is Move {
                    let b = match s[1] { Ins::Move(b) => b, _ => 0 };
                    if in_i64(a + b) {
                        seq![Ins::Move(a + b)] + pass(s.skip(2))
                    } else {
                        seq![Ins::Move(a)] + pass(s.skip(1))
                    }
                } else {
                    seq![Ins::Move(a)] + pass(s.skip(1))
                }
            },
            Ins::Store(a) => {
                if s.len() >= 2 && s[1] is Add {
                    let b = match s[1] { Ins::Add(b) => b, _ => 0 };
                    if in_i64(a + b) {
                        seq![Ins::Store(a + b)] + pass(s.skip(2))
                    } else {
                        seq![Ins::Store(a)] + pass(s.skip(1))
                    }
                } else if s.len() >= 2 && s[1] is Store {
                    let v = match s[1] { Ins::Store(v) => v, _ => 0 };
                    seq![Ins::Store(v)] + pass(s.skip(2))
                } else if a == 0 && s.len() >= 2 && s[1] is Loop {
                    seq![Ins::Store(0)] + pass(s.skip(2))
                } else if a == 0 && s.len() >= 2 && s[1] is Mul {
                    let k = mul_run_len(s, 1);
                    proof {
                        lemma_mul_run_len_bounds(s, 2);
                        assert(k == 1 + mul_run_len(s, 2));
                        lemma_psz_skip(s, 1 + k);
                    }
                    seq![Ins::Store(0)] + pass(s.skip(1 + k))
                } else {
                    seq![Ins::Store(a)] + pass(s.skip(1))
                }
            },
            Ins::Loop(body) => {
                proof {
                    lemma_psz_elem(s, 0);
                }
                opt_loop(body) + pass(s.skip(1))
            },
            _ => seq![s[0]] + pass(s.skip(1)),
        }
    }
}

pub proof fn lemma_mul_run_len_bounds(s: Seq<Ins>, i: int)
    requires
        0 <= i <= s.len(),
    ensures
        0 <= mul_run_len(s, i) <= s.len() - i,
    decreases s.len() - i,
{
    if i < s.len() && s[i] is Mul {
        lemma_mul_run_len_bounds(s, i + 1);
    }
}

proof fn lemma_psz_single(x: Ins)
    ensures
        psz(seq![x]) == isz(x),
{
    assert(seq![x].len() == 1);
    assert(seq![x][0] == x);
    assert(seq![x].drop_first() =~= Seq::<Ins>::empty());
    assert(psz(Seq::<Ins>::empty()) == 0);
    assert(psz(seq![x]) == isz(seq![x][0]) + psz(seq![x].drop_first()));
}

proof fn lemma_psz_cons(x: Ins, r: Seq<Ins>)
    ensures
        psz(seq![x] + r) == isz(x) + psz(r),
{
    lemma_psz_append(seq![x], r);
    lemma_psz_single(x);
}

proof fn lemma_upsert_len(acc: Seq<(int, int)>, j: int, off: int, d: int)
    requires
        0 <= j <= acc.len(),
        upsert_at(acc, j, off, d) is Some,
    ensures
        upsert_at(acc, j, off, d)->Some_0.len() <= acc.len() + 1,
    decreases acc.len() - j,
{
    if j < acc.len() && acc[j].0 != off {
        lemma_upsert_len(acc, j + 1, off, d);
    }
}

proof fn lemma_mul_scan_len(q: Seq<Ins>, i: int, acc: Seq<(int, int)>, off: int)
    requires
        0 <= i <= q.len(),
        mul_scan(q, i, acc, off) is Some,
    ensures
        mul_scan(q, i, acc, off)->Some_0.0.len() <= acc.len() + q.len() - i,
    decreases q.len() - i,
{
    if i < q.len() {
        match q[i] {
            Ins::Add(d) => {
                let acc2 = upsert_at(acc, 0, off, d)->Some_0;
                lemma_upsert_len(acc, 0, off, d);
                lemma_mul_scan_len(q, i + 1, acc2, off);
            },
            Ins::Move(m) => {
                lemma_mul_scan_len(q, i + 1, acc, off + m);
            },
            _ => {},
        }
    }
}

proof fn lemma_emit_psz(acc: Seq<(int, int)>, j: int)
    requires
        0 <= j <= acc.len(),
    ensures
        psz(emit_from(acc, j)) <= acc.len() - j,
    decreases acc.len() - j,
{
    if j < acc.len() {
        lemma_emit_psz(acc, j + 1);
        if !(acc[j].0 == 0 || acc[j].1 == 0) {
            lemma_psz_cons(Ins::Mul(acc[j].0, acc[j].1), emit_from(acc, j + 1));
        }
    }
}

proof fn lemma_mul_or_loop_shrinks(q: Seq<Ins>)
    ensures
        mul_or_loop(q) == seq![Ins::Loop(q)] || psz(mul_or_loop(q)) < 2 + psz(q),
{
    match mul_scan(q, 0, Seq::empty(), 0) {
        Some((acc, off)) => {
            if off == 0 && lookup_at(acc, 0, 0) == Some(-1int) {
                lemma_mul_scan_len(q, 0, Seq::empty(), 0);
                lemma_emit_psz(acc, 0);
                lemma_psz_len_le(q);
                lemma_psz_append(emit_from(acc, 0), seq![Ins::Store(0)]);
                lemma_psz_single(Ins::Store(0));
            }
        },
        None => {},
    }
}

proof fn lemma_opt_loop_shrinks(body: Seq<Ins>)
    ensures
        psz(opt_loop(body)) <= 2 + psz(body),
        opt_loop(body) == seq![Ins::Loop(body)] || psz(opt_loop(body)) < 2 + psz(body),
    decreases psz(body), 2int,
{
    if body.len() == 0 {
    } else if body =~= seq![Ins::Store(0)] {
        lemma_psz_single(Ins::Store(0));
        lemma_psz_single(body[0]);
    } else if body =~= seq![Ins::Add(-1)] {
        lemma_psz_single(Ins::Store(0));
        lemma_psz_single(body[0]);
    } else if body.len() == 1 && body[0] is Move && !(body =~= seq![Ins::Move(0)]) {
        lemma_psz_single(opt_loop(body)[0]);
        lemma_psz_single(body[0]);
        assert(body =~= seq![body[0]]);
    } else {
        let q = pass(body);
        lemma_pass_shrinks(body);
        lemma_mul_or_loop_shrinks(q);
        if mul_or_loop(q) == seq![Ins::Loop(q)] {
            lemma_psz_single(Ins::Loop(q));
        }
    }
}

/// One sweep never grows the weight of a program, and a sweep that changes
/// anything strictly shrinks it: the fixpoint iteration terminates.
pub proof fn lemma_pass_shrinks(s: Seq<Ins>)
    ensures
        psz(pass(s)) <= psz(s),
        pass(s) == s || psz(pass(s)) < psz(s),
    decreases psz(s), 1int,
{
    if s.len() == 0 {
    } else {
        lemma_psz_skip(s, 1);
        lemma_psz_split(s, 1);
        if s.len() >= 2 {
            lemma_psz_skip(s, 2);
            lemma_psz_split(s, 2);
            lemma_psz_elem(s.take(2), 0);
            lemma_psz_elem(s.take(2), 1);
            assert(psz(s.take(2)) == isz(s[0]) + isz(s[1])) by {
                assert(s.take(2) =~= seq![s[0]] + seq![s[1]]);
                lemma_psz_append(seq![s[0]], seq![s[1]]);
                lemma_psz_single(s[0]);
                lemma_psz_single(s[1]);
            }
        }
        let rest1 = pass(s.skip(1));
        lemma_pass_shrinks(s.skip(1));
        assert(s =~= seq![s[0]] + s.skip(1));
        match s[0] {
            Ins::Add(a) => {
                if a == 0 {
                } else if s.len() >= 2 && s[1] is Add {
                    lemma_pass_shrinks(s.skip(2));
                    let b = match s[1] { Ins::Add(b) => b, _ => 0 };
                    if in_i64(a + b) {
                        lemma_psz_cons(Ins::Add(a + b), pass(s.skip(2)));
                    } else {
                        lemma_psz_cons(Ins::Add(a), rest1);
                        if rest1 == s.skip(1) {
                            assert(pass(s) =~= s);
                        }
                    }
                } else if s.len() >= 2 && s[1] is Store {
                    lemma_pass_shrinks(s.skip(2));
                    let v = match s[1] { Ins::Store(v) => v, _ => 0 };
                    lemma_psz_cons(Ins::Store(v), pass(s.skip(2)));
                } else {
                    lemma_psz_cons(Ins::Add(a), rest1);
                    if rest1 == s.skip(1) {
                        assert(pass(s) =~= s);
                    }
                }
            },
            Ins::Move(a) => {
                if a == 0 {
                } else if s.len() >= 2 && s[1] is Move {
                    lemma_pass_shrinks(s.skip(2));
                    let b = match s[1] { Ins::Move(b) => b, _ => 0 };
                    if in_i64(a + b) {
                        lemma_psz_cons(Ins::Move(a + b), pass(s.skip(2)));
                    } else {
                        lemma_psz_cons(Ins::Move(a), rest1);
                        if rest1 == s.skip(1) {
                            assert(pass(s) =~= s);
                        }
                    }
                } else {
                    lemma_psz_cons(Ins::Move(a), rest1);
                    if rest1 == s.skip(1) {
                        assert(pass(s) =~= s);
                    }
                }
            },
            Ins::Store(a) => {
                if s.len() >= 2 && s[1] is Add {
                    lemma_pass_shrinks(s.skip(2));
                    let b = match s[1] { Ins::Add(b) => b, _ => 0 };
                    if in_i64(a + b) {
                        lemma_psz_cons(Ins::Store(a + b), pass(s.skip(2)));
                    } else {
                        lemma_psz_cons(Ins::Store(a), rest1);
                        if rest1 == s.skip(1) {
                            assert(pass(s) =~= s);
                        }
                    }
                } else if s.len() >= 2 && s[1] is Store {
                    lemma_pass_shrinks(s.skip(2));
                    let v = match s[1] { Ins::Store(v) => v, _ => 0 };
                    lemma_psz_cons(Ins::Store(v), pass(s.skip(2)));
                } else if a == 0 && s.len() >= 2 && s[1] is Loop {
                    lemma_pass_shrinks(s.skip(2));
                    lemma_psz_cons(Ins::Store(0), pass(s.skip(2)));
                    lemma_psz_elem(s, 1);
                    assert(isz(s[1]) >= 2);
                } else if a == 0 && s.len() >= 2 && s[1] is Mul {
                    let k = mul_run_len(s, 1);
                    lemma_mul_run_len_bounds(s, 2);
                    assert(k == 1 + mul_run_len(s, 2));
                    lemma_psz_skip(s, 1 + k);
                    lemma_pass_shrinks(s.skip(1 + k));
                    lemma_psz_cons(Ins::Store(0), pass(s.skip(1 + k)));
                } else {
                    lemma_psz_cons(Ins::Store(a), rest1);
                    if rest1 == s.skip(1) {
                        assert(pass(s) =~= s);
                    }
                }
            },
            Ins::Loop(body) => {
                lemma_psz_elem(s, 0);
                lemma_opt_loop_shrinks(body);
                lemma_psz_append(opt_loop(body), rest1);
                if opt_loop(body) == seq![Ins::Loop(body)] && rest1 == s.skip(1) {
                    assert(pass(s) =~= s);
                } else if opt_loop(body) == seq![Ins::Loop(body)] {
                    lemma_psz_single(Ins::Loop(body));
                }
            },
            _ => {
                lemma_psz_cons(s[0], rest1);
                if rest1 == s.skip(1) {
                    assert(pass(s) =~= s);
                }
            },
        }
    }
}

/// Sweep until the sweep changes nothing. The weight strictly shrinks at
/// every step, so a fixpoint is always reached; no iteration cap is needed.
pub open spec fn optimize_spec(p: Seq<Ins>) -> Seq<Ins>
    decreases psz(p),
{
    let q = pass(p);
    if q == p {
        p
    } else {
        proof {
            lemma_pass_shrinks(p);
        }
        optimize_spec(q)
    }
}

/// What `optimize` returns is a fixpoint of the sweep.
pub proof fn lemma_optimize_fixpoint(p: Seq<Ins>)
    ensures
        pass(optimize_spec(p)) == optimize_spec(p),
    decreases psz(p),
{
    if pass(p) != p {
        lemma_pass_shrinks(p);
        lemma_optimize_fixpoint(pass(p));
    }
}

/// Optimizing an already optimized program changes nothing.
pub proof fn lemma_optimize_idempotent(p: Seq<Ins>)
    ensures
        optimize_spec(optimize_spec(p)) == optimize_spec(p),
{
    lemma_optimize_fixpoint(p);
}

/// The mathematical value of an association list of offsets and deltas.
pub open spec fn view_acc(a: Seq<(i64, i64)>) -> Seq<(int, int)> {
    Seq::new(a.len(), |i: int| (a[i].0 as int, a[i].1 as int))
}

/// Record another delta for an offset; false when the sum overflows.
#[verifier::loop_isolation(false)]
fn upsert_exec(acc: &mut Vec<(i64, i64)>, off: i64, d: i64) -> (ok: bool)
    ensures
        ok == (upsert_at(view_acc(old(acc)@), 0, off as int, d as int) is Some),
        ok ==> view_acc(final(acc)@) == upsert_at(view_acc(old(acc)@), 0, off as int, d as int)->Some_0,
{
    let ghost v = view_acc(acc@);
    let mut j: usize = 0;
    while j < acc.len()
        invariant
            0 <= j <= acc.len(),
            v == view_acc(acc@),
            v.len() == acc.len(),
            upsert_at(v, 0, off as int, d as int) == upsert_at(v, j as int, off as int, d as int),
        decreases acc.len() - j,
    {
        if acc[j].0 == off {
            proof {
                assert(v[j as int] == (acc@[j as int].0 as int, acc@[j as int].1 as int));
            }
            match acc[j].1.checked_add(d) {
                Some(sum) => {
                    proof {
                        assert(upsert_at(v, j as int, off as int, d as int) == Some(
                            v.update(j as int, (off as int, v[j as int].1 + d)),
                        ));
                    }
                    acc.set(j, (off, sum));
                    proof {
                        assert(view_acc(acc@) =~= v.update(j as int, (off as int, sum as int)));
                    }
                    return true;
                },
                None => {
                    proof {
                        assert(upsert_at(v, j as int, off as int, d as int) is None);
                    }
                    return false;
                },
            }
        }
        j = j + 1;
    }
    let ghost before = acc@;
    acc.push((off, d));
    proof {
        assert(view_acc(acc@) =~= v.push((off as int, d as int)));
    }
    true
}

/// The recorded net delta for an offset, if any.
#[verifier::loop_isolation(false)]
fn lookup_exec(acc: &Vec<(i64, i64)>, off: i64) -> (r: Option<i64>)
    ensures
        match lookup_at(view_acc(acc@), 0, off as int) {
            Some(d) => r matches Some(rd) && rd as int == d,
            None => r is None,
        },
{
    let ghost v = view_acc(acc@);
    let mut j: usize = 0;
    while j < acc.len()
        invariant
            0 <= j <= acc.len(),
            v == view_acc(acc@),
            v.len() == acc.len(),
            lookup_at(v, 0, off as int) == lookup_at(v, j as int, off as int),
        decreases acc.len() - j,
    {
        if acc[j].0 == off {
            return Some(acc[j].1);
        }
        j = j + 1;
    }
    None
}

/// Walk a swept loop body and accumulate net deltas and displacement.
#[verifier::loop_isolation(false)]
fn mul_scan_exec(q: &Vec<Instruction>) -> (r: Option<(Vec<(i64, i64)>, i64)>)
    ensures
        match mul_scan(view_prog(*q), 0, Seq::empty(), 0) {
            Some(so) => r matches Some(ro) && view_acc(ro.0@) == so.0 && ro.1 as int == so.1,
            None => r is None,
        },
{
    let ghost v = view_prog(*q);
    proof {
        lemma_view_seq_len(q@);
        assert(view_acc(Seq::<(i64, i64)>::empty()) =~= Seq::<(int, int)>::empty());
    }
    let mut acc: Vec<(i64, i64)> = Vec::new();
    let mut off: i64 = 0;
    let mut i: usize = 0;
    while i < q.len()
        invariant
            0 <= i <= q.len(),
            v == view_prog(*q),
            v.len() == q.len(),
            mul_scan(v, 0, Seq::empty(), 0) == mul_scan(
                v,
                i as int,
                view_acc(acc@),
                off as int,
            ),
        decreases q.len() - i,
    {
        proof {
            lemma_view_seq_index(q@, i as int);
        }
        match &q[i] {
            Instruction::Add(d) => {
                let ok = upsert_exec(&mut acc, off, *d);
                if !ok {
                    return None;
                }
            },
            Instruction::Move(m) => {
                match off.checked_add(*m) {
                    Some(o2) => {
                        off = o2;
                    },
                    None => {
                        return None;
                    },
                }
            },
            _ => {
                return None;
            },
        }
        i = i + 1;
    }
    Some((acc, off))
}

/// Emit one `Mul` per recorded offset, skipping offset zero and zero deltas.
#[verifier::loop_isolation(false)]
fn emit_exec(acc: &Vec<(i64, i64)>) -> (r: Vec<Instruction>)
    ensures
        view_prog(r) == emit_from(view_acc(acc@), 0),
{
    let ghost v = view_acc(acc@);
    let mut out: Vec<Instruction> = Vec::new();
    let mut j: usize = 0;
    proof {
        assert(view_prog(out) =~= Seq::<Ins>::empty());
    }
    while j < acc.len()
        invariant
            0 <= j <= acc.len(),
            v == view_acc(acc@),
            v.len() == acc.len(),
            view_prog(out) + emit_from(v, j as int) == emit_from(v, 0),
        decreases acc.len() - j,
    {
        let (o, d) = acc[j];
        if !(o == 0 || d == 0) {
            let ghost before = view_prog(out);
            proof {
                lemma_view_seq_push(out@, Instruction::Mul(o, d));
            }
            out.push(Instruction::Mul(o, d));
            proof {
                assert(before + emit_from(v, j as int) =~= (before + seq![
                    Ins::Mul(o as int, d as int),
                ]) + emit_from(v, j + 1));
            }
        }
        j = j + 1;
    }
    proof {
        assert(view_prog(out) + emit_from(v, acc@.len() as int) =~= view_prog(out));
    }
    out
}

/// Rewrite a swept loop body into `Mul`s and a `Store(0)` where the
/// multiplication pattern holds, or wrap it back into a `Loop`.
fn mul_or_loop_exec(q: Vec<Instruction>) -> (r: Vec<Instruction>)
    ensures
        view_prog(r) == mul_or_loop(view_prog(q)),
{
    let ghost v = view_prog(q);
    match mul_scan_exec(&q) {
        None => {
            let mut out: Vec<Instruction> = Vec::new();
            let ins = Instruction::Loop(q);
            proof {
                assert(view_ins(ins) == Ins::Loop(v));
                lemma_view_seq_single(ins);
            }
            out.push(ins);
            proof {
                assert(out@ =~= seq![Instruction::Loop(q)]);
                assert(view_prog(out) =~= seq![Ins::Loop(v)]);
            }
            out
        },
        Some((acc, off)) => {
            let delta0 = lookup_exec(&acc, 0);
            let is_mul = off == 0 && match delta0 {
                Some(d) => d == -1,
                None => false,
            };
            if is_mul {
                let mut out = emit_exec(&acc);
                let ghost emitted = view_prog(out);
                proof {
                    lemma_view_seq_push(out@, Instruction::Store(0));
                }
                out.push(Instruction::Store(0));
                proof {
                    assert(view_prog(out) =~= emitted + seq![Ins::Store(0)]);
                }
                out
            } else {
                let mut out: Vec<Instruction> = Vec::new();
                let ins = Instruction::Loop(q);
                proof {
                    assert(view_ins(ins) == Ins::Loop(v));
                    lemma_view_seq_single(ins);
                }
                out.push(ins);
                proof {
                    assert(out@ =~= seq![Instruction::Loop(q)]);
                    assert(view_prog(out) =~= seq![Ins::Loop(v)]);
                }
                out
            }
        },
    }
}

proof fn lemma_mul_run_range(s: Seq<Ins>, a: int, b: int)
    requires
        0 <= a <= b <= s.len(),
        forall|t: int| a <= t < b ==> s[t] is Mul,
        b == s.len() || !(s[b] is Mul),
    ensures
        mul_run_len(s, a) == b - a,
    decreases b - a,
{
    if a < b {
        lemma_mul_run_range(s, a + 1, b);
    }
}

proof fn lemma_step(done: Seq<Ins>, v: Seq<Ins>, i: int, c: Seq<Ins>, k: int)
    requires
        0 <= i,
        1 <= k,
        i + k <= v.len(),
        done + pass(v.skip(i)) == pass(v),
        pass(v.skip(i)) == c + pass(v.skip(i + k)),
    ensures
        (done + c) + pass(v.skip(i + k)) == pass(v),
{
    assert((done + c) + pass(v.skip(i + k)) =~= done + (c + pass(v.skip(i + k))));
}

fn is_mul(i: &Instruction) -> (r: bool)
    ensures
        r == (view_ins(*i) is Mul),
{
    match i {
        Instruction::Mul(_, _) => true,
        _ => false,
    }
}

/// One sweep of the rewriter over a program.
#[verifier::loop_isolation(false)]
fn pass_exec(p: &Vec<Instruction>) -> (r: Vec<Instruction>)
    ensures
        view_prog(r) == pass(view_prog(*p)),
    decreases psz(view_prog(*p)), 1int,
{
    let ghost v = view_seq(p@);
    proof {
        lemma_view_seq_len(p@);
        assert(v.skip(0) =~= v);
    }
    let mut out: Vec<Instruction> = Vec::new();
    let mut i: usize = 0;
    proof {
        assert(view_prog(out) =~= Seq::<Ins>::empty());
        assert(view_prog(out) + pass(v) =~= pass(v));
    }
    while i < p.len()
        invariant
            0 <= i <= p.len(),
            view_prog(out) + pass(v.skip(i as int)) == pass(v),
        decreases p.len() - i,
    {
        proof {
            lemma_view_seq_index(p@, i as int);
            if i + 1 < p.len() {
                lemma_view_seq_index(p@, i as int + 1);
            }
        }
        let ghost w = v.skip(i as int);
        let ghost done = view_prog(out);
        proof {
            assert(w[0] == v[i as int]);
            assert(w.skip(1) =~= v.skip(i as int + 1));
            if i + 2 <= p.len() {
                assert(w.skip(2) =~= v.skip(i as int + 2));
            }
        }
        match &p[i] {
            Instruction::Add(a) => {
                if *a == 0 {
                    proof {
                        assert(pass(w) == pass(v.skip(i as int + 1)));
                        assert(done + Seq::<Ins>::empty() =~= done);
                    }
                    i = i + 1;
                } else {
                    let mut fuse_add: bool = false;
                    let mut fuse_store: bool = false;
                    let mut next_val: i64 = 0;
                    if i + 1 < p.len() {
                        match &p[i + 1] {
                            Instruction::Add(b) => {
                                fuse_add = true;
                                next_val = *b;
                            },
                            Instruction::Store(sv) => {
                                fuse_store = true;
                                next_val = *sv;
                            },
                            _ => {},
                        }
                    }
                    if fuse_add {
                        match a.checked_add(next_val) {
                            Some(c) => {
                                proof {
                                    assert(pass(w) == seq![Ins::Add(c as int)] + pass(
                                        v.skip(i as int + 2),
                                    ));
                                    lemma_step(
                                        done,
                                        v,
                                        i as int,
                                        seq![Ins::Add(c as int)],
                                        2,
                                    );
                                    lemma_view_seq_push(out@, Instruction::Add(c));
                                    assert(done.push(Ins::Add(c as int)) =~= done + seq![
                                        Ins::Add(c as int),
                                    ]);
                                }
                                out.push(Instruction::Add(c));
                                i = i + 2;
                            },
                            None => {
                                proof {
                                    assert(pass(w) == seq![Ins::Add(*a as int)] + pass(
                                        v.skip(i as int + 1),
                                    ));
                                    lemma_step(
                                        done,
                                        v,
                                        i as int,
                                        seq![Ins::Add(*a as int)],
                                        1,
                                    );
                                    lemma_view_seq_push(out@, Instruction::Add(*a));
                                    assert(done.push(Ins::Add(*a as int)) =~= done + seq![
                                        Ins::Add(*a as int),
                                    ]);
                                }
                                out.push(Instruction::Add(*a));
                                i = i + 1;
                            },
                        }
                    } else if fuse_store {
                        proof {
                            assert(pass(w) == seq![Ins::Store(next_val as int)] + pass(
                                v.skip(i as int + 2),
                            ));
                            lemma_step(done, v, i as int, seq![Ins::Store(next_val as int)], 2);
                            lemma_view_seq_push(out@, Instruction::Store(next_val));
                            assert(done.push(Ins::Store(next_val as int)) =~= done + seq![
                                Ins::Store(next_val as int),
                            ]);
                        }
                        out.push(Instruction::Store(next_val));
                        i = i + 2;
                    } else {
                        proof {
                            assert(pass(w) == seq![Ins::Add(*a as int)] + pass(
                                v.skip(i as int + 1),
                            ));
                            lemma_step(done, v, i as int, seq![Ins::Add(*a as int)], 1);
                            lemma_view_seq_push(out@, Instruction::Add(*a));
                            assert(done.push(Ins::Add(*a as int)) =~= done + seq![
                                Ins::Add(*a as int),
                            ]);
                        }
                        out.push(Instruction::Add(*a));
                        i = i + 1;
                    }
                }
            },
            Instruction::Move(a) => {
                if *a == 0 {
                    proof {
                        assert(pass(w) == pass(v.skip(i as int + 1)));
                        assert(done + Seq::<Ins>::empty() =~= done);
                    }
                    i = i + 1;
                } else {
                    let mut fuse_move: bool = false;
                    let mut next_val: i64 = 0;
                    if i + 1 < p.len() {
                        match &p[i + 1] {
                            Instruction::Move(b) => {
                                fuse_move = true;
                                next_val = *b;
                            },
                            _ => {},
                        }
                    }
                    if fuse_move {
                        match a.checked_add(next_val) {
                            Some(c) => {
                                proof {
                                    assert(pass(w) == seq![Ins::Move(c as int)] + pass(
                                        v.skip(i as int + 2),
                                    ));
                                    lemma_step(
                                        done,
                                        v,
                                        i as int,
                                        seq![Ins::Move(c as int)],
                                        2,
                                    );
                                    lemma_view_seq_push(out@, Instruction::Move(c));
                                    assert(done.push(Ins::Move(c as int)) =~= done + seq![
                                        Ins::Move(c as int),
                                    ]);
                                }
                                out.push(Instruction::Move(c));
                                i = i + 2;
                            },
                            None => {
                                proof {
                                    assert(pass(w) == seq![Ins::Move(*a as int)] + pass(
                                        v.skip(i as int + 1),
                                    ));
                                    lemma_step(
                                        done,
                                        v,
                                        i as int,
                                        seq![Ins::Move(*a as int)],
                                        1,
                                    );
                                    lemma_view_seq_push(out@, Instruction::Move(*a));
                                    assert(done.push(Ins::Move(*a as int)) =~= done + seq![
                                        Ins::Move(*a as int),
                                    ]);
                                }
                                out.push(Instruction::Move(*a));
                                i = i + 1;
                            },
                        }
                    } else {
                        proof {
                            assert(pass(w) == seq![Ins::Move(*a as int)] + pass(
                                v.skip(i as int + 1),
                            ));
                            lemma_step(done, v, i as int, seq![Ins::Move(*a as int)], 1);
                            lemma_view_seq_push(out@, Instruction::Move(*a));
                            assert(done.push(Ins::Move(*a as int)) =~= done + seq![
                                Ins::Move(*a as int),
                            ]);
                        }
                        out.push(Instruction::Move(*a));
                        i = i + 1;
                    }
                }
            },
            Instruction::Store(a) => {
                let mut next_add: bool = false;
                let mut next_store: bool = false;
                let mut next_loop: bool = false;
                let mut next_mul: bool = false;
                let mut next_val: i64 = 0;
                if i + 1 < p.len() {
                    match &p[i + 1] {
                        Instruction::Add(b) => {
                            next_add = true;
                            next_val = *b;
                        },
                        Instruction::Store(sv) => {
                            next_store = true;
                            next_val = *sv;
                        },
                        Instruction::Loop(_) => {
                            next_loop = true;
                        },
                        Instruction::Mul(_, _) => {
                            next_mul = true;
                        },
                        _ => {},
                    }
                }
                if next_add {
                    match a.checked_add(next_val) {
                        Some(c) => {
                            proof {
                                assert(pass(w) == seq![Ins::Store(c as int)] + pass(
                                    v.skip(i as int + 2),
                                ));
                                lemma_step(done, v, i as int, seq![Ins::Store(c as int)], 2);
                                lemma_view_seq_push(out@, Instruction::Store(c));
                                assert(done.push(Ins::Store(c as int)) =~= done + seq![
                                    Ins::Store(c as int),
                                ]);
                            }
                            out.push(Instruction::Store(c));
                            i = i + 2;
                        },
                        None => {
                            proof {
                                assert(pass(w) == seq![Ins::Store(*a as int)] + pass(
                                    v.skip(i as int + 1),
                                ));
                                lemma_step(done, v, i as int, seq![Ins::Store(*a as int)], 1);
                                lemma_view_seq_push(out@, Instruction::Store(*a));
                                assert(done.push(Ins::Store(*a as int)) =~= done + seq![
                                    Ins::Store(*a as int),
                                ]);
                            }
                            out.push(Instruction::Store(*a));
                            i = i + 1;
                        },
                    }
                } else if next_store {
                    proof {
                        assert(pass(w) == seq![Ins::Store(next_val as int)] + pass(
                            v.skip(i as int + 2),
                        ));
                        lemma_step(done, v, i as int, seq![Ins::Store(next_val as int)], 2);
                        lemma_view_seq_push(out@, Instruction::Store(next_val));
                        assert(done.push(Ins::Store(next_val as int)) =~= done + seq![
                            Ins::Store(next_val as int),
                        ]);
                    }
                    out.push(Instruction::Store(next_val));
                    i = i + 2;
                } else if *a == 0 && next_loop {
                    proof {
                        assert(pass(w) == seq![Ins::Store(0)] + pass(v.skip(i as int + 2)));
                        lemma_step(done, v, i as int, seq![Ins::Store(0)], 2);
                        lemma_view_seq_push(out@, Instruction::Store(0));
                        assert(done.push(Ins::Store(0)) =~= done + seq![Ins::Store(0int)]);
                    }
                    out.push(Instruction::Store(0));
                    i = i + 2;
                } else if *a == 0 && next_mul {
                    let mut j: usize = i + 1;
                    while j < p.len() && is_mul(&p[j])
                        invariant
                            i + 1 <= j <= p.len(),
                            forall|t: int| i + 1 <= t < j ==> v[t] is Mul,
                        decreases p.len() - j,
                    {
                        proof {
                            lemma_view_seq_index(p@, j as int);
                        }
                        j = j + 1;
                    }
                    proof {
                        if j < p.len() {
                            lemma_view_seq_index(p@, j as int);
                        }
                        assert forall|t: int| 1 <= t < j - i implies w[t] is Mul by {
                            assert(w[t] == v[i + t]);
                        }
                        assert(j - i == w.len() || !(w[j - i] is Mul));
                        lemma_mul_run_range(w, 1, j - i);
                        assert(mul_run_len(w, 1) == j - i - 1);
                        assert(w.skip(1 + (j - i - 1)) =~= v.skip(j as int));
                        assert(pass(w) == seq![Ins::Store(0)] + pass(v.skip(j as int)));
                        lemma_step(done, v, i as int, seq![Ins::Store(0)], j - i);
                        lemma_view_seq_push(out@, Instruction::Store(0));
                        assert(done.push(Ins::Store(0)) =~= done + seq![Ins::Store(0int)]);
                    }
                    out.push(Instruction::Store(0));
                    i = j;
                } else {
                    proof {
                        assert(pass(w) == seq![Ins::Store(*a as int)] + pass(
                            v.skip(i as int + 1),
                        ));
                        lemma_step(done, v, i as int, seq![Ins::Store(*a as int)], 1);
                        lemma_view_seq_push(out@, Instruction::Store(*a));
                        assert(done.push(Ins::Store(*a as int)) =~= done + seq![
                            Ins::Store(*a as int),
                        ]);
                    }
                    out.push(Instruction::Store(*a));
                    i = i + 1;
                }
            },
            Instruction::Loop(body) => {
                proof {
                    lemma_psz_elem(v, i as int);
                    assert(isz(v[i as int]) == 2 + psz(view_seq(body@)));
                }
                let mut chunk = opt_loop_exec(body);
                proof {
                    assert(pass(w) == opt_loop(view_seq(body@)) + pass(v.skip(i as int + 1)));
                    lemma_step(done, v, i as int, view_prog(chunk), 1);
                    lemma_view_seq_append(out@, chunk@);
                }
                out.append(&mut chunk);
                i = i + 1;
            },
            other => {
                let c = copy_ins(other);
                proof {
                    assert(pass(w) == seq![w[0]] + pass(v.skip(i as int + 1)));
                    lemma_step(done, v, i as int, seq![w[0]], 1);
                    lemma_view_seq_push(out@, c);
                    assert(done.push(view_ins(c)) =~= done + seq![w[0]]);
                }
                out.push(c);
                i = i + 1;
            },
        }
    }
    proof {
        assert(v.skip(p.len() as int) =~= Seq::<Ins>::empty());
        assert(pass(Seq::<Ins>::empty()) =~= Seq::<Ins>::empty());
        assert(view_prog(out) + Seq::<Ins>::empty() =~= view_prog(out));
    }
    out
}

/// Rewrite one loop, given its body.
fn opt_loop_exec(body: &Vec<Instruction>) -> (r: Vec<Instruction>)
    ensures
        view_prog(r) == opt_loop(view_prog(*body)),
    decreases psz(view_prog(*body)), 2int,
{
    let ghost bv = view_seq(body@);
    proof {
        lemma_view_seq_len(body@);
        if body@.len() > 0 {
            lemma_view_seq_index(body@, 0);
        }
    }
    if body.len() == 0 {
        let out: Vec<Instruction> = Vec::new();
        proof {
            assert(view_prog(out) =~= Seq::<Ins>::empty());
        }
        return out;
    }
    if body.len() == 1 {
        let mut special: u8 = 0;
        let mut scan_step: i64 = 0;
        match &body[0] {
            Instruction::Store(x) => {
                if *x == 0 {
                    special = 1;
                }
            },
            Instruction::Add(x) => {
                if *x == -1 {
                    special = 1;
                }
            },
            Instruction::Move(n) => {
                if *n != 0 {
                    special = 2;
                    scan_step = *n;
                }
            },
            _ => {},
        }
        if special == 1 {
            let mut out: Vec<Instruction> = Vec::new();
            let ins = Instruction::Store(0);
            proof {
                lemma_view_seq_single(ins);
            }
            out.push(ins);
            proof {
                assert(out@ =~= seq![Instruction::Store(0)]);
                assert(view_prog(out) =~= seq![Ins::Store(0)]);
                assert(bv =~= seq![bv[0]]);
                if bv[0] == Ins::Store(0int) {
                    assert(bv =~= seq![Ins::Store(0)]);
                } else {
                    assert(bv =~= seq![Ins::Add(-1)]);
                    assert(!(bv =~= seq![Ins::Store(0)]));
                }
            }
            return out;
        }
        if special == 2 {
            let mut out: Vec<Instruction> = Vec::new();
            let ins = Instruction::Scan(scan_step);
            proof {
                lemma_view_seq_single(ins);
            }
            out.push(ins);
            proof {
                assert(out@ =~= seq![Instruction::Scan(scan_step)]);
                assert(view_prog(out) =~= seq![Ins::Scan(scan_step as int)]);
                assert(bv =~= seq![bv[0]]);
                assert(!(bv =~= seq![Ins::Store(0)]));
                assert(!(bv =~= seq![Ins::Add(-1)]));
                assert(!(bv =~= seq![Ins::Move(0)]));
            }
            return out;
        }
    }
    proof {
        assert(bv.len() >= 1);
        if bv.len() != 1 {
            assert(!(bv =~= seq![Ins::Store(0)]));
            assert(!(bv =~= seq![Ins::Add(-1)]));
        }
        assert(!(bv =~= seq![Ins::Store(0)]));
        assert(!(bv =~= seq![Ins::Add(-1)]));
        assert(!(bv.len() == 1 && bv[0] is Move && !(bv =~= seq![Ins::Move(0)])));
    }
    let q = pass_exec(body);
    mul_or_loop_exec(q)
}

/// Rewrite the program to a fixpoint of the sweep: fuse runs, canonicalize
/// clear, scan and multiplication loops, and drop dead code. The result is
/// exactly `optimize_spec` of the input, and a fixpoint of `pass`.
pub fn optimize(program: Program) -> (r: Program)
    ensures
        view_prog(r) == optimize_spec(view_prog(program)),
{
    let ghost orig = view_prog(program);
    let mut cur = program;
    let mut next = pass_exec(&cur);
    while !eq_prog(&next, &cur)
        invariant
            view_prog(next) == pass(view_prog(cur)),
            optimize_spec(view_prog(cur)) == optimize_spec(orig),
        decreases psz(view_prog(cur)),
    {
        proof {
            lemma_pass_shrinks(view_prog(cur));
        }
        cur = next;
        next = pass_exec(&cur);
    }
    cur
}

/// An instruction with well-formed strides and offsets: every `Scan` has a
/// nonzero stride and every `Mul` a nonzero offset, recursively.
pub open spec fn ins_wf(i: Ins) -> bool
    decreases i,
{
    match i {
        Ins::Scan(n) => n != 0,
        Ins::Mul(o, f) => o != 0,
        Ins::Loop(b) => prog_wf(b),
        _ => true,
    }
}

/// A program whose instructions are all well-formed.
pub open spec fn prog_wf(p: Seq<Ins>) -> bool
    decreases p,
{
    if p.len() == 0 {
        true
    } else {
        ins_wf(p[0]) && prog_wf(p.drop_first())
    }
}

pub proof fn lemma_prog_wf_append(a: Seq<Ins>, b: Seq<Ins>)
    ensures
        prog_wf(a + b) == (prog_wf(a) && prog_wf(b)),
    decreases a,
{
    if a.len() == 0 {
        assert(a + b =~= b);
    } else {
        assert((a + b).drop_first() =~= a.drop_first() + b);
        lemma_prog_wf_append(a.drop_first(), b);
    }
}

pub proof fn lemma_prog_wf_single(x: Ins)
    ensures
        prog_wf(seq![x]) == ins_wf(x),
{
    assert(seq![x].len() == 1);
    assert(seq![x][0] == x);
    assert(seq![x].drop_first() =~= Seq::<Ins>::empty());
    assert(prog_wf(Seq::<Ins>::empty()));
}

pub proof fn lemma_prog_wf_skip(s: Seq<Ins>, k: int)
    requires
        0 <= k <= s.len(),
        prog_wf(s),
    ensures
        prog_wf(s.skip(k)),
{
    assert(s =~= s.take(k) + s.skip(k));
    lemma_prog_wf_append(s.take(k), s.skip(k));
}

proof fn lemma_emit_wf(acc: Seq<(int, int)>, j: int)
    requires
        0 <= j <= acc.len(),
    ensures
        prog_wf(emit_from(acc, j)),
    decreases acc.len() - j,
{
    if j < acc.len() {
        lemma_emit_wf(acc, j + 1);
        if !(acc[j].0 == 0 || acc[j].1 == 0) {
            lemma_prog_wf_append(seq![Ins::Mul(acc[j].0, acc[j].1)], emit_from(acc, j + 1));
            lemma_prog_wf_single(Ins::Mul(acc[j].0, acc[j].1));
        }
    }
}

proof fn lemma_mul_or_loop_wf(q: Seq<Ins>)
    requires
        prog_wf(q),
    ensures
        prog_wf(mul_or_loop(q)),
{
    lemma_prog_wf_single(Ins::Loop(q));
    match mul_scan(q, 0, Seq::empty(), 0) {
        Some((acc, off)) => {
            if off == 0 && lookup_at(acc, 0, 0) == Some(-1int) {
                lemma_emit_wf(acc, 0);
                lemma_prog_wf_append(emit_from(acc, 0), seq![Ins::Store(0)]);
                lemma_prog_wf_single(Ins::Store(0));
            }
        },
        None => {},
    }
}

proof fn lemma_opt_loop_wf(body: Seq<Ins>)
    requires
        prog_wf(body),
    ensures
        prog_wf(opt_loop(body)),
    decreases psz(body), 2int,
{
    if body.len() == 0 {
    } else if body =~= seq![Ins::Store(0)] {
        lemma_prog_wf_single(Ins::Store(0));
    } else if body =~= seq![Ins::Add(-1)] {
        lemma_prog_wf_single(Ins::Store(0));
    } else if body.len() == 1 && body[0] is Move && !(body =~= seq![Ins::Move(0)]) {
        lemma_prog_wf_single(opt_loop(body)[0]);
        assert(opt_loop(body) =~= seq![opt_loop(body)[0]]);
    } else {
        lemma_pass_wf(body);
        lemma_mul_or_loop_wf(pass(body));
    }
}

/// One sweep keeps strides and offsets well formed: it never invents a
/// `Scan(0)` or a `Mul` at offset zero.
pub proof fn lemma_pass_wf(s: Seq<Ins>)
    requires
        prog_wf(s),
    ensures
        prog_wf(pass(s)),
    decreases psz(s), 1int,
{
    if s.len() == 0 {
    } else {
        lemma_psz_skip(s, 1);
        lemma_prog_wf_skip(s, 1);
        if s.len() >= 2 {
            lemma_psz_skip(s, 2);
            lemma_prog_wf_skip(s, 2);
        }
        lemma_pass_shrinks(s.skip(1));
        lemma_pass_wf(s.skip(1));
        match s[0] {
            Ins::Add(a) => {
                if a == 0 {
                } else if s.len() >= 2 && s[1] is Add {
                    lemma_pass_wf(s.skip(2));
                    let b = match s[1] { Ins::Add(b) => b, _ => 0 };
                    if in_i64(a + b) {
                        lemma_prog_wf_append(seq![Ins::Add(a + b)], pass(s.skip(2)));
                        lemma_prog_wf_single(Ins::Add(a + b));
                    } else {
                        lemma_prog_wf_append(seq![Ins::Add(a)], pass(s.skip(1)));
                        lemma_prog_wf_single(Ins::Add(a));
                    }
                } else if s.len() >= 2 && s[1] is Store {
                    lemma_pass_wf(s.skip(2));
                    let v = match s[1] { Ins::Store(v) => v, _ => 0 };
                    lemma_prog_wf_append(seq![Ins::Store(v)], pass(s.skip(2)));
                    lemma_prog_wf_single(Ins::Store(v));
                } else {
                    lemma_prog_wf_append(seq![Ins::Add(a)], pass(s.skip(1)));
                    lemma_prog_wf_single(Ins::Add(a));
                }
            },
            Ins::Move(a) => {
                if a == 0 {
                } else if s.len() >= 2 && s[1] is Move {
                    lemma_pass_wf(s.skip(2));
                    let b = match s[1] { Ins::Move(b) => b, _ => 0 };
                    if in_i64(a + b) {
                        lemma_prog_wf_append(seq![Ins::Move(a + b)], pass(s.skip(2)));
                        lemma_prog_wf_single(Ins::Move(a + b));
                    } else {
                        lemma_prog_wf_append(seq![Ins::Move(a)], pass(s.skip(1)));
                        lemma_prog_wf_single(Ins::Move(a));
                    }
                } else {
                    lemma_prog_wf_append(seq![Ins::Move(a)], pass(s.skip(1)));
                    lemma_prog_wf_single(Ins::Move(a));
                }
            },
            Ins::Store(a) => {
                if s.len() >= 2 && s[1] is Add {
                    lemma_pass_wf(s.skip(2));
                    let b = match s[1] { Ins::Add(b) => b, _ => 0 };
                    if in_i64(a + b) {
                        lemma_prog_wf_append(seq![Ins::Store(a + b)], pass(s.skip(2)));
                        lemma_prog_wf_single(Ins::Store(a + b));
                    } else {
                        lemma_prog_wf_append(seq![Ins::Store(a)], pass(s.skip(1)));
                        lemma_prog_wf_single(Ins::Store(a));
                    }
                } else if s.len() >= 2 && s[1] is Store {
                    lemma_pass_wf(s.skip(2));
                    let v = match s[1] { Ins::Store(v) => v, _ => 0 };
                    lemma_prog_wf_append(seq![Ins::Store(v)], pass(s.skip(2)));
                    lemma_prog_wf_single(Ins::Store(v));
                } else if a == 0 && s.len() >= 2 && s[1] is Loop {
                    lemma_pass_wf(s.skip(2));
                    lemma_prog_wf_append(seq![Ins::Store(0)], pass(s.skip(2)));
                    lemma_prog_wf_single(Ins::Store(0));
                } else if a == 0 && s.len() >= 2 && s[1] is Mul {
                    let k = mul_run_len(s, 1);
                    lemma_mul_run_len_bounds(s, 2);
                    assert(k == 1 + mul_run_len(s, 2));
                    lemma_psz_skip(s, 1 + k);
                    lemma_prog_wf_skip(s, 1 + k);
                    lemma_pass_wf(s.skip(1 + k));
                    lemma_prog_wf_append(seq![Ins::Store(0)], pass(s.skip(1 + k)));
                    lemma_prog_wf_single(Ins::Store(0));
                } else {
                    lemma_prog_wf_append(seq![Ins::Store(a)], pass(s.skip(1)));
                    lemma_prog_wf_single(Ins::Store(a));
                }
            },
            Ins::Loop(body) => {
                lemma_psz_elem(s, 0);
                assert(ins_wf(s[0]));
                lemma_opt_loop_wf(body);
                lemma_prog_wf_append(opt_loop(body), pass(s.skip(1)));
            },
            _ => {
                lemma_prog_wf_append(seq![s[0]], pass(s.skip(1)));
                lemma_prog_wf_single(s[0]);
            },
        }
    }
}

/// Every `Scan` the optimizer emits has a nonzero stride and every `Mul` a
/// nonzero offset, whenever the same holds of the input; in particular it
/// holds of every parsed program, which contains neither instruction.
pub proof fn lemma_optimize_well_formed(p: Seq<Ins>)
    requires
        prog_wf(p),
    ensures
        prog_wf(optimize_spec(p)),
    decreases psz(p),
{
    if pass(p) != p {
        lemma_pass_shrinks(p);
        lemma_pass_wf(p);
        lemma_optimize_well_formed(pass(p));
    }
}

} // verus!
