use vstd::prelude::*;

use crate::ast::Instruction;
use crate::ast::Program;
use crate::ast::Ins;
use crate::ast::view_ins;
use crate::ast::view_seq;
use crate::ast::view_prog;
use crate::ast::lemma_view_seq_push;
use crate::optimizer::optimize;
use crate::optimizer::optimize_spec;
use crate::optimizer::ins_wf;
use crate::optimizer::prog_wf;
use crate::optimizer::lemma_prog_wf_append;
use crate::optimizer::lemma_prog_wf_single;
use crate::optimizer::lemma_optimize_well_formed;

verus! {

/// Parser state: one open program per nesting level, innermost last. A `]`
/// with no open loop ends parsing; the rest of the input is ignored.
pub ghost struct ParseSt {
    pub stack: Seq<Seq<Ins>>,
    pub ended: bool,
}

pub open spec fn init_st() -> ParseSt {
    ParseSt { stack: seq![Seq::empty()], ended: false }
}

/// Append one instruction to the innermost open program.
pub open spec fn push_ins(st: ParseSt, i: Ins) -> ParseSt {
    ParseSt {
        stack: st.stack.update(st.stack.len() - 1, st.stack.last().push(i)),
        ended: st.ended,
    }
}

/// One character of source. The eight command characters build the program;
/// every other character is a comment.
pub open spec fn step_st(st: ParseSt, c: char) -> ParseSt {
    if st.ended {
        st
    } else if c == '+' {
        push_ins(st, Ins::Add(1))
    } else if c == '-' {
        push_ins(st, Ins::Add(-1))
    } else if c == '>' {
        push_ins(st, Ins::Move(1))
    } else if c == '<' {
        push_ins(st, Ins::Move(-1))
    } else if c == ',' {
        push_ins(st, Ins::Read)
    } else if c == '.' {
        push_ins(st, Ins::Write)
    } else if c == '[' {
        ParseSt { stack: st.stack.push(Seq::empty()), ended: false }
    } else if c == ']' {
        if st.stack.len() == 1 {
            ParseSt { stack: st.stack, ended: true }
        } else {
            let body = st.stack.last();
            let popped = st.stack.drop_last();
            ParseSt {
                stack: popped.update(popped.len() - 1, popped.last().push(Ins::Loop(body))),
                ended: false,
            }
        }
    } else {
        st
    }
}

/// The parser state after the first `n` characters.
pub open spec fn scan_st(s: Seq<char>, n: int) -> ParseSt
    decreases n when 0 <= n <= s.len()
{
    if n <= 0 {
        init_st()
    } else {
        step_st(scan_st(s, n - 1), s[n - 1])
    }
}

/// The program a source text denotes: `None` exactly when a `[` is left
/// unclosed at the end of the input.
pub open spec fn parse_spec(s: Seq<char>) -> Option<Seq<Ins>> {
    let st = scan_st(s, s.len() as int);
    if st.stack.len() == 1 {
        Some(st.stack[0])
    } else {
        None
    }
}

pub proof fn lemma_scan_stack_nonempty(s: Seq<char>, n: int)
    requires
        0 <= n <= s.len(),
    ensures
        scan_st(s, n).stack.len() >= 1,
    decreases n,
{
    if n > 0 {
        lemma_scan_stack_nonempty(s, n - 1);
    }
}

/// The mathematical value of the parser's working stack.
pub open spec fn view_stack(st: Seq<Vec<Instruction>>) -> Seq<Seq<Ins>> {
    Seq::new(st.len(), |k: int| view_seq(st[k]@))
}

/// Build the instruction tree from source text; `None` exactly when a `[`
/// is left unclosed. All other bytes are comments; a stray `]` ends the
/// program.
#[verifier::loop_isolation(false)]
fn parse_tokens(input: &str) -> (r: Option<Vec<Instruction>>)
    ensures
        match parse_spec(input@) {
            Some(prog) => r matches Some(p) && view_prog(p) == prog,
            None => r is None,
        },
{
    let ghost s = input@;
    let n = input.unicode_len();
    let mut stack: Vec<Vec<Instruction>> = Vec::new();
    stack.push(Vec::new());
    let mut ended: bool = false;
    let mut i: usize = 0;
    proof {
        assert(view_stack(stack@) =~= init_st().stack);
    }
    while i < n
        invariant
            0 <= i <= n,
            n == s.len(),
            stack@.len() >= 1,
            view_stack(stack@) == scan_st(s, i as int).stack,
            ended == scan_st(s, i as int).ended,
        decreases n - i,
    {
        let ghost st = scan_st(s, i as int);
        let c = input.get_char(i);
        proof {
            assert(scan_st(s, i as int + 1) == step_st(st, c));
        }
        if !ended {
            if c == '+' || c == '-' || c == '>' || c == '<' || c == ',' || c == '.' {
                let ins = if c == '+' {
                    Instruction::Add(1)
                } else if c == '-' {
                    Instruction::Add(-1)
                } else if c == '>' {
                    Instruction::Move(1)
                } else if c == '<' {
                    Instruction::Move(-1)
                } else if c == ',' {
                    Instruction::Read
                } else {
                    Instruction::Write
                };
                let mut top = match stack.pop() {
                    Some(t) => t,
                    None => vstd::pervasive::unreached(),
                };
                proof {
                    lemma_view_seq_push(top@, ins);
                }
                top.push(ins);
                stack.push(top);
                proof {
                    assert(view_stack(stack@) =~= push_ins(st, view_ins(ins)).stack);
                }
            } else if c == '[' {
                stack.push(Vec::new());
                proof {
                    assert(view_stack(stack@) =~= step_st(st, c).stack);
                }
            } else if c == ']' {
                if stack.len() == 1 {
                    ended = true;
                } else {
                    let body = match stack.pop() {
                        Some(t) => t,
                        None => vstd::pervasive::unreached(),
                    };
                    let ins = Instruction::Loop(body);
                    let mut top = match stack.pop() {
                        Some(t) => t,
                        None => vstd::pervasive::unreached(),
                    };
                    proof {
                        lemma_view_seq_push(top@, ins);
                    }
                    top.push(ins);
                    stack.push(top);
                    proof {
                        assert(view_stack(stack@) =~= step_st(st, c).stack);
                    }
                }
            } else {
                proof {
                    assert(step_st(st, c) == st);
                }
            }
        }
        i = i + 1;
    }
    if stack.len() == 1 {
        let prog = match stack.pop() {
            Some(t) => t,
            None => vstd::pervasive::unreached(),
        };
        proof {
            assert(view_prog(prog) == view_stack(stack@.push(prog))[0]);
        }
        Some(prog)
    } else {
        None
    }
}

/// Parse Brainfuck source and optimize the result. The input must not leave
/// a `[` unclosed; `try_parse` tells the two cases apart for any input.
pub fn parse(input: &str) -> (r: Program)
    requires
        parse_spec(input@) is Some,
    ensures
        view_prog(r) == optimize_spec(parse_spec(input@)->Some_0),
{
    let toks = parse_tokens(input);
    let prog = match toks {
        Some(p) => p,
        None => vstd::pervasive::unreached(),
    };
    optimize(prog)
}

/// Parse Brainfuck source and optimize the result; `None` exactly when a
/// `[` is left unclosed at the end of the input.
pub fn try_parse(input: &str) -> (r: Option<Program>)
    ensures
        r is Some <==> parse_spec(input@) is Some,
        r matches Some(p) ==> view_prog(p) == optimize_spec(parse_spec(input@)->Some_0),
{
    match parse_tokens(input) {
        Some(p) => Some(optimize(p)),
        None => None,
    }
}

/// Every open program on the parser's stack is well formed.
pub open spec fn stack_wf(st: ParseSt) -> bool {
    forall|k: int| 0 <= k < st.stack.len() ==> prog_wf(#[trigger] st.stack[k])
}

proof fn lemma_push_ins_wf(st: ParseSt, i: Ins)
    requires
        st.stack.len() >= 1,
        stack_wf(st),
        ins_wf(i),
    ensures
        stack_wf(push_ins(st, i)),
{
    let top = st.stack.last();
    assert(top.push(i) =~= top + seq![i]);
    lemma_prog_wf_append(top, seq![i]);
    lemma_prog_wf_single(i);
    assert forall|k: int| 0 <= k < push_ins(st, i).stack.len() implies prog_wf(
        #[trigger] push_ins(st, i).stack[k],
    ) by {
        if k < st.stack.len() - 1 {
            assert(push_ins(st, i).stack[k] == st.stack[k]);
        }
    }
}

proof fn lemma_step_wf(st: ParseSt, c: char)
    requires
        st.stack.len() >= 1,
        stack_wf(st),
    ensures
        stack_wf(step_st(st, c)),
{
    if !st.ended {
        if c == '+' {
            lemma_push_ins_wf(st, Ins::Add(1));
        } else if c == '-' {
            lemma_push_ins_wf(st, Ins::Add(-1));
        } else if c == '>' {
            lemma_push_ins_wf(st, Ins::Move(1));
        } else if c == '<' {
            lemma_push_ins_wf(st, Ins::Move(-1));
        } else if c == ',' {
            lemma_push_ins_wf(st, Ins::Read);
        } else if c == '.' {
            lemma_push_ins_wf(st, Ins::Write);
        } else if c == ']' && st.stack.len() > 1 {
            let body = st.stack.last();
            let popped = st.stack.drop_last();
            assert(stack_wf(ParseSt { stack: popped, ended: false }));
            lemma_push_ins_wf(ParseSt { stack: popped, ended: false }, Ins::Loop(body));
            assert(step_st(st, c).stack =~= push_ins(
                ParseSt { stack: popped, ended: false },
                Ins::Loop(body),
            ).stack);
        }
    }
}

proof fn lemma_scan_wf(s: Seq<char>, n: int)
    requires
        0 <= n <= s.len(),
    ensures
        stack_wf(scan_st(s, n)),
    decreases n,
{
    if n == 0 {
        lemma_prog_wf_single(Ins::Read);
        assert(prog_wf(Seq::<Ins>::empty()));
    } else {
        lemma_scan_wf(s, n - 1);
        lemma_scan_stack_nonempty(s, n - 1);
        lemma_step_wf(scan_st(s, n - 1), s[n - 1]);
    }
}

/// What `parse` returns is well formed: no `Scan` with stride zero and no
/// `Mul` at offset zero anywhere in it, however the loops nest.
pub proof fn lemma_parse_well_formed(s: Seq<char>)
    requires
        parse_spec(s) is Some,
    ensures
        prog_wf(parse_spec(s)->Some_0),
        prog_wf(optimize_spec(parse_spec(s)->Some_0)),
{
    lemma_scan_wf(s, s.len() as int);
    lemma_optimize_well_formed(parse_spec(s)->Some_0);
}

} // verus!
