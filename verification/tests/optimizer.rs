use rbf::optimize;
use rbf::parse;
use rbf::Instruction;
use rbf::Instruction::Add;
use rbf::Instruction::Loop;
use rbf::Instruction::Move;
use rbf::Instruction::Mul;
use rbf::Instruction::Scan;
use rbf::Instruction::Store;
use rbf::Instruction::Write;
use rbf::Program;

fn deep_copy(p: &Program) -> Program {
    p.iter()
        .map(|i| match i {
            Add(n) => Add(*n),
            Move(n) => Move(*n),
            Store(n) => Store(*n),
            Mul(o, f) => Mul(*o, *f),
            Scan(n) => Scan(*n),
            Instruction::Read => Instruction::Read,
            Write => Write,
            Loop(b) => Loop(deep_copy(b)),
        })
        .collect()
}

#[test]
fn optimizing_twice_changes_nothing() {
    for src in ["", "+++[->++<].", "-[++[--][++]]+", "[>>>>]", ",.[-]++", "+[><]+"] {
        let once = parse(src);
        let twice = optimize(deep_copy(&once));
        assert_eq!(twice, once);
    }
}

#[test]
fn optimizing_an_arbitrary_program_twice_changes_nothing() {
    let raw = vec![
        Store(7),
        Add(0),
        Mul(2, 3),
        Loop(vec![Move(1), Move(0), Add(1), Loop(vec![])]),
        Scan(-2),
    ];
    let once = optimize(raw);
    let twice = optimize(deep_copy(&once));
    assert_eq!(twice, once);
}

#[test]
fn emitted_scans_have_nonzero_strides() {
    assert_eq!(parse("[>>>>]"), [Scan(4)]);
    assert_eq!(parse("[<<<]"), [Scan(-3)]);
    // A loop over a net-zero move never becomes a scan; it vanishes instead.
    assert_eq!(parse("+[><]+"), [Add(2)]);
}

#[test]
fn emitted_muls_have_nonzero_offsets() {
    // The origin's own delta becomes the trailing Store(0), never a Mul.
    assert_eq!(parse("[->+<]"), [Mul(1, 1), Store(0)]);
    // An offset whose net delta is zero is elided.
    assert_eq!(parse("[->+-<]"), [Store(0)]);
}

#[test]
fn multiplication_loops_cover_several_offsets() {
    // The order among the emitted muls is not part of the contract; only
    // the trailing store is.
    let r = parse("[->++>+++<<]");
    let one_order = r == vec![Mul(1, 2), Mul(2, 3), Store(0)];
    let other_order = r == vec![Mul(2, 3), Mul(1, 2), Store(0)];
    assert!(one_order || other_order);
}

#[test]
fn unbalanced_loops_are_kept() {
    assert_eq!(
        parse("[->+]"),
        [Loop(vec![Add(-1), Move(1), Add(1)])]
    );
    assert_eq!(
        parse("[-->+<]"),
        [Loop(vec![Add(-2), Move(1), Add(1), Move(-1)])]
    );
}

#[test]
fn fusion_declines_when_a_payload_would_overflow() {
    let raw = vec![Add(i64::MAX), Add(1), Write];
    assert_eq!(optimize(raw), [Add(i64::MAX), Add(1), Write]);
    let raw = vec![Move(i64::MIN), Move(-1), Write];
    assert_eq!(optimize(raw), [Move(i64::MIN), Move(-1), Write]);
}

#[test]
fn a_store_zero_swallows_a_following_mul_run() {
    let raw = vec![Store(0), Mul(1, 2), Mul(2, 3), Write];
    assert_eq!(optimize(raw), [Store(0), Write]);
}

#[test]
fn a_store_zero_swallows_a_following_loop() {
    let raw = vec![Store(0), Loop(vec![Add(-1)]), Write];
    assert_eq!(optimize(raw), [Store(0), Write]);
}
