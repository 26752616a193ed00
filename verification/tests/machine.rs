use rbf::optimize;
use rbf::parse;
use rbf::Instruction;
use rbf::Instruction::Add;
use rbf::Instruction::Loop;
use rbf::Instruction::Move;
use rbf::Instruction::Mul;
use rbf::Instruction::Scan;
use rbf::Instruction::Store;
use rbf::Instruction::Write;
use rbf::Machine;
use rbf::MachineStatus;
use rbf::Program;

const FUEL: u64 = 1_000_000;

fn run_with_input(program: &Program, input: Vec<u8>) -> (MachineStatus, Vec<u8>) {
    let mut m = Machine::new(program);
    m.set_input(input);
    let status = m.run(FUEL);
    (status, m.output().clone())
}

fn deep_copy(p: &Program) -> Program {
    p.iter()
        .map(|i| match i {
            Add(n) => Add(*n),
            Move(n) => Move(*n),
            Store(n) => Store(*n),
            Mul(o, f) => Mul(*o, *f),
            Scan(n) => Scan(*n),
            Instruction::Read => Instruction::Read,
            Write => Write,
            Loop(b) => Loop(deep_copy(b)),
        })
        .collect()
}

#[test]
fn hello_world() {
    let deltas: [(i64, u8); 14] = [
        (72, b'H'),
        (29, b'e'),
        (7, b'l'),
        (0, b'l'),
        (3, b'o'),
        (-67, b','),
        (-12, b' '),
        (55, b'W'),
        (24, b'o'),
        (3, b'r'),
        (-6, b'l'),
        (-8, b'd'),
        (-67, b'!'),
        (-23, b'\n'),
    ];
    let mut src = String::new();
    for (delta, _) in deltas.iter() {
        if *delta >= 0 {
            src.push_str(&"+".repeat(*delta as usize));
        } else {
            src.push_str(&"-".repeat((-*delta) as usize));
        }
        src.push('.');
    }
    let program = parse(&src);
    let (status, out) = run_with_input(&program, vec![]);
    assert_eq!(status, MachineStatus::Done);
    assert_eq!(out, b"Hello, World!\n".to_vec());
}

#[test]
fn hello_world_with_loops() {
    // 'H' built by a multiplication loop (8 * 9 = 72), the rest additively.
    let mut src = String::from("++++++++[>+++++++++<-]>.");
    let tail: [i64; 13] = [29, 7, 0, 3, -67, -12, 55, 24, 3, -6, -8, -67, -23];
    for delta in tail.iter() {
        if *delta >= 0 {
            src.push_str(&"+".repeat(*delta as usize));
        } else {
            src.push_str(&"-".repeat((-*delta) as usize));
        }
        src.push('.');
    }
    let program = parse(&src);
    let (status, out) = run_with_input(&program, vec![]);
    assert_eq!(status, MachineStatus::Done);
    assert_eq!(out, b"Hello, World!\n".to_vec());
}

#[test]
fn read_one_byte_write_one_byte() {
    let program = parse(",.");
    let (status, out) = run_with_input(&program, vec![b'A']);
    assert_eq!(status, MachineStatus::Done);
    assert_eq!(out, vec![b'A']);
}

#[test]
fn cleared_cell_writes_zero() {
    let program = parse("+++[-].");
    let (status, out) = run_with_input(&program, vec![]);
    assert_eq!(status, MachineStatus::Done);
    assert_eq!(out, vec![0]);
}

#[test]
fn reading_past_the_end_of_input_yields_zero() {
    let program = parse(",,.");
    let (status, out) = run_with_input(&program, vec![b'A']);
    assert_eq!(status, MachineStatus::Done);
    assert_eq!(out, vec![0]);
}

#[test]
fn a_scan_stops_on_the_first_zero_cell() {
    // Cells 1, 1, 2, then back to the origin; the scan lands on cell 3.
    let program = parse("+>+>++<<[>]<.");
    let (status, out) = run_with_input(&program, vec![]);
    assert_eq!(status, MachineStatus::Done);
    assert_eq!(out, vec![2]);
}

#[test]
fn a_multiplication_loop_scales_a_cell() {
    let program = parse("+++[->++<]>.");
    let (status, out) = run_with_input(&program, vec![]);
    assert_eq!(status, MachineStatus::Done);
    assert_eq!(out, vec![6]);
}

#[test]
fn cell_arithmetic_wraps_modulo_256() {
    let program = parse("-.");
    let (status, out) = run_with_input(&program, vec![]);
    assert_eq!(status, MachineStatus::Done);
    assert_eq!(out, vec![255]);
}

#[test]
fn leaving_the_tape_faults() {
    let program = parse("<.");
    let (status, out) = run_with_input(&program, vec![]);
    assert_eq!(status, MachineStatus::Fault);
    assert_eq!(out, vec![]);
}

#[test]
fn a_spinning_loop_runs_out_of_fuel() {
    let program = parse("+[+]");
    let mut m = Machine::new(&program);
    assert_eq!(m.run(100), MachineStatus::OutOfFuel);
    let mut m2 = Machine::new(&program);
    assert_eq!(m2.run(1000), MachineStatus::Done);
}

#[test]
fn optimizing_preserves_the_output() {
    // The raw tree as a parser might hand it over, unoptimized.
    let sources = [
        "++[->+<]>.",
        "+++[-]+.",
        ",>,<[->>+<<]>>.",
        "++++[>++++[>++++<-]<-]>>.",
    ];
    for src in sources.iter() {
        let raw = raw_parse(src);
        let optimized = optimize(deep_copy(&raw));
        let (st_raw, out_raw) = run_with_input(&raw, vec![b'3', b'4']);
        let (st_opt, out_opt) = run_with_input(&optimized, vec![b'3', b'4']);
        assert_eq!(st_raw, MachineStatus::Done);
        assert_eq!(st_opt, MachineStatus::Done);
        assert_eq!(out_raw, out_opt);
    }
}

/// The instruction tree with no rewriting at all: one instruction per
/// command character.
fn raw_parse(src: &str) -> Program {
    let mut stack: Vec<Program> = vec![vec![]];
    for c in src.chars() {
        match c {
            '+' => stack.last_mut().unwrap().push(Add(1)),
            '-' => stack.last_mut().unwrap().push(Add(-1)),
            '>' => stack.last_mut().unwrap().push(Move(1)),
            '<' => stack.last_mut().unwrap().push(Move(-1)),
            ',' => stack.last_mut().unwrap().push(Instruction::Read),
            '.' => stack.last_mut().unwrap().push(Write),
            '[' => stack.push(vec![]),
            ']' => {
                let body = stack.pop().unwrap();
                stack.last_mut().unwrap().push(Loop(body));
            },
            _ => {},
        }
    }
    stack.pop().unwrap()
}
