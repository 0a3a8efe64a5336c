use zam::machine::{Inst, Line, ZAM};
use zam::mlvalue::{Fault, Mlvalue};
use zam::parser::parse_prog;
use zam::peephole::trans_appterm;
use zam::semantics::{Effect, Outcome};

fn load(listing: &[&str]) -> Vec<Line> {
    let lines: Vec<String> = listing.iter().map(|l| l.to_string()).collect();
    parse_prog(&lines)
}

fn run_listing(listing: &[&str]) -> (ZAM, Vec<u8>, Outcome) {
    let code = trans_appterm(&load(listing));
    let mut m = ZAM::new(&code);
    let (out, outcome) = m.run(100_000);
    (m, out, outcome)
}

#[test]
fn constant() {
    let (m, _, outcome) = run_listing(&["main:  CONST 42", "\tSTOP"]);
    assert_eq!(outcome, Outcome::Halted);
    assert_eq!(m.accu, Mlvalue::Entier(42));
}

#[test]
fn arithmetic() {
    let (m, _, outcome) = run_listing(&["\tCONST 3", "\tPUSH", "\tCONST 4", "\tPRIM +", "\tSTOP"]);
    assert_eq!(outcome, Outcome::Halted);
    assert_eq!(m.accu, Mlvalue::Entier(7));
}

#[test]
fn subtraction_takes_accumulator_first() {
    let (m, _, _) = run_listing(&["\tCONST 3", "\tPUSH", "\tCONST 10", "\tPRIM -", "\tSTOP"]);
    assert_eq!(m.accu, Mlvalue::Entier(7));
}

#[test]
fn division_rounds_toward_zero() {
    let (m, _, _) = run_listing(&["\tCONST 2", "\tPUSH", "\tCONST -7", "\tPRIM /", "\tSTOP"]);
    assert_eq!(m.accu, Mlvalue::Entier(-3));
}

#[test]
fn comparison_and_logic() {
    let (m, _, _) = run_listing(&[
        "\tCONST 5", "\tPUSH", "\tCONST 3", "\tPRIM <", "\tPUSH", "\tCONST 1", "\tPRIM and", "\tPRIM not",
        "\tSTOP",
    ]);
    assert_eq!(m.accu, Mlvalue::Entier(0));
}

#[test]
fn conditional() {
    let (m, _, outcome) = run_listing(&[
        "\tCONST 0",
        "\tBRANCHIFNOT else",
        "\tCONST 1",
        "\tBRANCH end",
        "else: CONST 2",
        "end: STOP",
    ]);
    assert_eq!(outcome, Outcome::Halted);
    assert_eq!(m.accu, Mlvalue::Entier(2));
}

const IDENTITY: [&str; 7] = [
    "\tCONST 5",
    "\tPUSH",
    "\tCLOSURE body,0",
    "\tAPPLY 1",
    "\tSTOP",
    "body: ACC 0",
    "\tRETURN 1",
];

#[test]
fn identity_closure_applied() {
    let (m, _, outcome) = run_listing(&IDENTITY);
    assert_eq!(outcome, Outcome::Halted);
    assert_eq!(m.accu, Mlvalue::Entier(5));
}

#[test]
fn apply_then_return_restores_the_caller() {
    let code = load(&IDENTITY);
    let mut m = ZAM::new(&code);
    for _ in 0..3 {
        assert_eq!(m.next_step(), Ok(Effect::Continue));
    }
    let height = m.stack.len();
    let env_len = m.env.len();
    let extra = m.extra_args;
    let apply_pc = m.pc;
    for _ in 0..3 {
        assert_eq!(m.next_step(), Ok(Effect::Continue));
    }
    assert_eq!(m.stack.len(), height - 1);
    assert_eq!(m.env.len(), env_len);
    assert_eq!(m.extra_args, extra);
    assert_eq!(m.pc, apply_pc + 1);
    assert_eq!(m.accu, Mlvalue::Entier(5));
}

const ADD: [&str; 7] = [
    "\tSTOP",
    "fr: RESTART",
    "f: GRAB 1",
    "\tACC 0",
    "\tPUSH",
    "\tACC 2",
    "\tPRIM +",
];

fn with_add<'a>(main: &[&'a str]) -> Vec<&'a str> {
    let mut all: Vec<&'a str> = main.to_vec();
    all.extend_from_slice(&ADD);
    all.push("\tRETURN 2");
    all
}

#[test]
fn curried_add_with_both_arguments() {
    let listing = with_add(&["\tCLOSUREREC f,0", "\tCONST 30", "\tPUSH", "\tCONST 12", "\tPUSH", "\tACC 2", "\tAPPLY 2"]);
    let (m, _, outcome) = run_listing(&listing);
    assert_eq!(outcome, Outcome::Halted);
    assert_eq!(m.accu, Mlvalue::Entier(42));
}

#[test]
fn curried_add_one_argument_at_a_time() {
    let listing = with_add(&[
        "\tCLOSUREREC f,0",
        "\tCONST 30",
        "\tPUSH",
        "\tACC 1",
        "\tAPPLY 1",
        "\tPUSH",
        "\tCONST 12",
        "\tPUSH",
        "\tACC 1",
        "\tAPPLY 1",
    ]);
    let (m, _, outcome) = run_listing(&listing);
    assert_eq!(outcome, Outcome::Halted);
    assert_eq!(m.accu, Mlvalue::Entier(42));
}

#[test]
fn grab_with_enough_arguments_enters_directly() {
    let code = load(&["\tGRAB 1", "\tSTOP"]);
    let mut m = ZAM::new(&code);
    m.extra_args = 3;
    assert_eq!(m.next_step(), Ok(Effect::Continue));
    assert_eq!(m.extra_args, 2);
    assert_eq!(m.pc, 1);
}

#[test]
fn mutable_block() {
    let (m, _, outcome) = run_listing(&[
        "\tCONST 1",
        "\tPUSH",
        "\tCONST 2",
        "\tMAKEBLOCK 2",
        "\tPUSH",
        "\tCONST 99",
        "\tPUSH",
        "\tACC 1",
        "\tSETFIELD 0",
        "\tGETFIELD 0",
        "\tSTOP",
    ]);
    assert_eq!(outcome, Outcome::Halted);
    assert_eq!(m.accu, Mlvalue::Entier(99));
}

#[test]
fn setfield_on_an_integer_accumulator_is_a_type_mismatch() {
    let (_, _, outcome) = run_listing(&[
        "\tCONST 1",
        "\tPUSH",
        "\tCONST 2",
        "\tMAKEBLOCK 2",
        "\tPUSH",
        "\tCONST 99",
        "\tSETFIELD 0",
        "\tGETFIELD 0",
        "\tSTOP",
    ]);
    assert_eq!(outcome, Outcome::Faulted(Fault::TypeMismatch));
}

#[test]
fn writes_through_a_reference_are_seen_by_acc() {
    let (m, _, _) = run_listing(&[
        "\tCONST 0",
        "\tPUSH",
        "\tCONST 0",
        "\tMAKEBLOCK 2",
        "\tPUSH",
        "\tCONST 7",
        "\tPUSH",
        "\tCONST 8",
        "\tPUSH",
        "\tACC 2",
        "\tSETFIELD 0",
        "\tSETFIELD 1",
        "\tCONST 0",
        "\tACC 0",
        "\tGETFIELD 1",
        "\tSTOP",
    ]);
    assert_eq!(m.accu, Mlvalue::Entier(7));
    assert_eq!(m.stack[0], Mlvalue::Block(vec![Mlvalue::Entier(8), Mlvalue::Entier(7)]));
}

#[test]
fn makeblock_then_getfield() {
    let block = ["\tCONST 3", "\tPUSH", "\tCONST 2", "\tPUSH", "\tCONST 1", "\tMAKEBLOCK 3"];
    for (k, want) in [(0, 1), (1, 2), (2, 3)] {
        let mut listing: Vec<String> = block.iter().map(|l| l.to_string()).collect();
        listing.push(format!("\tGETFIELD {}", k));
        listing.push("\tSTOP".to_string());
        let code = parse_prog(&listing);
        let mut m = ZAM::new(&code);
        assert_eq!(m.run(100).1, Outcome::Halted);
        assert_eq!(m.accu, Mlvalue::Entier(want));
    }
}

#[test]
fn veclength_and_vector_items() {
    let (m, _, _) = run_listing(&[
        "\tCONST 5", "\tPUSH", "\tCONST 4", "\tMAKEBLOCK 2", "\tPUSH", "\tCONST 1", "\tPUSH", "\tACC 1",
        "\tGETVECTITEM", "\tPUSH", "\tACC 1", "\tVECTLENGTH", "\tPRIM +", "\tSTOP",
    ]);
    assert_eq!(m.accu, Mlvalue::Entier(7));
}

#[test]
fn setvectitem_leaves_unit() {
    let (m, _, _) = run_listing(&[
        "\tCONST 5", "\tPUSH", "\tCONST 4", "\tMAKEBLOCK 2", "\tPUSH", "\tCONST 9", "\tPUSH", "\tCONST 1",
        "\tPUSH", "\tACC 2", "\tSETVECTITEM", "\tSTOP",
    ]);
    assert_eq!(m.accu, Mlvalue::Entier(0));
    assert_eq!(m.stack[0], Mlvalue::Block(vec![Mlvalue::Entier(4), Mlvalue::Entier(9)]));
}

#[test]
fn assign_overwrites_a_slot() {
    let (m, _, _) = run_listing(&["\tCONST 1", "\tPUSH", "\tCONST 2", "\tPUSH", "\tCONST 9", "\tASSIGN 1", "\tSTOP"]);
    assert_eq!(m.accu, Mlvalue::Entier(0));
    assert_eq!(m.stack, vec![Mlvalue::Entier(9), Mlvalue::Entier(2)]);
}

#[test]
fn print_writes_low_bytes() {
    let (_, out, outcome) = run_listing(&[
        "\tCONST 72", "\tPRIM print", "\tCONST 361", "\tPRIM print", "\tCONST -1", "\tPRIM print", "\tSTOP",
    ]);
    assert_eq!(outcome, Outcome::Halted);
    assert_eq!(out, vec![72u8, 105, 255]);
}

const COUNTDOWN: [&str; 15] = [
    "\tCLOSUREREC f,0",
    "\tCONST 200",
    "\tPUSH",
    "\tACC 1",
    "\tAPPLY 1",
    "\tSTOP",
    "f: ACC 0",
    "\tBRANCHIFNOT done",
    "\tCONST 1",
    "\tPUSH",
    "\tACC 1",
    "\tPRIM -",
    "\tPUSH",
    "\tOFFSETCLOSURE",
    "\tAPPTERM 1,2",
];

#[test]
fn self_tail_call_runs_in_constant_stack() {
    let mut listing: Vec<&str> = COUNTDOWN.to_vec();
    listing.push("done: RETURN 1");
    let code = load(&listing);
    let mut m = ZAM::new(&code);
    let mut heights: Vec<usize> = Vec::new();
    loop {
        if m.pc == 6 {
            heights.push(m.stack.len());
        }
        match m.next_step() {
            Ok(Effect::Halt) => break,
            Ok(_) => {}
            Err(f) => panic!("fault {:?}", f),
        }
    }
    assert_eq!(heights.len(), 201);
    assert!(heights.iter().all(|h| *h == heights[0]));
    assert_eq!(m.accu, Mlvalue::Entier(0));
}

#[test]
fn peephole_keeps_what_a_program_prints() {
    let listing = [
        "\tCONST 5",
        "\tPUSH",
        "\tCLOSURE g,0",
        "\tAPPLY 1",
        "\tSTOP",
        "g: ACC 0",
        "\tPUSH",
        "\tCLOSURE h,0",
        "\tAPPLY 1",
        "\tRETURN 1",
        "h: ACC 0",
        "\tPUSH",
        "\tPRIM +",
        "\tPRIM print",
        "\tRETURN 1",
    ];
    let before = load(&listing);
    let after = trans_appterm(&before);
    assert_eq!(after.len(), before.len() - 1);
    let mut m1 = ZAM::new(&before);
    let mut m2 = ZAM::new(&after);
    let r1 = m1.run(1000);
    let r2 = m2.run(1000);
    assert_eq!(r1, r2);
    assert_eq!(r1, (vec![10u8], Outcome::Halted));
    assert_eq!(m1.accu, m2.accu);
}
