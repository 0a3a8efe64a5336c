use zam::machine::{grabs_follow_restart, Inst, Line, ZAM};
use zam::mlvalue::{Fault, Mlvalue};
use zam::parser::{parse_line, parse_prog, try_parse_prog, ParseError};
use zam::peephole::trans_appterm;
use zam::semantics::{Effect, Outcome};

fn machine(listing: &[&str]) -> ZAM {
    let lines: Vec<String> = listing.iter().map(|l| l.to_string()).collect();
    ZAM::new(&parse_prog(&lines))
}

fn fault_of(listing: &[&str]) -> Outcome {
    machine(listing).run(1000).1
}

#[test]
fn parse_labelled_and_plain_lines() {
    assert_eq!(parse_line("main:  CONST 42"), Ok((Some("main".to_string()), Inst::Const(42))));
    assert_eq!(parse_line("\tPRIM <="), Ok((None, Inst::Prim("<=".to_string()))));
    assert_eq!(parse_line("\tACC 3"), Ok((None, Inst::Acc(3))));
    assert_eq!(parse_line("\tCLOSURE body,2"), Ok((None, Inst::Closure("body".to_string(), 2))));
    assert_eq!(parse_line("\tCLOSUREREC f,0"), Ok((None, Inst::ClosureRec("f".to_string(), 0))));
    assert_eq!(parse_line("\tAPPTERM 1,3"), Ok((None, Inst::AppTerm(1, 3))));
    assert_eq!(parse_line("\tCONST -9223372036854775808"), Ok((None, Inst::Const(i64::MIN))));
    assert_eq!(parse_line("\tCONST +12"), Ok((None, Inst::Const(12))));
    assert_eq!(parse_line("l: VECTLENGTH"), Ok((Some("l".to_string()), Inst::Veclength)));
}

#[test]
fn parse_errors() {
    assert_eq!(parse_line("\tJUMP 3"), Err(ParseError::UnknownOpcode));
    assert_eq!(parse_line("\tCONST"), Err(ParseError::MissingOperand));
    assert_eq!(parse_line("\tCONST 12x"), Err(ParseError::BadNumber));
    assert_eq!(parse_line("\tCONST 9223372036854775808"), Err(ParseError::BadNumber));
    assert_eq!(parse_line("\tACC -1"), Err(ParseError::BadNumber));
    assert_eq!(parse_line("\tCLOSURE body"), Err(ParseError::MissingComma));
    assert_eq!(parse_line("\tAPPTERM 1,x"), Err(ParseError::BadNumber));
    assert_eq!(parse_line("lonely:"), Err(ParseError::MissingOpcode));
    assert_eq!(parse_line("\t  "), Err(ParseError::MissingOpcode));
}

#[test]
fn parse_prog_skips_empty_lines_and_reports_the_first_error() {
    let lines = vec!["\tCONST 1".to_string(), String::new(), "\tSTOP".to_string()];
    assert_eq!(parse_prog(&lines), vec![(None, Inst::Const(1)), (None, Inst::Stop)]);
    assert_eq!(try_parse_prog(&lines), Ok(vec![(None, Inst::Const(1)), (None, Inst::Stop)]));
    let bad = vec!["\tCONST 1".to_string(), "\tNOPE".to_string(), "\tCONST".to_string()];
    assert_eq!(try_parse_prog(&bad), Err(ParseError::UnknownOpcode));
}

#[test]
fn peephole_fuses_apply_return() {
    let code: Vec<Line> = vec![
        (Some("a".to_string()), Inst::Apply(2)),
        (None, Inst::Return(3)),
        (None, Inst::Apply(1)),
        (Some("r".to_string()), Inst::Return(1)),
        (None, Inst::Apply(1)),
    ];
    let out = trans_appterm(&code);
    assert_eq!(
        out,
        vec![(Some("a".to_string()), Inst::AppTerm(2, 5)), (None, Inst::AppTerm(1, 2)), (None, Inst::Apply(1))]
    );
    let pair: Vec<Line> = vec![(None, Inst::Apply(2)), (Some("r".to_string()), Inst::Return(3))];
    assert_eq!(trans_appterm(&pair), vec![(None, Inst::AppTerm(2, 5))]);
    assert!(trans_appterm(&Vec::new()).is_empty());
}

#[test]
fn peephole_keeps_a_targeted_return() {
    let code: Vec<Line> = vec![
        (None, Inst::BranchIfNot("r".to_string())),
        (None, Inst::Apply(1)),
        (Some("r".to_string()), Inst::Return(1)),
    ];
    assert_eq!(trans_appterm(&code), code);
    let closure: Vec<Line> = vec![
        (None, Inst::Closure("r".to_string(), 0)),
        (None, Inst::Apply(1)),
        (Some("r".to_string()), Inst::Return(1)),
    ];
    assert_eq!(trans_appterm(&closure), closure);
}

#[test]
fn peephole_leaves_an_overflowing_pair() {
    let code: Vec<Line> = vec![(None, Inst::Apply(i64::MAX)), (None, Inst::Return(1))];
    assert_eq!(trans_appterm(&code), code);
}

#[test]
fn new_builds_labels_from_the_last_occurrence() {
    let m = machine(&["x: CONST 1", "x: BRANCH y", "y: STOP"]);
    assert_eq!(m.pc, 0);
    assert_eq!(m.accu, Mlvalue::Entier(0));
    assert!(m.stack.is_empty() && m.env.is_empty());
    assert_eq!(m.labels, vec![("x".to_string(), 0), ("x".to_string(), 1), ("y".to_string(), 2)]);
}

#[test]
fn set_option_adds_once() {
    let mut m = machine(&["\tSTOP"]);
    m.set_option("Debug");
    m.set_option("Step");
    m.set_option("Debug");
    assert_eq!(m.options, vec!["Debug".to_string(), "Step".to_string()]);
}

#[test]
fn value_accessors() {
    assert_eq!(Mlvalue::Entier(4).as_int(), 4);
    assert_eq!(Mlvalue::Entier(4).try_int(), Ok(4));
    assert_eq!(Mlvalue::RefBlock(0).try_int(), Err(Fault::TypeMismatch));
    assert!(Mlvalue::Entier(1).as_bool());
    assert!(!Mlvalue::Entier(0).as_bool());
    assert_eq!(Mlvalue::Entier(1).try_bool(), Ok(true));
    assert_eq!(Mlvalue::Entier(2).try_bool(), Err(Fault::TypeMismatch));
    assert_eq!(Mlvalue::to_entier(true), Mlvalue::Entier(1));
    assert_eq!(Mlvalue::to_entier(false), Mlvalue::Entier(0));
    assert_eq!(Mlvalue::Entier(3).as_env(), vec![Mlvalue::Entier(3)]);
    assert_eq!(Mlvalue::Environement(vec![Mlvalue::Entier(8)]).as_env(), vec![Mlvalue::Entier(8)]);
    assert_eq!(Mlvalue::Environement(vec![Mlvalue::Entier(8)]).try_env(), Ok(vec![Mlvalue::Entier(8)]));
    assert_eq!(Mlvalue::Block(vec![]).try_env(), Err(Fault::TypeMismatch));
}

#[test]
fn fields_through_references() {
    let mut stack = vec![Mlvalue::Entier(0), Mlvalue::Block(vec![Mlvalue::Entier(1), Mlvalue::Entier(2)])];
    let r = Mlvalue::RefBlock(1);
    assert_eq!(r.getfield(1, &stack), Mlvalue::Entier(2));
    assert_eq!(r.try_getfield(1, &stack), Ok(Mlvalue::Entier(2)));
    assert_eq!(r.veclen(&stack), 2);
    assert_eq!(r.try_veclen(&stack), Ok(2));
    assert_eq!(r.try_getfield(2, &stack), Err(Fault::IndexOutOfBounds));
    assert_eq!(Mlvalue::RefBlock(0).try_getfield(0, &stack), Err(Fault::TypeMismatch));
    assert_eq!(Mlvalue::RefBlock(5).try_veclen(&stack), Err(Fault::IndexOutOfBounds));
    let mut r2 = Mlvalue::RefBlock(1);
    r2.setfield(0, Mlvalue::Entier(7), &mut stack);
    assert_eq!(r2, Mlvalue::RefBlock(1));
    assert_eq!(stack[1], Mlvalue::Block(vec![Mlvalue::Entier(7), Mlvalue::Entier(2)]));
    assert_eq!(r2.try_setfield(4, Mlvalue::Entier(7), &mut stack), Err(Fault::IndexOutOfBounds));
    let mut b = Mlvalue::Block(vec![Mlvalue::Entier(1)]);
    assert_eq!(b.try_setfield(0, Mlvalue::Entier(5), &mut stack), Ok(()));
    assert_eq!(b, Mlvalue::Block(vec![Mlvalue::Entier(5)]));
    assert_eq!(b.getfield(0, &stack), Mlvalue::Entier(5));
    let mut chain = vec![Mlvalue::Block(vec![Mlvalue::Entier(9)]), Mlvalue::RefBlock(0)];
    assert_eq!(Mlvalue::RefBlock(1).getfield(0, &chain), Mlvalue::Entier(9));
    chain[0] = Mlvalue::RefBlock(1);
    assert_eq!(Mlvalue::RefBlock(1).try_getfield(0, &chain), Err(Fault::TypeMismatch));
}

#[test]
fn faults() {
    assert_eq!(fault_of(&["\tCLOSURE a,0", "\tPUSH", "a: PRIM +"]), Outcome::Faulted(Fault::TypeMismatch));
    assert_eq!(fault_of(&["\tPOP"]), Outcome::Faulted(Fault::StackUnderflow));
    assert_eq!(fault_of(&["\tMAKEBLOCK 1", "\tGETFIELD 5"]), Outcome::Faulted(Fault::IndexOutOfBounds));
    assert_eq!(fault_of(&["\tCLOSURE a,0", "a: APPLY 0"]), Outcome::Faulted(Fault::Arity));
    assert_eq!(fault_of(&["\tAPPTERM 3,2"]), Outcome::Faulted(Fault::Arity));
    assert_eq!(fault_of(&["\tBRANCH nowhere"]), Outcome::Faulted(Fault::BadLabel));
    assert_eq!(fault_of(&["\tPRIM %"]), Outcome::Faulted(Fault::UnknownPrimitive));
    assert_eq!(fault_of(&["\tCONST 0", "\tPUSH", "\tCONST 1", "\tPRIM /"]), Outcome::Faulted(Fault::DivisionByZero));
    assert_eq!(
        fault_of(&["\tCONST 1", "\tPUSH", "\tCONST 9223372036854775807", "\tPRIM +"]),
        Outcome::Faulted(Fault::Overflow)
    );
    assert_eq!(fault_of(&["\tCONST 1"]), Outcome::Faulted(Fault::PcOutOfRange));
    assert_eq!(fault_of(&["\tCONST 2", "\tPRIM not"]), Outcome::Faulted(Fault::TypeMismatch));
}

#[test]
fn run_stops_when_fuel_runs_out() {
    let mut m = machine(&["l: BRANCH l"]);
    assert_eq!(m.run(5), (vec![], Outcome::OutOfFuel));
    assert_eq!(m.pc, 0);
}

#[test]
fn execute_acts_on_the_given_instruction() {
    let mut m = machine(&["\tSTOP"]);
    assert_eq!(m.execute(&Inst::Const(8)), Effect::Continue);
    assert_eq!(m.accu, Mlvalue::Entier(8));
    assert_eq!(m.pc, 1);
    m.pc = 0;
    assert_eq!(m.execute(&Inst::Stop), Effect::Halt);
    assert_eq!(m.pc, 0);
    assert_eq!(m.try_execute(&Inst::Pop), Err(Fault::StackUnderflow));
    assert_eq!(m.try_execute(&Inst::Const(2)), Ok(Effect::Continue));
}

#[test]
fn restart_pushes_back_the_captured_arguments() {
    let mut m = machine(&["\tRESTART", "\tSTOP"]);
    m.env = vec![Mlvalue::Entier(6), Mlvalue::Entier(1), Mlvalue::Entier(2)];
    m.extra_args = 1;
    assert_eq!(m.next_step(), Ok(Effect::Continue));
    assert_eq!(m.stack, vec![Mlvalue::Entier(1), Mlvalue::Entier(2)]);
    assert_eq!(m.env, vec![Mlvalue::Entier(6)]);
    assert_eq!(m.extra_args, 3);
}

#[test]
fn envacc_reads_the_environment() {
    let mut m = machine(&["\tENVACC 1", "\tSTOP"]);
    m.env = vec![Mlvalue::Entier(6), Mlvalue::Block(vec![Mlvalue::Entier(3)])];
    m.stack = vec![Mlvalue::Entier(0), Mlvalue::Entier(0)];
    assert_eq!(m.next_step(), Ok(Effect::Continue));
    assert_eq!(m.accu, Mlvalue::Block(vec![Mlvalue::Entier(3)]));
}

#[test]
fn grab_must_follow_restart() {
    let good: Vec<Line> = vec![(None, Inst::Stop), (None, Inst::Restart), (Some("f".to_string()), Inst::Grab(1))];
    assert!(grabs_follow_restart(&good));
    let first: Vec<Line> = vec![(None, Inst::Grab(1))];
    assert!(!grabs_follow_restart(&first));
    let after_push: Vec<Line> = vec![(None, Inst::Push), (None, Inst::Grab(1))];
    assert!(!grabs_follow_restart(&after_push));
}

#[test]
fn unicode_blanks_separate_words() {
    assert_eq!(parse_line("\tCONST\u{a0}5"), Ok((None, Inst::Const(5))));
    assert_eq!(parse_line("m:\u{3000}STOP"), Ok((Some("m".to_string()), Inst::Stop)));
}
