use vstd::prelude::*;

use crate::machine::{label_target, Inst, Line, State};
use crate::mlvalue::{bool_of, env_of, field_of, int_of, int_of_bool, resolve, set_field_of, Fault, Val};

verus! {

/// What a step hands to the world outside the machine.
#[derive(Debug, Clone, Copy, PartialEq, Eq, Structural)]
pub enum Effect {
    /// Nothing: go on with the next instruction.
    Continue,
    /// Write this byte, then go on.
    Print(u8),
    /// The program has stopped.
    Halt,
}

/// The primitives that `Prim` names.
#[derive(Debug, Clone, Copy, PartialEq, Eq, Structural)]
pub enum PrimOp {
    Add,
    Sub,
    Mul,
    Div,
    Lt,
    Gt,
    Eq,
    Le,
    Ge,
    And,
    Or,
    Not,
    Print,
}

/// The primitive that a name stands for.
pub open spec fn prim_of(name: Seq<char>) -> Option<PrimOp> {
    if name == seq!['+'] {
        Some(PrimOp::Add)
    } else if name == seq!['-'] {
        Some(PrimOp::Sub)
    } else if name == seq!['*'] {
        Some(PrimOp::Mul)
    } else if name == seq!['/'] {
        Some(PrimOp::Div)
    } else if name == seq!['<'] {
        Some(PrimOp::Lt)
    } else if name == seq!['>'] {
        Some(PrimOp::Gt)
    } else if name == seq!['='] {
        Some(PrimOp::Eq)
    } else if name == seq!['<', '='] {
        Some(PrimOp::Le)
    } else if name == seq!['>', '='] {
        Some(PrimOp::Ge)
    } else if name == seq!['a', 'n', 'd'] {
        Some(PrimOp::And)
    } else if name == seq!['o', 'r'] {
        Some(PrimOp::Or)
    } else if name == seq!['n', 'o', 't'] {
        Some(PrimOp::Not)
    } else if name == seq!['p', 'r', 'i', 'n', 't'] {
        Some(PrimOp::Print)
    } else {
        None
    }
}

/// Whether an integer is in the range of `i64`.
pub open spec fn fits_i64(x: int) -> bool {
    i64::MIN <= x <= i64::MAX
}

/// Integer division rounded toward zero.
pub open spec fn div_trunc(a: int, b: int) -> int {
    let q = abs(a) / abs(b);
    if (a < 0) != (b < 0) {
        -q
    } else {
        q
    }
}

/// The absolute value of an integer.
pub open spec fn abs(a: int) -> int {
    if a < 0 {
        -a
    } else {
        a
    }
}

/// The result of an arithmetic or comparison primitive on `a` (the
/// accumulator) and `b` (the popped operand).
pub open spec fn int_prim(op: PrimOp, a: int, b: int) -> Result<int, Fault> {
    let x = match op {
        PrimOp::Add => a + b,
        PrimOp::Sub => a - b,
        PrimOp::Mul => a * b,
        PrimOp::Div => div_trunc(a, b),
        PrimOp::Lt => int_of_bool(a < b),
        PrimOp::Gt => int_of_bool(a > b),
        PrimOp::Eq => int_of_bool(a == b),
        PrimOp::Le => int_of_bool(a <= b),
        _ => int_of_bool(a >= b),
    };
    if op == PrimOp::Div && b == 0 {
        Err(Fault::DivisionByZero)
    } else if !fits_i64(x) {
        Err(Fault::Overflow)
    } else {
        Ok(x)
    }
}

/// The low byte of an integer.
pub open spec fn low_byte(n: int) -> u8 {
    (n % 256) as u8
}

/// The state with the program counter moved to the next line.
pub open spec fn next(s: State) -> State {
    State { pc: s.pc + 1, ..s }
}

/// The top `n` values of a stack, in the order they are popped.
pub open spec fn top_n(st: Seq<Val>, n: int) -> Seq<Val> {
    Seq::new(n as nat, |j: int| st[st.len() - 1 - j])
}

/// A stack with its top `n` values popped.
pub open spec fn below(st: Seq<Val>, n: int) -> Seq<Val> {
    st.subrange(0, st.len() - n)
}

/// The target of a branch to label `l`.
pub open spec fn goto(code: Seq<Line>, l: Seq<char>) -> Result<int, Fault> {
    match label_target(code, l) {
        Some(t) => Ok(t),
        None => Err(Fault::BadLabel),
    }
}

/// The code index and environment of a closure.
pub open spec fn entry_of(v: Val) -> Result<(int, Seq<Val>), Fault> {
    match v {
        Val::Clo(p, e) => Ok((p as int, e)),
        _ => Err(Fault::TypeMismatch),
    }
}

/// A count or code index read back from a frame slot.
pub open spec fn frame_nat(v: Val) -> Result<int, Fault> {
    match v {
        Val::Int(k) => if 0 <= k <= usize::MAX {
            Ok(k)
        } else {
            Err(Fault::TypeMismatch)
        },
        _ => Err(Fault::TypeMismatch),
    }
}

/// The state after popping a call frame (environment, return address and
/// surplus count, the last on top) off `st`, with accumulator `accu`.
pub open spec fn pop_frame(st: Seq<Val>, accu: Val) -> Result<State, Fault> {
    let n = st.len();
    if n < 3 {
        Err(Fault::StackUnderflow)
    } else {
        match frame_nat(st[n - 1]) {
            Err(f) => Err(f),
            Ok(extra) => match frame_nat(st[n - 2]) {
                Err(f) => Err(f),
                Ok(pc) => match env_of(st[n - 3]) {
                    Err(f) => Err(f),
                    Ok(env) => Ok(State { stack: st.subrange(0, n - 3), env, pc, accu, extra_args: extra }),
                },
            },
        }
    }
}

/// What `Prim(name)` does.
pub open spec fn step_prim(s: State, name: Seq<char>) -> Result<(State, Effect), Fault> {
    match prim_of(name) {
        None => Err(Fault::UnknownPrimitive),
        Some(PrimOp::Not) => match bool_of(s.accu) {
            Err(f) => Err(f),
            Ok(b) => Ok((next(State { accu: Val::Int(int_of_bool(!b)), ..s }), Effect::Continue)),
        },
        Some(PrimOp::Print) => match int_of(s.accu) {
            Err(f) => Err(f),
            Ok(n) => Ok((next(s), Effect::Print(low_byte(n)))),
        },
        Some(op) => if s.stack.len() == 0 {
            Err(Fault::StackUnderflow)
        } else {
            let b = s.stack.last();
            let rest = s.stack.drop_last();
            if op == PrimOp::And || op == PrimOp::Or {
                match (bool_of(b), bool_of(s.accu)) {
                    (Err(f), _) => Err(f),
                    (Ok(_), Err(f)) => Err(f),
                    (Ok(y), Ok(x)) => {
                        let r = if op == PrimOp::And { x && y } else { x || y };
                        Ok((next(State { stack: rest, accu: Val::Int(int_of_bool(r)), ..s }), Effect::Continue))
                    },
                }
            } else {
                match (int_of(b), int_of(s.accu)) {
                    (Err(f), _) => Err(f),
                    (Ok(_), Err(f)) => Err(f),
                    (Ok(y), Ok(x)) => match int_prim(op, x, y) {
                        Err(f) => Err(f),
                        Ok(r) => Ok((next(State { stack: rest, accu: Val::Int(r), ..s }), Effect::Continue)),
                    },
                }
            }
        },
    }
}

/// What `Closure(l, n)` and, when `rec` holds, `ClosureRec(l, n)` do.
pub open spec fn step_closure(code: Seq<Line>, s: State, l: Seq<char>, n: int, rec: bool) -> Result<(State, Effect), Fault> {
    if n < 0 {
        Err(Fault::Arity)
    } else {
        let st = if n > 0 { s.stack.push(s.accu) } else { s.stack };
        match goto(code, l) {
            Err(f) => Err(f),
            Ok(t) => if n > st.len() {
                Err(Fault::StackUnderflow)
            } else {
                let env = if rec { seq![Val::Int(t)] + top_n(st, n) } else { top_n(st, n) };
                let clo = Val::Clo(t as nat, env);
                let rest = below(st, n);
                let stack = if rec { rest.push(clo) } else { rest };
                Ok((next(State { stack, accu: clo, ..s }), Effect::Continue))
            },
        }
    }
}

/// What `Apply(n)` does.
pub open spec fn step_apply(s: State, n: int) -> Result<(State, Effect), Fault> {
    if n <= 0 {
        Err(Fault::Arity)
    } else if n > s.stack.len() {
        Err(Fault::StackUnderflow)
    } else {
        match entry_of(s.accu) {
            Err(f) => Err(f),
            Ok((pc, env)) => if !fits_i64(s.pc + 1) || !fits_i64(s.extra_args) {
                Err(Fault::Overflow)
            } else {
                let frame = seq![Val::Env(s.env), Val::Int(s.pc + 1), Val::Int(s.extra_args)];
                let stack = below(s.stack, n) + frame + top_n(s.stack, n);
                Ok((State { stack, env, pc, extra_args: n - 1, ..s }, Effect::Continue))
            },
        }
    }
}

/// What `Return(n)` does.
pub open spec fn step_return(s: State, n: int) -> Result<(State, Effect), Fault> {
    if n < 0 {
        Err(Fault::Arity)
    } else if n > s.stack.len() {
        Err(Fault::StackUnderflow)
    } else if s.extra_args == 0 {
        match pop_frame(below(s.stack, n), s.accu) {
            Err(f) => Err(f),
            Ok(t) => Ok((t, Effect::Continue)),
        }
    } else {
        match entry_of(s.accu) {
            Err(f) => Err(f),
            Ok((pc, env)) => Ok((State { stack: below(s.stack, n), env, pc, extra_args: s.extra_args - 1, ..s }, Effect::Continue)),
        }
    }
}

/// What `Grab(n)` does.
pub open spec fn step_grab(s: State, n: int) -> Result<(State, Effect), Fault> {
    if n < 0 {
        Err(Fault::Arity)
    } else if s.extra_args >= n {
        Ok((next(State { extra_args: s.extra_args - n, ..s }), Effect::Continue))
    } else if s.extra_args + 1 > s.stack.len() {
        Err(Fault::StackUnderflow)
    } else if s.pc == 0 {
        Err(Fault::PcOutOfRange)
    } else {
        let k = s.extra_args + 1;
        let clo = Val::Clo((s.pc - 1) as nat, s.env + top_n(s.stack, k));
        match pop_frame(below(s.stack, k), clo) {
            Err(f) => Err(f),
            Ok(t) => Ok((t, Effect::Continue)),
        }
    }
}

/// What `Restart` does.
pub open spec fn step_restart(s: State) -> Result<(State, Effect), Fault> {
    let k = s.env.len();
    if k > 0 {
        if s.extra_args + k - 1 > usize::MAX {
            Err(Fault::Overflow)
        } else {
            Ok((next(State {
                stack: s.stack + s.env.subrange(1, k as int),
                env: seq![s.env[0]],
                extra_args: s.extra_args + k - 1,
                ..s
            }), Effect::Continue))
        }
    } else if s.extra_args == 0 {
        Err(Fault::Arity)
    } else {
        Ok((next(State { extra_args: s.extra_args - 1, ..s }), Effect::Continue))
    }
}

/// What `AppTerm(n, m)` does.
pub open spec fn step_appterm(s: State, n: int, m: int) -> Result<(State, Effect), Fault> {
    if n > m || n <= 0 {
        Err(Fault::Arity)
    } else if m > s.stack.len() {
        Err(Fault::StackUnderflow)
    } else {
        match entry_of(s.accu) {
            Err(f) => Err(f),
            Ok((pc, env)) => if s.extra_args + n - 1 > usize::MAX {
                Err(Fault::Overflow)
            } else {
                let stack = below(s.stack, m) + top_n(s.stack, n);
                Ok((State { stack, env, pc, extra_args: s.extra_args + n - 1, ..s }, Effect::Continue))
            },
        }
    }
}

/// What `Makeblock(n)` does.
pub open spec fn step_makeblock(s: State, n: int) -> Result<(State, Effect), Fault> {
    if n < 0 {
        Err(Fault::Arity)
    } else if n == 0 {
        Ok((next(State { accu: Val::Block(seq![]), ..s }), Effect::Continue))
    } else if n - 1 > s.stack.len() {
        Err(Fault::StackUnderflow)
    } else {
        let block = seq![s.accu] + top_n(s.stack, n - 1);
        Ok((next(State { stack: below(s.stack, n - 1), accu: Val::Block(block), ..s }), Effect::Continue))
    }
}

/// Reading field `n` of the block the accumulator designates, over stack `st`.
pub open spec fn step_getfield(s: State, st: Seq<Val>, n: int) -> Result<(State, Effect), Fault> {
    match field_of(s.accu, n, st) {
        Err(f) => Err(f),
        Ok(v) => Ok((next(State { stack: st, accu: v, ..s }), Effect::Continue)),
    }
}

/// Writing `v` into field `n` of the block the accumulator designates, over
/// stack `st`; the accumulator is then `unit` when it is given.
pub open spec fn step_setfield(s: State, st: Seq<Val>, n: int, v: Val, unit: bool) -> Result<(State, Effect), Fault> {
    match set_field_of(s.accu, n, v, st) {
        Err(f) => Err(f),
        Ok((a, st2)) => Ok((next(State { stack: st2, accu: if unit { Val::Int(0) } else { a }, ..s }), Effect::Continue)),
    }
}

/// One step of the machine in state `s` on instruction `i` of program `code`:
/// the next state and what it hands outside, or why it cannot be taken.
/// `Acc` of a stack slot that holds a block yields a reference to the slot,
/// so that writes through it reach the stacked block; `Envacc` yields a copy
/// of the environment slot, blocks included, since an environment is itself
/// a copy taken when a closure is entered.
pub open spec fn step(code: Seq<Line>, s: State, i: Inst) -> Result<(State, Effect), Fault> {
    let len = s.stack.len();
    match i {
        Inst::Const(n) => Ok((next(State { accu: Val::Int(n as int), ..s }), Effect::Continue)),
        Inst::Prim(name) => step_prim(s, name@),
        Inst::Branch(l) => match goto(code, l@) {
            Err(f) => Err(f),
            Ok(t) => Ok((State { pc: t, ..s }, Effect::Continue)),
        },
        Inst::BranchIfNot(l) => if s.accu == Val::Int(0) {
            match goto(code, l@) {
                Err(f) => Err(f),
                Ok(t) => Ok((State { pc: t, ..s }, Effect::Continue)),
            }
        } else {
            Ok((next(s), Effect::Continue))
        },
        Inst::Push => {
            let accu = match s.accu {
                Val::Block(_) => Val::Ref(len as nat),
                _ => s.accu,
            };
            Ok((next(State { stack: s.stack.push(s.accu), accu, ..s }), Effect::Continue))
        },
        Inst::Pop => if len == 0 {
            Err(Fault::StackUnderflow)
        } else {
            Ok((next(State { stack: s.stack.drop_last(), ..s }), Effect::Continue))
        },
        Inst::Acc(k) => if k >= len {
            Err(Fault::StackUnderflow)
        } else {
            let idx = len - 1 - k;
            let accu = match s.stack[idx] {
                Val::Block(_) => Val::Ref(idx as nat),
                v => v,
            };
            Ok((next(State { accu, ..s }), Effect::Continue))
        },
        Inst::Envacc(k) => if k >= s.env.len() {
            Err(Fault::IndexOutOfBounds)
        } else {
            Ok((next(State { accu: s.env[k as int], ..s }), Effect::Continue))
        },
        Inst::Closure(l, n) => step_closure(code, s, l@, n as int, false),
        Inst::ClosureRec(l, n) => step_closure(code, s, l@, n as int, true),
        Inst::OffSetClosure => if s.env.len() == 0 {
            Err(Fault::IndexOutOfBounds)
        } else {
            match int_of(s.env[0]) {
                Err(f) => Err(f),
                Ok(p) => if 0 <= p <= usize::MAX {
                    Ok((next(State { accu: Val::Clo(p as nat, s.env), ..s }), Effect::Continue))
                } else {
                    Err(Fault::PcOutOfRange)
                },
            }
        },
        Inst::Apply(n) => step_apply(s, n as int),
        Inst::Return(n) => step_return(s, n as int),
        Inst::Stop => Ok((s, Effect::Halt)),
        Inst::Grab(n) => step_grab(s, n as int),
        Inst::Restart => step_restart(s),
        Inst::AppTerm(n, m) => step_appterm(s, n as int, m as int),
        Inst::Makeblock(n) => step_makeblock(s, n as int),
        Inst::Getfield(n) => step_getfield(s, s.stack, n as int),
        Inst::Veclength => match resolve(s.accu, s.stack) {
            Err(f) => Err(f),
            Ok(b) => if fits_i64(b.len() as int) {
                Ok((next(State { accu: Val::Int(b.len() as int), ..s }), Effect::Continue))
            } else {
                Err(Fault::Overflow)
            },
        },
        Inst::Getvectitem => if len == 0 {
            Err(Fault::StackUnderflow)
        } else {
            match int_of(s.stack.last()) {
                Err(f) => Err(f),
                Ok(n) => step_getfield(s, s.stack.drop_last(), n),
            }
        },
        Inst::Setfield(n) => if len == 0 {
            Err(Fault::StackUnderflow)
        } else {
            step_setfield(s, s.stack.drop_last(), n as int, s.stack.last(), false)
        },
        Inst::SetVectitem => if len < 2 {
            Err(Fault::StackUnderflow)
        } else {
            match int_of(s.stack.last()) {
                Err(f) => Err(f),
                Ok(n) => step_setfield(s, s.stack.drop_last().drop_last(), n, s.stack[len - 2], true),
            }
        },
        Inst::Assign(n) => if n < 0 || n >= len {
            Err(Fault::StackUnderflow)
        } else {
            Ok((next(State { stack: s.stack.update(len - 1 - n, s.accu), accu: Val::Int(0), ..s }), Effect::Continue))
        },
    }
}

/// How a run of the machine ended.
#[derive(Debug, Clone, Copy, PartialEq, Eq, Structural)]
pub enum Outcome {
    /// A `Stop` was reached.
    Halted,
    /// A step could not be taken.
    Faulted(Fault),
    /// The allowed number of steps was used up first.
    OutOfFuel,
}

/// One step of the machine on the line its program counter names.
pub open spec fn fetch_step(code: Seq<Line>, s: State) -> Result<(State, Effect), Fault> {
    if 0 <= s.pc < code.len() {
        step(code, s, code[s.pc].1)
    } else {
        Err(Fault::PcOutOfRange)
    }
}

/// At most `fuel` steps of the machine from `s`: the last state reached, the
/// bytes printed on the way, and how the run ended.
pub open spec fn run_from(code: Seq<Line>, s: State, fuel: nat) -> (State, Seq<u8>, Outcome)
    decreases fuel,
{
    if fuel == 0 {
        (s, seq![], Outcome::OutOfFuel)
    } else {
        match fetch_step(code, s) {
            Err(f) => (s, seq![], Outcome::Faulted(f)),
            Ok((t, Effect::Halt)) => (t, seq![], Outcome::Halted),
            Ok((t, Effect::Print(b))) => {
                let (u, out, o) = run_from(code, t, (fuel - 1) as nat);
                (u, seq![b] + out, o)
            },
            Ok((t, Effect::Continue)) => run_from(code, t, (fuel - 1) as nat),
        }
    }
}

} // verus!
