use vstd::prelude::*;

use crate::mlvalue::{duplicate_all, lemma_vals, val_of, vals, Fault, Mlvalue, Val};
use crate::semantics::{
    below, int_prim, low_byte, prim_of, step, top_n, Effect, PrimOp,
};

verus! {

/// An instruction of the machine.
#[derive(Debug, Clone, PartialEq)]
pub enum Inst {
    Const(i64),
    Prim(String),
    Branch(String),
    BranchIfNot(String),
    Push,
    Pop,
    Acc(u64),
    Envacc(u64),
    Closure(String, i64),
    Apply(i64),
    Return(i64),
    Stop,
    ClosureRec(String, i64),
    OffSetClosure,
    Grab(i64),
    Restart,
    AppTerm(i64, i64),
    Makeblock(i64),
    Getfield(i64),
    Veclength,
    Getvectitem,
    Setfield(i64),
    SetVectitem,
    Assign(i64),
}

/// A line of a program: an optional label and an instruction.
pub type Line = (Option<String>, Inst);

impl Inst {
    /// A copy of this instruction.
    pub fn duplicate(&self) -> (r: Inst)
        ensures
            r == *self,
    {
        match self {
            Inst::Const(n) => Inst::Const(*n),
            Inst::Prim(s) => Inst::Prim(s.clone()),
            Inst::Branch(l) => Inst::Branch(l.clone()),
            Inst::BranchIfNot(l) => Inst::BranchIfNot(l.clone()),
            Inst::Push => Inst::Push,
            Inst::Pop => Inst::Pop,
            Inst::Acc(i) => Inst::Acc(*i),
            Inst::Envacc(i) => Inst::Envacc(*i),
            Inst::Closure(l, n) => Inst::Closure(l.clone(), *n),
            Inst::Apply(n) => Inst::Apply(*n),
            Inst::Return(n) => Inst::Return(*n),
            Inst::Stop => Inst::Stop,
            Inst::ClosureRec(l, n) => Inst::ClosureRec(l.clone(), *n),
            Inst::OffSetClosure => Inst::OffSetClosure,
            Inst::Grab(n) => Inst::Grab(*n),
            Inst::Restart => Inst::Restart,
            Inst::AppTerm(n, m) => Inst::AppTerm(*n, *m),
            Inst::Makeblock(n) => Inst::Makeblock(*n),
            Inst::Getfield(n) => Inst::Getfield(*n),
            Inst::Veclength => Inst::Veclength,
            Inst::Getvectitem => Inst::Getvectitem,
            Inst::Setfield(n) => Inst::Setfield(*n),
            Inst::SetVectitem => Inst::SetVectitem,
            Inst::Assign(n) => Inst::Assign(*n),
        }
    }
}

/// A copy of a program line.
pub fn duplicate_line(line: &Line) -> (r: Line)
    ensures
        r == *line,
{
    let label = match &line.0 {
        Some(l) => Some(l.clone()),
        None => None,
    };
    (label, line.1.duplicate())
}

/// The index of the last line of `code` that carries label `l`.
pub open spec fn label_target(code: Seq<Line>, l: Seq<char>) -> Option<int>
    decreases code.len(),
{
    if code.len() == 0 {
        None
    } else {
        let k = code.len() - 1;
        match code[k].0 {
            Some(x) => if x@ == l {
                Some(k)
            } else {
                label_target(code.drop_last(), l)
            },
            None => label_target(code.drop_last(), l),
        }
    }
}

/// The index that the last entry for `l` in a label table gives.
pub open spec fn table_target(t: Seq<(String, usize)>, l: Seq<char>) -> Option<int>
    decreases t.len(),
{
    if t.len() == 0 {
        None
    } else if t.last().0@ == l {
        Some(t.last().1 as int)
    } else {
        table_target(t.drop_last(), l)
    }
}

/// A label's target is a line of the program.
pub proof fn lemma_label_target_bounds(code: Seq<Line>, l: Seq<char>)
    ensures
        label_target(code, l) is Some ==> 0 <= label_target(code, l)->Some_0 < code.len(),
    decreases code.len(),
{
    if code.len() > 0 {
        lemma_label_target_bounds(code.drop_last(), l);
    }
}

/// Whether every `Grab` of the program has a `Restart` on the line before
/// it, where the closure of a partial application resumes.
pub open spec fn restart_precedes_grabs(code: Seq<Line>) -> bool {
    forall|i: int| 0 <= i < code.len() && (#[trigger] code[i]).1 is Grab ==> i > 0 && code[i - 1].1 is Restart
}

/// Checks, as a program is loaded, that every `Grab` follows a `Restart`.
pub fn grabs_follow_restart(prog: &Vec<Line>) -> (r: bool)
    ensures
        r == restart_precedes_grabs(prog@),
{
    let mut i: usize = 0;
    while i < prog.len()
        invariant
            i <= prog@.len(),
            forall|j: int| 0 <= j < i && (#[trigger] prog@[j]).1 is Grab ==> j > 0 && prog@[j - 1].1 is Restart,
        decreases prog.len() - i,
    {
        if let Inst::Grab(_) = prog[i].1 {
            if i == 0 {
                return false;
            }
            if !matches!(prog[i - 1].1, Inst::Restart) {
                return false;
            }
        }
        i = i + 1;
    }
    true
}

/// The machine: its program, label table, stack, environment, program
/// counter, accumulator, count of surplus arguments, and host options.
pub struct ZAM {
    pub prog: Vec<Line>,
    pub stack: Vec<Mlvalue>,
    pub env: Vec<Mlvalue>,
    pub pc: usize,
    pub accu: Mlvalue,
    pub extra_args: usize,
    pub labels: Vec<(String, usize)>,
    pub options: Vec<String>,
}

/// The model of the machine's registers.
pub struct State {
    pub stack: Seq<Val>,
    pub env: Seq<Val>,
    pub pc: int,
    pub accu: Val,
    pub extra_args: int,
}

impl ZAM {
    /// The model of the registers.
    pub open spec fn state(&self) -> State {
        State {
            stack: vals(self.stack@),
            env: vals(self.env@),
            pc: self.pc as int,
            accu: val_of(self.accu),
            extra_args: self.extra_args as int,
        }
    }

    /// The label table answers for the program.
    pub open spec fn wf(&self) -> bool {
        &&& self.prog@.len() <= i64::MAX
        &&& forall|l: Seq<char>| #[trigger] table_target(self.labels@, l) == label_target(self.prog@, l)
    }

    /// A machine about to run `prog` from its first line, with an empty stack
    /// and environment and the accumulator at 0.
    pub fn new(prog: &Vec<Line>) -> (r: ZAM)
        requires
            prog@.len() <= i64::MAX,
        ensures
            r.wf(),
            r.prog@ == prog@,
            r.stack@.len() == 0,
            r.env@.len() == 0,
            r.pc == 0,
            r.accu == Mlvalue::Entier(0),
            r.extra_args == 0,
            r.options@.len() == 0,
    {
        let mut code: Vec<Line> = Vec::with_capacity(prog.len());
        let mut labels: Vec<(String, usize)> = Vec::new();
        let mut i: usize = 0;
        while i < prog.len()
            invariant
                i <= prog.len(),
                code@ == prog@.take(i as int),
                forall|l: Seq<char>| #[trigger] table_target(labels@, l) == label_target(prog@.take(i as int), l),
            decreases prog.len() - i,
        {
            let line = duplicate_line(&prog[i]);
            let ghost t0 = labels@;
            match &line.0 {
                Some(name) => {
                    labels.push((name.clone(), i));
                },
                None => {},
            }
            code.push(line);
            proof {
                let p1 = prog@.take(i + 1);
                assert(p1.drop_last() =~= prog@.take(i as int));
                assert(p1[i as int] == prog@[i as int]);
                if labels@.len() > t0.len() {
                    assert(labels@.drop_last() =~= t0);
                } else {
                    assert(labels@ == t0);
                }
                assert forall|l: Seq<char>| #[trigger] table_target(labels@, l) == label_target(p1, l) by {
                    assert(table_target(t0, l) == label_target(prog@.take(i as int), l));
                }
            }
            i = i + 1;
        }
        assert(prog@.take(i as int) =~= prog@);
        ZAM {
            prog: code,
            stack: Vec::new(),
            env: Vec::new(),
            pc: 0,
            accu: Mlvalue::Entier(0),
            extra_args: 0,
            labels,
            options: Vec::new(),
        }
    }

    /// Turns on a host option (such as tracing); an option already on stays
    /// as it is.
    pub fn set_option(&mut self, option: &str)
        ensures
            final(self).prog == old(self).prog,
            final(self).labels == old(self).labels,
            final(self).state() == old(self).state(),
            (exists|j: int| 0 <= j < old(self).options@.len() && #[trigger] old(self).options@[j]@ == option@)
                ==> final(self).options@ == old(self).options@,
            !(exists|j: int| 0 <= j < old(self).options@.len() && #[trigger] old(self).options@[j]@ == option@)
                ==> final(self).options@.len() == old(self).options@.len() + 1
                && final(self).options@.drop_last() == old(self).options@
                && final(self).options@.last()@ == option@,
    {
        let name = option.to_owned();
        let mut j: usize = 0;
        while j < self.options.len()
            invariant
                name@ == option@,
                j <= self.options@.len(),
                forall|i: int| 0 <= i < j ==> #[trigger] self.options@[i]@ != option@,
            decreases self.options.len() - j,
        {
            if self.options[j] == name {
                return;
            }
            j = j + 1;
        }
        self.options.push(name);
        assert(self.options@.drop_last() =~= old(self).options@);
    }

    /// The line that label `l` names.
    pub(crate) fn lookup(&self, l: &String) -> (r: Result<usize, Fault>)
        requires
            self.wf(),
        ensures
            match r {
                Ok(t) => label_target(self.prog@, l@) == Some(t as int),
                Err(f) => f == Fault::BadLabel && label_target(self.prog@, l@) is None,
            },
    {
        let mut k: usize = self.labels.len();
        assert(self.labels@.take(k as int) =~= self.labels@);
        while k > 0
            invariant
                self.wf(),
                k <= self.labels@.len(),
                table_target(self.labels@.take(k as int), l@) == table_target(self.labels@, l@),
            decreases k,
        {
            assert(self.labels@.take(k as int).drop_last() =~= self.labels@.take(k - 1));
            if self.labels[k - 1].0 == *l {
                return Ok(self.labels[k - 1].1);
            }
            k = k - 1;
        }
        Err(Fault::BadLabel)
    }
}

/// The models of a sequence of values and of a longer one that extends it.
pub proof fn lemma_vals_concat(a: Seq<Mlvalue>, b: Seq<Mlvalue>)
    ensures
        vals(a + b) == vals(a) + vals(b),
{
    lemma_vals(a);
    lemma_vals(b);
    lemma_vals(a + b);
    assert(vals(a + b) =~= vals(a) + vals(b));
}

/// The models of a prefix of a sequence of values.
pub proof fn lemma_vals_prefix(a: Seq<Mlvalue>, n: int)
    requires
        0 <= n <= a.len(),
    ensures
        vals(a.subrange(0, n)) == vals(a).subrange(0, n),
{
    lemma_vals(a);
    lemma_vals(a.subrange(0, n));
    assert(vals(a.subrange(0, n)) =~= vals(a).subrange(0, n));
}

/// The models of a sequence of values with one more pushed.
pub proof fn lemma_vals_push(a: Seq<Mlvalue>, x: Mlvalue)
    ensures
        vals(a.push(x)) == vals(a).push(val_of(x)),
{
    lemma_vals(a);
    lemma_vals(a.push(x));
    assert(vals(a.push(x)) =~= vals(a).push(val_of(x)));
}

/// Pops the top `n` values of `st`, in the order they come off.
pub(crate) fn take_top(st: &mut Vec<Mlvalue>, n: usize) -> (r: Vec<Mlvalue>)
    requires
        n <= old(st)@.len(),
    ensures
        vals(final(st)@) == below(vals(old(st)@), n as int),
        vals(r@) == top_n(vals(old(st)@), n as int),
{
    let mut r: Vec<Mlvalue> = Vec::with_capacity(n);
    let ghost s0 = st@;
    let mut i: usize = 0;
    while i < n
        invariant
            i <= n <= s0.len(),
            st@ == s0.subrange(0, s0.len() - i),
            r@.len() == i,
            forall|j: int| 0 <= j < i ==> #[trigger] r@[j] == s0[s0.len() - 1 - j],
        decreases n - i,
    {
        let v = st.pop().unwrap();
        r.push(v);
        i = i + 1;
    }
    proof {
        lemma_vals(s0);
        lemma_vals(r@);
        lemma_vals_prefix(s0, s0.len() - n);
        assert(vals(r@) =~= top_n(vals(s0), n as int));
    }
    r
}

/// Pushes `items` onto `st`, first item first.
pub(crate) fn push_all(st: &mut Vec<Mlvalue>, items: Vec<Mlvalue>)
    ensures
        vals(final(st)@) == vals(old(st)@) + vals(items@),
{
    let mut items = items;
    let ghost i0 = items@;
    st.append(&mut items);
    proof {
        lemma_vals_concat(old(st)@, i0);
    }
}

/// Whether `r` and the machine `post` are what one step of `pre` on `i` gives.
pub open spec fn done(pre: ZAM, i: Inst, post: ZAM, r: Result<Effect, Fault>) -> bool {
    &&& post.prog == pre.prog
    &&& post.labels == pre.labels
    &&& post.options == pre.options
    &&& match r {
        Ok(e) => step(pre.prog@, pre.state(), i) == Ok::<(State, Effect), Fault>((post.state(), e)),
        Err(f) => step(pre.prog@, pre.state(), i) == Err::<(State, Effect), Fault>(f),
    }
}

/// The primitive that `name` stands for.
pub(crate) fn prim_code(name: &String) -> (r: Option<PrimOp>)
    ensures
        r == prim_of(name@),
{
    let s = name.as_str();
    let n = s.unicode_len();
    if n == 1 {
        let c = s.get_char(0);
        if c == '+' {
            assert(name@ =~= seq!['+']);
            Some(PrimOp::Add)
        } else if c == '-' {
            assert(name@ =~= seq!['-']);
            Some(PrimOp::Sub)
        } else if c == '*' {
            assert(name@ =~= seq!['*']);
            Some(PrimOp::Mul)
        } else if c == '/' {
            assert(name@ =~= seq!['/']);
            Some(PrimOp::Div)
        } else if c == '<' {
            assert(name@ =~= seq!['<']);
            Some(PrimOp::Lt)
        } else if c == '>' {
            assert(name@ =~= seq!['>']);
            Some(PrimOp::Gt)
        } else if c == '=' {
            assert(name@ =~= seq!['=']);
            Some(PrimOp::Eq)
        } else {
            None
        }
    } else if n == 2 {
        let c0 = s.get_char(0);
        let c1 = s.get_char(1);
        if c0 == '<' && c1 == '=' {
            assert(name@ =~= seq!['<', '=']);
            Some(PrimOp::Le)
        } else if c0 == '>' && c1 == '=' {
            assert(name@ =~= seq!['>', '=']);
            Some(PrimOp::Ge)
        } else if c0 == 'o' && c1 == 'r' {
            assert(name@ =~= seq!['o', 'r']);
            Some(PrimOp::Or)
        } else {
            None
        }
    } else if n == 3 {
        let c0 = s.get_char(0);
        let c1 = s.get_char(1);
        let c2 = s.get_char(2);
        if c0 == 'a' && c1 == 'n' && c2 == 'd' {
            assert(name@ =~= seq!['a', 'n', 'd']);
            Some(PrimOp::And)
        } else if c0 == 'n' && c1 == 'o' && c2 == 't' {
            assert(name@ =~= seq!['n', 'o', 't']);
            Some(PrimOp::Not)
        } else {
            None
        }
    } else if n == 5 {
        let c0 = s.get_char(0);
        let c1 = s.get_char(1);
        let c2 = s.get_char(2);
        let c3 = s.get_char(3);
        let c4 = s.get_char(4);
        if c0 == 'p' && c1 == 'r' && c2 == 'i' && c3 == 'n' && c4 == 't' {
            assert(name@ =~= seq!['p', 'r', 'i', 'n', 't']);
            Some(PrimOp::Print)
        } else {
            None
        }
    } else {
        None
    }
}

/// An arithmetic or comparison primitive on `a` (the accumulator) and `b`.
pub(crate) fn int_prim_exec(op: PrimOp, a: i64, b: i64) -> (r: Result<i64, Fault>)
    requires
        op != PrimOp::And && op != PrimOp::Or && op != PrimOp::Not && op != PrimOp::Print,
    ensures
        match r {
            Ok(x) => int_prim(op, a as int, b as int) == Ok::<int, Fault>(x as int),
            Err(f) => int_prim(op, a as int, b as int) == Err::<int, Fault>(f),
        },
{
    match op {
        PrimOp::Add => match a.checked_add(b) {
            Some(x) => Ok(x),
            None => Err(Fault::Overflow),
        },
        PrimOp::Sub => match a.checked_sub(b) {
            Some(x) => Ok(x),
            None => Err(Fault::Overflow),
        },
        PrimOp::Mul => match a.checked_mul(b) {
            Some(x) => Ok(x),
            None => Err(Fault::Overflow),
        },
        PrimOp::Div => {
            if b == 0 {
                Err(Fault::DivisionByZero)
            } else {
                let a1 = a as i128;
                let b1 = b as i128;
                let aa: i128 = if a1 < 0 { -a1 } else { a1 };
                let bb: i128 = if b1 < 0 { -b1 } else { b1 };
                let q: i128 = aa / bb;
                assert(0 <= q <= aa) by (nonlinear_arith)
                    requires q == aa / bb, aa >= 0, bb > 0;
                let x: i128 = if (a1 < 0) != (b1 < 0) { -q } else { q };
                if x < i64::MIN as i128 || x > i64::MAX as i128 {
                    Err(Fault::Overflow)
                } else {
                    Ok(x as i64)
                }
            }
        },
        PrimOp::Lt => Ok(if a < b { 1 } else { 0 }),
        PrimOp::Gt => Ok(if a > b { 1 } else { 0 }),
        PrimOp::Eq => Ok(if a == b { 1 } else { 0 }),
        PrimOp::Le => Ok(if a <= b { 1 } else { 0 }),
        _ => Ok(if a >= b { 1 } else { 0 }),
    }
}

/// The low byte of an integer.
pub(crate) fn low_byte_exec(n: i64) -> (r: u8)
    ensures
        r == low_byte(n as int),
{
    let m: i64 = n % 256;
    let m2: i64 = if m < 0 { m + 256 } else { m };
    m2 as u8
}

} // verus!
