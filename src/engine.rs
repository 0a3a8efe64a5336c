use vstd::prelude::*;

use crate::machine::{
    done, int_prim_exec, lemma_label_target_bounds, lemma_vals_prefix, lemma_vals_push, low_byte_exec, prim_code,
    push_all, take_top, Inst, State, ZAM,
};
use crate::mlvalue::{
    duplicate_all, field_of, lemma_vals, set_field_of, val_of, vals, Fault, Mlvalue,
    Val,
};
use crate::semantics::{
    below, fetch_step, frame_nat, pop_frame, run_from, step, Effect, Outcome, PrimOp,
};

verus! {

/// The count or code index that a frame slot holds.
fn frame_nat_exec(v: &Mlvalue) -> (r: Result<usize, Fault>)
    ensures
        match r {
            Ok(k) => frame_nat(val_of(*v)) == Ok::<int, Fault>(k as int),
            Err(f) => frame_nat(val_of(*v)) == Err::<int, Fault>(f),
        },
{
    match v.try_int() {
        Err(f) => Err(f),
        Ok(k) => {
            if k < 0 || k as u64 > usize::MAX as u64 {
                Err(Fault::TypeMismatch)
            } else {
                Ok(k as usize)
            }
        },
    }
}

/// Copies of the values of `v` from index `from` on.
fn copy_from(v: &Vec<Mlvalue>, from: usize) -> (r: Vec<Mlvalue>)
    requires
        from <= v@.len(),
    ensures
        vals(r@) == vals(v@).subrange(from as int, v@.len() as int),
{
    let mut r: Vec<Mlvalue> = Vec::new();
    let mut i: usize = from;
    while i < v.len()
        invariant
            from <= i <= v@.len(),
            r@.len() == i - from,
            forall|j: int| 0 <= j < i - from ==> val_of(#[trigger] r@[j]) == val_of(v@[from + j]),
        decreases v.len() - i,
    {
        let x = v[i].duplicate();
        r.push(x);
        i = i + 1;
    }
    proof {
        lemma_vals(v@);
        lemma_vals(r@);
        assert(vals(r@) =~= vals(v@).subrange(from as int, v@.len() as int));
    }
    r
}

impl ZAM {
    fn exec_const(&mut self, n: i64) -> (r: Result<Effect, Fault>)
        requires
            old(self).pc < old(self).prog.len(),
        ensures
            done(*old(self), Inst::Const(n), *final(self), r),
    {
        self.accu = Mlvalue::Entier(n);
        self.pc = self.pc + 1;
        Ok(Effect::Continue)
    }

    fn exec_prim(&mut self, name: &String) -> (r: Result<Effect, Fault>)
        requires
            old(self).pc < old(self).prog.len(),
        ensures
            done(*old(self), Inst::Prim(*name), *final(self), r),
    {
        proof {
            lemma_vals(self.stack@);
        }
        match prim_code(name) {
            None => Err(Fault::UnknownPrimitive),
            Some(PrimOp::Not) => match self.accu.try_bool() {
                Err(f) => Err(f),
                Ok(b) => {
                    self.accu = Mlvalue::to_entier(!b);
                    self.pc = self.pc + 1;
                    Ok(Effect::Continue)
                },
            },
            Some(PrimOp::Print) => match self.accu.try_int() {
                Err(f) => Err(f),
                Ok(n) => {
                    self.pc = self.pc + 1;
                    Ok(Effect::Print(low_byte_exec(n)))
                },
            },
            Some(op) => {
                if self.stack.len() == 0 {
                    return Err(Fault::StackUnderflow);
                }
                let b = self.stack.pop().unwrap();
                proof {
                    lemma_vals_prefix(old(self).stack@, old(self).stack@.len() - 1);
                    assert(old(self).stack@.subrange(0, old(self).stack@.len() - 1) == self.stack@);
                    assert(vals(old(self).stack@).drop_last() =~= vals(old(self).stack@).subrange(
                        0,
                        old(self).stack@.len() - 1,
                    ));
                }
                if op == PrimOp::And || op == PrimOp::Or {
                    match b.try_bool() {
                        Err(f) => Err(f),
                        Ok(y) => match self.accu.try_bool() {
                            Err(f) => Err(f),
                            Ok(x) => {
                                let v = if op == PrimOp::And { x && y } else { x || y };
                                self.accu = Mlvalue::to_entier(v);
                                self.pc = self.pc + 1;
                                Ok(Effect::Continue)
                            },
                        },
                    }
                } else {
                    match b.try_int() {
                        Err(f) => Err(f),
                        Ok(y) => match self.accu.try_int() {
                            Err(f) => Err(f),
                            Ok(x) => match int_prim_exec(op, x, y) {
                                Err(f) => Err(f),
                                Ok(v) => {
                                    self.accu = Mlvalue::Entier(v);
                                    self.pc = self.pc + 1;
                                    Ok(Effect::Continue)
                                },
                            },
                        },
                    }
                }
            },
        }
    }

    fn exec_branch(&mut self, l: &String, cond: bool) -> (r: Result<Effect, Fault>)
        requires
            old(self).wf(),
            old(self).pc < old(self).prog.len(),
        ensures
            done(*old(self), if cond { Inst::BranchIfNot(*l) } else { Inst::Branch(*l) }, *final(self), r),
    {
        let taken = if cond {
            match &self.accu {
                Mlvalue::Entier(0) => true,
                _ => false,
            }
        } else {
            true
        };
        if taken {
            match self.lookup(l) {
                Err(f) => Err(f),
                Ok(t) => {
                    self.pc = t;
                    Ok(Effect::Continue)
                },
            }
        } else {
            self.pc = self.pc + 1;
            Ok(Effect::Continue)
        }
    }

    fn exec_push(&mut self) -> (r: Result<Effect, Fault>)
        requires
            old(self).pc < old(self).prog.len(),
        ensures
            done(*old(self), Inst::Push, *final(self), r),
    {
        let len = self.stack.len();
        proof {
            lemma_vals(self.stack@);
        }
        if let Mlvalue::Block(_) = &self.accu {
            let mut a = Mlvalue::RefBlock(len);
            std::mem::swap(&mut self.accu, &mut a);
            proof {
                lemma_vals_push(self.stack@, a);
            }
            self.stack.push(a);
        } else {
            let a = self.accu.duplicate();
            proof {
                lemma_vals_push(self.stack@, a);
            }
            self.stack.push(a);
        }
        self.pc = self.pc + 1;
        Ok(Effect::Continue)
    }

    fn exec_pop(&mut self) -> (r: Result<Effect, Fault>)
        requires
            old(self).pc < old(self).prog.len(),
        ensures
            done(*old(self), Inst::Pop, *final(self), r),
    {
        if self.stack.len() == 0 {
            proof {
                lemma_vals(self.stack@);
            }
            return Err(Fault::StackUnderflow);
        }
        proof {
            lemma_vals(self.stack@);
            lemma_vals_prefix(self.stack@, self.stack@.len() - 1);
            assert(vals(self.stack@).drop_last() =~= vals(self.stack@).subrange(0, self.stack@.len() - 1));
        }
        self.stack.pop();
        self.pc = self.pc + 1;
        Ok(Effect::Continue)
    }

    fn exec_acc(&mut self, k: u64) -> (r: Result<Effect, Fault>)
        requires
            old(self).pc < old(self).prog.len(),
        ensures
            done(*old(self), Inst::Acc(k), *final(self), r),
    {
        proof {
            lemma_vals(self.stack@);
        }
        let len = self.stack.len();
        if k >= len as u64 {
            return Err(Fault::StackUnderflow);
        }
        let idx: usize = len - 1 - k as usize;
        if let Mlvalue::Block(_) = &self.stack[idx] {
            self.accu = Mlvalue::RefBlock(idx);
        } else {
            self.accu = self.stack[idx].duplicate();
        }
        self.pc = self.pc + 1;
        Ok(Effect::Continue)
    }

    fn exec_envacc(&mut self, k: u64) -> (r: Result<Effect, Fault>)
        requires
            old(self).pc < old(self).prog.len(),
        ensures
            done(*old(self), Inst::Envacc(k), *final(self), r),
    {
        proof {
            lemma_vals(self.env@);
        }
        if k >= self.env.len() as u64 {
            return Err(Fault::IndexOutOfBounds);
        }
        self.accu = self.env[k as usize].duplicate();
        self.pc = self.pc + 1;
        Ok(Effect::Continue)
    }

    fn exec_closure(&mut self, l: &String, n: i64, rec: bool) -> (r: Result<Effect, Fault>)
        requires
            old(self).wf(),
            old(self).pc < old(self).prog.len(),
        ensures
            done(*old(self), if rec { Inst::ClosureRec(*l, n) } else { Inst::Closure(*l, n) }, *final(self), r),
    {
        if n < 0 {
            return Err(Fault::Arity);
        }
        if n > 0 {
            let a = self.accu.duplicate();
            proof {
                lemma_vals_push(self.stack@, a);
            }
            self.stack.push(a);
        }
        let t = match self.lookup(l) {
            Err(f) => {
                return Err(f);
            },
            Ok(t) => t,
        };
        proof {
            lemma_label_target_bounds(self.prog@, l@);
            lemma_vals(self.stack@);
        }
        if n as u64 > self.stack.len() as u64 {
            return Err(Fault::StackUnderflow);
        }
        let popped = take_top(&mut self.stack, n as usize);
        let env = if rec {
            let mut e = vec![Mlvalue::Entier(t as i64)];
            proof {
                lemma_vals(e@);
                assert(vals(e@) =~= seq![Val::Int(t as int)]);
            }
            push_all(&mut e, popped);
            e
        } else {
            popped
        };
        self.accu = Mlvalue::Fermeture(t, env);
        if rec {
            let a = self.accu.duplicate();
            proof {
                lemma_vals_push(self.stack@, a);
            }
            self.stack.push(a);
        }
        self.pc = self.pc + 1;
        Ok(Effect::Continue)
    }

    fn exec_offset_closure(&mut self) -> (r: Result<Effect, Fault>)
        requires
            old(self).pc < old(self).prog.len(),
        ensures
            done(*old(self), Inst::OffSetClosure, *final(self), r),
    {
        proof {
            lemma_vals(self.env@);
        }
        if self.env.len() == 0 {
            return Err(Fault::IndexOutOfBounds);
        }
        match self.env[0].try_int() {
            Err(f) => Err(f),
            Ok(p) => {
                if p < 0 || p as u64 > usize::MAX as u64 {
                    return Err(Fault::PcOutOfRange);
                }
                self.accu = Mlvalue::Fermeture(p as usize, duplicate_all(&self.env));
                self.pc = self.pc + 1;
                Ok(Effect::Continue)
            },
        }
    }

    /// Pops a call frame: the surplus count, the return address and the
    /// environment, the accumulator kept.
    fn restore_frame(&mut self) -> (r: Result<(), Fault>)
        ensures
            final(self).prog == old(self).prog,
            final(self).labels == old(self).labels,
            final(self).options == old(self).options,
            match pop_frame(old(self).state().stack, old(self).state().accu) {
                Ok(t) => r is Ok && final(self).state() == t,
                Err(f) => r == Err::<(), Fault>(f),
            },
    {
        proof {
            lemma_vals(self.stack@);
        }
        let n = self.stack.len();
        if n < 3 {
            return Err(Fault::StackUnderflow);
        }
        let e = match frame_nat_exec(&self.stack[n - 1]) {
            Err(f) => {
                return Err(f);
            },
            Ok(e) => e,
        };
        let p = match frame_nat_exec(&self.stack[n - 2]) {
            Err(f) => {
                return Err(f);
            },
            Ok(p) => p,
        };
        let env = match self.stack[n - 3].try_env() {
            Err(f) => {
                return Err(f);
            },
            Ok(env) => env,
        };
        proof {
            lemma_vals_prefix(self.stack@, n - 3);
        }
        self.stack.truncate(n - 3);
        self.env = env;
        self.pc = p;
        self.extra_args = e;
        Ok(())
    }

    fn exec_apply(&mut self, n: i64) -> (r: Result<Effect, Fault>)
        requires
            old(self).pc < old(self).prog.len(),
        ensures
            done(*old(self), Inst::Apply(n), *final(self), r),
    {
        proof {
            lemma_vals(self.stack@);
        }
        if n <= 0 {
            return Err(Fault::Arity);
        }
        if n as u64 > self.stack.len() as u64 {
            return Err(Fault::StackUnderflow);
        }
        let (p, mut new_env) = match &self.accu {
            Mlvalue::Fermeture(p, e) => (*p, duplicate_all(e)),
            _ => {
                return Err(Fault::TypeMismatch);
            },
        };
        if self.pc as u64 >= i64::MAX as u64 || self.extra_args as u64 > i64::MAX as u64 {
            return Err(Fault::Overflow);
        }
        let ghost s0 = self.state();
        let args = take_top(&mut self.stack, n as usize);
        std::mem::swap(&mut self.env, &mut new_env);
        let mut frame: Vec<Mlvalue> = Vec::new();
        frame.push(Mlvalue::Environement(new_env));
        frame.push(Mlvalue::Entier((self.pc + 1) as i64));
        frame.push(Mlvalue::Entier(self.extra_args as i64));
        proof {
            lemma_vals(frame@);
            assert(vals(frame@) =~= seq![Val::Env(s0.env), Val::Int(s0.pc + 1), Val::Int(s0.extra_args)]);
        }
        push_all(&mut self.stack, frame);
        push_all(&mut self.stack, args);
        self.pc = p;
        self.extra_args = (n - 1) as usize;
        Ok(Effect::Continue)
    }

    fn exec_return(&mut self, n: i64) -> (r: Result<Effect, Fault>)
        requires
            old(self).pc < old(self).prog.len(),
        ensures
            done(*old(self), Inst::Return(n), *final(self), r),
    {
        proof {
            lemma_vals(self.stack@);
        }
        if n < 0 {
            return Err(Fault::Arity);
        }
        if n as u64 > self.stack.len() as u64 {
            return Err(Fault::StackUnderflow);
        }
        if self.extra_args == 0 {
            let _ = take_top(&mut self.stack, n as usize);
            match self.restore_frame() {
                Err(f) => Err(f),
                Ok(()) => Ok(Effect::Continue),
            }
        } else {
            let (p, new_env) = match &self.accu {
                Mlvalue::Fermeture(p, e) => (*p, duplicate_all(e)),
                _ => {
                    return Err(Fault::TypeMismatch);
                },
            };
            let _ = take_top(&mut self.stack, n as usize);
            self.extra_args = self.extra_args - 1;
            self.pc = p;
            self.env = new_env;
            Ok(Effect::Continue)
        }
    }

    fn exec_grab(&mut self, n: i64) -> (r: Result<Effect, Fault>)
        requires
            old(self).pc < old(self).prog.len(),
        ensures
            done(*old(self), Inst::Grab(n), *final(self), r),
    {
        proof {
            lemma_vals(self.stack@);
        }
        if n < 0 {
            return Err(Fault::Arity);
        }
        if self.extra_args as u64 >= n as u64 {
            self.extra_args = self.extra_args - n as usize;
            self.pc = self.pc + 1;
            return Ok(Effect::Continue);
        }
        if self.extra_args >= self.stack.len() {
            return Err(Fault::StackUnderflow);
        }
        let k: usize = self.extra_args + 1;
        if self.pc == 0 {
            return Err(Fault::PcOutOfRange);
        }
        let popped = take_top(&mut self.stack, k);
        push_all(&mut self.env, popped);
        let mut captured: Vec<Mlvalue> = Vec::new();
        std::mem::swap(&mut self.env, &mut captured);
        self.accu = Mlvalue::Fermeture(self.pc - 1, captured);
        match self.restore_frame() {
            Err(f) => Err(f),
            Ok(()) => Ok(Effect::Continue),
        }
    }

    fn exec_restart(&mut self) -> (r: Result<Effect, Fault>)
        requires
            old(self).pc < old(self).prog.len(),
        ensures
            done(*old(self), Inst::Restart, *final(self), r),
    {
        proof {
            lemma_vals(self.env@);
        }
        let k = self.env.len();
        if k > 0 {
            if self.extra_args as u128 + k as u128 - 1 > usize::MAX as u128 {
                return Err(Fault::Overflow);
            }
            let tail = copy_from(&self.env, 1);
            push_all(&mut self.stack, tail);
            let first = self.env[0].duplicate();
            self.env = vec![first];
            proof {
                lemma_vals(self.env@);
                assert(vals(self.env@) =~= seq![vals(old(self).env@)[0]]);
            }
            self.extra_args = self.extra_args + (k - 1);
        } else if self.extra_args == 0 {
            return Err(Fault::Arity);
        } else {
            self.extra_args = self.extra_args - 1;
        }
        self.pc = self.pc + 1;
        Ok(Effect::Continue)
    }

    fn exec_appterm(&mut self, n: i64, m: i64) -> (r: Result<Effect, Fault>)
        requires
            old(self).pc < old(self).prog.len(),
        ensures
            done(*old(self), Inst::AppTerm(n, m), *final(self), r),
    {
        proof {
            lemma_vals(self.stack@);
        }
        if n > m || n <= 0 {
            return Err(Fault::Arity);
        }
        if m as u64 > self.stack.len() as u64 {
            return Err(Fault::StackUnderflow);
        }
        let (p, new_env) = match &self.accu {
            Mlvalue::Fermeture(p, e) => (*p, duplicate_all(e)),
            _ => {
                return Err(Fault::TypeMismatch);
            },
        };
        let total: u128 = self.extra_args as u128 + n as u128 - 1;
        if total > usize::MAX as u128 {
            return Err(Fault::Overflow);
        }
        let ghost st0 = vals(self.stack@);
        let args = take_top(&mut self.stack, n as usize);
        proof {
            lemma_vals(self.stack@);
        }
        let _ = take_top(&mut self.stack, (m - n) as usize);
        assert(below(below(st0, n as int), (m - n) as int) =~= below(st0, m as int));
        push_all(&mut self.stack, args);
        self.pc = p;
        self.env = new_env;
        self.extra_args = total as usize;
        Ok(Effect::Continue)
    }

    fn exec_makeblock(&mut self, n: i64) -> (r: Result<Effect, Fault>)
        requires
            old(self).pc < old(self).prog.len(),
        ensures
            done(*old(self), Inst::Makeblock(n), *final(self), r),
    {
        proof {
            lemma_vals(self.stack@);
        }
        if n < 0 {
            return Err(Fault::Arity);
        }
        if n == 0 {
            let b: Vec<Mlvalue> = Vec::new();
            proof {
                lemma_vals(b@);
                assert(vals(b@) =~= seq![]);
            }
            self.accu = Mlvalue::Block(b);
        } else {
            if (n - 1) as u64 > self.stack.len() as u64 {
                return Err(Fault::StackUnderflow);
            }
            let popped = take_top(&mut self.stack, (n - 1) as usize);
            let mut first = Mlvalue::Entier(0);
            std::mem::swap(&mut self.accu, &mut first);
            let mut b: Vec<Mlvalue> = Vec::new();
            b.push(first);
            proof {
                lemma_vals(b@);
                assert(vals(b@) =~= seq![val_of(first)]);
            }
            push_all(&mut b, popped);
            self.accu = Mlvalue::Block(b);
        }
        self.pc = self.pc + 1;
        Ok(Effect::Continue)
    }

    /// Field `n` of the block the accumulator designates.
    fn read_field(&self, n: i64) -> (r: Result<Mlvalue, Fault>)
        ensures
            match r {
                Ok(v) => field_of(val_of(self.accu), n as int, vals(self.stack@)) == Ok::<Val, Fault>(val_of(v)),
                Err(f) => field_of(val_of(self.accu), n as int, vals(self.stack@)) == Err::<Val, Fault>(f),
            },
    {
        if n < 0 || n as u64 > usize::MAX as u64 {
            match self.accu.try_veclen(&self.stack) {
                Err(f) => Err(f),
                Ok(_) => Err(Fault::IndexOutOfBounds),
            }
        } else {
            self.accu.try_getfield(n as usize, &self.stack)
        }
    }

    /// Writes `v` into field `n` of the block the accumulator designates.
    fn write_field(&mut self, n: i64, v: Mlvalue) -> (r: Result<(), Fault>)
        ensures
            final(self).prog == old(self).prog,
            final(self).labels == old(self).labels,
            final(self).options == old(self).options,
            final(self).env == old(self).env,
            final(self).pc == old(self).pc,
            final(self).extra_args == old(self).extra_args,
            match set_field_of(val_of(old(self).accu), n as int, val_of(v), vals(old(self).stack@)) {
                Ok(p) => r is Ok && val_of(final(self).accu) == p.0 && vals(final(self).stack@) == p.1,
                Err(f) => r == Err::<(), Fault>(f),
            },
    {
        proof {
            lemma_vals(self.stack@);
        }
        if n < 0 || n as u64 > usize::MAX as u64 {
            match &self.accu {
                Mlvalue::Block(b) => {
                    let _ = b.len();
                    proof {
                        lemma_vals(b@);
                    }
                    Err(Fault::IndexOutOfBounds)
                },
                Mlvalue::RefBlock(i) => {
                    if *i >= self.stack.len() {
                        Err(Fault::IndexOutOfBounds)
                    } else {
                        match &self.stack[*i] {
                            Mlvalue::Block(b) => {
                                let _ = b.len();
                                proof {
                                    lemma_vals(b@);
                                }
                                Err(Fault::IndexOutOfBounds)
                            },
                            _ => Err(Fault::TypeMismatch),
                        }
                    }
                },
                _ => Err(Fault::TypeMismatch),
            }
        } else {
            self.accu.try_setfield(n as usize, v, &mut self.stack)
        }
    }

    fn exec_getfield(&mut self, n: i64) -> (r: Result<Effect, Fault>)
        requires
            old(self).pc < old(self).prog.len(),
        ensures
            done(*old(self), Inst::Getfield(n), *final(self), r),
    {
        match self.read_field(n) {
            Err(f) => Err(f),
            Ok(v) => {
                self.accu = v;
                self.pc = self.pc + 1;
                Ok(Effect::Continue)
            },
        }
    }

    fn exec_veclength(&mut self) -> (r: Result<Effect, Fault>)
        requires
            old(self).pc < old(self).prog.len(),
        ensures
            done(*old(self), Inst::Veclength, *final(self), r),
    {
        match self.accu.try_veclen(&self.stack) {
            Err(f) => Err(f),
            Ok(k) => {
                if k as u64 > i64::MAX as u64 {
                    return Err(Fault::Overflow);
                }
                self.accu = Mlvalue::Entier(k as i64);
                self.pc = self.pc + 1;
                Ok(Effect::Continue)
            },
        }
    }

    fn exec_getvectitem(&mut self) -> (r: Result<Effect, Fault>)
        requires
            old(self).pc < old(self).prog.len(),
        ensures
            done(*old(self), Inst::Getvectitem, *final(self), r),
    {
        proof {
            lemma_vals(self.stack@);
        }
        if self.stack.len() == 0 {
            return Err(Fault::StackUnderflow);
        }
        proof {
            lemma_vals_prefix(self.stack@, self.stack@.len() - 1);
            assert(vals(self.stack@).drop_last() =~= vals(self.stack@).subrange(0, self.stack@.len() - 1));
        }
        let top = self.stack.pop().unwrap();
        match top.try_int() {
            Err(f) => Err(f),
            Ok(n) => self.exec_getfield(n),
        }
    }

    fn exec_setfield(&mut self, n: i64) -> (r: Result<Effect, Fault>)
        requires
            old(self).pc < old(self).prog.len(),
        ensures
            done(*old(self), Inst::Setfield(n), *final(self), r),
    {
        proof {
            lemma_vals(self.stack@);
        }
        if self.stack.len() == 0 {
            return Err(Fault::StackUnderflow);
        }
        proof {
            lemma_vals_prefix(self.stack@, self.stack@.len() - 1);
            assert(vals(self.stack@).drop_last() =~= vals(self.stack@).subrange(0, self.stack@.len() - 1));
        }
        let v = self.stack.pop().unwrap();
        match self.write_field(n, v) {
            Err(f) => Err(f),
            Ok(()) => {
                self.pc = self.pc + 1;
                Ok(Effect::Continue)
            },
        }
    }

    fn exec_setvectitem(&mut self) -> (r: Result<Effect, Fault>)
        requires
            old(self).pc < old(self).prog.len(),
        ensures
            done(*old(self), Inst::SetVectitem, *final(self), r),
    {
        proof {
            lemma_vals(self.stack@);
        }
        let len = self.stack.len();
        if len < 2 {
            return Err(Fault::StackUnderflow);
        }
        proof {
            lemma_vals_prefix(self.stack@, len - 2);
            assert(vals(self.stack@).drop_last().drop_last() =~= vals(self.stack@).subrange(0, len - 2));
        }
        let top = self.stack.pop().unwrap();
        match top.try_int() {
            Err(f) => Err(f),
            Ok(n) => {
                let v = self.stack.pop().unwrap();
                assert(self.stack@ =~= old(self).stack@.subrange(0, len - 2));
                match self.write_field(n, v) {
                    Err(f) => Err(f),
                    Ok(()) => {
                        self.accu = Mlvalue::Entier(0);
                        self.pc = self.pc + 1;
                        Ok(Effect::Continue)
                    },
                }
            },
        }
    }

    fn exec_assign(&mut self, n: i64) -> (r: Result<Effect, Fault>)
        requires
            old(self).pc < old(self).prog.len(),
        ensures
            done(*old(self), Inst::Assign(n), *final(self), r),
    {
        proof {
            lemma_vals(self.stack@);
        }
        let len = self.stack.len();
        if n < 0 || n as u64 >= len as u64 {
            return Err(Fault::StackUnderflow);
        }
        let idx: usize = len - 1 - n as usize;
        let a = self.accu.duplicate();
        self.stack.set(idx, a);
        proof {
            lemma_vals(self.stack@);
            assert(vals(self.stack@) =~= vals(old(self).stack@).update(idx as int, val_of(old(self).accu)));
        }
        self.accu = Mlvalue::Entier(0);
        self.pc = self.pc + 1;
        Ok(Effect::Continue)
    }

    /// Executes `instruction` as the one at the program counter, on a state
    /// where it can be taken: the machine moves to the state that `step`
    /// gives, and the result says what is to be printed or that the program
    /// stopped.
    pub fn execute(&mut self, instruction: &Inst) -> (r: Effect)
        requires
            old(self).wf(),
            old(self).pc < old(self).prog.len(),
            step(old(self).prog@, old(self).state(), *instruction) is Ok,
        ensures
            step(old(self).prog@, old(self).state(), *instruction) == Ok::<(State, Effect), Fault>((final(self).state(), r)),
            final(self).prog == old(self).prog,
            final(self).labels == old(self).labels,
            final(self).options == old(self).options,
            final(self).wf(),
    {
        match self.try_execute(instruction) {
            Ok(e) => e,
            Err(_) => Effect::Halt,
        }
    }

    /// Executes `instruction` as the one at the program counter: the machine
    /// moves to the state that `step` gives, and the result says what is to
    /// be printed, whether the program stopped, or why it cannot go on.
    pub fn try_execute(&mut self, instruction: &Inst) -> (r: Result<Effect, Fault>)
        requires
            old(self).wf(),
            old(self).pc < old(self).prog.len(),
        ensures
            done(*old(self), *instruction, *final(self), r),
            final(self).wf(),
    {
        match instruction {
            Inst::Const(n) => self.exec_const(*n),
            Inst::Prim(name) => self.exec_prim(name),
            Inst::Branch(l) => self.exec_branch(l, false),
            Inst::BranchIfNot(l) => self.exec_branch(l, true),
            Inst::Push => self.exec_push(),
            Inst::Pop => self.exec_pop(),
            Inst::Acc(k) => self.exec_acc(*k),
            Inst::Envacc(k) => self.exec_envacc(*k),
            Inst::Closure(l, n) => self.exec_closure(l, *n, false),
            Inst::Apply(n) => self.exec_apply(*n),
            Inst::Return(n) => self.exec_return(*n),
            Inst::Stop => Ok(Effect::Halt),
            Inst::ClosureRec(l, n) => self.exec_closure(l, *n, true),
            Inst::OffSetClosure => self.exec_offset_closure(),
            Inst::Grab(n) => self.exec_grab(*n),
            Inst::Restart => self.exec_restart(),
            Inst::AppTerm(n, m) => self.exec_appterm(*n, *m),
            Inst::Makeblock(n) => self.exec_makeblock(*n),
            Inst::Getfield(n) => self.exec_getfield(*n),
            Inst::Veclength => self.exec_veclength(),
            Inst::Getvectitem => self.exec_getvectitem(),
            Inst::Setfield(n) => self.exec_setfield(*n),
            Inst::SetVectitem => self.exec_setvectitem(),
            Inst::Assign(n) => self.exec_assign(*n),
        }
    }

    /// Fetches the instruction at the program counter and executes it.
    pub fn next_step(&mut self) -> (r: Result<Effect, Fault>)
        requires
            old(self).wf(),
        ensures
            final(self).wf(),
            final(self).prog == old(self).prog,
            final(self).labels == old(self).labels,
            final(self).options == old(self).options,
            match r {
                Ok(e) => fetch_step(old(self).prog@, old(self).state()) == Ok::<(State, Effect), Fault>((final(self).state(), e)),
                Err(f) => fetch_step(old(self).prog@, old(self).state()) == Err::<(State, Effect), Fault>(f),
            },
    {
        if self.pc >= self.prog.len() {
            return Err(Fault::PcOutOfRange);
        }
        let inst = self.prog[self.pc].1.duplicate();
        self.try_execute(&inst)
    }

    /// Runs at most `fuel` steps, until a `Stop` or a fault: the bytes that
    /// `print` wrote, and how the run ended. After a `Stop` the machine holds
    /// the state in which it stopped, and its accumulator the final value.
    pub fn run(&mut self, fuel: u64) -> (r: (Vec<u8>, Outcome))
        requires
            old(self).wf(),
        ensures
            final(self).wf(),
            final(self).prog == old(self).prog,
            final(self).labels == old(self).labels,
            final(self).options == old(self).options,
            r.0@ == run_from(old(self).prog@, old(self).state(), fuel as nat).1,
            r.1 == run_from(old(self).prog@, old(self).state(), fuel as nat).2,
            !(r.1 is Faulted) ==> final(self).state() == run_from(old(self).prog@, old(self).state(), fuel as nat).0,
    {
        let mut out: Vec<u8> = Vec::new();
        let mut left: u64 = fuel;
        loop
            invariant
                self.wf(),
                self.prog == old(self).prog,
                self.labels == old(self).labels,
                self.options == old(self).options,
                left <= fuel,
                run_from(old(self).prog@, old(self).state(), fuel as nat) == ({
                    let (u, o, e) = run_from(self.prog@, self.state(), left as nat);
                    (u, out@ + o, e)
                }),
            decreases left,
        {
            if left == 0 {
                assert(out@ + seq![] =~= out@);
                return (out, Outcome::OutOfFuel);
            }
            let ghost s0 = self.state();
            let ghost out0 = out@;
            match self.next_step() {
                Err(f) => {
                    assert(out@ + seq![] =~= out@);
                    return (out, Outcome::Faulted(f));
                },
                Ok(Effect::Halt) => {
                    assert(out@ + seq![] =~= out@);
                    return (out, Outcome::Halted);
                },
                Ok(Effect::Print(b)) => {
                    out.push(b);
                    assert(forall|o: Seq<u8>| out0 + (seq![b] + o) =~= out@ + o);
                },
                Ok(Effect::Continue) => {},
            }
            left = left - 1;
        }
    }
}

} // verus!
