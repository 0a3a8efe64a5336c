use vstd::prelude::*;

use crate::machine::{Inst, Line, State};
use crate::mlvalue::{block_of, field_of, resolve, Fault, Val};
use crate::semantics::{below, next, step, top_n, Effect};

verus! {

/// Registers that a running machine can hold: a program counter below the
/// largest index, and a surplus count in range.
pub open spec fn registers_fit(s: State) -> bool {
    &&& 0 <= s.pc < usize::MAX
    &&& 0 <= s.extra_args <= usize::MAX
}

/// A call and its return: after `Apply(n)` enters a closure, and the callee,
/// having left the frame in place with `k` values of its own above it and no
/// surplus arguments, executes `Return(k)`, the caller resumes at the next
/// line with its stack (less the `n` arguments), environment and surplus
/// count as they were, and the accumulator holds the callee's result.
pub proof fn law_apply_return(code: Seq<Line>, s: State, n: i64, callee: State, k: i64)
    requires
        registers_fit(s),
        step(code, s, Inst::Apply(n)) is Ok,
        callee.extra_args == 0,
        0 <= k,
        callee.stack.len() == s.stack.len() - n + 3 + k,
        callee.stack.subrange(0, s.stack.len() - n + 3)
            == step(code, s, Inst::Apply(n))->Ok_0.0.stack.subrange(0, s.stack.len() - n + 3),
    ensures
        step(code, callee, Inst::Return(k)) == Ok::<(State, Effect), Fault>((
            State {
                stack: below(s.stack, n as int),
                env: s.env,
                pc: s.pc + 1,
                accu: callee.accu,
                extra_args: s.extra_args,
            },
            Effect::Continue,
        )),
{
    let t = step(code, s, Inst::Apply(n))->Ok_0.0;
    let base = s.stack.len() - n;
    assert(t.stack[base] == Val::Env(s.env));
    assert(t.stack[base + 1] == Val::Int(s.pc + 1));
    assert(t.stack[base + 2] == Val::Int(s.extra_args));
    let st = below(callee.stack, k as int);
    assert(st =~= callee.stack.subrange(0, base + 3));
    assert(st[base] == t.stack[base]);
    assert(st[base + 1] == t.stack[base + 1]);
    assert(st[base + 2] == t.stack[base + 2]);
    assert(st.subrange(0, base) =~= below(s.stack, n as int));
}

/// The tail call that the peephole pass makes of `Apply(n); Return(k)`
/// enters the same code as the call: `AppTerm(n, k + n)` and `Apply(n)` jump
/// to the same line with the same environment and the same `n` arguments on
/// top of the stack; the tail call's surplus count adds the caller's own, and
/// its stack lacks the caller's `k` values and the frame that the call pushes.
pub proof fn law_fused_call_enters_like_the_call(code: Seq<Line>, s: State, n: i64, k: i64)
    requires
        0 <= k,
        step(code, s, Inst::Apply(n)) is Ok,
        step(code, s, Inst::AppTerm(n, (k + n) as i64)) is Ok,
        k + n <= i64::MAX,
    ensures
        ({
            let call = step(code, s, Inst::Apply(n))->Ok_0.0;
            let tail = step(code, s, Inst::AppTerm(n, (k + n) as i64))->Ok_0.0;
            &&& tail.pc == call.pc
            &&& tail.env == call.env
            &&& tail.accu == call.accu
            &&& tail.extra_args == s.extra_args + call.extra_args
            &&& tail.stack.subrange(tail.stack.len() - n, tail.stack.len() as int)
                == call.stack.subrange(call.stack.len() - n, call.stack.len() as int)
            &&& tail.stack.subrange(0, tail.stack.len() - n) == below(s.stack, k + n)
            &&& call.stack.len() == tail.stack.len() + k + 3
        }),
{
    let call = step(code, s, Inst::Apply(n))->Ok_0.0;
    let tail = step(code, s, Inst::AppTerm(n, (k + n) as i64))->Ok_0.0;
    assert(tail.stack.subrange(tail.stack.len() - n, tail.stack.len() as int) =~= top_n(s.stack, n as int));
    assert(call.stack.subrange(call.stack.len() - n, call.stack.len() as int) =~= top_n(s.stack, n as int));
    assert(tail.stack.subrange(0, tail.stack.len() - n) =~= below(s.stack, k + n));
}

/// A tail call `AppTerm(n, n)` with a closure in the accumulator and `n`
/// arguments on the stack always succeeds while the surplus count stays in
/// the range of the register, enters the closure, and leaves the stack
/// exactly as high as it was: a function that calls itself this way runs in
/// constant stack space whatever the depth of the recursion.
pub proof fn law_appterm_constant_stack(code: Seq<Line>, s: State, n: i64)
    requires
        s.accu is Clo,
        1 <= n <= s.stack.len(),
        s.extra_args + n - 1 <= usize::MAX,
    ensures
        step(code, s, Inst::AppTerm(n, n)) is Ok,
        ({
            let t = step(code, s, Inst::AppTerm(n, n))->Ok_0.0;
            &&& t.stack.len() == s.stack.len()
            &&& t.stack.subrange(0, s.stack.len() - n) == s.stack.subrange(0, s.stack.len() - n)
            &&& t.pc == s.accu->Clo_0
            &&& t.env == s.accu->Clo_1
            &&& t.extra_args == s.extra_args + n - 1
        }),
{
    let t = step(code, s, Inst::AppTerm(n, n))->Ok_0.0;
    assert(t.stack.subrange(0, s.stack.len() - n) =~= s.stack.subrange(0, s.stack.len() - n));
}

/// `Grab(n)` with at least `n` surplus arguments waiting enters the body
/// directly: the next line, with the surplus count reduced by `n` and the
/// stack, environment and accumulator untouched.
pub proof fn law_grab_enough(code: Seq<Line>, s: State, n: i64)
    requires
        0 <= n <= s.extra_args,
    ensures
        step(code, s, Inst::Grab(n)) == Ok::<(State, Effect), Fault>((
            State { pc: s.pc + 1, extra_args: s.extra_args - n, ..s },
            Effect::Continue,
        )),
{
}

/// A partial application re-entered: when `Grab(n)` finds a single argument
/// and no surplus (`extra_args` 0 below `n`), it returns to the caller a
/// closure that resumes one line earlier with that argument captured after
/// the environment `[x]`; when that closure is later entered with `m` surplus
/// arguments and its first line `Restart` runs, the captured argument is back
/// on top of the stack, the environment is `[x]` again, and the surplus count
/// is `m + 1`: the state a direct call with the argument on the stack has.
pub proof fn law_grab_partial_restart(code: Seq<Line>, s: State, n: i64, later: State)
    requires
        registers_fit(s),
        1 <= n,
        s.extra_args == 0,
        s.env.len() == 1,
        s.pc >= 1,
        step(code, s, Inst::Grab(n)) is Ok,
        later.env == step(code, s, Inst::Grab(n))->Ok_0.0.accu->Clo_1,
        0 <= later.extra_args < usize::MAX,
    ensures
        step(code, s, Inst::Grab(n))->Ok_0.0.accu == Val::Clo((s.pc - 1) as nat, s.env.push(s.stack.last())),
        step(code, later, Inst::Restart) == Ok::<(State, Effect), Fault>((
            next(State {
                stack: later.stack.push(s.stack.last()),
                env: s.env,
                extra_args: later.extra_args + 1,
                ..later
            }),
            Effect::Continue,
        )),
{
    let t = step(code, s, Inst::Grab(n))->Ok_0.0;
    assert(top_n(s.stack, 1) =~= seq![s.stack.last()]);
    assert(s.env + seq![s.stack.last()] =~= s.env.push(s.stack.last()));
    assert(later.env =~= s.env.push(s.stack.last()));
    assert(later.env.subrange(1, 2) =~= seq![s.stack.last()]);
    assert(later.stack + later.env.subrange(1, 2) =~= later.stack.push(s.stack.last()));
    assert(seq![later.env[0]] =~= s.env);
}

/// A block built by `Makeblock(n)` and read by `Getfield(k)`, `k < n`, gives
/// the value that was at argument position `k`: the accumulator for 0, and
/// the `k`-th value from the top of the stack otherwise.
pub proof fn law_makeblock_getfield(code: Seq<Line>, s: State, n: i64, k: i64)
    requires
        0 <= k < n,
        n - 1 <= s.stack.len(),
    ensures
        step(code, s, Inst::Makeblock(n)) is Ok,
        step(code, step(code, s, Inst::Makeblock(n))->Ok_0.0, Inst::Getfield(k)) is Ok,
        step(code, step(code, s, Inst::Makeblock(n))->Ok_0.0, Inst::Getfield(k))->Ok_0.0.accu
            == (if k == 0 { s.accu } else { s.stack[s.stack.len() - k] }),
{
    let t = step(code, s, Inst::Makeblock(n))->Ok_0.0;
    let b = seq![s.accu] + top_n(s.stack, n - 1);
    assert(t.accu == Val::Block(b));
    assert(resolve(t.accu, t.stack) == Ok::<Seq<Val>, Fault>(b));
    if k > 0 {
        assert(b[k as int] == top_n(s.stack, n - 1)[k - 1]);
    }
}

/// The instructions `Setfield(k)` for each `k` of `ks`, in order.
pub open spec fn setfields(ks: Seq<i64>) -> Seq<Inst> {
    Seq::new(ks.len(), |j: int| Inst::Setfield(ks[j]))
}

/// Runs the instructions `is` one after another from `s`, whatever the
/// program counter says: the state reached, or the first fault.
pub open spec fn run_insts(code: Seq<Line>, s: State, is: Seq<Inst>) -> Result<State, Fault>
    decreases is.len(),
{
    if is.len() == 0 {
        Ok(s)
    } else {
        match step(code, s, is[0]) {
            Ok((t, _)) => run_insts(code, t, is.drop_first()),
            Err(f) => Err(f),
        }
    }
}

/// The fields of block `c` after writing `vs[j]` into field `ks[j]`, in order.
pub open spec fn written(c: Seq<Val>, ks: Seq<i64>, vs: Seq<Val>) -> Seq<Val>
    decreases ks.len(),
{
    if ks.len() == 0 || vs.len() == 0 {
        c
    } else {
        let c1 = if 0 <= ks[0] < c.len() { c.update(ks[0] as int, vs[0]) } else { c };
        written(c1, ks.drop_first(), vs.drop_first())
    }
}

/// Whether every write of `ks` falls inside a block of `len` fields.
pub open spec fn in_fields(ks: Seq<i64>, len: int) -> bool {
    forall|j: int| 0 <= j < ks.len() ==> 0 <= #[trigger] ks[j] < len
}

/// `Push` of a block leaves the block in the new top slot and the
/// accumulator referring to that slot; a later `Acc(i)` that addresses the
/// slot yields the same reference.
pub proof fn law_push_block(code: Seq<Line>, s: State, b: Seq<Val>)
    requires
        s.accu == Val::Block(b),
    ensures
        step(code, s, Inst::Push) is Ok,
        step(code, s, Inst::Push)->Ok_0.0.accu == Val::Ref(s.stack.len()),
        step(code, s, Inst::Push)->Ok_0.0.stack[s.stack.len() as int] == Val::Block(b),
{
}

/// Writes through a reference are seen through the stack slot: from a state
/// whose accumulator refers to stack slot `slot`, which holds a block `c`,
/// with the values to write stacked above the slot, any sequence of
/// `Setfield(k)` leaves the accumulator referring to the slot and the slot
/// holding `c` with those writes made; a later `Acc(i)` that addresses the
/// slot yields the reference again, and `Getfield(j)` through it reads the
/// written fields.
pub proof fn law_setfields_observed(code: Seq<Line>, u: State, slot: nat, c: Seq<Val>, ks: Seq<i64>, i: u64, j: i64)
    requires
        u.accu == Val::Ref(slot),
        slot + ks.len() < u.stack.len(),
        u.stack[slot as int] == Val::Block(c),
        in_fields(ks, c.len() as int),
        u.stack.len() - ks.len() - 1 - i == slot,
        0 <= j < c.len(),
    ensures
        run_insts(code, u, setfields(ks)) is Ok,
        run_insts(code, u, setfields(ks))->Ok_0.accu == Val::Ref(slot),
        run_insts(code, u, setfields(ks))->Ok_0.stack[slot as int]
            == Val::Block(written(c, ks, top_n(u.stack, ks.len() as int))),
        step(code, run_insts(code, u, setfields(ks))->Ok_0, Inst::Acc(i)) is Ok,
        step(code, run_insts(code, u, setfields(ks))->Ok_0, Inst::Acc(i))->Ok_0.0.accu == Val::Ref(slot),
        field_of(Val::Ref(slot), j as int, run_insts(code, u, setfields(ks))->Ok_0.stack)
            == Ok::<Val, Fault>(written(c, ks, top_n(u.stack, ks.len() as int))[j as int]),
    decreases ks.len(),
{
    lemma_written_len(c, ks, top_n(u.stack, ks.len() as int));
    if ks.len() == 0 {
        assert(setfields(ks) =~= Seq::<Inst>::empty());
        let n = u.stack.len();
        assert(block_of(Val::Ref(slot), u.stack, n) == block_of(u.stack[slot as int], u.stack, (n - 1) as nat));
    } else {
        let v = u.stack.last();
        let c1 = c.update(ks[0] as int, v);
        let (t, e) = step(code, u, Inst::Setfield(ks[0]))->Ok_0;
        assert(setfields(ks)[0] == Inst::Setfield(ks[0]));
        assert(t.stack =~= u.stack.drop_last().update(slot as int, Val::Block(c1)));
        assert(setfields(ks).drop_first() =~= setfields(ks.drop_first()));
        assert(top_n(u.stack, ks.len() as int).drop_first() =~= top_n(t.stack, ks.len() - 1));
        assert(in_fields(ks.drop_first(), c1.len() as int));
        law_setfields_observed(code, t, slot, c1, ks.drop_first(), i, j);
    }
}

/// Writing never changes a block's number of fields.
pub proof fn lemma_written_len(c: Seq<Val>, ks: Seq<i64>, vs: Seq<Val>)
    ensures
        written(c, ks, vs).len() == c.len(),
    decreases ks.len(),
{
    if ks.len() > 0 && vs.len() > 0 {
        let c1 = if 0 <= ks[0] < c.len() { c.update(ks[0] as int, vs[0]) } else { c };
        lemma_written_len(c1, ks.drop_first(), vs.drop_first());
    }
}

} // verus!
