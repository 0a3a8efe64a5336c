use vstd::prelude::*;

verus! {

/// Why a step of the machine cannot be taken.
#[derive(Debug, Clone, Copy, PartialEq, Eq, Structural)]
pub enum Fault {
    /// A value was used at a type its tag does not support.
    TypeMismatch,
    /// A pop, or a read below the bottom, of a stack that is too short.
    StackUnderflow,
    /// A field, environment slot or stack slot outside its sequence.
    IndexOutOfBounds,
    /// A negative or otherwise impossible argument count.
    Arity,
    /// A branch or closure target that no line carries.
    BadLabel,
    /// A primitive name that the machine does not know.
    UnknownPrimitive,
    /// An integer division by zero.
    DivisionByZero,
    /// An integer result outside the machine's range.
    Overflow,
    /// The program counter is not the index of an instruction.
    PcOutOfRange,
}

/// A runtime value of the machine: integers, saved environments, mutable
/// blocks, references to a block that sits on the stack, and closures.
#[derive(Debug, PartialEq)]
pub enum Mlvalue {
    Entier(i64),
    Environement(Vec<Mlvalue>),
    Block(Vec<Mlvalue>),
    RefBlock(usize),
    Fermeture(usize, Vec<Mlvalue>),
}

/// The mathematical model of a runtime value.
pub enum Val {
    Int(int),
    Env(Seq<Val>),
    Block(Seq<Val>),
    Ref(nat),
    Clo(nat, Seq<Val>),
}

/// The model of a value.
pub open spec fn val_of(v: Mlvalue) -> Val
    decreases v, 0nat,
{
    match v {
        Mlvalue::Entier(n) => Val::Int(n as int),
        Mlvalue::Environement(e) => Val::Env(vals_of(e@, 0)),
        Mlvalue::Block(b) => Val::Block(vals_of(b@, 0)),
        Mlvalue::RefBlock(i) => Val::Ref(i as nat),
        Mlvalue::Fermeture(pc, e) => Val::Clo(pc as nat, vals_of(e@, 0)),
    }
}

/// The models of `s[from..]`.
pub open spec fn vals_of(s: Seq<Mlvalue>, from: nat) -> Seq<Val>
    decreases s, s.len() - from,
{
    if from >= s.len() {
        Seq::empty()
    } else {
        seq![val_of(s[from as int])] + vals_of(s, from + 1)
    }
}

/// The models of a whole sequence of values.
pub open spec fn vals(s: Seq<Mlvalue>) -> Seq<Val> {
    vals_of(s, 0)
}

proof fn lemma_vals_of(s: Seq<Mlvalue>, from: nat)
    requires
        from <= s.len(),
    ensures
        vals_of(s, from).len() == s.len() - from,
        forall|j: int| 0 <= j < s.len() - from ==> vals_of(s, from)[j] == val_of(s[from + j]),
    decreases s.len() - from,
{
    if from < s.len() {
        lemma_vals_of(s, from + 1);
    }
}

/// The models of a sequence, one by one.
pub broadcast proof fn lemma_vals(s: Seq<Mlvalue>)
    ensures
        #[trigger] vals(s).len() == s.len(),
        forall|j: int| 0 <= j < s.len() ==> #[trigger] vals(s)[j] == val_of(s[j]),
{
    lemma_vals_of(s, 0);
}

/// The block that `v` designates, following references into `stack` at most
/// `fuel` times.
pub open spec fn block_of(v: Val, stack: Seq<Val>, fuel: nat) -> Result<Seq<Val>, Fault>
    decreases fuel,
{
    match v {
        Val::Block(b) => Ok(b),
        Val::Ref(i) => {
            if i >= stack.len() {
                Err(Fault::IndexOutOfBounds)
            } else if fuel == 0 {
                Err(Fault::TypeMismatch)
            } else {
                block_of(stack[i as int], stack, (fuel - 1) as nat)
            }
        },
        _ => Err(Fault::TypeMismatch),
    }
}

/// The block that `v` designates: itself, or the one that its reference
/// chain into `stack` reaches. A chain longer than the stack is cyclic.
pub open spec fn resolve(v: Val, stack: Seq<Val>) -> Result<Seq<Val>, Fault> {
    block_of(v, stack, stack.len())
}

/// Field `n` of the block that `v` designates.
pub open spec fn field_of(v: Val, n: int, stack: Seq<Val>) -> Result<Val, Fault> {
    match resolve(v, stack) {
        Ok(b) => if 0 <= n < b.len() {
            Ok(b[n])
        } else {
            Err(Fault::IndexOutOfBounds)
        },
        Err(e) => Err(e),
    }
}

/// The accumulator and stack after writing `x` into field `n` of the block
/// that `v` designates: the block itself, or the block at stack slot `i`
/// when `v` is a reference to it.
pub open spec fn set_field_of(v: Val, n: int, x: Val, stack: Seq<Val>) -> Result<(Val, Seq<Val>), Fault> {
    match v {
        Val::Block(b) => if 0 <= n < b.len() {
            Ok((Val::Block(b.update(n, x)), stack))
        } else {
            Err(Fault::IndexOutOfBounds)
        },
        Val::Ref(i) => if i >= stack.len() {
            Err(Fault::IndexOutOfBounds)
        } else {
            match stack[i as int] {
                Val::Block(b) => if 0 <= n < b.len() {
                    Ok((v, stack.update(i as int, Val::Block(b.update(n, x)))))
                } else {
                    Err(Fault::IndexOutOfBounds)
                },
                _ => Err(Fault::TypeMismatch),
            }
        },
        _ => Err(Fault::TypeMismatch),
    }
}

/// The integer of a value.
pub open spec fn int_of(v: Val) -> Result<int, Fault> {
    match v {
        Val::Int(n) => Ok(n),
        _ => Err(Fault::TypeMismatch),
    }
}

/// The truth value of an integer that is 0 or 1.
pub open spec fn bool_of(v: Val) -> Result<bool, Fault> {
    match v {
        Val::Int(n) => if n == 1 {
            Ok(true)
        } else if n == 0 {
            Ok(false)
        } else {
            Err(Fault::TypeMismatch)
        },
        _ => Err(Fault::TypeMismatch),
    }
}

/// The environment held by a saved frame slot; an integer stands for the
/// environment that holds it alone.
pub open spec fn env_of(v: Val) -> Result<Seq<Val>, Fault> {
    match v {
        Val::Int(n) => Ok(seq![Val::Int(n)]),
        Val::Env(e) => Ok(e),
        _ => Err(Fault::TypeMismatch),
    }
}

/// The integer that stands for a truth value.
pub open spec fn int_of_bool(b: bool) -> int {
    if b {
        1
    } else {
        0
    }
}

/// A copy of a whole sequence of values.
pub fn duplicate_all(v: &Vec<Mlvalue>) -> (r: Vec<Mlvalue>)
    ensures
        vals(r@) == vals(v@),
    decreases v, 1nat,
{
    broadcast use lemma_vals;
    let mut r: Vec<Mlvalue> = Vec::with_capacity(v.len());
    let mut i: usize = 0;
    while i < v.len()
        invariant
            i <= v.len(),
            r@.len() == i,
            forall|j: int| 0 <= j < i ==> val_of(#[trigger] r@[j]) == val_of(v@[j]),
        decreases v.len() - i,
    {
        proof {
            vstd::std_specs::vec::axiom_vec_index_decreases(*v, i as int);
        }
        let x = v[i].duplicate();
        r.push(x);
        i = i + 1;
    }
    assert(vals(r@) =~= vals(v@));
    r
}

impl Mlvalue {
    /// A copy of this value.
    pub fn duplicate(&self) -> (r: Mlvalue)
        ensures
            val_of(r) == val_of(*self),
        decreases *self, 0nat,
    {
        match self {
            Mlvalue::Entier(n) => Mlvalue::Entier(*n),
            Mlvalue::Environement(e) => Mlvalue::Environement(duplicate_all(e)),
            Mlvalue::Block(b) => Mlvalue::Block(duplicate_all(b)),
            Mlvalue::RefBlock(i) => Mlvalue::RefBlock(*i),
            Mlvalue::Fermeture(pc, e) => Mlvalue::Fermeture(*pc, duplicate_all(e)),
        }
    }

    /// The integer this value holds, or a type mismatch when it holds none.
    pub fn try_int(&self) -> (r: Result<i64, Fault>)
        ensures
            match r {
                Ok(n) => int_of(val_of(*self)) == Ok::<int, Fault>(n as int),
                Err(e) => int_of(val_of(*self)) == Err::<int, Fault>(e),
            },
    {
        match self {
            Mlvalue::Entier(n) => Ok(*n),
            _ => Err(Fault::TypeMismatch),
        }
    }

    /// The truth value of an integer that is 1 (true) or 0 (false), or a
    /// type mismatch for any other value.
    pub fn try_bool(&self) -> (r: Result<bool, Fault>)
        ensures
            r == bool_of(val_of(*self)),
    {
        match self {
            Mlvalue::Entier(1) => Ok(true),
            Mlvalue::Entier(0) => Ok(false),
            _ => Err(Fault::TypeMismatch),
        }
    }

    /// A copy of field `n` of the block this value designates, following
    /// references into `stack`, or why there is none.
    pub fn try_getfield(&self, n: usize, stack: &Vec<Mlvalue>) -> (r: Result<Mlvalue, Fault>)
        ensures
            match r {
                Ok(x) => field_of(val_of(*self), n as int, vals(stack@)) == Ok::<Val, Fault>(val_of(x)),
                Err(e) => field_of(val_of(*self), n as int, vals(stack@)) == Err::<Val, Fault>(e),
            },
    {
        broadcast use lemma_vals;
        let b = self.block_in(stack);
        match b {
            Ok(b) => {
                if n < b.len() {
                    Ok(b[n].duplicate())
                } else {
                    Err(Fault::IndexOutOfBounds)
                }
            },
            Err(e) => Err(e),
        }
    }

    /// The fields of the block this value designates, following references
    /// into `stack`.
    fn block_in<'a>(&'a self, stack: &'a Vec<Mlvalue>) -> (r: Result<&'a Vec<Mlvalue>, Fault>)
        ensures
            match r {
                Ok(b) => resolve(val_of(*self), vals(stack@)) == Ok::<Seq<Val>, Fault>(vals(b@)),
                Err(e) => resolve(val_of(*self), vals(stack@)) == Err::<Seq<Val>, Fault>(e),
            },
    {
        proof {
            lemma_vals(stack@);
        }
        let mut cur: &Mlvalue = self;
        let mut fuel: usize = stack.len();
        loop
            invariant
                fuel <= stack.len(),
                block_of(val_of(*cur), vals(stack@), fuel as nat) == resolve(val_of(*self), vals(stack@)),
            decreases fuel,
        {
            proof {
                lemma_vals(stack@);
            }
            match cur {
                Mlvalue::Block(b) => {
                    assert(val_of(*cur) == Val::Block(vals(b@)));
                    return Ok(b);
                },
                Mlvalue::RefBlock(i) => {
                    if *i >= stack.len() {
                        return Err(Fault::IndexOutOfBounds);
                    }
                    if fuel == 0 {
                        return Err(Fault::TypeMismatch);
                    }
                    assert(val_of(*cur) == Val::Ref(*i as nat));
                    assert(vals(stack@)[*i as int] == val_of(stack@[*i as int]));
                    cur = &stack[*i];
                    fuel = fuel - 1;
                },
                _ => {
                    return Err(Fault::TypeMismatch);
                },
            }
        }
    }

    /// Writes `val` into field `n` of this value, which is a block.
    fn set_own_field(&mut self, n: usize, val: Mlvalue) -> (r: Result<(), Fault>)
        ensures
            match val_of(*old(self)) {
                Val::Block(b) => if n < b.len() {
                    r is Ok && val_of(*final(self)) == Val::Block(b.update(n as int, val_of(val)))
                } else {
                    r == Err::<(), Fault>(Fault::IndexOutOfBounds) && *final(self) == *old(self)
                },
                _ => r == Err::<(), Fault>(Fault::TypeMismatch) && *final(self) == *old(self),
            },
            *old(self) is Block ==> *final(self) is Block,
    {
        broadcast use lemma_vals;
        let mut taken = Mlvalue::Entier(0);
        std::mem::swap(self, &mut taken);
        match taken {
            Mlvalue::Block(mut b) => {
                if n < b.len() {
                    let ghost b0 = b@;
                    let ghost v0 = val_of(val);
                    b.set(n, val);
                    proof {
                        lemma_vals(b0);
                        lemma_vals(b@);
                    }
                    assert(vals(b@) =~= vals(b0).update(n as int, v0));
                    *self = Mlvalue::Block(b);
                    Ok(())
                } else {
                    proof {
                        lemma_vals(b@);
                    }
                    *self = Mlvalue::Block(b);
                    Err(Fault::IndexOutOfBounds)
                }
            },
            other => {
                *self = other;
                Err(Fault::TypeMismatch)
            },
        }
    }

    /// Writes `val` into field `n` of the block this value designates: the
    /// block itself, or the block in the stack slot it refers to; or, with
    /// nothing changed, why it cannot be written.
    pub fn try_setfield(&mut self, n: usize, val: Mlvalue, stack: &mut Vec<Mlvalue>) -> (r: Result<(), Fault>)
        ensures
            match set_field_of(val_of(*old(self)), n as int, val_of(val), vals(old(stack)@)) {
                Ok(p) => r is Ok && val_of(*final(self)) == p.0 && vals(final(stack)@) == p.1,
                Err(e) => r == Err::<(), Fault>(e) && *final(self) == *old(self) && final(stack)@ == old(stack)@,
            },
    {
        broadcast use lemma_vals;
        match self {
            Mlvalue::Block(_) => {
                let r = self.set_own_field(n, val);
                assert(stack@ =~= old(stack)@);
                r
            },
            Mlvalue::RefBlock(i) => {
                let i = *i;
                if i >= stack.len() {
                    return Err(Fault::IndexOutOfBounds);
                }
                let ghost s0 = stack@;
                let r = stack[i].set_own_field(n, val);
                proof {
                    lemma_vals(s0);
                    lemma_vals(stack@);
                    if r is Ok {
                        assert(stack@ == s0.update(i as int, stack@[i as int]));
                        assert(vals(stack@) =~= vals(s0).update(i as int, val_of(stack@[i as int])));
                    } else {
                        assert(stack@ =~= s0);
                    }
                }
                r
            },
            _ => Err(Fault::TypeMismatch),
        }
    }

    /// The number of fields of the block this value designates, following
    /// references into `stack`, or why this value designates no block.
    pub fn try_veclen(&self, stack: &Vec<Mlvalue>) -> (r: Result<usize, Fault>)
        ensures
            match r {
                Ok(n) => resolve(val_of(*self), vals(stack@)) is Ok
                    && resolve(val_of(*self), vals(stack@))->Ok_0.len() == n,
                Err(e) => resolve(val_of(*self), vals(stack@)) == Err::<Seq<Val>, Fault>(e),
            },
    {
        broadcast use lemma_vals;
        match self.block_in(stack) {
            Ok(b) => Ok(b.len()),
            Err(e) => Err(e),
        }
    }

    /// A copy of the environment that a saved frame slot holds, or a type
    /// mismatch when it holds none.
    pub fn try_env(&self) -> (r: Result<Vec<Mlvalue>, Fault>)
        ensures
            match r {
                Ok(e) => env_of(val_of(*self)) == Ok::<Seq<Val>, Fault>(vals(e@)),
                Err(f) => env_of(val_of(*self)) == Err::<Seq<Val>, Fault>(f),
            },
    {
        broadcast use lemma_vals;
        match self {
            Mlvalue::Entier(x) => {
                let r = vec![Mlvalue::Entier(*x)];
                assert(vals(r@) =~= seq![Val::Int(*x as int)]);
                Ok(r)
            },
            Mlvalue::Environement(env) => Ok(duplicate_all(env)),
            _ => Err(Fault::TypeMismatch),
        }
    }

    /// The integer this value holds.
    pub fn as_int(&self) -> (r: i64)
        requires
            *self is Entier,
        ensures
            r == self->Entier_0,
    {
        match self {
            Mlvalue::Entier(n) => *n,
            _ => 0,
        }
    }

    /// The truth value of an integer that is 1 (true) or 0 (false).
    pub fn as_bool(&self) -> (r: bool)
        requires
            bool_of(val_of(*self)) is Ok,
        ensures
            r == bool_of(val_of(*self))->Ok_0,
    {
        match self.try_bool() {
            Ok(b) => b,
            Err(_) => false,
        }
    }

    /// A copy of field `n` of the block this value designates, following
    /// references into `stack`.
    pub fn getfield(&self, n: usize, stack: &Vec<Mlvalue>) -> (r: Mlvalue)
        requires
            field_of(val_of(*self), n as int, vals(stack@)) is Ok,
        ensures
            val_of(r) == field_of(val_of(*self), n as int, vals(stack@))->Ok_0,
    {
        match self.try_getfield(n, stack) {
            Ok(v) => v,
            Err(_) => Mlvalue::Entier(0),
        }
    }

    /// Writes `val` into field `n` of the block this value designates: the
    /// block itself, or the block in the stack slot it refers to.
    pub fn setfield(&mut self, n: usize, val: Mlvalue, stack: &mut Vec<Mlvalue>)
        requires
            set_field_of(val_of(*old(self)), n as int, val_of(val), vals(old(stack)@)) is Ok,
        ensures
            val_of(*final(self)) == set_field_of(val_of(*old(self)), n as int, val_of(val), vals(old(stack)@))->Ok_0.0,
            vals(final(stack)@) == set_field_of(val_of(*old(self)), n as int, val_of(val), vals(old(stack)@))->Ok_0.1,
    {
        let _ = self.try_setfield(n, val, stack);
    }

    /// The number of fields of the block this value designates, following
    /// references into `stack`.
    pub fn veclen(&self, stack: &Vec<Mlvalue>) -> (r: usize)
        requires
            resolve(val_of(*self), vals(stack@)) is Ok,
        ensures
            r == resolve(val_of(*self), vals(stack@))->Ok_0.len(),
    {
        match self.try_veclen(stack) {
            Ok(k) => k,
            Err(_) => 0,
        }
    }

    /// A copy of the environment that a saved frame slot holds.
    pub fn as_env(&self) -> (r: Vec<Mlvalue>)
        requires
            env_of(val_of(*self)) is Ok,
        ensures
            vals(r@) == env_of(val_of(*self))->Ok_0,
    {
        match self.try_env() {
            Ok(e) => e,
            Err(_) => Vec::new(),
        }
    }

    /// The integer that stands for a truth value: 1 for true, 0 for false.
    pub fn to_entier(value: bool) -> (r: Mlvalue)
        ensures
            r == Mlvalue::Entier(if value { 1 } else { 0 }),
    {
        if value {
            Mlvalue::Entier(1)
        } else {
            Mlvalue::Entier(0)
        }
    }
}

} // verus!
