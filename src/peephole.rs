use vstd::prelude::*;

use crate::machine::{duplicate_line, Inst, Line};

verus! {

/// Whether instruction `i` names label `l` as a branch or closure target.
pub open spec fn refers_to(i: Inst, l: Seq<char>) -> bool {
    match i {
        Inst::Branch(x) => x@ == l,
        Inst::BranchIfNot(x) => x@ == l,
        Inst::Closure(x, _) => x@ == l,
        Inst::ClosureRec(x, _) => x@ == l,
        _ => false,
    }
}

/// Whether some instruction of `code` targets label `l`.
pub open spec fn is_target(code: Seq<Line>, l: Seq<char>) -> bool {
    exists|i: int| 0 <= i < code.len() && refers_to(#[trigger] code[i].1, l)
}

/// Whether lines `a` and `b` of program `whole` fuse into one tail call: an
/// `Apply(n)` followed by a `Return(k)` whose label, if any, nothing in the
/// program targets, with `k + n` in range.
pub open spec fn fusible(whole: Seq<Line>, a: Line, b: Line) -> bool {
    match (a.1, b.1) {
        (Inst::Apply(n), Inst::Return(k)) => {
            &&& (b.0 is None || !is_target(whole, b.0->Some_0@))
            &&& i64::MIN <= k + n <= i64::MAX
        },
        _ => false,
    }
}

/// The tail call that fusible lines `a` and `b` become: `AppTerm(n, k + n)`
/// with the label of `a`; the label of `b` is dropped.
pub open spec fn fused(a: Line, b: Line) -> Line {
    match (a.1, b.1) {
        (Inst::Apply(n), Inst::Return(k)) => (a.0, Inst::AppTerm(n, (k + n) as i64)),
        _ => a,
    }
}

/// The lines `code` of program `whole` with each fusible pair of adjacent
/// lines, taken from the start, replaced by its tail call; every other line
/// as it was.
pub open spec fn fuse(whole: Seq<Line>, code: Seq<Line>) -> Seq<Line>
    decreases code.len(),
{
    if code.len() == 0 {
        seq![]
    } else if code.len() >= 2 && fusible(whole, code[0], code[1]) {
        seq![fused(code[0], code[1])] + fuse(whole, code.subrange(2, code.len() as int))
    } else {
        seq![code[0]] + fuse(whole, code.subrange(1, code.len() as int))
    }
}

/// Whether some instruction of `code` targets label `l`.
fn targeted(code: &Vec<Line>, l: &String) -> (r: bool)
    ensures
        r == is_target(code@, l@),
{
    let mut i: usize = 0;
    while i < code.len()
        invariant
            i <= code@.len(),
            forall|j: int| 0 <= j < i ==> !refers_to(#[trigger] code@[j].1, l@),
        decreases code.len() - i,
    {
        let hit = match &code[i].1 {
            Inst::Branch(x) => *x == *l,
            Inst::BranchIfNot(x) => *x == *l,
            Inst::Closure(x, _) => *x == *l,
            Inst::ClosureRec(x, _) => *x == *l,
            _ => false,
        };
        if hit {
            return true;
        }
        i = i + 1;
    }
    false
}

/// Fusing never lengthens a program.
pub proof fn lemma_fuse_len(whole: Seq<Line>, code: Seq<Line>)
    ensures
        fuse(whole, code).len() <= code.len(),
    decreases code.len(),
{
    if code.len() >= 2 && fusible(whole, code[0], code[1]) {
        lemma_fuse_len(whole, code.subrange(2, code.len() as int));
    } else if code.len() > 0 {
        lemma_fuse_len(whole, code.subrange(1, code.len() as int));
    }
}

/// The peephole pass: each `Apply(n)` directly followed by `Return(k)` becomes
/// the tail call `AppTerm(n, k + n)`, which runs without pushing a frame. The
/// fused line keeps the label of the `Apply` and drops that of the `Return`;
/// a pair whose `Return` carries a label that a branch or closure targets
/// is left alone, as that target would otherwise vanish.
pub fn trans_appterm(code: &Vec<Line>) -> (r: Vec<Line>)
    ensures
        r@ == fuse(code@, code@),
        r@.len() <= code@.len(),
{
    let mut prog: Vec<Line> = Vec::with_capacity(code.len());
    let mut i: usize = 0;
    assert(code@.subrange(0, code@.len() as int) =~= code@);
    assert(prog@ + fuse(code@, code@) =~= fuse(code@, code@));
    while i < code.len()
        invariant
            i <= code@.len(),
            prog@ + fuse(code@, code@.subrange(i as int, code@.len() as int)) == fuse(code@, code@),
        decreases code.len() - i,
    {
        let ghost rest = code@.subrange(i as int, code@.len() as int);
        let mut step: usize = 1;
        let mut line = duplicate_line(&code[i]);
        if i + 1 < code.len() {
            if let Inst::Apply(n) = &code[i].1 {
                if let Inst::Return(k) = &code[i + 1].1 {
                    let free = match &code[i + 1].0 {
                        None => true,
                        Some(l) => !targeted(code, l),
                    };
                    if free {
                        if let Some(m) = k.checked_add(*n) {
                            line = (line.0, Inst::AppTerm(*n, m));
                            step = 2;
                        }
                    }
                }
            }
        }
        proof {
            assert(rest[0] == code@[i as int]);
            if i + 1 < code@.len() {
                assert(rest[1] == code@[i + 1]);
            }
            assert(rest.subrange(step as int, rest.len() as int) =~= code@.subrange(i + step, code@.len() as int));
            assert(prog@.push(line) + fuse(code@, code@.subrange(i + step, code@.len() as int)) =~= prog@ + fuse(code@, rest));
        }
        prog.push(line);
        i = i + step;
    }
    proof {
        assert(code@.subrange(i as int, code@.len() as int) =~= seq![]);
        assert(prog@ =~= prog@ + fuse(code@, seq![]));
        lemma_fuse_len(code@, code@);
    }
    prog
}

} // verus!
