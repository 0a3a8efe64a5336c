use vstd::prelude::*;

use crate::machine::{Inst, Line};

verus! {

/// Why a line of a listing cannot be read.
#[derive(Debug, Clone, Copy, PartialEq, Eq, Structural)]
pub enum ParseError {
    /// The line holds no opcode.
    MissingOpcode,
    /// The opcode is not one the machine knows.
    UnknownOpcode,
    /// An instruction that takes an operand has none.
    MissingOperand,
    /// A numeric operand is not a decimal integer in range.
    BadNumber,
    /// A composite operand lacks its comma.
    MissingComma,
}

/// A blank: a character that Unicode counts as white space (tab, line feed,
/// vertical tab, form feed, carriage return, space, next line, no-break
/// space, and the spaces and separators from U+1680 to U+3000).
pub open spec fn is_blank(c: char) -> bool {
    let u = c as u32;
    (9 <= u <= 13) || u == 32 || u == 0x85 || u == 0xA0 || u == 0x1680 || (0x2000 <= u <= 0x200A)
        || u == 0x2028 || u == 0x2029 || u == 0x202F || u == 0x205F || u == 0x3000
}

/// Whether `c` is a blank.
fn blank(c: char) -> (r: bool)
    ensures
        r == is_blank(c),
{
    let u = c as u32;
    (9 <= u && u <= 13) || u == 32 || u == 0x85 || u == 0xA0 || u == 0x1680 || (0x2000 <= u && u <= 0x200A)
        || u == 0x2028 || u == 0x2029 || u == 0x202F || u == 0x205F || u == 0x3000
}

/// The length of the run of non-blank characters that starts `s`.
pub open spec fn word_len(s: Seq<char>) -> nat
    decreases s.len(),
{
    if s.len() == 0 || is_blank(s[0]) {
        0
    } else {
        1 + word_len(s.drop_first())
    }
}

/// The words of `s`: its maximal runs of non-blank characters, in order.
pub open spec fn words(s: Seq<char>) -> Seq<Seq<char>>
    decreases s.len(),
{
    if s.len() == 0 {
        seq![]
    } else if is_blank(s[0]) {
        words(s.drop_first())
    } else {
        let w = word_len(s);
        if w == 0 || w > s.len() {
            seq![]
        } else {
            seq![s.take(w as int)] + words(s.skip(w as int))
        }
    }
}

proof fn lemma_word_len_bound(s: Seq<char>)
    ensures
        word_len(s) <= s.len(),
        s.len() > 0 && !is_blank(s[0]) ==> word_len(s) > 0,
    decreases s.len(),
{
    if s.len() > 0 && !is_blank(s[0]) {
        lemma_word_len_bound(s.drop_first());
    }
}

/// Whether `a` and `b` hold the same characters.
fn same_text(a: &str, b: &str) -> (r: bool)
    ensures
        r == (a@ == b@),
{
    let n = a.unicode_len();
    if n != b.unicode_len() {
        return false;
    }
    let mut i: usize = 0;
    while i < n
        invariant
            n == a@.len() == b@.len(),
            i <= n,
            forall|j: int| 0 <= j < i ==> a@[j] == b@[j],
        decreases n - i,
    {
        if a.get_char(i) != b.get_char(i) {
            return false;
        }
        i = i + 1;
    }
    assert(a@ =~= b@);
    true
}

/// The bounds of the words of `s`, as pairs of character indices.
fn word_bounds(s: &str) -> (r: Vec<(usize, usize)>)
    ensures
        r@.len() == words(s@).len(),
        forall|k: int| 0 <= k < r@.len() ==> {
            &&& (#[trigger] r@[k]).0 < r@[k].1 <= s@.len()
            &&& s@.subrange(r@[k].0 as int, r@[k].1 as int) == words(s@)[k]
        },
{
    let n = s.unicode_len();
    let mut r: Vec<(usize, usize)> = Vec::new();
    let mut i: usize = 0;
    assert(s@.skip(0) =~= s@);
    assert(Seq::new(r@.len(), |k: int| s@.subrange(r@[k].0 as int, r@[k].1 as int)) + words(s@) =~= words(s@));
    while i < n
        invariant
            n == s@.len(),
            i <= n,
            words(s@) == Seq::new(r@.len(), |k: int| s@.subrange(r@[k].0 as int, r@[k].1 as int)) + words(s@.skip(i as int)),
            forall|k: int| 0 <= k < r@.len() ==> (#[trigger] r@[k]).0 < r@[k].1 <= i,
        decreases n - i,
    {
        let ghost rest = s@.skip(i as int);
        if blank(s.get_char(i)) {
            assert(rest.drop_first() =~= s@.skip(i + 1));
            assert(forall|k: int| 0 <= k < r@.len() ==> (#[trigger] r@[k]).0 < r@[k].1 <= i + 1);
            i = i + 1;
        } else {
            let mut j: usize = i + 1;
            proof {
                assert(rest.drop_first() =~= s@.skip(i + 1));
            }
            while j < n && !blank(s.get_char(j))
                invariant
                    n == s@.len(),
                    i < j <= n,
                    rest == s@.skip(i as int),
                    words(s@) == Seq::new(r@.len(), |k: int| s@.subrange(r@[k].0 as int, r@[k].1 as int)) + words(rest),
                    forall|k: int| 0 <= k < r@.len() ==> (#[trigger] r@[k]).0 < r@[k].1 <= i,
                    word_len(rest) == (j - i) + word_len(s@.skip(j as int)),
                decreases n - j,
            {
                assert(s@.skip(j as int).drop_first() =~= s@.skip(j + 1));
                j = j + 1;
            }
            proof {
                lemma_word_len_bound(rest);
                assert(word_len(s@.skip(j as int)) == 0);
                assert(rest.take((j - i) as int) =~= s@.subrange(i as int, j as int));
                assert(rest.skip((j - i) as int) =~= s@.skip(j as int));
            }
            let ghost r0 = r@;
            assert(forall|k: int| 0 <= k < r0.len() ==> (#[trigger] r0[k]).0 < r0[k].1 <= i);
            r.push((i, j));
            assert forall|k: int| 0 <= k < r@.len() implies (#[trigger] r@[k]).0 < r@[k].1 <= j by {
                if k < r0.len() {
                    assert(r@[k] == r0[k]);
                    assert(r0[k].0 < r0[k].1 <= i);
                } else {
                    assert(r@[k] == (i, j));
                }
            }
            assert(Seq::new(r@.len(), |k: int| s@.subrange(r@[k].0 as int, r@[k].1 as int)) =~= Seq::new(
                r0.len(),
                |k: int| s@.subrange(r0[k].0 as int, r0[k].1 as int),
            ).push(s@.subrange(i as int, j as int)));
            i = j;
        }
    }
    proof {
        assert(s@.skip(i as int) =~= seq![]);
        let found = Seq::new(r@.len(), |k: int| s@.subrange(r@[k].0 as int, r@[k].1 as int));
        assert(found + words(seq![]) =~= found);
    }
    r
}

/// Whether `c` is a decimal digit.
pub open spec fn is_digit(c: char) -> bool {
    48 <= (c as u32) <= 57
}

/// The value of a decimal digit.
pub open spec fn digit_value(c: char) -> int {
    (c as u32) as int - 48
}

/// The value of a run of decimal digits.
pub open spec fn digits_value(t: Seq<char>) -> int
    decreases t.len(),
{
    if t.len() == 0 {
        0
    } else {
        digits_value(t.drop_last()) * 10 + digit_value(t.last())
    }
}

/// Whether `t` is a non-empty run of decimal digits.
pub open spec fn is_numeral(t: Seq<char>) -> bool {
    t.len() > 0 && forall|j: int| 0 <= j < t.len() ==> is_digit(#[trigger] t[j])
}

/// The integer that a decimal text denotes: an optional `-` or `+`, then
/// digits.
pub open spec fn int_text(t: Seq<char>) -> Option<int> {
    if t.len() > 0 && (t[0] == '-' || t[0] == '+') {
        if is_numeral(t.drop_first()) {
            Some(if t[0] == '-' { -digits_value(t.drop_first()) } else { digits_value(t.drop_first()) })
        } else {
            None
        }
    } else if is_numeral(t) {
        Some(digits_value(t))
    } else {
        None
    }
}

/// The `i64` that a text denotes, if it denotes one in range.
pub open spec fn i64_text(t: Seq<char>) -> Option<i64> {
    match int_text(t) {
        Some(v) => if i64::MIN <= v <= i64::MAX {
            Some(v as i64)
        } else {
            None
        },
        None => None,
    }
}

/// The `u64` that a text without a minus sign denotes, if in range.
pub open spec fn u64_text(t: Seq<char>) -> Option<u64> {
    if t.len() > 0 && t[0] == '-' {
        None
    } else {
        match int_text(t) {
            Some(v) => if 0 <= v <= u64::MAX {
                Some(v as u64)
            } else {
                None
            },
            None => None,
        }
    }
}

proof fn lemma_digits_value_grows(t: Seq<char>, k: int)
    requires
        0 <= k <= t.len(),
        forall|j: int| 0 <= j < t.len() ==> is_digit(#[trigger] t[j]),
    ensures
        0 <= digits_value(t.take(k)) <= digits_value(t),
    decreases t.len(),
{
    if t.len() > 0 {
        if k == t.len() {
            assert(t.take(k) =~= t);
        } else {
            assert(t.drop_last().take(k) =~= t.take(k));
        }
        lemma_digits_value_grows(t.drop_last(), if k == t.len() { k - 1 } else { k });
        assert(t.drop_last().take(t.len() - 1) =~= t.drop_last());
    } else {
        assert(t.take(k) =~= t);
    }
}

proof fn lemma_numeral_nonneg(t: Seq<char>)
    ensures
        is_numeral(t) ==> digits_value(t) >= 0,
{
    if is_numeral(t) {
        lemma_digits_value_grows(t, t.len() as int);
        assert(t.take(t.len() as int) =~= t);
    }
}

/// The value of the digits of `t` from index `from` on, when they are all
/// digits, at least one, and the value is at most `limit`.
fn magnitude(t: &str, from: usize, limit: u64) -> (r: Option<u64>)
    requires
        from <= t@.len(),
    ensures
        r == (if is_numeral(t@.skip(from as int)) && digits_value(t@.skip(from as int)) <= limit {
            Some(digits_value(t@.skip(from as int)) as u64)
        } else {
            None
        }),
{
    let n = t.unicode_len();
    if from >= n {
        return None;
    }
    let ghost d = t@.skip(from as int);
    let mut acc: u64 = 0;
    let mut i: usize = from;
    while i < n
        invariant
            n == t@.len(),
            from <= i <= n,
            d == t@.skip(from as int),
            forall|j: int| from <= j < i ==> is_digit(#[trigger] t@[j]),
            acc as int == digits_value(t@.subrange(from as int, i as int)),
            acc <= limit,
        decreases n - i,
    {
        let c = t.get_char(i);
        if !(c >= '0' && c <= '9') {
            assert(d[i - from] == c);
            return None;
        }
        let next: u128 = acc as u128 * 10 + (c as u32 - 48) as u128;
        proof {
            let p = t@.subrange(from as int, i + 1);
            assert(p.drop_last() =~= t@.subrange(from as int, i as int));
            assert(p.last() == c);
            assert(next == digits_value(p));
        }
        if next > limit as u128 {
            proof {
                let p = t@.subrange(from as int, i + 1);
                if is_numeral(d) {
                    lemma_digits_value_grows(d, i + 1 - from);
                    assert(d.take(i + 1 - from) =~= p);
                }
            }
            return None;
        }
        acc = next as u64;
        i = i + 1;
    }
    assert(t@.subrange(from as int, n as int) =~= d);
    Some(acc)
}

/// The `i64` that `t` denotes.
fn parse_i64(t: &str) -> (r: Option<i64>)
    ensures
        r == i64_text(t@),
{
    let n = t.unicode_len();
    if n > 0 && (t.get_char(0) == '-' || t.get_char(0) == '+') {
        let neg = t.get_char(0) == '-';
        assert(t@.skip(1) =~= t@.drop_first());
        proof {
            lemma_numeral_nonneg(t@.drop_first());
        }
        let limit: u64 = if neg { 9223372036854775808 } else { 9223372036854775807 };
        match magnitude(t, 1, limit) {
            None => None,
            Some(m) => {
                if neg {
                    Some((0 - (m as i128)) as i64)
                } else {
                    Some(m as i64)
                }
            },
        }
    } else {
        assert(t@.skip(0) =~= t@);
        proof {
            lemma_numeral_nonneg(t@);
        }
        match magnitude(t, 0, 9223372036854775807) {
            None => None,
            Some(m) => Some(m as i64),
        }
    }
}

/// The `u64` that `t` denotes.
fn parse_u64(t: &str) -> (r: Option<u64>)
    ensures
        r == u64_text(t@),
{
    let n = t.unicode_len();
    if n > 0 && t.get_char(0) == '-' {
        None
    } else if n > 0 && t.get_char(0) == '+' {
        assert(t@.skip(1) =~= t@.drop_first());
        proof {
            lemma_numeral_nonneg(t@.drop_first());
        }
        magnitude(t, 1, u64::MAX)
    } else {
        assert(t@.skip(0) =~= t@);
        proof {
            lemma_numeral_nonneg(t@);
        }
        magnitude(t, 0, u64::MAX)
    }
}

/// The index of the first comma of `t`, or its length when it has none.
pub open spec fn comma_index(t: Seq<char>) -> int
    decreases t.len(),
{
    if t.len() == 0 || t[0] == ',' {
        0
    } else {
        1 + comma_index(t.drop_first())
    }
}

/// The text before the first comma.
pub open spec fn first_part(t: Seq<char>) -> Seq<char> {
    t.take(comma_index(t))
}

/// The text between the first comma and the next one (or the end).
pub open spec fn second_part(t: Seq<char>) -> Seq<char> {
    first_part(t.skip(comma_index(t) + 1))
}

proof fn lemma_comma_index(t: Seq<char>)
    ensures
        0 <= comma_index(t) <= t.len(),
        comma_index(t) < t.len() ==> t[comma_index(t)] == ',',
        forall|j: int| 0 <= j < comma_index(t) ==> t[j] != ',',
    decreases t.len(),
{
    if t.len() > 0 && t[0] != ',' {
        lemma_comma_index(t.drop_first());
        assert forall|j: int| 0 <= j < comma_index(t) implies t[j] != ',' by {
            if j > 0 {
                assert(t[j] == t.drop_first()[j - 1]);
            }
        }
    }
}

/// The index of the first comma of `t`, or its length.
fn comma_at(t: &str) -> (r: usize)
    ensures
        r == comma_index(t@),
        r <= t@.len(),
{
    let n = t.unicode_len();
    let mut i: usize = 0;
    assert(t@.skip(0) =~= t@);
    while i < n
        invariant
            n == t@.len(),
            i <= n,
            comma_index(t@) == i + comma_index(t@.skip(i as int)),
        decreases n - i,
    {
        if t.get_char(i) == ',' {
            return i;
        }
        assert(t@.skip(i as int).drop_first() =~= t@.skip(i + 1));
        i = i + 1;
    }
    i
}

/// The two comma-separated parts of `t`, when it has a comma.
fn split_pair(t: &str) -> (r: Option<(&str, &str)>)
    ensures
        match r {
            Some((a, b)) => comma_index(t@) < t@.len() && a@ == first_part(t@) && b@ == second_part(t@),
            None => comma_index(t@) == t@.len(),
        },
{
    let n = t.unicode_len();
    let c = comma_at(t);
    proof {
        lemma_comma_index(t@);
    }
    if c == n {
        return None;
    }
    let first = t.substring_char(0, c);
    let rest = t.substring_char(c + 1, n);
    let c2 = comma_at(rest);
    let second = rest.substring_char(0, c2);
    assert(rest@ =~= t@.skip(c + 1));
    assert(first@ =~= first_part(t@));
    assert(second@ =~= second_part(t@));
    Some((first, second))
}

/// The instructions that take no operand, by opcode.
pub open spec fn nullary(op: Seq<char>) -> Option<Inst> {
    if op == "PUSH"@ {
        Some(Inst::Push)
    } else if op == "POP"@ {
        Some(Inst::Pop)
    } else if op == "STOP"@ {
        Some(Inst::Stop)
    } else if op == "OFFSETCLOSURE"@ {
        Some(Inst::OffSetClosure)
    } else if op == "RESTART"@ {
        Some(Inst::Restart)
    } else if op == "VECTLENGTH"@ {
        Some(Inst::Veclength)
    } else if op == "GETVECTITEM"@ {
        Some(Inst::Getvectitem)
    } else if op == "SETVECTITEM"@ {
        Some(Inst::SetVectitem)
    } else {
        None
    }
}

/// Whether `op` takes a name: a primitive or a label.
pub open spec fn takes_name(op: Seq<char>) -> bool {
    op == "PRIM"@ || op == "BRANCH"@ || op == "BRANCHIFNOT"@
}

/// Whether `op` takes one signed integer.
pub open spec fn takes_int(op: Seq<char>) -> bool {
    op == "CONST"@ || op == "APPLY"@ || op == "RETURN"@ || op == "GRAB"@ || op == "MAKEBLOCK"@
        || op == "GETFIELD"@ || op == "SETFIELD"@ || op == "ASSIGN"@
}

/// Whether `op` takes one unsigned index.
pub open spec fn takes_index(op: Seq<char>) -> bool {
    op == "ACC"@ || op == "ENVACC"@
}

/// Whether `op` takes a comma-separated pair.
pub open spec fn takes_pair(op: Seq<char>) -> bool {
    op == "CLOSURE"@ || op == "CLOSUREREC"@ || op == "APPTERM"@
}

/// Why opcode `op` with operand `arg` (the word after it, if any) is no
/// instruction, or `None` when it is one.
pub open spec fn decode_error(op: Seq<char>, arg: Option<Seq<char>>) -> Option<ParseError> {
    if nullary(op) is Some {
        None
    } else if !(takes_name(op) || takes_int(op) || takes_index(op) || takes_pair(op)) {
        Some(ParseError::UnknownOpcode)
    } else {
        match arg {
            None => Some(ParseError::MissingOperand),
            Some(a) => if takes_name(op) {
                None
            } else if takes_int(op) {
                if i64_text(a) is Some { None } else { Some(ParseError::BadNumber) }
            } else if takes_index(op) {
                if u64_text(a) is Some { None } else { Some(ParseError::BadNumber) }
            } else if comma_index(a) == a.len() {
                Some(ParseError::MissingComma)
            } else if op == "APPTERM"@ {
                if i64_text(first_part(a)) is Some && i64_text(second_part(a)) is Some {
                    None
                } else {
                    Some(ParseError::BadNumber)
                }
            } else if i64_text(second_part(a)) is Some {
                None
            } else {
                Some(ParseError::BadNumber)
            },
        }
    }
}

/// Whether `i` is the instruction that opcode `op` with operand `arg` denotes.
pub open spec fn reads_as(op: Seq<char>, arg: Option<Seq<char>>, i: Inst) -> bool {
    let a = match arg {
        Some(a) => a,
        None => seq![],
    };
    match i {
        Inst::Push | Inst::Pop | Inst::Stop | Inst::OffSetClosure | Inst::Restart | Inst::Veclength
        | Inst::Getvectitem | Inst::SetVectitem => nullary(op) == Some(i),
        Inst::Prim(p) => op == "PRIM"@ && p@ == a,
        Inst::Branch(l) => op == "BRANCH"@ && l@ == a,
        Inst::BranchIfNot(l) => op == "BRANCHIFNOT"@ && l@ == a,
        Inst::Const(n) => op == "CONST"@ && i64_text(a) == Some(n),
        Inst::Apply(n) => op == "APPLY"@ && i64_text(a) == Some(n),
        Inst::Return(n) => op == "RETURN"@ && i64_text(a) == Some(n),
        Inst::Grab(n) => op == "GRAB"@ && i64_text(a) == Some(n),
        Inst::Makeblock(n) => op == "MAKEBLOCK"@ && i64_text(a) == Some(n),
        Inst::Getfield(n) => op == "GETFIELD"@ && i64_text(a) == Some(n),
        Inst::Setfield(n) => op == "SETFIELD"@ && i64_text(a) == Some(n),
        Inst::Assign(n) => op == "ASSIGN"@ && i64_text(a) == Some(n),
        Inst::Acc(k) => op == "ACC"@ && u64_text(a) == Some(k),
        Inst::Envacc(k) => op == "ENVACC"@ && u64_text(a) == Some(k),
        Inst::Closure(l, n) => op == "CLOSURE"@ && l@ == first_part(a) && i64_text(second_part(a)) == Some(n),
        Inst::ClosureRec(l, n) => op == "CLOSUREREC"@ && l@ == first_part(a) && i64_text(second_part(a)) == Some(n),
        Inst::AppTerm(n, m) => op == "APPTERM"@ && i64_text(first_part(a)) == Some(n) && i64_text(second_part(a)) == Some(m),
    }
}

/// The view of an optional text.
pub open spec fn opt_view(t: Option<&str>) -> Option<Seq<char>> {
    match t {
        Some(a) => Some(a@),
        None => None,
    }
}

/// The instruction that opcode `op` with operand `arg` denotes.
fn decode(op: &str, arg: Option<&str>) -> (r: Result<Inst, ParseError>)
    ensures
        match r {
            Ok(i) => decode_error(op@, opt_view(arg)) is None && reads_as(op@, opt_view(arg), i),
            Err(e) => decode_error(op@, opt_view(arg)) == Some(e),
        },
{
    if same_text(op, "PUSH") {
        return Ok(Inst::Push);
    } else if same_text(op, "POP") {
        return Ok(Inst::Pop);
    } else if same_text(op, "STOP") {
        return Ok(Inst::Stop);
    } else if same_text(op, "OFFSETCLOSURE") {
        return Ok(Inst::OffSetClosure);
    } else if same_text(op, "RESTART") {
        return Ok(Inst::Restart);
    } else if same_text(op, "VECTLENGTH") {
        return Ok(Inst::Veclength);
    } else if same_text(op, "GETVECTITEM") {
        return Ok(Inst::Getvectitem);
    } else if same_text(op, "SETVECTITEM") {
        return Ok(Inst::SetVectitem);
    }
    let is_prim = same_text(op, "PRIM");
    let is_branch = same_text(op, "BRANCH");
    let is_branchifnot = same_text(op, "BRANCHIFNOT");
    let is_const = same_text(op, "CONST");
    let is_apply = same_text(op, "APPLY");
    let is_return = same_text(op, "RETURN");
    let is_grab = same_text(op, "GRAB");
    let is_makeblock = same_text(op, "MAKEBLOCK");
    let is_getfield = same_text(op, "GETFIELD");
    let is_setfield = same_text(op, "SETFIELD");
    let is_assign = same_text(op, "ASSIGN");
    let is_acc = same_text(op, "ACC");
    let is_envacc = same_text(op, "ENVACC");
    let is_closure = same_text(op, "CLOSURE");
    let is_closurerec = same_text(op, "CLOSUREREC");
    let is_appterm = same_text(op, "APPTERM");
    let name = is_prim || is_branch || is_branchifnot;
    let integer = is_const || is_apply || is_return || is_grab || is_makeblock || is_getfield || is_setfield
        || is_assign;
    let index = is_acc || is_envacc;
    let pair = is_closure || is_closurerec || is_appterm;
    if !(name || integer || index || pair) {
        return Err(ParseError::UnknownOpcode);
    }
    let a = match arg {
        None => {
            return Err(ParseError::MissingOperand);
        },
        Some(a) => a,
    };
    if name {
        let text = a.to_owned();
        if is_prim {
            Ok(Inst::Prim(text))
        } else if is_branch {
            Ok(Inst::Branch(text))
        } else {
            Ok(Inst::BranchIfNot(text))
        }
    } else if integer {
        match parse_i64(a) {
            None => Err(ParseError::BadNumber),
            Some(n) => {
                if is_const {
                    Ok(Inst::Const(n))
                } else if is_apply {
                    Ok(Inst::Apply(n))
                } else if is_return {
                    Ok(Inst::Return(n))
                } else if is_grab {
                    Ok(Inst::Grab(n))
                } else if is_makeblock {
                    Ok(Inst::Makeblock(n))
                } else if is_getfield {
                    Ok(Inst::Getfield(n))
                } else if is_setfield {
                    Ok(Inst::Setfield(n))
                } else {
                    Ok(Inst::Assign(n))
                }
            },
        }
    } else if index {
        match parse_u64(a) {
            None => Err(ParseError::BadNumber),
            Some(k) => if is_acc {
                Ok(Inst::Acc(k))
            } else {
                Ok(Inst::Envacc(k))
            },
        }
    } else {
        match split_pair(a) {
            None => Err(ParseError::MissingComma),
            Some((first, second)) => {
                if is_appterm {
                    match (parse_i64(first), parse_i64(second)) {
                        (Some(n), Some(m)) => Ok(Inst::AppTerm(n, m)),
                        _ => Err(ParseError::BadNumber),
                    }
                } else {
                    match parse_i64(second) {
                        None => Err(ParseError::BadNumber),
                        Some(n) => {
                            let label = first.to_owned();
                            if is_closure {
                                Ok(Inst::Closure(label, n))
                            } else {
                                Ok(Inst::ClosureRec(label, n))
                            }
                        },
                    }
                }
            },
        }
    }
}

/// Whether a line carries a label: it does unless it begins with a tab.
pub open spec fn labelled(l: Seq<char>) -> bool {
    !(l.len() > 0 && l[0] == '\t')
}

/// The words of a line that make its instruction: all but the label.
pub open spec fn inst_words(l: Seq<char>) -> Seq<Seq<char>> {
    if labelled(l) && words(l).len() > 0 {
        words(l).drop_first()
    } else if labelled(l) {
        seq![]
    } else {
        words(l)
    }
}

/// The operand word of an instruction's words, if there is one.
pub open spec fn operand(ws: Seq<Seq<char>>) -> Option<Seq<char>> {
    if ws.len() > 1 {
        Some(ws[1])
    } else {
        None
    }
}

/// Why a line is no program line, or `None` when it is one.
pub open spec fn line_error(l: Seq<char>) -> Option<ParseError> {
    let ws = inst_words(l);
    if ws.len() == 0 {
        Some(ParseError::MissingOpcode)
    } else {
        decode_error(ws[0], operand(ws))
    }
}

/// Whether `line` is what text `l` denotes: the label, which is the first
/// word less its last character (the colon), and the instruction.
pub open spec fn line_reads_as(l: Seq<char>, line: Line) -> bool {
    let ws = inst_words(l);
    &&& ws.len() > 0
    &&& reads_as(ws[0], operand(ws), line.1)
    &&& if labelled(l) {
        line.0 is Some && line.0->Some_0@ == words(l)[0].drop_last()
    } else {
        line.0 is None
    }
}

/// Reads one line of a listing: `LABEL: OPCODE operand`, or a tab, then
/// `OPCODE operand`. Composite operands are `label,n` or `n,m`.
pub fn parse_line(l: &str) -> (r: Result<Line, ParseError>)
    ensures
        match r {
            Ok(line) => line_error(l@) is None && line_reads_as(l@, line),
            Err(e) => line_error(l@) == Some(e),
        },
{
    let b = word_bounds(l);
    let n = l.unicode_len();
    let has_label = !(n > 0 && l.get_char(0) == '\t');
    let first: usize = if has_label { 1 } else { 0 };
    if first >= b.len() {
        return Err(ParseError::MissingOpcode);
    }
    let ghost ws = inst_words(l@);
    assert(ws.len() == b@.len() - first);
    assert(ws[0] == words(l@)[first as int]);
    let op = l.substring_char(b[first].0, b[first].1);
    let arg = if first + 1 < b.len() {
        assert(ws[1] == words(l@)[first + 1]);
        Some(l.substring_char(b[first + 1].0, b[first + 1].1))
    } else {
        None
    };
    let inst = match decode(op, arg) {
        Err(e) => {
            return Err(e);
        },
        Ok(i) => i,
    };
    let label = if has_label {
        let w = b[0];
        let text = l.substring_char(w.0, w.1 - 1);
        assert(text@ =~= words(l@)[0].drop_last());
        Some(text.to_owned())
    } else {
        None
    };
    Ok((label, inst))
}

/// The lines of a listing that hold anything, in order.
pub open spec fn nonempty_lines(ls: Seq<Seq<char>>) -> Seq<Seq<char>>
    decreases ls.len(),
{
    if ls.len() == 0 {
        seq![]
    } else if ls.last().len() > 0 {
        nonempty_lines(ls.drop_last()).push(ls.last())
    } else {
        nonempty_lines(ls.drop_last())
    }
}

/// The texts of a sequence of strings.
pub open spec fn texts(ls: Seq<String>) -> Seq<Seq<char>> {
    ls.map_values(|s: String| s@)
}

/// Reads a listing, given as its lines, every non-empty one of which is a
/// program line: empty lines are skipped.
pub fn parse_prog(lines: &Vec<String>) -> (r: Vec<Line>)
    requires
        forall|j: int| 0 <= j < nonempty_lines(texts(lines@)).len()
            ==> line_error(#[trigger] nonempty_lines(texts(lines@))[j]) is None,
    ensures
        r@.len() == nonempty_lines(texts(lines@)).len(),
        forall|j: int| 0 <= j < r@.len() ==> line_reads_as(#[trigger] nonempty_lines(texts(lines@))[j], r@[j]),
{
    match try_parse_prog(lines) {
        Ok(prog) => prog,
        Err(_) => Vec::new(),
    }
}

/// Reads a listing, given as its lines: empty lines are skipped, every
/// other line is a program line. The first line that is none gives the error.
pub fn try_parse_prog(lines: &Vec<String>) -> (r: Result<Vec<Line>, ParseError>)
    ensures
        match r {
            Ok(prog) => {
                let ls = nonempty_lines(texts(lines@));
                &&& prog@.len() == ls.len()
                &&& forall|j: int| 0 <= j < ls.len() ==> line_error(#[trigger] nonempty_lines(texts(lines@))[j]) is None
                    && line_reads_as(nonempty_lines(texts(lines@))[j], prog@[j])
            },
            Err(e) => {
                let ls = nonempty_lines(texts(lines@));
                exists|j: int| 0 <= j < ls.len() && #[trigger] line_error(nonempty_lines(texts(lines@))[j]) == Some(e)
                    && forall|k: int| 0 <= k < j ==> line_error(#[trigger] nonempty_lines(texts(lines@))[k]) is None
            },
        },
{
    let mut prog: Vec<Line> = Vec::new();
    let mut i: usize = 0;
    while i < lines.len()
        invariant
            i <= lines@.len(),
            prog@.len() == nonempty_lines(texts(lines@).take(i as int)).len(),
            forall|j: int| 0 <= j < prog@.len() ==>
                line_error(#[trigger] nonempty_lines(texts(lines@).take(i as int))[j]) is None
                && line_reads_as(nonempty_lines(texts(lines@).take(i as int))[j], prog@[j]),
        decreases lines.len() - i,
    {
        let ghost before = texts(lines@).take(i as int);
        let ghost after = texts(lines@).take(i + 1);
        assert(after.drop_last() =~= before);
        assert(after.last() == lines@[i as int]@);
        let text = lines[i].as_str();
        if text.unicode_len() > 0 {
            match parse_line(text) {
                Err(e) => {
                    proof {
                        let j = prog@.len() as int;
                        assert(nonempty_lines(after)[j] == text@);
                        lemma_nonempty_prefix(texts(lines@), i + 1);
                        assert(nonempty_lines(after) == nonempty_lines(before).push(text@));
                        assert(nonempty_lines(after) =~= nonempty_lines(texts(lines@)).take(j + 1));
                        let ls = nonempty_lines(texts(lines@));
                        assert(ls[j] == text@);
                        assert forall|k: int| 0 <= k < j implies line_error(#[trigger] ls[k]) is None by {
                            assert(ls.take(j + 1)[k] == ls[k]);
                            assert(nonempty_lines(after)[k] == nonempty_lines(before)[k]);
                            assert(line_error(nonempty_lines(texts(lines@).take(i as int))[k]) is None);
                        }
                    }
                    return Err(e);
                },
                Ok(line) => {
                    prog.push(line);
                },
            }
        }
        i = i + 1;
    }
    assert(texts(lines@).take(i as int) =~= texts(lines@));
    Ok(prog)
}

proof fn lemma_nonempty_prefix(ls: Seq<Seq<char>>, i: int)
    requires
        0 <= i <= ls.len(),
    ensures
        nonempty_lines(ls.take(i)).len() <= nonempty_lines(ls).len(),
        nonempty_lines(ls.take(i)) == nonempty_lines(ls).take(nonempty_lines(ls.take(i)).len() as int),
    decreases ls.len(),
{
    let p = nonempty_lines(ls.take(i));
    if i == ls.len() {
        assert(ls.take(i) =~= ls);
        assert(nonempty_lines(ls).take(p.len() as int) =~= nonempty_lines(ls));
    } else {
        assert(ls.drop_last().take(i) =~= ls.take(i));
        lemma_nonempty_prefix(ls.drop_last(), i);
        let q = nonempty_lines(ls.drop_last());
        if ls.last().len() > 0 {
            assert(q.push(ls.last()).take(p.len() as int) =~= q.take(p.len() as int));
        }
    }
}

} // verus!
