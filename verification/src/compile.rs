use vstd::prelude::*;
use vstd::string::StrSliceExecFns;
use crate::instr::EvalError;
use crate::instr::Instruction;

verus! {

/// A cursor-movement character.
pub open spec fn is_move_char(c: char) -> bool {
    c == '>' || c == '<'
}

/// A cell-arithmetic character.
pub open spec fn is_arith_char(c: char) -> bool {
    c == '+' || c == '-'
}

/// Length of the maximal prefix of `s` made of movement characters.
pub open spec fn move_run_len(s: Seq<char>) -> int
    decreases s.len(),
{
    if s.len() == 0 || !is_move_char(s[0]) {
        0
    } else {
        1 + move_run_len(s.skip(1))
    }
}

/// Length of the maximal prefix of `s` made of arithmetic characters.
pub open spec fn arith_run_len(s: Seq<char>) -> int
    decreases s.len(),
{
    if s.len() == 0 || !is_arith_char(s[0]) {
        0
    } else {
        1 + arith_run_len(s.skip(1))
    }
}

/// How often `c` occurs in `s`.
pub open spec fn count_char(s: Seq<char>, c: char) -> int
    decreases s.len(),
{
    if s.len() == 0 {
        0
    } else {
        count_char(s.drop_last(), c) + if s.last() == c {
            1int
        } else {
            0int
        }
    }
}

/// The instruction a run of `k` move-right and `m` move-left characters
/// collapses into: a single relative move of the net magnitude in the
/// majority direction, or nothing when the run cancels out.
pub open spec fn move_instr(k: int, m: int) -> Seq<Instruction> {
    if k > m {
        seq![Instruction::MoveRight((k - m) as usize)]
    } else if m > k {
        seq![Instruction::MoveLeft((m - k) as usize)]
    } else {
        Seq::empty()
    }
}

/// The instruction a run of `k` increment and `m` decrement characters
/// collapses into; the net amount is taken modulo 256, matching the
/// wraparound arithmetic of the machine.
pub open spec fn arith_instr(k: int, m: int) -> Seq<Instruction> {
    if k > m {
        seq![Instruction::Add(((k - m) % 256) as u8)]
    } else if m > k {
        seq![Instruction::Sub(((m - k) % 256) as u8)]
    } else {
        Seq::empty()
    }
}

/// The instruction for a single non-run character, or `None` for a character
/// outside the recognized set. Brackets get a placeholder target.
pub open spec fn char_instr(c: char) -> Option<Instruction> {
    if c == '.' {
        Some(Instruction::PutChar)
    } else if c == ',' {
        Some(Instruction::GetChar)
    } else if c == '[' {
        Some(Instruction::LoopStart(0))
    } else if c == ']' {
        Some(Instruction::LoopEnd(0))
    } else if c == 'c' {
        Some(Instruction::Clear)
    } else if c == 'l' {
        Some(Instruction::ScanLeft)
    } else if c == 'r' {
        Some(Instruction::ScanRight)
    } else {
        None
    }
}

proof fn lemma_move_run_len_bounds(s: Seq<char>)
    ensures
        0 <= move_run_len(s) <= s.len(),
        s.len() > 0 && is_move_char(s[0]) ==> 1 <= move_run_len(s),
    decreases s.len(),
{
    if s.len() > 0 && is_move_char(s[0]) {
        lemma_move_run_len_bounds(s.skip(1));
    }
}

proof fn lemma_arith_run_len_bounds(s: Seq<char>)
    ensures
        0 <= arith_run_len(s) <= s.len(),
        s.len() > 0 && is_arith_char(s[0]) ==> 1 <= arith_run_len(s),
    decreases s.len(),
{
    if s.len() > 0 && is_arith_char(s[0]) {
        lemma_arith_run_len_bounds(s.skip(1));
    }
}

/// The first compilation pass: each maximal run of movement or arithmetic
/// characters collapses into at most one instruction, every other recognized
/// character maps to one instruction, and an unrecognized character fails the
/// whole pass.
pub open spec fn emit_spec(s: Seq<char>) -> Option<Seq<Instruction>>
    decreases s.len(),
    via emit_spec_decreases
{
    if s.len() == 0 {
        Some(Seq::empty())
    } else if is_move_char(s[0]) {
        let d = move_run_len(s);
        match emit_spec(s.skip(d)) {
            None => None,
            Some(rest) => Some(
                move_instr(count_char(s.take(d), '>'), count_char(s.take(d), '<')) + rest,
            ),
        }
    } else if is_arith_char(s[0]) {
        let d = arith_run_len(s);
        match emit_spec(s.skip(d)) {
            None => None,
            Some(rest) => Some(
                arith_instr(count_char(s.take(d), '+'), count_char(s.take(d), '-')) + rest,
            ),
        }
    } else {
        match char_instr(s[0]) {
            None => None,
            Some(i) => match emit_spec(s.skip(1)) {
                None => None,
                Some(rest) => Some(seq![i] + rest),
            },
        }
    }
}

#[via_fn]
proof fn emit_spec_decreases(s: Seq<char>) {
    if s.len() > 0 {
        if is_move_char(s[0]) {
            lemma_move_run_len_bounds(s);
        } else if is_arith_char(s[0]) {
            lemma_arith_run_len_bounds(s);
        }
    }
}

proof fn lemma_move_run_len_is(s: Seq<char>, d: int)
    requires
        0 <= d <= s.len(),
        forall|t: int| 0 <= t < d ==> is_move_char(#[trigger] s[t]),
        d == s.len() || !is_move_char(s[d]),
    ensures
        move_run_len(s) == d,
    decreases d,
{
    if d == 0 {
    } else {
        let s1 = s.skip(1);
        assert forall|t: int| 0 <= t < d - 1 implies is_move_char(#[trigger] s1[t]) by {
            assert(s1[t] == s[t + 1]);
        }
        if d - 1 < s1.len() {
            assert(s1[d - 1] == s[d]);
        }
        lemma_move_run_len_is(s1, d - 1);
    }
}

proof fn lemma_arith_run_len_is(s: Seq<char>, d: int)
    requires
        0 <= d <= s.len(),
        forall|t: int| 0 <= t < d ==> is_arith_char(#[trigger] s[t]),
        d == s.len() || !is_arith_char(s[d]),
    ensures
        arith_run_len(s) == d,
    decreases d,
{
    if d == 0 {
    } else {
        let s1 = s.skip(1);
        assert forall|t: int| 0 <= t < d - 1 implies is_arith_char(#[trigger] s1[t]) by {
            assert(s1[t] == s[t + 1]);
        }
        if d - 1 < s1.len() {
            assert(s1[d - 1] == s[d]);
        }
        lemma_arith_run_len_is(s1, d - 1);
    }
}

/// Run-length collapsing is sum-correct: text made of `k` move-right and `m`
/// move-left characters, in any order, compiles to one relative move of the
/// net magnitude in the majority direction, or to no instruction at all when
/// the two counts cancel.
pub proof fn lemma_move_run_sum_correct(s: Seq<char>)
    requires
        forall|t: int| 0 <= t < s.len() ==> is_move_char(#[trigger] s[t]),
    ensures
        emit_spec(s) == Some(move_instr(count_char(s, '>'), count_char(s, '<'))),
{
    if s.len() == 0 {
        assert(move_instr(0, 0) =~= Seq::<Instruction>::empty());
    } else {
        assert(is_move_char(s[0]));
        lemma_move_run_len_is(s, s.len() as int);
        let d = move_run_len(s);
        assert(s.take(d) =~= s);
        assert(s.skip(d) =~= Seq::<char>::empty());
        assert(emit_spec(Seq::<char>::empty()) == Some(Seq::<Instruction>::empty()));
        assert(emit_spec(s) == Some(
            move_instr(count_char(s.take(d), '>'), count_char(s.take(d), '<'))
                + Seq::<Instruction>::empty(),
        ));
        assert(move_instr(count_char(s, '>'), count_char(s, '<')) + Seq::<Instruction>::empty()
            =~= move_instr(count_char(s, '>'), count_char(s, '<')));
    }
}

/// The arithmetic counterpart: `k` increments and `m` decrements collapse to
/// a single instruction carrying the net amount modulo 256, or to nothing.
pub proof fn lemma_arith_run_sum_correct(s: Seq<char>)
    requires
        forall|t: int| 0 <= t < s.len() ==> is_arith_char(#[trigger] s[t]),
    ensures
        emit_spec(s) == Some(arith_instr(count_char(s, '+'), count_char(s, '-'))),
{
    if s.len() == 0 {
        assert(arith_instr(0, 0) =~= Seq::<Instruction>::empty());
    } else {
        assert(is_arith_char(s[0]));
        lemma_arith_run_len_is(s, s.len() as int);
        let d = arith_run_len(s);
        assert(s.take(d) =~= s);
        assert(s.skip(d) =~= Seq::<char>::empty());
        assert(emit_spec(Seq::<char>::empty()) == Some(Seq::<Instruction>::empty()));
        assert(emit_spec(s) == Some(
            arith_instr(count_char(s.take(d), '+'), count_char(s.take(d), '-'))
                + Seq::<Instruction>::empty(),
        ));
        assert(arith_instr(count_char(s, '+'), count_char(s, '-')) + Seq::<Instruction>::empty()
            =~= arith_instr(count_char(s, '+'), count_char(s, '-')));
    }
}

/// A loop-start instruction.
pub open spec fn is_open(i: Instruction) -> bool {
    i matches Instruction::LoopStart(_)
}

/// A loop-end instruction.
pub open spec fn is_close(i: Instruction) -> bool {
    i matches Instruction::LoopEnd(_)
}

/// +1 for a loop start, -1 for a loop end, 0 for everything else.
pub open spec fn bracket_delta(i: Instruction) -> int {
    match i {
        Instruction::LoopStart(_) => 1,
        Instruction::LoopEnd(_) => -1,
        _ => 0,
    }
}

/// Loop starts minus loop ends among positions `[a, b)` of `p`.
pub open spec fn bal(p: Seq<Instruction>, a: int, b: int) -> int
    decreases b - a,
{
    if b <= a {
        0
    } else {
        bal(p, a, b - 1) + bracket_delta(p[b - 1])
    }
}

/// The brackets of `p` pair up: no prefix ends more loops than it has
/// started, and over the whole program the two counts agree.
pub open spec fn balanced(p: Seq<Instruction>) -> bool {
    &&& bal(p, 0, p.len() as int) == 0
    &&& forall|j: int| 0 <= j <= p.len() ==> #[trigger] bal(p, 0, j) >= 0
}

/// One left-to-right pass over `p` from position `k` on: a loop start is
/// remembered on the stack, a loop end is paired with the newest unpaired
/// start, and each pairing enters the map in both directions. The pass fails
/// exactly when some bracket has no partner.
pub open spec fn resolve_rec(
    p: Seq<Instruction>,
    k: int,
    stack: Seq<int>,
    m: Map<int, int>,
) -> Option<Map<int, int>>
    decreases p.len() - k,
{
    if k >= p.len() {
        if stack.len() == 0 {
            Some(m)
        } else {
            None
        }
    } else if is_open(p[k]) {
        resolve_rec(p, k + 1, stack.push(k), m)
    } else if is_close(p[k]) {
        if stack.len() == 0 {
            None
        } else {
            resolve_rec(p, k + 1, stack.drop_last(), m.insert(stack.last(), k).insert(k, stack.last()))
        }
    } else {
        resolve_rec(p, k + 1, stack, m)
    }
}

/// The mutual target map of `p`'s brackets, or `None` when one is unmatched.
pub open spec fn bracket_map(p: Seq<Instruction>) -> Option<Map<int, int>> {
    resolve_rec(p, 0, Seq::empty(), Map::empty())
}

/// Write each bracket's target from the map; every other instruction is kept.
pub open spec fn apply_targets(p: Seq<Instruction>, m: Map<int, int>) -> Seq<Instruction> {
    Seq::new(
        p.len(),
        |i: int|
            if is_open(p[i]) {
                Instruction::LoopStart(m[i] as usize)
            } else if is_close(p[i]) {
                Instruction::LoopEnd(m[i] as usize)
            } else {
                p[i]
            },
    )
}

/// Whole compilation: instruction emission, then bracket resolution.
pub open spec fn compile_spec(s: Seq<char>) -> Result<Seq<Instruction>, EvalError> {
    match emit_spec(s) {
        None => Err(EvalError::UnrecognizedInstruction),
        Some(p) => match bracket_map(p) {
            None => Err(EvalError::UnbalancedBrackets),
            Some(m) => Ok(apply_targets(p, m)),
        },
    }
}

proof fn lemma_bal_unfold_left(p: Seq<Instruction>, a: int, b: int)
    requires
        a < b,
    ensures
        bal(p, a, b) == bracket_delta(p[a]) + bal(p, a + 1, b),
    decreases b - a,
{
    if a + 1 < b {
        lemma_bal_unfold_left(p, a, b - 1);
        assert(bal(p, a, b) == bal(p, a, b - 1) + bracket_delta(p[b - 1]));
        assert(bal(p, a + 1, b) == bal(p, a + 1, b - 1) + bracket_delta(p[b - 1]));
    } else {
        assert(bal(p, a, b) == bal(p, a, a) + bracket_delta(p[a]));
        assert(bal(p, a + 1, b) == 0);
    }
}

proof fn lemma_resolve_rec_some(p: Seq<Instruction>, k: int, stack: Seq<int>, m: Map<int, int>)
    requires
        0 <= k <= p.len(),
    ensures
        resolve_rec(p, k, stack, m) is Some <==> {
            &&& stack.len() + bal(p, k, p.len() as int) == 0
            &&& forall|j: int| k <= j <= p.len() ==> stack.len() + #[trigger] bal(p, k, j) >= 0
        },
    decreases p.len() - k,
{
    let len = p.len() as int;
    if k == len {
    } else {
        assert forall|j: int| k + 1 <= j <= len implies #[trigger] bal(p, k, j) == bracket_delta(
            p[k],
        ) + bal(p, k + 1, j) by {
            lemma_bal_unfold_left(p, k, j);
        }
        assert(bal(p, k, k) == 0);
        if is_open(p[k]) {
            let s2 = stack.push(k);
            lemma_resolve_rec_some(p, k + 1, s2, m);
            if forall|j: int| k + 1 <= j <= len ==> s2.len() + #[trigger] bal(p, k + 1, j) >= 0 {
                assert forall|j: int| k <= j <= len implies stack.len() + #[trigger] bal(p, k, j)
                    >= 0 by {
                    if j > k {
                        assert(s2.len() + bal(p, k + 1, j) >= 0);
                    }
                }
            }
            if forall|j: int| k <= j <= len ==> stack.len() + #[trigger] bal(p, k, j) >= 0 {
                assert forall|j: int| k + 1 <= j <= len implies s2.len() + #[trigger] bal(
                    p,
                    k + 1,
                    j,
                ) >= 0 by {
                    assert(stack.len() + bal(p, k, j) >= 0);
                }
            }
        } else if is_close(p[k]) {
            if stack.len() == 0 {
                assert(bal(p, k, k + 1) == -1);
                assert(!(stack.len() + bal(p, k, k + 1) >= 0));
            } else {
                let s2 = stack.drop_last();
                lemma_resolve_rec_some(p, k + 1, s2, m.insert(stack.last(), k).insert(k, stack.last()));
                if forall|j: int| k + 1 <= j <= len ==> s2.len() + #[trigger] bal(p, k + 1, j)
                    >= 0 {
                    assert forall|j: int| k <= j <= len implies stack.len() + #[trigger] bal(
                        p,
                        k,
                        j,
                    ) >= 0 by {
                        if j > k {
                            assert(s2.len() + bal(p, k + 1, j) >= 0);
                        }
                    }
                }
                if forall|j: int| k <= j <= len ==> stack.len() + #[trigger] bal(p, k, j) >= 0 {
                    assert forall|j: int| k + 1 <= j <= len implies s2.len() + #[trigger] bal(
                        p,
                        k + 1,
                        j,
                    ) >= 0 by {
                        assert(stack.len() + bal(p, k, j) >= 0);
                    }
                }
            }
        } else {
            lemma_resolve_rec_some(p, k + 1, stack, m);
            if forall|j: int| k + 1 <= j <= len ==> stack.len() + #[trigger] bal(p, k + 1, j)
                >= 0 {
                assert forall|j: int| k <= j <= len implies stack.len() + #[trigger] bal(p, k, j)
                    >= 0 by {
                    if j > k {
                        assert(stack.len() + bal(p, k + 1, j) >= 0);
                    }
                }
            }
            if forall|j: int| k <= j <= len ==> stack.len() + #[trigger] bal(p, k, j) >= 0 {
                assert forall|j: int| k + 1 <= j <= len implies stack.len() + #[trigger] bal(
                    p,
                    k + 1,
                    j,
                ) >= 0 by {
                    assert(stack.len() + bal(p, k, j) >= 0);
                }
            }
        }
    }
}

/// Bracket resolution succeeds exactly on balanced programs; an unmatched
/// bracket fails the whole compilation.
pub proof fn lemma_resolution_succeeds_iff_balanced(p: Seq<Instruction>)
    ensures
        bracket_map(p) is Some <==> balanced(p),
{
    lemma_resolve_rec_some(p, 0, Seq::empty(), Map::empty());
}

/// Each resolved bracket points at its partner, which points back: starts
/// point forward at ends, ends point backward at starts.
pub open spec fn map_mutual(p: Seq<Instruction>, m: Map<int, int>) -> bool {
    forall|i: int| #[trigger] m.dom().contains(i) ==> {
        &&& 0 <= i < p.len()
        &&& (is_open(p[i]) || is_close(p[i]))
        &&& m.dom().contains(m[i])
        &&& m[m[i]] == i
        &&& (is_open(p[i]) ==> is_close(p[m[i]]) && i < m[i])
        &&& (is_close(p[i]) ==> is_open(p[m[i]]) && m[i] < i)
    }
}

proof fn lemma_resolve_rec_mutual(
    p: Seq<Instruction>,
    k: int,
    stack: Seq<int>,
    m: Map<int, int>,
    m2: Map<int, int>,
)
    requires
        0 <= k <= p.len(),
        resolve_rec(p, k, stack, m) == Some(m2),
        map_mutual(p, m),
        forall|i: int| #[trigger] m.dom().contains(i) ==> i < k && m[i] < k,
        forall|t: int|
            0 <= t < stack.len() ==> 0 <= #[trigger] stack[t] < k && is_open(p[stack[t]])
                && !m.dom().contains(stack[t]),
        forall|t1: int, t2: int| 0 <= t1 < t2 < stack.len() ==> stack[t1] < stack[t2],
        forall|i: int|
            0 <= i < k && (is_open(p[i]) || is_close(p[i])) ==> m.dom().contains(i)
                || stack.contains(i),
    ensures
        map_mutual(p, m2),
        forall|i: int|
            0 <= i < p.len() && (is_open(p[i]) || is_close(p[i])) ==> #[trigger] m2.dom().contains(
                i,
            ),
    decreases p.len() - k,
{
    let len = p.len() as int;
    if k == len {
        assert(stack.len() == 0);
        assert(m2 == m);
        assert forall|i: int|
            0 <= i < len && (is_open(p[i]) || is_close(p[i])) implies #[trigger] m2.dom().contains(
            i,
        ) by {
            assert(m.dom().contains(i) || stack.contains(i));
            assert(!stack.contains(i));
        }
    } else if is_open(p[k]) {
        let s2 = stack.push(k);
        assert forall|i: int|
            0 <= i < k + 1 && (is_open(p[i]) || is_close(p[i])) implies m.dom().contains(i)
                || s2.contains(i) by {
            if i == k {
                assert(s2[stack.len() as int] == k);
            } else {
                if stack.contains(i) {
                    let t = choose|t: int| 0 <= t < stack.len() && stack[t] == i;
                    assert(s2[t] == i);
                }
            }
        }
        lemma_resolve_rec_mutual(p, k + 1, s2, m, m2);
    } else if is_close(p[k]) {
        assert(stack.len() > 0);
        let o = stack.last();
        let s2 = stack.drop_last();
        let mm = m.insert(o, k).insert(k, o);
        assert(is_open(p[o]));
        assert(!m.dom().contains(o));
        assert(!m.dom().contains(k));
        assert(o < k);
        assert(map_mutual(p, mm)) by {
            assert forall|i: int| #[trigger] mm.dom().contains(i) implies {
                &&& 0 <= i < p.len()
                &&& (is_open(p[i]) || is_close(p[i]))
                &&& mm.dom().contains(mm[i])
                &&& mm[mm[i]] == i
                &&& (is_open(p[i]) ==> is_close(p[mm[i]]) && i < mm[i])
                &&& (is_close(p[i]) ==> is_open(p[mm[i]]) && mm[i] < i)
            } by {
                if i == o {
                    assert(mm[o] == k && mm[k] == o);
                } else if i == k {
                    assert(mm[k] == o && mm[o] == k);
                } else {
                    assert(m.dom().contains(i));
                    assert(mm[i] == m[i]);
                    assert(m[i] != o && m[i] != k);
                    assert(mm[m[i]] == m[m[i]]);
                }
            }
        }
        assert forall|t: int|
            0 <= t < s2.len() implies 0 <= #[trigger] s2[t] < k + 1 && is_open(p[s2[t]])
                && !mm.dom().contains(s2[t]) by {
            assert(s2[t] == stack[t]);
            assert(stack[t] < stack[stack.len() - 1]);
            assert(s2[t] != o && s2[t] != k);
        }
        assert forall|i: int|
            0 <= i < k + 1 && (is_open(p[i]) || is_close(p[i])) implies mm.dom().contains(i)
                || s2.contains(i) by {
            if i == k || i == o {
            } else if m.dom().contains(i) {
            } else if 0 <= i < k {
                assert(stack.contains(i));
                let t = choose|t: int| 0 <= t < stack.len() && stack[t] == i;
                assert(t < stack.len() - 1);
                assert(s2[t] == i);
            }
        }
        lemma_resolve_rec_mutual(p, k + 1, s2, mm, m2);
    } else {
        assert forall|i: int|
            0 <= i < k + 1 && (is_open(p[i]) || is_close(p[i])) implies m.dom().contains(i)
                || stack.contains(i) by {}
        lemma_resolve_rec_mutual(p, k + 1, stack, m, m2);
    }
}

/// The resolution pass assigns mutual targets: the resolved program holds a
/// loop start at `i` targeting `j` exactly when it holds a loop end at `j`
/// targeting `i`.
pub proof fn lemma_resolution_mutual(p: Seq<Instruction>, m: Map<int, int>)
    requires
        bracket_map(p) == Some(m),
        p.len() <= usize::MAX,
    ensures
        forall|i: int, j: int|
            0 <= i < p.len() && 0 <= j < p.len() ==> ((#[trigger] apply_targets(p, m)[i]
                == Instruction::LoopStart(j as usize)) <==> (#[trigger] apply_targets(p, m)[j]
                == Instruction::LoopEnd(i as usize))),
{
    lemma_resolve_rec_mutual(p, 0, Seq::empty(), Map::empty(), m);
    let r = apply_targets(p, m);
    assert forall|i: int, j: int|
        0 <= i < p.len() && 0 <= j < p.len() implies ((#[trigger] r[i] == Instruction::LoopStart(
        j as usize,
    )) <==> (#[trigger] r[j] == Instruction::LoopEnd(i as usize))) by {
        if r[i] == Instruction::LoopStart(j as usize) {
            assert(is_open(p[i]));
            assert(m.dom().contains(i));
            assert(m[i] as usize == j as usize);
            assert(0 <= m[i] < p.len());
            assert(m[i] == j);
            assert(m.dom().contains(j) && m[j] == i && is_close(p[j]));
            assert(r[j] == Instruction::LoopEnd(i as usize));
        }
        if r[j] == Instruction::LoopEnd(i as usize) {
            assert(is_close(p[j]));
            assert(m.dom().contains(j));
            assert(m[j] as usize == i as usize);
            assert(0 <= m[j] < p.len());
            assert(m[j] == i);
            assert(m.dom().contains(i) && m[i] == j && is_open(p[i]));
            assert(r[i] == Instruction::LoopStart(j as usize));
        }
    }
}

/// A character the first pass accepts.
pub open spec fn recognized_char(c: char) -> bool {
    is_move_char(c) || is_arith_char(c) || char_instr(c) is Some
}

/// Emission succeeds on any text made of recognized characters.
pub proof fn lemma_emit_recognized(s: Seq<char>)
    requires
        forall|i: int| 0 <= i < s.len() ==> recognized_char(#[trigger] s[i]),
    ensures
        emit_spec(s) is Some,
    decreases s.len(),
{
    if s.len() == 0 {
    } else if is_move_char(s[0]) {
        lemma_move_run_len_bounds(s);
        let d = move_run_len(s);
        let rest = s.skip(d);
        assert forall|i: int| 0 <= i < rest.len() implies recognized_char(#[trigger] rest[i]) by {
            assert(rest[i] == s[i + d]);
        }
        lemma_emit_recognized(rest);
    } else if is_arith_char(s[0]) {
        lemma_arith_run_len_bounds(s);
        let d = arith_run_len(s);
        let rest = s.skip(d);
        assert forall|i: int| 0 <= i < rest.len() implies recognized_char(#[trigger] rest[i]) by {
            assert(rest[i] == s[i + d]);
        }
        lemma_emit_recognized(rest);
    } else {
        assert(char_instr(s[0]) is Some);
        let rest = s.skip(1);
        assert forall|i: int| 0 <= i < rest.len() implies recognized_char(#[trigger] rest[i]) by {
            assert(rest[i] == s[i + 1]);
        }
        lemma_emit_recognized(rest);
    }
}

fn emit(source: &str) -> (r: Result<Vec<Instruction>, EvalError>)
    ensures
        match r {
            Ok(v) => emit_spec(source@) == Some(v@),
            Err(e) => emit_spec(source@) is None && e == EvalError::UnrecognizedInstruction,
        },
{
    let n = source.unicode_len();
    let mut prog: Vec<Instruction> = Vec::new();
    let mut i: usize = 0;
    proof {
        assert(source@.skip(0) =~= source@);
        assert(prog@ + emit_spec(source@).unwrap() =~= emit_spec(source@).unwrap());
    }
    while i < n
        invariant
            i <= n,
            n == source@.len(),
            match emit_spec(source@.skip(i as int)) {
                Some(rest) => emit_spec(source@) == Some(prog@ + rest),
                None => emit_spec(source@) is None,
            },
        decreases n - i,
    {
        let ghost rest = source@.skip(i as int);
        let ghost prog0 = prog@;
        proof {
            assert(rest[0] == source@[i as int]);
        }
        let c = source.get_char(i);
        if c == '>' || c == '<' {
            let mut j: usize = i;
            let mut right: usize = 0;
            let mut left: usize = 0;
            let mut keep = true;
            proof {
                assert(source@.subrange(i as int, i as int) =~= Seq::<char>::empty());
            }
            while keep
                invariant
                    i <= j <= n,
                    n == source@.len(),
                    right + left == j - i,
                    forall|t: int| i <= t < j ==> is_move_char(#[trigger] source@[t]),
                    right == count_char(source@.subrange(i as int, j as int), '>'),
                    left == count_char(source@.subrange(i as int, j as int), '<'),
                    !keep ==> (j == n || !is_move_char(source@[j as int])),
                decreases n - j + (if keep {
                    1int
                } else {
                    0int
                }),
            {
                if j < n {
                    let c2 = source.get_char(j);
                    if c2 == '>' || c2 == '<' {
                        proof {
                            let pre = source@.subrange(i as int, j as int);
                            let post = source@.subrange(i as int, j + 1);
                            assert(post.drop_last() =~= pre);
                            assert(post.last() == source@[j as int]);
                        }
                        if c2 == '>' {
                            right = right + 1;
                        } else {
                            left = left + 1;
                        }
                        j = j + 1;
                    } else {
                        keep = false;
                    }
                } else {
                    keep = false;
                }
            }
            let ghost d = j - i;
            proof {
                assert forall|t: int| 0 <= t < d implies is_move_char(#[trigger] rest[t]) by {
                    assert(rest[t] == source@[i + t]);
                }
                if d < rest.len() {
                    assert(rest[d] == source@[j as int]);
                }
                lemma_move_run_len_is(rest, d);
                assert(rest.take(d) =~= source@.subrange(i as int, j as int));
                assert(rest.skip(d) =~= source@.skip(j as int));
            }
            if right > left {
                prog.push(Instruction::MoveRight(right - left));
            } else if left > right {
                prog.push(Instruction::MoveLeft(left - right));
            }
            proof {
                let k = count_char(rest.take(d), '>');
                let m = count_char(rest.take(d), '<');
                assert(k == right && m == left);
                assert(prog@ =~= prog0 + move_instr(k, m));
                assert(is_move_char(rest[0]));
                assert(d == move_run_len(rest));
                match emit_spec(source@.skip(j as int)) {
                    Some(r2) => {
                        assert(emit_spec(rest) == Some(move_instr(k, m) + r2));
                        assert(prog0 + (move_instr(k, m) + r2) =~= prog@ + r2);
                    },
                    None => {
                        assert(emit_spec(rest) is None);
                    },
                }
            }
            i = j;
        } else if c == '+' || c == '-' {
            let mut j: usize = i;
            let mut plus: usize = 0;
            let mut minus: usize = 0;
            let mut keep = true;
            proof {
                assert(source@.subrange(i as int, i as int) =~= Seq::<char>::empty());
            }
            while keep
                invariant
                    i <= j <= n,
                    n == source@.len(),
                    plus + minus == j - i,
                    forall|t: int| i <= t < j ==> is_arith_char(#[trigger] source@[t]),
                    plus == count_char(source@.subrange(i as int, j as int), '+'),
                    minus == count_char(source@.subrange(i as int, j as int), '-'),
                    !keep ==> (j == n || !is_arith_char(source@[j as int])),
                decreases n - j + (if keep {
                    1int
                } else {
                    0int
                }),
            {
                if j < n {
                    let c2 = source.get_char(j);
                    if c2 == '+' || c2 == '-' {
                        proof {
                            let pre = source@.subrange(i as int, j as int);
                            let post = source@.subrange(i as int, j + 1);
                            assert(post.drop_last() =~= pre);
                            assert(post.last() == source@[j as int]);
                        }
                        if c2 == '+' {
                            plus = plus + 1;
                        } else {
                            minus = minus + 1;
                        }
                        j = j + 1;
                    } else {
                        keep = false;
                    }
                } else {
                    keep = false;
                }
            }
            let ghost d = j - i;
            proof {
                assert forall|t: int| 0 <= t < d implies is_arith_char(#[trigger] rest[t]) by {
                    assert(rest[t] == source@[i + t]);
                }
                if d < rest.len() {
                    assert(rest[d] == source@[j as int]);
                }
                lemma_arith_run_len_is(rest, d);
                assert(rest.take(d) =~= source@.subrange(i as int, j as int));
                assert(rest.skip(d) =~= source@.skip(j as int));
            }
            if plus > minus {
                prog.push(Instruction::Add(((plus - minus) % 256) as u8));
            } else if minus > plus {
                prog.push(Instruction::Sub(((minus - plus) % 256) as u8));
            }
            proof {
                let k = count_char(rest.take(d), '+');
                let m = count_char(rest.take(d), '-');
                assert(k == plus && m == minus);
                assert(prog@ =~= prog0 + arith_instr(k, m));
                assert(is_arith_char(rest[0]));
                assert(!is_move_char(rest[0]));
                assert(d == arith_run_len(rest));
                match emit_spec(source@.skip(j as int)) {
                    Some(r2) => {
                        assert(emit_spec(rest) == Some(arith_instr(k, m) + r2));
                        assert(prog0 + (arith_instr(k, m) + r2) =~= prog@ + r2);
                    },
                    None => {
                        assert(emit_spec(rest) is None);
                    },
                }
            }
            i = j;
        } else {
            let inst_opt: Option<Instruction> = if c == '.' {
                Some(Instruction::PutChar)
            } else if c == ',' {
                Some(Instruction::GetChar)
            } else if c == '[' {
                Some(Instruction::LoopStart(0))
            } else if c == ']' {
                Some(Instruction::LoopEnd(0))
            } else if c == 'c' {
                Some(Instruction::Clear)
            } else if c == 'l' {
                Some(Instruction::ScanLeft)
            } else if c == 'r' {
                Some(Instruction::ScanRight)
            } else {
                None
            };
            proof {
                assert(!is_move_char(rest[0]) && !is_arith_char(rest[0]));
                assert(char_instr(rest[0]) == inst_opt);
            }
            match inst_opt {
                None => {
                    proof {
                        assert(emit_spec(rest) is None);
                    }
                    return Err(EvalError::UnrecognizedInstruction);
                },
                Some(inst) => {
                    prog.push(inst);
                    proof {
                        assert(rest.skip(1) =~= source@.skip(i + 1));
                        match emit_spec(source@.skip(i + 1)) {
                            Some(r2) => {
                                assert(emit_spec(rest) == Some(seq![inst] + r2));
                                assert(prog0 + (seq![inst] + r2) =~= prog@ + r2);
                            },
                            None => {
                                assert(emit_spec(rest) is None);
                            },
                        }
                    }
                    i = i + 1;
                },
            }
        }
    }
    proof {
        assert(source@.skip(n as int) =~= Seq::<char>::empty());
        assert(emit_spec(Seq::<char>::empty()) == Some(Seq::<Instruction>::empty()));
        assert(prog@ + Seq::<Instruction>::empty() =~= prog@);
    }
    Ok(prog)
}

#[verifier::loop_isolation(false)]
fn resolve(prog: Vec<Instruction>) -> (r: Result<Vec<Instruction>, EvalError>)
    ensures
        match bracket_map(prog@) {
            None => r == Err::<Vec<Instruction>, EvalError>(EvalError::UnbalancedBrackets),
            Some(m) => r matches Ok(v) && v@ == apply_targets(prog@, m),
        },
{
    let ghost p0 = prog@;
    let n = prog.len();
    let mut out = prog;
    let mut stack: Vec<usize> = Vec::new();
    let ghost mut gstack: Seq<int> = Seq::empty();
    let ghost mut gm: Map<int, int> = Map::empty();
    let mut k: usize = 0;
    while k < n
        invariant
            k <= n,
            n == p0.len(),
            out@.len() == n,
            bracket_map(p0) == resolve_rec(p0, k as int, gstack, gm),
            gstack.len() == stack@.len(),
            forall|t: int| 0 <= t < gstack.len() ==> gstack[t] == stack@[t] as int,
            forall|t: int|
                0 <= t < stack@.len() ==> (stack@[t] as int) < k && is_open(
                    p0[stack@[t] as int],
                ) && !gm.dom().contains(stack@[t] as int),
            forall|t1: int, t2: int| 0 <= t1 < t2 < stack@.len() ==> stack@[t1] < stack@[t2],
            forall|i: int| #[trigger] gm.dom().contains(i) ==> 0 <= i < k && 0 <= gm[i] < k,
            forall|i: int| #[trigger] gm.dom().contains(i) ==> is_open(p0[i]) || is_close(p0[i]),
            forall|i: int|
                0 <= i < k && (is_open(p0[i]) || is_close(p0[i])) ==> gm.dom().contains(i)
                    || gstack.contains(i),
            forall|i: int| 0 <= i < n && !gm.dom().contains(i) ==> out@[i] == p0[i],
            forall|i: int| #[trigger]
                gm.dom().contains(i) ==> out@[i] == (if is_open(p0[i]) {
                    Instruction::LoopStart(gm[i] as usize)
                } else {
                    Instruction::LoopEnd(gm[i] as usize)
                }),
        decreases n - k,
    {
        let inst = out[k];
        match inst {
            Instruction::LoopStart(_) => {
                proof {
                    assert(out@[k as int] == p0[k as int]);
                    assert(is_open(p0[k as int]));
                }
                stack.push(k);
                proof {
                    let gs2 = gstack.push(k as int);
                    assert forall|i: int|
                        0 <= i < k + 1 && (is_open(p0[i]) || is_close(p0[i])) implies gm.dom().contains(
                        i,
                    ) || gs2.contains(i) by {
                        if i == k {
                            assert(gs2[gs2.len() - 1] == k as int);
                        } else if gstack.contains(i) {
                            let t = choose|t: int| 0 <= t < gstack.len() && gstack[t] == i;
                            assert(gs2[t] == i);
                        }
                    }
                    gstack = gs2;
                }
            },
            Instruction::LoopEnd(_) => {
                proof {
                    assert(out@[k as int] == p0[k as int]);
                    assert(is_close(p0[k as int]));
                }
                match stack.pop() {
                    None => {
                        proof {
                            assert(gstack.len() == 0);
                            assert(resolve_rec(p0, k as int, gstack, gm) is None);
                        }
                        return Err(EvalError::UnbalancedBrackets);
                    },
                    Some(o) => {
                        proof {
                            assert(gstack.last() == o as int);
                        }
                        out.set(o, Instruction::LoopStart(k));
                        out.set(k, Instruction::LoopEnd(o));
                        proof {
                            let oi = o as int;
                            let ki = k as int;
                            let gs2 = gstack.drop_last();
                            let gm2 = gm.insert(oi, ki).insert(ki, oi);
                            assert(resolve_rec(p0, ki, gstack, gm) == resolve_rec(
                                p0,
                                ki + 1,
                                gs2,
                                gm2,
                            ));
                            assert forall|t: int| 0 <= t < gs2.len() implies gs2[t]
                                == stack@[t] as int by {
                                assert(gs2[t] == gstack[t]);
                            }
                            assert forall|t: int|
                                0 <= t < stack@.len() implies (stack@[t] as int) < ki + 1
                                && is_open(p0[stack@[t] as int]) && !gm2.dom().contains(
                                stack@[t] as int,
                            ) by {
                                assert(stack@[t] as int == gs2[t]);
                                assert(gs2[t] == gstack[t]);
                                assert(gstack[t] < gstack[gstack.len() - 1]);
                            }
                            assert forall|i: int|
                                0 <= i < ki + 1 && (is_open(p0[i]) || is_close(p0[i]))
                                implies gm2.dom().contains(i) || gs2.contains(i) by {
                                if i == ki || i == oi {
                                } else if gm.dom().contains(i) {
                                } else if 0 <= i < ki {
                                    assert(gstack.contains(i));
                                    let t = choose|t: int|
                                        0 <= t < gstack.len() && gstack[t] == i;
                                    assert(t < gstack.len() - 1);
                                    assert(gs2[t] == i);
                                }
                            }
                            assert forall|i: int| #[trigger]
                                gm2.dom().contains(i) implies out@[i] == (if is_open(p0[i]) {
                                Instruction::LoopStart(gm2[i] as usize)
                            } else {
                                Instruction::LoopEnd(gm2[i] as usize)
                            }) by {
                                if i == oi {
                                    assert(out@[oi] == Instruction::LoopStart(k));
                                } else if i == ki {
                                    assert(out@[ki] == Instruction::LoopEnd(o));
                                } else {
                                    assert(gm.dom().contains(i));
                                    assert(gm2[i] == gm[i]);
                                    assert(i != oi && i != ki);
                                }
                            }
                            gstack = gs2;
                            gm = gm2;
                        }
                    },
                }
            },
            _ => {
                proof {
                    if gm.dom().contains(k as int) {
                        assert(is_open(p0[k as int]) || is_close(p0[k as int]));
                        assert(false);
                    }
                    assert(out@[k as int] == p0[k as int]);
                    assert(!is_open(p0[k as int]) && !is_close(p0[k as int]));
                }
            },
        }
        k = k + 1;
    }
    if stack.len() > 0 {
        proof {
            assert(gstack.len() > 0);
            assert(resolve_rec(p0, k as int, gstack, gm) is None);
        }
        return Err(EvalError::UnbalancedBrackets);
    }
    proof {
        assert(resolve_rec(p0, k as int, gstack, gm) == Some(gm));
        assert(out@ =~= apply_targets(p0, gm)) by {
            assert forall|i: int| 0 <= i < n implies out@[i] == apply_targets(p0, gm)[i] by {
                if is_open(p0[i]) || is_close(p0[i]) {
                    assert(gm.dom().contains(i) || gstack.contains(i));
                    assert(gm.dom().contains(i));
                }
            }
        }
    }
    Ok(out)
}

/// Compile rewritten text into a resolved program: collapse runs, map each
/// character to its instruction, then give every bracket its partner's index.
/// Fails on a character outside the instruction set and on unmatched
/// brackets.
pub fn compile(source: &str) -> (r: Result<Vec<Instruction>, EvalError>)
    ensures
        match r {
            Ok(v) => compile_spec(source@) == Ok::<Seq<Instruction>, EvalError>(v@),
            Err(e) => compile_spec(source@) == Err::<Seq<Instruction>, EvalError>(e),
        },
{
    match emit(source) {
        Err(e) => Err(e),
        Ok(prog) => resolve(prog),
    }
}

} // verus!
