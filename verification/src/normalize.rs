use vstd::prelude::*;
use vstd::string::StrSliceExecFns;
use vstd::string::StringExecFns;

verus! {

/// The eight characters of the source language.
pub open spec fn is_instr_char(c: char) -> bool {
    c == '>' || c == '<' || c == '+' || c == '-' || c == ',' || c == '.' || c == '[' || c == ']'
}

/// What normalization keeps: the instruction characters of `s`, in their
/// original order, everything else discarded.
pub open spec fn normalize_spec(s: Seq<char>) -> Seq<char>
    decreases s.len(),
{
    if s.len() == 0 {
        Seq::empty()
    } else if is_instr_char(s.last()) {
        normalize_spec(s.drop_last()).push(s.last())
    } else {
        normalize_spec(s.drop_last())
    }
}

/// `a` appears inside `b` in order, possibly with other items in between.
pub open spec fn is_subsequence_of(a: Seq<char>, b: Seq<char>) -> bool
    decreases b.len(),
{
    if a.len() == 0 {
        true
    } else if b.len() == 0 {
        false
    } else if a.last() == b.last() && is_subsequence_of(a.drop_last(), b.drop_last()) {
        true
    } else {
        is_subsequence_of(a, b.drop_last())
    }
}

/// The normalized text is a subsequence of the source made of instruction
/// characters only.
pub proof fn lemma_normalize_subsequence(s: Seq<char>)
    ensures
        is_subsequence_of(normalize_spec(s), s),
        forall|i: int|
            0 <= i < normalize_spec(s).len() ==> is_instr_char(#[trigger] normalize_spec(s)[i]),
    decreases s.len(),
{
    if s.len() == 0 {
    } else {
        lemma_normalize_subsequence(s.drop_last());
        if is_instr_char(s.last()) {
            let r = normalize_spec(s);
            assert(r == normalize_spec(s.drop_last()).push(s.last()));
            assert(r.drop_last() =~= normalize_spec(s.drop_last()));
            assert(r.last() == s.last());
            assert(forall|i: int|
                0 <= i < r.len() ==> is_instr_char(#[trigger] r[i])) by {
                assert(forall|i: int|
                    0 <= i < r.len() - 1 ==> r[i] == normalize_spec(s.drop_last())[i]);
            }
        } else {
            let r = normalize_spec(s);
            assert(r == normalize_spec(s.drop_last()));
            if r.len() > 0 && r.last() == s.last() && is_subsequence_of(r.drop_last(), s.drop_last()) {
            } else {
                assert(is_subsequence_of(r, s.drop_last()));
            }
        }
    }
}

/// Recognize one of the eight instruction characters.
pub fn instr_char(c: char) -> (b: bool)
    ensures
        b == is_instr_char(c),
{
    c == '>' || c == '<' || c == '+' || c == '-' || c == ',' || c == '.' || c == '[' || c == ']'
}

/// Strip every character that is not one of the eight instruction characters,
/// keeping the rest in their original order.
pub fn minify(source: &str) -> (r: String)
    ensures
        r@ == normalize_spec(source@),
{
    let n = source.unicode_len();
    let mut out = String::new();
    let mut i: usize = 0;
    while i < n
        invariant
            i <= n,
            n == source@.len(),
            out@ == normalize_spec(source@.take(i as int)),
        decreases n - i,
    {
        let c = source.get_char(i);
        if instr_char(c) {
            let piece = source.substring_char(i, i + 1);
            out.append(piece);
            proof {
                assert(piece@ =~= seq![source@[i as int]]);
            }
        }
        proof {
            let pre = source@.take(i as int);
            let post = source@.take(i + 1);
            assert(post.drop_last() =~= pre);
            assert(post.last() == source@[i as int]);
            if is_instr_char(source@[i as int]) {
                assert(out@ =~= normalize_spec(pre).push(source@[i as int]));
            }
        }
        i = i + 1;
    }
    proof {
        assert(source@.take(n as int) =~= source@);
    }
    out
}

} // verus!
