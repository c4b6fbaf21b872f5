use vstd::prelude::*;
use vstd::string::StrSliceExecFns;
use vstd::string::StringExecFns;

verus! {

/// The middle character of a rewritable three-character loop idiom.
pub open spec fn is_idiom_mid(c: char) -> bool {
    c == '-' || c == '+' || c == '<' || c == '>'
}

/// The shorthand character that stands for a loop over the given middle
/// character: both arithmetic loops zero the cell, the movement loops scan.
pub open spec fn shorthand_for(c: char) -> char {
    if c == '-' || c == '+' {
        'c'
    } else if c == '<' {
        'l'
    } else {
        'r'
    }
}

/// A three-character idiom begins at position `i` of `s`.
pub open spec fn idiom_at(s: Seq<char>, i: int) -> bool {
    &&& 0 <= i
    &&& i + 3 <= s.len()
    &&& s[i] == '['
    &&& is_idiom_mid(s[i + 1])
    &&& s[i + 2] == ']'
}

/// Greedy left-to-right replacement of every idiom occurrence by its
/// shorthand character. Occurrences of distinct idioms can never overlap, so
/// one pass replaces them all.
pub open spec fn rewrite_spec(s: Seq<char>) -> Seq<char>
    decreases s.len(),
{
    if s.len() == 0 {
        Seq::empty()
    } else if idiom_at(s, 0) {
        seq![shorthand_for(s[1])] + rewrite_spec(s.skip(3))
    } else {
        seq![s[0]] + rewrite_spec(s.skip(1))
    }
}

proof fn lemma_rewrite_head(s: Seq<char>)
    ensures
        (s.len() == 0) == (rewrite_spec(s).len() == 0),
        s.len() > 0 ==> rewrite_spec(s)[0] == (if idiom_at(s, 0) {
            shorthand_for(s[1])
        } else {
            s[0]
        }),
{
}

/// No idiom occurrence survives rewriting: a shorthand character interrupts
/// every place where one stood, and none is created.
pub proof fn lemma_rewrite_idiom_free(s: Seq<char>)
    ensures
        forall|i: int| !idiom_at(#[trigger] rewrite_spec(s), i),
    decreases s.len(),
{
    if s.len() == 0 {
    } else if idiom_at(s, 0) {
        let tail = rewrite_spec(s.skip(3));
        lemma_rewrite_idiom_free(s.skip(3));
        let r = rewrite_spec(s);
        assert forall|i: int| !idiom_at(r, i) by {
            if 0 <= i && i + 3 <= r.len() {
                if i == 0 {
                    assert(r[0] == shorthand_for(s[1]));
                    assert(r[0] != '[');
                } else {
                    assert(r[i] == tail[i - 1] && r[i + 1] == tail[i] && r[i + 2] == tail[i + 1]);
                    assert(!idiom_at(tail, i - 1));
                }
            }
        }
    } else {
        let tail = rewrite_spec(s.skip(1));
        lemma_rewrite_idiom_free(s.skip(1));
        let r = rewrite_spec(s);
        assert forall|i: int| !idiom_at(r, i) by {
            if 0 <= i && i + 3 <= r.len() {
                if i == 0 {
                    if r[0] == '[' {
                        assert(r[0] == s[0]);
                        assert(tail.len() >= 2);
                        assert(r[1] == tail[0] && r[2] == tail[1]);
                        lemma_rewrite_head(s.skip(1));
                        assert(s.skip(1).len() > 0);
                        if idiom_at(s.skip(1), 0) {
                            assert(tail[0] == shorthand_for(s.skip(1)[1]));
                            assert(!is_idiom_mid(tail[0]));
                        } else {
                            assert(tail[0] == s.skip(1)[0]);
                            assert(tail[0] == s[1]);
                            if is_idiom_mid(r[1]) {
                                // r[2] is the head of the rewrite of s.skip(2).
                                assert(tail =~= seq![s[1]] + rewrite_spec(s.skip(1).skip(1)));
                                assert(s.skip(1).skip(1) =~= s.skip(2));
                                lemma_rewrite_head(s.skip(2));
                                assert(tail[1] == rewrite_spec(s.skip(2))[0]);
                                if s.skip(2).len() > 0 && idiom_at(s.skip(2), 0) {
                                    assert(tail[1] == shorthand_for(s.skip(2)[1]));
                                    assert(tail[1] != ']');
                                } else {
                                    assert(rewrite_spec(s.skip(2)).len() > 0);
                                    assert(s.skip(2).len() > 0);
                                    assert(tail[1] == s.skip(2)[0]);
                                    assert(tail[1] == s[2]);
                                    if r[2] == ']' {
                                        assert(idiom_at(s, 0));
                                    }
                                }
                            }
                        }
                    }
                } else {
                    assert(r[i] == tail[i - 1] && r[i + 1] == tail[i] && r[i + 2] == tail[i + 1]);
                    assert(!idiom_at(tail, i - 1));
                }
            }
        }
    }
}

/// Rewriting idiom-free text changes nothing.
pub proof fn lemma_rewrite_of_idiom_free_is_identity(s: Seq<char>)
    requires
        forall|i: int| !idiom_at(s, i),
    ensures
        rewrite_spec(s) == s,
    decreases s.len(),
{
    if s.len() == 0 {
        assert(rewrite_spec(s) =~= s);
    } else {
        assert(!idiom_at(s, 0));
        assert forall|i: int| !idiom_at(#[trigger] s.skip(1), i) by {
            if 0 <= i && i + 3 <= s.skip(1).len() {
                assert(s.skip(1)[i] == s[i + 1]);
                assert(s.skip(1)[i + 1] == s[i + 2]);
                assert(s.skip(1)[i + 2] == s[i + 3]);
                assert(!idiom_at(s, i + 1));
            }
        }
        lemma_rewrite_of_idiom_free_is_identity(s.skip(1));
        assert(rewrite_spec(s) =~= s);
    }
}

/// Rewriting is idempotent: a second pass over rewritten text is the identity.
pub proof fn lemma_rewrite_idempotent(s: Seq<char>)
    ensures
        rewrite_spec(rewrite_spec(s)) == rewrite_spec(s),
{
    lemma_rewrite_idiom_free(s);
    lemma_rewrite_of_idiom_free_is_identity(rewrite_spec(s));
}

/// A character that rewritten text may hold: one of the eight instruction
/// characters or one of the three shorthands.
pub open spec fn is_rewritten_char(c: char) -> bool {
    crate::normalize::is_instr_char(c) || c == 'c' || c == 'l' || c == 'r'
}

/// Rewriting text made of instruction characters yields only instruction and
/// shorthand characters.
pub proof fn lemma_rewrite_chars(s: Seq<char>)
    requires
        forall|i: int| 0 <= i < s.len() ==> crate::normalize::is_instr_char(#[trigger] s[i]),
    ensures
        forall|i: int|
            0 <= i < rewrite_spec(s).len() ==> is_rewritten_char(#[trigger] rewrite_spec(s)[i]),
    decreases s.len(),
{
    if s.len() == 0 {
    } else if idiom_at(s, 0) {
        let rest = s.skip(3);
        assert forall|i: int| 0 <= i < rest.len() implies crate::normalize::is_instr_char(
            #[trigger] rest[i],
        ) by {
            assert(rest[i] == s[i + 3]);
        }
        lemma_rewrite_chars(rest);
        let r = rewrite_spec(s);
        assert forall|i: int| 0 <= i < r.len() implies is_rewritten_char(#[trigger] r[i]) by {
            if i > 0 {
                assert(r[i] == rewrite_spec(rest)[i - 1]);
            }
        }
    } else {
        let rest = s.skip(1);
        assert forall|i: int| 0 <= i < rest.len() implies crate::normalize::is_instr_char(
            #[trigger] rest[i],
        ) by {
            assert(rest[i] == s[i + 1]);
        }
        lemma_rewrite_chars(rest);
        let r = rewrite_spec(s);
        assert forall|i: int| 0 <= i < r.len() implies is_rewritten_char(#[trigger] r[i]) by {
            if i == 0 {
                assert(r[0] == s[0]);
            } else {
                assert(r[i] == rewrite_spec(rest)[i - 1]);
            }
        }
    }
}

/// Replace every occurrence of the four three-character idioms with the
/// single shorthand character for the bulk operation it performs.
pub fn optimize(source: &str) -> (r: String)
    ensures
        r@ == rewrite_spec(source@),
{
    let n = source.unicode_len();
    let mut out = String::new();
    let mut i: usize = 0;
    proof {
        assert(source@.skip(0) =~= source@);
        assert(out@ + rewrite_spec(source@) =~= rewrite_spec(source@));
    }
    while i < n
        invariant
            i <= n,
            n == source@.len(),
            rewrite_spec(source@) == out@ + rewrite_spec(source@.skip(i as int)),
        decreases n - i,
    {
        let rest_len = n - i;
        let mut matched = false;
        if rest_len >= 3 {
            let c0 = source.get_char(i);
            let c2 = source.get_char(i + 2);
            if c0 == '[' && c2 == ']' {
                let c1 = source.get_char(i + 1);
                if c1 == '-' || c1 == '+' {
                    out.append("c");
                    matched = true;
                } else if c1 == '<' {
                    out.append("l");
                    matched = true;
                } else if c1 == '>' {
                    out.append("r");
                    matched = true;
                }
                proof {
                    reveal_strlit("c");
                    reveal_strlit("l");
                    reveal_strlit("r");
                }
            }
        }
        proof {
            let rest = source@.skip(i as int);
            assert(rest.len() == n - i);
            if rest.len() >= 3 {
                assert(rest[0] == source@[i as int]);
                assert(rest[1] == source@[i + 1]);
                assert(rest[2] == source@[i + 2]);
            }
            if matched {
                assert(idiom_at(rest, 0));
                assert(rewrite_spec(rest) == seq![shorthand_for(rest[1])] + rewrite_spec(
                    rest.skip(3),
                ));
                assert(rest.skip(3) =~= source@.skip(i + 3));
                assert(out@ + rewrite_spec(source@.skip(i + 3)) =~= rewrite_spec(source@));
            } else {
                assert(!idiom_at(rest, 0));
                assert(rewrite_spec(rest) == seq![rest[0]] + rewrite_spec(rest.skip(1)));
                assert(rest.skip(1) =~= source@.skip(i + 1));
            }
        }
        if matched {
            i = i + 3;
        } else {
            let piece = source.substring_char(i, i + 1);
            out.append(piece);
            proof {
                assert(piece@ =~= seq![source@[i as int]]);
                assert(out@ + rewrite_spec(source@.skip(i + 1)) =~= rewrite_spec(source@));
            }
            i = i + 1;
        }
    }
    proof {
        assert(source@.skip(n as int) =~= Seq::<char>::empty());
        assert(rewrite_spec(source@) =~= out@);
    }
    out
}

} // verus!
