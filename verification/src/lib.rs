use vstd::prelude::*;

pub mod compile;
pub mod instr;
pub mod machine;
pub mod normalize;
pub mod rewrite;

verus! {

use vstd::utf8::decode_utf8;
use vstd::utf8::valid_utf8;
use crate::compile::balanced;
use crate::compile::compile_spec;
use crate::compile::emit_spec;
use crate::compile::lemma_emit_recognized;
use crate::compile::lemma_resolution_succeeds_iff_balanced;
use crate::compile::recognized_char;
use crate::instr::EvalError;
use crate::instr::Instruction;
use crate::machine::Outcome;
use crate::machine::STEP_LIMIT;
use crate::machine::run_n;

/// The resolved program that a source text compiles to, after normalization
/// and idiom rewriting, or the error that compilation raises.
pub open spec fn program_of(src: Seq<char>) -> Result<Seq<Instruction>, EvalError> {
    compile_spec(crate::rewrite::rewrite_spec(crate::normalize::normalize_spec(src)))
}

/// Relies on String::from_utf8: the bytes become a string exactly when they
/// are valid UTF-8, and the string's characters are their decoding.
#[verifier::external_body]
fn bytes_to_string(bytes: Vec<u8>) -> (r: Option<String>)
    ensures
        r is Some <==> valid_utf8(bytes@),
        r matches Some(s) ==> s@ == decode_utf8(bytes@),
{
    String::from_utf8(bytes).ok()
}

/// The pipeline never hands the compiler an unrecognized character, so any
/// source compiles exactly when the brackets of its rewritten text are
/// balanced; a source with an unmatched bracket is rejected with the
/// unbalanced-brackets error, never answered with a program.
pub proof fn lemma_unbalanced_source_rejected(src: Seq<char>)
    ensures
        ({
            let t = crate::rewrite::rewrite_spec(crate::normalize::normalize_spec(src));
            &&& emit_spec(t) is Some
            &&& (program_of(src) is Ok <==> balanced(emit_spec(t).unwrap()))
            &&& (!balanced(emit_spec(t).unwrap()) ==> program_of(src) == Err::<
                Seq<Instruction>,
                EvalError,
            >(EvalError::UnbalancedBrackets))
        }),
{
    let norm = crate::normalize::normalize_spec(src);
    crate::normalize::lemma_normalize_subsequence(src);
    crate::rewrite::lemma_rewrite_chars(norm);
    let t = crate::rewrite::rewrite_spec(norm);
    assert forall|i: int| 0 <= i < t.len() implies recognized_char(#[trigger] t[i]) by {
        assert(crate::rewrite::is_rewritten_char(t[i]));
    }
    lemma_emit_recognized(t);
    let p = emit_spec(t).unwrap();
    lemma_resolution_succeeds_iff_balanced(p);
}

/// Evaluate a source text: strip non-instruction characters, rewrite the
/// bulk-operation idioms, compile to a resolved program, and run it against
/// a fresh tape. Returns the program's whole output as text, or the error
/// that aborted the evaluation; no partial output is ever returned. With
/// `print_live` set, each output byte is also written to standard output the
/// moment it is produced.
pub fn evaluate(source: &str, print_live: bool) -> (r: Result<String, EvalError>)
    ensures
        match program_of(source@) {
            Err(e) => r == Err::<String, EvalError>(e),
            Ok(p) => match r {
                Ok(text) => exists|n: nat|
                    #[trigger] run_n(p, n) matches Outcome::Halted(b) && valid_utf8(b) && text@
                        == decode_utf8(b),
                Err(e) => (exists|n: nat| run_n(p, n) == Outcome::Failed(e)) || (e
                    == EvalError::InvalidOutput && exists|n: nat|
                    #[trigger] run_n(p, n) matches Outcome::Halted(b) && !valid_utf8(b)) || (e
                    == EvalError::StepLimitExceeded && run_n(p, STEP_LIMIT as nat) is Running),
            },
        },
{
    let minified = crate::normalize::minify(source);
    let optimized = crate::rewrite::optimize(minified.as_str());
    match crate::compile::compile(optimized.as_str()) {
        Err(e) => Err(e),
        Ok(prog) => match crate::machine::execute(&prog, print_live) {
            Err(e) => Err(e),
            Ok(bytes) => {
                let ghost bs = bytes@;
                let ghost p = prog@;
                match bytes_to_string(bytes) {
                    None => {
                        proof {
                            let n0 = choose|n: nat| run_n(p, n) == Outcome::Halted(bs);
                            assert(run_n(p, n0) matches Outcome::Halted(b) && !valid_utf8(b));
                        }
                        Err(EvalError::InvalidOutput)
                    },
                    Some(text) => {
                        proof {
                            let n0 = choose|n: nat| run_n(p, n) == Outcome::Halted(bs);
                            assert(run_n(p, n0) matches Outcome::Halted(b) && valid_utf8(b)
                                && text@ == decode_utf8(b));
                        }
                        Ok(text)
                    },
                }
            },
        },
    }
}

} // verus!
