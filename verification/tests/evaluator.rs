use bfvm::compile::compile;
use bfvm::evaluate;
use bfvm::instr::EvalError;
use bfvm::instr::Instruction;
use bfvm::machine::execute;
use bfvm::normalize::minify;
use bfvm::rewrite::optimize;

#[test]
fn hello_world() {
    assert_eq!(evaluate("++++++++++[>+++++++>++++++++++>+++>+<<<<-]>++.>+.+++++++..+++.>++.<<+++++++++++++++.>.+++.------.--------.>+.>.", false).unwrap(), "Hello World!\n");
}

#[test]
fn hello_world_live_output() {
    assert_eq!(evaluate("++++++++++[>+++++++>++++++++++>+++>+<<<<-]>++.>+.+++++++..+++.>++.<<+++++++++++++++.>.+++.------.--------.>+.>.", true).unwrap(), "Hello World!\n");
}

#[test]
fn empty_source_gives_empty_output() {
    assert_eq!(evaluate("", false).unwrap(), "");
}

#[test]
fn non_instruction_characters_are_ignored() {
    assert_eq!(evaluate("say one with a plus: + now print it: .", false).unwrap(), "\u{1}");
}

#[test]
fn minify_keeps_instruction_characters_in_order() {
    assert_eq!(minify("a + b [ - ] ."), "+[-].");
    assert_eq!(minify("no instructions at all"), "");
    assert_eq!(minify(""), "");
}

#[test]
fn optimize_rewrites_all_four_idioms() {
    assert_eq!(optimize("[-][+][<][>]"), "cclr");
}

#[test]
fn optimize_is_idempotent_on_rewritten_text() {
    let once = optimize("[[-]]");
    assert_eq!(once, "[c]");
    assert_eq!(optimize(&once), once);
}

#[test]
fn optimize_leaves_plain_loops_alone() {
    assert_eq!(optimize("[->+<]"), "[->+<]");
}

#[test]
fn move_runs_collapse_to_net_move() {
    assert_eq!(compile(">>><<").unwrap(), vec![Instruction::MoveRight(1)]);
    assert_eq!(compile("<<<>>").unwrap(), vec![Instruction::MoveLeft(1)]);
    assert_eq!(compile("><").unwrap(), vec![]);
}

#[test]
fn arith_runs_collapse_to_net_amount() {
    assert_eq!(compile("+++--").unwrap(), vec![Instruction::Add(1)]);
    assert_eq!(compile("++---").unwrap(), vec![Instruction::Sub(1)]);
    assert_eq!(compile("+-").unwrap(), vec![]);
}

#[test]
fn cancelled_runs_emit_no_instruction_and_compilation_goes_on() {
    assert_eq!(evaluate("+-.", false).unwrap(), "\u{0}");
    assert_eq!(evaluate("><.", false).unwrap(), "\u{0}");
}

#[test]
fn bracket_targets_are_mutual() {
    assert_eq!(
        compile("[[]]").unwrap(),
        vec![
            Instruction::LoopStart(3),
            Instruction::LoopStart(2),
            Instruction::LoopEnd(1),
            Instruction::LoopEnd(0),
        ]
    );
    assert_eq!(
        compile("[][]").unwrap(),
        vec![
            Instruction::LoopStart(1),
            Instruction::LoopEnd(0),
            Instruction::LoopStart(3),
            Instruction::LoopEnd(2),
        ]
    );
}

#[test]
fn unmatched_open_bracket_aborts() {
    assert_eq!(evaluate("[", false), Err(EvalError::UnbalancedBrackets));
    assert_eq!(evaluate("+[.", false), Err(EvalError::UnbalancedBrackets));
}

#[test]
fn unmatched_close_bracket_aborts() {
    assert_eq!(evaluate("]", false), Err(EvalError::UnbalancedBrackets));
    assert_eq!(evaluate("+].", false), Err(EvalError::UnbalancedBrackets));
}

#[test]
fn addition_wraps_modulo_256() {
    let mut source = String::new();
    source.push_str(&"+".repeat(200));
    source.push_str("><");
    source.push_str(&"+".repeat(130));
    source.push('.');
    assert_eq!(evaluate(&source, false).unwrap(), "J");
}

#[test]
fn subtraction_wraps_modulo_256() {
    let source = format!("{}.", "-".repeat(182));
    assert_eq!(evaluate(&source, false).unwrap(), "J");
}

#[test]
fn clear_idiom_zeroes_a_nonzero_cell() {
    assert_eq!(evaluate("+++++[-]", false).unwrap(), "");
    assert_eq!(evaluate("+++++[-].", false).unwrap(), "\u{0}");
    assert_eq!(evaluate("+++[+].", false).unwrap(), "\u{0}");
}

#[test]
fn scan_right_stops_on_first_zero_cell() {
    assert_eq!(evaluate("+>+<[>].", false).unwrap(), "\u{0}");
}

#[test]
fn scan_left_stops_on_first_zero_cell() {
    assert_eq!(evaluate(">+>+[<].", false).unwrap(), "\u{0}");
}

#[test]
fn input_instruction_is_unsupported() {
    assert_eq!(evaluate(",", false), Err(EvalError::InputUnsupported));
}

#[test]
fn moving_left_off_the_tape_aborts() {
    assert_eq!(evaluate("<", false), Err(EvalError::OutOfBounds));
}

#[test]
fn moving_right_off_the_tape_aborts() {
    assert_eq!(evaluate(&">".repeat(30000), false), Err(EvalError::OutOfBounds));
}

#[test]
fn output_that_is_not_text_aborts() {
    assert_eq!(evaluate("-.", false), Err(EvalError::InvalidOutput));
}

#[test]
fn nested_loop_multiplies() {
    assert_eq!(evaluate("++[>+++<-]>.", false).unwrap(), "\u{6}");
}

#[test]
fn execute_returns_output_bytes() {
    let prog = compile("+.").unwrap();
    assert_eq!(execute(&prog, false).unwrap(), vec![1u8]);
    let empty = compile("").unwrap();
    assert_eq!(execute(&empty, false).unwrap(), Vec::<u8>::new());
}
