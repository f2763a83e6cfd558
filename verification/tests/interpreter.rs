use bf::{match_ops, parse, Interpreter, Op, StepEffect, SyntaxError, DEFAULT_MEMORY_SIZE};

const BUDGET: usize = 10_000_000;

fn run(source: &str, input: &[u8]) -> (Vec<u8>, bool) {
    let program = parse(source).expect("program should compile");
    let mut interp = Interpreter::new();
    interp.execute(&program, input, BUDGET)
}

#[test]
fn empty_program_compiles_to_nothing() {
    assert_eq!(parse(""), Ok(vec![]));
}

#[test]
fn empty_program_runs_as_noop() {
    let (out, halted) = run("", &[]);
    assert!(halted);
    assert!(out.is_empty());
}

#[test]
fn prints_letter_a() {
    let (out, halted) = run("++++++++[>++++++++<-]>+.", &[]);
    assert!(halted);
    assert_eq!(out, vec![65]);
}

#[test]
fn echoes_one_input_byte() {
    let (out, halted) = run(",.", &[0x41]);
    assert!(halted);
    assert_eq!(out, vec![0x41]);
}

#[test]
fn input_at_end_of_stream_reads_zero() {
    let (out, halted) = run("+,.", &[]);
    assert!(halted);
    assert_eq!(out, vec![0]);
}

#[test]
fn empty_loop_on_zero_tape_halts_immediately() {
    let (out, halted) = run("[]", &[]);
    assert!(halted);
    assert!(out.is_empty());
}

#[test]
fn outputs_from_two_successive_cells() {
    let (out, halted) = run("+++.>+++.", &[]);
    assert!(halted);
    assert_eq!(out, vec![3, 3]);
}

#[test]
fn cursor_moves_between_outputs() {
    let (out, halted) = run("+++.>+.", &[]);
    assert!(halted);
    assert_eq!(out, vec![3, 1]);
}

#[test]
fn unterminated_loop_is_rejected() {
    assert_eq!(parse("[[]"), Err(SyntaxError::UnterminatedLoop));
}

#[test]
fn unexpected_close_loop_is_rejected() {
    assert_eq!(parse("]"), Err(SyntaxError::UnexpectedCloseLoop));
}

#[test]
fn run_length_compression_wraps_modulo_256() {
    let source: String = std::iter::repeat('+').take(300).collect();
    assert_eq!(parse(&source), Ok(vec![Op::Add(44)]));
}

#[test]
fn runs_compress_to_single_instructions() {
    assert_eq!(
        parse(">>><<++--- ."),
        Ok(vec![
            Op::MoveRight(3),
            Op::MoveLeft(2),
            Op::Add(2),
            Op::Sub(3),
            Op::Output,
        ])
    );
}

#[test]
fn clear_idiom_is_folded() {
    assert_eq!(parse("[-]"), Ok(vec![Op::Clear]));
}

#[test]
fn clear_idiom_on_zero_cell_is_noop() {
    let (out, halted) = run("[-].", &[]);
    assert!(halted);
    assert_eq!(out, vec![0]);
}

#[test]
fn clear_idiom_matches_generic_loop() {
    let generic = vec![Op::OpenLoop(2), Op::Sub(1), Op::CloseLoop(0)];
    let folded = vec![Op::Clear];
    let mut a = Interpreter::new();
    let mut b = Interpreter::new();
    a.memory[5] = 7;
    a.mp = 5;
    b.memory[5] = 7;
    b.mp = 5;
    let (out_a, halted_a) = a.execute(&generic, &[], BUDGET);
    let (out_b, halted_b) = b.execute(&folded, &[], BUDGET);
    assert!(halted_a && halted_b);
    assert!(out_a.is_empty() && out_b.is_empty());
    assert_eq!(a.memory, b.memory);
    assert_eq!(a.memory[5], 0);
    assert_eq!(a.mp, b.mp);
}

#[test]
fn fused_add_equals_unit_adds() {
    let fused = vec![Op::Add(44)]; // 300 mod 256
    let unit: Vec<Op> = std::iter::repeat(Op::Add(1)).take(300).collect();
    let mut a = Interpreter::new();
    let mut b = Interpreter::new();
    a.memory[0] = 200;
    b.memory[0] = 200;
    a.execute(&fused, &[], BUDGET);
    b.execute(&unit, &[], BUDGET);
    assert_eq!(a.memory[0], 244); // (200 + 300) mod 256
    assert_eq!(a.memory, b.memory);
}

#[test]
fn fused_move_equals_unit_moves() {
    let fused = vec![Op::MoveRight(300)];
    let unit: Vec<Op> = std::iter::repeat(Op::MoveRight(1)).take(300).collect();
    let mut a = Interpreter::new();
    let mut b = Interpreter::new();
    a.execute(&fused, &[], BUDGET);
    b.execute(&unit, &[], BUDGET);
    assert_eq!(a.mp, 300);
    assert_eq!(a.mp, b.mp);
}

#[test]
fn other_bracketed_content_uses_generic_loops() {
    assert_eq!(
        parse("[--]"),
        Ok(vec![Op::OpenLoop(2), Op::Sub(2), Op::CloseLoop(0)])
    );
}

#[test]
fn nested_loops_resolve_independently() {
    assert_eq!(
        parse("[[]]"),
        Ok(vec![
            Op::OpenLoop(3),
            Op::OpenLoop(2),
            Op::CloseLoop(1),
            Op::CloseLoop(0),
        ])
    );
}

#[test]
fn comments_are_discarded() {
    let plain = parse("+++");
    let noisy = parse("a+ hello\n+ 42 world +!");
    assert_eq!(plain, noisy);
    assert_eq!(plain, Ok(vec![Op::Add(3)]));
}

#[test]
fn subtraction_wraps_below_zero() {
    let (out, halted) = run("-.", &[]);
    assert!(halted);
    assert_eq!(out, vec![255]);
}

#[test]
fn cursor_wraps_at_the_left_edge() {
    let program = parse("<").expect("program should compile");
    let mut interp = Interpreter::new();
    let (_, halted) = interp.execute(&program, &[], BUDGET);
    assert!(halted);
    assert_eq!(interp.mp, DEFAULT_MEMORY_SIZE - 1);
}

#[test]
fn cursor_wraps_at_the_right_edge() {
    let source: String = std::iter::repeat('>').take(DEFAULT_MEMORY_SIZE + 1).collect();
    let program = parse(&source).expect("program should compile");
    let mut interp = Interpreter::new();
    let (_, halted) = interp.execute(&program, &[], BUDGET);
    assert!(halted);
    assert_eq!(interp.mp, 1);
}

#[test]
fn budget_stops_an_infinite_loop() {
    let program = parse("+[]").expect("program should compile");
    let mut interp = Interpreter::new();
    let (out, halted) = interp.execute(&program, &[], 1000);
    assert!(!halted);
    assert!(out.is_empty());
}

#[test]
fn step_walks_one_instruction_at_a_time() {
    let program = parse("+.").expect("program should compile");
    let mut interp = Interpreter::new();
    assert_eq!(interp.step(&program), StepEffect::Ran);
    assert_eq!(interp.memory[0], 1);
    assert_eq!(interp.step(&program), StepEffect::Emit(1));
    assert_eq!(interp.step(&program), StepEffect::Halted);
}

#[test]
fn step_and_provide_input_feed_the_current_cell() {
    let program = parse(",").expect("program should compile");
    let mut interp = Interpreter::new();
    assert_eq!(interp.step(&program), StepEffect::NeedsInput);
    interp.provide_input(0x7f);
    assert_eq!(interp.memory[0], 0x7f);
    assert_eq!(interp.step(&program), StepEffect::Halted);
}

#[test]
fn new_interpreter_is_all_zero() {
    let interp = Interpreter::new();
    assert_eq!(interp.memory.len(), DEFAULT_MEMORY_SIZE);
    assert!(interp.memory.iter().all(|&b| b == 0));
    assert_eq!(interp.mp, 0);
    assert_eq!(interp.ip, 0);
}

#[test]
fn match_ops_checks_prefixes() {
    assert!(match_ops(&['-', ']'], "-]"));
    assert!(match_ops(&['-', ']', '+'], "-]"));
    assert!(!match_ops(&['-'], "-]"));
    assert!(!match_ops(&['-', '+'], "-]"));
    assert!(match_ops(&[], ""));
}
