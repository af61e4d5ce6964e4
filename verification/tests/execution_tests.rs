use bfvm::run_code;
use bfvm::ExecutionError;
use bfvm::optimizer::optimize_code;
use bfvm::optimizer::OptimizationOptions;
use bfvm::parser::parse_code;
use bfvm::parser::ParserError;
use bfvm::vm::run_block;
use bfvm::vm::InputSource;
use bfvm::vm::Node;
use bfvm::vm::RuntimeError;
use bfvm::vm::State;
use bfvm::vm::TAPE_LEN;

const BUDGET: u64 = 10_000_000;

#[test]
fn it_should_return_parser_errors_when_running_code() {
    let mut stdin = InputSource::new(vec![]);
    let mut stdout = vec![];
    let mut s = State::default();

    let code = "[[]";
    let result = run_code(
        &code.as_bytes().to_vec(),
        &mut stdin,
        &mut stdout,
        &mut s,
        BUDGET,
    );

    assert_eq!(
        result,
        Some(Err(ExecutionError::Parse(ParserError::MissingDelimiter)))
    );
}

#[test]
fn it_should_optimize_a_zero_loop_to_an_assignment() {
    let parsed = parse_code(&"[-]".as_bytes().to_vec()).unwrap();
    let optimized = optimize_code(&parsed, &OptimizationOptions::default());

    assert_eq!(optimized, vec![Node::Assign(0, 0, false)]);
}

#[test]
fn it_should_collapse_and_run_a_multiplication_loop() {
    let parsed = parse_code(&"[>>+++<<-]".as_bytes().to_vec()).unwrap();
    let optimized = optimize_code(&parsed, &OptimizationOptions::default());

    assert_eq!(
        optimized,
        vec![Node::Mul(3, 2, 0, false), Node::Assign(0, 0, false)]
    );

    let mut stdin = InputSource::new(vec![]);
    let mut stdout = vec![];
    let mut s = State::default();
    s.cells[0] = 5;

    run_block(&mut stdin, &mut stdout, &optimized, &mut s, BUDGET)
        .unwrap()
        .unwrap();

    assert_eq!(s.cells[0], 0);
    assert_eq!(s.cells[2], 15);
    assert_eq!(s.pos, 0);
}

#[test]
fn it_should_collapse_and_run_a_scan_loop() {
    let parsed = parse_code(&"[>>]".as_bytes().to_vec()).unwrap();
    let optimized = optimize_code(&parsed, &OptimizationOptions::default());

    assert_eq!(optimized, vec![Node::Scan(2)]);

    let mut stdin = InputSource::new(vec![]);
    let mut stdout = vec![];
    let mut s = State::default();
    s.cells[0] = 1;
    s.cells[2] = 0;

    run_block(&mut stdin, &mut stdout, &optimized, &mut s, BUDGET)
        .unwrap()
        .unwrap();

    assert_eq!(s.pos, 2);
}

#[test]
fn it_should_wrap_the_pointer_around_the_tape_end() {
    let mut stdin = InputSource::new(vec![]);
    let mut stdout = vec![];
    let mut s = State::default();
    s.pos = TAPE_LEN - 1;

    run_code(
        &">>>".as_bytes().to_vec(),
        &mut stdin,
        &mut stdout,
        &mut s,
        BUDGET,
    )
    .unwrap()
    .unwrap();

    assert_eq!(s.pos, 2);
}

#[test]
fn it_should_do_nothing_for_an_empty_program() {
    let parsed = parse_code(&"".as_bytes().to_vec()).unwrap();
    assert_eq!(parsed, vec![]);

    let mut stdin = InputSource::new(vec![]);
    let mut stdout = vec![];
    let initial = State::default();
    let mut s = initial.clone();

    run_code(&vec![], &mut stdin, &mut stdout, &mut s, BUDGET)
        .unwrap()
        .unwrap();

    assert_eq!(s.pos, initial.pos);
    assert_eq!(s.cells[0..], initial.cells[0..]);
    assert_eq!(stdout.len(), 0);
}

#[test]
fn it_should_report_exhausted_input_as_a_read_error() {
    let mut stdin = InputSource::new(vec![]);
    let mut stdout = vec![];
    let mut s = State::default();

    let result = run_code(
        &",".as_bytes().to_vec(),
        &mut stdin,
        &mut stdout,
        &mut s,
        BUDGET,
    );

    assert_eq!(
        result,
        Some(Err(ExecutionError::Run(RuntimeError::ReadError(
            "No data from stdin".to_string()
        ))))
    );
}

#[test]
fn it_should_report_an_exhausted_step_budget() {
    let mut stdin = InputSource::new(vec![]);
    let mut stdout = vec![];
    let mut s = State::default();

    // An endless loop: cell 0 stays 1 forever.
    let result = run_code(
        &"+[]".as_bytes().to_vec(),
        &mut stdin,
        &mut stdout,
        &mut s,
        10_000,
    );

    assert_eq!(result, None);
    assert_eq!(s.cells[0], 1);
}

#[test]
fn it_should_run_optimized_and_unoptimized_trees_alike() {
    // Walks, arithmetic, a multiplication loop, a scan loop and I/O; the
    // optimized and the merely comment-stripped tree must leave identical
    // tape, pointer and output from the same inputs.
    let program = "++++[>++++<-]>[>+>++<<-]>.>.>,+.<<<advance:[>]>>---.";
    let parsed = parse_code(&program.as_bytes().to_vec()).unwrap();

    let stripped_only = OptimizationOptions {
        collapsed_operators: false,
        collapsed_assignments: false,
        collapsed_offsets: false,
        collapsed_loops: false,
        collapsed_scan_loops: false,
    };
    let plain = optimize_code(&parsed, &stripped_only);
    let optimized = optimize_code(&parsed, &OptimizationOptions::default());

    let mut stdin_a = InputSource::new(vec![7]);
    let mut stdout_a = vec![];
    let mut sa = State::default();
    run_block(&mut stdin_a, &mut stdout_a, &plain, &mut sa, BUDGET)
        .unwrap()
        .unwrap();

    let mut stdin_b = InputSource::new(vec![7]);
    let mut stdout_b = vec![];
    let mut sb = State::default();
    run_block(&mut stdin_b, &mut stdout_b, &optimized, &mut sb, BUDGET)
        .unwrap()
        .unwrap();

    assert_eq!(sa.pos, sb.pos);
    assert_eq!(sa.cells[0..], sb.cells[0..]);
    assert_eq!(stdout_a, stdout_b);
}

#[test]
fn it_should_preserve_state_across_runs() {
    let mut stdin = InputSource::new(vec![]);
    let mut stdout = vec![];
    let mut s = State::default();

    run_code(&"+++".as_bytes().to_vec(), &mut stdin, &mut stdout, &mut s, BUDGET)
        .unwrap()
        .unwrap();
    run_code(&">++".as_bytes().to_vec(), &mut stdin, &mut stdout, &mut s, BUDGET)
        .unwrap()
        .unwrap();

    assert_eq!(s.cells[0], 3);
    assert_eq!(s.cells[1], 2);
    assert_eq!(s.pos, 1);
}
