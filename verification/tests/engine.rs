use backtick::cfg::{RunError, State};
use backtick::parser::{parse, Token};

const FUEL: u64 = 1_000_000;

fn run_program(src: &[u8]) -> State {
    let tokens = parse(src).expect("program should parse");
    let (state, result) = State::process(&tokens, vec![], FUEL);
    assert_eq!(result, Ok(true), "program should drain its stack");
    state
}

#[test]
fn prints_three() {
    // one increment per `+` from an empty tape, then one output byte
    let state = run_program(b"+++.");
    assert_eq!(state.output, vec![3]);
    assert_eq!(state.memory, vec![3]);
}

#[test]
fn function_executed_three_times() {
    let state = run_program(b"^x!`+`!x!x!x");
    assert_eq!(state.memory, vec![3]);
}

#[test]
fn condition_on_zero_takes_true_branch() {
    let state = run_program(b"=0 ?=0`+`:`-`");
    assert_eq!(state.memory, vec![1]);
}

#[test]
fn condition_on_five_takes_false_branch() {
    let state = run_program(b"=5 ?=0`+`:`-`");
    assert_eq!(state.memory, vec![4]);
}

#[test]
fn valid_logic_compares_literally() {
    let c = Token::Comparator(1, 0, None, None); // EQ 0
    assert!(State::valid_logic(0, &c));
    assert!(!State::valid_logic(5, &c));
    // anything but a comparator is never valid
    assert!(!State::valid_logic(0, &Token::Operator(b'+')));
}

#[test]
fn unknown_symbol_fails_without_tape_mutation() {
    let tokens = parse(b"!nosuch").unwrap();
    let (state, result) = State::process(&tokens, vec![], FUEL);
    assert_eq!(result, Err(RunError::UnknownSymbol(b"nosuch".to_vec())));
    assert!(state.memory.is_empty());
    assert_eq!(state.position, 0);
}

#[test]
fn unknown_symbol_preserves_earlier_tape() {
    let tokens = parse(b"+++ !nosuch").unwrap();
    let (state, result) = State::process(&tokens, vec![], FUEL);
    assert_eq!(result, Err(RunError::UnknownSymbol(b"nosuch".to_vec())));
    assert_eq!(state.memory, vec![3]);
}

#[test]
fn loop_body_runs_exactly_once() {
    // no `~` and no self-invocation: the body runs once, then the engine
    // proceeds to the next token
    let state = run_program(b"[+].");
    assert_eq!(state.memory, vec![1]);
    assert_eq!(state.output, vec![1]);
}

#[test]
fn loop_does_not_repeat_implicitly() {
    let state = run_program(b"[+++]");
    assert_eq!(state.memory, vec![3]);
}

#[test]
fn increment_wraps_at_eight_bits() {
    let mut s = State::new();
    s.memory.push(255);
    assert_eq!(s.process_operator(b'+', 1), Ok(()));
    assert_eq!(s.memory, vec![0]);
}

#[test]
fn decrement_wraps_at_eight_bits() {
    let mut s = State::new();
    s.memory.push(0);
    assert_eq!(s.process_operator(b'-', 1), Ok(()));
    assert_eq!(s.memory, vec![255]);
}

#[test]
fn multiplier_counts_act_modulo_256() {
    let state = run_program(b"+300");
    assert_eq!(state.memory, vec![44]);
}

#[test]
fn assign_truncates_to_one_byte() {
    let state = run_program(b"=300");
    assert_eq!(state.memory, vec![44]);
}

#[test]
fn assign_beyond_tape_backs_gap_with_zeros() {
    let state = run_program(b"@3=7");
    assert_eq!(state.memory, vec![0, 0, 0, 7]);
}

#[test]
fn array_write_beyond_tape_backs_gap_with_zeros() {
    let state = run_program(b"@2={9,8}");
    assert_eq!(state.memory, vec![0, 0, 9, 8]);
}

#[test]
fn array_overwrites_existing_cells() {
    let state = run_program(b"={1,2,3}@1={9}");
    assert_eq!(state.memory, vec![1, 9, 3]);
}

#[test]
fn pointer_moves_and_addressing() {
    let state = run_program(b">2+@0+");
    assert_eq!(state.memory, vec![1, 0, 1]);
    assert_eq!(state.position, 0);
}

#[test]
fn pointer_below_zero_is_out_of_bounds() {
    let tokens = parse(b"<").unwrap();
    let (_, result) = State::process(&tokens, vec![], FUEL);
    assert_eq!(result, Err(RunError::OutOfBounds(0)));
}

#[test]
fn pointer_beyond_range_is_out_of_bounds() {
    let tokens = parse(b">65535>").unwrap();
    let (_, result) = State::process(&tokens, vec![], FUEL);
    assert_eq!(result, Err(RunError::OutOfBounds(65535)));
}

#[test]
fn condition_read_of_unbacked_cell_is_out_of_bounds() {
    let tokens = parse(b"?=0`+`").unwrap();
    let (state, result) = State::process(&tokens, vec![], FUEL);
    assert_eq!(result, Err(RunError::OutOfBounds(0)));
    assert!(state.memory.is_empty());
}

#[test]
fn indirect_operand_dereferences_the_tape() {
    // cell 0 holds 2, cell 1 holds 2: compare cell under pointer with the
    // cell the operand addresses
    let state = run_program(b"={2,2}?=@1`+`");
    assert_eq!(state.memory, vec![3, 2]);
}

#[test]
fn output_is_clipped_at_tape_end() {
    let state = run_program(b"={7,8}.5");
    assert_eq!(state.output, vec![7, 8]);
}

#[test]
fn comma_appends_one_input_line() {
    let tokens = parse(b",.2").unwrap();
    let (state, result) = State::process(&tokens, vec![b"AB".to_vec()], FUEL);
    assert_eq!(result, Ok(true));
    assert_eq!(state.memory, vec![65, 66]);
    assert_eq!(state.output, vec![65, 66]);
}

#[test]
fn comma_without_queued_input_appends_nothing() {
    let state = run_program(b",");
    assert!(state.memory.is_empty());
}

#[test]
fn tilde_clears_the_continuation_stack() {
    // everything after `~` is discarded
    let state = run_program(b"+~+++");
    assert_eq!(state.memory, vec![1]);
}

#[test]
fn execute_of_bare_label_jumps_to_its_address() {
    // a label stores the position at declaration; executing it jumps back
    let state = run_program(b"@5^mark@0!mark=9");
    assert_eq!(state.position, 5);
    assert_eq!(state.memory, vec![0, 0, 0, 0, 0, 9]);
}

#[test]
fn redeclaring_a_name_shadows_the_prior_entry() {
    let state = run_program(b"^f!`+`^f!`-`=5!f");
    assert_eq!(state.memory, vec![4]);
}

#[test]
fn comments_are_retained_but_do_nothing() {
    let ts = parse(b"``note``+").unwrap();
    assert_eq!(ts, vec![Token::Comment, Token::Operator(b'+')]);
    let (state, result) = State::process(&ts, vec![], FUEL);
    assert_eq!(result, Ok(true));
    assert_eq!(state.memory, vec![1]);
}

#[test]
fn run_reports_fuel_exhaustion() {
    let tokens = parse(b"+++").unwrap();
    let (_, result) = State::process(&tokens, vec![], 1);
    assert_eq!(result, Ok(false));
}

#[test]
fn empty_stack_next_is_a_noop() {
    let mut s = State::new();
    assert_eq!(s.next(), Ok(()));
    assert!(s.stack.is_empty());
}

#[test]
fn populate_stack_puts_first_token_on_top() {
    let mut s = State::new();
    s.populate_stack(&vec![Token::Operator(b'+'), Token::Operator(b'-')]);
    assert_eq!(
        s.stack,
        vec![Token::Operator(b'-'), Token::Operator(b'+')]
    );
}

#[test]
fn current_reads_the_cell_under_the_pointer() {
    let mut s = State::new();
    s.memory.push(42);
    assert_eq!(s.current(), 42);
}

#[test]
fn set_writes_at_the_pointer() {
    let mut s = State::new();
    s.position = 2;
    s.set(777);
    assert_eq!(s.memory, vec![0, 0, 9]); // 777 mod 256
}
