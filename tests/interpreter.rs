use c2bf::{format_program, is_expression, is_statement, run, tokenize, RunError, Token, TAPE_LEN};

#[test]
fn tokenize_builds_nested_loops() {
    let tokens = tokenize("+ [->\n+<]@").unwrap();
    assert_eq!(tokens.len(), 3);
    assert!(matches!(tokens[0], Token::IncVal));
    match &tokens[1] {
        Token::Loop(body) => {
            assert_eq!(body.len(), 4);
            assert!(matches!(body[0], Token::DecVal));
            assert!(matches!(body[3], Token::DecPtr));
        }
        other => panic!("expected a loop, found {:?}", other),
    }
    assert!(matches!(tokens[2], Token::Debug));
}

#[test]
fn tokenize_rejects_bad_text() {
    assert_eq!(tokenize("+a").err(), Some(RunError::InvalidInstruction));
    assert_eq!(tokenize("[+").err(), Some(RunError::UnbalancedBrackets));
    assert_eq!(tokenize("+]").err(), Some(RunError::UnbalancedBrackets));
}

#[test]
fn tokenize_skips_unicode_whitespace() {
    let tokens = tokenize("+\u{a0}+\u{3000}.\u{b}").unwrap();
    assert_eq!(tokens.len(), 3);
}

#[test]
fn run_moves_and_counts() {
    let m = run("+++[->++<]>.", Vec::new(), 100).unwrap();
    assert_eq!(m.output, vec![6]);
    assert_eq!(m.ptr, 1);
    assert_eq!(m.memory.len(), TAPE_LEN);
}

#[test]
fn run_wraps_cells() {
    let m = run("-.+.", Vec::new(), 10).unwrap();
    assert_eq!(m.output, vec![255, 0]);
}

#[test]
fn run_reads_input() {
    let m = run(",+.,.", vec![b'a', b'z'], 10).unwrap();
    assert_eq!(m.output, vec![b'b', b'z']);
}

#[test]
fn run_reports_exhausted_input() {
    assert_eq!(run(",", Vec::new(), 10).err(), Some(RunError::InputExhausted));
}

#[test]
fn run_reports_pointer_out_of_range() {
    assert_eq!(run("<", Vec::new(), 10).err(), Some(RunError::PointerOutOfRange));
}

#[test]
fn run_reports_out_of_fuel() {
    assert_eq!(run("+[]", Vec::new(), 50).err(), Some(RunError::OutOfFuel));
}

#[test]
fn debug_takes_a_snapshot() {
    let m = run("++>+@", Vec::new(), 10).unwrap();
    assert_eq!(m.snapshots.len(), 1);
    assert_eq!(m.snapshots[0].ptr, 1);
    assert_eq!(&m.snapshots[0].cells[..3], &[2, 1, 0]);
}

#[test]
fn kind_classification() {
    assert!(is_statement(&"while_statement".to_string()));
    assert!(!is_statement(&"identifier".to_string()));
    assert!(is_expression(&"identifier".to_string()));
    assert!(!is_expression(&"comma_expression".to_string()));
}

#[test]
fn format_indents_loops() {
    let src: Vec<char> = "+ [->+<] x".chars().collect();
    let out: String = format_program(&src).into_iter().collect();
    assert_eq!(out, "+\n[\n\t->+<\n]\n");
    let nested: Vec<char> = "[[-]]".chars().collect();
    let out: String = format_program(&nested).into_iter().collect();
    assert_eq!(out, "\n[\n\t\n\t[\n\t\t-\n\t]\n\t\n]\n");
}
