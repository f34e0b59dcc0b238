use c2bf::{run, Codegen, CompileError, Machine, SyntaxNode};

fn convert(node: tree_sitter::Node, src: &str) -> SyntaxNode {
    let mut fields = Vec::new();
    for i in 0..node.child_count() {
        if let Some(name) = node.field_name_for_child(i as u32) {
            if let Some(child) = node.child(i) {
                fields.push((name.to_string(), convert(child, src)));
            }
        }
    }
    let mut children = Vec::new();
    let mut cursor = node.walk();
    for child in node.named_children(&mut cursor) {
        children.push(convert(child, src));
    }
    SyntaxNode {
        kind: node.kind().to_string(),
        text: node.utf8_text(src.as_bytes()).unwrap().to_string(),
        fields,
        children,
    }
}

fn parse(src: &str) -> SyntaxNode {
    let mut parser = tree_sitter::Parser::new();
    parser.set_language(&tree_sitter_c::LANGUAGE.into()).unwrap();
    let tree = parser.parse(src, None).unwrap();
    convert(tree.root_node(), src)
}

fn compile(src: &str) -> Result<String, CompileError> {
    Codegen::new().generate(&parse(src)).map(|c| c.code)
}

fn execute(src: &str) -> Machine {
    let code = compile(src).unwrap();
    match run(&code, Vec::new(), 1_000_000) {
        Ok(m) => m,
        Err(e) => panic!("run failed: {:?}", e),
    }
}

fn output(src: &str) -> Vec<u8> {
    execute(src).output
}

fn leaf(kind: &str, text: &str) -> SyntaxNode {
    SyntaxNode { kind: kind.to_string(), text: text.to_string(), fields: vec![], children: vec![] }
}

#[test]
fn prints_a_character_variable() {
    assert_eq!(output("int main(){ char a = 65; putchar(a); }"), b"A".to_vec());
}

#[test]
fn adds_two_variables() {
    assert_eq!(output("int main(){ char a=3; char b=4; char c=a+b; putchar(c); }"), vec![7]);
}

#[test]
fn if_else_takes_the_consequence_on_true() {
    let src = "int main(){ bool t = true; if (t) { putchar('Y'); } else { putchar('N'); } }";
    assert_eq!(output(src), b"Y".to_vec());
}

#[test]
fn if_else_takes_the_alternative_on_false() {
    let src = "int main(){ bool t = false; if (t) { putchar('Y'); } else { putchar('N'); } }";
    assert_eq!(output(src), b"N".to_vec());
}

#[test]
fn for_loop_runs_its_body_three_times() {
    let src = "int main(){ for (char i = 0; i != 3; i = i + 1) { putchar('A' + i); } }";
    assert_eq!(output(src), b"ABC".to_vec());
}

#[test]
fn for_loop_starts_from_its_initializer() {
    let src = "int main(){ for (char i = 5; i != 8; i = i + 1) { putchar('0' + i); } }";
    assert_eq!(output(src), b"567".to_vec());
}

#[test]
fn while_loop_counts_down() {
    let src = "int main(){ char n = 2; while (n != 0) { putchar('x'); n = n - 1; } }";
    assert_eq!(output(src), b"xx".to_vec());
}

#[test]
fn compiling_twice_gives_the_same_text() {
    let src = "int main(){ char n = 2; while (n != 0) { if (n == 1) { putchar('y'); } else { putchar('x'); } n = n - 1; } }";
    let tree = parse(src);
    let a = Codegen::new().generate(&tree).unwrap().code;
    let b = Codegen::new().generate(&tree).unwrap().code;
    assert_eq!(a, b);
    assert_eq!(output(src), b"xy".to_vec());
}

#[test]
fn reading_a_variable_keeps_its_value() {
    let src = "int main(){ char a = 5; putchar(a + a + a); putchar(a); putchar(a == a); }";
    assert_eq!(output(src), vec![15, 5, 1]);
}

#[test]
fn if_else_runs_exactly_one_branch() {
    for v in [0u32, 1, 2, 7, 255] {
        let src = format!(
            "int main(){{ char c = {}; char hits = 0; if (c) {{ putchar('T'); hits = hits + 1; }} else {{ putchar('F'); hits = hits + 1; }} putchar(hits); }}",
            v
        );
        let expected = if v == 0 { vec![b'F', 1] } else { vec![b'T', 1] };
        assert_eq!(output(&src), expected, "condition {}", v);
    }
}

#[test]
fn if_without_else_skips_on_zero() {
    assert_eq!(output("int main(){ char c = 0; if (c) { putchar('T'); } putchar('.'); }"), b".".to_vec());
    assert_eq!(output("int main(){ char c = 9; if (c) { putchar('T'); } putchar('.'); }"), b"T.".to_vec());
}

#[test]
fn arithmetic_wraps_modulo_256() {
    let values = [0u32, 1, 2, 17, 100, 127, 128, 200, 254, 255];
    for a in values {
        for b in values {
            let src = format!(
                "int main(){{ char a = {}; char b = {}; putchar(a + b); putchar(a - b); putchar(a == b); putchar(a != b); }}",
                a, b
            );
            let expected = vec![
                ((a + b) % 256) as u8,
                ((a + 256 - b) % 256) as u8,
                (a == b) as u8,
                (a != b) as u8,
            ];
            assert_eq!(output(&src), expected, "a = {}, b = {}", a, b);
        }
    }
}

#[test]
fn literals_are_taken_modulo_256() {
    assert_eq!(output("int main(){ putchar(300); putchar(256 - 1); }"), vec![44, 255]);
}

#[test]
fn blocks_leave_their_cells_zeroed() {
    let m = execute("int main(){ char a = 7; { char b = 9; char c = b + a; putchar(c); } a + 3; }");
    assert_eq!(m.output, vec![16]);
    assert_eq!(m.ptr, 0);
    assert!(m.memory.iter().all(|&c| c == 0));
}

#[test]
fn inner_scope_shadows_outer() {
    let src = "int main(){ char a = 1; { char a = 2; putchar(a); } putchar(a); }";
    assert_eq!(output(src), vec![2, 1]);
}

#[test]
fn character_escapes() {
    assert_eq!(output("int main(){ putchar('\\n'); putchar('\\t'); putchar('z'); }"), vec![10, 9, b'z']);
}

#[test]
fn exact_text_of_a_declaration() {
    assert_eq!(compile("int main(){ char a = 2; }").unwrap(), ">++><[<+>-]<[-]");
}

#[test]
fn exact_text_of_an_output() {
    assert_eq!(compile("int main(){ putchar(true); }").unwrap(), "+><.[-]");
}

#[test]
fn includes_are_skipped_and_counted() {
    let c = Codegen::new().generate(&parse("#include <stdio.h>\nint main(){ putchar(1); }")).unwrap();
    assert_eq!(c.ignored_includes, 1);
    assert_eq!(c.code, "+><.[-]");
}

#[test]
fn unsupported_statement_is_rejected() {
    assert_eq!(compile("int main(){ return 0; }"), Err(CompileError::Unsupported));
}

#[test]
fn other_functions_are_rejected() {
    assert_eq!(compile("void f(){} int main(){}"), Err(CompileError::Unsupported));
}

#[test]
fn unsupported_operator_is_rejected() {
    assert_eq!(compile("int main(){ char a = 2 * 3; }"), Err(CompileError::UnsupportedOperator));
    assert_eq!(compile("int main(){ char a = 2; a += 3; }"), Err(CompileError::UnsupportedOperator));
}

#[test]
fn unsupported_type_is_rejected() {
    assert_eq!(compile("int main(){ int a = 2; }"), Err(CompileError::UnsupportedType));
}

#[test]
fn unresolved_identifier_is_rejected() {
    assert_eq!(compile("int main(){ putchar(z); }"), Err(CompileError::UnresolvedIdentifier));
    assert_eq!(
        compile("int main(){ { char a = 1; } putchar(a); }"),
        Err(CompileError::UnresolvedIdentifier)
    );
}

#[test]
fn missing_field_is_rejected() {
    let function = leaf("function_definition", "main");
    let root = SyntaxNode {
        kind: "translation_unit".to_string(),
        text: "main".to_string(),
        fields: vec![],
        children: vec![function],
    };
    assert_eq!(Codegen::new().generate(&root).map(|c| c.code), Err(CompileError::MissingField));
}

#[test]
fn invalid_literal_is_rejected() {
    assert_eq!(compile("int main(){ char a = 0x41; }"), Err(CompileError::InvalidLiteral));
}

#[test]
fn unbalanced_body_is_rejected() {
    assert_eq!(compile("int main(){ char t = 1; if (t) 5; }"), Err(CompileError::UnbalancedBody));
}

#[test]
fn increment_is_rejected() {
    assert_eq!(
        compile("int main(){ for (char i = 0; i != 3; i++) { } }"),
        Err(CompileError::Unsupported)
    );
}

#[test]
fn stack_overflow_is_rejected() {
    let state = Codegen { stack_pointer: usize::MAX, output: Vec::new() };
    let root = parse("int main(){ putchar(1); }");
    assert_eq!(state.generate(&root).map(|c| c.code), Err(CompileError::StackOverflow));
}

#[test]
fn root_must_be_a_translation_unit() {
    let root = leaf("identifier", "x");
    assert_eq!(Codegen::new().generate(&root).map(|c| c.code), Err(CompileError::Unsupported));
}
