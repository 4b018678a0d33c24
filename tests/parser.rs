use equation::{compile, eval, parse_program, show_program, show_stack, show_term, CompileError, Term};

fn names(t: &Term) -> String {
    show_term(t)
}

#[test]
fn parses_definitions() {
    let prog = parse_program("id x = x;\nmain = id id;").unwrap();
    assert_eq!(prog.len(), 2);
    assert_eq!(prog[0].name, "id");
    assert_eq!(prog[0].params, vec!["x".to_string()]);
    assert_eq!(names(&prog[0].term), "x");
    assert_eq!(prog[1].name, "main");
    assert!(prog[1].params.is_empty());
    assert_eq!(names(&prog[1].term), "(id id)");
    assert_eq!(show_program(&prog), "id x = x;\nmain = (id id);");
}

#[test]
fn comment_only_input_is_an_empty_program() {
    let prog = parse_program("-- just a comment\n").unwrap();
    assert!(prog.is_empty());
    assert_eq!(compile(&prog).unwrap_err(), CompileError::MissingEntryPoint);
}

#[test]
fn comments_and_whitespace_between_tokens() {
    let text = "/* block\n comment */ k a b = a; -- line\n\tmain/**/=\r\n(k main) k ; -- end";
    let prog = parse_program(text).unwrap();
    assert_eq!(prog.len(), 2);
    assert_eq!(prog[0].params, vec!["a".to_string(), "b".to_string()]);
    assert_eq!(names(&prog[1].term), "((k main) k)");
}

#[test]
fn parentheses_around_a_single_term() {
    let prog = parse_program("main = ((x));").unwrap();
    assert_eq!(names(&prog[0].term), "x");
    let prog = parse_program("main = (f (g h)) x;").unwrap();
    assert_eq!(names(&prog[0].term), "((f (g h)) x)");
}

#[test]
fn printed_program_parses_back() {
    let text = "s x y z = x z (y z);\nk x y = x;\nmain = s k k main;";
    let prog = parse_program(text).unwrap();
    let printed = show_program(&prog);
    let again = parse_program(&printed).unwrap();
    assert_eq!(show_program(&again), printed);
}

#[test]
fn missing_semicolon_is_rejected() {
    let err = parse_program("main = x").unwrap_err();
    assert_eq!(err, "Parsing Error: unexpected input: main = x");
}

#[test]
fn unterminated_block_comment_is_rejected() {
    assert!(parse_program("/* open\nmain = x;").is_err());
}

#[test]
fn trailing_garbage_is_rejected() {
    let err = parse_program("main = x;\n;").unwrap_err();
    assert_eq!(err, "Parsing Error: unexpected input: ;");
}

#[test]
fn empty_parentheses_are_rejected() {
    assert!(parse_program("main = ();").is_err());
    assert!(parse_program("main = x (;").is_err());
}

#[test]
fn identity_program_end_to_end() {
    let prog = parse_program("id x = x;\nmain = id id;").unwrap();
    let state = eval(compile(&prog).unwrap());
    assert_eq!(show_stack(&state.names, &state.stack), "id");
}

#[test]
fn undefined_variable_end_to_end() {
    let prog = parse_program("main = f x;").unwrap();
    assert_eq!(compile(&prog).unwrap_err(), CompileError::UndefinedVariable("f".to_string()));
}

#[test]
fn non_ascii_text_in_comments() {
    let prog = parse_program("-- λ calcul\nmain = main; /* ü */").unwrap();
    assert_eq!(prog.len(), 1);
}
