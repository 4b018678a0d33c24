use equation::{compile, eval, eval_step, show_program, show_stack, show_term, CompileError, Def, Op, Procedure, State, Term};

fn var(name: &str) -> Term {
    Term::Var(name.to_string())
}

fn app(parts: Vec<Term>) -> Term {
    Term::App(parts)
}

fn def(name: &str, params: &[&str], term: Term) -> Def {
    Def {
        name: name.to_string(),
        params: params.iter().map(|p| p.to_string()).collect(),
        term,
    }
}

fn names(list: &[&str]) -> Vec<String> {
    list.iter().map(|n| n.to_string()).collect()
}

#[test]
fn identity_applied_to_identity() {
    let prog = vec![def("id", &["x"], var("x")), def("main", &[], app(vec![var("id"), var("id")]))];
    let mut state = compile(&prog).unwrap();
    assert_eq!(state.stack, vec![Op::Def(1)]);
    assert_eq!(state.procs[0].arity, 1);
    assert_eq!(state.procs[0].body, vec![Op::Arg(0)]);
    assert_eq!(state.procs[1].body, vec![Op::App, Op::Def(0), Op::Def(0)]);
    assert_eq!(eval_step(&mut state), Some(()));
    assert_eq!(state.stack, vec![Op::App, Op::Def(0), Op::Def(0)]);
    assert_eq!(show_stack(&state.names, &state.stack), "(id id)");
    assert_eq!(eval_step(&mut state), Some(()));
    assert_eq!(state.stack, vec![Op::Def(0)]);
    assert_eq!(eval_step(&mut state), None);
    assert_eq!(state.stack, vec![Op::Def(0)]);
    let prog = vec![def("id", &["x"], var("x")), def("main", &[], app(vec![var("id"), var("id")]))];
    let done = eval(compile(&prog).unwrap());
    assert_eq!(show_stack(&done.names, &done.stack), "id");
}

#[test]
fn missing_entry_point() {
    let prog = vec![def("id", &["x"], var("x"))];
    let err = compile(&prog).unwrap_err();
    assert_eq!(err, CompileError::MissingEntryPoint);
    assert_eq!(err.message(), "no main function defined");
}

#[test]
fn empty_program_has_no_entry_point() {
    assert_eq!(compile(&vec![]).unwrap_err(), CompileError::MissingEntryPoint);
}

#[test]
fn undefined_variable() {
    let prog = vec![def("main", &[], app(vec![var("main"), var("y"), var("z")]))];
    let err = compile(&prog).unwrap_err();
    assert_eq!(err, CompileError::UndefinedVariable("y".to_string()));
    assert_eq!(err.message(), "undefined variable: y");
}

#[test]
fn undefined_variable_reported_before_missing_entry() {
    let prog = vec![def("f", &["a"], var("b"))];
    assert_eq!(compile(&prog).unwrap_err(), CompileError::UndefinedVariable("b".to_string()));
}

#[test]
fn duplicate_definition_name() {
    let prog = vec![def("main", &[], var("main")), def("main", &["a"], var("a"))];
    let err = compile(&prog).unwrap_err();
    assert_eq!(err, CompileError::DuplicateName("main".to_string()));
    assert_eq!(err.message(), "duplicate name: main");
}

#[test]
fn duplicate_parameter_name() {
    let prog = vec![def("k", &["a", "b", "a"], var("a")), def("main", &[], var("k"))];
    assert_eq!(compile(&prog).unwrap_err(), CompileError::DuplicateName("a".to_string()));
}

#[test]
fn stuck_call_leaves_state_unchanged() {
    let mut state = State {
        names: names(&["k", "x"]),
        procs: vec![
            Procedure { arity: 2, body: vec![Op::Arg(0)] },
            Procedure { arity: 0, body: vec![Op::Def(1)] },
        ],
        stack: vec![Op::App, Op::Def(1), Op::Def(0)],
        args: vec![],
        arg_ranges: vec![],
    };
    assert_eq!(eval_step(&mut state), None);
    assert_eq!(state.stack, vec![Op::App, Op::Def(1), Op::Def(0)]);
    assert_eq!(eval_step(&mut state), None);
    assert_eq!(state.stack, vec![Op::App, Op::Def(1), Op::Def(0)]);
    assert!(state.args.is_empty());
    assert!(state.arg_ranges.is_empty());
}

#[test]
fn exposed_application_is_dropped() {
    let mut state = State {
        names: names(&["x"]),
        procs: vec![Procedure { arity: 0, body: vec![] }],
        stack: vec![Op::Def(0), Op::App],
        args: vec![],
        arg_ranges: vec![],
    };
    assert_eq!(eval_step(&mut state), None);
    assert_eq!(state.stack, vec![Op::Def(0)]);
}

#[test]
fn empty_stack_makes_no_progress() {
    let mut state = State {
        names: names(&["x"]),
        procs: vec![Procedure { arity: 0, body: vec![] }],
        stack: vec![],
        args: vec![],
        arg_ranges: vec![],
    };
    assert_eq!(eval_step(&mut state), None);
    assert!(state.stack.is_empty());
    assert_eq!(show_stack(&state.names, &state.stack), "");
}

#[test]
fn substitution_duplicates_the_argument() {
    let prog = vec![
        def("f", &["x"], app(vec![var("x"), var("x")])),
        def("a", &["p", "q"], var("p")),
        def("main", &[], app(vec![var("f"), app(vec![var("a"), var("main")])])),
    ];
    let mut state = compile(&prog).unwrap();
    assert_eq!(state.procs[0].body, vec![Op::App, Op::Arg(0), Op::Arg(0)]);
    assert_eq!(eval_step(&mut state), Some(()));
    let arg = vec![Op::App, Op::Def(2), Op::Def(1)];
    let mut expected = vec![Op::App];
    expected.extend(arg.iter().copied());
    expected.push(Op::Def(0));
    assert_eq!(state.stack, expected);
    assert_eq!(eval_step(&mut state), Some(()));
    let mut expected = vec![Op::App];
    expected.extend(arg.iter().copied());
    expected.extend(arg.iter().copied());
    assert_eq!(state.stack, expected);
    assert_eq!(state.args, arg);
    assert_eq!(state.arg_ranges, vec![0..3]);
    assert_eq!(show_stack(&state.names, &state.stack), "(a main (a main))");
}

#[test]
fn definitions_shadow_parameters() {
    let prog = vec![
        def("x", &[], var("x")),
        def("h", &["x"], var("x")),
        def("main", &[], app(vec![var("h"), var("x")])),
    ];
    let state = compile(&prog).unwrap();
    assert_eq!(state.procs[1].arity, 1);
    assert_eq!(state.procs[1].body, vec![Op::Def(0)]);
}

#[test]
fn arguments_taken_in_order() {
    let prog = vec![
        def("k", &["a", "b"], var("a")),
        def("s", &["a", "b"], var("b")),
        def("main", &[], app(vec![var("k"), var("s"), var("main")])),
    ];
    let mut state = compile(&prog).unwrap();
    assert_eq!(state.procs[2].body, vec![Op::App, Op::Def(2), Op::App, Op::Def(1), Op::Def(0)]);
    assert_eq!(eval_step(&mut state), Some(()));
    assert_eq!(eval_step(&mut state), Some(()));
    assert_eq!(state.stack, vec![Op::Def(1)]);
    assert_eq!(state.arg_ranges, vec![0..1, 1..2]);
    assert_eq!(state.args, vec![Op::Def(1), Op::Def(2)]);
    let state = eval(state);
    assert_eq!(show_stack(&state.names, &state.stack), "s");
}

#[test]
fn nested_arguments_are_extracted_whole() {
    let prog = vec![
        def("k", &["a", "b"], var("b")),
        def("i", &["a"], var("a")),
        def("main", &[], app(vec![var("k"), app(vec![var("i"), var("i")]), app(vec![var("i"), var("k"), var("i")])])),
    ];
    let state = eval(compile(&prog).unwrap());
    assert_eq!(show_stack(&state.names, &state.stack), "(k i)");
}

#[test]
fn compiled_body_is_reversed_flattening() {
    let prog = vec![def("main", &["a", "b", "c"], app(vec![app(vec![var("a"), var("b")]), app(vec![var("c"), var("main")])]))];
    let state = compile(&prog).unwrap();
    assert_eq!(
        state.procs[0].body,
        vec![Op::App, Op::App, Op::Def(0), Op::Arg(2), Op::App, Op::Arg(1), Op::Arg(0)]
    );
}

#[test]
fn stack_reconstruction_canonical_form() {
    let names = names(&["a", "b", "c"]);
    // forward: a b @ c @  (left-nested applications flatten)
    let stack = vec![Op::App, Op::Def(2), Op::App, Op::Def(1), Op::Def(0)];
    assert_eq!(show_stack(&names, &stack), "(a b c)");
    // forward: a b c @ @
    let stack = vec![Op::App, Op::App, Op::Def(2), Op::Def(1), Op::Def(0)];
    assert_eq!(show_stack(&names, &stack), "(a (b c))");
    // a parameter reference is shown by the name at its index
    let stack = vec![Op::App, Op::Arg(2), Op::Def(0)];
    assert_eq!(show_stack(&names, &stack), "(a c)");
    assert_eq!(show_stack(&names, &vec![Op::App]), "");
}

#[test]
fn terms_are_printed_with_parentheses() {
    assert_eq!(show_term(&var("x")), "x");
    let t = app(vec![var("f"), app(vec![var("g"), var("x")]), var("y")]);
    assert_eq!(show_term(&t), "(f (g x) y)");
    let t = app(vec![app(vec![var("f"), var("x")]), var("y")]);
    assert_eq!(show_term(&t), "((f x) y)");
}

#[test]
fn programs_are_printed_one_definition_per_line() {
    let prog = vec![
        def("id", &["x"], var("x")),
        def("k", &["a", "b"], var("a")),
        def("main", &[], app(vec![var("id"), var("id")])),
    ];
    assert_eq!(show_program(&prog), "id x = x;\nk a b = a;\nmain = (id id);");
    assert_eq!(show_program(&vec![]), "");
}

#[test]
fn flattened_term_reads_back_in_canonical_form() {
    let prog = vec![
        def("a", &[], var("a")),
        def("b", &[], var("b")),
        def("c", &[], var("c")),
        def(
            "main",
            &[],
            app(vec![app(vec![var("a"), var("b")]), app(vec![var("c"), app(vec![var("a"), var("b")])]), var("c")]),
        ),
    ];
    let state = compile(&prog).unwrap();
    assert_eq!(show_stack(&state.names, &state.procs[3].body), "(a b (c (a b)) c)");
    assert_eq!(show_stack(&state.names, &state.procs[0].body), "a");
}
