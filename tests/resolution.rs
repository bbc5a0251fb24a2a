use clip::{create_arg, Argument, Clip, Error, Input, Type};

fn register(parser: &mut Clip, arg: Argument) {
    assert_eq!(arg.verify(parser), Ok(()));
    arg.add(parser);
}

fn input(name: &str, values: &[&str]) -> Input {
    Input {
        name: name.to_string(),
        values: values.iter().map(|v| v.to_string()).collect(),
    }
}

fn file_and_output(file_arity: i32) -> Clip {
    let mut parser = Clip::new("foo");
    register(
        &mut parser,
        create_arg("--file")
            .alias("-f")
            .add_param("file", file_arity, Type::String),
    );
    register(
        &mut parser,
        create_arg("--output")
            .alias("-o")
            .add_param("output", 1, Type::String),
    );
    parser
}

#[test]
fn aliases_resolve_to_canonical_names() {
    let parser = file_and_output(1);
    let r = parser.parse(&"-f foo.rs -o out.o".to_string());
    assert_eq!(
        r,
        Ok(vec![input("--file", &["foo.rs"]), input("--output", &["out.o"])])
    );
}

#[test]
fn alias_and_name_resolve_alike() {
    let parser = file_and_output(1);
    let by_alias = parser.parse(&"-o out.o".to_string());
    let by_name = parser.parse(&"--output out.o".to_string());
    assert_eq!(by_alias, by_name);
    assert_eq!(by_alias, Ok(vec![input("--output", &["out.o"])]));
}

#[test]
fn starved_fixed_parameter() {
    let parser = file_and_output(2);
    let r = parser.parse(&"-f foo.rs".to_string());
    assert_eq!(
        r,
        Err(Error::ExpectedParameter {
            argument: "--file".to_string(),
            parameter: "file".to_string(),
        })
    );
}

#[test]
fn starvation_names_the_starved_parameter() {
    let mut parser = Clip::new("foo");
    register(
        &mut parser,
        create_arg("--pair")
            .add_param("left", 1, Type::Any)
            .add_param("right", 2, Type::Any),
    );
    assert_eq!(
        parser.parse(&"--pair a b".to_string()),
        Err(Error::ExpectedParameter {
            argument: "--pair".to_string(),
            parameter: "right".to_string(),
        })
    );
    assert_eq!(
        parser.parse(&"--pair".to_string()),
        Err(Error::ExpectedParameter {
            argument: "--pair".to_string(),
            parameter: "left".to_string(),
        })
    );
    assert_eq!(
        parser.parse(&"--pair a b c".to_string()),
        Ok(vec![input("--pair", &["a", "b", "c"])])
    );
}

#[test]
fn fixed_parameters_take_flag_tokens_verbatim() {
    let parser = file_and_output(1);
    assert_eq!(
        parser.parse(&"-o -f".to_string()),
        Ok(vec![input("--output", &["-f"])])
    );
}

#[test]
fn unbounded_parameter_stops_before_next_flag() {
    let parser = file_and_output(-1);
    assert_eq!(
        parser.parse(&"--file a.rs b.rs -o out.o".to_string()),
        Ok(vec![
            input("--file", &["a.rs", "b.rs"]),
            input("--output", &["out.o"])
        ])
    );
    assert_eq!(
        parser.parse(&"-o out.o --file a.rs b.rs".to_string()),
        Ok(vec![
            input("--output", &["out.o"]),
            input("--file", &["a.rs", "b.rs"])
        ])
    );
}

#[test]
fn unbounded_parameter_in_the_middle() {
    let parser = file_and_output(-1);
    assert_eq!(
        parser.parse(&"-o a -f x y -o b".to_string()),
        Ok(vec![
            input("--output", &["a"]),
            input("--file", &["x", "y"]),
            input("--output", &["b"])
        ])
    );
}

#[test]
fn unbounded_parameter_may_take_nothing() {
    let parser = file_and_output(-1);
    assert_eq!(
        parser.parse(&"-f -f".to_string()),
        Ok(vec![input("--file", &[]), input("--file", &[])])
    );
}

#[test]
fn unknown_token() {
    let parser = file_and_output(1);
    assert_eq!(
        parser.parse(&"--unknown".to_string()),
        Err(Error::UnknownArgument("--unknown".to_string()))
    );
    assert_eq!(
        Clip::new("empty").parse(&"--unknown".to_string()),
        Err(Error::UnknownArgument("--unknown".to_string()))
    );
}

#[test]
fn unknown_token_discards_earlier_inputs() {
    let parser = file_and_output(1);
    assert_eq!(
        parser.parse(&"-o out.o --unknown -f foo.rs".to_string()),
        Err(Error::UnknownArgument("--unknown".to_string()))
    );
}

#[test]
fn groups_in_another_order_give_the_same_inputs() {
    let parser = file_and_output(-1);
    let one = parser.parse(&"-f a b -o out".to_string()).unwrap();
    let two = parser.parse(&"-o out -f a b".to_string()).unwrap();
    assert_eq!(one.len(), 2);
    assert_eq!(one[0], two[1]);
    assert_eq!(one[1], two[0]);
}

#[test]
fn repeated_flags_each_give_an_input() {
    let parser = file_and_output(1);
    assert_eq!(
        parser.parse(&"-o a --output b".to_string()),
        Ok(vec![input("--output", &["a"]), input("--output", &["b"])])
    );
}

#[test]
fn double_space_gives_an_empty_token() {
    let parser = file_and_output(1);
    assert_eq!(
        parser.parse(&"-o  out.o".to_string()),
        Err(Error::UnknownArgument("out.o".to_string()))
    );
    assert_eq!(
        parser.parse(&"-o ".to_string()),
        Ok(vec![input("--output", &[""])])
    );
    assert_eq!(
        parser.parse(&"".to_string()),
        Err(Error::UnknownArgument("".to_string()))
    );
}

#[test]
fn positional_arguments_fill_in_order() {
    let mut parser = Clip::new("Clip");
    register(&mut parser, create_arg("input").positional(Type::File).help("input"));
    register(
        &mut parser,
        create_arg("mode")
            .positional(Type::Choice(&["read", "write", "append"]))
            .help("file modes"),
    );
    register(&mut parser, create_arg("output").positional(Type::File).help("output"));
    assert_eq!(
        parser.parse(&"data.txt read out.txt".to_string()),
        Ok(vec![
            input("input", &["data.txt"]),
            input("mode", &["read"]),
            input("output", &["out.txt"])
        ])
    );
    assert_eq!(
        parser.parse(&"a b c d".to_string()),
        Err(Error::UnknownArgument("d".to_string()))
    );
}

#[test]
fn variadic_argument_takes_runs_of_stray_tokens() {
    let mut parser = Clip::new("Clip");
    register(
        &mut parser,
        create_arg("input files").variadic(Type::File).help("input files"),
    );
    register(
        &mut parser,
        create_arg("--output")
            .alias("-o")
            .add_param("output", 1, Type::File)
            .help("output file"),
    );
    assert_eq!(
        parser.parse(&"input1 input2 --output a.out input3".to_string()),
        Ok(vec![
            input("input files", &["input1", "input2"]),
            input("--output", &["a.out"]),
            input("input files", &["input3"])
        ])
    );
}

#[test]
fn positional_before_variadic() {
    let mut parser = Clip::new("Clip");
    register(&mut parser, create_arg("first").positional(Type::Any));
    register(&mut parser, create_arg("rest").variadic(Type::Any));
    register(&mut parser, create_arg("-v"));
    assert_eq!(
        parser.parse(&"a b c -v d".to_string()),
        Ok(vec![
            input("first", &["a"]),
            input("rest", &["b", "c"]),
            input("-v", &[]),
            input("rest", &["d"])
        ])
    );
}

#[test]
fn parse_vec_takes_tokens_as_given() {
    let parser = file_and_output(1);
    let tokens = vec!["-o".to_string(), "out file.o".to_string()];
    assert_eq!(
        parser.parse_vec(&tokens),
        Ok(vec![input("--output", &["out file.o"])])
    );
    assert_eq!(parser.parse_vec(&Vec::new()), Ok(vec![]));
}

#[test]
fn parse_arg_takes_parameters_from_a_position() {
    let parser = file_and_output(1);
    let arg = create_arg("--pair")
        .add_param("a", 1, Type::Any)
        .add_param("b", 1, Type::Any);
    let tokens = vec![
        "x".to_string(),
        "--pair".to_string(),
        "p".to_string(),
        "q".to_string(),
        "r".to_string(),
    ];
    let (made, end) = parser.parse_arg(&tokens, 2, &arg).unwrap();
    assert_eq!(made, input("--pair", &["p", "q"]));
    assert_eq!(end, 4);
    assert_eq!(
        parser.parse_arg(&tokens, 4, &arg),
        Err(Error::ExpectedParameter {
            argument: "--pair".to_string(),
            parameter: "b".to_string(),
        })
    );
}

#[test]
fn unbounded_capture_stops_before_a_positional_name() {
    let mut parser = Clip::new("foo");
    register(&mut parser, create_arg("in").positional(Type::File));
    register(&mut parser, create_arg("--file").add_param("file", -1, Type::File));
    assert_eq!(
        parser.parse(&"--file a.rs in".to_string()),
        Ok(vec![input("--file", &["a.rs"]), input("in", &[])])
    );
    assert_eq!(
        parser.parse(&"--file in".to_string()),
        Ok(vec![input("--file", &[]), input("in", &[])])
    );
}

#[test]
fn parse_arg_leaves_a_registered_name_unconsumed() {
    let mut parser = Clip::new("foo");
    register(&mut parser, create_arg("in").positional(Type::File));
    let arg = create_arg("--file").add_param("file", -1, Type::File);
    let tokens = vec!["in".to_string()];
    let (made, end) = parser.parse_arg(&tokens, 0, &arg).unwrap();
    assert_eq!(made, input("--file", &[]));
    assert_eq!(end, 0);
    let tokens = vec!["x".to_string(), "y".to_string(), "in".to_string(), "z".to_string()];
    let (made, end) = parser.parse_arg(&tokens, 0, &arg).unwrap();
    assert_eq!(made, input("--file", &["x", "y"]));
    assert_eq!(end, 2);
}

#[test]
fn variadic_run_stops_before_a_registered_name() {
    let mut parser = Clip::new("foo");
    register(&mut parser, create_arg("rest").variadic(Type::Any));
    register(&mut parser, create_arg("mark").positional(Type::Any));
    register(&mut parser, create_arg("-v"));
    // "a" fills the positional place, "b c" start the variadic run, which
    // stops before the name "rest" itself
    assert_eq!(
        parser.parse(&"a b c rest d".to_string()),
        Ok(vec![
            input("mark", &["a"]),
            input("rest", &["b", "c"]),
            input("rest", &[]),
            input("rest", &["d"])
        ])
    );
}

#[test]
fn unbounded_capture_runs_to_the_end() {
    let mut parser = Clip::new("foo");
    register(
        &mut parser,
        create_arg("--files")
            .add_param("first", 1, Type::File)
            .add_param("more", -1, Type::File),
    );
    register(&mut parser, create_arg("-q"));
    assert_eq!(
        parser.parse(&"-q --files -q a b".to_string()),
        Ok(vec![input("-q", &[]), input("--files", &["-q", "a", "b"])])
    );
}
