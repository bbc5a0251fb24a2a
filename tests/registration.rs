use clip::{create_arg, Argument, Clip, Mode, RegistrationError, Type};

fn register(parser: &mut Clip, arg: Argument) {
    assert_eq!(arg.verify(parser), Ok(()));
    arg.add(parser);
}

#[test]
fn variadic_fail() {
    let parser = Clip::new("foo");
    let arg = create_arg("--file")
        .alias("-f")
        .add_param("file", -1, Type::String)
        .add_param("config_file", 1, Type::String)
        .help("input file");
    assert_eq!(
        arg.verify(&parser),
        Err(RegistrationError::MisplacedUnbounded("file".to_string()))
    );
}

#[test]
fn erreneous_alias() {
    let parser = Clip::new("foo");
    let arg = create_arg("file")
        .positional(Type::File)
        .alias("-f")
        .help("input file");
    assert_eq!(
        arg.verify(&parser),
        Err(RegistrationError::WrongMode("file".to_string()))
    );
}

#[test]
fn erreneous_param() {
    let parser = Clip::new("foo");
    let arg = create_arg("file")
        .variadic(Type::File)
        .add_param("foo", 1, Type::String)
        .help("input file");
    assert_eq!(
        arg.verify(&parser),
        Err(RegistrationError::WrongMode("file".to_string()))
    );
}

#[test]
fn duplicate_args() {
    let mut parser = Clip::new("foo");
    register(
        &mut parser,
        create_arg("file").add_param("foo", 1, Type::String).help("input file"),
    );
    let again = create_arg("file").add_param("foo", 1, Type::String).help("input file");
    assert_eq!(
        again.verify(&parser),
        Err(RegistrationError::DuplicateName("file".to_string()))
    );
}

#[test]
fn duplicate_alias() {
    let mut parser = Clip::new("foo");
    register(
        &mut parser,
        create_arg("file")
            .alias("-f")
            .add_param("foo", 1, Type::String)
            .help("input file"),
    );
    let other = create_arg("foo")
        .alias("-f")
        .add_param("foo", 1, Type::String)
        .help("input file");
    assert_eq!(
        other.verify(&parser),
        Err(RegistrationError::DuplicateAlias("-f".to_string()))
    );
}

#[test]
fn double_varidiac() {
    let mut parser = Clip::new("foo");
    let first = create_arg("file")
        .variadic(Type::File)
        .alias("-f")
        .add_param("foo", 1, Type::String)
        .help("input file");
    assert_eq!(
        first.verify(&parser),
        Err(RegistrationError::WrongMode("file".to_string()))
    );
    register(&mut parser, create_arg("file").variadic(Type::File).help("input file"));
    let second = create_arg("foo").variadic(Type::Any).help("input file");
    assert_eq!(
        second.verify(&parser),
        Err(RegistrationError::MultipleVariadic("foo".to_string()))
    );
}

#[test]
fn alias_equal_to_a_registered_name_is_refused() {
    let mut parser = Clip::new("foo");
    register(&mut parser, create_arg("--output").add_param("out", 1, Type::File));
    let arg = create_arg("--file").alias("--output");
    assert_eq!(
        arg.verify(&parser),
        Err(RegistrationError::DuplicateAlias("--output".to_string()))
    );
}

#[test]
fn name_equal_to_a_registered_alias_is_refused() {
    let mut parser = Clip::new("foo");
    register(&mut parser, create_arg("--output").alias("-o"));
    assert_eq!(
        create_arg("-o").verify(&parser),
        Err(RegistrationError::DuplicateName("-o".to_string()))
    );
}

#[test]
fn alias_repeated_or_equal_to_own_name_is_refused() {
    let parser = Clip::new("foo");
    let repeated = create_arg("--file").alias("-f").alias("-f");
    assert_eq!(
        repeated.verify(&parser),
        Err(RegistrationError::DuplicateAlias("-f".to_string()))
    );
    let own = create_arg("--file").alias("--file");
    assert_eq!(
        own.verify(&parser),
        Err(RegistrationError::DuplicateAlias("--file".to_string()))
    );
}

#[test]
fn zero_and_negative_arities_are_refused() {
    let parser = Clip::new("foo");
    let zero = create_arg("--file").add_param("file", 0, Type::File);
    assert_eq!(
        zero.verify(&parser),
        Err(RegistrationError::InvalidArity("file".to_string()))
    );
    let negative = create_arg("--file")
        .add_param("a", 1, Type::File)
        .add_param("b", -2, Type::File);
    assert_eq!(
        negative.verify(&parser),
        Err(RegistrationError::InvalidArity("b".to_string()))
    );
}

#[test]
fn unbounded_last_parameter_is_accepted() {
    let parser = Clip::new("foo");
    let arg = create_arg("--file")
        .add_param("first", 2, Type::File)
        .add_param("rest", -1, Type::File);
    assert_eq!(arg.verify(&parser), Ok(()));
}

#[test]
fn checks_run_in_order() {
    let mut parser = Clip::new("foo");
    register(&mut parser, create_arg("--file").alias("-f"));
    // a taken name is reported before a taken alias
    let arg = create_arg("--file").alias("-f");
    assert_eq!(
        arg.verify(&parser),
        Err(RegistrationError::DuplicateName("--file".to_string()))
    );
}

#[test]
fn builder_sets_its_fields() {
    let arg = create_arg("--file");
    assert_eq!(arg.name, "--file");
    assert!(arg.aliases.is_empty());
    assert!(arg.params.is_empty());
    assert_eq!(arg.help, "");
    assert_eq!(arg.arg_type, Type::Any);
    assert_eq!(arg.mode, Mode::Flag);

    let arg = arg
        .alias("-f")
        .alias("-F")
        .add_param("file", 2, Type::Integer)
        .help("input file");
    assert_eq!(arg.aliases, vec!["-f".to_string(), "-F".to_string()]);
    assert_eq!(arg.params.len(), 1);
    assert_eq!(arg.params[0].name, "file");
    assert_eq!(arg.params[0].ninputs, 2);
    assert_eq!(arg.params[0].input_type, Type::Integer);
    assert_eq!(arg.help, "input file");

    let pos = create_arg("input").positional(Type::File);
    assert_eq!(pos.mode, Mode::Positional);
    assert_eq!(pos.arg_type, Type::File);
    let var = create_arg("rest").variadic(Type::String);
    assert_eq!(var.mode, Mode::Variadic);
    assert_eq!(var.arg_type, Type::String);
}

#[test]
fn clip_add_registers_like_argument_add() {
    let mut parser = Clip::new("foo");
    let arg = create_arg("--file").alias("-f").add_param("file", 1, Type::File);
    assert_eq!(arg.verify(&parser), Ok(()));
    parser.add(arg);
    let r = parser.parse(&"-f a.rs".to_string()).unwrap();
    assert_eq!(r.len(), 1);
    assert_eq!(r[0].name, "--file");
    assert_eq!(r[0].values, vec!["a.rs".to_string()]);
    assert_eq!(
        create_arg("-f").verify(&parser),
        Err(RegistrationError::DuplicateName("-f".to_string()))
    );
}
