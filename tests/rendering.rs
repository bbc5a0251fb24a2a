use clip::text::split_words;
use clip::{Error, Type};

#[test]
fn type_names() {
    assert_eq!(Type::Any.to_string(), "Any");
    assert_eq!(Type::Integer.to_string(), "Integer");
    assert_eq!(Type::Number.to_string(), "Number");
    assert_eq!(Type::String.to_string(), "String");
    assert_eq!(Type::File.to_string(), "File");
}

#[test]
fn choice_lists_its_literals() {
    assert_eq!(
        Type::Choice(&["read", "write", "append"]).to_string(),
        "[read, write, append]"
    );
    assert_eq!(Type::Choice(&["one"]).to_string(), "[one]");
    assert_eq!(Type::Choice(&[]).to_string(), "[]");
}

#[test]
fn range_shows_its_bounds() {
    assert_eq!(Type::Range { lower: 1, upper: 10 }.to_string(), "[1-10]");
    assert_eq!(Type::Range { lower: -5, upper: 0 }.to_string(), "[-5-0]");
    assert_eq!(
        Type::Range { lower: i32::MIN, upper: i32::MAX }.to_string(),
        "[-2147483648-2147483647]"
    );
}

#[test]
fn error_messages() {
    assert_eq!(
        Error::UnknownArgument("--unknown".to_string()).to_string(),
        "unrecognized argument: --unknown"
    );
    assert_eq!(
        Error::ExpectedParameter {
            argument: "--file".to_string(),
            parameter: "file".to_string(),
        }
        .to_string(),
        "expected parameter file of argument --file"
    );
    assert_eq!(
        Error::TypeError(Type::Range { lower: 0, upper: 9 }).to_string(),
        "parameter must be of type [0-9]"
    );
}

#[test]
fn type_converts_into_type_error() {
    let e: Error = Type::Integer.into();
    assert_eq!(e, Error::TypeError(Type::Integer));
    assert_eq!(Error::from(Type::File), Error::TypeError(Type::File));
}

#[test]
fn split_at_single_spaces() {
    assert_eq!(split_words("-f foo.rs"), vec!["-f", "foo.rs"]);
    assert_eq!(split_words("a  b"), vec!["a", "", "b"]);
    assert_eq!(split_words(""), vec![""]);
    assert_eq!(split_words(" "), vec!["", ""]);
    assert_eq!(split_words("é ü"), vec!["é", "ü"]);
}
