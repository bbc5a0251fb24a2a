//! Errors: those of resolving a token stream, and those of registering an
//! argument.
use vstd::prelude::*;
use vstd::string::StringExecFns;
use crate::arg::{Type, type_text};
use crate::model::RegistrationErrorModel;

verus! {

/// Why a token stream could not be resolved.
#[derive(Clone, Debug, PartialEq)]
pub enum Error {
    /// A token read as an argument that is neither a name nor an alias, with no
    /// positional or variadic argument left to take it.
    UnknownArgument(String),
    /// The stream ended before `parameter` of `argument` had all its tokens.
    ExpectedParameter { argument: String, parameter: String },
    /// A captured token does not have the declared type. The resolver does
    /// not check types; the variant is there for callers that do.
    TypeError(Type),
}

/// The value of an [`Error`].
pub enum ErrorModel {
    UnknownArgument(Seq<char>),
    ExpectedParameter { argument: Seq<char>, parameter: Seq<char> },
    TypeError(Type),
}

impl View for Error {
    type V = ErrorModel;

    open spec fn view(&self) -> ErrorModel {
        match self {
            Error::UnknownArgument(t) => ErrorModel::UnknownArgument(t@),
            Error::ExpectedParameter { argument, parameter } => ErrorModel::ExpectedParameter {
                argument: argument@,
                parameter: parameter@,
            },
            Error::TypeError(t) => ErrorModel::TypeError(*t),
        }
    }
}

/// The message of an error: the offending token, or the argument and the
/// parameter left without tokens, or the expected type.
pub open spec fn error_text(e: ErrorModel) -> Seq<char> {
    match e {
        ErrorModel::UnknownArgument(t) => "unrecognized argument: "@ + t,
        ErrorModel::ExpectedParameter { argument, parameter } => "expected parameter "@ + parameter
            + " of argument "@ + argument,
        ErrorModel::TypeError(t) => "parameter must be of type "@ + type_text(t),
    }
}

impl Error {
    /// The message of this error.
    pub fn to_string(&self) -> (r: String)
        ensures
            r@ == error_text(self@),
    {
        match self {
            Error::UnknownArgument(t) => {
                let mut s = String::from_str("unrecognized argument: ");
                s.append(t.as_str());
                s
            },
            Error::ExpectedParameter { argument, parameter } => {
                let mut s = String::from_str("expected parameter ");
                s.append(parameter.as_str());
                s.append(" of argument ");
                s.append(argument.as_str());
                s
            },
            Error::TypeError(t) => {
                let mut s = String::from_str("parameter must be of type ");
                s.append(t.to_string().as_str());
                s
            },
        }
    }
}

impl From<Type> for Error {
    fn from(t: Type) -> (r: Self)
        ensures
            r == Error::TypeError(t),
    {
        Error::TypeError(t)
    }
}

impl vstd::std_specs::convert::FromSpecImpl<Type> for Error {
    open spec fn obeys_from_spec() -> bool {
        true
    }

    open spec fn from_spec(t: Type) -> Self {
        Error::TypeError(t)
    }
}

/// Why an argument could not be registered; each variant names the offending
/// argument, alias or parameter.
#[derive(Clone, Debug, PartialEq)]
pub enum RegistrationError {
    /// A positional or variadic argument with aliases or parameters.
    WrongMode(String),
    /// An argument name already taken by an argument or an alias.
    DuplicateName(String),
    /// An alias already taken, equal to its own argument's name, or repeated.
    DuplicateAlias(String),
    /// A second variadic argument.
    MultipleVariadic(String),
    /// A parameter whose arity is neither positive nor `-1`.
    InvalidArity(String),
    /// An unbounded parameter that is not the last one.
    MisplacedUnbounded(String),
}

impl View for RegistrationError {
    type V = RegistrationErrorModel;

    open spec fn view(&self) -> RegistrationErrorModel {
        match self {
            RegistrationError::WrongMode(s) => RegistrationErrorModel::WrongMode(s@),
            RegistrationError::DuplicateName(s) => RegistrationErrorModel::DuplicateName(s@),
            RegistrationError::DuplicateAlias(s) => RegistrationErrorModel::DuplicateAlias(s@),
            RegistrationError::MultipleVariadic(s) => RegistrationErrorModel::MultipleVariadic(s@),
            RegistrationError::InvalidArity(s) => RegistrationErrorModel::InvalidArity(s@),
            RegistrationError::MisplacedUnbounded(s) => RegistrationErrorModel::MisplacedUnbounded(
                s@,
            ),
        }
    }
}

} // verus!
