//! Declarative command-line arguments: a registry of flags, positional slots and
//! one variadic capture point, and a resolver that turns a token stream into the
//! list of matched arguments with the tokens each one captured.
pub mod arg;
pub mod clip;
pub mod error;
pub mod laws;
pub mod model;
pub mod resolution;
pub mod text;

pub use arg::{Argument, Parameter, Type, create_arg};
pub use clip::{Clip, Input};
pub use error::{Error, RegistrationError};
pub use model::Mode;
