//! Argument definitions and their builder.
use vstd::prelude::*;
use vstd::string::StringExecFns;
use crate::clip::{Clip, arg_views, occurs_before};
use crate::error::RegistrationError;
use crate::model::{
    ArgumentModel, Mode, ParameterModel, alias_fault, first_alias_fault,
    first_param_fault, lemma_registration_keeps_well_formed, param_fault, registered,
    registration_error,
};
use crate::text::{decimal, decimal_string, join, join_strs, str_views, views};

verus! {

/// The kind of value a captured token stands for. It describes the argument;
/// the resolver does not check it.
#[derive(Clone, Copy, Debug, PartialEq)]
pub enum Type {
    Any,
    Integer,
    Number,
    String,
    File,
    /// One of a fixed list of literals.
    Choice(&'static [&'static str]),
    /// An integer in `lower..=upper`.
    Range { lower: i32, upper: i32 },
}

/// One parameter of a flag: a name, an arity (a positive count, or `-1` for
/// an unbounded run that ends before the next flag) and a value type.
#[derive(Debug)]
pub struct Parameter {
    pub name: String,
    pub ninputs: i32,
    pub input_type: Type,
}

impl View for Parameter {
    type V = ParameterModel;

    open spec fn view(&self) -> ParameterModel {
        ParameterModel { name: self.name@, arity: self.ninputs as int }
    }
}

/// The views of a list of parameters.
pub open spec fn param_views(ps: Seq<Parameter>) -> Seq<ParameterModel> {
    ps.map_values(|p: Parameter| p@)
}

/// An argument definition, built by [`create_arg`] and the chained methods
/// below, then moved into a registry by [`Argument::add`].
#[derive(Debug)]
pub struct Argument {
    pub name: String,
    pub aliases: Vec<String>,
    pub params: Vec<Parameter>,
    pub help: String,
    pub arg_type: Type,
    pub mode: Mode,
}

impl View for Argument {
    type V = ArgumentModel;

    open spec fn view(&self) -> ArgumentModel {
        ArgumentModel {
            name: self.name@,
            aliases: views(self.aliases@),
            params: param_views(self.params@),
            mode: self.mode,
        }
    }
}

impl Argument {
    /// Makes this a positional argument whose one token has type `t`.
    pub fn positional(self, t: Type) -> (r: Self)
        ensures
            r == (Argument { mode: Mode::Positional, arg_type: t, ..self }),
    {
        Argument { mode: Mode::Positional, arg_type: t, ..self }
    }

    /// Makes this the variadic argument, whose tokens have type `t`.
    pub fn variadic(self, t: Type) -> (r: Self)
        ensures
            r == (Argument { mode: Mode::Variadic, arg_type: t, ..self }),
    {
        Argument { mode: Mode::Variadic, arg_type: t, ..self }
    }

    /// Appends an alias. It is checked when the argument is registered.
    pub fn alias(self, name: &'static str) -> (r: Self)
        ensures
            r.aliases@.len() == self.aliases@.len() + 1,
            r.aliases@.last()@ == name@,
            r@.aliases == self@.aliases.push(name@),
            r == (Argument { aliases: r.aliases, ..self }),
    {
        let mut r = self;
        r.aliases.push(String::from_str(name));
        proof {
            assert(r@.aliases =~= self@.aliases.push(name@));
        }
        r
    }

    /// Appends a parameter with `nargs` tokens (`-1`: unbounded). The list is
    /// checked when the argument is registered.
    pub fn add_param(self, name: &'static str, nargs: i32, input_type: Type) -> (r: Self)
        ensures
            r.params@ == self.params@.push(
                Parameter { name: r.params@.last().name, ninputs: nargs, input_type },
            ),
            r.params@.last().name@ == name@,
            r@.params == self@.params.push(ParameterModel { name: name@, arity: nargs as int }),
            r == (Argument { params: r.params, ..self }),
    {
        let mut r = self;
        r.params.push(Parameter { name: String::from_str(name), ninputs: nargs, input_type });
        proof {
            assert(r@.params =~= self@.params.push(
                ParameterModel { name: name@, arity: nargs as int },
            ));
        }
        r
    }

    /// Sets the help text.
    pub fn help(self, help_text: &'static str) -> (r: Self)
        ensures
            r.help@ == help_text@,
            r == (Argument { help: r.help, ..self }),
    {
        Argument { help: String::from_str(help_text), ..self }
    }

    /// Checks the rules for adding this argument to `parser`, and returns the
    /// first one broken.
    pub fn verify(&self, parser: &Clip) -> (r: Result<(), RegistrationError>)
        ensures
            match r {
                Ok(_) => registration_error(parser@, self@) is None,
                Err(e) => registration_error(parser@, self@) == Some(e@),
            },
    {
        let ghost a = self@;
        if self.mode != Mode::Flag && (self.aliases.len() > 0 || self.params.len() > 0) {
            return Err(RegistrationError::WrongMode(self.name.clone()));
        }
        if parser.is_taken(&self.name) {
            return Err(RegistrationError::DuplicateName(self.name.clone()));
        }
        let mut k: usize = 0;
        while k < self.aliases.len()
            invariant
                a == self@,
                !crate::model::mode_fault(a),
                !crate::model::is_taken(parser@, a.name),
                k <= self.aliases@.len(),
                forall|j: int| 0 <= j < k ==> !alias_fault(parser@, a, j),
            decreases self.aliases@.len() - k,
        {
            let t = &self.aliases[k];
            let taken = parser.is_taken(t);
            let own = *t == self.name;
            let repeated = occurs_before(&self.aliases, k, t);
            proof {
                assert(a.aliases[k as int] == t@);
                assert(repeated == exists|j: int| 0 <= j < k && a.aliases[j] == a.aliases[k as int])
                    by {
                    if repeated {
                        let j = choose|j: int| 0 <= j < k && self.aliases@[j]@ == t@;
                        assert(a.aliases[j] == self.aliases@[j]@);
                    }
                }
            }
            if taken || own || repeated {
                proof {
                    assert(alias_fault(parser@, a, k as int));
                    assert(exists|j: int| 0 <= j < a.aliases.len() && alias_fault(parser@, a, j));
                    let f = first_alias_fault(parser@, a);
                    assert(f == k);
                }
                return Err(RegistrationError::DuplicateAlias(t.clone()));
            }
            k = k + 1;
        }
        if self.mode == Mode::Variadic && parser.has_variadic() {
            return Err(RegistrationError::MultipleVariadic(self.name.clone()));
        }
        let mut k: usize = 0;
        while k < self.params.len()
            invariant
                a == self@,
                !crate::model::mode_fault(a),
                !crate::model::is_taken(parser@, a.name),
                forall|j: int| 0 <= j < a.aliases.len() ==> !alias_fault(parser@, a, j),
                !(a.mode == Mode::Variadic && crate::model::has_variadic(parser@)),
                k <= self.params@.len(),
                forall|j: int| 0 <= j < k ==> !param_fault(a, j),
            decreases self.params@.len() - k,
        {
            let p = &self.params[k];
            proof {
                assert(a.params[k as int] == p@);
            }
            if p.ninputs == 0 || p.ninputs < -1 {
                proof {
                    assert(param_fault(a, k as int));
                    assert(exists|j: int| 0 <= j < a.params.len() && param_fault(a, j));
                    assert(first_param_fault(a) == k);
                }
                return Err(RegistrationError::InvalidArity(p.name.clone()));
            }
            if p.ninputs == -1 && k + 1 < self.params.len() {
                proof {
                    assert(param_fault(a, k as int));
                    assert(exists|j: int| 0 <= j < a.params.len() && param_fault(a, j));
                    assert(first_param_fault(a) == k);
                }
                return Err(RegistrationError::MisplacedUnbounded(p.name.clone()));
            }
            k = k + 1;
        }
        Ok(())
    }

    /// Moves this argument into `parser`. A positional argument also takes the
    /// next place in the positional order.
    pub fn add(self, parser: &mut Clip)
        requires
            old(parser).wf(),
            registration_error(old(parser)@, self@) is None,
        ensures
            final(parser)@ == registered(old(parser)@, self@),
            final(parser).wf(),
            final(parser).program() == old(parser).program(),
    {
        let ghost a = self@;
        if self.mode == Mode::Positional {
            parser.positional.push(self.name.clone());
        }
        parser.args.push(self);
        proof {
            assert(arg_views(parser.args@) =~= arg_views(old(parser).args@).push(a));
            assert(views(parser.positional@) =~= registered(old(parser)@, a).positional);
            lemma_registration_keeps_well_formed(old(parser)@, a);
        }
    }
}

/// A new flag named `name`, with no aliases, no parameters, an empty help
/// text and the value type `Any`.
pub fn create_arg(name: &'static str) -> (r: Argument)
    ensures
        r@ == (ArgumentModel {
            name: name@,
            aliases: Seq::empty(),
            params: Seq::empty(),
            mode: Mode::Flag,
        }),
        r.help@ == Seq::<char>::empty(),
        r.arg_type == Type::Any,
{
    let r = Argument {
        name: String::from_str(name),
        aliases: Vec::new(),
        params: Vec::new(),
        help: String::new(),
        arg_type: Type::Any,
        mode: Mode::Flag,
    };
    proof {
        assert(r@.aliases =~= Seq::empty());
        assert(r@.params =~= Seq::empty());
    }
    r
}


/// The text of a value type: its name, or its literals as `[a, b, c]`, or its
/// bounds as `[lower-upper]`.
pub open spec fn type_text(t: Type) -> Seq<char> {
    match t {
        Type::Any => "Any"@,
        Type::Integer => "Integer"@,
        Type::Number => "Number"@,
        Type::String => "String"@,
        Type::File => "File"@,
        Type::Choice(vals) => "["@ + join(str_views(vals@), ", "@) + "]"@,
        Type::Range { lower, upper } => "["@ + decimal(lower as int) + "-"@ + decimal(upper as int)
            + "]"@,
    }
}

impl Type {
    /// The text of this type, for messages.
    pub fn to_string(&self) -> (r: String)
        ensures
            r@ == type_text(*self),
    {
        match self {
            Type::Any => String::from_str("Any"),
            Type::Integer => String::from_str("Integer"),
            Type::Number => String::from_str("Number"),
            Type::String => String::from_str("String"),
            Type::File => String::from_str("File"),
            Type::Choice(vals) => {
                let mut s = String::from_str("[");
                s.append(join_strs(vals, ", ").as_str());
                s.append("]");
                s
            },
            Type::Range { lower, upper } => {
                let mut s = String::from_str("[");
                s.append(decimal_string(*lower).as_str());
                s.append("-");
                s.append(decimal_string(*upper).as_str());
                s.append("]");
                s
            },
        }
    }
}

} // verus!
