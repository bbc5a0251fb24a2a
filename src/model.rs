//! Mathematical models of the registry, and the rules a new argument must meet
//! before it is registered.
use vstd::prelude::*;

verus! {

/// How an argument consumes tokens.
#[derive(Clone, Copy, Debug, PartialEq, Eq, Structural)]
pub enum Mode {
    /// Triggered by its name or one of its aliases, then fills its parameters.
    Flag,
    /// Takes one stray token, by position.
    Positional,
    /// Takes a run of stray tokens.
    Variadic,
}

/// A parameter: its name and its arity (a count of at least one, or `-1` for an
/// unbounded run).
pub struct ParameterModel {
    pub name: Seq<char>,
    pub arity: int,
}

pub struct ArgumentModel {
    pub name: Seq<char>,
    pub aliases: Seq<Seq<char>>,
    pub params: Seq<ParameterModel>,
    pub mode: Mode,
}

/// The registered arguments in registration order, and the names of the
/// positional ones in the order in which they take tokens.
pub struct RegistryModel {
    pub args: Seq<ArgumentModel>,
    pub positional: Seq<Seq<char>>,
}

/// Why an argument cannot be registered; each carries the offending name.
pub enum RegistrationErrorModel {
    WrongMode(Seq<char>),
    DuplicateName(Seq<char>),
    DuplicateAlias(Seq<char>),
    MultipleVariadic(Seq<char>),
    InvalidArity(Seq<char>),
    MisplacedUnbounded(Seq<char>),
}

pub open spec fn is_unbounded(p: ParameterModel) -> bool {
    p.arity == -1
}

/// `t` names `a`: it is `a`'s name or one of its aliases.
pub open spec fn triggers(a: ArgumentModel, t: Seq<char>) -> bool {
    a.name == t || a.aliases.contains(t)
}

/// `t` is already taken in `reg`, as an argument name or as an alias.
pub open spec fn is_taken(reg: RegistryModel, t: Seq<char>) -> bool {
    exists|i: int| 0 <= i < reg.args.len() && triggers(#[trigger] reg.args[i], t)
}

/// Only a flag may have aliases or parameters.
pub open spec fn mode_fault(a: ArgumentModel) -> bool {
    a.mode != Mode::Flag && (a.aliases.len() > 0 || a.params.len() > 0)
}

/// Alias `k` of `a` is taken in `reg`, is `a`'s own name, or repeats an
/// earlier alias of `a`.
pub open spec fn alias_fault(reg: RegistryModel, a: ArgumentModel, k: int) -> bool {
    is_taken(reg, a.aliases[k]) || a.aliases[k] == a.name || exists|j: int|
        0 <= j < k && a.aliases[j] == a.aliases[k]
}

pub open spec fn has_variadic(reg: RegistryModel) -> bool {
    exists|i: int| 0 <= i < reg.args.len() && #[trigger] reg.args[i].mode == Mode::Variadic
}

/// An arity is a positive count or `-1`.
pub open spec fn arity_fault(p: ParameterModel) -> bool {
    p.arity == 0 || p.arity < -1
}

/// Parameter `k` of `a` has a bad arity, or is unbounded but not last.
pub open spec fn param_fault(a: ArgumentModel, k: int) -> bool {
    arity_fault(a.params[k]) || (is_unbounded(a.params[k]) && k + 1 < a.params.len())
}

/// The first alias of `a` that may not be registered.
pub open spec fn first_alias_fault(reg: RegistryModel, a: ArgumentModel) -> int {
    choose|k: int|
        0 <= k < a.aliases.len() && alias_fault(reg, a, k) && forall|j: int|
            0 <= j < k ==> !alias_fault(reg, a, j)
}

/// The first parameter of `a` that may not be registered.
pub open spec fn first_param_fault(a: ArgumentModel) -> int {
    choose|k: int|
        0 <= k < a.params.len() && param_fault(a, k) && forall|j: int|
            0 <= j < k ==> !param_fault(a, j)
}

/// The reason `a` cannot be added to `reg`, checked in this order: aliases or
/// parameters on an argument that is no flag, a taken name, a taken or
/// repeated alias, a second variadic argument, a bad parameter list. `None`
/// when it can be added.
pub open spec fn registration_error(reg: RegistryModel, a: ArgumentModel) -> Option<
    RegistrationErrorModel,
> {
    if mode_fault(a) {
        Some(RegistrationErrorModel::WrongMode(a.name))
    } else if is_taken(reg, a.name) {
        Some(RegistrationErrorModel::DuplicateName(a.name))
    } else if exists|k: int| 0 <= k < a.aliases.len() && alias_fault(reg, a, k) {
        Some(RegistrationErrorModel::DuplicateAlias(a.aliases[first_alias_fault(reg, a)]))
    } else if a.mode == Mode::Variadic && has_variadic(reg) {
        Some(RegistrationErrorModel::MultipleVariadic(a.name))
    } else if exists|k: int| 0 <= k < a.params.len() && param_fault(a, k) {
        let p = a.params[first_param_fault(a)];
        if arity_fault(p) {
            Some(RegistrationErrorModel::InvalidArity(p.name))
        } else {
            Some(RegistrationErrorModel::MisplacedUnbounded(p.name))
        }
    } else {
        None
    }
}

/// The names of the positional arguments among `args`, in order.
pub open spec fn positional_names(args: Seq<ArgumentModel>) -> Seq<Seq<char>>
    decreases args.len(),
{
    if args.len() == 0 {
        Seq::empty()
    } else {
        let before = positional_names(args.drop_last());
        if args.last().mode == Mode::Positional {
            before.push(args.last().name)
        } else {
            before
        }
    }
}

/// What holds of every registry built by registrations that passed the rules:
/// every name and alias is unique across the registry, only flags have aliases
/// or parameters, every parameter list is sound, at most one argument is
/// variadic, and the positional list names the positional arguments in order.
pub open spec fn well_formed(reg: RegistryModel) -> bool {
    &&& forall|i: int| 0 <= i < reg.args.len() ==> !mode_fault(#[trigger] reg.args[i])
    &&& forall|i: int, k: int|
        0 <= i < reg.args.len() && 0 <= k < reg.args[i].params.len() ==> !#[trigger] param_fault(
            reg.args[i],
            k,
        )
    &&& forall|i: int, j: int|
        0 <= i < reg.args.len() && 0 <= j < reg.args.len() && i != j ==> #[trigger] reg.args[i].name
            != #[trigger] reg.args[j].name
    &&& forall|i: int, j: int, k: int|
        0 <= i < reg.args.len() && 0 <= j < reg.args.len() && 0 <= k < reg.args[j].aliases.len()
            ==> #[trigger] reg.args[j].aliases[k] != #[trigger] reg.args[i].name
    &&& forall|i: int, j: int, k: int, l: int|
        0 <= i < reg.args.len() && 0 <= j < reg.args.len() && 0 <= k < reg.args[i].aliases.len()
            && 0 <= l < reg.args[j].aliases.len() && (i != j || k != l) ==> #[trigger] reg.args[i].aliases[k]
            != #[trigger] reg.args[j].aliases[l]
    &&& forall|i: int, j: int|
        0 <= i < reg.args.len() && 0 <= j < reg.args.len() && #[trigger] reg.args[i].mode
            == Mode::Variadic && #[trigger] reg.args[j].mode == Mode::Variadic ==> i == j
    &&& reg.positional == positional_names(reg.args)
}

/// The registry after `a` is added to `reg`.
pub open spec fn registered(reg: RegistryModel, a: ArgumentModel) -> RegistryModel {
    RegistryModel {
        args: reg.args.push(a),
        positional: if a.mode == Mode::Positional {
            reg.positional.push(a.name)
        } else {
            reg.positional
        },
    }
}

/// Adding an argument that meets the rules keeps a registry well formed.
pub proof fn lemma_registration_keeps_well_formed(reg: RegistryModel, a: ArgumentModel)
    requires
        well_formed(reg),
        registration_error(reg, a) is None,
    ensures
        well_formed(registered(reg, a)),
{
    let r = registered(reg, a);
    let n = reg.args.len();
    assert(r.args.drop_last() =~= reg.args);
    assert forall|i: int, j: int, k: int|
        0 <= i < r.args.len() && 0 <= j < r.args.len() && 0 <= k < r.args[j].aliases.len()
            implies #[trigger] r.args[j].aliases[k] != #[trigger] r.args[i].name by {
        if j == n {
            assert(!alias_fault(reg, a, k));
            if i < n {
                assert(r.args[i] == reg.args[i]);
                assert(!is_taken(reg, a.aliases[k]));
                assert(reg.args[i].name != a.aliases[k]);
            } else {
                assert(a.aliases[k] != a.name);
            }
        } else {
            assert(r.args[j] == reg.args[j]);
            if i == n {
                assert(reg.args[j].aliases.contains(reg.args[j].aliases[k]));
                assert(!is_taken(reg, a.name));
                assert(reg.args[j].aliases[k] != a.name);
            } else {
                assert(r.args[i] == reg.args[i]);
                assert(reg.args[j].aliases[k] != reg.args[i].name);
            }
        }
    }
    assert forall|i: int, j: int, k: int, l: int|
        0 <= i < r.args.len() && 0 <= j < r.args.len() && 0 <= k < r.args[i].aliases.len() && 0
            <= l < r.args[j].aliases.len() && (i != j || k != l) implies #[trigger] r.args[i].aliases[k]
        != #[trigger] r.args[j].aliases[l] by {
        if i == n && j == n {
            if k < l {
                assert(!alias_fault(reg, a, l));
            } else {
                assert(!alias_fault(reg, a, k));
            }
        } else if i == n {
            assert(r.args[j] == reg.args[j]);
            assert(!alias_fault(reg, a, k));
            assert(reg.args[j].aliases.contains(reg.args[j].aliases[l]));
        } else if j == n {
            assert(r.args[i] == reg.args[i]);
            assert(!alias_fault(reg, a, l));
            assert(reg.args[i].aliases.contains(reg.args[i].aliases[k]));
        } else {
            assert(r.args[i] == reg.args[i]);
            assert(r.args[j] == reg.args[j]);
        }
    }
    assert forall|i: int, j: int|
        0 <= i < r.args.len() && 0 <= j < r.args.len() && i != j implies #[trigger] r.args[i].name
        != #[trigger] r.args[j].name by {
        if i == n {
            assert(!is_taken(reg, a.name) ==> reg.args[j].name != a.name);
        } else if j == n {
            assert(!is_taken(reg, a.name) ==> reg.args[i].name != a.name);
        }
    }
    assert forall|i: int, k: int|
        0 <= i < r.args.len() && 0 <= k < r.args[i].params.len() implies !#[trigger] param_fault(
        r.args[i],
        k,
    ) by {
        if i == n {
            assert(!(0 <= k < a.params.len() && param_fault(a, k)));
        }
    }
}

} // verus!
