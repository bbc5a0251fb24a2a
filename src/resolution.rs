//! What resolving a token stream against a registry yields, stated over the
//! models.
use vstd::prelude::*;
use crate::error::ErrorModel;
use crate::model::{
    Mode, ParameterModel, RegistryModel, has_variadic, is_taken, triggers, well_formed,
};

verus! {

/// One resolved argument: its name and the tokens it captured, in order.
pub struct InputModel {
    pub name: Seq<char>,
    pub values: Seq<Seq<char>>,
}

/// The index of the argument that `t` names (unique in a well-formed
/// registry).
pub open spec fn argument_of(reg: RegistryModel, t: Seq<char>) -> int {
    choose|i: int| 0 <= i < reg.args.len() && triggers(#[trigger] reg.args[i], t)
}

/// The index of the variadic argument (unique in a well-formed registry).
pub open spec fn variadic_of(reg: RegistryModel) -> int {
    choose|i: int| 0 <= i < reg.args.len() && #[trigger] reg.args[i].mode == Mode::Variadic
}

/// How many tokens at the head of `toks` are neither an argument name nor an
/// alias of `reg`: the run that an unbounded parameter takes.
pub open spec fn run_len(reg: RegistryModel, toks: Seq<Seq<char>>) -> nat
    decreases toks.len(),
{
    if toks.len() == 0 || is_taken(reg, toks[0]) {
        0
    } else {
        1 + run_len(reg, toks.drop_first())
    }
}

/// The tokens a parameter of fixed arity takes.
pub open spec fn fixed_count(p: ParameterModel) -> nat {
    if p.arity > 0 {
        p.arity as nat
    } else {
        0
    }
}

/// How many tokens at the head of `toks` the parameters `params` of the
/// argument `arg_name` take, in order: a fixed arity takes exactly its count,
/// verbatim, and fails when the stream ends first; an unbounded one takes
/// tokens up to, not including, the next registered argument name or alias,
/// or to the end.
pub open spec fn take_params(
    reg: RegistryModel,
    arg_name: Seq<char>,
    params: Seq<ParameterModel>,
    toks: Seq<Seq<char>>,
) -> Result<nat, ErrorModel>
    decreases params.len(),
{
    if params.len() == 0 {
        Ok(0)
    } else {
        let p = params[0];
        let n = if p.arity == -1 {
            run_len(reg, toks)
        } else {
            fixed_count(p)
        };
        if n > toks.len() {
            Err(ErrorModel::ExpectedParameter { argument: arg_name, parameter: p.name })
        } else {
            match take_params(reg, arg_name, params.drop_first(), toks.skip(n as int)) {
                Ok(m) => Ok(n + m),
                Err(e) => Err(e),
            }
        }
    }
}

/// The first resolution step on a non-empty stream `toks` when `slot`
/// positional arguments are already filled: the input it makes, how many
/// tokens it takes, and the new count of filled positional arguments.
///
/// A registered argument name or alias starts that argument, which then
/// takes its parameters' tokens; a positional or variadic argument has no
/// parameters, so its name alone makes an input with no values and fills no
/// positional place. Any other token goes to the next unfilled positional
/// argument; when there is none, the variadic argument takes it and the tokens
/// after it up to the next registered name or alias; when there is no
/// variadic argument either, the token is unknown.
pub open spec fn step(reg: RegistryModel, toks: Seq<Seq<char>>, slot: nat) -> Result<
    (InputModel, nat, nat),
    ErrorModel,
> {
    let t = toks[0];
    let rest = toks.drop_first();
    if is_taken(reg, t) {
        let a = reg.args[argument_of(reg, t)];
        match take_params(reg, a.name, a.params, rest) {
            Ok(m) => Ok((InputModel { name: a.name, values: rest.take(m as int) }, 1 + m, slot)),
            Err(e) => Err(e),
        }
    } else if slot < reg.positional.len() {
        Ok((InputModel { name: reg.positional[slot as int], values: seq![t] }, 1, slot + 1))
    } else if has_variadic(reg) {
        let n = 1 + run_len(reg, rest);
        Ok((InputModel { name: reg.args[variadic_of(reg)].name, values: toks.take(n as int) }, n, slot))
    } else {
        Err(ErrorModel::UnknownArgument(t))
    }
}

pub proof fn lemma_run_len_bound(reg: RegistryModel, toks: Seq<Seq<char>>)
    ensures
        run_len(reg, toks) <= toks.len(),
    decreases toks.len(),
{
    if toks.len() > 0 {
        lemma_run_len_bound(reg, toks.drop_first());
    }
}

pub proof fn lemma_take_params_bound(
    reg: RegistryModel,
    arg_name: Seq<char>,
    params: Seq<ParameterModel>,
    toks: Seq<Seq<char>>,
)
    ensures
        take_params(reg, arg_name, params, toks) matches Ok(m) ==> m <= toks.len(),
    decreases params.len(),
{
    if params.len() > 0 {
        let p = params[0];
        lemma_run_len_bound(reg, toks);
        let n = if p.arity == -1 {
            run_len(reg, toks)
        } else {
            fixed_count(p)
        };
        if n <= toks.len() {
            lemma_take_params_bound(reg, arg_name, params.drop_first(), toks.skip(n as int));
        }
    }
}

/// A step takes at least one token and at most all of them.
pub proof fn lemma_step_bound(reg: RegistryModel, toks: Seq<Seq<char>>, slot: nat)
    requires
        toks.len() > 0,
    ensures
        step(reg, toks, slot) matches Ok((_, n, _)) ==> 1 <= n <= toks.len(),
{
    lemma_run_len_bound(reg, toks.drop_first());
    if is_taken(reg, toks[0]) {
        let a = reg.args[argument_of(reg, toks[0])];
        lemma_take_params_bound(reg, a.name, a.params, toks.drop_first());
    }
}

/// In a well-formed registry a token names at most one argument.
pub proof fn lemma_trigger_unique(reg: RegistryModel, t: Seq<char>, i: int, j: int)
    requires
        well_formed(reg),
        0 <= i < reg.args.len(),
        0 <= j < reg.args.len(),
        triggers(reg.args[i], t),
        triggers(reg.args[j], t),
    ensures
        i == j,
{
    let a = reg.args[i];
    let b = reg.args[j];
    if a.name != t {
        let k = choose|k: int| 0 <= k < a.aliases.len() && a.aliases[k] == t;
        if b.name != t {
            let l = choose|l: int| 0 <= l < b.aliases.len() && b.aliases[l] == t;
            assert(reg.args[i].aliases[k] == reg.args[j].aliases[l]);
        } else {
            assert(reg.args[i].aliases[k] == reg.args[j].name);
        }
    } else if b.name != t {
        let l = choose|l: int| 0 <= l < b.aliases.len() && b.aliases[l] == t;
        assert(reg.args[j].aliases[l] == reg.args[i].name);
    }
}

/// In a well-formed registry there is at most one variadic argument.
pub proof fn lemma_variadic_unique(reg: RegistryModel, i: int)
    requires
        well_formed(reg),
        0 <= i < reg.args.len(),
        reg.args[i].mode == Mode::Variadic,
    ensures
        variadic_of(reg) == i,
{
    let j = variadic_of(reg);
    assert(reg.args[j].mode == Mode::Variadic);
}

/// The inputs that `toks` resolves to when `slot` positional arguments are
/// already filled: one per step, in order, or the error of the first step that
/// fails.
pub open spec fn resolve_from(reg: RegistryModel, toks: Seq<Seq<char>>, slot: nat) -> Result<
    Seq<InputModel>,
    ErrorModel,
>
    decreases toks.len(),
{
    if toks.len() == 0 {
        Ok(Seq::empty())
    } else {
        match step(reg, toks, slot) {
            Ok((inp, n, s)) => {
                proof {
                    lemma_step_bound(reg, toks, slot);
                }
                match resolve_from(reg, toks.skip(n as int), s) {
                    Ok(rest) => Ok(seq![inp] + rest),
                    Err(e) => Err(e),
                }
            },
            Err(e) => Err(e),
        }
    }
}

/// The inputs that the token stream `toks` resolves to.
pub open spec fn resolve(reg: RegistryModel, toks: Seq<Seq<char>>) -> Result<
    Seq<InputModel>,
    ErrorModel,
> {
    resolve_from(reg, toks, 0)
}

} // verus!
