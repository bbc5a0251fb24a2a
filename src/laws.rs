//! Properties of resolution that relate several streams or several steps.
use vstd::prelude::*;
use crate::clip::{prepend, shift};
use crate::error::ErrorModel;
use crate::model::{
    ArgumentModel, Mode, ParameterModel, RegistryModel, alias_fault, has_variadic, is_taken,
    is_unbounded, param_fault, positional_names, registration_error, triggers, well_formed,
};
use crate::resolution::{
    InputModel, argument_of, fixed_count, lemma_trigger_unique, resolve, resolve_from, run_len,
    step, take_params,
};

verus! {

/// `tail` is empty or starts with a registered name or alias: a place where a
/// run ends.
pub open spec fn starts_group(reg: RegistryModel, tail: Seq<Seq<char>>) -> bool {
    tail.len() == 0 || is_taken(reg, tail[0])
}

/// `g` is one argument group: a registered name or alias and the tokens its
/// argument's parameters take, which resolves alone to exactly one input.
pub open spec fn is_group(reg: RegistryModel, g: Seq<Seq<char>>) -> bool {
    &&& g.len() > 0
    &&& is_taken(reg, g[0])
    &&& resolve(reg, g) matches Ok(xs) && xs.len() == 1
}

/// No parameter of the argument that `g` starts with is unbounded, so what
/// follows the group cannot change what it takes.
pub open spec fn is_closed(reg: RegistryModel, g: Seq<Seq<char>>) -> bool {
    let ps = reg.args[argument_of(reg, g[0])].params;
    forall|k: int| 0 <= k < ps.len() ==> (#[trigger] ps[k]).arity != -1
}

/// What may follow the groups `groups`: a stream that starts a group, or,
/// when the last group is closed, any stream.
pub open spec fn may_follow(
    reg: RegistryModel,
    groups: Seq<Seq<Seq<char>>>,
    tail: Seq<Seq<char>>,
) -> bool {
    starts_group(reg, tail) || (groups.len() > 0 && is_closed(reg, groups.last()))
}

/// The input that the group `g` resolves to.
pub open spec fn group_input(reg: RegistryModel, g: Seq<Seq<char>>) -> InputModel {
    resolve(reg, g)->Ok_0[0]
}

/// The inputs of a sequence of groups, in order.
pub open spec fn group_inputs(reg: RegistryModel, groups: Seq<Seq<Seq<char>>>) -> Seq<InputModel> {
    groups.map_values(|g: Seq<Seq<char>>| group_input(reg, g))
}

proof fn lemma_run_len_append(reg: RegistryModel, t: Seq<Seq<char>>, tail: Seq<Seq<char>>)
    requires
        starts_group(reg, tail),
    ensures
        run_len(reg, t + tail) == run_len(reg, t),
    decreases t.len(),
{
    if t.len() == 0 {
        assert(t + tail =~= tail);
    } else {
        assert((t + tail)[0] == t[0]);
        assert((t + tail).drop_first() =~= t.drop_first() + tail);
        lemma_run_len_append(reg, t.drop_first(), tail);
    }
}

/// Parameters that take all of `t` take the same tokens when a group follows.
proof fn lemma_take_params_append(
    reg: RegistryModel,
    name: Seq<char>,
    params: Seq<ParameterModel>,
    t: Seq<Seq<char>>,
    tail: Seq<Seq<char>>,
)
    requires
        starts_group(reg, tail) || forall|k: int|
            0 <= k < params.len() ==> (#[trigger] params[k]).arity != -1,
        take_params(reg, name, params, t) == Ok::<nat, ErrorModel>(t.len()),
    ensures
        take_params(reg, name, params, t + tail) == Ok::<nat, ErrorModel>(t.len()),
    decreases params.len(),
{
    if params.len() > 0 {
        let p = params[0];
        let n = if p.arity == -1 {
            run_len(reg, t)
        } else {
            fixed_count(p)
        };
        if p.arity == -1 {
            crate::resolution::lemma_run_len_bound(reg, t);
            if n < t.len() {
                lemma_run_len_prefix(reg, t, tail, n);
            } else {
                lemma_run_len_append(reg, t, tail);
            }
        }
        assert((t + tail).skip(n as int) =~= t.skip(n as int) + tail);
        assert forall|k: int|
            0 <= k < params.drop_first().len() implies (#[trigger] params.drop_first()[k]).arity
            == params[k + 1].arity by {}
        lemma_take_params_append(reg, name, params.drop_first(), t.skip(n as int), tail);
    }
}

/// A run that stops inside `t` stops at the same place whatever follows.
proof fn lemma_run_len_prefix(reg: RegistryModel, t: Seq<Seq<char>>, tail: Seq<Seq<char>>, n: nat)
    requires
        n == run_len(reg, t),
        n < t.len(),
    ensures
        run_len(reg, t + tail) == n,
    decreases t.len(),
{
    assert((t + tail)[0] == t[0]);
    if !is_taken(reg, t[0]) {
        assert((t + tail).drop_first() =~= t.drop_first() + tail);
        lemma_run_len_prefix(reg, t.drop_first(), tail, (n - 1) as nat);
    }
}

/// A non-empty stream resolves to an error or to at least one input.
proof fn lemma_resolve_nonempty(reg: RegistryModel, toks: Seq<Seq<char>>, slot: nat)
    requires
        toks.len() > 0,
    ensures
        resolve_from(reg, toks, slot) matches Ok(xs) ==> xs.len() >= 1,
{
}

/// A group followed by a stream that starts a group, or a closed group
/// followed by any stream, resolves to the group's input followed by what the
/// stream resolves to.
proof fn lemma_group_then(reg: RegistryModel, g: Seq<Seq<char>>, tail: Seq<Seq<char>>)
    requires
        is_group(reg, g),
        starts_group(reg, tail) || is_closed(reg, g),
    ensures
        resolve(reg, g + tail) == prepend(seq![group_input(reg, g)], resolve(reg, tail)),
{
    let whole = g + tail;
    let t = g[0];
    let i = argument_of(reg, t);
    let a = reg.args[i];
    crate::resolution::lemma_step_bound(reg, g, 0);
    let (x, n, s) = step(reg, g, 0)->Ok_0;
    if n < g.len() {
        lemma_resolve_nonempty(reg, g.skip(n as int), s);
    }
    assert(n == g.len());
    let m = take_params(reg, a.name, a.params, g.drop_first())->Ok_0;
    assert(whole[0] == t);
    assert(whole.drop_first() =~= g.drop_first() + tail);
    lemma_take_params_append(reg, a.name, a.params, g.drop_first(), tail);
    assert(whole.drop_first().take(m as int) =~= g.drop_first().take(m as int));
    assert(step(reg, whole, 0) == step(reg, g, 0));
    assert(whole.skip(n as int) =~= tail);
    assert(g.skip(n as int).len() == 0);
    assert(resolve(reg, g) == Ok::<Seq<InputModel>, ErrorModel>(seq![x]));
    match resolve(reg, tail) {
        Ok(ys) => {
            assert(seq![x] + ys =~= seq![x] + ys);
        },
        Err(_) => {},
    }
}

/// Groups followed by a stream that may follow them resolve to the groups'
/// inputs, in order, followed by what the stream resolves to.
pub proof fn lemma_groups_then(
    reg: RegistryModel,
    groups: Seq<Seq<Seq<char>>>,
    tail: Seq<Seq<char>>,
)
    requires
        forall|k: int| 0 <= k < groups.len() ==> is_group(reg, #[trigger] groups[k]),
        may_follow(reg, groups, tail),
    ensures
        resolve(reg, groups.flatten() + tail) == prepend(group_inputs(reg, groups), resolve(reg, tail)),
    decreases groups.len(),
{
    if groups.len() == 0 {
        assert(groups.flatten() + tail =~= tail);
        match resolve(reg, tail) {
            Ok(ys) => {
                assert(group_inputs(reg, groups) + ys =~= ys);
            },
            Err(_) => {},
        }
    } else {
        let g = groups[0];
        let rest = groups.drop_first();
        assert(is_group(reg, g));
        assert forall|k: int| 0 <= k < rest.len() implies is_group(reg, #[trigger] rest[k]) by {
            assert(rest[k] == groups[k + 1]);
        }
        if rest.len() > 0 {
            assert(rest.last() == groups.last());
            lemma_groups_then(reg, rest, tail);
        } else {
            assert(rest.flatten() + tail =~= tail);
            match resolve(reg, tail) {
                Ok(ys) => {
                    assert(group_inputs(reg, rest) + ys =~= ys);
                },
                Err(_) => {},
            }
        }
        let inner = rest.flatten() + tail;
        if rest.len() > 0 {
            assert(is_group(reg, rest[0]));
            assert(inner[0] == rest[0][0]);
        } else {
            assert(inner =~= tail);
        }
        lemma_group_then(reg, g, inner);
        assert(groups.flatten() + tail =~= g + inner);
        assert(group_inputs(reg, groups) =~= seq![group_input(reg, g)] + group_inputs(reg, rest));
        match resolve(reg, tail) {
            Ok(ys) => {
                assert(seq![group_input(reg, g)] + (group_inputs(reg, rest) + ys) =~= group_inputs(
                    reg,
                    groups,
                ) + ys);
            },
            Err(_) => {},
        }
    }
}

/// Tokens in different orders, group by group: when each group (a registered name or alias
/// and the tokens its parameters take) resolves alone to one input, the
/// stream of the groups resolves to their inputs in order, and the stream of
/// the same groups in another order to the same inputs in that order.
pub proof fn lemma_group_order(
    reg: RegistryModel,
    groups: Seq<Seq<Seq<char>>>,
    order: Seq<int>,
)
    requires
        forall|k: int| 0 <= k < groups.len() ==> is_group(reg, #[trigger] groups[k]),
        order.len() == groups.len(),
        forall|k: int| 0 <= k < order.len() ==> 0 <= #[trigger] order[k] < groups.len(),
        forall|j: int, k: int| 0 <= j < k < order.len() ==> order[j] != order[k],
    ensures
        ({
            let moved = order.map_values(|k: int| groups[k]);
            &&& resolve(reg, groups.flatten()) == Ok::<Seq<InputModel>, ErrorModel>(
                group_inputs(reg, groups),
            )
            &&& resolve(reg, moved.flatten()) matches Ok(ys) && ys.len() == groups.len() && forall|
                k: int,
            |
                0 <= k < ys.len() ==> #[trigger] ys[k] == group_inputs(reg, groups)[order[k]]
        }),
{
    let moved = order.map_values(|k: int| groups[k]);
    let none = Seq::<Seq<char>>::empty();
    assert(resolve(reg, none) == Ok::<Seq<InputModel>, ErrorModel>(Seq::empty()));
    lemma_groups_then(reg, groups, none);
    assert(groups.flatten() + none =~= groups.flatten());
    assert(group_inputs(reg, groups) + Seq::<InputModel>::empty() =~= group_inputs(reg, groups));
    assert forall|k: int| 0 <= k < moved.len() implies is_group(reg, #[trigger] moved[k]) by {
        assert(is_group(reg, groups[order[k]]));
    }
    lemma_groups_then(reg, moved, none);
    assert(moved.flatten() + none =~= moved.flatten());
    assert(group_inputs(reg, moved) + Seq::<InputModel>::empty() =~= group_inputs(reg, moved));
}

/// A stream that starts with an alias resolves as the same stream that
/// starts with the argument's name.
proof fn lemma_alias_at_head(reg: RegistryModel, i: int, k: int, rest: Seq<Seq<char>>)
    requires
        well_formed(reg),
        0 <= i < reg.args.len(),
        0 <= k < reg.args[i].aliases.len(),
    ensures
        resolve(reg, seq![reg.args[i].aliases[k]] + rest) == resolve(
            reg,
            seq![reg.args[i].name] + rest,
        ),
        resolve(reg, seq![reg.args[i].aliases[k]] + rest) matches Ok(xs) ==> xs[0].name
            == reg.args[i].name,
{
    let a = reg.args[i];
    let by_alias = seq![a.aliases[k]] + rest;
    let by_name = seq![a.name] + rest;
    assert(a.aliases.contains(a.aliases[k]));
    assert(triggers(reg.args[i], by_alias[0]));
    assert(triggers(reg.args[i], by_name[0]));
    lemma_trigger_unique(reg, by_alias[0], i, argument_of(reg, by_alias[0]));
    lemma_trigger_unique(reg, by_name[0], i, argument_of(reg, by_name[0]));
    assert(by_alias.drop_first() =~= rest);
    assert(by_name.drop_first() =~= rest);
    assert(step(reg, by_alias, 0) == step(reg, by_name, 0));
    match step(reg, by_alias, 0) {
        Ok((x, n, s)) => {
            crate::resolution::lemma_step_bound(reg, by_alias, 0);
            assert(by_alias.skip(n as int) =~= by_name.skip(n as int));
        },
        Err(_) => {},
    }
}

/// A run that reaches no further than `t` is the same run in `t` alone.
proof fn lemma_run_len_cut(reg: RegistryModel, t: Seq<Seq<char>>, tail: Seq<Seq<char>>)
    requires
        run_len(reg, t + tail) <= t.len(),
    ensures
        run_len(reg, t) == run_len(reg, t + tail),
    decreases t.len(),
{
    if t.len() > 0 {
        assert((t + tail)[0] == t[0]);
        if !is_taken(reg, t[0]) {
            assert((t + tail).drop_first() =~= t.drop_first() + tail);
            lemma_run_len_cut(reg, t.drop_first(), tail);
        }
    }
}

/// Parameters that take no more than `t` from `t + tail` take the same from
/// `t` alone.
proof fn lemma_take_params_cut(
    reg: RegistryModel,
    name: Seq<char>,
    params: Seq<ParameterModel>,
    t: Seq<Seq<char>>,
    tail: Seq<Seq<char>>,
    m: nat,
)
    requires
        take_params(reg, name, params, t + tail) == Ok::<nat, ErrorModel>(m),
        m <= t.len(),
    ensures
        take_params(reg, name, params, t) == Ok::<nat, ErrorModel>(m),
    decreases params.len(),
{
    if params.len() > 0 {
        let p = params[0];
        let n = if p.arity == -1 {
            run_len(reg, t + tail)
        } else {
            fixed_count(p)
        };
        let m2 = take_params(reg, name, params.drop_first(), (t + tail).skip(n as int))->Ok_0;
        assert(n + m2 == m);
        if p.arity == -1 {
            lemma_run_len_cut(reg, t, tail);
        }
        assert((t + tail).skip(n as int) =~= t.skip(n as int) + tail);
        lemma_take_params_cut(reg, name, params.drop_first(), t.skip(n as int), tail, m2);
    }
}

/// When the stream of `groups` resolves to `xs`, one input per group, and
/// each group is an argument token followed by exactly the values of its
/// input, each group resolves alone to its input.
proof fn lemma_groups_from_parse(
    reg: RegistryModel,
    groups: Seq<Seq<Seq<char>>>,
    xs: Seq<InputModel>,
)
    requires
        xs.len() == groups.len(),
        forall|k: int|
            0 <= k < groups.len() ==> (#[trigger] groups[k]).len() > 0 && is_taken(
                reg,
                groups[k][0],
            ) && groups[k].drop_first() == xs[k].values,
        resolve(reg, groups.flatten()) == Ok::<Seq<InputModel>, ErrorModel>(xs),
    ensures
        forall|k: int|
            0 <= k < groups.len() ==> is_group(reg, #[trigger] groups[k]) && group_input(
                reg,
                groups[k],
            ) == xs[k],
    decreases groups.len(),
{
    if groups.len() > 0 {
        let g = groups[0];
        let rest = groups.drop_first();
        let whole = groups.flatten();
        assert(whole =~= g + rest.flatten());
        assert(g.len() > 0 && is_taken(reg, g[0]) && g.drop_first() == xs[0].values);
        assert(whole[0] == g[0]);
        let t = g[0];
        let a = reg.args[argument_of(reg, t)];
        crate::resolution::lemma_step_bound(reg, whole, 0);
        let (x, n, s) = step(reg, whole, 0)->Ok_0;
        let m = take_params(reg, a.name, a.params, whole.drop_first())->Ok_0;
        let ys = resolve_from(reg, whole.skip(n as int), s)->Ok_0;
        assert(xs =~= seq![x] + ys);
        assert(x == xs[0]);
        assert(whole.drop_first() =~= g.drop_first() + rest.flatten());
        assert(x.values =~= whole.drop_first().take(m as int));
        assert(m == g.len() - 1);
        assert(whole.skip(n as int) =~= rest.flatten());
        assert(ys =~= xs.drop_first());
        assert forall|k: int|
            0 <= k < rest.len() implies (#[trigger] rest[k]).len() > 0 && is_taken(reg, rest[k][0])
            && rest[k].drop_first() == xs.drop_first()[k].values by {
            assert(rest[k] == groups[k + 1]);
        }
        lemma_groups_from_parse(reg, rest, xs.drop_first());
        lemma_take_params_cut(reg, a.name, a.params, g.drop_first(), rest.flatten(), m);
        assert(g.drop_first().take(m as int) =~= g.drop_first());
        assert(step(reg, g, 0) == Ok::<(InputModel, nat, nat), ErrorModel>((x, n, 0)));
        assert(g.skip(n as int) =~= Seq::<Seq<char>>::empty());
        assert(resolve_from(reg, g.skip(n as int), 0) == Ok::<Seq<InputModel>, ErrorModel>(
            Seq::empty(),
        ));
        assert(resolve(reg, g) == Ok::<Seq<InputModel>, ErrorModel>(seq![x] + Seq::empty()));
        assert(seq![x] + Seq::<InputModel>::empty() =~= seq![x]);
        assert forall|k: int| 0 <= k < groups.len() implies is_group(reg, #[trigger] groups[k])
            && group_input(reg, groups[k]) == xs[k] by {
            if k > 0 {
                assert(groups[k] == rest[k - 1]);
            }
        }
    }
}

/// Groups moved as units give the same inputs in the new order: when a stream
/// resolves to `xs`, one input per group, and each group is an argument token
/// followed by exactly the values of its input, the same groups in the order
/// `order` resolve to the same inputs in that order.
pub proof fn lemma_reorder_groups(
    reg: RegistryModel,
    groups: Seq<Seq<Seq<char>>>,
    xs: Seq<InputModel>,
    order: Seq<int>,
)
    requires
        xs.len() == groups.len(),
        forall|k: int|
            0 <= k < groups.len() ==> (#[trigger] groups[k]).len() > 0 && is_taken(
                reg,
                groups[k][0],
            ) && groups[k].drop_first() == xs[k].values,
        resolve(reg, groups.flatten()) == Ok::<Seq<InputModel>, ErrorModel>(xs),
        order.len() == groups.len(),
        forall|k: int| 0 <= k < order.len() ==> 0 <= #[trigger] order[k] < groups.len(),
        forall|j: int, k: int| 0 <= j < k < order.len() ==> order[j] != order[k],
    ensures
        resolve(reg, order.map_values(|k: int| groups[k]).flatten()) matches Ok(ys) && ys.len()
            == xs.len() && forall|k: int| 0 <= k < ys.len() ==> #[trigger] ys[k] == xs[order[k]],
{
    lemma_groups_from_parse(reg, groups, xs);
    lemma_group_order(reg, groups, order);
    assert(group_inputs(reg, groups) =~= xs);
}

/// An alias stands for its argument wherever an argument token is read:
/// after any groups, the alias resolves as the argument's name would, and the
/// input it starts carries the argument's name, never the alias.
pub proof fn lemma_alias_resolves(
    reg: RegistryModel,
    groups: Seq<Seq<Seq<char>>>,
    i: int,
    k: int,
    rest: Seq<Seq<char>>,
)
    requires
        well_formed(reg),
        forall|g: int| 0 <= g < groups.len() ==> is_group(reg, #[trigger] groups[g]),
        0 <= i < reg.args.len(),
        0 <= k < reg.args[i].aliases.len(),
    ensures
        resolve(reg, groups.flatten() + (seq![reg.args[i].aliases[k]] + rest)) == resolve(
            reg,
            groups.flatten() + (seq![reg.args[i].name] + rest),
        ),
        resolve(reg, groups.flatten() + (seq![reg.args[i].aliases[k]] + rest)) matches Ok(xs)
            ==> xs[groups.len() as int].name == reg.args[i].name,
{
    let a = reg.args[i];
    let by_alias = seq![a.aliases[k]] + rest;
    let by_name = seq![a.name] + rest;
    assert(a.aliases.contains(a.aliases[k]));
    assert(triggers(reg.args[i], by_alias[0]));
    assert(triggers(reg.args[i], by_name[0]));
    assert(starts_group(reg, by_alias));
    assert(starts_group(reg, by_name));
    lemma_groups_then(reg, groups, by_alias);
    lemma_groups_then(reg, groups, by_name);
    lemma_alias_at_head(reg, i, k, rest);
    match resolve(reg, by_alias) {
        Ok(ys) => {
            assert((group_inputs(reg, groups) + ys)[groups.len() as int] == ys[0]);
        },
        Err(_) => {},
    }
}

/// The tokens that fixed-arity parameters take, in total.
pub open spec fn arity_sum(ps: Seq<ParameterModel>) -> nat
    decreases ps.len(),
{
    if ps.len() == 0 {
        0
    } else {
        fixed_count(ps[0]) + arity_sum(ps.drop_first())
    }
}

proof fn lemma_arity_sum_push(ps: Seq<ParameterModel>, p: ParameterModel)
    ensures
        arity_sum(ps.push(p)) == arity_sum(ps) + fixed_count(p),
    decreases ps.len(),
{
    if ps.len() == 0 {
        assert(ps.push(p).drop_first() =~= Seq::<ParameterModel>::empty());
        assert(arity_sum(Seq::<ParameterModel>::empty()) == 0);
    } else {
        assert(ps.push(p)[0] == ps[0]);
        assert(ps.push(p).drop_first() =~= ps.drop_first().push(p));
        lemma_arity_sum_push(ps.drop_first(), p);
    }
}

/// The first `k` parameters, all of fixed arity, take their tokens from the
/// head of `toks` when there are enough of them.
proof fn lemma_take_fixed(
    reg: RegistryModel,
    name: Seq<char>,
    ps: Seq<ParameterModel>,
    k: int,
    toks: Seq<Seq<char>>,
)
    requires
        0 <= k <= ps.len(),
        forall|j: int| 0 <= j < k ==> (#[trigger] ps[j]).arity > 0,
        arity_sum(ps.take(k)) <= toks.len(),
    ensures
        take_params(reg, name, ps, toks) == shift(
            arity_sum(ps.take(k)),
            take_params(reg, name, ps.skip(k), toks.skip(arity_sum(ps.take(k)) as int)),
        ),
    decreases k,
{
    if k == 0 {
        assert(ps.skip(0) =~= ps);
        assert(toks.skip(0) =~= toks);
        assert(ps.take(0).len() == 0);
    } else {
        let p = ps[0];
        let n = fixed_count(p);
        let tail = ps.drop_first();
        assert(ps.take(k).drop_first() =~= tail.take(k - 1));
        assert(ps.take(k)[0] == p);
        assert forall|j: int| 0 <= j < k - 1 implies (#[trigger] tail[j]).arity > 0 by {
            assert(tail[j] == ps[j + 1]);
        }
        lemma_take_fixed(reg, name, tail, k - 1, toks.skip(n as int));
        let s = arity_sum(tail.take(k - 1));
        assert(tail.skip(k - 1) =~= ps.skip(k));
        assert(toks.skip(n as int).skip(s as int) =~= toks.skip((n + s) as int));
    }
}

/// The first fixed-arity parameter that the remaining tokens `rem` cannot
/// fill makes the parameters fail with an error naming the argument and
/// exactly that parameter. `Clip::parse_arg` returns this error.
pub proof fn lemma_parameter_starved(
    reg: RegistryModel,
    name: Seq<char>,
    ps: Seq<ParameterModel>,
    k: int,
    rem: Seq<Seq<char>>,
)
    requires
        0 <= k < ps.len(),
        forall|j: int| 0 <= j <= k ==> (#[trigger] ps[j]).arity > 0,
        arity_sum(ps.take(k)) <= rem.len() < arity_sum(ps.take(k + 1)),
    ensures
        take_params(reg, name, ps, rem) == Err::<nat, ErrorModel>(
            ErrorModel::ExpectedParameter { argument: name, parameter: ps[k].name },
        ),
{
    lemma_take_fixed(reg, name, ps, k, rem);
    assert(ps.take(k + 1) =~= ps.take(k).push(ps[k]));
    lemma_arity_sum_push(ps.take(k), ps[k]);
    assert(ps.skip(k)[0] == ps[k]);
}

/// A fixed-arity parameter that the stream ends before filling fails the
/// whole resolution, after any groups, with an error naming the argument and
/// that parameter.
pub proof fn lemma_starved_parameter(
    reg: RegistryModel,
    groups: Seq<Seq<Seq<char>>>,
    i: int,
    t: Seq<char>,
    vals: Seq<Seq<char>>,
    k: int,
)
    requires
        well_formed(reg),
        forall|g: int| 0 <= g < groups.len() ==> is_group(reg, #[trigger] groups[g]),
        0 <= i < reg.args.len(),
        triggers(reg.args[i], t),
        0 <= k < reg.args[i].params.len(),
        forall|j: int| 0 <= j <= k ==> (#[trigger] reg.args[i].params[j]).arity > 0,
        arity_sum(reg.args[i].params.take(k)) <= vals.len() < arity_sum(
            reg.args[i].params.take(k + 1),
        ),
    ensures
        resolve(reg, groups.flatten() + (seq![t] + vals)) == Err::<Seq<InputModel>, ErrorModel>(
            ErrorModel::ExpectedParameter {
                argument: reg.args[i].name,
                parameter: reg.args[i].params[k].name,
            },
        ),
{
    let a = reg.args[i];
    let toks = seq![t] + vals;
    assert(toks[0] == t);
    assert(starts_group(reg, toks));
    lemma_groups_then(reg, groups, toks);
    lemma_trigger_unique(reg, t, i, argument_of(reg, t));
    assert(toks.drop_first() =~= vals);
    lemma_parameter_starved(reg, a.name, a.params, k, vals);
}

/// With only flags registered, a token that is neither an argument name nor
/// an alias, read where an argument token is expected (at the start, or after
/// groups the last of which is closed), fails the whole resolution: no input
/// is returned, whatever came before or follows it.
pub proof fn lemma_unknown_token(
    reg: RegistryModel,
    groups: Seq<Seq<Seq<char>>>,
    t: Seq<char>,
    rest: Seq<Seq<char>>,
)
    requires
        well_formed(reg),
        forall|i: int| 0 <= i < reg.args.len() ==> (#[trigger] reg.args[i]).mode == Mode::Flag,
        forall|g: int| 0 <= g < groups.len() ==> is_group(reg, #[trigger] groups[g]),
        groups.len() == 0 || is_closed(reg, groups.last()),
        !is_taken(reg, t),
    ensures
        resolve(reg, groups.flatten() + (seq![t] + rest)) == Err::<Seq<InputModel>, ErrorModel>(
            ErrorModel::UnknownArgument(t),
        ),
{
    let toks = seq![t] + rest;
    lemma_no_positional(reg.args);
    assert(toks[0] == t);
    if groups.len() == 0 {
        assert(groups.flatten() =~= Seq::<Seq<char>>::empty());
        assert(groups.flatten() + toks =~= toks);
    } else {
        lemma_groups_then(reg, groups, toks);
    }
}

proof fn lemma_no_positional(args: Seq<crate::model::ArgumentModel>)
    requires
        forall|i: int| 0 <= i < args.len() ==> (#[trigger] args[i]).mode == Mode::Flag,
    ensures
        positional_names(args).len() == 0,
    decreases args.len(),
{
    if args.len() > 0 {
        assert(args.last().mode == Mode::Flag);
        lemma_no_positional(args.drop_last());
    }
}

proof fn lemma_run_len_plain(reg: RegistryModel, run: Seq<Seq<char>>, tail: Seq<Seq<char>>)
    requires
        forall|v: int| 0 <= v < run.len() ==> !is_taken(reg, #[trigger] run[v]),
    ensures
        run_len(reg, run + tail) == run.len() + run_len(reg, tail),
    decreases run.len(),
{
    if run.len() == 0 {
        assert(run + tail =~= tail);
    } else {
        assert((run + tail)[0] == run[0]);
        assert((run + tail).drop_first() =~= run.drop_first() + tail);
        assert forall|v: int| 0 <= v < run.drop_first().len() implies !is_taken(
            reg,
            #[trigger] run.drop_first()[v],
        ) by {
            assert(run.drop_first()[v] == run[v + 1]);
        }
        lemma_run_len_plain(reg, run.drop_first(), tail);
    }
}

/// An unbounded parameter stops taking tokens right before the next
/// registered name or alias, wherever its argument stands: after any groups,
/// an argument whose fixed parameters take `fixed` and whose last, unbounded
/// parameter meets the run `run` and then the name or alias `f` makes one
/// input with `fixed + run`, and resolution goes on at `f`, which is left for
/// the next step.
pub proof fn lemma_unbounded_stops(
    reg: RegistryModel,
    groups: Seq<Seq<Seq<char>>>,
    i: int,
    t: Seq<char>,
    fixed: Seq<Seq<char>>,
    run: Seq<Seq<char>>,
    f: Seq<char>,
    rest: Seq<Seq<char>>,
)
    requires
        well_formed(reg),
        forall|k: int| 0 <= k < groups.len() ==> is_group(reg, #[trigger] groups[k]),
        0 <= i < reg.args.len(),
        triggers(reg.args[i], t),
        reg.args[i].params.len() > 0,
        reg.args[i].params.last().arity == -1,
        forall|j: int|
            0 <= j < reg.args[i].params.len() - 1 ==> (#[trigger] reg.args[i].params[j]).arity > 0,
        arity_sum(reg.args[i].params.drop_last()) == fixed.len(),
        forall|v: int| 0 <= v < run.len() ==> !is_taken(reg, #[trigger] run[v]),
        is_taken(reg, f),
    ensures
        resolve(reg, groups.flatten() + (seq![t] + fixed + run + seq![f] + rest)) == prepend(
            group_inputs(reg, groups).push(InputModel { name: reg.args[i].name, values: fixed + run }),
            resolve(reg, seq![f] + rest),
        ),
{
    let a = reg.args[i];
    let ps = a.params;
    let k = ps.len() - 1;
    let later = seq![f] + rest;
    let tail = seq![t] + fixed + run + later;
    assert(tail =~= seq![t] + fixed + run + seq![f] + rest);
    assert(tail[0] == t);
    assert(starts_group(reg, tail));
    lemma_groups_then(reg, groups, tail);
    lemma_trigger_unique(reg, t, i, argument_of(reg, t));
    let body = tail.drop_first();
    assert(body =~= fixed + (run + later));
    assert(ps.take(k) =~= ps.drop_last());
    lemma_take_fixed(reg, a.name, ps, k, body);
    assert(body.skip(fixed.len() as int) =~= run + later);
    assert(later[0] == f);
    lemma_run_len_plain(reg, run, later);
    let last = ps.skip(k);
    assert(last[0] == ps[k]);
    assert(last.drop_first().len() == 0);
    assert(run_len(reg, later) == 0);
    assert((run + later).skip(run.len() as int) =~= later);
    assert(take_params(reg, a.name, last.drop_first(), later) == Ok::<nat, ErrorModel>(0));
    assert(take_params(reg, a.name, last, run + later) == Ok::<nat, ErrorModel>(run.len()));
    let m = fixed.len() + run.len();
    assert(take_params(reg, a.name, ps, body) == Ok::<nat, ErrorModel>(m as nat));
    assert(body.take(m as int) =~= fixed + run);
    let x = InputModel { name: a.name, values: fixed + run };
    assert(step(reg, tail, 0) == Ok::<(InputModel, nat, nat), ErrorModel>((x, (1 + m) as nat, 0)));
    assert(tail.skip((1 + m) as int) =~= later);
    match resolve(reg, later) {
        Ok(ys) => {
            assert(group_inputs(reg, groups) + (seq![x] + ys) =~= group_inputs(reg, groups).push(x)
                + ys);
        },
        Err(_) => {},
    }
}

/// At the end of the stream an unbounded parameter takes every remaining
/// token: after any groups, an argument whose fixed parameters take `fixed`
/// and whose last, unbounded parameter meets the run `run` up to the end makes
/// the last input, with `fixed + run`.
pub proof fn lemma_unbounded_to_end(
    reg: RegistryModel,
    groups: Seq<Seq<Seq<char>>>,
    i: int,
    t: Seq<char>,
    fixed: Seq<Seq<char>>,
    run: Seq<Seq<char>>,
)
    requires
        well_formed(reg),
        forall|k: int| 0 <= k < groups.len() ==> is_group(reg, #[trigger] groups[k]),
        0 <= i < reg.args.len(),
        triggers(reg.args[i], t),
        reg.args[i].params.len() > 0,
        reg.args[i].params.last().arity == -1,
        forall|j: int|
            0 <= j < reg.args[i].params.len() - 1 ==> (#[trigger] reg.args[i].params[j]).arity > 0,
        arity_sum(reg.args[i].params.drop_last()) == fixed.len(),
        forall|v: int| 0 <= v < run.len() ==> !is_taken(reg, #[trigger] run[v]),
    ensures
        resolve(reg, groups.flatten() + (seq![t] + fixed + run)) == Ok::<
            Seq<InputModel>,
            ErrorModel,
        >(group_inputs(reg, groups).push(InputModel { name: reg.args[i].name, values: fixed + run })),
{
    let a = reg.args[i];
    let ps = a.params;
    let k = ps.len() - 1;
    let none = Seq::<Seq<char>>::empty();
    let tail = seq![t] + fixed + run;
    assert(tail[0] == t);
    assert(starts_group(reg, tail));
    lemma_groups_then(reg, groups, tail);
    lemma_trigger_unique(reg, t, i, argument_of(reg, t));
    let body = tail.drop_first();
    assert(body =~= fixed + run);
    assert(ps.take(k) =~= ps.drop_last());
    lemma_take_fixed(reg, a.name, ps, k, body);
    assert(body.skip(fixed.len() as int) =~= run + none);
    lemma_run_len_plain(reg, run, none);
    assert(run_len(reg, none) == 0);
    let last = ps.skip(k);
    assert(last[0] == ps[k]);
    assert(last.drop_first().len() == 0);
    assert((run + none).skip(run.len() as int) =~= none);
    assert(take_params(reg, a.name, last.drop_first(), none) == Ok::<nat, ErrorModel>(0));
    assert(take_params(reg, a.name, last, run + none) == Ok::<nat, ErrorModel>(run.len()));
    let m = fixed.len() + run.len();
    assert(take_params(reg, a.name, ps, body) == Ok::<nat, ErrorModel>(m as nat));
    assert(body.take(m as int) =~= fixed + run);
    let x = InputModel { name: a.name, values: fixed + run };
    assert(step(reg, tail, 0) == Ok::<(InputModel, nat, nat), ErrorModel>((x, (1 + m) as nat, 0)));
    assert(tail.skip((1 + m) as int) =~= none);
    assert(resolve_from(reg, tail.skip((1 + m) as int), 0) == Ok::<Seq<InputModel>, ErrorModel>(
        Seq::empty(),
    ));
    assert(resolve(reg, tail) == Ok::<Seq<InputModel>, ErrorModel>(seq![x] + Seq::empty()));
    assert(group_inputs(reg, groups) + (seq![x] + Seq::empty()) =~= group_inputs(reg, groups).push(
        x,
    ));
}

/// Registration refuses a second variadic argument, an alias already taken
/// as a name or an alias, and an unbounded parameter before the last place.
pub proof fn lemma_registration_rejects(reg: RegistryModel, a: ArgumentModel)
    ensures
        a.mode == Mode::Variadic && has_variadic(reg) ==> registration_error(reg, a) is Some,
        (exists|k: int| 0 <= k < a.aliases.len() && is_taken(reg, #[trigger] a.aliases[k]))
            ==> registration_error(reg, a) is Some,
        (exists|k: int|
            0 <= k < a.params.len() - 1 && is_unbounded(#[trigger] a.params[k]))
            ==> registration_error(reg, a) is Some,
{
    if exists|k: int| 0 <= k < a.aliases.len() && is_taken(reg, #[trigger] a.aliases[k]) {
        let k = choose|k: int| 0 <= k < a.aliases.len() && is_taken(reg, #[trigger] a.aliases[k]);
        assert(alias_fault(reg, a, k));
    }
    if exists|k: int| 0 <= k < a.params.len() - 1 && is_unbounded(#[trigger] a.params[k]) {
        let k = choose|k: int| 0 <= k < a.params.len() - 1 && is_unbounded(#[trigger] a.params[k]);
        assert(param_fault(a, k));
    }
}

} // verus!
