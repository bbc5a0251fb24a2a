//! The registry of arguments and the resolver.
use vstd::prelude::*;
use vstd::string::StringExecFns;
use crate::arg::Argument;
use crate::error::{Error, ErrorModel};
use crate::resolution::{
    InputModel, argument_of, fixed_count, lemma_trigger_unique, lemma_variadic_unique, resolve,
    resolve_from, run_len, step, take_params,
};
use crate::text::{split_spaces, split_words};
use crate::model::{
    ArgumentModel, Mode, RegistryModel, has_variadic, is_taken, registered, registration_error,
    triggers, well_formed,
};
use crate::text::views;

verus! {

/// One resolved argument: the canonical name and the tokens it captured.
#[derive(Clone, Debug, PartialEq)]
pub struct Input {
    pub name: String,
    pub values: Vec<String>,
}

impl View for Input {
    type V = InputModel;

    open spec fn view(&self) -> InputModel {
        InputModel { name: self.name@, values: views(self.values@) }
    }
}

/// The views of a list of inputs.
pub open spec fn input_views(v: Seq<Input>) -> Seq<InputModel> {
    v.map_values(|x: Input| x@)
}

/// The value of what a resolution returns.
pub open spec fn outcome(r: Result<Vec<Input>, Error>) -> Result<Seq<InputModel>, ErrorModel> {
    match r {
        Ok(v) => Ok(input_views(v@)),
        Err(e) => Err(e@),
    }
}

/// `r` with `d` more tokens taken, when it is a count.
pub open spec fn shift(d: nat, r: Result<nat, ErrorModel>) -> Result<nat, ErrorModel> {
    match r {
        Ok(m) => Ok(d + m),
        Err(e) => Err(e),
    }
}

/// `r` with the inputs `xs` in front, when it is a list of inputs.
pub open spec fn prepend(xs: Seq<InputModel>, r: Result<Seq<InputModel>, ErrorModel>) -> Result<
    Seq<InputModel>,
    ErrorModel,
> {
    match r {
        Ok(ys) => Ok(xs + ys),
        Err(e) => Err(e),
    }
}

/// Copies of `tokens[from..to]`.
fn capture(tokens: &Vec<String>, from: usize, to: usize) -> (r: Vec<String>)
    requires
        from <= to <= tokens@.len(),
    ensures
        views(r@) == views(tokens@).subrange(from as int, to as int),
{
    let mut r: Vec<String> = Vec::new();
    let mut j: usize = from;
    while j < to
        invariant
            from <= j <= to <= tokens@.len(),
            views(r@) =~= views(tokens@).subrange(from as int, j as int),
        decreases to - j,
    {
        let ghost earlier = r@;
        r.push(tokens[j].clone());
        proof {
            assert(views(r@) =~= views(earlier).push(views(tokens@)[j as int]));
        }
        j = j + 1;
    }
    r
}

/// A registry of arguments: built once with [`Clip::add`], then used to
/// resolve token streams.
#[derive(Debug)]
pub struct Clip {
    pub(crate) program_name: String,
    pub(crate) positional: Vec<String>,
    pub(crate) args: Vec<Argument>,
}

/// The views of a list of arguments.
pub open spec fn arg_views(args: Seq<Argument>) -> Seq<ArgumentModel> {
    args.map_values(|a: Argument| a@)
}

impl View for Clip {
    type V = RegistryModel;

    open(crate) spec fn view(&self) -> RegistryModel {
        RegistryModel { args: arg_views(self.args@), positional: views(self.positional@) }
    }
}

/// Whether some string of `v` before index `end` equals `t`.
pub(crate) fn occurs_before(v: &Vec<String>, end: usize, t: &String) -> (r: bool)
    requires
        end <= v@.len(),
    ensures
        r == exists|j: int| 0 <= j < end && v@[j]@ == t@,
{
    let mut j: usize = 0;
    while j < end
        invariant
            end <= v@.len(),
            j <= end,
            forall|i: int| 0 <= i < j ==> v@[i]@ != t@,
        decreases end - j,
    {
        if v[j] == *t {
            return true;
        }
        j = j + 1;
    }
    false
}

/// Whether `t` is one of the strings of `v`.
pub(crate) fn occurs(v: &Vec<String>, t: &String) -> (r: bool)
    ensures
        r == views(v@).contains(t@),
{
    let r = occurs_before(v, v.len(), t);
    proof {
        if r {
            let j = choose|j: int| 0 <= j < v@.len() && v@[j]@ == t@;
            assert(views(v@)[j] == t@);
        }
    }
    r
}

impl Clip {
    /// The registry of the program `program_name`, with no arguments.
    pub fn new(program_name: &'static str) -> (r: Self)
        ensures
            r@.args == Seq::<ArgumentModel>::empty(),
            r@.positional == Seq::<Seq<char>>::empty(),
            r.wf(),
            r.program() == program_name@,
    {
        let r = Clip { program_name: String::from_str(program_name), positional: Vec::new(), args: Vec::new() };
        proof {
            assert(r@.args =~= Seq::empty());
            assert(r@.positional =~= Seq::empty());
        }
        r
    }

    /// Registers `arg`; see [`Argument::add`].
    pub fn add(&mut self, arg: Argument)
        requires
            old(self).wf(),
            registration_error(old(self)@, arg@) is None,
        ensures
            final(self)@ == registered(old(self)@, arg@),
            final(self).wf(),
            final(self).program() == old(self).program(),
    {
        arg.add(self);
    }

    /// What every registry built by this API keeps.
    pub open spec fn wf(&self) -> bool {
        well_formed(self@)
    }

    /// The name of the program, for messages.
    pub open(crate) spec fn program(&self) -> Seq<char> {
        self.program_name@
    }

    /// Whether `t` is taken, as an argument name or an alias.
    pub fn is_taken(&self, t: &String) -> (r: bool)
        ensures
            r == is_taken(self@, t@),
    {
        self.find_argument(t).is_some()
    }

    /// The argument that `t` names, if any.
    fn find_argument(&self, t: &String) -> (r: Option<usize>)
        ensures
            match r {
                Some(i) => i < self@.args.len() && triggers(self@.args[i as int], t@),
                None => !is_taken(self@, t@),
            },
    {
        let mut i: usize = 0;
        while i < self.args.len()
            invariant
                i <= self.args@.len(),
                forall|j: int| 0 <= j < i ==> !triggers(#[trigger] self@.args[j], t@),
            decreases self.args@.len() - i,
        {
            let a = &self.args[i];
            proof {
                assert(self@.args[i as int] == a@);
            }
            if a.name == *t || occurs(&a.aliases, t) {
                return Some(i);
            }
            i = i + 1;
        }
        None
    }

    /// The index of the variadic argument, if any.
    fn find_variadic(&self) -> (r: Option<usize>)
        ensures
            match r {
                Some(i) => i < self@.args.len() && self@.args[i as int].mode == Mode::Variadic,
                None => !has_variadic(self@),
            },
    {
        let mut i: usize = 0;
        while i < self.args.len()
            invariant
                i <= self.args@.len(),
                forall|j: int| 0 <= j < i ==> (#[trigger] self@.args[j]).mode != Mode::Variadic,
            decreases self.args@.len() - i,
        {
            proof {
                assert(self@.args[i as int] == self.args@[i as int]@);
            }
            if self.args[i].mode == Mode::Variadic {
                return Some(i);
            }
            i = i + 1;
        }
        None
    }

    /// The end of the run of tokens from `from` up to the next registered
    /// argument name or alias.
    fn run_end(&self, tokens: &Vec<String>, from: usize) -> (r: usize)
        requires
            from <= tokens@.len(),
        ensures
            r == from + run_len(self@, views(tokens@).skip(from as int)),
    {
        let ghost toks = views(tokens@);
        let mut k: usize = from;
        while k < tokens.len() && !self.is_taken(&tokens[k])
            invariant
                toks == views(tokens@),
                from <= k <= tokens@.len(),
                run_len(self@, toks.skip(from as int)) == (k - from) + run_len(
                    self@,
                    toks.skip(k as int),
                ),
            decreases tokens@.len() - k,
        {
            proof {
                assert(toks.skip(k as int).drop_first() =~= toks.skip(k + 1));
            }
            k = k + 1;
        }
        proof {
            if k < tokens@.len() {
                assert(toks.skip(k as int)[0] == toks[k as int]);
            }
        }
        k
    }

    /// Takes the tokens of `arg`'s parameters from `start` on, in order, and
    /// returns the input it makes and the index after the last token taken: a
    /// fixed arity takes its count of tokens verbatim, an unbounded parameter
    /// the longest run of tokens that are not registered names or aliases,
    /// leaving the token that ends the run.
    pub fn parse_arg(&self, tokens: &Vec<String>, start: usize, arg: &Argument) -> (r: Result<
        (Input, usize),
        Error,
    >)
        requires
            start <= tokens@.len(),
        ensures
            match r {
                Ok((inp, end)) => start <= end <= tokens@.len() && take_params(
                    self@,
                    arg@.name,
                    arg@.params,
                    views(tokens@).skip(start as int),
                ) == Ok::<nat, ErrorModel>((end - start) as nat) && inp@ == (InputModel {
                    name: arg@.name,
                    values: views(tokens@).subrange(start as int, end as int),
                }),
                Err(e) => take_params(
                    self@,
                    arg@.name,
                    arg@.params,
                    views(tokens@).skip(start as int),
                ) == Err::<nat, ErrorModel>(e@),
            },
    {
        let ghost toks = views(tokens@);
        let ghost ps = arg@.params;
        let mut j: usize = start;
        let mut k: usize = 0;
        proof {
            assert(ps.skip(0) =~= ps);
        }
        while k < arg.params.len()
            invariant
                toks == views(tokens@),
                ps == arg@.params,
                start <= j <= tokens@.len(),
                k <= ps.len(),
                take_params(self@, arg@.name, ps, toks.skip(start as int)) == shift(
                    (j - start) as nat,
                    take_params(self@, arg@.name, ps.skip(k as int), toks.skip(j as int)),
                ),
            decreases ps.len() - k,
        {
            let p = &arg.params[k];
            proof {
                assert(ps.skip(k as int)[0] == p@);
                assert(ps.skip(k as int).drop_first() =~= ps.skip(k + 1));
            }
            let n: usize;
            if p.ninputs == -1 {
                let e = self.run_end(tokens, j);
                proof {
                    crate::resolution::lemma_run_len_bound(self@, toks.skip(j as int));
                }
                n = e - j;
                proof {
                    assert(n == run_len(self@, toks.skip(j as int)));
                }
            } else {
                if p.ninputs > 0 && p.ninputs as usize > tokens.len() - j {
                    proof {
                        assert(fixed_count(p@) > toks.skip(j as int).len());
                    }
                    return Err(
                        Error::ExpectedParameter { argument: arg.name.clone(), parameter: p.name.clone() },
                    );
                }
                n = if p.ninputs > 0 {
                    p.ninputs as usize
                } else {
                    0
                };
                proof {
                    assert(n == fixed_count(p@));
                }
            }
            proof {
                assert(toks.skip(j as int).skip(n as int) =~= toks.skip(j + n));
            }
            j = j + n;
            k = k + 1;
        }
        proof {
            assert(ps.skip(k as int).len() == 0);
            assert(toks.skip(start as int).take(j - start) =~= toks.subrange(start as int, j as int));
        }
        let values = capture(tokens, start, j);
        Ok((Input { name: arg.name.clone(), values }, j))
    }

    /// One resolution step at token `i`, with `slot` positional arguments
    /// filled: the input made, the index of the next token, and the new count of
    /// filled positional arguments.
    fn parse_step(&self, tokens: &Vec<String>, i: usize, slot: usize) -> (r: Result<
        (Input, usize, usize),
        Error,
    >)
        requires
            self.wf(),
            i < tokens@.len(),
            slot <= self@.positional.len(),
        ensures
            match r {
                Ok((inp, j, s)) => i < j <= tokens@.len() && s <= self@.positional.len() && step(
                    self@,
                    views(tokens@).skip(i as int),
                    slot as nat,
                ) == Ok::<(InputModel, nat, nat), ErrorModel>((inp@, (j - i) as nat, s as nat)),
                Err(e) => step(self@, views(tokens@).skip(i as int), slot as nat) == Err::<(InputModel, nat, nat), ErrorModel>(e@),
            },
    {
        let ghost toks = views(tokens@);
        let ghost here = toks.skip(i as int);
        let t = &tokens[i];
        proof {
            assert(tokens.len() == tokens@.len());
            assert(here[0] == t@);
            assert(here.drop_first() =~= toks.skip(i + 1));
        }
        match self.find_argument(t) {
            Some(a) => {
                let arg = &self.args[a];
                proof {
                    assert(self@.args[a as int] == arg@);
                    lemma_trigger_unique(self@, t@, a as int, argument_of(self@, t@));
                }
                match self.parse_arg(tokens, i + 1, arg) {
                    Ok((inp, j)) => {
                        proof {
                            assert(here.drop_first().take(j - (i + 1)) =~= toks.subrange(
                                i + 1,
                                j as int,
                            ));
                        }
                        Ok((inp, j, slot))
                    },
                    Err(e) => Err(e),
                }
            },
            None => {
                if slot < self.positional.len() {
                    let inp = Input { name: self.positional[slot].clone(), values: vec![t.clone()] };
                    proof {
                        assert(views(inp.values@) =~= seq![t@]);
                    }
                    Ok((inp, i + 1, slot + 1))
                } else {
                    match self.find_variadic() {
                        Some(v) => {
                            proof {
                                lemma_variadic_unique(self@, v as int);
                                assert(self@.args[v as int] == self.args@[v as int]@);
                            }
                            let j = self.run_end(tokens, i + 1);
                            proof {
                                crate::resolution::lemma_run_len_bound(self@, toks.skip(i + 1));
                                assert(here.take(j - i) =~= toks.subrange(i as int, j as int));
                            }
                            let values = capture(tokens, i, j);
                            Ok((Input { name: self.args[v].name.clone(), values }, j, slot))
                        },
                        None => Err(Error::UnknownArgument(t.clone())),
                    }
                }
            },
        }
    }

    /// Resolves the token stream `input` (see `resolve`): all the inputs, or
    /// the first error and nothing else.
    pub fn parse_vec(&self, input: &Vec<String>) -> (r: Result<Vec<Input>, Error>)
        requires
            self.wf(),
        ensures
            outcome(r) == resolve(self@, views(input@)),
    {
        let ghost toks = views(input@);
        let mut out: Vec<Input> = Vec::new();
        let mut i: usize = 0;
        let mut slot: usize = 0;
        proof {
            assert(toks.skip(0) =~= toks);
            assert(input_views(out@) + Seq::empty() =~= Seq::<InputModel>::empty());
        }
        while i < input.len()
            invariant
                self.wf(),
                toks == views(input@),
                i <= input@.len(),
                slot <= self@.positional.len(),
                resolve(self@, toks) == prepend(
                    input_views(out@),
                    resolve_from(self@, toks.skip(i as int), slot as nat),
                ),
            decreases input@.len() - i,
        {
            match self.parse_step(input, i, slot) {
                Ok((inp, j, s)) => {
                    proof {
                        assert(toks.skip(i as int).skip(j - i) =~= toks.skip(j as int));
                        let before = input_views(out@);
                        match resolve_from(self@, toks.skip(j as int), s as nat) {
                            Ok(ys) => {
                                assert(before + (seq![inp@] + ys) =~= before.push(inp@) + ys);
                            },
                            Err(_) => {},
                        }
                    }
                    let ghost earlier = out@;
                    let ghost made = inp@;
                    out.push(inp);
                    proof {
                        assert(input_views(out@) =~= input_views(earlier).push(made));
                    }
                    i = j;
                    slot = s;
                },
                Err(e) => {
                    return Err(e);
                },
            }
        }
        proof {
            assert(toks.skip(i as int) =~= Seq::<Seq<char>>::empty());
            assert(input_views(out@) + Seq::empty() =~= input_views(out@));
        }
        Ok(out)
    }

    /// Splits `input` at every space and resolves the tokens.
    pub fn parse(&self, input: &String) -> (r: Result<Vec<Input>, Error>)
        requires
            self.wf(),
        ensures
            outcome(r) == resolve(self@, split_spaces(input@)),
    {
        let tokens = split_words(input.as_str());
        self.parse_vec(&tokens)
    }

    /// Whether some registered argument is variadic.
    pub fn has_variadic(&self) -> (r: bool)
        ensures
            r == has_variadic(self@),
    {
        self.find_variadic().is_some()
    }
}

} // verus!
