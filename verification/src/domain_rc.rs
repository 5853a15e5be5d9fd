//! The reference-counted evaluator backend.
//!
//! Every value is an individually heap-allocated node shared through
//! `Rc`: cloning a handle is O(1), environments and spines hold
//! sequences of handles, and a node is freed as soon as its last handle
//! is dropped. The algorithm is the spine-accumulating state machine of
//! `crate::semantics`, and every operation is verified to return exactly
//! what that semantics prescribes.

use vstd::prelude::*;

use crate::index::{Index, Level};
use crate::semantics;
use crate::semantics::SemValue;
use crate::syntax;
use crate::syntax::{Term, TermRef, opt_term_view, term_size};
use std::rc::Rc;

verus! {

/// The unresolved head of a stuck computation.
#[derive(Clone, Copy)]
pub enum Head {
    /// A variable, identified by the absolute binder level that
    /// introduced it.
    Variable(Level),
}

/// A semantic value node.
pub enum Value {
    /// A computation stuck on a variable, with the arguments applied to
    /// it so far, in application order.
    Neutral { head: Head, spine: Vec<ValueRef> },
    /// A suspended function.
    Lambda(Closure),
}

/// A shared handle to a value node.
pub type ValueRef = Rc<Value>;

/// An unevaluated body together with the environment snapshot taken
/// when the enclosing lambda was evaluated.
pub struct Closure {
    pub term: TermRef,
    pub environment: Environment,
}

/// The values of the currently bound variables, most recently bound
/// last; an index resolves from the end.
pub struct Environment {
    pub values: Vec<ValueRef>,
}

/// The pending arguments of a chain of applications, in application
/// order. Stored reversed so that prepending and removing the first
/// argument are O(1) at the vector's end.
pub struct Spine {
    pub reversed_values: Vec<ValueRef>,
}

/// The binder level of a head.
pub open spec fn head_view(h: Head) -> nat {
    match h {
        Head::Variable(level) => level.0 as nat,
    }
}

/// The semantic value behind a node.
pub open spec fn value_view(v: Value) -> SemValue
    decreases v, 0nat,
{
    match v {
        Value::Neutral { head, spine } => SemValue::Neutral {
            head: head_view(head),
            spine: values_view(spine@),
        },
        Value::Lambda(c) => SemValue::Lambda {
            body: *c.term,
            env: values_view(c.environment.values@),
        },
    }
}

/// The semantic values behind a sequence of handles, in order.
pub open spec fn values_view(s: Seq<ValueRef>) -> Seq<SemValue>
    decreases s, 1nat,
{
    if s.len() == 0 {
        Seq::empty()
    } else {
        values_view(s.drop_last()).push(value_view(*s.last()))
    }
}

/// The semantic value behind an optional handle, as evaluation
/// returns one.
pub open spec fn opt_value_view(r: Option<ValueRef>) -> Option<SemValue> {
    match r {
        None => None,
        Some(v) => Some(value_view(*v)),
    }
}

pub proof fn lemma_values_view(s: Seq<ValueRef>)
    ensures
        values_view(s).len() == s.len(),
        forall|i: int| 0 <= i < s.len() ==> values_view(s)[i] == value_view(*s[i]),
    decreases s.len(),
{
    if s.len() > 0 {
        lemma_values_view(s.drop_last());
    }
}

pub proof fn lemma_values_view_push(s: Seq<ValueRef>, v: ValueRef)
    ensures
        values_view(s.push(v)) == values_view(s).push(value_view(*v)),
{
    assert(s.push(v).drop_last() =~= s);
    assert(s.push(v).last() == v);
}

pub proof fn lemma_values_view_take(s: Seq<ValueRef>, n: int)
    requires
        0 <= n <= s.len(),
    ensures
        values_view(s.subrange(0, n)) == values_view(s).subrange(0, n),
{
    lemma_values_view(s);
    lemma_values_view(s.subrange(0, n));
    assert(values_view(s.subrange(0, n)) =~= values_view(s).subrange(0, n));
}

impl View for Environment {
    type V = Seq<SemValue>;

    open spec fn view(&self) -> Seq<SemValue> {
        values_view(self.values@)
    }
}

impl View for Spine {
    type V = Seq<SemValue>;

    open spec fn view(&self) -> Seq<SemValue> {
        values_view(self.reversed_values@).reverse()
    }
}

/// Copy a sequence of handles; each copy shares its target.
fn copy_values(values: &Vec<ValueRef>) -> (r: Vec<ValueRef>)
    ensures
        r@ == values@,
{
    let mut result: Vec<ValueRef> = Vec::new();
    let mut k: usize = 0;
    while k < values.len()
        invariant
            k <= values.len(),
            result@ =~= values@.subrange(0, k as int),
        decreases values.len() - k,
    {
        result.push(values[k].clone());
        k = k + 1;
    }
    proof {
        assert(result@ =~= values@);
    }
    result
}

impl Spine {
    /// An empty spine: no pending arguments.
    pub fn new() -> (r: Spine)
        ensures
            r@ == Seq::<SemValue>::empty(),
    {
        let r = Spine { reversed_values: Vec::new() };
        proof {
            assert(r@ =~= Seq::<SemValue>::empty());
        }
        r
    }

    /// Prepend a newly discovered argument.
    pub fn push_front(&mut self, value: ValueRef)
        ensures
            final(self)@ == seq![value_view(*value)] + old(self)@,
    {
        self.reversed_values.push(value);
        proof {
            lemma_values_view_push(old(self).reversed_values@, value);
            assert(final(self)@ =~= seq![value_view(*value)] + old(self)@);
        }
    }

    /// Remove and return the first pending argument, if any.
    pub fn pop_front(&mut self) -> (r: Option<ValueRef>)
        ensures
            old(self)@.len() == 0 ==> r is None && final(self)@ == old(self)@,
            old(self)@.len() > 0 ==> match r {
                Some(v) => value_view(*v) == old(self)@.first() && final(self)@ == old(
                    self,
                )@.drop_first(),
                None => false,
            },
    {
        proof {
            lemma_values_view(self.reversed_values@);
        }
        let r = self.reversed_values.pop();
        proof {
            if old(self).reversed_values@.len() > 0 {
                let s = old(self).reversed_values@;
                lemma_values_view_take(s, s.len() - 1);
                assert(s.subrange(0, s.len() - 1) =~= s.drop_last());
                assert(final(self)@ =~= old(self)@.drop_first());
                assert(old(self)@.first() == values_view(s)[s.len() - 1]);
            }
        }
        r
    }

    /// Whether no arguments are pending.
    pub fn is_empty(&self) -> (r: bool)
        ensures
            r == (self@.len() == 0),
    {
        proof {
            lemma_values_view(self.reversed_values@);
        }
        self.reversed_values.is_empty()
    }
}

impl Environment {
    /// The empty environment: no variable is bound.
    pub fn new() -> (r: Environment)
        ensures
            r@ == Seq::<SemValue>::empty(),
            r.values@ == Seq::<ValueRef>::empty(),
    {
        let r = Environment { values: Vec::new() };
        proof {
            assert(r@ =~= Seq::<SemValue>::empty());
        }
        r
    }

    /// Bind one more variable to `value`.
    pub fn extend(&mut self, value: ValueRef)
        ensures
            final(self).values@ == old(self).values@.push(value),
            final(self)@ == old(self)@.push(value_view(*value)),
    {
        self.values.push(value);
        proof {
            lemma_values_view_push(old(self).values@, value);
        }
    }

    /// The number of bound variables.
    pub fn len(&self) -> (r: usize)
        ensures
            r == self.values@.len(),
    {
        self.values.len()
    }

    /// Forget every binding after the first `n`, restoring the view a
    /// caller had before a transient extension.
    pub fn truncate(&mut self, n: usize)
        requires
            n <= old(self).values@.len(),
        ensures
            final(self).values@ == old(self).values@.subrange(0, n as int),
            final(self)@ == old(self)@.subrange(0, n as int),
    {
        self.values.truncate(n);
        proof {
            lemma_values_view_take(old(self).values@, n as int);
        }
    }

    /// Snapshot the environment; the copy shares every value.
    pub fn duplicate(&self) -> (r: Environment)
        ensures
            r.values@ == self.values@,
            r@ == self@,
    {
        Environment { values: copy_values(&self.values) }
    }
}

/// Apply `function` to one argument: more arguments applied to a stuck
/// computation only grow its spine; a suspended function takes the
/// argument as one beta step, which costs one unit of fuel.
pub fn apply(function: &Value, argument: ValueRef, fuel: usize) -> (r: Option<ValueRef>)
    ensures
        opt_value_view(r) == semantics::apply(
            value_view(*function),
            value_view(*argument),
            fuel as nat,
        ),
    decreases fuel, 0nat, 1nat,
{
    match function {
        Value::Neutral { head, spine } => {
            let mut new_spine = copy_values(spine);
            new_spine.push(argument.clone());
            let r = Rc::new(Value::Neutral { head: *head, spine: new_spine });
            proof {
                lemma_values_view_push(spine@, argument);
                assert(values_view(spine@).push(value_view(*argument)) =~= values_view(spine@)
                    + seq![value_view(*argument)]);
            }
            Some(r)
        },
        Value::Lambda(closure) => {
            if fuel == 0 {
                None
            } else {
                let mut environment = closure.environment.duplicate();
                environment.extend(argument);
                let r = (&*closure.term).evaluate_rc(&mut environment, fuel - 1);
                proof {
                    assert(seq![value_view(*argument)].drop_first() =~= Seq::<SemValue>::empty());
                }
                r
            }
        },
    }
}

/// Apply `function` to every pending argument of `spine`.
#[verifier::loop_isolation(false)]
pub fn apply_spine(function: &ValueRef, spine: Spine, fuel: usize) -> (r: Option<ValueRef>)
    ensures
        opt_value_view(r) == semantics::apply_spine(value_view(**function), spine@, fuel as nat),
    decreases fuel, 0nat, 0nat,
{
    if spine.is_empty() {
        return Some(function.clone());
    }
    match &**function {
        Value::Neutral { head, spine: function_spine } => {
            let ghost all_pending: Seq<SemValue> = spine@;
            let mut new_spine = copy_values(function_spine);
            let mut rest = spine;
            while !rest.is_empty()
                invariant
                    values_view(new_spine@) + rest@ =~= values_view(function_spine@) + all_pending,
                decreases rest@.len(),
            {
                let next = rest.pop_front().unwrap();
                let ghost prev: Seq<ValueRef> = new_spine@;
                new_spine.push(next);
                proof {
                    lemma_values_view_push(prev, next);
                }
            }
            proof {
                assert(values_view(new_spine@) =~= values_view(function_spine@) + all_pending);
            }
            let r = Rc::new(Value::Neutral { head: *head, spine: new_spine });
            Some(r)
        },
        Value::Lambda(closure) => {
            let mut rest = spine;
            let argument = rest.pop_front().unwrap();
            if fuel == 0 {
                return None;
            }
            let mut environment = closure.environment.duplicate();
            environment.extend(argument);
            (&*closure.term).evaluate_with_spine_rc(rest, &mut environment, fuel - 1)
        },
    }
}

impl Term {
    /// Evaluate this term under `environment` with no pending
    /// arguments; the environment reads exactly as it did before the
    /// call once evaluation finishes.
    pub fn evaluate_rc(&self, environment: &mut Environment, fuel: usize) -> (r: Option<ValueRef>)
        ensures
            final(environment).values@ == old(environment).values@,
            opt_value_view(r) == semantics::eval(*self, old(environment)@, fuel as nat),
        decreases fuel, term_size(*self), 2nat,
    {
        self.evaluate_with_spine_rc(Spine::new(), environment, fuel)
    }

    /// The spine-accumulating state machine over
    /// `(term, spine, environment)`: nested applications are walked in a
    /// loop that collects pending arguments before the head is resolved,
    /// so a chain of applications costs O(1) auxiliary stack; each beta
    /// step costs one unit of fuel. A transient extension of the
    /// environment never leaks: the environment reads exactly as it did
    /// before the call once evaluation finishes.
    #[verifier::loop_isolation(false)]
    pub fn evaluate_with_spine_rc(
        &self,
        spine: Spine,
        environment: &mut Environment,
        fuel: usize,
    ) -> (r: Option<ValueRef>)
        ensures
            final(environment).values@ == old(environment).values@,
            opt_value_view(r) == semantics::eval_spine(
                *self,
                spine@,
                old(environment)@,
                fuel as nat,
            ),
        decreases fuel, term_size(*self), 1nat,
    {
        let ghost vals0: Seq<ValueRef> = environment.values@;
        let ghost goal: Option<SemValue> = semantics::eval_spine(
            *self,
            spine@,
            environment@,
            fuel as nat,
        );
        let original_len = environment.len();
        let mut current: &Term = self;
        let mut pending = spine;
        let mut fuel_left = fuel;
        loop
            invariant
                original_len == vals0.len(),
                environment.values@.len() >= original_len,
                environment.values@.subrange(0, original_len as int) == vals0,
                fuel_left <= fuel,
                fuel_left == fuel ==> term_size(*current) <= term_size(*self),
                semantics::eval_spine(*current, pending@, environment@, fuel_left as nat) == goal,
            decreases fuel_left, term_size(*current),
        {
            proof {
                lemma_values_view(environment.values@);
            }
            match current {
                Term::Variable(index) => {
                    let i = index.to_int();
                    if i >= environment.len() {
                        environment.truncate(original_len);
                        return None;
                    }
                    let head = environment.values[environment.len() - 1 - i].clone();
                    let r = apply_spine(&head, pending, fuel_left);
                    environment.truncate(original_len);
                    return r;
                },
                Term::Lambda(body) => {
                    match pending.pop_front() {
                        Some(argument) => {
                            if fuel_left == 0 {
                                environment.truncate(original_len);
                                return None;
                            }
                            environment.extend(argument);
                            fuel_left = fuel_left - 1;
                            current = &**body;
                        },
                        None => {
                            let closure = Closure {
                                term: body.clone(),
                                environment: environment.duplicate(),
                            };
                            let r = Rc::new(Value::Lambda(closure));
                            environment.truncate(original_len);
                            return Some(r);
                        },
                    }
                },
                Term::Application(function, argument) => {
                    let av = (&**argument).evaluate_rc(environment, fuel_left);
                    match av {
                        None => {
                            environment.truncate(original_len);
                            return None;
                        },
                        Some(value) => {
                            pending.push_front(value);
                            current = &**function;
                        },
                    }
                },
            }
        }
    }
}

impl Value {
    /// Reflect this value back into a term at binder depth `level`.
    /// Quoting a suspended function evaluates its body applied to a
    /// fresh stuck variable, so it shares the evaluator's fuel
    /// discipline; each quoting step costs one unit.
    pub fn quote(&self, level: Level, fuel: usize, syntax_builder: &syntax::Builder) -> (r: Option<
        TermRef,
    >)
        requires
            level.0 + fuel <= usize::MAX,
        ensures
            opt_term_view(r) == semantics::quote(value_view(*self), level.0 as nat, fuel as nat),
        decreases fuel, 0nat,
    {
        if fuel == 0 {
            return None;
        }
        let fl = fuel - 1;
        match self {
            Value::Neutral { head, spine } => head.quote(spine, level, fl, syntax_builder),
            Value::Lambda(closure) => {
                let mut environment = closure.environment.duplicate();
                environment.extend(Value::variable(level));
                let bv = (&*closure.term).evaluate_rc(&mut environment, fl);
                match bv {
                    None => None,
                    Some(b) => match (&*b).quote(level.next(), fl, syntax_builder) {
                        None => None,
                        Some(bt) => Some(syntax_builder.lambda(bt)),
                    },
                }
            },
        }
    }

    /// A fresh stuck variable at the given level, applied to nothing.
    pub fn variable(level: Level) -> (r: ValueRef)
        ensures
            value_view(*r) == (SemValue::Neutral {
                head: level.0 as nat,
                spine: Seq::<SemValue>::empty(),
            }),
    {
        let r = Rc::new(Value::Neutral { head: Head::Variable(level), spine: Vec::new() });
        proof {
            assert(values_view(Seq::<ValueRef>::empty()) =~= Seq::<SemValue>::empty());
        }
        r
    }
}

/// The beta-normal form of a closed term within the given fuel bound:
/// evaluate under an empty environment, then quote at level 0.
pub fn normalize_rc(term: &Term, fuel: usize) -> (r: Option<TermRef>)
    ensures
        opt_term_view(r) == semantics::normalize(*term, fuel as nat),
{
    let mut environment = Environment::new();
    let syntax_builder = syntax::Builder::new();
    match term.evaluate_rc(&mut environment, fuel) {
        None => None,
        Some(v) => (&*v).quote(Level(0), fuel, &syntax_builder),
    }
}

impl Head {
    /// Quote a stuck computation: the head becomes a variable index
    /// relative to `level`, and the spine is folded left-to-right into
    /// one application per argument, each argument quoted at the same
    /// level.
    #[verifier::loop_isolation(false)]
    pub fn quote(
        &self,
        spine: &Vec<ValueRef>,
        level: Level,
        fuel: usize,
        syntax_builder: &syntax::Builder,
    ) -> (r: Option<TermRef>)
        requires
            level.0 + fuel <= usize::MAX,
        ensures
            opt_term_view(r) == (if head_view(*self) < level.0 {
                semantics::quote_spine(
                    Term::Variable(Index((level.0 - head_view(*self) - 1) as usize)),
                    values_view(spine@),
                    level.0 as nat,
                    fuel as nat,
                )
            } else {
                None
            }),
        decreases fuel, 1nat,
    {
        let var_level = match self {
            Head::Variable(var_level) => *var_level,
        };
        if var_level.to_int() >= level.to_int() {
            return None;
        }
        let mut result: TermRef = syntax_builder.variable(var_level.to_index(level));
        let ghost first_term: Term = Term::Variable(
            Index((level.0 - var_level.0 - 1) as usize),
        );
        let mut k: usize = 0;
        proof {
            assert(values_view(spine@).skip(0) =~= values_view(spine@));
        }
        while k < spine.len()
            invariant
                k <= spine@.len(),
                semantics::quote_spine(
                    *result,
                    values_view(spine@).skip(k as int),
                    level.0 as nat,
                    fuel as nat,
                ) == semantics::quote_spine(
                    first_term,
                    values_view(spine@),
                    level.0 as nat,
                    fuel as nat,
                ),
            decreases spine@.len() - k,
        {
            proof {
                lemma_values_view(spine@);
            }
            let elem = &spine[k];
            let elem_r = (&**elem).quote(level, fuel, syntax_builder);
            match elem_r {
                None => {
                    return None;
                },
                Some(at) => {
                    proof {
                        assert(values_view(spine@).skip(k as int).first() == values_view(spine@)[
                            k as int
                        ]);
                        assert(values_view(spine@).skip(k as int).drop_first() =~= values_view(
                            spine@,
                        ).skip(k as int + 1));
                    }
                    result = syntax_builder.application(result, at);
                    k = k + 1;
                },
            }
        }
        proof {
            lemma_values_view(spine@);
            assert(values_view(spine@).skip(spine@.len() as int) =~= Seq::<SemValue>::empty());
        }
        Some(result)
    }
}

} // verus!
