//! The term syntax: the AST that normalization consumes and produces,
//! together with the builder used to construct terms.
//!
//! Terms are immutable once built; subterms are shared through `Rc`, so
//! a builder hands out cheap handles and never copies a tree.

use vstd::prelude::*;

use crate::index::Index;
use std::rc::Rc;

verus! {

/// A lambda-calculus term in de Bruijn index notation.
pub enum Term {
    /// A bound-variable occurrence; the index counts binders from the
    /// use site inward (0 = innermost).
    Variable(Index),
    /// A single-argument abstraction; the body has one additional bound
    /// variable in scope.
    Lambda(TermRef),
    /// An application of a function term to an argument term.
    Application(TermRef, TermRef),
}

/// A shared handle to an immutable term node.
pub type TermRef = Rc<Term>;

/// The number of nodes of a term, counted tree-wise.
pub open spec fn term_size(t: Term) -> nat
    decreases t,
{
    match t {
        Term::Variable(_) => 1,
        Term::Lambda(body) => 1 + term_size(*body),
        Term::Application(function, argument) => 1 + term_size(*function) + term_size(
            *argument,
        ),
    }
}

/// The term `f a0 a1 ... an`: `f` applied to each argument in turn,
/// associating to the left.
pub open spec fn app_chain(f: Term, args: Seq<Term>) -> Term
    decreases args.len(),
{
    if args.len() == 0 {
        f
    } else {
        app_chain(Term::Application(Rc::new(f), Rc::new(args.first())), args.drop_first())
    }
}

/// The terms behind a sequence of shared handles.
pub open spec fn terms_view(s: Seq<TermRef>) -> Seq<Term> {
    Seq::new(s.len(), |i: int| *s[i])
}

/// The term behind an optional handle, as quoting returns one.
pub open spec fn opt_term_view(r: Option<TermRef>) -> Option<Term> {
    match r {
        None => None,
        Some(t) => Some(*t),
    }
}

/// Factory for term nodes. All constructed nodes are immutable and
/// individually shared; the builder itself carries no state.
pub struct Builder {}

impl Builder {
    pub fn new() -> Builder {
        Builder {  }
    }

    /// A variable occurrence with the given index.
    pub fn variable(&self, index: Index) -> (r: TermRef)
        ensures
            *r == Term::Variable(index),
    {
        Rc::new(Term::Variable(index))
    }

    /// An abstraction over the given body.
    pub fn lambda(&self, body: TermRef) -> (r: TermRef)
        ensures
            *r == Term::Lambda(body),
    {
        Rc::new(Term::Lambda(body))
    }

    /// An application of `function` to `argument`.
    pub fn application(&self, function: TermRef, argument: TermRef) -> (r: TermRef)
        ensures
            *r == Term::Application(function, argument),
    {
        Rc::new(Term::Application(function, argument))
    }

    /// Shorthand for a variable with a bare numeric index.
    pub fn v(&self, index: usize) -> (r: TermRef)
        ensures
            *r == Term::Variable(Index(index)),
    {
        self.variable(Index(index))
    }

    /// `f` applied to every argument in order, associating to the left.
    pub fn apps(&self, f: TermRef, args: &Vec<TermRef>) -> (r: TermRef)
        ensures
            *r == app_chain(*f, terms_view(args@)),
    {
        let ghost all_args: Seq<Term> = terms_view(args@);
        proof {
            assert(all_args.skip(0) =~= all_args);
        }
        let mut result: TermRef = f;
        let mut k: usize = 0;
        while k < args.len()
            invariant
                k <= args.len(),
                all_args == terms_view(args@),
                all_args.len() == args@.len(),
                app_chain(*result, all_args.skip(k as int)) == app_chain(*f, all_args),
            decreases args.len() - k,
        {
            let argument = args[k].clone();
            proof {
                assert(all_args.skip(k as int).first() == all_args[k as int]);
                assert(all_args.skip(k as int).drop_first() =~= all_args.skip(k as int + 1));
            }
            result = self.application(result, argument);
            k = k + 1;
        }
        proof {
            assert(all_args.skip(args@.len() as int) =~= Seq::<Term>::empty());
        }
        result
    }

    /// Shorthand for an abstraction over the given body.
    pub fn l(&self, body: TermRef) -> (r: TermRef)
        ensures
            *r == Term::Lambda(body),
    {
        self.lambda(body)
    }
}

/// The number a Church-numeral body encodes: under the two outer
/// binders, `n` nested applications of the successor variable (index 1)
/// ending in the zero variable (index 0) encode `n`.
pub open spec fn church_body_count(t: Term) -> Option<nat>
    decreases t,
{
    match t {
        Term::Variable(i) => if i.0 == 0 {
            Some(0nat)
        } else {
            None
        },
        Term::Application(function, argument) => match *function {
            Term::Variable(i) => if i.0 == 1 {
                match church_body_count(*argument) {
                    None => None,
                    Some(n) => Some(n + 1),
                }
            } else {
                None
            },
            _ => None,
        },
        _ => None,
    }
}

/// The number a term encodes as a Church numeral, if it is one:
/// two nested lambdas around a body counted by `church_body_count`.
pub open spec fn church_value(t: Term) -> Option<nat> {
    match t {
        Term::Lambda(body) => match *body {
            Term::Lambda(inner) => church_body_count(*inner),
            _ => None,
        },
        _ => None,
    }
}

/// The bookkeeping of a partial Church-numeral decode: `counted`
/// applications have been walked from `body` down to `current`, and
/// `body` counts exactly when `current` still counts.
pub open spec fn church_partial(body: Term, current: Term, counted: nat) -> bool {
    match church_body_count(body) {
        None => church_body_count(current) is None,
        Some(n) => match church_body_count(current) {
            None => false,
            Some(m) => n == counted + m,
        },
    }
}

/// Decode a normal-form Church numeral by counting the nested
/// applications of the outer bound variable; `None` when the term is
/// not a Church numeral, or its value does not fit in a machine word.
#[verifier::loop_isolation(false)]
pub fn to_nat(term: &Term) -> (r: Option<usize>)
    ensures
        match r {
            Some(n) => church_value(*term) == Some(n as nat),
            None => match church_value(*term) {
                None => true,
                Some(n) => n > usize::MAX,
            },
        },
{
    let body: &Term = match term {
        Term::Lambda(outer) => match &**outer {
            Term::Lambda(inner) => &**inner,
            _ => {
                return None;
            },
        },
        _ => {
            return None;
        },
    };
    let mut result: usize = 0;
    let mut current: &Term = body;
    loop
        invariant
            church_partial(*body, *current, result as nat),
        decreases term_size(*current),
    {
        match current {
            Term::Variable(i) => {
                if i.to_int() == 0 {
                    return Some(result);
                } else {
                    return None;
                }
            },
            Term::Application(function, argument) => {
                match &**function {
                    Term::Variable(i) => {
                        if i.to_int() != 1 {
                            return None;
                        }
                        if result == usize::MAX {
                            proof {
                                lemma_church_body_large(*body, *current, result as nat);
                            }
                            return None;
                        }
                        result = result + 1;
                        current = &**argument;
                    },
                    _ => {
                        return None;
                    },
                }
            },
            _ => {
                return None;
            },
        }
    }
}

proof fn lemma_church_body_large(body: Term, current: Term, counted: nat)
    requires
        church_partial(body, current, counted),
        current matches Term::Application(f, a) && *f matches Term::Variable(i) && i.0 == 1,
    ensures
        church_body_count(body) is Some ==> church_body_count(body).unwrap() > counted,
{
    if church_body_count(body) is Some {
        assert(church_body_count(current) is Some);
    }
}

impl Term {
    /// Structural equality of two terms, decided node by node.
    pub fn equals(&self, other: &Term) -> (r: bool)
        ensures
            r == (*self == *other),
        decreases *self,
    {
        match (self, other) {
            (Term::Variable(i), Term::Variable(j)) => i.to_int() == j.to_int(),
            (Term::Lambda(body1), Term::Lambda(body2)) => body1.equals(body2),
            (Term::Application(f1, a1), Term::Application(f2, a2)) => f1.equals(f2) && a1.equals(
                a2,
            ),
            _ => false,
        }
    }
}

} // verus!
