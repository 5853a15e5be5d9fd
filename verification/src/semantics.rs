//! The mathematical semantics both evaluator backends are verified
//! against.
//!
//! `eval_spine` is the spine-accumulating call-by-value state machine of
//! the normalizer, written as a total specification: it walks the
//! function position of nested applications collecting the pending
//! arguments before resolving what the head denotes, and performs a beta
//! step by moving the first pending argument into the environment.
//! `quote` reflects a semantic value back into syntax. Because
//! normalization of an untyped calculus need not terminate, every
//! function takes a fuel bound; each beta step and each quoting step
//! consumes one unit, and `None` means the bound (or a scope check)
//! failed, never a wrong answer.

use vstd::prelude::*;

use crate::index::Index;
use crate::syntax::{Term, term_size};
use std::rc::Rc;

verus! {

/// A value of the semantic domain. Environments and spines are
/// sequences of values, most-recently-bound (respectively first-applied)
/// last (respectively first).
pub enum SemValue {
    /// A computation stuck on a variable: the head is the binder level
    /// of that variable, the spine holds the arguments applied to it so
    /// far, in application order.
    Neutral { head: nat, spine: Seq<SemValue> },
    /// A suspended function: an unevaluated body together with the
    /// environment snapshot it must later be evaluated in.
    Lambda { body: Term, env: Seq<SemValue> },
}

/// Resolve a de Bruijn index from the end of an environment
/// (index 0 = most recently bound).
pub open spec fn lookup(env: Seq<SemValue>, i: int) -> SemValue
    recommends
        0 <= i < env.len(),
{
    env[env.len() - 1 - i]
}

/// Evaluate `t` under `env` with the pending arguments `spine`.
pub open spec fn eval_spine(t: Term, spine: Seq<SemValue>, env: Seq<SemValue>, fuel: nat) -> Option<
    SemValue,
>
    decreases fuel, term_size(t), 0nat,
{
    match t {
        Term::Variable(idx) => {
            if idx.0 < env.len() {
                apply_spine(lookup(env, idx.0 as int), spine, fuel)
            } else {
                None
            }
        },
        Term::Lambda(body) => {
            if spine.len() == 0 {
                Some(SemValue::Lambda { body: *body, env })
            } else if fuel == 0 {
                None
            } else {
                eval_spine(*body, spine.drop_first(), env.push(spine.first()), (fuel - 1) as nat)
            }
        },
        Term::Application(function, argument) => {
            match eval_spine(*argument, Seq::empty(), env, fuel) {
                None => None,
                Some(av) => eval_spine(*function, seq![av] + spine, env, fuel),
            }
        },
    }
}

/// Apply a value to pending arguments: arguments applied to a stuck
/// computation only grow its recorded spine; a suspended function
/// consumes the first argument as a beta step and continues on its body.
pub open spec fn apply_spine(v: SemValue, spine: Seq<SemValue>, fuel: nat) -> Option<SemValue>
    decreases fuel, 0nat, spine.len(),
{
    if spine.len() == 0 {
        Some(v)
    } else {
        match v {
            SemValue::Neutral { head, spine: existing } => Some(
                SemValue::Neutral { head, spine: existing + spine },
            ),
            SemValue::Lambda { body, env } => {
                if fuel == 0 {
                    None
                } else {
                    eval_spine(body, spine.drop_first(), env.push(spine.first()), (fuel - 1) as nat)
                }
            },
        }
    }
}

/// Evaluate `t` under `env` with no pending arguments.
pub open spec fn eval(t: Term, env: Seq<SemValue>, fuel: nat) -> Option<SemValue> {
    eval_spine(t, Seq::empty(), env, fuel)
}

/// Apply a value to one argument.
pub open spec fn apply(f: SemValue, arg: SemValue, fuel: nat) -> Option<SemValue> {
    apply_spine(f, seq![arg], fuel)
}

/// Reflect a value back into syntax at binder depth `level`: a stuck
/// variable becomes an index relative to `level` with its spine folded
/// into left-nested applications; a suspended function is applied to a
/// fresh stuck variable standing for its bound variable, and the
/// resulting body value is quoted one level deeper.
pub open spec fn quote(v: SemValue, level: nat, fuel: nat) -> Option<Term>
    decreases fuel, 0nat, 0nat,
{
    if fuel == 0 {
        None
    } else {
        let fl = (fuel - 1) as nat;
        match v {
            SemValue::Neutral { head, spine } => {
                if head < level {
                    quote_spine(
                        Term::Variable(Index((level - head - 1) as usize)),
                        spine,
                        level,
                        fl,
                    )
                } else {
                    None
                }
            },
            SemValue::Lambda { body, env } => {
                let fresh = SemValue::Neutral { head: level, spine: Seq::empty() };
                match eval(body, env.push(fresh), fl) {
                    None => None,
                    Some(bv) => match quote(bv, level + 1, fl) {
                        None => None,
                        Some(bt) => Some(Term::Lambda(Rc::new(bt))),
                    },
                }
            },
        }
    }
}

/// Quote every value of a spine, wrapping `acc` in one application per
/// value, left-associated, in application order.
pub open spec fn quote_spine(acc: Term, spine: Seq<SemValue>, level: nat, fuel: nat) -> Option<Term>
    decreases fuel, 1nat, spine.len(),
{
    if spine.len() == 0 {
        Some(acc)
    } else {
        match quote(spine.first(), level, fuel) {
            None => None,
            Some(at) => quote_spine(
                Term::Application(Rc::new(acc), Rc::new(at)),
                spine.drop_first(),
                level,
                fuel,
            ),
        }
    }
}

/// The beta-normal form of a closed term, within the given fuel bound:
/// evaluate under the empty environment, then quote at level 0.
pub open spec fn normalize(t: Term, fuel: nat) -> Option<Term> {
    match eval(t, Seq::empty(), fuel) {
        None => None,
        Some(v) => quote(v, 0, fuel),
    }
}

} // verus!
