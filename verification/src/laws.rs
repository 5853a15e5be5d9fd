//! Laws of the normalizer, stated and proved against the semantics of
//! `crate::semantics` that both evaluator backends are verified
//! to implement.

use vstd::prelude::*;

use crate::index::Index;
use crate::semantics::{
    SemValue, apply_spine, eval, eval_spine, lookup, normalize, quote, quote_spine,
};
use crate::syntax::{Term, app_chain};

verus! {

/// Evaluating `f a0 ... an` evaluates each argument and hands the
/// results to `f` as its pending spine, in application order.
pub proof fn lemma_eval_app_chain(
    f: Term,
    ts: Seq<Term>,
    vs: Seq<SemValue>,
    spine: Seq<SemValue>,
    env: Seq<SemValue>,
    fuel: nat,
)
    requires
        ts.len() == vs.len(),
        forall|k: int| 0 <= k < ts.len() ==> eval(#[trigger] ts[k], env, fuel) == Some(vs[k]),
    ensures
        eval_spine(app_chain(f, ts), spine, env, fuel) == eval_spine(f, vs + spine, env, fuel),
    decreases ts.len(),
{
    if ts.len() == 0 {
        assert(vs + spine =~= spine);
    } else {
        lemma_app_chain_snoc(f, ts);
        let prefix = app_chain(f, ts.drop_last());
        assert(eval(ts.last(), env, fuel) == Some(vs.last()));
        assert(eval_spine(app_chain(f, ts), spine, env, fuel) == eval_spine(
            prefix,
            seq![vs.last()] + spine,
            env,
            fuel,
        ));
        assert(forall|k: int|
            0 <= k < ts.len() - 1 ==> (#[trigger] ts.drop_last()[k]) == ts[k] && vs.drop_last()[k]
                == vs[k]);
        lemma_eval_app_chain(f, ts.drop_last(), vs.drop_last(), seq![vs.last()] + spine, env, fuel);
        assert(vs.drop_last() + (seq![vs.last()] + spine) =~= vs + spine);
    }
}

/// `f a0 ... an` is `f a0 ... a(n-1)` applied to the last argument.
pub proof fn lemma_app_chain_snoc(f: Term, ts: Seq<Term>)
    requires
        ts.len() > 0,
    ensures
        app_chain(f, ts) == Term::Application(
            std::rc::Rc::new(app_chain(f, ts.drop_last())),
            std::rc::Rc::new(ts.last()),
        ),
    decreases ts.len(),
{
    let g = Term::Application(std::rc::Rc::new(f), std::rc::Rc::new(ts.first()));
    if ts.len() == 1 {
        assert(ts.drop_last() =~= Seq::<Term>::empty());
        assert(ts.drop_first() =~= Seq::<Term>::empty());
    } else {
        lemma_app_chain_snoc(g, ts.drop_first());
        assert(ts.drop_first().drop_last() =~= ts.drop_last().drop_first());
        assert(ts.drop_last().first() == ts.first());
        assert(ts.drop_first().last() == ts.last());
    }
}

/// Quoting a spine folds it into left-nested applications around the
/// quoted head, one per argument, in application order.
pub proof fn lemma_quote_spine_chain(
    acc: Term,
    vs: Seq<SemValue>,
    qs: Seq<Term>,
    level: nat,
    fuel: nat,
)
    requires
        vs.len() == qs.len(),
        forall|k: int| 0 <= k < vs.len() ==> quote(#[trigger] vs[k], level, fuel) == Some(qs[k]),
    ensures
        quote_spine(acc, vs, level, fuel) == Some(app_chain(acc, qs)),
    decreases vs.len(),
{
    if vs.len() > 0 {
        assert(quote(vs.first(), level, fuel) == Some(qs.first()));
        let next = Term::Application(std::rc::Rc::new(acc), std::rc::Rc::new(qs.first()));
        assert(forall|k: int|
            0 <= k < vs.len() - 1 ==> (#[trigger] vs.drop_first()[k]) == vs[k + 1]
                && qs.drop_first()[k] == qs[k + 1]);
        lemma_quote_spine_chain(next, vs.drop_first(), qs.drop_first(), level, fuel);
    }
}

/// Spine correctness: a stuck variable applied to `k` arguments
/// evaluates to a neutral value holding exactly the arguments' values
/// in application order, and that neutral quotes to `k` left-nested
/// applications of the variable's index to the arguments' quoted
/// forms, in the same order.
pub proof fn spine_normal_form(
    idx: usize,
    ts: Seq<Term>,
    vs: Seq<SemValue>,
    qs: Seq<Term>,
    env: Seq<SemValue>,
    head: nat,
    level: nat,
    efuel: nat,
    qfuel: nat,
)
    requires
        idx < env.len(),
        lookup(env, idx as int) == (SemValue::Neutral { head, spine: Seq::<SemValue>::empty() }),
        head < level,
        level <= usize::MAX,
        ts.len() == vs.len(),
        qs.len() == vs.len(),
        forall|k: int| 0 <= k < ts.len() ==> eval(#[trigger] ts[k], env, efuel) == Some(vs[k]),
        forall|k: int| 0 <= k < vs.len() ==> quote(#[trigger] vs[k], level, qfuel) == Some(qs[k]),
    ensures
        eval(app_chain(Term::Variable(Index(idx)), ts), env, efuel) == Some(
            SemValue::Neutral { head, spine: vs },
        ),
        quote(SemValue::Neutral { head, spine: vs }, level, qfuel + 1) == Some(
            app_chain(Term::Variable(Index((level - head - 1) as usize)), qs),
        ),
{
    let var = Term::Variable(Index(idx));
    lemma_eval_app_chain(var, ts, vs, Seq::empty(), env, efuel);
    assert(vs + Seq::<SemValue>::empty() =~= vs);
    assert(eval(app_chain(var, ts), env, efuel) == apply_spine(
        lookup(env, idx as int),
        vs,
        efuel,
    ));
    if vs.len() > 0 {
        assert(Seq::<SemValue>::empty() + vs =~= vs);
    }
    lemma_quote_spine_chain(Term::Variable(Index((level - head - 1) as usize)), vs, qs, level, qfuel);
}

/// The environment quoting works under at binder depth `level`: one
/// fresh stuck variable per enclosing binder, outermost first.
pub open spec fn neutral_env(level: nat) -> Seq<SemValue> {
    Seq::new(level, |i: int| SemValue::Neutral { head: i as nat, spine: Seq::empty() })
}

/// Quoting one more spine value appends one application to the folded
/// result.
pub proof fn lemma_quote_spine_snoc(acc: Term, vs: Seq<SemValue>, w: SemValue, level: nat, fuel: nat)
    ensures
        quote_spine(acc, vs.push(w), level, fuel) == (match quote_spine(acc, vs, level, fuel) {
            None => None,
            Some(m) => match quote(w, level, fuel) {
                None => None,
                Some(q) => Some(
                    Term::Application(std::rc::Rc::new(m), std::rc::Rc::new(q)),
                ),
            },
        }),
    decreases vs.len(),
{
    if vs.len() == 0 {
        assert(vs.push(w).first() == w);
        assert(vs.push(w).drop_first() =~= Seq::<SemValue>::empty());
        match quote(w, level, fuel) {
            None => {},
            Some(q) => {
                let app = Term::Application(std::rc::Rc::new(acc), std::rc::Rc::new(q));
                assert(quote_spine(app, Seq::empty(), level, fuel) == Some(app));
            },
        }
    } else {
        assert(vs.push(w).first() == vs.first());
        assert(vs.push(w).drop_first() =~= vs.drop_first().push(w));
        match quote(vs.first(), level, fuel) {
            None => {},
            Some(q0) => {
                let next = Term::Application(std::rc::Rc::new(acc), std::rc::Rc::new(q0));
                lemma_quote_spine_snoc(next, vs.drop_first(), w, level, fuel);
            },
        }
    }
}

/// Re-quotation stability: a term produced by quoting evaluates, under
/// one fresh stuck variable per enclosing binder, to a value — the
/// same value whatever the fuel, since a normal form has no beta
/// redexes left — and quoting that value with the original fuel
/// returns the term unchanged.
pub proof fn lemma_requote(v: SemValue, level: nat, qf: nat, n: Term)
    requires
        quote(v, level, qf) == Some(n),
        level + qf <= usize::MAX,
    ensures
        eval(n, neutral_env(level), 0) is Some,
        forall|ef: nat|
            #[trigger] eval(n, neutral_env(level), ef) == eval(n, neutral_env(level), 0),
        quote(eval(n, neutral_env(level), 0).unwrap(), level, qf) == Some(n),
    decreases qf, 0nat, 0nat,
{
    let fl = (qf - 1) as nat;
    match v {
        SemValue::Neutral { head, spine } => {
            let idx = Term::Variable(Index((level - head - 1) as usize));
            let env_n = neutral_env(level);
            assert(quote_spine(idx, spine, level, fl) == Some(n));
            assert forall|ef: nat, pending: Seq<SemValue>|
                #[trigger] eval_spine(idx, pending, env_n, ef) == apply_spine(
                    SemValue::Neutral { head, spine: Seq::empty() },
                    pending,
                    ef,
                ) by {
                let i = (level - head - 1) as usize;
                assert(i < env_n.len());
                assert(lookup(env_n, i as int) == env_n[level - 1 - i]);
                assert(env_n[level - 1 - i] == (SemValue::Neutral {
                    head,
                    spine: Seq::empty(),
                }));
            }
            assert(quote_spine(idx, Seq::empty(), level, fl) == Some(idx));
            lemma_requote_spine(head, level, idx, Seq::empty(), spine, fl, n);
            assert forall|ef: nat|
                #[trigger] eval(n, env_n, ef) == eval(n, env_n, 0) by {
                assert(eval_spine(n, Seq::empty(), env_n, ef) == apply_spine(
                    eval(n, env_n, 0).unwrap(),
                    Seq::empty(),
                    ef,
                ));
                assert(eval_spine(n, Seq::empty(), env_n, 0) == apply_spine(
                    eval(n, env_n, 0).unwrap(),
                    Seq::empty(),
                    0,
                ));
            }
        },
        SemValue::Lambda { body, env } => {
            let fresh = SemValue::Neutral { head: level, spine: Seq::empty() };
            let bv = eval(body, env.push(fresh), fl).unwrap();
            let nb = quote(bv, level + 1, fl).unwrap();
            assert(n == Term::Lambda(std::rc::Rc::new(nb)));
            let env_n = neutral_env(level);
            let w = SemValue::Lambda { body: nb, env: env_n };
            assert forall|ef: nat|
                #[trigger] eval(n, env_n, ef) == eval(n, env_n, 0) by {
                assert(eval_spine(n, Seq::empty(), env_n, ef) == Some(w));
                assert(eval_spine(n, Seq::empty(), env_n, 0) == Some(w));
            }
            assert(eval(n, env_n, 0) == Some(w));
            lemma_requote(bv, level + 1, fl, nb);
            assert(env_n.push(fresh) =~= neutral_env(level + 1));
            assert(eval(nb, neutral_env(level + 1), fl) == eval(nb, neutral_env(level + 1), 0));
            let w2 = eval(nb, neutral_env(level + 1), 0).unwrap();
            assert(quote(w2, level + 1, fl) == Some(nb));
            assert(quote(w, level, qf) == Some(n));
        },
    }
}

/// The spine half of re-quotation stability: walking one quoted spine
/// value at a time, the accumulated application chain evaluates back
/// to the neutral value holding the accumulated argument values, and
/// that neutral quotes back to the chain.
proof fn lemma_requote_spine(
    head: nat,
    level: nat,
    acc: Term,
    wacc: Seq<SemValue>,
    sp: Seq<SemValue>,
    qf: nat,
    n: Term,
)
    requires
        head < level,
        level + qf + 1 <= usize::MAX,
        quote_spine(acc, sp, level, qf) == Some(n),
        forall|ef: nat, pending: Seq<SemValue>|
            #[trigger] eval_spine(acc, pending, neutral_env(level), ef) == apply_spine(
                SemValue::Neutral { head, spine: wacc },
                pending,
                ef,
            ),
        quote_spine(
            Term::Variable(Index((level - head - 1) as usize)),
            wacc,
            level,
            qf,
        ) == Some(acc),
    ensures
        eval(n, neutral_env(level), 0) is Some,
        forall|ef: nat, pending: Seq<SemValue>|
            #[trigger] eval_spine(n, pending, neutral_env(level), ef) == apply_spine(
                eval(n, neutral_env(level), 0).unwrap(),
                pending,
                ef,
            ),
        quote(eval(n, neutral_env(level), 0).unwrap(), level, (qf + 1) as nat) == Some(n),
    decreases qf, 1nat, sp.len(),
{
    let env_n = neutral_env(level);
    let idx = Term::Variable(Index((level - head - 1) as usize));
    if sp.len() == 0 {
        let w = SemValue::Neutral { head, spine: wacc };
        assert(eval_spine(n, Seq::empty(), env_n, 0) == apply_spine(w, Seq::empty(), 0));
        assert(eval(n, env_n, 0) == Some(w));
    } else {
        let q0 = quote(sp.first(), level, qf).unwrap();
        lemma_requote(sp.first(), level, qf, q0);
        let w0 = eval(q0, env_n, 0).unwrap();
        let next = Term::Application(std::rc::Rc::new(acc), std::rc::Rc::new(q0));
        assert(quote_spine(next, sp.drop_first(), level, qf) == Some(n));
        assert forall|ef: nat, pending: Seq<SemValue>|
            #[trigger] eval_spine(next, pending, env_n, ef) == apply_spine(
                SemValue::Neutral { head, spine: wacc.push(w0) },
                pending,
                ef,
            ) by {
            assert(eval(q0, env_n, ef) == Some(w0));
            assert(eval_spine(next, pending, env_n, ef) == eval_spine(
                acc,
                seq![w0] + pending,
                env_n,
                ef,
            ));
            assert(eval_spine(acc, seq![w0] + pending, env_n, ef) == apply_spine(
                SemValue::Neutral { head, spine: wacc },
                seq![w0] + pending,
                ef,
            ));
            assert((seq![w0] + pending).len() > 0);
            assert((seq![w0] + pending).first() == w0);
            assert((seq![w0] + pending).drop_first() =~= pending);
            if pending.len() == 0 {
                assert(wacc + (seq![w0] + pending) =~= wacc.push(w0));
            } else {
                assert(wacc + (seq![w0] + pending) =~= wacc.push(w0) + pending);
            }
        }
        lemma_quote_spine_snoc(idx, wacc, w0, level, qf);
        assert(quote(w0, level, qf) == Some(q0));
        assert(quote_spine(idx, wacc.push(w0), level, qf) == Some(next));
        lemma_requote_spine(head, level, next, wacc.push(w0), sp.drop_first(), qf, n);
    }
}

/// Idempotence of normal forms: a term that normalization produced is
/// returned unchanged when it is normalized again with the same fuel
/// bound, as a term tree, not merely up to semantic equality.
pub proof fn normal_form_idempotent(t: Term, fuel: nat, n: Term)
    requires
        normalize(t, fuel) == Some(n),
        fuel <= usize::MAX,
    ensures
        normalize(n, fuel) == Some(n),
{
    let v = eval(t, Seq::empty(), fuel).unwrap();
    assert(quote(v, 0, fuel) == Some(n));
    lemma_requote(v, 0, fuel, n);
    assert(neutral_env(0) =~= Seq::<SemValue>::empty());
    let w = eval(n, Seq::empty(), 0).unwrap();
    assert(eval(n, Seq::empty(), fuel) == Some(w));
    assert(quote(w, 0, fuel) == Some(n));
}

/// Variant equivalence: both evaluator backends are verified to return
/// exactly the semantics' normal form, so on one term and fuel bound
/// the terms the two backends produce are equal.
pub proof fn variant_agreement(t: Term, fuel: nat, r1: Option<Term>, r2: Option<Term>)
    requires
        r1 == normalize(t, fuel),
        r2 == normalize(t, fuel),
    ensures
        r1 == r2,
{
}

} // verus!
