//! The arena-backed evaluator backend.
//!
//! Every value node lives in one append-only region owned by the
//! `Builder`; a `ValueRef` is a handle (the node's position in the
//! region), so copying a reference, an environment, or a spine never
//! copies a node, and the whole region is freed at once when the
//! builder is dropped. Nodes only ever refer to nodes allocated before
//! them, which is what gives the region's interpretation its meaning
//! and its termination. The algorithm is the same spine-accumulating
//! state machine as the reference-counted backend, verified against the
//! same `crate::semantics`, so the two backends agree on every input.

use vstd::prelude::*;

use crate::index::{Index, Level};
use crate::semantics;
use crate::semantics::SemValue;
use crate::syntax;
use crate::syntax::{Term, TermRef, opt_term_view, term_size};

verus! {

/// The unresolved head of a stuck computation.
#[derive(Clone, Copy)]
pub enum Head {
    /// A variable, identified by the absolute binder level that
    /// introduced it.
    Variable(Level),
}

/// A handle to a value node: its position in the builder's region.
#[derive(Clone, Copy, PartialEq, Eq, Structural)]
pub struct ValueRef(pub usize);

/// A semantic value node. Handles held by a node always point at nodes
/// allocated earlier.
pub enum Value {
    /// A computation stuck on a variable, with the arguments applied to
    /// it so far, in application order.
    Neutral { head: Head, spine: Vec<ValueRef> },
    /// A suspended function.
    Lambda(Closure),
}

/// An unevaluated body together with the environment snapshot taken
/// when the enclosing lambda was evaluated.
pub struct Closure {
    pub term: TermRef,
    pub environment: Vec<ValueRef>,
}

/// The append-only region that owns every value node of one
/// normalization session.
pub struct Builder {
    pub arena: Vec<Value>,
}

/// The values of the currently bound variables, most recently bound
/// last; an index resolves from the end.
pub struct Environment {
    pub values: Vec<ValueRef>,
}

/// The pending arguments of a chain of applications, in application
/// order, stored reversed so that prepending and removing the first
/// argument are O(1).
pub struct Spine {
    pub reversed_values: Vec<ValueRef>,
}

/// The binder level of a head.
pub open spec fn head_view(h: Head) -> nat {
    match h {
        Head::Variable(level) => level.0 as nat,
    }
}

/// The value an out-of-range handle denotes; never produced by a
/// well-formed region, it only makes the interpretation total.
pub open spec fn dangling() -> SemValue {
    SemValue::Neutral { head: 0, spine: Seq::empty() }
}

/// The semantic value stored at position `idx` of the region. A node's
/// own handles are only followed downward (toward earlier positions);
/// in a well-formed region that covers all of them.
pub open spec fn interp(arena: Seq<Value>, idx: int) -> SemValue
    decreases idx, 1int, 0int,
{
    if 0 <= idx < arena.len() {
        match arena[idx] {
            Value::Neutral { head, spine } => SemValue::Neutral {
                head: head_view(head),
                spine: interp_refs(arena, spine@, idx),
            },
            Value::Lambda(c) => SemValue::Lambda {
                body: *c.term,
                env: interp_refs(arena, c.environment@, idx),
            },
        }
    } else {
        dangling()
    }
}

/// The semantic values behind a sequence of handles, each read below
/// the given bound.
pub open spec fn interp_refs(arena: Seq<Value>, refs: Seq<ValueRef>, bound: int) -> Seq<SemValue>
    decreases bound, 0int, refs.len() as int,
{
    if refs.len() == 0 {
        Seq::empty()
    } else {
        interp_refs(arena, refs.drop_last(), bound).push(
            if 0 <= (refs.last().0 as int) < bound {
                interp(arena, refs.last().0 as int)
            } else {
                dangling()
            },
        )
    }
}

/// Every handle of `refs` points below `bound`.
pub open spec fn refs_ok(refs: Seq<ValueRef>, bound: int) -> bool {
    forall|k: int| 0 <= k < refs.len() ==> (#[trigger] refs[k]).0 < bound
}

/// The handles a node holds all point below `bound`.
pub open spec fn node_ok(v: Value, bound: int) -> bool {
    match v {
        Value::Neutral { head, spine } => refs_ok(spine@, bound),
        Value::Lambda(c) => refs_ok(c.environment@, bound),
    }
}

/// Every node of the region only refers to nodes allocated before it.
pub open spec fn arena_ok(arena: Seq<Value>) -> bool {
    forall|i: int| 0 <= i < arena.len() ==> node_ok(#[trigger] arena[i], i)
}

/// `a2` is `a1` with zero or more nodes appended.
pub open spec fn arena_extends(a1: Seq<Value>, a2: Seq<Value>) -> bool {
    a1.len() <= a2.len() && a2.subrange(0, a1.len() as int) == a1
}

/// The environment a sequence of handles denotes.
pub open spec fn env_view(arena: Seq<Value>, values: Seq<ValueRef>) -> Seq<SemValue> {
    interp_refs(arena, values, arena.len() as int)
}

/// The pending arguments a reversed sequence of handles denotes, in
/// application order.
pub open spec fn spine_view(arena: Seq<Value>, reversed_values: Seq<ValueRef>) -> Seq<SemValue> {
    interp_refs(arena, reversed_values, arena.len() as int).reverse()
}

/// The semantic value behind an optional handle, as evaluation
/// returns one.
pub open spec fn opt_interp(arena: Seq<Value>, r: Option<ValueRef>) -> Option<SemValue> {
    match r {
        None => None,
        Some(v) => Some(interp(arena, v.0 as int)),
    }
}

impl Builder {
    /// Whether the region is well-formed.
    pub open spec fn wf(&self) -> bool {
        arena_ok(self.arena@)
    }
}

pub proof fn lemma_interp_refs(arena: Seq<Value>, refs: Seq<ValueRef>, bound: int)
    ensures
        interp_refs(arena, refs, bound).len() == refs.len(),
        forall|k: int|
            0 <= k < refs.len() ==> interp_refs(arena, refs, bound)[k] == (if 0 <= ((
            #[trigger] refs[k]).0 as int) < bound {
                interp(arena, refs[k].0 as int)
            } else {
                dangling()
            }),
    decreases refs.len(),
{
    if refs.len() > 0 {
        lemma_interp_refs(arena, refs.drop_last(), bound);
        assert forall|k: int|
            0 <= k < refs.len() implies interp_refs(arena, refs, bound)[k] == (if 0 <= ((refs[
            k]).0 as int) < bound {
            interp(arena, refs[k].0 as int)
        } else {
            dangling()
        }) by {
            if k < refs.len() - 1 {
                assert(refs.drop_last()[k] == refs[k]);
                assert(interp_refs(arena, refs, bound)[k] == interp_refs(
                    arena,
                    refs.drop_last(),
                    bound,
                )[k]);
            } else {
                assert(refs.last() == refs[k]);
            }
        }
    }
}

pub proof fn lemma_interp_refs_push(arena: Seq<Value>, refs: Seq<ValueRef>, v: ValueRef, bound: int)
    ensures
        interp_refs(arena, refs.push(v), bound) == interp_refs(arena, refs, bound).push(
            if 0 <= (v.0 as int) < bound {
                interp(arena, v.0 as int)
            } else {
                dangling()
            },
        ),
{
    assert(refs.push(v).drop_last() =~= refs);
    assert(refs.push(v).last() == v);
}

/// Growing the region does not change what an existing position means.
pub proof fn lemma_interp_frame(a1: Seq<Value>, a2: Seq<Value>, idx: int)
    requires
        arena_extends(a1, a2),
        idx < a1.len(),
    ensures
        interp(a2, idx) == interp(a1, idx),
    decreases idx, 1int, 0int,
{
    if 0 <= idx {
        assert(a2[idx] == a2.subrange(0, a1.len() as int)[idx]);
        match a1[idx] {
            Value::Neutral { head, spine } => {
                lemma_interp_refs_frame_same_bound(a1, a2, spine@, idx);
            },
            Value::Lambda(c) => {
                lemma_interp_refs_frame_same_bound(a1, a2, c.environment@, idx);
            },
        }
    }
}

pub proof fn lemma_interp_refs_frame_same_bound(
    a1: Seq<Value>,
    a2: Seq<Value>,
    refs: Seq<ValueRef>,
    bound: int,
)
    requires
        arena_extends(a1, a2),
        bound <= a1.len(),
    ensures
        interp_refs(a2, refs, bound) == interp_refs(a1, refs, bound),
    decreases bound, 0int, refs.len() as int,
{
    if refs.len() > 0 {
        lemma_interp_refs_frame_same_bound(a1, a2, refs.drop_last(), bound);
        if 0 <= (refs.last().0 as int) < bound {
            lemma_interp_frame(a1, a2, refs.last().0 as int);
        }
        assert(interp_refs(a2, refs, bound) =~= interp_refs(a1, refs, bound));
    }
}

/// The bound only guards: raising it past every handle of the sequence
/// does not change what the sequence means.
pub proof fn lemma_interp_refs_bound(arena: Seq<Value>, refs: Seq<ValueRef>, b1: int, b2: int)
    requires
        refs_ok(refs, b1),
        b1 <= b2,
    ensures
        interp_refs(arena, refs, b2) == interp_refs(arena, refs, b1),
    decreases refs.len(),
{
    if refs.len() > 0 {
        assert(forall|k: int|
            0 <= k < refs.drop_last().len() ==> (#[trigger] refs.drop_last()[k]) == refs[k]);
        lemma_interp_refs_bound(arena, refs.drop_last(), b1, b2);
        assert(refs.last() == refs[refs.len() - 1]);
        assert(interp_refs(arena, refs, b2) =~= interp_refs(arena, refs, b1));
    }
}

/// Handles that were valid before the region grew keep their meaning,
/// read with either region's own bound.
pub proof fn lemma_refs_view_frame(a1: Seq<Value>, a2: Seq<Value>, refs: Seq<ValueRef>)
    requires
        arena_extends(a1, a2),
        refs_ok(refs, a1.len() as int),
    ensures
        interp_refs(a2, refs, a2.len() as int) == interp_refs(a1, refs, a1.len() as int),
{
    lemma_interp_refs_bound(a2, refs, a1.len() as int, a2.len() as int);
    lemma_interp_refs_frame_same_bound(a1, a2, refs, a1.len() as int);
}

pub proof fn lemma_env_view_push(arena: Seq<Value>, values: Seq<ValueRef>, v: ValueRef)
    requires
        v.0 < arena.len(),
    ensures
        env_view(arena, values.push(v)) == env_view(arena, values).push(interp(arena, v.0 as int)),
{
    lemma_interp_refs_push(arena, values, v, arena.len() as int);
}

pub proof fn lemma_spine_view_push(arena: Seq<Value>, reversed_values: Seq<ValueRef>, v: ValueRef)
    requires
        v.0 < arena.len(),
    ensures
        spine_view(arena, reversed_values.push(v)) == seq![interp(arena, v.0 as int)] + spine_view(
            arena,
            reversed_values,
        ),
{
    lemma_interp_refs_push(arena, reversed_values, v, arena.len() as int);
    lemma_interp_refs(arena, reversed_values, arena.len() as int);
    assert(spine_view(arena, reversed_values.push(v)) =~= seq![interp(arena, v.0 as int)]
        + spine_view(arena, reversed_values));
}

pub proof fn lemma_spine_view_pop(arena: Seq<Value>, reversed_values: Seq<ValueRef>)
    requires
        reversed_values.len() > 0,
        reversed_values.last().0 < arena.len(),
    ensures
        spine_view(arena, reversed_values).len() == reversed_values.len(),
        spine_view(arena, reversed_values).first() == interp(
            arena,
            reversed_values.last().0 as int,
        ),
        spine_view(arena, reversed_values.drop_last()) == spine_view(
            arena,
            reversed_values,
        ).drop_first(),
{
    lemma_interp_refs(arena, reversed_values, arena.len() as int);
    lemma_interp_refs(arena, reversed_values.drop_last(), arena.len() as int);
    assert(forall|k: int|
        0 <= k < reversed_values.len() - 1 ==> (#[trigger] reversed_values.drop_last()[k])
            == reversed_values[k]);
    assert(reversed_values.last() == reversed_values[reversed_values.len() - 1]);
    assert(spine_view(arena, reversed_values.drop_last()) =~= spine_view(
        arena,
        reversed_values,
    ).drop_first());
}

/// Copy a sequence of handles.
fn copy_refs(values: &Vec<ValueRef>) -> (r: Vec<ValueRef>)
    ensures
        r@ == values@,
{
    let mut result: Vec<ValueRef> = Vec::new();
    let mut k: usize = 0;
    while k < values.len()
        invariant
            k <= values.len(),
            result@ =~= values@.subrange(0, k as int),
        decreases values.len() - k,
    {
        result.push(values[k]);
        k = k + 1;
    }
    proof {
        assert(result@ =~= values@);
    }
    result
}

impl Builder {
    /// A fresh, empty region.
    pub fn new() -> (r: Builder)
        ensures
            r.wf(),
            r.arena@ == Seq::<Value>::empty(),
    {
        let r = Builder { arena: Vec::new() };
        proof {
            assert(r.arena@ =~= Seq::<Value>::empty());
        }
        r
    }

    /// Allocate a stuck computation with the given head and arguments.
    pub fn neutral(&mut self, head: Head, spine: Vec<ValueRef>) -> (r: ValueRef)
        requires
            old(self).wf(),
            refs_ok(spine@, old(self).arena@.len() as int),
        ensures
            final(self).wf(),
            final(self).arena@ == old(self).arena@.push(Value::Neutral { head, spine }),
            r.0 == old(self).arena@.len(),
            interp(final(self).arena@, r.0 as int) == (SemValue::Neutral {
                head: head_view(head),
                spine: env_view(old(self).arena@, spine@),
            }),
            forall|j: int|
                0 <= j < old(self).arena@.len() ==> interp(final(self).arena@, j) == interp(
                    old(self).arena@,
                    j,
                ),
    {
        let r = ValueRef(self.arena.len());
        let ghost old_arena: Seq<Value> = self.arena@;
        self.arena.push(Value::Neutral { head, spine });
        proof {
            self.lemma_alloc_node(old_arena, self.arena@.last());
        }
        r
    }

    /// Allocate a suspended function.
    pub fn lambda(&mut self, closure: Closure) -> (r: ValueRef)
        requires
            old(self).wf(),
            refs_ok(closure.environment@, old(self).arena@.len() as int),
        ensures
            final(self).wf(),
            final(self).arena@ == old(self).arena@.push(Value::Lambda(closure)),
            r.0 == old(self).arena@.len(),
            interp(final(self).arena@, r.0 as int) == (SemValue::Lambda {
                body: *closure.term,
                env: env_view(old(self).arena@, closure.environment@),
            }),
            forall|j: int|
                0 <= j < old(self).arena@.len() ==> interp(final(self).arena@, j) == interp(
                    old(self).arena@,
                    j,
                ),
    {
        let r = ValueRef(self.arena.len());
        let ghost old_arena: Seq<Value> = self.arena@;
        self.arena.push(Value::Lambda(closure));
        proof {
            self.lemma_alloc_node(old_arena, self.arena@.last());
        }
        r
    }

    /// Allocate a fresh stuck variable at the given level, applied to
    /// nothing.
    pub fn variable(&mut self, variable: Level) -> (r: ValueRef)
        requires
            old(self).wf(),
        ensures
            final(self).wf(),
            arena_extends(old(self).arena@, final(self).arena@),
            r.0 < final(self).arena@.len(),
            interp(final(self).arena@, r.0 as int) == (SemValue::Neutral {
                head: variable.0 as nat,
                spine: Seq::<SemValue>::empty(),
            }),
            forall|j: int|
                0 <= j < old(self).arena@.len() ==> interp(final(self).arena@, j) == interp(
                    old(self).arena@,
                    j,
                ),
    {
        let r = self.neutral(Head::Variable(variable), Vec::new());
        proof {
            assert(interp_refs(old(self).arena@, Seq::<ValueRef>::empty(), old(
                self,
            ).arena@.len() as int) =~= Seq::<SemValue>::empty());
            assert(self.arena@.subrange(0, old(self).arena@.len() as int) =~= old(self).arena@);
        }
        r
    }

    /// What one appended node means: existing positions keep their
    /// meaning, and the new node reads its handles from the old region.
    proof fn lemma_alloc_node(&self, old_arena: Seq<Value>, node: Value)
        requires
            arena_ok(old_arena),
            node_ok(node, old_arena.len() as int),
            self.arena@ == old_arena.push(node),
        ensures
            self.wf(),
            forall|j: int|
                0 <= j < old_arena.len() ==> interp(self.arena@, j) == interp(old_arena, j),
            interp(self.arena@, old_arena.len() as int) == (match node {
                Value::Neutral { head, spine } => SemValue::Neutral {
                    head: head_view(head),
                    spine: env_view(old_arena, spine@),
                },
                Value::Lambda(c) => SemValue::Lambda {
                    body: *c.term,
                    env: env_view(old_arena, c.environment@),
                },
            }),
    {
        let a1 = old_arena;
        let a2 = self.arena@;
        let n = a1.len() as int;
        assert(a2.subrange(0, n) =~= a1);
        assert forall|i: int| 0 <= i < a2.len() implies node_ok(#[trigger] a2[i], i) by {
            if i < n {
                assert(a1[i] == a2[i]);
            }
        }
        assert forall|j: int| 0 <= j < n implies interp(a2, j) == interp(a1, j) by {
            lemma_interp_frame(a1, a2, j);
        }
        match node {
            Value::Neutral { head, spine } => {
                lemma_interp_refs_frame_same_bound(a1, a2, spine@, n);
            },
            Value::Lambda(c) => {
                lemma_interp_refs_frame_same_bound(a1, a2, c.environment@, n);
            },
        }
    }
}

pub proof fn lemma_arena_extends_trans(a: Seq<Value>, b: Seq<Value>, c: Seq<Value>)
    requires
        arena_extends(a, b),
        arena_extends(b, c),
    ensures
        arena_extends(a, c),
{
    assert forall|i: int| 0 <= i < a.len() implies c.subrange(0, a.len() as int)[i] == a[i] by {
        assert(b[i] == b.subrange(0, a.len() as int)[i]);
        assert(c[i] == c.subrange(0, b.len() as int)[i]);
    }
    assert(c.subrange(0, a.len() as int) =~= a);
}

impl ValueRef {
    /// Apply this value to one argument: more arguments applied to a
    /// stuck computation only grow its spine; a suspended function
    /// takes the argument as one beta step, which costs one unit of
    /// fuel.
    pub fn apply(self, argument: ValueRef, builder: &mut Builder, fuel: usize) -> (r: Option<
        ValueRef,
    >)
        requires
            old(builder).wf(),
            self.0 < old(builder).arena@.len(),
            argument.0 < old(builder).arena@.len(),
        ensures
            final(builder).wf(),
            arena_extends(old(builder).arena@, final(builder).arena@),
            r matches Some(v) ==> v.0 < final(builder).arena@.len(),
            opt_interp(final(builder).arena@, r) == semantics::apply(
                interp(old(builder).arena@, self.0 as int),
                interp(old(builder).arena@, argument.0 as int),
                fuel as nat,
            ),
        decreases fuel, 0nat, 1nat,
    {
        let ghost arena0: Seq<Value> = builder.arena@;
        let ghost self_value: SemValue = interp(arena0, self.0 as int);
        let ghost argument_value: SemValue = interp(arena0, argument.0 as int);
        match &builder.arena[self.0] {
            Value::Neutral { head, spine } => {
                let h: Head = *head;
                let mut new_spine = copy_refs(spine);
                let ghost existing: Seq<ValueRef> = new_spine@;
                new_spine.push(argument);
                proof {
                    lemma_interp_refs_bound(
                        arena0,
                        existing,
                        self.0 as int,
                        arena0.len() as int,
                    );
                    lemma_env_view_push(arena0, existing, argument);
                    assert(env_view(arena0, existing).push(argument_value) =~= env_view(
                        arena0,
                        existing,
                    ) + seq![argument_value]);
                }
                let r = builder.neutral(h, new_spine);
                proof {
                    assert(builder.arena@.subrange(0, arena0.len() as int) =~= arena0);
                }
                Some(r)
            },
            Value::Lambda(c) => {
                if fuel == 0 {
                    proof {
                        assert(self_value matches SemValue::Lambda { body, env });
                        assert(builder.arena@.subrange(0, arena0.len() as int) =~= arena0);
                    }
                    None
                } else {
                    let term = c.term.clone();
                    let env_refs = copy_refs(&c.environment);
                    let ghost captured: Seq<ValueRef> = env_refs@;
                    let mut environment = Environment { values: env_refs };
                    environment.extend(argument);
                    proof {
                        lemma_interp_refs_bound(
                            arena0,
                            captured,
                            self.0 as int,
                            arena0.len() as int,
                        );
                        lemma_env_view_push(arena0, captured, argument);
                        assert(refs_ok(environment.values@, arena0.len() as int));
                        assert(seq![argument_value].drop_first() =~= Seq::<SemValue>::empty());
                    }
                    let r = (&*term).evaluate(&mut environment, builder, fuel - 1);
                    r
                }
            },
        }
    }

    /// Apply this value to every pending argument of `spine`.
    #[verifier::loop_isolation(false)]
    pub fn apply_spine(self, spine: Spine, builder: &mut Builder, fuel: usize) -> (r: Option<
        ValueRef,
    >)
        requires
            old(builder).wf(),
            self.0 < old(builder).arena@.len(),
            refs_ok(spine.reversed_values@, old(builder).arena@.len() as int),
        ensures
            final(builder).wf(),
            arena_extends(old(builder).arena@, final(builder).arena@),
            r matches Some(v) ==> v.0 < final(builder).arena@.len(),
            opt_interp(final(builder).arena@, r) == semantics::apply_spine(
                interp(old(builder).arena@, self.0 as int),
                spine_view(old(builder).arena@, spine.reversed_values@),
                fuel as nat,
            ),
        decreases fuel, 0nat, 0nat,
    {
        let ghost arena0: Seq<Value> = builder.arena@;
        let ghost all_pending: Seq<SemValue> = spine_view(arena0, spine.reversed_values@);
        proof {
            lemma_interp_refs(arena0, spine.reversed_values@, arena0.len() as int);
            assert(arena_extends(arena0, arena0)) by {
                assert(arena0.subrange(0, arena0.len() as int) =~= arena0);
            }
        }
        if spine.is_empty() {
            return Some(self);
        }
        match &builder.arena[self.0] {
            Value::Neutral { head, spine: function_spine } => {
                let h: Head = *head;
                let mut new_spine = copy_refs(function_spine);
                let ghost existing: Seq<ValueRef> = new_spine@;
                proof {
                    lemma_interp_refs_bound(
                        arena0,
                        existing,
                        self.0 as int,
                        arena0.len() as int,
                    );
                }
                let mut rest = spine;
                while !rest.is_empty()
                    invariant
                        refs_ok(new_spine@, arena0.len() as int),
                        refs_ok(rest.reversed_values@, arena0.len() as int),
                        env_view(arena0, new_spine@) + spine_view(arena0, rest.reversed_values@)
                            =~= env_view(arena0, existing) + all_pending,
                    decreases rest.reversed_values@.len(),
                {
                    let next = rest.pop_front().unwrap();
                    let ghost prev: Seq<ValueRef> = new_spine@;
                    new_spine.push(next);
                    proof {
                        lemma_spine_view_pop(arena0, rest.reversed_values@.push(next));
                        assert(rest.reversed_values@.push(next).drop_last()
                            =~= rest.reversed_values@);
                        lemma_env_view_push(arena0, prev, next);
                    }
                }
                proof {
                    assert(spine_view(arena0, rest.reversed_values@) =~= Seq::<
                        SemValue,
                    >::empty());
                    assert(env_view(arena0, new_spine@) =~= env_view(arena0, existing)
                        + all_pending);
                }
                let r = builder.neutral(h, new_spine);
                proof {
                    assert(builder.arena@.subrange(0, arena0.len() as int) =~= arena0);
                }
                Some(r)
            },
            Value::Lambda(c) => {
                let term = c.term.clone();
                let env_refs = copy_refs(&c.environment);
                let ghost captured: Seq<ValueRef> = env_refs@;
                let mut rest = spine;
                let argument = rest.pop_front().unwrap();
                if fuel == 0 {
                    return None;
                }
                let mut environment = Environment { values: env_refs };
                environment.extend(argument);
                proof {
                    lemma_interp_refs_bound(
                        arena0,
                        captured,
                        self.0 as int,
                        arena0.len() as int,
                    );
                    lemma_env_view_push(arena0, captured, argument);
                    lemma_spine_view_pop(arena0, rest.reversed_values@.push(argument));
                    assert(rest.reversed_values@.push(argument).drop_last()
                        =~= rest.reversed_values@);
                    assert(refs_ok(environment.values@, arena0.len() as int));
                }
                (&*term).evaluate_with_spine(rest, &mut environment, builder, fuel - 1)
            },
        }
    }
}

impl Term {
    /// Evaluate this term under `environment`, allocating values in
    /// `builder`, with no pending arguments; the environment reads
    /// exactly as it did before the call once evaluation finishes.
    pub fn evaluate(
        &self,
        environment: &mut Environment,
        builder: &mut Builder,
        fuel: usize,
    ) -> (r: Option<ValueRef>)
        requires
            old(builder).wf(),
            refs_ok(old(environment).values@, old(builder).arena@.len() as int),
        ensures
            final(builder).wf(),
            arena_extends(old(builder).arena@, final(builder).arena@),
            final(environment).values@ == old(environment).values@,
            r matches Some(v) ==> v.0 < final(builder).arena@.len(),
            opt_interp(final(builder).arena@, r) == semantics::eval(
                *self,
                env_view(old(builder).arena@, old(environment).values@),
                fuel as nat,
            ),
        decreases fuel, term_size(*self), 2nat,
    {
        let r = self.evaluate_with_spine(Spine::new(), environment, builder, fuel);
        proof {
            assert(spine_view(old(builder).arena@, Seq::<ValueRef>::empty()) =~= Seq::<
                SemValue,
            >::empty());
        }
        r
    }

    /// The spine-accumulating state machine over
    /// `(term, spine, environment)`, as in the reference-counted
    /// backend, with all values allocated in `builder`'s region.
    #[verifier::loop_isolation(false)]
    pub fn evaluate_with_spine(
        &self,
        spine: Spine,
        environment: &mut Environment,
        builder: &mut Builder,
        fuel: usize,
    ) -> (r: Option<ValueRef>)
        requires
            old(builder).wf(),
            refs_ok(old(environment).values@, old(builder).arena@.len() as int),
            refs_ok(spine.reversed_values@, old(builder).arena@.len() as int),
        ensures
            final(builder).wf(),
            arena_extends(old(builder).arena@, final(builder).arena@),
            final(environment).values@ == old(environment).values@,
            r matches Some(v) ==> v.0 < final(builder).arena@.len(),
            opt_interp(final(builder).arena@, r) == semantics::eval_spine(
                *self,
                spine_view(old(builder).arena@, spine.reversed_values@),
                env_view(old(builder).arena@, old(environment).values@),
                fuel as nat,
            ),
        decreases fuel, term_size(*self), 1nat,
    {
        let ghost arena0: Seq<Value> = builder.arena@;
        let ghost vals0: Seq<ValueRef> = environment.values@;
        let ghost goal: Option<SemValue> = semantics::eval_spine(
            *self,
            spine_view(arena0, spine.reversed_values@),
            env_view(arena0, vals0),
            fuel as nat,
        );
        proof {
            assert(arena_extends(arena0, arena0)) by {
                assert(arena0.subrange(0, arena0.len() as int) =~= arena0);
            }
        }
        let original_len = environment.len();
        let mut current: &Term = self;
        let mut pending = spine;
        let mut fuel_left = fuel;
        loop
            invariant
                builder.wf(),
                arena_extends(arena0, builder.arena@),
                refs_ok(environment.values@, builder.arena@.len() as int),
                refs_ok(pending.reversed_values@, builder.arena@.len() as int),
                original_len == vals0.len(),
                environment.values@.len() >= original_len,
                environment.values@.subrange(0, original_len as int) == vals0,
                fuel_left <= fuel,
                fuel_left == fuel ==> term_size(*current) <= term_size(*self),
                semantics::eval_spine(
                    *current,
                    spine_view(builder.arena@, pending.reversed_values@),
                    env_view(builder.arena@, environment.values@),
                    fuel_left as nat,
                ) == goal,
            decreases fuel_left, term_size(*current),
        {
            proof {
                lemma_interp_refs(builder.arena@, environment.values@, builder.arena@.len() as int);
            }
            match current {
                Term::Variable(index) => {
                    let i = index.to_int();
                    if i >= environment.len() {
                        environment.truncate(original_len);
                        return None;
                    }
                    let head: ValueRef = environment.values[environment.len() - 1 - i];
                    let ghost arena_here: Seq<Value> = builder.arena@;
                    let r = head.apply_spine(pending, builder, fuel_left);
                    environment.truncate(original_len);
                    proof {
                        lemma_arena_extends_trans(arena0, arena_here, builder.arena@);
                    }
                    return r;
                },
                Term::Lambda(body) => {
                    match pending.pop_front() {
                        Some(argument) => {
                            if fuel_left == 0 {
                                environment.truncate(original_len);
                                return None;
                            }
                            proof {
                                lemma_spine_view_pop(builder.arena@, pending.reversed_values@.push(
                                    argument,
                                ));
                                assert(pending.reversed_values@.push(argument).drop_last()
                                    =~= pending.reversed_values@);
                                lemma_env_view_push(builder.arena@, environment.values@, argument);
                            }
                            environment.extend(argument);
                            fuel_left = fuel_left - 1;
                            current = &**body;
                        },
                        None => {
                            let closure = Closure {
                                term: body.clone(),
                                environment: copy_refs(&environment.values),
                            };
                            let ghost arena_here: Seq<Value> = builder.arena@;
                            let r = builder.lambda(closure);
                            environment.truncate(original_len);
                            proof {
                                assert(builder.arena@.subrange(0, arena_here.len() as int)
                                    =~= arena_here);
                                lemma_arena_extends_trans(arena0, arena_here, builder.arena@);
                            }
                            return Some(r);
                        },
                    }
                },
                Term::Application(function, argument) => {
                    let ghost arena_here: Seq<Value> = builder.arena@;
                    let ghost env_here: Seq<ValueRef> = environment.values@;
                    let ghost pending_here: Seq<ValueRef> = pending.reversed_values@;
                    let av = (&**argument).evaluate(environment, builder, fuel_left);
                    proof {
                        lemma_arena_extends_trans(arena0, arena_here, builder.arena@);
                        lemma_refs_view_frame(arena_here, builder.arena@, env_here);
                        lemma_refs_view_frame(arena_here, builder.arena@, pending_here);
                        assert(refs_ok(env_here, builder.arena@.len() as int));
                        assert(refs_ok(pending_here, builder.arena@.len() as int));
                    }
                    match av {
                        None => {
                            environment.truncate(original_len);
                            return None;
                        },
                        Some(value) => {
                            proof {
                                lemma_spine_view_push(
                                    builder.arena@,
                                    pending.reversed_values@,
                                    value,
                                );
                            }
                            pending.push_front(value);
                            current = &**function;
                        },
                    }
                },
            }
        }
    }
}

impl ValueRef {
    /// Reflect the value behind this handle back into a term at binder
    /// depth `level`. Quoting a suspended function evaluates its body
    /// applied to a fresh stuck variable, so it shares the evaluator's
    /// fuel discipline; each quoting step costs one unit.
    pub fn quote(
        self,
        level: Level,
        fuel: usize,
        builder: &mut Builder,
        syntax_builder: &syntax::Builder,
    ) -> (r: Option<TermRef>)
        requires
            old(builder).wf(),
            self.0 < old(builder).arena@.len(),
            level.0 + fuel <= usize::MAX,
        ensures
            final(builder).wf(),
            arena_extends(old(builder).arena@, final(builder).arena@),
            opt_term_view(r) == semantics::quote(
                interp(old(builder).arena@, self.0 as int),
                level.0 as nat,
                fuel as nat,
            ),
        decreases fuel, 0nat,
    {
        let ghost arena0: Seq<Value> = builder.arena@;
        proof {
            assert(arena_extends(arena0, arena0)) by {
                assert(arena0.subrange(0, arena0.len() as int) =~= arena0);
            }
        }
        if fuel == 0 {
            return None;
        }
        let fl = fuel - 1;
        match &builder.arena[self.0] {
            Value::Neutral { head, spine } => {
                let h: Head = *head;
                let spine_copy = copy_refs(spine);
                proof {
                    lemma_interp_refs_bound(
                        arena0,
                        spine_copy@,
                        self.0 as int,
                        arena0.len() as int,
                    );
                }
                h.quote(&spine_copy, level, fl, builder, syntax_builder)
            },
            Value::Lambda(c) => {
                let term = c.term.clone();
                let env_refs = copy_refs(&c.environment);
                let ghost captured: Seq<ValueRef> = env_refs@;
                let fresh = builder.variable(level);
                let ghost arena1: Seq<Value> = builder.arena@;
                let mut environment = Environment { values: env_refs };
                environment.extend(fresh);
                proof {
                    lemma_interp_refs_bound(
                        arena0,
                        captured,
                        self.0 as int,
                        arena0.len() as int,
                    );
                    lemma_refs_view_frame(arena0, arena1, captured);
                    lemma_env_view_push(arena1, captured, fresh);
                    assert(refs_ok(environment.values@, arena1.len() as int));
                }
                let bv = (&*term).evaluate(&mut environment, builder, fl);
                match bv {
                    None => {
                        proof {
                            lemma_arena_extends_trans(arena0, arena1, builder.arena@);
                        }
                        None
                    },
                    Some(b) => {
                        let ghost arena2: Seq<Value> = builder.arena@;
                        let bt = b.quote(level.next(), fl, builder, syntax_builder);
                        proof {
                            lemma_arena_extends_trans(arena0, arena1, arena2);
                            lemma_arena_extends_trans(arena0, arena2, builder.arena@);
                        }
                        match bt {
                            None => None,
                            Some(bt) => Some(syntax_builder.lambda(bt)),
                        }
                    },
                }
            },
        }
    }
}

impl Head {
    /// Quote a stuck computation: the head becomes a variable index
    /// relative to `level`, and the spine is folded left-to-right into
    /// one application per argument, each argument quoted at the same
    /// level.
    #[verifier::loop_isolation(false)]
    pub fn quote(
        self,
        spine: &Vec<ValueRef>,
        level: Level,
        fuel: usize,
        builder: &mut Builder,
        syntax_builder: &syntax::Builder,
    ) -> (r: Option<TermRef>)
        requires
            old(builder).wf(),
            refs_ok(spine@, old(builder).arena@.len() as int),
            level.0 + fuel <= usize::MAX,
        ensures
            final(builder).wf(),
            arena_extends(old(builder).arena@, final(builder).arena@),
            opt_term_view(r) == (if head_view(self) < level.0 {
                semantics::quote_spine(
                    Term::Variable(Index((level.0 - head_view(self) - 1) as usize)),
                    env_view(old(builder).arena@, spine@),
                    level.0 as nat,
                    fuel as nat,
                )
            } else {
                None
            }),
        decreases fuel, 1nat,
    {
        let ghost arena0: Seq<Value> = builder.arena@;
        let ghost args: Seq<SemValue> = env_view(arena0, spine@);
        proof {
            assert(arena_extends(arena0, arena0)) by {
                assert(arena0.subrange(0, arena0.len() as int) =~= arena0);
            }
            lemma_interp_refs(arena0, spine@, arena0.len() as int);
        }
        let var_level = match self {
            Head::Variable(var_level) => var_level,
        };
        if var_level.to_int() >= level.to_int() {
            return None;
        }
        let mut result: TermRef = syntax_builder.variable(var_level.to_index(level));
        let ghost first_term: Term = Term::Variable(
            Index((level.0 - var_level.0 - 1) as usize),
        );
        let mut k: usize = 0;
        proof {
            assert(args.skip(0) =~= args);
        }
        while k < spine.len()
            invariant
                k <= spine@.len(),
                builder.wf(),
                arena_extends(arena0, builder.arena@),
                semantics::quote_spine(*result, args.skip(k as int), level.0 as nat, fuel as nat)
                    == semantics::quote_spine(first_term, args, level.0 as nat, fuel as nat),
            decreases spine@.len() - k,
        {
            let elem: ValueRef = spine[k];
            let ghost arena_here: Seq<Value> = builder.arena@;
            let elem_r = elem.quote(level, fuel, builder, syntax_builder);
            proof {
                lemma_arena_extends_trans(arena0, arena_here, builder.arena@);
                lemma_interp_frame(arena0, arena_here, elem.0 as int);
                assert(interp(arena_here, elem.0 as int) == args[k as int]);
            }
            match elem_r {
                None => {
                    return None;
                },
                Some(at) => {
                    proof {
                        assert(args.skip(k as int).first() == args[k as int]);
                        assert(args.skip(k as int).drop_first() =~= args.skip(k as int + 1));
                    }
                    result = syntax_builder.application(result, at);
                    k = k + 1;
                },
            }
        }
        proof {
            assert(args.skip(spine@.len() as int) =~= Seq::<SemValue>::empty());
        }
        Some(result)
    }
}

/// The beta-normal form of a closed term within the given fuel bound:
/// evaluate under an empty environment into a fresh region, then quote
/// at level 0.
pub fn normalize(term: &Term, fuel: usize) -> (r: Option<TermRef>)
    ensures
        opt_term_view(r) == semantics::normalize(*term, fuel as nat),
{
    let mut builder = Builder::new();
    let mut environment = Environment::new();
    let syntax_builder = syntax::Builder::new();
    proof {
        assert(env_view(builder.arena@, environment.values@) =~= Seq::<SemValue>::empty());
    }
    match term.evaluate(&mut environment, &mut builder, fuel) {
        None => None,
        Some(v) => v.quote(Level(0), fuel, &mut builder, &syntax_builder),
    }
}

impl Spine {
    /// An empty spine: no pending arguments.
    pub fn new() -> (r: Spine)
        ensures
            r.reversed_values@ == Seq::<ValueRef>::empty(),
    {
        let r = Spine { reversed_values: Vec::new() };
        proof {
            assert(r.reversed_values@ =~= Seq::<ValueRef>::empty());
        }
        r
    }

    /// Prepend a newly discovered argument.
    pub fn push_front(&mut self, value: ValueRef)
        ensures
            final(self).reversed_values@ == old(self).reversed_values@.push(value),
    {
        self.reversed_values.push(value)
    }

    /// Remove and return the first pending argument, if any.
    pub fn pop_front(&mut self) -> (r: Option<ValueRef>)
        ensures
            old(self).reversed_values@.len() == 0 ==> r is None && final(self).reversed_values@
                == old(self).reversed_values@,
            old(self).reversed_values@.len() > 0 ==> r == Some(old(self).reversed_values@.last())
                && final(self).reversed_values@ == old(self).reversed_values@.drop_last(),
    {
        let r = self.reversed_values.pop();
        proof {
            if old(self).reversed_values@.len() > 0 {
                assert(final(self).reversed_values@ =~= old(self).reversed_values@.drop_last());
            }
        }
        r
    }

    /// Whether no arguments are pending.
    pub fn is_empty(&self) -> (r: bool)
        ensures
            r == (self.reversed_values@.len() == 0),
    {
        self.reversed_values.is_empty()
    }
}

impl Environment {
    /// The empty environment: no variable is bound.
    pub fn new() -> (r: Environment)
        ensures
            r.values@ == Seq::<ValueRef>::empty(),
    {
        let r = Environment { values: Vec::new() };
        proof {
            assert(r.values@ =~= Seq::<ValueRef>::empty());
        }
        r
    }

    /// Bind one more variable to `value`.
    pub fn extend(&mut self, value: ValueRef)
        ensures
            final(self).values@ == old(self).values@.push(value),
    {
        self.values.push(value);
    }

    /// The number of bound variables.
    pub fn len(&self) -> (r: usize)
        ensures
            r == self.values@.len(),
    {
        self.values.len()
    }

    /// Forget every binding after the first `n`, restoring the view a
    /// caller had before a transient extension.
    pub fn truncate(&mut self, n: usize)
        requires
            n <= old(self).values@.len(),
        ensures
            final(self).values@ == old(self).values@.subrange(0, n as int),
    {
        self.values.truncate(n);
    }

    /// Snapshot the environment; the copy shares every node.
    pub fn duplicate(&self) -> (r: Environment)
        ensures
            r.values@ == self.values@,
    {
        Environment { values: copy_refs(&self.values) }
    }
}

} // verus!
