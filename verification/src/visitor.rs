//! Order-controlled traversal of expression trees: the order in which nodes
//! are visited, what a traversal returns, and what a rewriting traversal
//! makes of a tree.
//!
//! A visitor is a closure that is handed one node at a time and answers
//! `Continue` or `Break` with a value. The first `Break` ends the traversal
//! and is returned as it is.
use vstd::prelude::*;
use std::ops::ControlFlow;
use crate::expression::Expression;

verus! {

/// Whether a node is handed to the visitor before or after its operands.
#[derive(Clone, Copy, Debug, PartialEq, Eq, Hash)]
pub enum VisitOrder {
    Pre,
    Post,
}

/// The nodes strictly below `e`, in the order of a traversal in order `o`:
/// the left operand's nodes before the right operand's.
pub open spec fn operands_order<T>(e: Expression<T>, o: VisitOrder) -> Seq<Expression<T>>
    decreases e, 0nat,
{
    match e {
        Expression::BinaryOperation(l, _, r) => expression_order(*l, o) + expression_order(*r, o),
        Expression::UnaryOperation(_, x) => expression_order(*x, o),
        _ => Seq::empty(),
    }
}

/// The nodes of `e`, each once, in the order in which a traversal in order
/// `o` hands them to the visitor.
pub open spec fn expression_order<T>(e: Expression<T>, o: VisitOrder) -> Seq<Expression<T>>
    decreases e, 1nat,
{
    match o {
        VisitOrder::Pre => seq![e] + operands_order(e, o),
        VisitOrder::Post => operands_order(e, o) + seq![e],
    }
}

/// The nodes of the expressions `slots`, in the order in which a traversal in
/// order `o` hands them to the visitor: slot after slot.
pub open spec fn visit_order<T>(slots: Seq<Expression<T>>, o: VisitOrder) -> Seq<Expression<T>>
    decreases slots.len(),
{
    if slots.len() == 0 {
        Seq::empty()
    } else {
        visit_order(slots.drop_last(), o) + expression_order(slots.last(), o)
    }
}

/// `f` may be called on every node of `s` that a traversal gets to: on the
/// first, and on each node before which `f` can have continued throughout.
/// Nothing is asked of `f` on the nodes behind one on which it must break.
pub open spec fn accepts_each<T, B, F>(f: F, s: Seq<Expression<T>>) -> bool where
    F: FnMut(&Expression<T>) -> ControlFlow<B>,
 {
    forall|i: int|
        0 <= i < s.len() && visit_outcome(f, s.take(i), ControlFlow::<B, ()>::Continue(()))
            ==> call_requires(f, (&#[trigger] s[i],))
}

/// `r` is what calling `f` on the nodes of `s` in turn, up to and including
/// the first call that breaks, can give.
pub open spec fn visit_outcome<T, B, F>(f: F, s: Seq<Expression<T>>, r: ControlFlow<B>) -> bool where
    F: FnMut(&Expression<T>) -> ControlFlow<B>,
{
    match r {
        ControlFlow::Continue(_) => forall|i: int|
            0 <= i < s.len() ==> call_ensures(f, (&#[trigger] s[i],), ControlFlow::Continue(())),
        ControlFlow::Break(b) => exists|k: int|
            {
                &&& 0 <= k < s.len()
                &&& call_ensures(f, (&#[trigger] s[k],), ControlFlow::Break(b))
                &&& forall|i: int|
                    0 <= i < k ==> call_ensures(f, (&#[trigger] s[i],), ControlFlow::Continue(()))
            },
    }
}

/// The number of operations on the longest path from `e` down to a leaf.
pub open spec fn height<T>(e: Expression<T>) -> nat
    decreases e,
{
    match e {
        Expression::BinaryOperation(l, _, r) => 1 + if height(*l) >= height(*r) {
            height(*l)
        } else {
            height(*r)
        },
        Expression::UnaryOperation(_, x) => 1 + height(*x),
        _ => 0,
    }
}

/// What a mutating traversal in order `o` can make of the expression
/// `before`: pre-order rewrites the node and then the operands of what it was
/// rewritten to; post-order rewrites the operands and then the node. A break
/// ends the traversal and leaves the rest as it is.
pub open spec fn rewrites_expression<T, B>(
    step: spec_fn(Expression<T>, Expression<T>, ControlFlow<B>) -> bool,
    o: VisitOrder,
    before: Expression<T>,
    after: Expression<T>,
    out: ControlFlow<B>,
) -> bool
    decreases
        (match o {
            VisitOrder::Pre => after,
            VisitOrder::Post => before,
        }),
        1nat,
{
    match o {
        VisitOrder::Pre => {
            ||| out is Break && step(before, after, out)
            ||| exists|mid: Expression<T>| #[trigger]
                step(before, mid, ControlFlow::Continue(())) && rewrites_operands(
                    step,
                    o,
                    mid,
                    after,
                    out,
                )
        },
        VisitOrder::Post => {
            ||| out is Break && rewrites_operands(step, o, before, after, out)
            ||| exists|mid: Expression<T>|
                rewrites_operands(step, o, before, mid, ControlFlow::Continue(())) && #[trigger] step(
                    mid,
                    after,
                    out,
                )
        },
    }
}

/// What a mutating traversal can make of the operands of `before`, from left
/// to right; the node itself keeps its kind and its operator.
pub open spec fn rewrites_operands<T, B>(
    step: spec_fn(Expression<T>, Expression<T>, ControlFlow<B>) -> bool,
    o: VisitOrder,
    before: Expression<T>,
    after: Expression<T>,
    out: ControlFlow<B>,
) -> bool
    decreases
        (match o {
            VisitOrder::Pre => after,
            VisitOrder::Post => before,
        }),
        0nat,
{
    match (before, after) {
        (Expression::BinaryOperation(l, op, r), Expression::BinaryOperation(l2, op2, r2)) => {
            &&& op2 == op
            &&& {
                ||| out is Break && rewrites_expression(step, o, *l, *l2, out) && r2 == r
                ||| rewrites_expression(step, o, *l, *l2, ControlFlow::Continue(()))
                    && rewrites_expression(step, o, *r, *r2, out)
            }
        },
        (Expression::UnaryOperation(op, x), Expression::UnaryOperation(op2, y)) => {
            &&& op2 == op
            &&& rewrites_expression(step, o, *x, *y, out)
        },
        (Expression::BinaryOperation(..), _) | (Expression::UnaryOperation(..), _) => false,
        _ => after == before && out == ControlFlow::<B, ()>::Continue(()),
    }
}

/// What a mutating traversal in order `o` can make of the expressions
/// `before`, taken one after the other: `after`, with `out` returned. The
/// slot in which the visitor breaks is the last one touched.
pub open spec fn rewrites_slots<T, B>(
    step: spec_fn(Expression<T>, Expression<T>, ControlFlow<B>) -> bool,
    o: VisitOrder,
    before: Seq<Expression<T>>,
    after: Seq<Expression<T>>,
    out: ControlFlow<B>,
) -> bool {
    &&& after.len() == before.len()
    &&& match out {
        ControlFlow::Continue(_) => forall|i: int|
            0 <= i < before.len() ==> #[trigger] rewrites_expression(
                step,
                o,
                before[i],
                after[i],
                ControlFlow::Continue(()),
            ),
        ControlFlow::Break(_) => exists|k: int|
            {
                &&& 0 <= k < before.len()
                &&& #[trigger] rewrites_expression(step, o, before[k], after[k], out)
                &&& forall|i: int|
                    0 <= i < k ==> #[trigger] rewrites_expression(
                        step,
                        o,
                        before[i],
                        after[i],
                        ControlFlow::Continue(()),
                    )
                &&& forall|i: int| k < i < before.len() ==> #[trigger] after[i] == before[i]
            },
    }
}

/// What holds expressions and lets a visitor walk over their nodes: an
/// expression itself, an identity, a function-value definition.
pub trait ExpressionVisitable<T>: Sized {
    /// The expressions that `self` holds, in the order in which a traversal
    /// takes them up.
    spec fn expression_slots(&self) -> Seq<Expression<T>>;

    /// `self` and `other` differ in nothing but the expressions they hold.
    spec fn same_outside_slots(&self, other: &Self) -> bool;

    /// Hands each node to `f` in order `o`, until `f` breaks. `f` may rewrite
    /// the node it is given; in pre-order the traversal goes on below the
    /// node as `f` left it.
    ///
    /// In pre-order `f` must not make a node higher on which it continues:
    /// the traversal would have no end where every node gave way to a higher
    /// one.
    ///
    /// What the traversal makes of `self` is stated for every description
    /// `step` of the calls of `f` (the node before the call, the node after
    /// it, what the call returned) that holds of all of them.
    fn visit_expressions_mut<F, B>(&mut self, f: &mut F, o: VisitOrder) -> (r: ControlFlow<B>) where
        F: FnMut(&mut Expression<T>) -> ControlFlow<B>,

        requires
            forall|m: &mut Expression<T>| call_requires(*old(f), (m,)),
            o is Pre ==> forall|m: &mut Expression<T>, c: ControlFlow<B>| #[trigger]
                call_ensures(*old(f), (m,), c) && c is Continue ==> height(*final(m)) <= height(*m),
        ensures
            *final(f) == *old(f),
            old(self).same_outside_slots(final(self)),
            forall|step: spec_fn(Expression<T>, Expression<T>, ControlFlow<B>) -> bool|
                (forall|m: &mut Expression<T>, c: ControlFlow<B>| #[trigger]
                    call_ensures(*old(f), (m,), c) ==> step(*m, *final(m), c)) ==> #[trigger] rewrites_slots(
                    step,
                    o,
                    old(self).expression_slots(),
                    final(self).expression_slots(),
                    r,
                ),
    ;

    /// Hands each node to `f` in order `o`, until `f` breaks, and returns
    /// what `f` returned last. `f` is called on no node behind the one on
    /// which it broke, so it need not accept those.
    fn visit_expressions<F, B>(&self, f: &mut F, o: VisitOrder) -> (r: ControlFlow<B>) where
        F: FnMut(&Expression<T>) -> ControlFlow<B>,

        requires
            accepts_each(*old(f), visit_order(self.expression_slots(), o)),
        ensures
            *final(f) == *old(f),
            visit_outcome(*old(f), visit_order(self.expression_slots(), o), r),
    ;
}

/// A single slot is rewritten as the expression in it is.
pub proof fn lemma_rewrites_single_slot<T, B>(
    step: spec_fn(Expression<T>, Expression<T>, ControlFlow<B>) -> bool,
    o: VisitOrder,
    before: Expression<T>,
    after: Expression<T>,
    out: ControlFlow<B>,
)
    ensures
        rewrites_slots(step, o, seq![before], seq![after], out) <==> rewrites_expression(
            step,
            o,
            before,
            after,
            out,
        ),
{
    lemma_continue_is_unit(out);
    let s = seq![before];
    let a = seq![after];
    assert(s[0] == before && a[0] == after);
    if rewrites_expression(step, o, before, after, out) {
        assert(rewrites_expression(step, o, s[0], a[0], out));
    }
}

/// `Continue` carries nothing, so there is one such value.
pub proof fn lemma_continue_is_unit<B>(c: ControlFlow<B>)
    ensures
        c is Continue ==> c == ControlFlow::<B, ()>::Continue(()),
{
    if c is Continue {
        assert(c matches ControlFlow::Continue(u) && u == ());
    }
}

/// A single slot is visited as the expression in it is.
pub proof fn lemma_visit_order_single<T>(e: Expression<T>, o: VisitOrder)
    ensures
        visit_order(seq![e], o) == expression_order(e, o),
{
    let s = seq![e];
    assert(s.drop_last() =~= Seq::<Expression<T>>::empty());
    assert(s.last() == e);
    assert(visit_order(s.drop_last(), o) =~= Seq::<Expression<T>>::empty());
    assert(visit_order(s, o) =~= expression_order(e, o));
}

/// One call of the visitor is the traversal of one node.
pub proof fn lemma_outcome_single<T, B, F>(f: F, e: Expression<T>, r: ControlFlow<B>) where
    F: FnMut(&Expression<T>) -> ControlFlow<B>,
    requires
        call_ensures(f, (&e,), r),
    ensures
        visit_outcome(f, seq![e], r),
        r is Continue ==> r == ControlFlow::<B, ()>::Continue(()),
{
    let s = seq![e];
    assert(s[0] == e);
    lemma_continue_is_unit(r);
}

/// A traversal that broke on the nodes `s` broke on them whatever nodes `t`
/// follow: what comes after the break plays no part.
pub proof fn lemma_outcome_break_extends<T, B, F>(f: F, s: Seq<Expression<T>>, t: Seq<Expression<T>>, b: B) where
    F: FnMut(&Expression<T>) -> ControlFlow<B>,
    requires
        visit_outcome(f, s, ControlFlow::<B, ()>::Break(b)),
    ensures
        visit_outcome(f, s + t, ControlFlow::<B, ()>::Break(b)),
{
    let k = choose|k: int|
        {
            &&& 0 <= k < s.len()
            &&& call_ensures(f, (&#[trigger] s[k],), ControlFlow::<B, ()>::Break(b))
            &&& forall|i: int|
                0 <= i < k ==> call_ensures(f, (&#[trigger] s[i],), ControlFlow::<B, ()>::Continue(()))
        };
    assert((s + t)[k] == s[k]);
    assert forall|i: int| 0 <= i < k implies call_ensures(
        f,
        (&#[trigger] (s + t)[i],),
        ControlFlow::<B, ()>::Continue(()),
    ) by {
        assert((s + t)[i] == s[i]);
    }
}

/// A traversal that ran through the nodes `s` and then, on the nodes `t`,
/// ended with `r`, did so on the two joined.
pub proof fn lemma_outcome_continue_then<T, B, F>(
    f: F,
    s: Seq<Expression<T>>,
    t: Seq<Expression<T>>,
    r: ControlFlow<B>,
) where F: FnMut(&Expression<T>) -> ControlFlow<B>
    requires
        visit_outcome(f, s, ControlFlow::<B, ()>::Continue(())),
        visit_outcome(f, t, r),
    ensures
        visit_outcome(f, s + t, r),
{
    let st = s + t;
    assert forall|i: int| 0 <= i < s.len() implies call_ensures(
        f,
        (&#[trigger] st[i],),
        ControlFlow::<B, ()>::Continue(()),
    ) by {
        assert(st[i] == s[i]);
    }
    match r {
        ControlFlow::Continue(_) => {
            assert forall|i: int| 0 <= i < st.len() implies call_ensures(
                f,
                (&#[trigger] st[i],),
                ControlFlow::<B, ()>::Continue(()),
            ) by {
                if i >= s.len() {
                    assert(st[i] == t[i - s.len()]);
                }
            }
        },
        ControlFlow::Break(b) => {
            let k = choose|k: int|
                {
                    &&& 0 <= k < t.len()
                    &&& call_ensures(f, (&#[trigger] t[k],), ControlFlow::<B, ()>::Break(b))
                    &&& forall|i: int|
                        0 <= i < k ==> call_ensures(
                            f,
                            (&#[trigger] t[i],),
                            ControlFlow::<B, ()>::Continue(()),
                        )
                };
            let n = s.len() + k;
            assert(st[n] == t[k]);
            assert forall|i: int| 0 <= i < n implies call_ensures(
                f,
                (&#[trigger] st[i],),
                ControlFlow::<B, ()>::Continue(()),
            ) by {
                if i >= s.len() {
                    assert(st[i] == t[i - s.len()]);
                }
            }
        },
    }
}

/// A visitor that may be called on the nodes of a sequence may be called on
/// the nodes at its front.
pub proof fn lemma_accepts_front<T, B, F>(f: F, s: Seq<Expression<T>>, t: Seq<Expression<T>>) where
    F: FnMut(&Expression<T>) -> ControlFlow<B>,

    requires
        accepts_each(f, s + t),
    ensures
        accepts_each(f, s),
{
    let st = s + t;
    assert forall|i: int|
        0 <= i < s.len() && visit_outcome(
            f,
            s.take(i),
            ControlFlow::<B, ()>::Continue(()),
        ) implies call_requires(f, (&#[trigger] s[i],)) by {
        assert(st.take(i) =~= s.take(i));
        assert(st[i] == s[i]);
    }
}

/// A visitor that may be called on the nodes of a sequence, and that
/// continued on those at its front, may be called on the nodes that follow.
pub proof fn lemma_accepts_rest<T, B, F>(f: F, s: Seq<Expression<T>>, t: Seq<Expression<T>>) where
    F: FnMut(&Expression<T>) -> ControlFlow<B>,

    requires
        accepts_each(f, s + t),
        visit_outcome(f, s, ControlFlow::<B, ()>::Continue(())),
    ensures
        accepts_each(f, t),
{
    let st = s + t;
    let go = ControlFlow::<B, ()>::Continue(());
    assert forall|i: int| 0 <= i < t.len() && visit_outcome(f, t.take(i), go) implies call_requires(
        f,
        (&#[trigger] t[i],),
    ) by {
        lemma_outcome_continue_then(f, s, t.take(i), go);
        assert(st.take(s.len() + i) =~= s + t.take(i));
        assert(st[s.len() + i] == t[i]);
    }
}

/// A visitor that may be called on the nodes of a one-node sequence may be
/// called on that node.
pub proof fn lemma_accepts_single<T, B, F>(f: F, e: Expression<T>) where
    F: FnMut(&Expression<T>) -> ControlFlow<B>,

    requires
        accepts_each(f, seq![e]),
    ensures
        call_requires(f, (&e,)),
{
    let s = seq![e];
    assert(s[0] == e);
    assert(s.take(0) =~= Seq::<Expression<T>>::empty());
}

/// A break among the operands of `e` is a break of the traversal of `e`,
/// provided that in pre-order the visitor continued on `e` itself.
pub proof fn lemma_break_below<T, B, F>(f: F, e: Expression<T>, o: VisitOrder, b: B) where
    F: FnMut(&Expression<T>) -> ControlFlow<B>,
    requires
        visit_outcome(f, operands_order(e, o), ControlFlow::<B, ()>::Break(b)),
        o is Pre ==> call_ensures(f, (&e,), ControlFlow::<B, ()>::Continue(())),
    ensures
        visit_outcome(f, expression_order(e, o), ControlFlow::<B, ()>::Break(b)),
{
    let below = operands_order(e, o);
    let me = seq![e];
    match o {
        VisitOrder::Pre => {
            assert(me[0] == e);
            lemma_outcome_continue_then(f, me, below, ControlFlow::<B, ()>::Break(b));
        },
        VisitOrder::Post => {
            lemma_outcome_break_extends(f, below, me, b);
        },
    }
}

/// Visiting one list of slots and then another is visiting the two joined.
pub proof fn lemma_visit_order_concat<T>(s: Seq<Expression<T>>, t: Seq<Expression<T>>, o: VisitOrder)
    ensures
        visit_order(s + t, o) == visit_order(s, o) + visit_order(t, o),
    decreases t.len(),
{
    if t.len() == 0 {
        assert(s + t =~= s);
        assert(visit_order(s, o) + visit_order(t, o) =~= visit_order(s, o));
    } else {
        lemma_visit_order_concat(s, t.drop_last(), o);
        assert((s + t).drop_last() =~= s + t.drop_last());
        assert((s + t).last() == t.last());
        assert(visit_order(s + t, o) =~= visit_order(s, o) + visit_order(t, o));
    }
}

/// Nothing is visited where there is no slot.
pub proof fn lemma_outcome_empty<T, B, F>(f: F, o: VisitOrder) where
    F: FnMut(&Expression<T>) -> ControlFlow<B>,

    ensures
        visit_order(Seq::<Expression<T>>::empty(), o) == Seq::<Expression<T>>::empty(),
        visit_outcome(f, Seq::<Expression<T>>::empty(), ControlFlow::<B, ()>::Continue(())),
        accepts_each(f, Seq::<Expression<T>>::empty()),
{
}

/// A list of slots none of which was touched was traversed to the end.
pub proof fn lemma_rewrites_slots_none<T, B>(
    step: spec_fn(Expression<T>, Expression<T>, ControlFlow<B>) -> bool,
    o: VisitOrder,
)
    ensures
        rewrites_slots(
            step,
            o,
            Seq::<Expression<T>>::empty(),
            Seq::<Expression<T>>::empty(),
            ControlFlow::<B, ()>::Continue(()),
        ),
{
}

/// A traversal that ran through the slots `s` and then, on the slots `t`,
/// ended with `out`, did so on the two joined.
pub proof fn lemma_rewrites_slots_concat<T, B>(
    step: spec_fn(Expression<T>, Expression<T>, ControlFlow<B>) -> bool,
    o: VisitOrder,
    s: Seq<Expression<T>>,
    s2: Seq<Expression<T>>,
    t: Seq<Expression<T>>,
    t2: Seq<Expression<T>>,
    out: ControlFlow<B>,
)
    requires
        rewrites_slots(step, o, s, s2, ControlFlow::<B, ()>::Continue(())),
        rewrites_slots(step, o, t, t2, out),
    ensures
        rewrites_slots(step, o, s + t, s2 + t2, out),
{
    let before = s + t;
    let after = s2 + t2;
    let go = ControlFlow::<B, ()>::Continue(());
    lemma_continue_is_unit(out);
    assert forall|i: int| 0 <= i < s.len() implies #[trigger] rewrites_expression(
        step,
        o,
        before[i],
        after[i],
        go,
    ) by {
        assert(before[i] == s[i] && after[i] == s2[i]);
        assert(rewrites_expression(step, o, s[i], s2[i], go));
    }
    if out is Continue {
        assert forall|i: int| 0 <= i < before.len() implies #[trigger] rewrites_expression(
            step,
            o,
            before[i],
            after[i],
            go,
        ) by {
            if i >= s.len() {
                let j = i - s.len();
                assert(before[i] == t[j] && after[i] == t2[j]);
                assert(rewrites_expression(step, o, t[j], t2[j], go));
            }
        }
    } else {
        let k = choose|k: int|
            {
                &&& 0 <= k < t.len()
                &&& #[trigger] rewrites_expression(step, o, t[k], t2[k], out)
                &&& forall|i: int|
                    0 <= i < k ==> #[trigger] rewrites_expression(step, o, t[i], t2[i], go)
                &&& forall|i: int| k < i < t.len() ==> #[trigger] t2[i] == t[i]
            };
        let n = s.len() + k;
        assert(before[n] == t[k] && after[n] == t2[k]);
        assert(rewrites_expression(step, o, before[n], after[n], out));
        assert forall|i: int| 0 <= i < n implies #[trigger] rewrites_expression(
            step,
            o,
            before[i],
            after[i],
            go,
        ) by {
            if i >= s.len() {
                let j = i - s.len();
                assert(before[i] == t[j] && after[i] == t2[j]);
                assert(rewrites_expression(step, o, t[j], t2[j], go));
            }
        }
        assert forall|i: int| n < i < before.len() implies #[trigger] after[i] == before[i] by {
            let j = i - s.len();
            assert(before[i] == t[j] && after[i] == t2[j]);
            assert(t2[j] == t[j]);
        }
    }
}

/// A traversal that broke on the slots `s` left the slots `t` behind them as
/// they were.
pub proof fn lemma_rewrites_slots_break<T, B>(
    step: spec_fn(Expression<T>, Expression<T>, ControlFlow<B>) -> bool,
    o: VisitOrder,
    s: Seq<Expression<T>>,
    s2: Seq<Expression<T>>,
    t: Seq<Expression<T>>,
    out: ControlFlow<B>,
)
    requires
        out is Break,
        rewrites_slots(step, o, s, s2, out),
    ensures
        rewrites_slots(step, o, s + t, s2 + t, out),
{
    let before = s + t;
    let after = s2 + t;
    let go = ControlFlow::<B, ()>::Continue(());
    let k = choose|k: int|
        {
            &&& 0 <= k < s.len()
            &&& #[trigger] rewrites_expression(step, o, s[k], s2[k], out)
            &&& forall|i: int|
                0 <= i < k ==> #[trigger] rewrites_expression(step, o, s[i], s2[i], go)
            &&& forall|i: int| k < i < s.len() ==> #[trigger] s2[i] == s[i]
        };
    assert(before[k] == s[k] && after[k] == s2[k]);
    assert(rewrites_expression(step, o, before[k], after[k], out));
    assert forall|i: int| 0 <= i < k implies #[trigger] rewrites_expression(
        step,
        o,
        before[i],
        after[i],
        go,
    ) by {
        assert(before[i] == s[i] && after[i] == s2[i]);
        assert(rewrites_expression(step, o, s[i], s2[i], go));
    }
    assert forall|i: int| k < i < before.len() implies #[trigger] after[i] == before[i] by {
        if i < s.len() {
            assert(before[i] == s[i] && after[i] == s2[i]);
            assert(s2[i] == s[i]);
        }
    }
}

} // verus!
