//! The traversal of what is built from expressions: identities and
//! function-value definitions. Each takes up its expressions one after the
//! other, as one sequence of slots.
use vstd::prelude::*;
use std::ops::ControlFlow;
use crate::expression::{
    Expression, FunctionValueDefinition, Identity, RepeatedArray, SelectedExpressions,
};
use crate::visitor::{
    accepts_each, height, lemma_accepts_front, lemma_accepts_rest, lemma_continue_is_unit,
    lemma_outcome_break_extends, lemma_outcome_continue_then, lemma_outcome_empty,
    lemma_rewrites_single_slot, lemma_rewrites_slots_break, lemma_rewrites_slots_concat,
    lemma_rewrites_slots_none, lemma_visit_order_concat, rewrites_expression, rewrites_slots,
    visit_order, visit_outcome, ExpressionVisitable, VisitOrder,
};

verus! {

/// Visits the expressions of a list, first to last.
fn visit_each<T, F, B>(exprs: &Vec<Expression<T>>, f: &mut F, o: VisitOrder) -> (r: ControlFlow<B>) where
    F: FnMut(&Expression<T>) -> ControlFlow<B>,

    requires
        accepts_each(*old(f), visit_order(exprs@, o)),
    ensures
        *final(f) == *old(f),
        visit_outcome(*old(f), visit_order(exprs@, o), r),
{
    let ghost f0 = *f;
    let ghost all = exprs@;
    let mut i: usize = 0;
    proof {
        lemma_outcome_empty::<T, B, F>(f0, o);
        assert(all.take(0) =~= Seq::<Expression<T>>::empty());
    }
    while i < exprs.len()
        invariant
            i <= exprs.len(),
            all == exprs@,
            *f == f0,
            f0 == *old(f),
            accepts_each(f0, visit_order(all, o)),
            visit_outcome(f0, visit_order(all.take(i as int), o), ControlFlow::<B, ()>::Continue(())),
        decreases exprs.len() - i,
    {
        let ghost done = all.take(i as int);
        let ghost here = seq![all[i as int]];
        let ghost rest = all.skip(i as int + 1);
        proof {
            assert(all =~= done + here + rest);
            lemma_visit_order_concat(done + here, rest, o);
            lemma_visit_order_concat(done, here, o);
            lemma_accepts_front(f0, visit_order(done + here, o), visit_order(rest, o));
            lemma_accepts_rest(f0, visit_order(done, o), visit_order(here, o));
            assert(all.take(i as int + 1) =~= done + here);
        }
        let r = exprs[i].visit_expressions(f, o);
        proof {
            lemma_outcome_continue_then(f0, visit_order(done, o), visit_order(here, o), r);
        }
        if let ControlFlow::Break(b) = r {
            proof {
                lemma_outcome_break_extends(f0, visit_order(done + here, o), visit_order(rest, o), b);
            }
            return ControlFlow::Break(b);
        }
        proof {
            lemma_continue_is_unit(r);
        }
        i += 1;
    }
    proof {
        assert(all.take(i as int) =~= all);
    }
    ControlFlow::Continue(())
}

/// Visits the expressions of a list, first to last, and lets the visitor
/// rewrite them.
fn visit_each_mut<T, F, B>(exprs: &mut Vec<Expression<T>>, f: &mut F, o: VisitOrder) -> (r:
    ControlFlow<B>) where F: FnMut(&mut Expression<T>) -> ControlFlow<B>
    requires
        forall|m: &mut Expression<T>| call_requires(*old(f), (m,)),
        o is Pre ==> forall|m: &mut Expression<T>, c: ControlFlow<B>| #[trigger]
            call_ensures(*old(f), (m,), c) && c is Continue ==> height(*final(m)) <= height(*m),
    ensures
        *final(f) == *old(f),
        final(exprs)@.len() == old(exprs)@.len(),
        forall|step: spec_fn(Expression<T>, Expression<T>, ControlFlow<B>) -> bool|
            (forall|m: &mut Expression<T>, c: ControlFlow<B>| #[trigger]
                call_ensures(*old(f), (m,), c) ==> step(*m, *final(m), c)) ==> #[trigger] rewrites_slots(
                step,
                o,
                old(exprs)@,
                final(exprs)@,
                r,
            ),
{
    let ghost f0 = *f;
    let ghost all = exprs@;
    let mut i: usize = 0;
    proof {
        assert(all.take(0) =~= Seq::<Expression<T>>::empty());
    }
    while i < exprs.len()
        invariant
            i <= exprs.len(),
            exprs@.len() == all.len(),
            all == old(exprs)@,
            *f == f0,
            f0 == *old(f),
            forall|m: &mut Expression<T>| call_requires(f0, (m,)),
            o is Pre ==> forall|m: &mut Expression<T>, c: ControlFlow<B>| #[trigger]
                call_ensures(f0, (m,), c) && c is Continue ==> height(*final(m)) <= height(*m),
            exprs@.skip(i as int) == all.skip(i as int),
            forall|step: spec_fn(Expression<T>, Expression<T>, ControlFlow<B>) -> bool|
                (forall|m: &mut Expression<T>, c: ControlFlow<B>| #[trigger]
                    call_ensures(f0, (m,), c) ==> step(*m, *final(m), c)) ==> #[trigger] rewrites_slots(
                    step,
                    o,
                    all.take(i as int),
                    exprs@.take(i as int),
                    ControlFlow::<B, ()>::Continue(()),
                ),
        decreases exprs.len() - i,
    {
        let ghost now = exprs@;
        let r = exprs[i].visit_expressions_mut(f, o);
        proof {
            let done = all.take(i as int);
            let done2 = now.take(i as int);
            let here = seq![all[i as int]];
            let here2 = seq![exprs@[i as int]];
            let rest = all.skip(i as int + 1);
            assert(now[i as int] == now.skip(i as int)[0]);
            assert(all[i as int] == all.skip(i as int)[0]);
            assert(exprs@ =~= now.update(i as int, exprs@[i as int]));
            assert(all =~= done + here + rest);
            assert(exprs@ =~= done2 + here2 + rest) by {
                assert forall|j: int| i < j < all.len() implies exprs@[j] == all[j] by {
                    assert(now.skip(i as int)[j - i] == all.skip(i as int)[j - i]);
                }
            }
            assert(all.take(i as int + 1) =~= done + here);
            assert(exprs@.take(i as int + 1) =~= done2 + here2);
            assert(exprs@.skip(i as int + 1) =~= all.skip(i as int + 1));
            lemma_continue_is_unit(r);
            assert forall|step: spec_fn(Expression<T>, Expression<T>, ControlFlow<B>) -> bool|
                (forall|m: &mut Expression<T>, c: ControlFlow<B>| #[trigger]
                    call_ensures(f0, (m,), c) ==> step(*m, *final(m), c)) implies #[trigger] rewrites_slots(
                step,
                o,
                done + here,
                done2 + here2,
                r,
            ) by {
                assert(rewrites_slots(step, o, done, done2, ControlFlow::<B, ()>::Continue(())));
                assert(rewrites_expression(step, o, all[i as int], exprs@[i as int], r));
                lemma_rewrites_single_slot(step, o, all[i as int], exprs@[i as int], r);
                lemma_rewrites_slots_concat(step, o, done, done2, here, here2, r);
            }
            if r is Break {
                assert forall|step: spec_fn(Expression<T>, Expression<T>, ControlFlow<B>) -> bool|
                    (forall|m: &mut Expression<T>, c: ControlFlow<B>| #[trigger]
                        call_ensures(f0, (m,), c) ==> step(*m, *final(m), c)) implies #[trigger] rewrites_slots(
                    step,
                    o,
                    all,
                    exprs@,
                    r,
                ) by {
                    assert(rewrites_slots(step, o, done + here, done2 + here2, r));
                    lemma_rewrites_slots_break(step, o, done + here, done2 + here2, rest, r);
                }
            }
        }
        if let ControlFlow::Break(b) = r {
            return ControlFlow::Break(b);
        }
        i += 1;
    }
    proof {
        assert(all.take(i as int) =~= all);
        assert(exprs@.take(i as int) =~= exprs@);
    }
    ControlFlow::Continue(())
}

/// The slot of an optional expression: one slot, or none.
pub open spec fn optional_slot<T>(e: Option<Expression<T>>) -> Seq<Expression<T>> {
    match e {
        Some(e) => seq![e],
        None => Seq::empty(),
    }
}

/// The slots of one side of an identity: the selector, then the expressions.
pub open spec fn side_slots<T>(side: SelectedExpressions<T>) -> Seq<Expression<T>> {
    optional_slot(side.selector) + side.expressions@
}

/// Two sides have a selector or none alike, and as many expressions.
pub open spec fn same_side_shape<T>(a: SelectedExpressions<T>, b: SelectedExpressions<T>) -> bool {
    &&& a.selector is Some <==> b.selector is Some
    &&& a.expressions@.len() == b.expressions@.len()
}

/// Visits the selector of a side, then its expressions.
fn visit_side<T, F, B>(side: &SelectedExpressions<T>, f: &mut F, o: VisitOrder) -> (r: ControlFlow<
    B,
>) where F: FnMut(&Expression<T>) -> ControlFlow<B>
    requires
        accepts_each(*old(f), visit_order(side_slots(*side), o)),
    ensures
        *final(f) == *old(f),
        visit_outcome(*old(f), visit_order(side_slots(*side), o), r),
{
    let ghost f0 = *f;
    let ghost head = visit_order(optional_slot(side.selector), o);
    let ghost tail = visit_order(side.expressions@, o);
    proof {
        lemma_visit_order_concat(optional_slot(side.selector), side.expressions@, o);
        lemma_accepts_front(f0, head, tail);
        lemma_outcome_empty::<T, B, F>(f0, o);
    }
    if let Some(selector) = &side.selector {
        let r = selector.visit_expressions(f, o);
        if let ControlFlow::Break(b) = r {
            proof {
                lemma_outcome_break_extends(f0, head, tail, b);
            }
            return ControlFlow::Break(b);
        }
        proof {
            lemma_continue_is_unit(r);
        }
    }
    proof {
        lemma_accepts_rest(f0, head, tail);
    }
    let r = visit_each(&side.expressions, f, o);
    proof {
        lemma_outcome_continue_then(f0, head, tail, r);
    }
    r
}

/// Visits the selector of a side, then its expressions, and lets the visitor
/// rewrite them.
fn visit_side_mut<T, F, B>(side: &mut SelectedExpressions<T>, f: &mut F, o: VisitOrder) -> (r:
    ControlFlow<B>) where F: FnMut(&mut Expression<T>) -> ControlFlow<B>
    requires
        forall|m: &mut Expression<T>| call_requires(*old(f), (m,)),
        o is Pre ==> forall|m: &mut Expression<T>, c: ControlFlow<B>| #[trigger]
            call_ensures(*old(f), (m,), c) && c is Continue ==> height(*final(m)) <= height(*m),
    ensures
        *final(f) == *old(f),
        same_side_shape(*old(side), *final(side)),
        forall|step: spec_fn(Expression<T>, Expression<T>, ControlFlow<B>) -> bool|
            (forall|m: &mut Expression<T>, c: ControlFlow<B>| #[trigger]
                call_ensures(*old(f), (m,), c) ==> step(*m, *final(m), c)) ==> #[trigger] rewrites_slots(
                step,
                o,
                side_slots(*old(side)),
                side_slots(*final(side)),
                r,
            ),
{
    let ghost f0 = *f;
    let ghost before = *side;
    let first = match &mut side.selector {
        Some(selector) => selector.visit_expressions_mut(f, o),
        None => ControlFlow::Continue(()),
    };
    let ghost mid = *side;
    proof {
        lemma_continue_is_unit(first);
        assert forall|step: spec_fn(Expression<T>, Expression<T>, ControlFlow<B>) -> bool|
            (forall|m: &mut Expression<T>, c: ControlFlow<B>| #[trigger]
                call_ensures(f0, (m,), c) ==> step(*m, *final(m), c)) implies #[trigger] rewrites_slots(
            step,
            o,
            optional_slot(before.selector),
            optional_slot(mid.selector),
            first,
        ) by {
            match before.selector {
                Some(e) => {
                    assert(rewrites_expression(step, o, e, mid.selector->0, first));
                    lemma_rewrites_single_slot(step, o, e, mid.selector->0, first);
                },
                None => {
                    lemma_rewrites_slots_none(step, o);
                },
            }
        }
    }
    if let ControlFlow::Break(b) = first {
        proof {
            assert forall|step: spec_fn(Expression<T>, Expression<T>, ControlFlow<B>) -> bool|
                (forall|m: &mut Expression<T>, c: ControlFlow<B>| #[trigger]
                    call_ensures(f0, (m,), c) ==> step(*m, *final(m), c)) implies #[trigger] rewrites_slots(
                step,
                o,
                side_slots(before),
                side_slots(mid),
                first,
            ) by {
                assert(rewrites_slots(
                    step,
                    o,
                    optional_slot(before.selector),
                    optional_slot(mid.selector),
                    first,
                ));
                lemma_rewrites_slots_break(
                    step,
                    o,
                    optional_slot(before.selector),
                    optional_slot(mid.selector),
                    before.expressions@,
                    first,
                );
            }
        }
        return ControlFlow::Break(b);
    }
    let r = visit_each_mut(&mut side.expressions, f, o);
    proof {
        assert forall|step: spec_fn(Expression<T>, Expression<T>, ControlFlow<B>) -> bool|
            (forall|m: &mut Expression<T>, c: ControlFlow<B>| #[trigger]
                call_ensures(f0, (m,), c) ==> step(*m, *final(m), c)) implies #[trigger] rewrites_slots(
            step,
            o,
            side_slots(before),
            side_slots(*side),
            r,
        ) by {
            assert(rewrites_slots(
                step,
                o,
                optional_slot(before.selector),
                optional_slot(mid.selector),
                first,
            ));
            assert(rewrites_slots(step, o, before.expressions@, side.expressions@, r));
            lemma_rewrites_slots_concat(
                step,
                o,
                optional_slot(before.selector),
                optional_slot(mid.selector),
                before.expressions@,
                side.expressions@,
                r,
            );
        }
    }
    r
}

impl<T> ExpressionVisitable<T> for Identity<T> {
    /// The left selector, the left expressions, the right selector, the right
    /// expressions, in this order.
    open spec fn expression_slots(&self) -> Seq<Expression<T>> {
        side_slots(self.left) + side_slots(self.right)
    }

    open spec fn same_outside_slots(&self, other: &Self) -> bool {
        &&& self.kind == other.kind
        &&& same_side_shape(self.left, other.left)
        &&& same_side_shape(self.right, other.right)
    }

    fn visit_expressions_mut<F, B>(&mut self, f: &mut F, o: VisitOrder) -> (r: ControlFlow<B>) where
        F: FnMut(&mut Expression<T>) -> ControlFlow<B>,
     {
        let ghost f0 = *f;
        let ghost before = *self;
        let first = visit_side_mut(&mut self.left, f, o);
        let ghost mid = *self;
        if let ControlFlow::Break(b) = first {
            proof {
                assert forall|step: spec_fn(Expression<T>, Expression<T>, ControlFlow<B>) -> bool|
                    (forall|m: &mut Expression<T>, c: ControlFlow<B>| #[trigger]
                        call_ensures(f0, (m,), c) ==> step(*m, *final(m), c)) implies #[trigger] rewrites_slots(
                    step,
                    o,
                    before.expression_slots(),
                    mid.expression_slots(),
                    first,
                ) by {
                    assert(rewrites_slots(step, o, side_slots(before.left), side_slots(mid.left), first));
                    lemma_rewrites_slots_break(
                        step,
                        o,
                        side_slots(before.left),
                        side_slots(mid.left),
                        side_slots(before.right),
                        first,
                    );
                }
            }
            return ControlFlow::Break(b);
        }
        let r = visit_side_mut(&mut self.right, f, o);
        proof {
            lemma_continue_is_unit(first);
            assert forall|step: spec_fn(Expression<T>, Expression<T>, ControlFlow<B>) -> bool|
                (forall|m: &mut Expression<T>, c: ControlFlow<B>| #[trigger]
                    call_ensures(f0, (m,), c) ==> step(*m, *final(m), c)) implies #[trigger] rewrites_slots(
                step,
                o,
                before.expression_slots(),
                self.expression_slots(),
                r,
            ) by {
                assert(rewrites_slots(step, o, side_slots(before.left), side_slots(mid.left), first));
                assert(rewrites_slots(step, o, side_slots(before.right), side_slots(self.right), r));
                lemma_rewrites_slots_concat(
                    step,
                    o,
                    side_slots(before.left),
                    side_slots(mid.left),
                    side_slots(before.right),
                    side_slots(self.right),
                    r,
                );
            }
        }
        r
    }

    fn visit_expressions<F, B>(&self, f: &mut F, o: VisitOrder) -> (r: ControlFlow<B>) where
        F: FnMut(&Expression<T>) -> ControlFlow<B>,
     {
        let ghost f0 = *f;
        let ghost head = visit_order(side_slots(self.left), o);
        let ghost tail = visit_order(side_slots(self.right), o);
        proof {
            lemma_visit_order_concat(side_slots(self.left), side_slots(self.right), o);
            lemma_accepts_front(f0, head, tail);
        }
        let first = visit_side(&self.left, f, o);
        if let ControlFlow::Break(b) = first {
            proof {
                lemma_outcome_break_extends(f0, head, tail, b);
            }
            return ControlFlow::Break(b);
        }
        proof {
            lemma_continue_is_unit(first);
            lemma_accepts_rest(f0, head, tail);
        }
        let r = visit_side(&self.right, f, o);
        proof {
            lemma_outcome_continue_then(f0, head, tail, r);
        }
        r
    }
}

/// The slots of the patterns of `arrays`: pattern after pattern, each in its
/// own order.
pub open spec fn pattern_slots<T>(arrays: Seq<RepeatedArray<T>>) -> Seq<Expression<T>>
    decreases arrays.len(),
{
    if arrays.len() == 0 {
        Seq::empty()
    } else {
        pattern_slots(arrays.drop_last()) + arrays.last().pattern@
    }
}

/// Two lists of arrays are as long, and their arrays alike in size and in the
/// length of the pattern.
pub open spec fn same_array_shapes<T>(a: Seq<RepeatedArray<T>>, b: Seq<RepeatedArray<T>>) -> bool {
    &&& a.len() == b.len()
    &&& forall|i: int|
        0 <= i < a.len() ==> (#[trigger] a[i]).size == b[i].size && a[i].pattern@.len()
            == b[i].pattern@.len()
}

/// The slots of two lists of arrays joined are the slots of the one, then
/// those of the other.
pub proof fn lemma_pattern_slots_concat<T>(s: Seq<RepeatedArray<T>>, t: Seq<RepeatedArray<T>>)
    ensures
        pattern_slots(s + t) == pattern_slots(s) + pattern_slots(t),
    decreases t.len(),
{
    if t.len() == 0 {
        assert(s + t =~= s);
        assert(pattern_slots(s) + pattern_slots(t) =~= pattern_slots(s));
    } else {
        lemma_pattern_slots_concat(s, t.drop_last());
        assert((s + t).drop_last() =~= s + t.drop_last());
        assert((s + t).last() == t.last());
        assert(pattern_slots(s + t) =~= pattern_slots(s) + pattern_slots(t));
    }
}

/// The slots of a list of arrays, split at the array `i`.
proof fn lemma_pattern_slots_split<T>(all: Seq<RepeatedArray<T>>, i: int)
    requires
        0 <= i < all.len(),
    ensures
        pattern_slots(all.take(i + 1)) == pattern_slots(all.take(i)) + all[i].pattern@,
        pattern_slots(all) == pattern_slots(all.take(i + 1)) + pattern_slots(all.skip(i + 1)),
{
    assert(all.take(i + 1).drop_last() =~= all.take(i));
    assert(all.take(i + 1).last() == all[i]);
    assert(all =~= all.take(i + 1) + all.skip(i + 1));
    lemma_pattern_slots_concat(all.take(i + 1), all.skip(i + 1));
}

/// Visits the patterns of a list of arrays, array after array.
fn visit_patterns<T, F, B>(arrays: &Vec<RepeatedArray<T>>, f: &mut F, o: VisitOrder) -> (r:
    ControlFlow<B>) where F: FnMut(&Expression<T>) -> ControlFlow<B>
    requires
        accepts_each(*old(f), visit_order(pattern_slots(arrays@), o)),
    ensures
        *final(f) == *old(f),
        visit_outcome(*old(f), visit_order(pattern_slots(arrays@), o), r),
{
    let ghost f0 = *f;
    let ghost all = arrays@;
    let mut i: usize = 0;
    proof {
        lemma_outcome_empty::<T, B, F>(f0, o);
        assert(all.take(0) =~= Seq::<RepeatedArray<T>>::empty());
    }
    while i < arrays.len()
        invariant
            i <= arrays.len(),
            all == arrays@,
            *f == f0,
            f0 == *old(f),
            accepts_each(f0, visit_order(pattern_slots(all), o)),
            visit_outcome(
                f0,
                visit_order(pattern_slots(all.take(i as int)), o),
                ControlFlow::<B, ()>::Continue(()),
            ),
        decreases arrays.len() - i,
    {
        let ghost done = pattern_slots(all.take(i as int));
        let ghost here = all[i as int].pattern@;
        let ghost rest = pattern_slots(all.skip(i as int + 1));
        proof {
            lemma_pattern_slots_split(all, i as int);
            lemma_visit_order_concat(done + here, rest, o);
            lemma_visit_order_concat(done, here, o);
            lemma_accepts_front(f0, visit_order(done + here, o), visit_order(rest, o));
            lemma_accepts_rest(f0, visit_order(done, o), visit_order(here, o));
        }
        let r = visit_each(&arrays[i].pattern, f, o);
        proof {
            lemma_outcome_continue_then(f0, visit_order(done, o), visit_order(here, o), r);
        }
        if let ControlFlow::Break(b) = r {
            proof {
                lemma_outcome_break_extends(f0, visit_order(done + here, o), visit_order(rest, o), b);
            }
            return ControlFlow::Break(b);
        }
        proof {
            lemma_continue_is_unit(r);
        }
        i += 1;
    }
    proof {
        assert(all.take(i as int) =~= all);
    }
    ControlFlow::Continue(())
}

/// Visits the patterns of a list of arrays, array after array, and lets the
/// visitor rewrite them.
fn visit_patterns_mut<T, F, B>(arrays: &mut Vec<RepeatedArray<T>>, f: &mut F, o: VisitOrder) -> (r:
    ControlFlow<B>) where F: FnMut(&mut Expression<T>) -> ControlFlow<B>
    requires
        forall|m: &mut Expression<T>| call_requires(*old(f), (m,)),
        o is Pre ==> forall|m: &mut Expression<T>, c: ControlFlow<B>| #[trigger]
            call_ensures(*old(f), (m,), c) && c is Continue ==> height(*final(m)) <= height(*m),
    ensures
        *final(f) == *old(f),
        same_array_shapes(old(arrays)@, final(arrays)@),
        forall|step: spec_fn(Expression<T>, Expression<T>, ControlFlow<B>) -> bool|
            (forall|m: &mut Expression<T>, c: ControlFlow<B>| #[trigger]
                call_ensures(*old(f), (m,), c) ==> step(*m, *final(m), c)) ==> #[trigger] rewrites_slots(
                step,
                o,
                pattern_slots(old(arrays)@),
                pattern_slots(final(arrays)@),
                r,
            ),
{
    let ghost f0 = *f;
    let ghost all = arrays@;
    let mut i: usize = 0;
    proof {
        assert(all.take(0) =~= Seq::<RepeatedArray<T>>::empty());
    }
    while i < arrays.len()
        invariant
            i <= arrays.len(),
            all == old(arrays)@,
            *f == f0,
            f0 == *old(f),
            forall|m: &mut Expression<T>| call_requires(f0, (m,)),
            o is Pre ==> forall|m: &mut Expression<T>, c: ControlFlow<B>| #[trigger]
                call_ensures(f0, (m,), c) && c is Continue ==> height(*final(m)) <= height(*m),
            same_array_shapes(all, arrays@),
            arrays@.skip(i as int) == all.skip(i as int),
            forall|step: spec_fn(Expression<T>, Expression<T>, ControlFlow<B>) -> bool|
                (forall|m: &mut Expression<T>, c: ControlFlow<B>| #[trigger]
                    call_ensures(f0, (m,), c) ==> step(*m, *final(m), c)) ==> #[trigger] rewrites_slots(
                    step,
                    o,
                    pattern_slots(all.take(i as int)),
                    pattern_slots(arrays@.take(i as int)),
                    ControlFlow::<B, ()>::Continue(()),
                ),
        decreases arrays.len() - i,
    {
        let ghost now = arrays@;
        let r = visit_each_mut(&mut arrays[i].pattern, f, o);
        proof {
            let done = pattern_slots(all.take(i as int));
            let done2 = pattern_slots(now.take(i as int));
            let here = all[i as int].pattern@;
            let here2 = arrays@[i as int].pattern@;
            let rest = pattern_slots(all.skip(i as int + 1));
            assert(now[i as int] == now.skip(i as int)[0]);
            assert(all[i as int] == all.skip(i as int)[0]);
            assert(arrays@ =~= now.update(i as int, arrays@[i as int]));
            assert(arrays@[i as int].size == all[i as int].size);
            assert(arrays@.take(i as int) =~= now.take(i as int));
            assert(arrays@.skip(i as int + 1) =~= all.skip(i as int + 1)) by {
                assert forall|j: int| i < j < all.len() implies arrays@[j] == all[j] by {
                    assert(now.skip(i as int)[j - i] == all.skip(i as int)[j - i]);
                }
            }
            lemma_pattern_slots_split(all, i as int);
            lemma_pattern_slots_split(arrays@, i as int);
            lemma_continue_is_unit(r);
            assert forall|step: spec_fn(Expression<T>, Expression<T>, ControlFlow<B>) -> bool|
                (forall|m: &mut Expression<T>, c: ControlFlow<B>| #[trigger]
                    call_ensures(f0, (m,), c) ==> step(*m, *final(m), c)) implies #[trigger] rewrites_slots(
                step,
                o,
                done + here,
                done2 + here2,
                r,
            ) by {
                assert(rewrites_slots(step, o, done, done2, ControlFlow::<B, ()>::Continue(())));
                assert(rewrites_slots(step, o, here, here2, r));
                lemma_rewrites_slots_concat(step, o, done, done2, here, here2, r);
            }
            if r is Break {
                assert forall|step: spec_fn(Expression<T>, Expression<T>, ControlFlow<B>) -> bool|
                    (forall|m: &mut Expression<T>, c: ControlFlow<B>| #[trigger]
                        call_ensures(f0, (m,), c) ==> step(*m, *final(m), c)) implies #[trigger] rewrites_slots(
                    step,
                    o,
                    pattern_slots(all),
                    pattern_slots(arrays@),
                    r,
                ) by {
                    assert(rewrites_slots(step, o, done + here, done2 + here2, r));
                    lemma_rewrites_slots_break(step, o, done + here, done2 + here2, rest, r);
                }
            }
        }
        if let ControlFlow::Break(b) = r {
            return ControlFlow::Break(b);
        }
        i += 1;
    }
    proof {
        assert(all.take(i as int) =~= all);
        assert(arrays@.take(i as int) =~= arrays@);
    }
    ControlFlow::Continue(())
}

impl<T> ExpressionVisitable<T> for FunctionValueDefinition<T> {
    /// A query or an expression holds one expression; a list of arrays holds
    /// the expressions of its patterns, pattern after pattern; a number holds
    /// none.
    open spec fn expression_slots(&self) -> Seq<Expression<T>> {
        match *self {
            FunctionValueDefinition::Query(e) => seq![e],
            FunctionValueDefinition::Expression(e) => seq![e],
            FunctionValueDefinition::Array(arrays) => pattern_slots(arrays@),
            FunctionValueDefinition::Number(_) => Seq::empty(),
        }
    }

    open spec fn same_outside_slots(&self, other: &Self) -> bool {
        match (*self, *other) {
            (FunctionValueDefinition::Query(_), FunctionValueDefinition::Query(_)) => true,
            (FunctionValueDefinition::Expression(_), FunctionValueDefinition::Expression(_)) => true,
            (FunctionValueDefinition::Array(a), FunctionValueDefinition::Array(b)) => same_array_shapes(
                a@,
                b@,
            ),
            (FunctionValueDefinition::Number(n), FunctionValueDefinition::Number(m)) => n == m,
            _ => false,
        }
    }

    fn visit_expressions_mut<F, B>(&mut self, f: &mut F, o: VisitOrder) -> (r: ControlFlow<B>) where
        F: FnMut(&mut Expression<T>) -> ControlFlow<B>,
     {
        let ghost before = *self;
        let ghost f0 = *f;
        match self {
            FunctionValueDefinition::Query(e) => {
                let ghost e0 = *e;
                let r = e.visit_expressions_mut(f, o);
                proof {
                    assert forall|step: spec_fn(Expression<T>, Expression<T>, ControlFlow<B>) -> bool|
                        (forall|m: &mut Expression<T>, c: ControlFlow<B>| #[trigger]
                            call_ensures(f0, (m,), c) ==> step(*m, *final(m), c)) implies #[trigger] rewrites_slots(
                        step,
                        o,
                        before.expression_slots(),
                        FunctionValueDefinition::Query(*e).expression_slots(),
                        r,
                    ) by {
                        assert(rewrites_slots(step, o, e0.expression_slots(), e.expression_slots(), r));
                    }
                }
                r
            },
            FunctionValueDefinition::Expression(e) => {
                let ghost e0 = *e;
                let r = e.visit_expressions_mut(f, o);
                proof {
                    assert forall|step: spec_fn(Expression<T>, Expression<T>, ControlFlow<B>) -> bool|
                        (forall|m: &mut Expression<T>, c: ControlFlow<B>| #[trigger]
                            call_ensures(f0, (m,), c) ==> step(*m, *final(m), c)) implies #[trigger] rewrites_slots(
                        step,
                        o,
                        before.expression_slots(),
                        FunctionValueDefinition::Expression(*e).expression_slots(),
                        r,
                    ) by {
                        assert(rewrites_slots(step, o, e0.expression_slots(), e.expression_slots(), r));
                    }
                }
                r
            },
            FunctionValueDefinition::Array(array) => {
                let ghost a0 = *array;
                let r = visit_patterns_mut(array, f, o);
                proof {
                    assert forall|step: spec_fn(Expression<T>, Expression<T>, ControlFlow<B>) -> bool|
                        (forall|m: &mut Expression<T>, c: ControlFlow<B>| #[trigger]
                            call_ensures(f0, (m,), c) ==> step(*m, *final(m), c)) implies #[trigger] rewrites_slots(
                        step,
                        o,
                        before.expression_slots(),
                        FunctionValueDefinition::Array(*array).expression_slots(),
                        r,
                    ) by {
                        assert(rewrites_slots(step, o, pattern_slots(a0@), pattern_slots(array@), r));
                    }
                }
                r
            },
            FunctionValueDefinition::Number(_) => {
                proof {
                    assert forall|step: spec_fn(Expression<T>, Expression<T>, ControlFlow<B>) -> bool|
                     #[trigger]
                        rewrites_slots(
                            step,
                            o,
                            before.expression_slots(),
                            before.expression_slots(),
                            ControlFlow::<B, ()>::Continue(()),
                        ) by {
                        lemma_rewrites_slots_none(step, o);
                    }
                }
                ControlFlow::Continue(())
            },
        }
    }

    fn visit_expressions<F, B>(&self, f: &mut F, o: VisitOrder) -> (r: ControlFlow<B>) where
        F: FnMut(&Expression<T>) -> ControlFlow<B>,
     {
        match self {
            FunctionValueDefinition::Query(e) | FunctionValueDefinition::Expression(e) => {
                e.visit_expressions(f, o)
            },
            FunctionValueDefinition::Array(array) => visit_patterns(array, f, o),
            FunctionValueDefinition::Number(_) => {
                proof {
                    lemma_outcome_empty::<T, B, F>(*f, o);
                }
                ControlFlow::Continue(())
            },
        }
    }
}

} // verus!
