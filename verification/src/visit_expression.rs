//! The traversal of a single expression tree.
use vstd::prelude::*;
use std::ops::ControlFlow;
use crate::expression::Expression;
use crate::visitor::{
    expression_order, height, lemma_accepts_front, lemma_accepts_rest, lemma_accepts_single,
    lemma_break_below, lemma_continue_is_unit,
    lemma_outcome_break_extends, lemma_outcome_continue_then, lemma_outcome_single,
    lemma_rewrites_single_slot, lemma_visit_order_single, operands_order, rewrites_expression,
    rewrites_operands, rewrites_slots, visit_outcome, ExpressionVisitable, VisitOrder,
};

verus! {

/// One call of the visitor, on the node `e`.
fn apply_visitor<T, F, B>(e: &mut Expression<T>, f: &mut F) -> (c: ControlFlow<B>) where
    F: FnMut(&mut Expression<T>) -> ControlFlow<B>,

    requires
        forall|m: &mut Expression<T>| call_requires(*old(f), (m,)),
    ensures
        *final(f) == *old(f),
        c is Continue ==> c == ControlFlow::<B, ()>::Continue(()),
        (forall|m: &mut Expression<T>, a: ControlFlow<B>| #[trigger]
            call_ensures(*old(f), (m,), a) && a is Continue ==> height(*final(m)) <= height(*m))
            ==> (c is Continue ==> height(*final(e)) <= height(*old(e))),
        forall|step: spec_fn(Expression<T>, Expression<T>, ControlFlow<B>) -> bool|
            (forall|m: &mut Expression<T>, a: ControlFlow<B>| #[trigger]
                call_ensures(*old(f), (m,), a) ==> step(*m, *final(m), a)) ==> #[trigger] step(
                *old(e),
                *final(e),
                c,
            ),
{
    let c = f(e);
    proof {
        lemma_continue_is_unit(c);
    }
    c
}

/// The traversal of the operands of `e`, from left to right.
fn visit_operands_mut<T, F, B>(e: &mut Expression<T>, f: &mut F, o: VisitOrder) -> (r: ControlFlow<B>) where
    F: FnMut(&mut Expression<T>) -> ControlFlow<B>,

    requires
        forall|m: &mut Expression<T>| call_requires(*old(f), (m,)),
        o is Pre ==> forall|m: &mut Expression<T>, c: ControlFlow<B>| #[trigger]
            call_ensures(*old(f), (m,), c) && c is Continue ==> height(*final(m)) <= height(*m),
    ensures
        *final(f) == *old(f),
        r is Continue ==> r == ControlFlow::<B, ()>::Continue(()),
        forall|step: spec_fn(Expression<T>, Expression<T>, ControlFlow<B>) -> bool|
            (forall|m: &mut Expression<T>, c: ControlFlow<B>| #[trigger]
                call_ensures(*old(f), (m,), c) ==> step(*m, *final(m), c)) ==> #[trigger] rewrites_operands(
                step,
                o,
                *old(e),
                *final(e),
                r,
            ),
    decreases height(*old(e)), 0nat,
{
    let ghost before = *e;
    let ghost f0 = *f;
    match e {
        Expression::Reference(_) | Expression::PublicReference(_) | Expression::Number(_) => {
            ControlFlow::Continue(())
        },
        Expression::BinaryOperation(left, _, right) => {
            let ghost l0 = **left;
            let lr = left.visit_expressions_mut(f, o);
            let ghost l1 = **left;
            match lr {
                ControlFlow::Break(b) => {
                    assert forall|step: spec_fn(Expression<T>, Expression<T>, ControlFlow<B>) -> bool|
                        (forall|m: &mut Expression<T>, c: ControlFlow<B>| #[trigger]
                            call_ensures(f0, (m,), c) ==> step(*m, *final(m), c)) implies #[trigger] rewrites_operands(
                        step,
                        o,
                        before,
                        *e,
                        lr,
                    ) by {
                        assert(rewrites_expression(step, o, l0, l1, lr));
                    }
                    ControlFlow::Break(b)
                },
                ControlFlow::Continue(_) => {
                    let ghost r0 = **right;
                    let rr = right.visit_expressions_mut(f, o);
                    let ghost r1 = **right;
                    proof {
                        lemma_continue_is_unit(rr);
                        lemma_continue_is_unit(lr);
                    }
                    assert forall|step: spec_fn(Expression<T>, Expression<T>, ControlFlow<B>) -> bool|
                        (forall|m: &mut Expression<T>, c: ControlFlow<B>| #[trigger]
                            call_ensures(f0, (m,), c) ==> step(*m, *final(m), c)) implies #[trigger] rewrites_operands(
                        step,
                        o,
                        before,
                        *e,
                        rr,
                    ) by {
                        assert(rewrites_expression(step, o, l0, l1, lr));
                        assert(rewrites_expression(step, o, r0, r1, rr));
                    }
                    rr
                },
            }
        },
        Expression::UnaryOperation(_, x) => {
            let ghost x0 = **x;
            let xr = x.visit_expressions_mut(f, o);
            let ghost x1 = **x;
            proof {
                lemma_continue_is_unit(xr);
            }
            assert forall|step: spec_fn(Expression<T>, Expression<T>, ControlFlow<B>) -> bool|
                (forall|m: &mut Expression<T>, c: ControlFlow<B>| #[trigger]
                    call_ensures(f0, (m,), c) ==> step(*m, *final(m), c)) implies #[trigger] rewrites_operands(
                step,
                o,
                before,
                *e,
                xr,
            ) by {
                assert(rewrites_expression(step, o, x0, x1, xr));
            }
            xr
        },
    }
}

impl<T> ExpressionVisitable<T> for Expression<T> {
    open spec fn expression_slots(&self) -> Seq<Expression<T>> {
        seq![*self]
    }

    open spec fn same_outside_slots(&self, other: &Self) -> bool {
        true
    }

    fn visit_expressions_mut<F, B>(&mut self, f: &mut F, o: VisitOrder) -> (r: ControlFlow<B>) where
        F: FnMut(&mut Expression<T>) -> ControlFlow<B>,

        ensures
            forall|step: spec_fn(Expression<T>, Expression<T>, ControlFlow<B>) -> bool|
                (forall|m: &mut Expression<T>, c: ControlFlow<B>| #[trigger]
                    call_ensures(*old(f), (m,), c) ==> step(*m, *final(m), c)) ==> #[trigger] rewrites_expression(
                    step,
                    o,
                    *old(self),
                    *final(self),
                    r,
                ),
        decreases height(*old(self)), 1nat,
    {
        let ghost before = *self;
        let ghost f0 = *f;
        let r = match o {
            VisitOrder::Pre => {
                let first = apply_visitor(self, f);
                let ghost mid = *self;
                match first {
                    ControlFlow::Break(b) => {
                        assert forall|step: spec_fn(Expression<T>, Expression<T>, ControlFlow<B>) -> bool|
                            (forall|m: &mut Expression<T>, c: ControlFlow<B>| #[trigger]
                                call_ensures(f0, (m,), c) ==> step(*m, *final(m), c)) implies #[trigger] rewrites_expression(
                            step,
                            o,
                            before,
                            mid,
                            first,
                        ) by {
                            assert(step(before, mid, first));
                        }
                        ControlFlow::Break(b)
                    },
                    ControlFlow::Continue(_) => {
                        let below = visit_operands_mut(self, f, o);
                        assert forall|step: spec_fn(Expression<T>, Expression<T>, ControlFlow<B>) -> bool|
                            (forall|m: &mut Expression<T>, c: ControlFlow<B>| #[trigger]
                                call_ensures(f0, (m,), c) ==> step(*m, *final(m), c)) implies #[trigger] rewrites_expression(
                            step,
                            o,
                            before,
                            *self,
                            below,
                        ) by {
                            assert(step(before, mid, first));
                            assert(rewrites_operands(step, o, mid, *self, below));
                        }
                        below
                    },
                }
            },
            VisitOrder::Post => {
                let below = visit_operands_mut(self, f, o);
                let ghost mid = *self;
                match below {
                    ControlFlow::Break(b) => {
                        assert forall|step: spec_fn(Expression<T>, Expression<T>, ControlFlow<B>) -> bool|
                            (forall|m: &mut Expression<T>, c: ControlFlow<B>| #[trigger]
                                call_ensures(f0, (m,), c) ==> step(*m, *final(m), c)) implies #[trigger] rewrites_expression(
                            step,
                            o,
                            before,
                            mid,
                            below,
                        ) by {
                            assert(rewrites_operands(step, o, before, mid, below));
                        }
                        ControlFlow::Break(b)
                    },
                    ControlFlow::Continue(_) => {
                        let last = apply_visitor(self, f);
                        assert forall|step: spec_fn(Expression<T>, Expression<T>, ControlFlow<B>) -> bool|
                            (forall|m: &mut Expression<T>, c: ControlFlow<B>| #[trigger]
                                call_ensures(f0, (m,), c) ==> step(*m, *final(m), c)) implies #[trigger] rewrites_expression(
                            step,
                            o,
                            before,
                            *self,
                            last,
                        ) by {
                            assert(rewrites_operands(step, o, before, mid, below));
                            assert(step(mid, *self, last));
                        }
                        last
                    },
                }
            },
        };
        assert forall|step: spec_fn(Expression<T>, Expression<T>, ControlFlow<B>) -> bool|
            (forall|m: &mut Expression<T>, c: ControlFlow<B>| #[trigger]
                call_ensures(f0, (m,), c) ==> step(*m, *final(m), c)) implies #[trigger] rewrites_slots(
            step,
            o,
            before.expression_slots(),
            self.expression_slots(),
            r,
        ) by {
            assert(rewrites_expression(step, o, before, *self, r));
            lemma_rewrites_single_slot(step, o, before, *self, r);
        }
        r
    }

    fn visit_expressions<F, B>(&self, f: &mut F, o: VisitOrder) -> (r: ControlFlow<B>) where
        F: FnMut(&Expression<T>) -> ControlFlow<B>,

        ensures
            visit_outcome(*old(f), expression_order(*self, o), r),
        decreases *self,
    {
        let ghost f0 = *f;
        let ghost below = operands_order(*self, o);
        let ghost me = seq![*self];
        let ghost go = ControlFlow::<B, ()>::Continue(());
        proof {
            lemma_visit_order_single(*self, o);
        }
        if let VisitOrder::Pre = o {
            proof {
                lemma_accepts_front(f0, me, below);
                lemma_accepts_single(f0, *self);
            }
            let first = f(self);
            proof {
                lemma_outcome_single(f0, *self, first);
            }
            if let ControlFlow::Break(b) = first {
                proof {
                    lemma_outcome_break_extends(f0, me, below, b);
                }
                return ControlFlow::Break(b);
            }
            proof {
                lemma_accepts_rest(f0, me, below);
            }
        } else {
            proof {
                lemma_accepts_front(f0, below, me);
            }
        }
        match self {
            Expression::Reference(_) | Expression::PublicReference(_) | Expression::Number(_) => {},
            Expression::BinaryOperation(left, _, right) => {
                let ghost lo = expression_order(**left, o);
                let ghost ro = expression_order(**right, o);
                proof {
                    lemma_accepts_front(f0, lo, ro);
                    lemma_visit_order_single(**left, o);
                    lemma_visit_order_single(**right, o);
                }
                let lr = left.visit_expressions(f, o);
                if let ControlFlow::Break(b) = lr {
                    proof {
                        lemma_outcome_break_extends(f0, lo, ro, b);
                        lemma_break_below(f0, *self, o, b);
                    }
                    return ControlFlow::Break(b);
                }
                proof {
                    lemma_continue_is_unit(lr);
                    lemma_accepts_rest(f0, lo, ro);
                }
                let rr = right.visit_expressions(f, o);
                proof {
                    lemma_outcome_continue_then(f0, lo, ro, rr);
                }
                if let ControlFlow::Break(b) = rr {
                    proof {
                        lemma_break_below(f0, *self, o, b);
                    }
                    return ControlFlow::Break(b);
                }
                proof {
                    lemma_continue_is_unit(rr);
                }
            },
            Expression::UnaryOperation(_, e) => {
                proof {
                    lemma_visit_order_single(**e, o);
                }
                let xr = e.visit_expressions(f, o);
                if let ControlFlow::Break(b) = xr {
                    proof {
                        lemma_break_below(f0, *self, o, b);
                    }
                    return ControlFlow::Break(b);
                }
                proof {
                    lemma_continue_is_unit(xr);
                }
            },
        }
        assert(visit_outcome(f0, below, go));
        if let VisitOrder::Post = o {
            proof {
                lemma_accepts_rest(f0, below, me);
                lemma_accepts_single(f0, *self);
            }
            let last = f(self);
            proof {
                lemma_outcome_single(f0, *self, last);
                lemma_outcome_continue_then(f0, below, me, last);
            }
            if let ControlFlow::Break(b) = last {
                return ControlFlow::Break(b);
            }
        } else {
            proof {
                lemma_outcome_continue_then(f0, me, below, go);
            }
        }
        ControlFlow::Continue(())
    }
}

} // verus!
