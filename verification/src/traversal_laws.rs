//! What holds of every traversal: both orders visit the same nodes, each
//! once; pre-order visits a node before the nodes below it, post-order after
//! them; the first break decides what a traversal returns; and a visitor that
//! rewrites nothing is served by the rewriting traversal as by the read-only
//! one.
use vstd::prelude::*;
use std::ops::ControlFlow;
use crate::expression::Expression;
use crate::visitor::{
    accepts_each, expression_order, lemma_continue_is_unit, operands_order, rewrites_expression,
    rewrites_operands, rewrites_slots, visit_order, visit_outcome, VisitOrder,
};

verus! {

/// The number of nodes of `e`.
pub open spec fn node_count<T>(e: Expression<T>) -> nat
    decreases e,
{
    match e {
        Expression::BinaryOperation(l, _, r) => 1 + node_count(*l) + node_count(*r),
        Expression::UnaryOperation(_, x) => 1 + node_count(*x),
        _ => 1,
    }
}

/// A traversal visits as many nodes as the expression has, in either order.
pub proof fn lemma_order_length<T>(e: Expression<T>, o: VisitOrder)
    ensures
        expression_order(e, o).len() == node_count(e),
    decreases e,
{
    match e {
        Expression::BinaryOperation(l, _, r) => {
            lemma_order_length(*l, o);
            lemma_order_length(*r, o);
        },
        Expression::UnaryOperation(_, x) => {
            lemma_order_length(*x, o);
        },
        _ => {},
    }
}

/// Pre-order and post-order visit the same nodes of an expression, each as
/// often.
pub proof fn lemma_orders_visit_same_nodes<T>(e: Expression<T>)
    ensures
        expression_order(e, VisitOrder::Pre).to_multiset() == expression_order(
            e,
            VisitOrder::Post,
        ).to_multiset(),
    decreases e,
{
    broadcast use vstd::seq_lib::lemma_multiset_commutative;

    let pre = VisitOrder::Pre;
    let post = VisitOrder::Post;
    match e {
        Expression::BinaryOperation(l, _, r) => {
            lemma_orders_visit_same_nodes(*l);
            lemma_orders_visit_same_nodes(*r);
            assert(operands_order(e, pre).to_multiset() =~= operands_order(e, post).to_multiset());
        },
        Expression::UnaryOperation(_, x) => {
            lemma_orders_visit_same_nodes(*x);
        },
        _ => {},
    }
    assert(expression_order(e, pre).to_multiset() =~= expression_order(e, post).to_multiset());
}

/// Pre-order and post-order visit the same nodes of a list of expressions,
/// each as often.
pub proof fn lemma_slot_orders_visit_same_nodes<T>(slots: Seq<Expression<T>>)
    ensures
        visit_order(slots, VisitOrder::Pre).to_multiset() == visit_order(
            slots,
            VisitOrder::Post,
        ).to_multiset(),
    decreases slots.len(),
{
    broadcast use vstd::seq_lib::lemma_multiset_commutative;

    if slots.len() > 0 {
        lemma_slot_orders_visit_same_nodes(slots.drop_last());
        lemma_orders_visit_same_nodes(slots.last());
    }
    assert(visit_order(slots, VisitOrder::Pre).to_multiset() =~= visit_order(
        slots,
        VisitOrder::Post,
    ).to_multiset());
}

/// The node of `e` that `path` leads to from the root. At an operation,
/// `false` leads to the left operand, or to the only one, and `true` to the
/// right operand.
pub open spec fn node_at<T>(e: Expression<T>, path: Seq<bool>) -> Option<Expression<T>>
    decreases path.len(),
{
    if path.len() == 0 {
        Some(e)
    } else {
        match e {
            Expression::BinaryOperation(l, _, r) => if path[0] {
                node_at(*r, path.drop_first())
            } else {
                node_at(*l, path.drop_first())
            },
            Expression::UnaryOperation(_, x) => if path[0] {
                None
            } else {
                node_at(*x, path.drop_first())
            },
            _ => None,
        }
    }
}

/// The place, in a traversal of `e` in order `o`, of the node that `path`
/// leads to.
pub open spec fn place_of<T>(e: Expression<T>, path: Seq<bool>, o: VisitOrder) -> int
    decreases path.len(),
{
    if path.len() == 0 {
        match o {
            VisitOrder::Pre => 0,
            VisitOrder::Post => expression_order(e, o).len() - 1,
        }
    } else {
        let lead = match o {
            VisitOrder::Pre => 1int,
            VisitOrder::Post => 0int,
        };
        match e {
            Expression::BinaryOperation(l, _, r) => if path[0] {
                lead + expression_order(*l, o).len() + place_of(*r, path.drop_first(), o)
            } else {
                lead + place_of(*l, path.drop_first(), o)
            },
            Expression::UnaryOperation(_, x) => lead + place_of(*x, path.drop_first(), o),
            _ => 0,
        }
    }
}

/// A traversal visits, at the place of a node, that node.
pub proof fn lemma_place_holds_node<T>(e: Expression<T>, path: Seq<bool>, o: VisitOrder)
    requires
        node_at(e, path) is Some,
    ensures
        0 <= place_of(e, path, o) < expression_order(e, o).len(),
        expression_order(e, o)[place_of(e, path, o)] == node_at(e, path)->0,
    decreases path.len(),
{
    if path.len() > 0 {
        let rest = path.drop_first();
        match e {
            Expression::BinaryOperation(l, _, r) => {
                if path[0] {
                    lemma_place_holds_node(*r, rest, o);
                } else {
                    lemma_place_holds_node(*l, rest, o);
                }
            },
            Expression::UnaryOperation(_, x) => {
                lemma_place_holds_node(*x, rest, o);
            },
            _ => {},
        }
    }
}

/// Pre-order visits a node before every node below it, post-order after
/// every node below it.
pub proof fn lemma_parent_and_descendants<T>(
    e: Expression<T>,
    path: Seq<bool>,
    below: Seq<bool>,
    o: VisitOrder,
)
    requires
        below.len() > 0,
        node_at(e, path + below) is Some,
    ensures
        o is Pre ==> place_of(e, path, o) < place_of(e, path + below, o),
        o is Post ==> place_of(e, path, o) > place_of(e, path + below, o),
    decreases path.len(),
{
    let whole = path + below;
    let rest = whole.drop_first();
    if path.len() == 0 {
        assert(whole =~= below);
        match e {
            Expression::BinaryOperation(l, _, r) => {
                if whole[0] {
                    lemma_place_holds_node(*r, rest, o);
                } else {
                    lemma_place_holds_node(*l, rest, o);
                }
            },
            Expression::UnaryOperation(_, x) => {
                lemma_place_holds_node(*x, rest, o);
            },
            _ => {},
        }
    } else {
        assert(rest =~= path.drop_first() + below);
        assert(whole[0] == path[0]);
        match e {
            Expression::BinaryOperation(l, _, r) => {
                if path[0] {
                    lemma_parent_and_descendants(*r, path.drop_first(), below, o);
                } else {
                    lemma_parent_and_descendants(*l, path.drop_first(), below, o);
                }
            },
            Expression::UnaryOperation(_, x) => {
                lemma_parent_and_descendants(*x, path.drop_first(), below, o);
            },
            _ => {},
        }
    }
}

/// Two nodes of an expression are visited at two places: no node is visited
/// in place of another.
pub proof fn lemma_nodes_have_own_places<T>(
    e: Expression<T>,
    p: Seq<bool>,
    q: Seq<bool>,
    o: VisitOrder,
)
    requires
        node_at(e, p) is Some,
        node_at(e, q) is Some,
        p != q,
    ensures
        place_of(e, p, o) != place_of(e, q, o),
    decreases p.len(),
{
    if p.len() == 0 {
        assert(q.len() > 0) by {
            if q.len() == 0 {
                assert(p =~= q);
            }
        }
        assert(p + q =~= q);
        lemma_parent_and_descendants(e, p, q, o);
    } else if q.len() == 0 {
        assert(q + p =~= p);
        lemma_parent_and_descendants(e, q, p, o);
    } else {
        let p_rest = p.drop_first();
        let q_rest = q.drop_first();
        match e {
            Expression::BinaryOperation(l, _, r) => {
                if p[0] == q[0] {
                    assert(p_rest != q_rest) by {
                        if p_rest == q_rest {
                            assert(p =~= seq![p[0]] + p_rest);
                            assert(q =~= seq![q[0]] + q_rest);
                        }
                    }
                    if p[0] {
                        lemma_nodes_have_own_places(*r, p_rest, q_rest, o);
                    } else {
                        lemma_nodes_have_own_places(*l, p_rest, q_rest, o);
                    }
                } else if p[0] {
                    lemma_place_holds_node(*r, p_rest, o);
                    lemma_place_holds_node(*l, q_rest, o);
                } else {
                    lemma_place_holds_node(*l, p_rest, o);
                    lemma_place_holds_node(*r, q_rest, o);
                }
            },
            Expression::UnaryOperation(_, x) => {
                assert(p_rest != q_rest) by {
                    if p_rest == q_rest {
                        assert(p =~= seq![p[0]] + p_rest);
                        assert(q =~= seq![q[0]] + q_rest);
                    }
                }
                lemma_nodes_have_own_places(*x, p_rest, q_rest, o);
            },
            _ => {},
        }
    }
}

/// Where the visitor can only continue on the nodes before the one at `n`,
/// and can only break with `b` on that one, the traversal returns the break
/// with `b`.
pub proof fn lemma_first_break_decides<T, B, F>(
    f: F,
    s: Seq<Expression<T>>,
    n: int,
    b: B,
    r: ControlFlow<B>,
) where F: FnMut(&Expression<T>) -> ControlFlow<B>
    requires
        0 <= n < s.len(),
        forall|i: int, c: ControlFlow<B>|
            0 <= i < n && #[trigger] call_ensures(f, (&s[i],), c) ==> c is Continue,
        forall|c: ControlFlow<B>| #[trigger]
            call_ensures(f, (&s[n],), c) ==> c == ControlFlow::<B, ()>::Break(b),
        visit_outcome(f, s, r),
    ensures
        r == ControlFlow::<B, ()>::Break(b),
{
    match r {
        ControlFlow::Continue(_) => {
            assert(call_ensures(f, (&s[n],), ControlFlow::<B, ()>::Continue(())));
        },
        ControlFlow::Break(b2) => {
            let k = choose|k: int|
                {
                    &&& 0 <= k < s.len()
                    &&& call_ensures(f, (&#[trigger] s[k],), ControlFlow::<B, ()>::Break(b2))
                    &&& forall|i: int|
                        0 <= i < k ==> call_ensures(
                            f,
                            (&#[trigger] s[i],),
                            ControlFlow::<B, ()>::Continue(()),
                        )
                };
            if k < n {
                assert(call_ensures(f, (&s[k],), ControlFlow::<B, ()>::Break(b2)));
            } else if k > n {
                assert(call_ensures(f, (&s[n],), ControlFlow::<B, ()>::Continue(())));
            }
        },
    }
}

/// Where the visitor can only break on the node at `n`, a traversal asks
/// nothing of it on the nodes behind that one: it is not called on them.
pub proof fn lemma_nothing_asked_behind_a_break<T, B, F>(f: F, s: Seq<Expression<T>>, n: int) where
    F: FnMut(&Expression<T>) -> ControlFlow<B>,

    requires
        0 <= n < s.len(),
        forall|c: ControlFlow<B>| #[trigger] call_ensures(f, (&s[n],), c) ==> c is Break,
        accepts_each(f, s.take(n + 1)),
    ensures
        accepts_each(f, s),
{
    let front = s.take(n + 1);
    let go = ControlFlow::<B, ()>::Continue(());
    assert forall|i: int| 0 <= i < s.len() && visit_outcome(f, s.take(i), go) implies call_requires(
        f,
        (&#[trigger] s[i],),
    ) by {
        if i <= n {
            assert(front.take(i) =~= s.take(i));
            assert(front[i] == s[i]);
        } else {
            assert(s.take(i)[n] == s[n]);
            assert(call_ensures(f, (&s.take(i)[n],), go));
        }
    }
}

/// `r` is what handing the nodes of `s` in turn to a visitor gives, up to and
/// including the first node on which it breaks, where `answers(e, c)` says
/// that the visitor may answer `c` on the node `e`.
pub open spec fn outcome_by<T, B>(
    answers: spec_fn(Expression<T>, ControlFlow<B>) -> bool,
    s: Seq<Expression<T>>,
    r: ControlFlow<B>,
) -> bool {
    match r {
        ControlFlow::Continue(_) => forall|i: int|
            0 <= i < s.len() ==> answers(#[trigger] s[i], ControlFlow::Continue(())),
        ControlFlow::Break(_) => exists|k: int|
            {
                &&& 0 <= k < s.len()
                &&& answers(#[trigger] s[k], r)
                &&& forall|i: int| 0 <= i < k ==> answers(#[trigger] s[i], ControlFlow::Continue(()))
            },
    }
}

/// What the visitor `f` may answer on a node.
pub open spec fn answers_of<T, B, F>(f: F) -> spec_fn(Expression<T>, ControlFlow<B>) -> bool where
    F: FnMut(&Expression<T>) -> ControlFlow<B>,
 {
    |e: Expression<T>, c: ControlFlow<B>| call_ensures(f, (&e,), c)
}

/// What a visitor that rewrites nothing may answer on a node, where `step`
/// describes its calls.
pub open spec fn answers_in_place<T, B>(
    step: spec_fn(Expression<T>, Expression<T>, ControlFlow<B>) -> bool,
) -> spec_fn(Expression<T>, ControlFlow<B>) -> bool {
    |e: Expression<T>, c: ControlFlow<B>| step(e, e, c)
}

/// What a read-only traversal returns is the outcome by the answers of its
/// visitor.
pub proof fn lemma_outcome_by_visitor<T, B, F>(f: F, s: Seq<Expression<T>>, r: ControlFlow<B>) where
    F: FnMut(&Expression<T>) -> ControlFlow<B>,

    ensures
        visit_outcome(f, s, r) <==> outcome_by(answers_of(f), s, r),
{
    let answers = answers_of(f);
    match r {
        ControlFlow::Continue(_) => {
            if visit_outcome(f, s, r) {
                assert forall|i: int| 0 <= i < s.len() implies answers(
                    #[trigger] s[i],
                    ControlFlow::Continue(()),
                ) by {
                    assert(call_ensures(f, (&s[i],), ControlFlow::<B, ()>::Continue(())));
                }
            }
            if outcome_by(answers, s, r) {
                assert forall|i: int| 0 <= i < s.len() implies call_ensures(
                    f,
                    (&#[trigger] s[i],),
                    ControlFlow::<B, ()>::Continue(()),
                ) by {
                    assert(answers(s[i], ControlFlow::Continue(())));
                }
            }
        },
        ControlFlow::Break(b) => {
            if visit_outcome(f, s, r) {
                let k = choose|k: int|
                    {
                        &&& 0 <= k < s.len()
                        &&& call_ensures(f, (&#[trigger] s[k],), ControlFlow::<B, ()>::Break(b))
                        &&& forall|i: int|
                            0 <= i < k ==> call_ensures(
                                f,
                                (&#[trigger] s[i],),
                                ControlFlow::<B, ()>::Continue(()),
                            )
                    };
                assert(answers(s[k], r));
                assert forall|i: int| 0 <= i < k implies answers(
                    #[trigger] s[i],
                    ControlFlow::Continue(()),
                ) by {
                    assert(call_ensures(f, (&s[i],), ControlFlow::<B, ()>::Continue(())));
                }
            }
            if outcome_by(answers, s, r) {
                let k = choose|k: int|
                    {
                        &&& 0 <= k < s.len()
                        &&& answers(#[trigger] s[k], r)
                        &&& forall|i: int|
                            0 <= i < k ==> answers(#[trigger] s[i], ControlFlow::Continue(()))
                    };
                assert(call_ensures(f, (&s[k],), ControlFlow::<B, ()>::Break(b)));
                assert forall|i: int| 0 <= i < k implies call_ensures(
                    f,
                    (&#[trigger] s[i],),
                    ControlFlow::<B, ()>::Continue(()),
                ) by {
                    assert(answers(s[i], ControlFlow::Continue(())));
                }
            }
        },
    }
}

/// An outcome on the nodes `s` followed by the nodes `t`: a break on `s`, or
/// a run through `s` and then the outcome on `t`.
proof fn lemma_outcome_by_concat<T, B>(
    answers: spec_fn(Expression<T>, ControlFlow<B>) -> bool,
    s: Seq<Expression<T>>,
    t: Seq<Expression<T>>,
    r: ControlFlow<B>,
)
    requires
        (r is Break && outcome_by(answers, s, r)) || (outcome_by(
            answers,
            s,
            ControlFlow::Continue(()),
        ) && outcome_by(answers, t, r)),
    ensures
        outcome_by(answers, s + t, r),
{
    let st = s + t;
    let go = ControlFlow::<B, ()>::Continue(());
    if r is Break && outcome_by(answers, s, r) {
        let k = choose|k: int|
            {
                &&& 0 <= k < s.len()
                &&& answers(#[trigger] s[k], r)
                &&& forall|i: int| 0 <= i < k ==> answers(#[trigger] s[i], go)
            };
        assert(st[k] == s[k]);
        assert forall|i: int| 0 <= i < k implies answers(#[trigger] st[i], go) by {
            assert(st[i] == s[i]);
        }
    } else {
        assert forall|i: int| 0 <= i < s.len() implies answers(#[trigger] st[i], go) by {
            assert(st[i] == s[i]);
        }
        match r {
            ControlFlow::Continue(_) => {
                assert forall|i: int| 0 <= i < st.len() implies answers(#[trigger] st[i], go) by {
                    if i >= s.len() {
                        assert(st[i] == t[i - s.len()]);
                    }
                }
            },
            ControlFlow::Break(_) => {
                let k = choose|k: int|
                    {
                        &&& 0 <= k < t.len()
                        &&& answers(#[trigger] t[k], r)
                        &&& forall|i: int| 0 <= i < k ==> answers(#[trigger] t[i], go)
                    };
                let n = s.len() + k;
                assert(st[n] == t[k]);
                assert forall|i: int| 0 <= i < n implies answers(#[trigger] st[i], go) by {
                    if i >= s.len() {
                        assert(st[i] == t[i - s.len()]);
                    }
                }
            },
        }
    }
}

/// A rewriting traversal whose visitor leaves every node as it finds it
/// leaves the expression as it is, and returns what a read-only traversal
/// with the same answers returns.
pub proof fn lemma_rewriting_nothing_is_visiting<T, B>(
    step: spec_fn(Expression<T>, Expression<T>, ControlFlow<B>) -> bool,
    o: VisitOrder,
    before: Expression<T>,
    after: Expression<T>,
    out: ControlFlow<B>,
)
    requires
        forall|a: Expression<T>, b: Expression<T>, c: ControlFlow<B>| #[trigger] step(a, b, c) ==> b == a,
        rewrites_expression(step, o, before, after, out),
    ensures
        after == before,
        outcome_by(answers_in_place(step), expression_order(before, o), out),
    decreases before, 1nat,
{
    let answers = answers_in_place(step);
    let go = ControlFlow::<B, ()>::Continue(());
    let me = seq![before];
    assert(me[0] == before);
    lemma_continue_is_unit(out);
    match o {
        VisitOrder::Pre => {
            if out is Break && step(before, after, out) {
                assert(answers(me[0], out));
                assert(outcome_by(answers, me, out));
                lemma_outcome_by_concat(answers, me, operands_order(before, o), out);
            } else {
                let mid = choose|mid: Expression<T>| #[trigger]
                    step(before, mid, go) && rewrites_operands(step, o, mid, after, out);
                assert(mid == before);
                lemma_rewriting_no_operand(step, o, before, after, out);
                assert(answers(me[0], go));
                assert(outcome_by(answers, me, go));
                lemma_outcome_by_concat(answers, me, operands_order(before, o), out);
            }
        },
        VisitOrder::Post => {
            if out is Break && rewrites_operands(step, o, before, after, out) {
                lemma_rewriting_no_operand(step, o, before, after, out);
                lemma_outcome_by_concat(answers, operands_order(before, o), me, out);
            } else {
                let mid = choose|mid: Expression<T>|
                    rewrites_operands(step, o, before, mid, go) && #[trigger] step(mid, after, out);
                lemma_rewriting_no_operand(step, o, before, mid, go);
                assert(answers(me[0], out));
                assert(outcome_by(answers, me, out));
                lemma_outcome_by_concat(answers, operands_order(before, o), me, out);
            }
        },
    }
}

/// A rewriting traversal of the operands of `before` whose visitor leaves
/// every node as it finds it leaves them as they are.
proof fn lemma_rewriting_no_operand<T, B>(
    step: spec_fn(Expression<T>, Expression<T>, ControlFlow<B>) -> bool,
    o: VisitOrder,
    before: Expression<T>,
    after: Expression<T>,
    out: ControlFlow<B>,
)
    requires
        forall|a: Expression<T>, b: Expression<T>, c: ControlFlow<B>| #[trigger] step(a, b, c) ==> b == a,
        rewrites_operands(step, o, before, after, out),
    ensures
        after == before,
        outcome_by(answers_in_place(step), operands_order(before, o), out),
    decreases before, 0nat,
{
    let answers = answers_in_place(step);
    let go = ControlFlow::<B, ()>::Continue(());
    match (before, after) {
        (Expression::BinaryOperation(l, _, r), Expression::BinaryOperation(l2, _, r2)) => {
            if out is Break && rewrites_expression(step, o, *l, *l2, out) && r2 == r {
                lemma_rewriting_nothing_is_visiting(step, o, *l, *l2, out);
            } else {
                lemma_rewriting_nothing_is_visiting(step, o, *l, *l2, go);
                lemma_rewriting_nothing_is_visiting(step, o, *r, *r2, out);
            }
            lemma_outcome_by_concat(answers, expression_order(*l, o), expression_order(*r, o), out);
        },
        (Expression::UnaryOperation(_, x), Expression::UnaryOperation(_, y)) => {
            lemma_rewriting_nothing_is_visiting(step, o, *x, *y, out);
        },
        _ => {},
    }
}

/// A rewriting traversal of a list of expressions whose visitor leaves every
/// node as it finds it leaves the list as it is, and returns what a read-only
/// traversal with the same answers returns.
pub proof fn lemma_rewriting_no_slot_is_visiting<T, B>(
    step: spec_fn(Expression<T>, Expression<T>, ControlFlow<B>) -> bool,
    o: VisitOrder,
    before: Seq<Expression<T>>,
    after: Seq<Expression<T>>,
    out: ControlFlow<B>,
)
    requires
        forall|a: Expression<T>, b: Expression<T>, c: ControlFlow<B>| #[trigger] step(a, b, c) ==> b == a,
        rewrites_slots(step, o, before, after, out),
    ensures
        after == before,
        outcome_by(answers_in_place(step), visit_order(before, o), out),
    decreases before.len(),
{
    let answers = answers_in_place(step);
    let go = ControlFlow::<B, ()>::Continue(());
    lemma_continue_is_unit(out);
    if before.len() > 0 {
        let n = before.len() - 1;
        let front = before.drop_last();
        let front2 = after.drop_last();
        let stops_before = out is Break && rewrites_slots(step, o, front, front2, out);
        if out is Break {
            let k = choose|k: int|
                {
                    &&& 0 <= k < before.len()
                    &&& #[trigger] rewrites_expression(step, o, before[k], after[k], out)
                    &&& forall|i: int|
                        0 <= i < k ==> #[trigger] rewrites_expression(step, o, before[i], after[i], go)
                    &&& forall|i: int| k < i < before.len() ==> #[trigger] after[i] == before[i]
                };
            if k < n {
                assert(rewrites_expression(step, o, front[k], front2[k], out));
                assert forall|i: int| 0 <= i < k implies #[trigger] rewrites_expression(
                    step,
                    o,
                    front[i],
                    front2[i],
                    go,
                ) by {
                    assert(rewrites_expression(step, o, before[i], after[i], go));
                }
                assert forall|i: int| k < i < front.len() implies #[trigger] front2[i] == front[i] by {
                    assert(after[i] == before[i]);
                }
                assert(stops_before);
                lemma_rewriting_no_slot_is_visiting(step, o, front, front2, out);
                assert(after[n] == before[n]);
            } else {
                assert forall|i: int| 0 <= i < front.len() implies #[trigger] rewrites_expression(
                    step,
                    o,
                    front[i],
                    front2[i],
                    go,
                ) by {
                    assert(rewrites_expression(step, o, before[i], after[i], go));
                }
                lemma_rewriting_no_slot_is_visiting(step, o, front, front2, go);
                lemma_rewriting_nothing_is_visiting(step, o, before[n], after[n], out);
            }
        } else {
            assert forall|i: int| 0 <= i < front.len() implies #[trigger] rewrites_expression(
                step,
                o,
                front[i],
                front2[i],
                go,
            ) by {
                assert(rewrites_expression(step, o, before[i], after[i], go));
            }
            lemma_rewriting_no_slot_is_visiting(step, o, front, front2, go);
            assert(rewrites_expression(step, o, before[n], after[n], go));
            lemma_rewriting_nothing_is_visiting(step, o, before[n], after[n], out);
        }
        assert(after =~= front2.push(after[n]));
        assert(before =~= front.push(before[n]));
        lemma_outcome_by_concat(
            answers,
            visit_order(front, o),
            expression_order(before.last(), o),
            out,
        );
    } else {
        assert(after =~= before);
    }
}

} // verus!
