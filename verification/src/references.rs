//! The column names that expressions and identities refer to.
use vstd::prelude::*;
use crate::expression::{Expression, Identity, SelectedExpressions};
use crate::visit_composite::{optional_slot, side_slots};

verus! {

/// The names of the columns that `e` refers to. A public value and a number
/// refer to none.
pub open spec fn expression_references<T>(e: Expression<T>) -> Set<Seq<char>>
    decreases e,
{
    match e {
        Expression::Reference(name) => set![name@],
        Expression::PublicReference(_) => Set::empty(),
        Expression::Number(_) => Set::empty(),
        Expression::BinaryOperation(l, _, r) => expression_references(*l).union(
            expression_references(*r),
        ),
        Expression::UnaryOperation(_, x) => expression_references(*x),
    }
}

/// The names of the columns that some expression of `es` refers to.
pub open spec fn list_references<T>(es: Seq<Expression<T>>) -> Set<Seq<char>> {
    Set::new(
        |n: Seq<char>|
            exists|i: int| 0 <= i < es.len() && #[trigger] expression_references(es[i]).contains(n),
    )
}

/// The names of the columns that one side of an identity refers to, in its
/// selector or in one of its expressions.
pub open spec fn side_references<T>(side: SelectedExpressions<T>) -> Set<Seq<char>> {
    list_references(side_slots(side))
}

/// The names of the columns that an identity refers to, on either side.
pub open spec fn identity_references<T>(id: Identity<T>) -> Set<Seq<char>> {
    side_references(id.left).union(side_references(id.right))
}

/// A side without a selector and without expressions refers to no column:
/// whatever names are looked for, none is found in it.
pub proof fn lemma_empty_side_refers_to_nothing<T>(side: SelectedExpressions<T>, names: Set<Seq<char>>)
    requires
        side.selector is None,
        side.expressions@.len() == 0,
    ensures
        side_references(side) == Set::<Seq<char>>::empty(),
        side_references(side).intersect(names) == Set::<Seq<char>>::empty(),
{
    assert(side_slots(side).len() == 0);
    assert(side_references(side) =~= Set::<Seq<char>>::empty());
    assert(side_references(side).intersect(names) =~= Set::<Seq<char>>::empty());
}

/// A list with one more expression refers to what the list referred to and
/// to what the expression refers to.
pub proof fn lemma_list_references_push<T>(es: Seq<Expression<T>>, e: Expression<T>)
    ensures
        list_references(es.push(e)) == list_references(es).union(expression_references(e)),
{
    let more = es.push(e);
    assert forall|n: Seq<char>|
        list_references(more).contains(n) == list_references(es).union(
            expression_references(e),
        ).contains(n) by {
        if list_references(more).contains(n) {
            let i = choose|i: int|
                0 <= i < more.len() && #[trigger] expression_references(more[i]).contains(n);
            if i < es.len() {
                assert(more[i] == es[i]);
                assert(expression_references(es[i]).contains(n));
            }
        }
        if list_references(es).contains(n) {
            let i = choose|i: int|
                0 <= i < es.len() && #[trigger] expression_references(es[i]).contains(n);
            assert(more[i] == es[i]);
            assert(expression_references(more[i]).contains(n));
        }
        if expression_references(e).contains(n) {
            assert(more[es.len() as int] == e);
            assert(expression_references(more[es.len() as int]).contains(n));
        }
    }
    assert(list_references(more) =~= list_references(es).union(expression_references(e)));
}

/// Two lists joined refer to what the one or the other refers to.
pub proof fn lemma_list_references_concat<T>(s: Seq<Expression<T>>, t: Seq<Expression<T>>)
    ensures
        list_references(s + t) == list_references(s).union(list_references(t)),
    decreases t.len(),
{
    if t.len() == 0 {
        assert(s + t =~= s);
        assert(list_references(t) =~= Set::<Seq<char>>::empty());
        assert(list_references(s).union(list_references(t)) =~= list_references(s));
    } else {
        let front = t.drop_last();
        lemma_list_references_concat(s, front);
        lemma_list_references_push(s + front, t.last());
        lemma_list_references_push(front, t.last());
        assert((s + front).push(t.last()) =~= s + t);
        assert(front.push(t.last()) =~= t);
        assert(list_references(s + t) =~= list_references(s).union(list_references(t)));
    }
}

/// An optional expression refers, as a list, to what the expression refers
/// to, and to nothing where there is none.
pub proof fn lemma_optional_references<T>(e: Option<Expression<T>>)
    ensures
        list_references(optional_slot(e)) == match e {
            Some(e) => expression_references(e),
            None => Set::empty(),
        },
{
    let none = Seq::<Expression<T>>::empty();
    assert(list_references(none) =~= Set::<Seq<char>>::empty());
    if let Some(x) = e {
        lemma_list_references_push(none, x);
        assert(none.push(x) =~= seq![x]);
        assert(list_references(seq![x]) =~= expression_references(x));
    }
}

/// A side of an identity refers to what its selector refers to and to what
/// its expressions refer to.
pub proof fn lemma_side_references<T>(side: SelectedExpressions<T>)
    ensures
        side_references(side) == list_references(side.expressions@).union(
            match side.selector {
                Some(e) => expression_references(e),
                None => Set::empty(),
            },
        ),
{
    lemma_optional_references(side.selector);
    lemma_list_references_concat(optional_slot(side.selector), side.expressions@);
    assert(side_references(side) =~= list_references(side.expressions@).union(
        list_references(optional_slot(side.selector)),
    ));
}

} // verus!
