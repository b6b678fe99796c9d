//! Splitting a constraint system into a machine and the identities that stay
//! outside it.
//!
//! The machine's witness columns are the witness columns that occur on the
//! right-hand side of some identity. An identity belongs to the machine if it
//! refers to one of them and to no other witness column. At most one machine
//! is split out by one call; to split further, apply the function again to
//! what stayed outside.
use vstd::prelude::*;
use crate::expression::{Expression, Identity, SelectedExpressions};
use crate::machine::{
    lemma_referents_push, lemma_witness_names_push, referents, witness_names, FixedData, Machine,
    WitnessColumn,
};
use crate::name_set::NameSet;
use crate::references::{
    expression_references, identity_references, lemma_list_references_push, lemma_side_references,
    list_references, side_references,
};

verus! {

/// Collects the references to any of a given set of names in expressions and
/// identities.
pub struct ReferenceExtractor {
    names: NameSet,
}

impl View for ReferenceExtractor {
    type V = Set<Seq<char>>;

    /// The names that the extractor looks for.
    closed spec fn view(&self) -> Set<Seq<char>> {
        self.names@
    }
}

impl ReferenceExtractor {
    /// An extractor that looks for `names`.
    pub fn new(names: NameSet) -> (r: Self)
        ensures
            r@ == names@,
    {
        ReferenceExtractor { names }
    }

    /// The names looked for that `identity` refers to, on either side.
    pub fn in_identity<T>(&self, identity: &Identity<T>) -> (r: NameSet)
        ensures
            r@ == identity_references(*identity).intersect(self@),
    {
        let left = self.in_selected_expressions(&identity.left);
        let right = self.in_selected_expressions(&identity.right);
        let r = left.union(&right);
        assert(r@ =~= identity_references(*identity).intersect(self@));
        r
    }

    /// The names looked for that `selexpr` refers to, in its selector or in
    /// one of its expressions. Without a selector and without expressions
    /// these are none.
    pub fn in_selected_expressions<T>(&self, selexpr: &SelectedExpressions<T>) -> (r: NameSet)
        ensures
            r@ == side_references(*selexpr).intersect(self@),
    {
        let listed = self.in_expressions(selexpr.expressions.as_slice());
        let r = match &selexpr.selector {
            Some(selector) => listed.union(&self.in_expression(selector)),
            None => listed,
        };
        proof {
            lemma_side_references(*selexpr);
            assert(r@ =~= side_references(*selexpr).intersect(self@));
        }
        r
    }

    /// The names looked for that `expr` refers to.
    pub fn in_expression<T>(&self, expr: &Expression<T>) -> (r: NameSet)
        ensures
            r@ == expression_references(*expr).intersect(self@),
        decreases *expr,
    {
        let r = match expr {
            Expression::Reference(name) => {
                let mut found = NameSet::new();
                if self.names.contains(name) {
                    found.insert(name.clone());
                }
                found
            },
            Expression::BinaryOperation(l, _, r) => self.in_expression(l).union(
                &self.in_expression(r),
            ),
            Expression::UnaryOperation(_, e) => self.in_expression(e),
            Expression::PublicReference(_) | Expression::Number(_) => NameSet::new(),
        };
        assert(r@ =~= expression_references(*expr).intersect(self@));
        r
    }

    /// The names looked for that some expression of `exprs` refers to.
    pub fn in_expressions<T>(&self, exprs: &[Expression<T>]) -> (r: NameSet)
        ensures
            r@ == list_references(exprs@).intersect(self@),
    {
        let mut r = NameSet::new();
        let mut i: usize = 0;
        assert(list_references(exprs@.take(0)) =~= Set::<Seq<char>>::empty());
        assert(r@ =~= list_references(exprs@.take(0)).intersect(self@));
        while i < exprs.len()
            invariant
                i <= exprs.len(),
                r@ == list_references(exprs@.take(i as int)).intersect(self@),
            decreases exprs.len() - i,
        {
            let found = self.in_expression(&exprs[i]);
            r = r.union(&found);
            proof {
                let done = exprs@.take(i as int);
                let next = exprs@.take(i as int + 1);
                assert(next =~= done.push(exprs@[i as int]));
                lemma_list_references_push(done, exprs@[i as int]);
                assert(r@ =~= list_references(next).intersect(self@));
            }
            i += 1;
        }
        assert(exprs@.take(i as int) =~= exprs@);
        r
    }
}

/// The witness columns of the machine: those of `witnesses` that the
/// right-hand side of some identity refers to.
pub open spec fn machine_witnesses<T>(identities: Seq<Identity<T>>, witnesses: Set<Seq<char>>) -> Set<
    Seq<char>,
> {
    Set::new(
        |n: Seq<char>|
            witnesses.contains(n) && exists|i: int|
                0 <= i < identities.len() && #[trigger] side_references(identities[i].right).contains(
                    n,
                ),
    )
}

/// Whether `id` belongs to the machine with the witness columns `own`, where
/// `witnesses` are all witness columns: it refers to one of `own`, and to no
/// witness column besides them.
pub open spec fn in_machine<T>(id: Identity<T>, own: Set<Seq<char>>, witnesses: Set<Seq<char>>) -> bool {
    &&& exists|n: Seq<char>| own.contains(n) && #[trigger] identity_references(id).contains(n)
    &&& forall|n: Seq<char>|
        witnesses.contains(n) && #[trigger] identity_references(id).contains(n) ==> own.contains(n)
}

/// The identities of `identities` that belong to the machine (`inside`) or
/// that do not (`!inside`), in their order.
pub open spec fn select_identities<T>(
    identities: Seq<Identity<T>>,
    own: Set<Seq<char>>,
    witnesses: Set<Seq<char>>,
    inside: bool,
) -> Seq<Identity<T>> {
    identities.filter(|id: Identity<T>| in_machine(id, own, witnesses) == inside)
}

/// Without witness columns of its own a machine has no identity.
pub proof fn lemma_no_machine_without_witnesses<T>(
    identities: Seq<Identity<T>>,
    witnesses: Set<Seq<char>>,
)
    ensures
        select_identities(identities, Set::empty(), witnesses, true) == Seq::<Identity<T>>::empty(),
        select_identities(identities, Set::empty(), witnesses, false) == identities,
    decreases identities.len(),
{
    let own = Set::<Seq<char>>::empty();
    reveal(Seq::filter);
    if identities.len() > 0 {
        lemma_no_machine_without_witnesses(identities.drop_last(), witnesses);
        assert(!in_machine(identities.last(), own, witnesses));
        assert(identities.drop_last().push(identities.last()) =~= identities);
    }
}

/// The identities up to and including the one at `i` are selected as those
/// before it are, and then the one at `i`.
proof fn lemma_select_next<T>(
    identities: Seq<Identity<T>>,
    own: Set<Seq<char>>,
    witnesses: Set<Seq<char>>,
    inside: bool,
    i: int,
)
    requires
        0 <= i < identities.len(),
    ensures
        select_identities(identities.take(i + 1), own, witnesses, inside) == if in_machine(
            identities[i],
            own,
            witnesses,
        ) == inside {
            select_identities(identities.take(i), own, witnesses, inside).push(identities[i])
        } else {
            select_identities(identities.take(i), own, witnesses, inside)
        },
{
    let next = identities.take(i + 1);
    reveal(Seq::filter);
    assert(next.drop_last() =~= identities.take(i));
    assert(next.last() == identities[i]);
}

/// With one more identity, the machine has the witness columns it had and
/// those that the right-hand side of the identity refers to.
proof fn lemma_machine_witnesses_push<T>(
    identities: Seq<Identity<T>>,
    id: Identity<T>,
    witnesses: Set<Seq<char>>,
)
    ensures
        machine_witnesses(identities.push(id), witnesses) == machine_witnesses(
            identities,
            witnesses,
        ).union(side_references(id.right).intersect(witnesses)),
{
    let more = identities.push(id);
    let joined = machine_witnesses(identities, witnesses).union(
        side_references(id.right).intersect(witnesses),
    );
    assert forall|n: Seq<char>| machine_witnesses(more, witnesses).contains(n) == joined.contains(
        n,
    ) by {
        if machine_witnesses(more, witnesses).contains(n) {
            let i = choose|i: int|
                0 <= i < more.len() && #[trigger] side_references(more[i].right).contains(n);
            if i < identities.len() {
                assert(more[i] == identities[i]);
                assert(side_references(identities[i].right).contains(n));
            }
        }
        if machine_witnesses(identities, witnesses).contains(n) {
            let i = choose|i: int|
                0 <= i < identities.len() && #[trigger] side_references(
                    identities[i].right,
                ).contains(n);
            assert(more[i] == identities[i]);
            assert(side_references(more[i].right).contains(n));
        }
        if side_references(id.right).contains(n) && witnesses.contains(n) {
            assert(more[identities.len() as int] == id);
            assert(side_references(more[identities.len() as int].right).contains(n));
        }
    }
    assert(machine_witnesses(more, witnesses) =~= joined);
}

/// An identity belongs to the machine where it refers to one of the machine's
/// witness columns, and every witness column it refers to is among those.
proof fn lemma_membership_test<T>(
    id: Identity<T>,
    own: Set<Seq<char>>,
    witnesses: Set<Seq<char>>,
    in_own: Set<Seq<char>>,
    in_all: Set<Seq<char>>,
)
    requires
        in_own == identity_references(id).intersect(own),
        in_all == identity_references(id).intersect(witnesses),
    ensures
        in_machine(id, own, witnesses) == (!in_own.is_empty() && in_all.subset_of(in_own)),
{
    let refs = identity_references(id);
    if in_machine(id, own, witnesses) {
        let n = choose|n: Seq<char>| own.contains(n) && #[trigger] refs.contains(n);
        assert(in_own.contains(n));
        assert(in_all.subset_of(in_own));
    }
    if !in_own.is_empty() && in_all.subset_of(in_own) {
        let n = choose|n: Seq<char>| in_own.contains(n);
        assert(own.contains(n) && refs.contains(n));
        assert forall|n: Seq<char>| witnesses.contains(n) && #[trigger] refs.contains(n) implies own.contains(
            n,
        ) by {
            assert(in_all.contains(n));
        }
    }
}

/// The names of the witness columns.
fn collect_witness_names<T>(witness_cols: &[WitnessColumn<T>]) -> (r: NameSet)
    ensures
        r@ == witness_names(witness_cols@),
{
    let mut r = NameSet::new();
    let mut i: usize = 0;
    assert(r@ =~= witness_names(witness_cols@.take(0)));
    while i < witness_cols.len()
        invariant
            i <= witness_cols.len(),
            r@ == witness_names(witness_cols@.take(i as int)),
        decreases witness_cols.len() - i,
    {
        r.insert(witness_cols[i].name.clone());
        proof {
            let done = witness_cols@.take(i as int);
            assert(witness_cols@.take(i as int + 1) =~= done.push(witness_cols@[i as int]));
            lemma_witness_names_push(done, witness_cols@[i as int]);
        }
        i += 1;
    }
    assert(witness_cols@.take(i as int) =~= witness_cols@);
    r
}

/// The witness columns that the right-hand side of some identity refers to.
fn collect_machine_witnesses<T>(all_witnesses: &ReferenceExtractor, identities: &[Identity<T>]) -> (r:
    NameSet)
    ensures
        r@ == machine_witnesses(identities@, all_witnesses@),
{
    let mut r = NameSet::new();
    let mut i: usize = 0;
    assert(r@ =~= machine_witnesses(identities@.take(0), all_witnesses@));
    while i < identities.len()
        invariant
            i <= identities.len(),
            r@ == machine_witnesses(identities@.take(i as int), all_witnesses@),
        decreases identities.len() - i,
    {
        let found = all_witnesses.in_selected_expressions(&identities[i].right);
        r = r.union(&found);
        proof {
            let done = identities@.take(i as int);
            assert(identities@.take(i as int + 1) =~= done.push(identities@[i as int]));
            lemma_machine_witnesses_push(done, identities@[i as int], all_witnesses@);
        }
        i += 1;
    }
    assert(identities@.take(i as int) =~= identities@);
    r
}

/// References to all of `identities`, in their order.
fn all_identities<'a, T>(identities: &'a [Identity<T>]) -> (r: Vec<&'a Identity<T>>)
    ensures
        referents(r@) == identities@,
{
    let mut r: Vec<&'a Identity<T>> = Vec::new();
    let mut i: usize = 0;
    while i < identities.len()
        invariant
            i <= identities.len(),
            referents(r@) == identities@.take(i as int),
        decreases identities.len() - i,
    {
        proof {
            lemma_referents_push(r@, &identities@[i as int]);
            assert(identities@.take(i as int + 1) =~= identities@.take(i as int).push(
                identities@[i as int],
            ));
        }
        r.push(&identities[i]);
        i += 1;
    }
    assert(identities@.take(i as int) =~= identities@);
    r
}

/// Finds the machine in the witness columns and identities. Returns the
/// machines found, at most one, and the identities that belong to none, in
/// their order.
pub fn split_out_machines<'a, T>(
    fixed: &'a FixedData<T>,
    identities: &'a [Identity<T>],
    witness_cols: &'a [WitnessColumn<T>],
) -> (r: (Vec<Machine<'a, T>>, Vec<&'a Identity<T>>))
    ensures
        ({
            let all = witness_names(witness_cols@);
            let own = machine_witnesses(identities@, all);
            &&& referents(r.1@) == select_identities(identities@, own, all, false)
            &&& own.is_empty() ==> r.0@.len() == 0 && referents(r.1@) == identities@
            &&& r.1@.len() + select_identities(identities@, own, all, true).len()
                == identities@.len()
            &&& !own.is_empty() ==> {
                &&& r.0@.len() == 1
                &&& r.0@[0].fixed_data() == *fixed
                &&& r.0@[0].witness_set() == own
                &&& r.0@[0].identity_list() == select_identities(identities@, own, all, true)
                &&& r.0@[0].closed_within(all)
            }
        }),
{
    let ghost all = witness_names(witness_cols@);
    let ghost own = machine_witnesses(identities@, all);
    proof {
        lemma_partition_total(identities@, own, all);
    }
    let witness_names = collect_witness_names(witness_cols);
    let all_witnesses = ReferenceExtractor::new(witness_names);
    // The witness columns on the right-hand side of some identity.
    let machine_witnesses = collect_machine_witnesses(&all_witnesses, identities);
    if machine_witnesses.is_empty() {
        proof {
            lemma_no_machine_without_witnesses(identities@, all);
        }
        return (Vec::new(), all_identities(identities));
    }
    let machine_witness_extractor = ReferenceExtractor::new(machine_witnesses.clone());

    // The identities that concern the machine's witnesses and no other
    // witness go to the machine, the others stay outside.
    let mut machine_identities: Vec<&'a Identity<T>> = Vec::new();
    let mut residual: Vec<&'a Identity<T>> = Vec::new();
    let mut i: usize = 0;
    assert(identities@.take(0) =~= Seq::<Identity<T>>::empty());
    while i < identities.len()
        invariant
            i <= identities.len(),
            all_witnesses@ == all,
            machine_witness_extractor@ == own,
            referents(machine_identities@) == select_identities(
                identities@.take(i as int),
                own,
                all,
                true,
            ),
            referents(residual@) == select_identities(identities@.take(i as int), own, all, false),
        decreases identities.len() - i,
    {
        let identity = &identities[i];
        let mw = machine_witness_extractor.in_identity(identity);
        let in_all = all_witnesses.in_identity(identity);
        let inside = !mw.is_empty() && in_all.is_subset(&mw);
        proof {
            lemma_membership_test(*identity, own, all, mw@, in_all@);
            lemma_select_next(identities@, own, all, true, i as int);
            lemma_select_next(identities@, own, all, false, i as int);
            lemma_referents_push(machine_identities@, identity);
            lemma_referents_push(residual@, identity);
        }
        if inside {
            machine_identities.push(identity);
        } else {
            residual.push(identity);
        }
        i += 1;
    }
    assert(identities@.take(i as int) =~= identities@);
    let machine = Machine::new(fixed, machine_identities, machine_witnesses);
    proof {
        lemma_machine_is_closed(identities@, own, all);
    }
    let mut machines: Vec<Machine<'a, T>> = Vec::new();
    machines.push(machine);
    (machines, residual)
}

/// Every identity selected for the machine belongs to it.
pub proof fn lemma_selected_belong<T>(
    identities: Seq<Identity<T>>,
    own: Set<Seq<char>>,
    witnesses: Set<Seq<char>>,
    inside: bool,
)
    ensures
        forall|i: int|
            0 <= i < select_identities(identities, own, witnesses, inside).len() ==> in_machine(
                #[trigger] select_identities(identities, own, witnesses, inside)[i],
                own,
                witnesses,
            ) == inside,
{
    let keep = |id: Identity<T>| in_machine(id, own, witnesses) == inside;
    assert forall|i: int|
        0 <= i < select_identities(identities, own, witnesses, inside).len() implies in_machine(
        #[trigger] select_identities(identities, own, witnesses, inside)[i],
        own,
        witnesses,
    ) == inside by {
        identities.lemma_filter_pred(keep, i);
        assert(keep(identities.filter(keep)[i]));
    }
}

/// No identity of the machine refers to a witness column that is not the
/// machine's own.
pub proof fn lemma_machine_is_closed<T>(
    identities: Seq<Identity<T>>,
    own: Set<Seq<char>>,
    witnesses: Set<Seq<char>>,
)
    ensures
        forall|i: int, n: Seq<char>|
            0 <= i < select_identities(identities, own, witnesses, true).len() && witnesses.contains(n)
                && #[trigger] identity_references(
                select_identities(identities, own, witnesses, true)[i],
            ).contains(n) ==> own.contains(n),
{
    lemma_selected_belong(identities, own, witnesses, true);
}

/// The positions in `identities` of the identities that belong to the
/// machine (`inside`) or that do not (`!inside`), in increasing order.
pub open spec fn select_positions<T>(
    identities: Seq<Identity<T>>,
    own: Set<Seq<char>>,
    witnesses: Set<Seq<char>>,
    inside: bool,
) -> Seq<int>
    decreases identities.len(),
{
    if identities.len() == 0 {
        Seq::empty()
    } else {
        let before = select_positions(identities.drop_last(), own, witnesses, inside);
        if in_machine(identities.last(), own, witnesses) == inside {
            before.push(identities.len() - 1)
        } else {
            before
        }
    }
}

/// `part` is what `whole` holds at the positions `at`, and these increase:
/// `part` is a part of `whole` in the order of `whole`.
pub open spec fn taken_at<A>(part: Seq<A>, whole: Seq<A>, at: Seq<int>) -> bool {
    &&& at.len() == part.len()
    &&& forall|k: int| 0 <= k < at.len() ==> 0 <= #[trigger] at[k] < whole.len() && part[k] == whole[at[k]]
    &&& forall|j: int, k: int| 0 <= j < k < at.len() ==> at[j] < at[k]
}

/// The machine's identities and the others are together the identities that
/// were given: as many, and each as often.
pub proof fn lemma_partition_total<T>(
    identities: Seq<Identity<T>>,
    own: Set<Seq<char>>,
    witnesses: Set<Seq<char>>,
)
    ensures
        select_identities(identities, own, witnesses, true).len() + select_identities(
            identities,
            own,
            witnesses,
            false,
        ).len() == identities.len(),
        select_identities(identities, own, witnesses, true).to_multiset().add(
            select_identities(identities, own, witnesses, false).to_multiset(),
        ) == identities.to_multiset(),
    decreases identities.len(),
{
    broadcast use vstd::seq_lib::group_to_multiset_ensures;

    reveal(Seq::filter);
    let inside = select_identities(identities, own, witnesses, true);
    let outside = select_identities(identities, own, witnesses, false);
    if identities.len() == 0 {
        assert(inside.to_multiset().add(outside.to_multiset()) =~= identities.to_multiset());
    } else {
        let front = identities.drop_last();
        let last = identities.last();
        lemma_partition_total(front, own, witnesses);
        assert(front.push(last) =~= identities);
        assert(inside.to_multiset().add(outside.to_multiset()) =~= front.to_multiset().insert(last));
    }
}

/// Each of the two parts keeps the order of the identities that were given,
/// and every position goes to exactly one of them: to the machine where the
/// identity belongs to it, to the others where it does not.
pub proof fn lemma_partition_keeps_order<T>(
    identities: Seq<Identity<T>>,
    own: Set<Seq<char>>,
    witnesses: Set<Seq<char>>,
    inside: bool,
)
    ensures
        taken_at(
            select_identities(identities, own, witnesses, inside),
            identities,
            select_positions(identities, own, witnesses, inside),
        ),
        forall|i: int|
            0 <= i < identities.len() ==> (select_positions(
                identities,
                own,
                witnesses,
                inside,
            ).contains(i) <==> in_machine(#[trigger] identities[i], own, witnesses) == inside),
    decreases identities.len(),
{
    reveal(Seq::filter);
    let part = select_identities(identities, own, witnesses, inside);
    let at = select_positions(identities, own, witnesses, inside);
    if identities.len() > 0 {
        let front = identities.drop_last();
        let n = identities.len() - 1;
        lemma_partition_keeps_order(front, own, witnesses, inside);
        let part0 = select_identities(front, own, witnesses, inside);
        let at0 = select_positions(front, own, witnesses, inside);
        assert forall|k: int| 0 <= k < at.len() implies 0 <= #[trigger] at[k] < identities.len()
            && part[k] == identities[at[k]] by {
            if k < at0.len() {
                assert(at[k] == at0[k]);
                assert(part[k] == part0[k]);
                assert(front[at0[k]] == identities[at0[k]]);
            }
        }
        assert forall|j: int, k: int| 0 <= j < k < at.len() implies at[j] < at[k] by {
            assert(at[j] == at0[j]);
            if k < at0.len() {
                assert(at[k] == at0[k]);
            }
        }
        assert forall|i: int| 0 <= i < identities.len() implies (at.contains(i) <==> in_machine(
            #[trigger] identities[i],
            own,
            witnesses,
        ) == inside) by {
            if i < n {
                assert(front[i] == identities[i]);
                if at0.contains(i) {
                    let k = choose|k: int| 0 <= k < at0.len() && at0[k] == i;
                    assert(at[k] == i);
                }
                if at.contains(i) {
                    let k = choose|k: int| 0 <= k < at.len() && at[k] == i;
                    assert(at0[k] == i);
                }
            } else {
                if in_machine(identities[i], own, witnesses) == inside {
                    assert(at[at.len() - 1] == i);
                }
                if at.contains(i) {
                    let k = choose|k: int| 0 <= k < at.len() && at[k] == i;
                    if k < at0.len() {
                        assert(at0[k] == i);
                    }
                }
            }
        }
    }
}

} // verus!
