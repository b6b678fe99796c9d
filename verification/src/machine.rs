//! Columns, the data shared by all machines, and the machine: a set of
//! witness columns with the identities that concern no other witness.
use vstd::prelude::*;
use crate::expression::Identity;
use crate::name_set::NameSet;
use crate::references::identity_references;

verus! {

/// A column whose values are fixed by the constraint system.
#[derive(Clone, Debug, PartialEq, Eq)]
pub struct FixedColumn<T> {
    pub name: String,
    pub values: Vec<T>,
}

/// A column whose values the prover supplies.
#[derive(Clone, Debug, PartialEq, Eq)]
pub struct WitnessColumn<T> {
    pub name: String,
    pub values: Vec<T>,
}

/// What every machine of one constraint system shares.
#[derive(Clone, Debug, PartialEq, Eq)]
pub struct FixedData<T> {
    pub fixed_cols: Vec<FixedColumn<T>>,
}

/// The names of the columns `cols`.
pub open spec fn witness_names<T>(cols: Seq<WitnessColumn<T>>) -> Set<Seq<char>> {
    Set::new(|n: Seq<char>| exists|i: int| 0 <= i < cols.len() && (#[trigger] cols[i]).name@ == n)
}

/// The identities that the references `ids` point to.
pub open spec fn referents<T>(ids: Seq<&Identity<T>>) -> Seq<Identity<T>> {
    ids.map_values(|id: &Identity<T>| *id)
}

/// With one more column there is one more name.
pub proof fn lemma_witness_names_push<T>(cols: Seq<WitnessColumn<T>>, col: WitnessColumn<T>)
    ensures
        witness_names(cols.push(col)) == witness_names(cols).insert(col.name@),
{
    let more = cols.push(col);
    assert forall|n: Seq<char>|
        witness_names(more).contains(n) == witness_names(cols).insert(col.name@).contains(n) by {
        if witness_names(more).contains(n) {
            let i = choose|i: int| 0 <= i < more.len() && (#[trigger] more[i]).name@ == n;
            if i < cols.len() {
                assert(cols[i].name@ == n);
            }
        }
        if witness_names(cols).contains(n) {
            let i = choose|i: int| 0 <= i < cols.len() && (#[trigger] cols[i]).name@ == n;
            assert(more[i].name@ == n);
        }
        if n == col.name@ {
            assert(more[cols.len() as int].name@ == n);
        }
    }
    assert(witness_names(more) =~= witness_names(cols).insert(col.name@));
}

/// One more reference points to one more identity.
pub proof fn lemma_referents_push<T>(ids: Seq<&Identity<T>>, id: &Identity<T>)
    ensures
        referents(ids.push(id)) == referents(ids).push(*id),
{
    assert(referents(ids.push(id)) =~= referents(ids).push(*id));
}

/// A part of a constraint system that can be handled by itself: some of the
/// witness columns, and identities over them.
#[derive(Debug)]
pub struct Machine<'a, T> {
    fixed: &'a FixedData<T>,
    identities: Vec<&'a Identity<T>>,
    witnesses: NameSet,
}

impl<'a, T> Machine<'a, T> {
    /// The data the machine shares with the rest of the system.
    pub closed spec fn fixed_data(&self) -> FixedData<T> {
        *self.fixed
    }

    /// The identities of the machine, in their order.
    pub closed spec fn identity_list(&self) -> Seq<Identity<T>> {
        referents(self.identities@)
    }

    /// The names of the witness columns of the machine.
    pub closed spec fn witness_set(&self) -> Set<Seq<char>> {
        self.witnesses@
    }

    /// Among the witness columns `all_witnesses`, the identities of the
    /// machine refer to none but the machine's own.
    pub open spec fn closed_within(&self, all_witnesses: Set<Seq<char>>) -> bool {
        forall|i: int, n: Seq<char>|
            0 <= i < self.identity_list().len() && all_witnesses.contains(n)
                && #[trigger] identity_references(self.identity_list()[i]).contains(n)
                ==> self.witness_set().contains(n)
    }

    /// A machine of the given identities and witness columns. Whether the
    /// identities refer to no other witness column is for the one who puts
    /// the machine together to see to: `closed_within` says it.
    pub fn new(fixed: &'a FixedData<T>, identities: Vec<&'a Identity<T>>, witnesses: NameSet) -> (r:
        Self)
        ensures
            r.fixed_data() == *fixed,
            r.identity_list() == referents(identities@),
            r.witness_set() == witnesses@,
    {
        Machine { fixed, identities, witnesses }
    }

    /// The data the machine shares with the rest of the system.
    pub fn fixed(&self) -> (r: &'a FixedData<T>)
        ensures
            *r == self.fixed_data(),
    {
        self.fixed
    }

    /// The identities of the machine, in their order.
    pub fn identities(&self) -> (r: &Vec<&'a Identity<T>>)
        ensures
            referents(r@) == self.identity_list(),
    {
        &self.identities
    }

    /// The names of the witness columns of the machine.
    pub fn witnesses(&self) -> (r: &NameSet)
        ensures
            r@ == self.witness_set(),
    {
        &self.witnesses
    }
}

} // verus!
