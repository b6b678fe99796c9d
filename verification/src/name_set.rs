//! A set of column names.
use vstd::prelude::*;

verus! {

/// The names of `names`, as the sequences of characters they are.
pub open spec fn name_views(names: Seq<String>) -> Seq<Seq<char>> {
    names.map_values(|s: String| s@)
}

/// A finite set of names, kept in the order in which they were first put in.
/// No name is kept twice.
#[derive(Debug)]
pub struct NameSet {
    names: Vec<String>,
}

impl View for NameSet {
    type V = Set<Seq<char>>;

    closed spec fn view(&self) -> Set<Seq<char>> {
        name_views(self.names@).to_set()
    }
}

impl NameSet {
    #[verifier::type_invariant]
    spec fn distinct(self) -> bool {
        name_views(self.names@).no_duplicates()
    }

    /// The empty set.
    pub fn new() -> (r: Self)
        ensures
            r@ == Set::<Seq<char>>::empty(),
    {
        let r = NameSet { names: Vec::new() };
        assert(r@ =~= Set::<Seq<char>>::empty());
        r
    }

    /// Whether `name` is in the set.
    pub fn contains(&self, name: &String) -> (r: bool)
        ensures
            r == self@.contains(name@),
    {
        let ghost views = name_views(self.names@);
        let mut i: usize = 0;
        while i < self.names.len()
            invariant
                i <= self.names.len(),
                views == name_views(self.names@),
                forall|j: int| 0 <= j < i ==> views[j] != name@,
            decreases self.names.len() - i,
        {
            if self.names[i] == *name {
                assert(views[i as int] == name@);
                return true;
            }
            i += 1;
        }
        false
    }

    /// Puts `name` into the set. Returns whether it was new to it.
    pub fn insert(&mut self, name: String) -> (r: bool)
        ensures
            final(self)@ == old(self)@.insert(name@),
            r == !old(self)@.contains(name@),
    {
        proof {
            use_type_invariant(&*self);
        }
        if self.contains(&name) {
            assert(self@.insert(name@) =~= self@);
            false
        } else {
            let ghost before = name_views(self.names@);
            let mut names: Vec<String> = Vec::new();
            core::mem::swap(&mut self.names, &mut names);
            names.push(name);
            proof {
                let after = name_views(names@);
                assert(after =~= before.push(name@));
                before.lemma_push_to_set_commute(name@);
                assert forall|i: int, j: int|
                    0 <= i < after.len() && 0 <= j < after.len() && i != j implies after[i]
                    != after[j] by {
                    if i < before.len() && j < before.len() {
                        assert(before[i] != before[j]);
                    } else if i < before.len() {
                        assert(before.contains(before[i]));
                    } else {
                        assert(before.contains(before[j]));
                    }
                }
            }
            self.names = names;
            true
        }
    }

    /// The number of names in the set.
    pub fn len(&self) -> (r: usize)
        ensures
            r == self@.len(),
    {
        proof {
            use_type_invariant(self);
            name_views(self.names@).unique_seq_to_set();
        }
        self.names.len()
    }

    /// Whether the set holds no name.
    pub fn is_empty(&self) -> (r: bool)
        ensures
            r == self@.is_empty(),
    {
        proof {
            let views = name_views(self.names@);
            if views.len() > 0 {
                assert(views.contains(views[0]));
                assert(self@.contains(views[0]));
            } else {
                assert(self@ =~= Set::<Seq<char>>::empty());
            }
        }
        self.names.len() == 0
    }

    /// The names that are in `self` or in `other`.
    pub fn union(&self, other: &NameSet) -> (r: NameSet)
        ensures
            r@ == self@.union(other@),
    {
        let mut r = self.clone();
        let ghost views = name_views(other.names@);
        let mut i: usize = 0;
        assert(views.take(0) =~= Seq::<Seq<char>>::empty());
        while i < other.names.len()
            invariant
                i <= other.names.len(),
                views == name_views(other.names@),
                r@ == self@.union(views.take(i as int).to_set()),
            decreases other.names.len() - i,
        {
            let name = other.names[i].clone();
            r.insert(name);
            proof {
                assert(views.take(i as int + 1) =~= views.take(i as int).push(views[i as int]));
                views.take(i as int).lemma_push_to_set_commute(views[i as int]);
                assert(r@ =~= self@.union(views.take(i as int + 1).to_set()));
            }
            i += 1;
        }
        assert(views.take(i as int) =~= views);
        r
    }

    /// Whether every name of `self` is in `other`.
    pub fn is_subset(&self, other: &NameSet) -> (r: bool)
        ensures
            r == self@.subset_of(other@),
    {
        let ghost views = name_views(self.names@);
        let mut i: usize = 0;
        while i < self.names.len()
            invariant
                i <= self.names.len(),
                views == name_views(self.names@),
                forall|j: int| 0 <= j < i ==> other@.contains(views[j]),
            decreases self.names.len() - i,
        {
            if !other.contains(&self.names[i]) {
                assert(views.contains(views[i as int]));
                assert(self@.contains(views[i as int]));
                return false;
            }
            i += 1;
        }
        true
    }

    /// The set of the names listed in `names`.
    pub fn from_names(names: Vec<String>) -> (r: NameSet)
        ensures
            r@ == name_views(names@).to_set(),
    {
        let mut r = NameSet::new();
        let ghost views = name_views(names@);
        let mut i: usize = 0;
        assert(views.take(0) =~= Seq::<Seq<char>>::empty());
        assert(views.take(0).to_set() =~= Set::<Seq<char>>::empty());
        while i < names.len()
            invariant
                i <= names.len(),
                views == name_views(names@),
                r@ == views.take(i as int).to_set(),
            decreases names.len() - i,
        {
            let name = names[i].clone();
            r.insert(name);
            proof {
                assert(views.take(i as int + 1) =~= views.take(i as int).push(views[i as int]));
                views.take(i as int).lemma_push_to_set_commute(views[i as int]);
            }
            i += 1;
        }
        assert(views.take(i as int) =~= views);
        r
    }
}

impl Clone for NameSet {
    fn clone(&self) -> (r: Self)
        ensures
            r@ == self@,
    {
        proof {
            use_type_invariant(self);
        }
        let mut names: Vec<String> = Vec::new();
        let mut i: usize = 0;
        while i < self.names.len()
            invariant
                i <= self.names.len(),
                names@ == self.names@.take(i as int),
            decreases self.names.len() - i,
        {
            names.push(self.names[i].clone());
            assert(names@ =~= self.names@.take(i as int + 1));
            i += 1;
        }
        assert(names@ =~= self.names@);
        NameSet { names }
    }
}

} // verus!
