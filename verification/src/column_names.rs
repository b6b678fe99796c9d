//! The names under which the columns of a constraint system are handed to a
//! code generator: made safe for use as identifiers, and listed with the names
//! of the shifted copies of columns.
use vstd::prelude::*;
use vstd::string::StringExecFns;
use crate::name_set::name_views;

verus! {

/// `s` with `to` in place of every `from`.
pub open spec fn with_replaced(s: Seq<char>, from: char, to: Seq<char>) -> Seq<char>
    decreases s.len(),
{
    if s.len() == 0 {
        s
    } else {
        with_replaced(s.drop_last(), from, to) + if s.last() == from {
            to
        } else {
            seq![s.last()]
        }
    }
}

/// A name made safe: an underscore stands in place of every `.`, `[` and
/// `]`.
pub open spec fn sanitized(name: Seq<char>) -> Seq<char> {
    name.map_values(
        |c: char|
            if c == '.' || c == '[' || c == ']' {
                '_'
            } else {
                c
            },
    )
}

/// The name of the shifted copy of the column `name`.
pub open spec fn shifted(name: Seq<char>) -> Seq<char> {
    name + "_shift"@
}

/// The safe names of the columns `cols`, in their order.
pub open spec fn sanitized_names<T>(cols: Seq<(String, Vec<T>)>) -> Seq<Seq<char>> {
    cols.map_values(|c: (String, Vec<T>)| sanitized(c.0@))
}

/// The names of the shifted copies of the columns `names`, in their order.
pub open spec fn shifted_names(names: Seq<String>) -> Seq<Seq<char>> {
    names.map_values(|n: String| shifted(n@))
}

/// `str::replace` with a character as the pattern: a new string that holds
/// `to` wherever `s` holds the character `from`, and is `s` elsewhere.
#[verifier::external_body]
fn replace_char(s: &str, from: char, to: &str) -> (r: String)
    ensures
        r@ == with_replaced(s@, from, to@),
{
    s.replace(from, to)
}

/// Replacing a character by one character is done place by place.
proof fn lemma_replaced_by_one(s: Seq<char>, from: char, to: char)
    ensures
        with_replaced(s, from, seq![to]) == s.map_values(
            |c: char|
                if c == from {
                    to
                } else {
                    c
                },
        ),
    decreases s.len(),
{
    let each = |c: char|
        if c == from {
            to
        } else {
            c
        };
    if s.len() > 0 {
        lemma_replaced_by_one(s.drop_last(), from, to);
        assert(s.map_values(each) =~= s.drop_last().map_values(each).push(each(s.last())));
    }
    assert(with_replaced(s, from, seq![to]) =~= s.map_values(each));
}

/// Makes a name safe for use as an identifier.
pub fn sanitize_name(string: &String) -> (r: String)
    ensures
        r@ == sanitized(string@),
{
    let dots = replace_char(string.as_str(), '.', "_");
    let opening = replace_char(dots.as_str(), '[', "_");
    let r = replace_char(opening.as_str(), ']', "_");
    proof {
        reveal_strlit("_");
        assert("_"@ =~= seq!['_']);
        lemma_replaced_by_one(string@, '.', '_');
        lemma_replaced_by_one(dots@, '[', '_');
        lemma_replaced_by_one(opening@, ']', '_');
        assert(r@ =~= sanitized(string@));
    }
    r
}

/// The safe names of the columns `cols`, in their order.
fn sanitize_names<T>(cols: &[(String, Vec<T>)]) -> (r: Vec<String>)
    ensures
        name_views(r@) == sanitized_names(cols@),
{
    let mut r: Vec<String> = Vec::new();
    let mut i: usize = 0;
    while i < cols.len()
        invariant
            i <= cols.len(),
            name_views(r@) == sanitized_names(cols@.take(i as int)),
        decreases cols.len() - i,
    {
        let ghost before = r@;
        let name = sanitize_name(&cols[i].0);
        r.push(name);
        proof {
            let next = cols@.take(i as int + 1);
            assert(before.len() == i) by {
                assert(name_views(before).len() == sanitized_names(cols@.take(i as int)).len());
            }
            assert forall|j: int| 0 <= j < next.len() implies name_views(r@)[j] == sanitized_names(
                next,
            )[j] by {
                if j < i {
                    assert(name_views(before)[j] == sanitized_names(cols@.take(i as int))[j]);
                }
            }
            assert(name_views(r@) =~= sanitized_names(next));
        }
        i += 1;
    }
    assert(cols@.take(i as int) =~= cols@);
    r
}

/// Whether `name` is one of `names`.
fn is_listed(names: &Vec<String>, name: &String) -> (r: bool)
    ensures
        r == name_views(names@).contains(name@),
{
    let mut i: usize = 0;
    while i < names.len()
        invariant
            i <= names.len(),
            forall|j: int| 0 <= j < i ==> name_views(names@)[j] != name@,
        decreases names.len() - i,
    {
        if names[i] == *name {
            assert(name_views(names@)[i as int] == name@);
            return true;
        }
        i += 1;
    }
    false
}

/// Copies of the names of `from`, put behind those of `to`.
fn append_names(to: &mut Vec<String>, from: &Vec<String>)
    ensures
        name_views(final(to)@) == name_views(old(to)@) + name_views(from@),
{
    let ghost start = to@;
    let mut i: usize = 0;
    assert(name_views(to@) =~= name_views(start) + name_views(from@.take(0)));
    while i < from.len()
        invariant
            i <= from.len(),
            name_views(to@) == name_views(start) + name_views(from@.take(i as int)),
        decreases from.len() - i,
    {
        let ghost before = to@;
        to.push(from[i].clone());
        proof {
            let next = name_views(start) + name_views(from@.take(i as int + 1));
            assert(before.len() == start.len() + i) by {
                assert(name_views(before).len() == (name_views(start) + name_views(
                    from@.take(i as int),
                )).len());
            }
            assert forall|j: int| 0 <= j < next.len() implies name_views(to@)[j] == next[j] by {
                if j < before.len() {
                    assert(name_views(before)[j] == (name_views(start) + name_views(
                        from@.take(i as int),
                    ))[j]);
                }
            }
            assert(name_views(to@) =~= next);
        }
        i += 1;
    }
    assert(from@.take(i as int) =~= from@);
}

/// The column names that a code generator works with, from the fixed and the
/// witness columns and the names of the columns that are to be shifted:
/// the safe names of the fixed columns; those of the witness columns; both,
/// fixed columns first; of both, those that are not the name of a shifted
/// copy; the names of the columns to be shifted, as given; the names of
/// their shifted copies; and all columns followed by the shifted copies.
pub fn get_all_col_names<T>(
    fixed: &[(String, Vec<T>)],
    witness: &[(String, Vec<T>)],
    to_be_shifted: &[String],
) -> (r: (Vec<String>, Vec<String>, Vec<String>, Vec<String>, Vec<String>, Vec<String>, Vec<String>))
    ensures
        name_views(r.0@) == sanitized_names(fixed@),
        name_views(r.1@) == sanitized_names(witness@),
        name_views(r.2@) == sanitized_names(fixed@) + sanitized_names(witness@),
        name_views(r.3@) == (sanitized_names(fixed@) + sanitized_names(witness@)).filter(
            |n: Seq<char>| !shifted_names(to_be_shifted@).contains(n),
        ),
        name_views(r.4@) == name_views(to_be_shifted@),
        name_views(r.5@) == shifted_names(to_be_shifted@),
        name_views(r.6@) == sanitized_names(fixed@) + sanitized_names(witness@) + shifted_names(
            to_be_shifted@,
        ),
{
    let fixed_names = sanitize_names(fixed);
    let witness_names = sanitize_names(witness);

    let mut given: Vec<String> = Vec::new();
    let mut shifted: Vec<String> = Vec::new();
    let mut i: usize = 0;
    while i < to_be_shifted.len()
        invariant
            i <= to_be_shifted.len(),
            name_views(given@) == name_views(to_be_shifted@.take(i as int)),
            name_views(shifted@) == shifted_names(to_be_shifted@.take(i as int)),
        decreases to_be_shifted.len() - i,
    {
        let ghost given_before = given@;
        let ghost shifted_before = shifted@;
        let mut name = to_be_shifted[i].clone();
        given.push(to_be_shifted[i].clone());
        name.append("_shift");
        shifted.push(name);
        proof {
            let done = to_be_shifted@.take(i as int);
            let next = to_be_shifted@.take(i as int + 1);
            assert(given_before.len() == i && shifted_before.len() == i) by {
                assert(name_views(given_before).len() == name_views(done).len());
                assert(name_views(shifted_before).len() == shifted_names(done).len());
            }
            assert forall|j: int| 0 <= j < next.len() implies name_views(given@)[j] == name_views(
                next,
            )[j] && name_views(shifted@)[j] == shifted_names(next)[j] by {
                if j < i {
                    assert(name_views(given_before)[j] == name_views(done)[j]);
                    assert(name_views(shifted_before)[j] == shifted_names(done)[j]);
                }
            }
            assert(name_views(given@) =~= name_views(next));
            assert(name_views(shifted@) =~= shifted_names(next));
        }
        i += 1;
    }
    assert(to_be_shifted@.take(i as int) =~= to_be_shifted@);

    let mut all_cols: Vec<String> = Vec::new();
    append_names(&mut all_cols, &fixed_names);
    append_names(&mut all_cols, &witness_names);
    assert(name_views(all_cols@) =~= sanitized_names(fixed@) + sanitized_names(witness@));

    let ghost is_unshifted = |n: Seq<char>| !shifted_names(to_be_shifted@).contains(n);
    let mut unshifted: Vec<String> = Vec::new();
    let mut k: usize = 0;
    proof {
        reveal(Seq::filter);
        assert(name_views(all_cols@).take(0) =~= Seq::<Seq<char>>::empty());
    }
    while k < all_cols.len()
        invariant
            k <= all_cols.len(),
            name_views(shifted@) == shifted_names(to_be_shifted@),
            is_unshifted == |n: Seq<char>| !shifted_names(to_be_shifted@).contains(n),
            name_views(unshifted@) == name_views(all_cols@).take(k as int).filter(is_unshifted),
        decreases all_cols.len() - k,
    {
        let ghost before = unshifted@;
        let ghost done = name_views(all_cols@).take(k as int);
        let ghost next = name_views(all_cols@).take(k as int + 1);
        proof {
            reveal(Seq::filter);
            assert(next.drop_last() =~= done);
            assert(next.last() == all_cols@[k as int]@);
        }
        if !is_listed(&shifted, &all_cols[k]) {
            unshifted.push(all_cols[k].clone());
            proof {
                assert forall|j: int| 0 <= j < next.filter(is_unshifted).len() implies name_views(
                    unshifted@,
                )[j] == next.filter(is_unshifted)[j] by {
                    if j < before.len() {
                        assert(name_views(before)[j] == done.filter(is_unshifted)[j]);
                    }
                }
                assert(name_views(unshifted@) =~= next.filter(is_unshifted));
            }
        }
        k += 1;
    }
    assert(name_views(all_cols@).take(k as int) =~= name_views(all_cols@));

    let mut with_shifts: Vec<String> = Vec::new();
    append_names(&mut with_shifts, &all_cols);
    append_names(&mut with_shifts, &shifted);
    assert(name_views(with_shifts@) =~= sanitized_names(fixed@) + sanitized_names(witness@)
        + shifted_names(to_be_shifted@));

    (fixed_names, witness_names, all_cols, unshifted, given, shifted, with_shifts)
}

} // verus!
