//! A small roster of named people.
use vstd::prelude::*;
use vstd::string::StringExecFns;

verus! {

/// Marks an entry of the roster as a person.
#[derive(Clone, Copy, Debug, PartialEq, Eq)]
pub struct Person;

/// A person's name.
#[derive(Debug)]
pub struct Name(pub String);

/// The names of a roster, as character sequences.
pub open spec fn names_view(names: Seq<Name>) -> Seq<Seq<char>> {
    names.map_values(|n: Name| n.0@)
}

/// The roster that a fresh world starts with.
pub fn add_people() -> (r: Vec<Name>)
    ensures
        names_view(r@) == seq!["Elaina Proctor"@, "Renzo Hume"@, "Zayna Nieves"@],
{
    let mut r: Vec<Name> = Vec::new();
    r.push(Name(String::from_str("Elaina Proctor")));
    r.push(Name(String::from_str("Renzo Hume")));
    r.push(Name(String::from_str("Zayna Nieves")));
    assert(names_view(r@) =~= seq!["Elaina Proctor"@, "Renzo Hume"@, "Zayna Nieves"@]);
    r
}

/// Renames the first "Renzo Hume" of the roster to "Renzo Proctor"; the
/// others stay as they are.
pub fn update_people(names: &mut Vec<Name>)
    ensures
        (forall|k: int|
            0 <= k < old(names)@.len() ==> #[trigger] old(names)@[k].0@ != "Renzo Hume"@)
            ==> names_view(final(names)@) == names_view(old(names)@),
        forall|i: int|
            0 <= i < old(names)@.len() && old(names)@[i].0@ == "Renzo Hume"@ && (forall|k: int|
                0 <= k < i ==> #[trigger] old(names)@[k].0@ != "Renzo Hume"@) ==> names_view(
                final(names)@,
            ) == names_view(old(names)@).update(i, "Renzo Proctor"@),
{
    let ghost before = names_view(names@);
    let target = String::from_str("Renzo Hume");
    let n = names.len();
    let mut i: usize = 0;
    while i < n
        invariant
            n == names@.len(),
            target@ == "Renzo Hume"@,
            0 <= i <= n,
            names@ == old(names)@,
            before == names_view(old(names)@),
            forall|k: int| 0 <= k < i ==> #[trigger] old(names)@[k].0@ != "Renzo Hume"@,
        decreases n - i,
    {
        assert(before[i as int] == old(names)@[i as int].0@);
        if names[i].0 == target {
            names.set(i, Name(String::from_str("Renzo Proctor")));
            assert(names_view(names@) =~= before.update(i as int, "Renzo Proctor"@));
            assert(old(names)@[i as int].0@ == "Renzo Hume"@);
            assert forall|j: int|
                0 <= j < old(names)@.len() && old(names)@[j].0@ == "Renzo Hume"@ && (forall|k: int|
                    0 <= k < j ==> #[trigger] old(names)@[k].0@ != "Renzo Hume"@) implies j
                == i by {
                if j > i {
                    assert(old(names)@[i as int].0@ != "Renzo Hume"@);
                }
            }
            return;
        }
        i = i + 1;
    }
}

} // verus!
