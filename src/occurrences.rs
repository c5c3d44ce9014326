//! How often requested package names occur as dependency groups across a
//! whole dataset.
use vstd::prelude::*;

use crate::text::str_eq;

verus! {

pub open spec fn string_views(v: Seq<String>) -> Seq<Seq<char>> {
    v.map_values(|s: String| s@)
}

/// Number of packages, each given by its dependency-group names, that have
/// a group named `name`.
pub open spec fn occurrences(packages: Seq<Seq<Seq<char>>>, name: Seq<char>) -> nat
    decreases packages.len(),
{
    if packages.len() == 0 {
        0
    } else {
        occurrences(packages.drop_last(), name) + if packages.last().contains(name) {
            1nat
        } else {
            0nat
        }
    }
}

pub open spec fn groups_view(packages: Seq<Vec<String>>) -> Seq<Seq<Seq<char>>> {
    packages.map_values(|g: Vec<String>| string_views(g@))
}

/// Whether `v` holds a string equal to `x`.
pub fn has_string(v: &Vec<String>, x: &str) -> (r: bool)
    ensures
        r == string_views(v@).contains(x@),
{
    let mut i: usize = 0;
    while i < v.len()
        invariant
            i <= v@.len(),
            forall|k: int| 0 <= k < i ==> v@[k]@ != x@,
        decreases v@.len() - i,
    {
        if str_eq(v[i].as_str(), x) {
            assert(string_views(v@)[i as int] == x@);
            return true;
        }
        i = i + 1;
    }
    assert forall|k: int| 0 <= k < string_views(v@).len() implies string_views(v@)[k] != x@ by {
        assert(string_views(v@)[k] == v@[k]@);
    }
    false
}

/// Number of packages in `package_groups` with a dependency group `name`.
pub fn count_occurrences(package_groups: &Vec<Vec<String>>, name: &str) -> (r: u32)
    requires
        package_groups@.len() <= u32::MAX,
    ensures
        r == occurrences(groups_view(package_groups@), name@),
{
    let mut count: u32 = 0;
    let mut i: usize = 0;
    let ghost all = groups_view(package_groups@);
    assert(all.take(0) =~= Seq::<Seq<Seq<char>>>::empty());
    while i < package_groups.len()
        invariant
            i <= package_groups@.len(),
            package_groups@.len() <= u32::MAX,
            all == groups_view(package_groups@),
            count == occurrences(all.take(i as int), name@),
            count <= i,
        decreases package_groups@.len() - i,
    {
        assert(all.take(i + 1).drop_last() =~= all.take(i as int));
        assert(all.take(i + 1).last() == string_views(package_groups@[i as int]@));
        if has_string(&package_groups[i], name) {
            count = count + 1;
        }
        i = i + 1;
    }
    assert(all.take(i as int) =~= all);
    count
}

/// For each requested name, in the order requested, the name and the
/// number of packages in `package_groups` that have a dependency group of
/// that name; a name that no package has counts zero.
pub fn get_packages_occurences_in_deps(package_groups: &Vec<Vec<String>>, names: &Vec<String>) -> (r:
    Vec<(String, u32)>)
    requires
        package_groups@.len() <= u32::MAX,
    ensures
        r@.len() == names@.len(),
        forall|i: int|
            0 <= i < names@.len() ==> (#[trigger] r@[i]).0 == names@[i] && r@[i].1 == occurrences(
                groups_view(package_groups@),
                names@[i]@,
            ),
{
    let mut out: Vec<(String, u32)> = Vec::new();
    let mut i: usize = 0;
    while i < names.len()
        invariant
            i <= names@.len(),
            package_groups@.len() <= u32::MAX,
            out@.len() == i,
            forall|k: int|
                0 <= k < i ==> (#[trigger] out@[k]).0 == names@[k] && out@[k].1 == occurrences(
                    groups_view(package_groups@),
                    names@[k]@,
                ),
        decreases names@.len() - i,
    {
        let n = count_occurrences(package_groups, names[i].as_str());
        out.push((names[i].clone(), n));
        i = i + 1;
    }
    out
}

} // verus!
