//! Choosing members by path: a pattern selects every member whose path
//! agrees with it component by component, as far as both go.
use crate::parser::{name_views, MegFile};
use vstd::prelude::*;

verus! {

/// The components of a path, each as text.
pub uninterp spec fn path_components(s: Seq<char>) -> Seq<Seq<char>>;

/// Relies on `std::path::Path::components`: the components of `s`, in
/// order, each as text.
#[verifier::external_body]
fn components(s: &str) -> (r: Vec<String>)
    ensures
        name_views(r@) == path_components(s@),
{
    std::path::Path::new(s).components().map(|c| c.as_os_str().to_string_lossy().into_owned()).collect()
}

/// `a` and `b` agree at every position where both have a component.
pub open spec fn prefix_agrees(a: Seq<Seq<char>>, b: Seq<Seq<char>>) -> bool {
    forall|i: int| 0 <= i < a.len() && 0 <= i < b.len() ==> a[i] == b[i]
}

/// Whether the pattern `pattern` selects the member path `name`.
pub open spec fn path_selects(pattern: Seq<char>, name: Seq<char>) -> bool {
    prefix_agrees(path_components(pattern), path_components(name))
}

/// Whether two component lists agree as far as both go.
pub fn components_agree(a: &Vec<String>, b: &Vec<String>) -> (r: bool)
    ensures
        r == prefix_agrees(name_views(a@), name_views(b@)),
{
    let mut i: usize = 0;
    while i < a.len() && i < b.len()
        invariant
            i <= a@.len(),
            forall|t: int| 0 <= t < i && t < b@.len() ==> a@[t]@ == b@[t]@,
        decreases a@.len() - i,
    {
        if a[i] != b[i] {
            assert(name_views(a@)[i as int] != name_views(b@)[i as int]);
            return false;
        }
        i = i + 1;
    }
    proof {
        let av = name_views(a@);
        let bv = name_views(b@);
        assert forall|t: int| 0 <= t < av.len() && 0 <= t < bv.len() implies av[t] == bv[t] by {
            assert(a@[t]@ == b@[t]@);
        }
    }
    true
}

/// The names of the members of `archive` that the pattern `path` selects,
/// each once.
pub fn match_path(path: &str, archive: &MegFile) -> (r: Vec<String>)
    requires
        archive.wf(),
    ensures
        name_views(r@).no_duplicates(),
        forall|k: Seq<char>|
            name_views(r@).contains(k) <==> (archive.index().contains_key(k) && path_selects(
                path@,
                k,
            )),
{
    let pattern = components(path);
    let names = archive.filenames();
    let ghost nv = name_views(names@);
    proof {
        assert forall|k: Seq<char>| archive.index().contains_key(k) <==> nv.contains(k) by {
            if nv.contains(k) {
                assert(nv.to_set().contains(k));
            }
            if archive.index().contains_key(k) {
                assert(nv.to_set().contains(k));
            }
        }
    }
    let mut r: Vec<String> = Vec::new();
    let mut i: usize = 0;
    while i < names.len()
        invariant
            nv == name_views(names@),
            nv.no_duplicates(),
            name_views(pattern@) == path_components(path@),
            i <= names@.len(),
            name_views(r@).no_duplicates(),
            forall|k: Seq<char>|
                name_views(r@).contains(k) <==> (exists|t: int|
                    0 <= t < i && nv[t] == k && path_selects(path@, k)),
        decreases names@.len() - i,
    {
        let parts = components(names[i].as_str());
        if components_agree(&pattern, &parts) {
            let ghost before = name_views(r@);
            r.push(names[i].clone());
            proof {
                let after = name_views(r@);
                assert(after =~= before.push(nv[i as int]));
                assert forall|x: int, y: int|
                    0 <= x < after.len() && 0 <= y < after.len() && x != y implies after[x]
                    != after[y] by {
                    if x == before.len() || y == before.len() {
                        let o = if x == before.len() { y } else { x };
                        if before[o] == nv[i as int] {
                            assert(before.contains(before[o]));
                            let t = choose|t: int|
                                0 <= t < i && nv[t] == before[o] && path_selects(path@, before[o]);
                            assert(nv[t] == nv[i as int]);
                        }
                    }
                }
                assert forall|k: Seq<char>|
                    after.contains(k) <==> (exists|t: int|
                        0 <= t < i + 1 && nv[t] == k && path_selects(path@, k)) by {
                    if after.contains(k) && k != nv[i as int] {
                        let o = choose|o: int| 0 <= o < after.len() && after[o] == k;
                        assert(before[o] == k);
                        assert(before.contains(k));
                    }
                    if exists|t: int| 0 <= t < i + 1 && nv[t] == k && path_selects(path@, k) {
                        let t = choose|t: int|
                            0 <= t < i + 1 && nv[t] == k && path_selects(path@, k);
                        if t < i {
                            assert(before.contains(k));
                            let o = choose|o: int| 0 <= o < before.len() && before[o] == k;
                            assert(after[o] == k);
                        } else {
                            assert(after[before.len() as int] == k);
                        }
                    }
                }
            }
        } else {
            proof {
                assert forall|k: Seq<char>|
                    name_views(r@).contains(k) <==> (exists|t: int|
                        0 <= t < i + 1 && nv[t] == k && path_selects(path@, k)) by {
                    if exists|t: int| 0 <= t < i + 1 && nv[t] == k && path_selects(path@, k) {
                        let t = choose|t: int|
                            0 <= t < i + 1 && nv[t] == k && path_selects(path@, k);
                        if t == i {
                            assert(!path_selects(path@, nv[i as int]));
                        }
                    }
                }
            }
        }
        i = i + 1;
    }
    proof {
        assert forall|k: Seq<char>|
            name_views(r@).contains(k) <==> (archive.index().contains_key(k) && path_selects(
                path@,
                k,
            )) by {
            if archive.index().contains_key(k) && path_selects(path@, k) {
                let t = choose|t: int| 0 <= t < nv.len() && nv[t] == k;
            }
        }
    }
    r
}

} // verus!
