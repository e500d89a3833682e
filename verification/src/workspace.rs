//! Workspace discovery over a model of the directory tree.
//!
//! The caller observes the current working directory as a list of path
//! components (root first) and, for the directory at every prefix length
//! (`0` = the filesystem root, `len` = the working directory itself), whether
//! it holds the workspace marker: a subdirectory named after the worker or
//! the frontend. The locator walks upward from the working directory to the
//! nearest marked ancestor; if that directory is itself a build-artifact
//! directory, it keeps ascending to the project container.

use vstd::prelude::*;
use vstd::string::StringSliceAdditionalSpecFns;
use crate::payload::bytes_eq;

verus! {

/// The byte strings of a list of path components.
pub open spec fn names_view(names: Seq<Vec<u8>>) -> Seq<Seq<u8>> {
    Seq::new(names.len(), |i: int| names[i]@)
}

/// The largest index holding `true`: the nearest marked ancestor, scanning
/// from the working directory upward.
pub open spec fn largest_marked(m: Seq<bool>) -> Option<int>
    decreases m.len(),
{
    if m.len() == 0 {
        None
    } else if m.last() {
        Some(m.len() - 1)
    } else {
        largest_marked(m.drop_last())
    }
}

/// Directory names that betray a build-artifact location of the running
/// executable rather than a source checkout.
pub open spec fn is_artifact(name: Seq<u8>) -> bool {
    name == "frontend".spec_bytes() || name == "src-tauri".spec_bytes() || name
        == "debug".spec_bytes()
}

/// The name of the top-level project container directory.
pub open spec fn container_name() -> Seq<u8> {
    "browser".spec_bytes()
}

/// Ascend from prefix length `k` to the nearest enclosing directory named
/// like the project container; the root if none is.
pub open spec fn correct_from(names: Seq<Seq<u8>>, k: int) -> int
    decreases k,
{
    if k <= 0 {
        0
    } else if names[k - 1] == container_name() {
        k
    } else {
        correct_from(names, k - 1)
    }
}

/// Where the workspace root lies, as a prefix length of the working
/// directory's components, or `None` when no ancestor is marked.
pub open spec fn spec_locate(names: Seq<Seq<u8>>, markers: Seq<bool>) -> Option<int> {
    match largest_marked(markers) {
        None => None,
        Some(k) => if k > 0 && is_artifact(names[k - 1]) {
            Some(correct_from(names, k))
        } else {
            Some(k)
        },
    }
}

fn is_artifact_x(name: &Vec<u8>) -> (r: bool)
    ensures
        r == is_artifact(name@),
{
    let a = vstd::string::StrSliceExecFns::as_bytes_vec("frontend");
    let b = vstd::string::StrSliceExecFns::as_bytes_vec("src-tauri");
    let c = vstd::string::StrSliceExecFns::as_bytes_vec("debug");
    bytes_eq(name, &a) || bytes_eq(name, &b) || bytes_eq(name, &c)
}

/// Find the workspace root: the nearest marked ancestor of the working
/// directory, corrected out of build-artifact directories. `names` are the
/// components of the working directory, root first; `markers[k]` says whether
/// the directory formed by the first `k` components holds the marker.
pub fn locate_workspace(names: &Vec<Vec<u8>>, markers: &Vec<bool>) -> (r: Option<usize>)
    requires
        markers@.len() == names@.len() + 1,
    ensures
        match r {
            Some(k) => spec_locate(names_view(names@), markers@) == Some(k as int) && k
                <= names@.len(),
            None => spec_locate(names_view(names@), markers@) is None,
        },
{
    let ghost ndv = names_view(names@);
    let n = markers.len();
    let mut k: usize = n;
    proof {
        assert(markers@.take(n as int) =~= markers@);
    }
    while k > 0 && !markers[k - 1]
        invariant
            n == markers@.len(),
            0 <= k <= n,
            largest_marked(markers@) == largest_marked(markers@.take(k as int)),
        decreases k,
    {
        proof {
            assert(markers@.take(k as int).drop_last() =~= markers@.take(k - 1));
            assert(markers@.take(k as int).last() == markers@[k - 1]);
        }
        k = k - 1;
    }
    if k == 0 {
        proof {
            assert(markers@.take(0) =~= Seq::<bool>::empty());
        }
        return None;
    }
    proof {
        assert(markers@.take(k as int).last() == markers@[k - 1]);
        assert(largest_marked(markers@) == Some(k - 1));
    }
    let found: usize = k - 1;
    if found > 0 && is_artifact_x(&names[found - 1]) {
        // ascend to the project container
        let container = vstd::string::StrSliceExecFns::as_bytes_vec("browser");
        let mut j: usize = found;
        while j > 0 && !bytes_eq(&names[j - 1], &container)
            invariant
                j <= found <= names@.len(),
                container@ == container_name(),
                ndv == names_view(names@),
                correct_from(ndv, found as int) == correct_from(ndv, j as int),
            decreases j,
        {
            j = j - 1;
        }
        Some(j)
    } else {
        Some(found)
    }
}

/// Starting at the worker directory itself or at any of its descendants, the
/// locator succeeds with exactly the nearest marked ancestor (ascending the
/// number of levels that separate the two); the correction pass does not move
/// it when that directory is not a build artifact.
pub proof fn lemma_locator_finds_nearest(names: Seq<Seq<u8>>, markers: Seq<bool>, k: int)
    requires
        markers.len() == names.len() + 1,
        0 <= k < markers.len(),
        markers[k],
        forall|x: int| k < x < markers.len() ==> !markers[x],
        k == 0 || !is_artifact(names[k - 1]),
    ensures
        spec_locate(names, markers) == Some(k),
{
    lemma_largest_marked(markers, k);
}

proof fn lemma_largest_marked(markers: Seq<bool>, k: int)
    requires
        0 <= k < markers.len(),
        markers[k],
        forall|x: int| k < x < markers.len() ==> !markers[x],
    ensures
        largest_marked(markers) == Some(k),
    decreases markers.len(),
{
    if markers.len() - 1 > k {
        assert(!markers.last());
        assert(markers.drop_last()[k] == markers[k]);
        lemma_largest_marked(markers.drop_last(), k);
    }
}

/// Started anywhere with no marked ancestor at all, the locator fails.
pub proof fn lemma_locator_unrelated(names: Seq<Seq<u8>>, markers: Seq<bool>)
    requires
        forall|x: int| 0 <= x < markers.len() ==> !markers[x],
    ensures
        spec_locate(names, markers) is None,
{
    lemma_largest_marked_none(markers);
}

proof fn lemma_largest_marked_none(markers: Seq<bool>)
    requires
        forall|x: int| 0 <= x < markers.len() ==> !markers[x],
    ensures
        largest_marked(markers) is None,
    decreases markers.len(),
{
    if markers.len() > 0 {
        lemma_largest_marked_none(markers.drop_last());
    }
}

} // verus!
