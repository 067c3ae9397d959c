use crate::segment::{chained, flip};
use crate::version::{
    compare_versions, lemma_compare_antisymmetric, lemma_compare_reflexive,
    lemma_compare_transitive, no_empty_text, version_cmp, Version,
};
use std::cmp::Ordering;
use vstd::prelude::*;

verus! {

/// A law of total orders that a set of versions was found to break, with the
/// positions of the versions involved.
pub enum LawViolation {
    Reflexivity(usize),
    Antisymmetry(usize, usize),
    Transitivity(usize, usize, usize),
}

/// The version at position `i` compares equal to itself.
pub open spec fn reflexive_at(vs: Seq<Version>, i: int) -> bool {
    version_cmp(vs[i]@, vs[i]@) == Ordering::Equal
}

/// The verdicts on the versions at `i` and `j`, both ways round, mirror each
/// other.
pub open spec fn antisymmetric_at(vs: Seq<Version>, i: int, j: int) -> bool {
    version_cmp(vs[i]@, vs[j]@) == flip(version_cmp(vs[j]@, vs[i]@))
}

/// The verdicts on the versions at `i`, `j` and `k` chain as in a total
/// preorder.
pub open spec fn transitive_at(vs: Seq<Version>, i: int, j: int, k: int) -> bool {
    chained(
        version_cmp(vs[i]@, vs[j]@),
        version_cmp(vs[j]@, vs[k]@),
        version_cmp(vs[i]@, vs[k]@),
    )
}

/// No version in `vs` holds an empty text segment.
pub open spec fn none_empty_text(vs: Seq<Version>) -> bool {
    forall|i: int| 0 <= i < vs.len() ==> no_empty_text(#[trigger] vs[i]@)
}

fn same_verdict(x: Ordering, y: Ordering) -> (r: bool)
    ensures
        r == (x == y),
{
    match (x, y) {
        (Ordering::Less, Ordering::Less) => true,
        (Ordering::Equal, Ordering::Equal) => true,
        (Ordering::Greater, Ordering::Greater) => true,
        _ => false,
    }
}

fn mirror(o: Ordering) -> (r: Ordering)
    ensures
        r == flip(o),
{
    match o {
        Ordering::Less => Ordering::Greater,
        Ordering::Equal => Ordering::Equal,
        Ordering::Greater => Ordering::Less,
    }
}

fn is_chained(ab: Ordering, bc: Ordering, ac: Ordering) -> (r: bool)
    ensures
        r == chained(ab, bc, ac),
{
    (!same_verdict(ab, Ordering::Equal) || same_verdict(ac, bc)) && (!same_verdict(
        bc,
        Ordering::Equal,
    ) || same_verdict(ac, ab)) && (!same_verdict(ab, bc) || same_verdict(ac, ab))
}

/// Checks that every version compares equal to itself; returns the position
/// of the first that does not. None ever does.
pub fn test_reflexivity(versions: &Vec<Version>) -> (r: Option<usize>)
    ensures
        r.is_none() <==> forall|i: int| 0 <= i < versions@.len() ==> reflexive_at(versions@, i),
        r matches Some(i) ==> i < versions@.len() && !reflexive_at(versions@, i as int),
        r.is_none(),
{
    let mut i: usize = 0;
    while i < versions.len()
        invariant
            i <= versions@.len(),
            forall|a: int| 0 <= a < i ==> reflexive_at(versions@, a),
        decreases versions.len() - i,
    {
        let v = &versions[i];
        if !same_verdict(compare_versions(v, v), Ordering::Equal) {
            proof {
                lemma_compare_reflexive(versions@[i as int]);
            }
            return Some(i);
        }
        i = i + 1;
    }
    proof {
        assert forall|a: int| 0 <= a < versions@.len() implies reflexive_at(versions@, a) by {
            lemma_compare_reflexive(versions@[a]);
        }
    }
    None
}

/// Checks that swapping any two versions mirrors the verdict; returns the
/// first pair that does not. None ever does.
pub fn test_antisymmetry(versions: &Vec<Version>) -> (r: Option<(usize, usize)>)
    ensures
        r.is_none() <==> forall|i: int, j: int|
            0 <= i < versions@.len() && 0 <= j < versions@.len() ==> antisymmetric_at(
                versions@,
                i,
                j,
            ),
        r matches Some((i, j)) ==> i < versions@.len() && j < versions@.len()
            && !antisymmetric_at(versions@, i as int, j as int),
        r.is_none(),
{
    let n = versions.len();
    let mut i: usize = 0;
    while i < n
        invariant
            n == versions@.len(),
            i <= n,
            forall|a: int, b: int| 0 <= a < i && 0 <= b < n ==> antisymmetric_at(versions@, a, b),
        decreases n - i,
    {
        let mut j: usize = 0;
        while j < n
            invariant
                n == versions@.len(),
                i < n,
                j <= n,
                forall|a: int, b: int|
                    0 <= a < i && 0 <= b < n ==> antisymmetric_at(versions@, a, b),
                forall|b: int| 0 <= b < j ==> antisymmetric_at(versions@, i as int, b),
            decreases n - j,
        {
            let ab = compare_versions(&versions[i], &versions[j]);
            let ba = compare_versions(&versions[j], &versions[i]);
            if !same_verdict(ab, mirror(ba)) {
                proof {
                    lemma_compare_antisymmetric(versions@[i as int], versions@[j as int]);
                }
                return Some((i, j));
            }
            j = j + 1;
        }
        i = i + 1;
    }
    proof {
        assert forall|a: int, b: int|
            0 <= a < n && 0 <= b < n implies antisymmetric_at(versions@, a, b) by {
            lemma_compare_antisymmetric(versions@[a], versions@[b]);
        }
    }
    None
}

/// Checks every triple of versions for transitivity, mixed chains included
/// (`Equal` then `Less` must give `Less`); returns the first triple that
/// breaks it. None does where no version holds an empty text segment.
pub fn test_transitivity(versions: &Vec<Version>) -> (r: Option<(usize, usize, usize)>)
    ensures
        r.is_none() <==> forall|i: int, j: int, k: int|
            0 <= i < versions@.len() && 0 <= j < versions@.len() && 0 <= k < versions@.len()
                ==> transitive_at(versions@, i, j, k),
        r matches Some((i, j, k)) ==> i < versions@.len() && j < versions@.len() && k
            < versions@.len() && !transitive_at(versions@, i as int, j as int, k as int),
        none_empty_text(versions@) ==> r.is_none(),
{
    let n = versions.len();
    let mut i: usize = 0;
    while i < n
        invariant
            n == versions@.len(),
            i <= n,
            forall|a: int, b: int, c: int|
                0 <= a < i && 0 <= b < n && 0 <= c < n ==> transitive_at(versions@, a, b, c),
        decreases n - i,
    {
        let mut j: usize = 0;
        while j < n
            invariant
                n == versions@.len(),
                i < n,
                j <= n,
                forall|a: int, b: int, c: int|
                    0 <= a < i && 0 <= b < n && 0 <= c < n ==> transitive_at(versions@, a, b, c),
                forall|b: int, c: int|
                    0 <= b < j && 0 <= c < n ==> transitive_at(versions@, i as int, b, c),
            decreases n - j,
        {
            let mut k: usize = 0;
            while k < n
                invariant
                    n == versions@.len(),
                    i < n,
                    j < n,
                    k <= n,
                    forall|a: int, b: int, c: int|
                        0 <= a < i && 0 <= b < n && 0 <= c < n ==> transitive_at(
                            versions@,
                            a,
                            b,
                            c,
                        ),
                    forall|b: int, c: int|
                        0 <= b < j && 0 <= c < n ==> transitive_at(versions@, i as int, b, c),
                    forall|c: int| 0 <= c < k ==> transitive_at(versions@, i as int, j as int, c),
                decreases n - k,
            {
                let ab = compare_versions(&versions[i], &versions[j]);
                let bc = compare_versions(&versions[j], &versions[k]);
                let ac = compare_versions(&versions[i], &versions[k]);
                let ok = is_chained(ab, bc, ac);
                if !ok {
                    proof {
                        assert(!transitive_at(versions@, i as int, j as int, k as int));
                        if none_empty_text(versions@) {
                            lemma_compare_transitive(
                                versions@[i as int],
                                versions@[j as int],
                                versions@[k as int],
                            );
                        }
                    }
                    return Some((i, j, k));
                }
                k = k + 1;
            }
            j = j + 1;
        }
        i = i + 1;
    }
    proof {
        if none_empty_text(versions@) {
            assert forall|a: int, b: int, c: int|
                0 <= a < n && 0 <= b < n && 0 <= c < n implies transitive_at(
                versions@,
                a,
                b,
                c,
            ) by {
                lemma_compare_transitive(versions@[a], versions@[b], versions@[c]);
            }
        }
    }
    None
}

/// Checks reflexivity, antisymmetry and transitivity in that order, and
/// returns the first violation found.
pub fn check_order_laws(versions: &Vec<Version>) -> (r: Result<(), LawViolation>)
    ensures
        r.is_ok() <==> forall|i: int, j: int, k: int|
            0 <= i < versions@.len() && 0 <= j < versions@.len() && 0 <= k < versions@.len()
                ==> transitive_at(versions@, i, j, k),
        r matches Err(LawViolation::Transitivity(i, j, k)) ==> i < versions@.len() && j
            < versions@.len() && k < versions@.len() && !transitive_at(
            versions@,
            i as int,
            j as int,
            k as int,
        ),
        !(r matches Err(LawViolation::Reflexivity(_))),
        !(r matches Err(LawViolation::Antisymmetry(_, _))),
        none_empty_text(versions@) ==> r.is_ok(),
{
    if let Some(i) = test_reflexivity(versions) {
        return Err(LawViolation::Reflexivity(i));
    }
    if let Some((i, j)) = test_antisymmetry(versions) {
        return Err(LawViolation::Antisymmetry(i, j));
    }
    match test_transitivity(versions) {
        Some((i, j, k)) => Err(LawViolation::Transitivity(i, j, k)),
        None => Ok(()),
    }
}

} // verus!
