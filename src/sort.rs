use crate::laws::none_empty_text;
use crate::version::no_empty_text;
use crate::segment::chained;
use crate::version::{
    compare_versions, lemma_compare_antisymmetric, lemma_compare_transitive, version_cmp, Version,
};
use std::cmp::Ordering;
use vstd::multiset::Multiset;
use vstd::prelude::*;

verus! {

/// Each version in `vs` is at most the next one.
pub open spec fn sorted(vs: Seq<Version>) -> bool {
    forall|i: int|
        0 <= i < vs.len() - 1 ==> #[trigger] version_cmp(vs[i]@, vs[i + 1]@) != Ordering::Greater
}

/// Every version in `vs` is at most every later one.
pub open spec fn sorted_pairwise(vs: Seq<Version>) -> bool {
    forall|i: int, j: int|
        0 <= i < j < vs.len() ==> #[trigger] version_cmp(vs[i]@, vs[j]@) != Ordering::Greater
}

/// Where no version holds an empty text segment, a list in which each
/// version is at most the next has each version at most every later one.
pub proof fn lemma_sorted_pairwise(vs: Seq<Version>)
    requires
        sorted(vs),
        none_empty_text(vs),
    ensures
        sorted_pairwise(vs),
{
    assert forall|i: int, j: int| 0 <= i < j < vs.len() implies #[trigger] version_cmp(
        vs[i]@,
        vs[j]@,
    ) != Ordering::Greater by {
        lemma_sorted_from(vs, i, j);
    }
}

proof fn lemma_sorted_from(vs: Seq<Version>, i: int, j: int)
    requires
        sorted(vs),
        none_empty_text(vs),
        0 <= i < j < vs.len(),
    ensures
        version_cmp(vs[i]@, vs[j]@) != Ordering::Greater,
    decreases j - i,
{
    let k = j - 1;
    assert(version_cmp(vs[k]@, vs[k + 1]@) != Ordering::Greater);
    if i < k {
        lemma_sorted_from(vs, i, k);
        lemma_compare_transitive(vs[i], vs[k], vs[j]);
        assert(chained(version_cmp(vs[i]@, vs[k]@), version_cmp(vs[k]@, vs[j]@), version_cmp(vs[i]@, vs[j]@)));
    }
}

fn goes_after(a: &Version, b: &Version) -> (r: bool)
    ensures
        r == (version_cmp(a@, b@) == Ordering::Greater),
{
    match compare_versions(a, b) {
        Ordering::Greater => true,
        _ => false,
    }
}

proof fn lemma_insert_to_multiset<A>(s: Seq<A>, j: int, x: A)
    requires
        0 <= j <= s.len(),
    ensures
        s.insert(j, x).to_multiset() == s.to_multiset().insert(x),
{
    broadcast use vstd::seq_lib::group_to_multiset_ensures;

    let t = s.insert(j, x);
    assert(t.remove(j) =~= s);
    assert(t[j] == x);
    assert(t.to_multiset() =~= s.to_multiset().insert(x));
}

proof fn lemma_remove_first_to_multiset<A>(s: Seq<A>)
    requires
        s.len() > 0,
    ensures
        s.remove(0).to_multiset().insert(s[0]) == s.to_multiset(),
{
    broadcast use vstd::seq_lib::group_to_multiset_ensures;

    assert(s.contains(s[0]));
    assert(s.remove(0).to_multiset().insert(s[0]) =~= s.to_multiset());
}

/// Inserts `x` into the sorted `out` after every version that is at most
/// `x`, so that `out` stays sorted.
fn insert_sorted(out: &mut Vec<Version>, x: Version)
    requires
        sorted(old(out)@),
    ensures
        final(out)@.to_multiset() == old(out)@.to_multiset().insert(x),
        final(out)@.len() == old(out)@.len() + 1,
        sorted(final(out)@),
        old(out)@.len() == 0 || version_cmp(old(out)@.last()@, x@) != Ordering::Greater
            ==> final(out)@ == old(out)@.push(x),
{
    let ghost old_out = out@;
    let mut j: usize = out.len();
    while j > 0 && goes_after(&out[j - 1], &x)
        invariant
            out@ == old_out,
            j <= out@.len(),
            forall|k: int|
                j <= k < out@.len() ==> version_cmp(#[trigger] out@[k]@, x@) == Ordering::Greater,
            old_out.len() == 0 || version_cmp(old_out.last()@, x@) != Ordering::Greater ==> j
                == out@.len(),
        decreases j,
    {
        j = j - 1;
    }
    proof {
        if j < out@.len() {
            lemma_compare_antisymmetric(out@[j as int], x);
        }
    }
    out.insert(j, x);
    proof {
        lemma_insert_to_multiset(old_out, j as int, x);
        assert forall|i: int| 0 <= i < out@.len() - 1 implies #[trigger] version_cmp(
            out@[i]@,
            out@[i + 1]@,
        ) != Ordering::Greater by {
            if i + 1 < j {
                assert(out@[i] == old_out[i] && out@[i + 1] == old_out[i + 1]);
                assert(version_cmp(old_out[i]@, old_out[i + 1]@) != Ordering::Greater);
            } else if i + 1 == j {
                assert(out@[i] == old_out[i]);
            } else if i == j {
                assert(out@[i + 1] == old_out[i]);
            } else {
                assert(out@[i] == old_out[i - 1] && out@[i + 1] == old_out[i]);
                let k = i - 1;
                assert(version_cmp(old_out[k]@, old_out[k + 1]@) != Ordering::Greater);
            }
        }
        if j == old_out.len() {
            assert(out@ =~= old_out.push(x));
        }
    }
}

/// Sorts versions into ascending order by `compare_versions`. The sort is
/// stable: equal versions keep their order, so a sorted input comes back as
/// it was.
pub fn sort_versions(versions: Vec<Version>) -> (r: Vec<Version>)
    ensures
        r@.to_multiset() == versions@.to_multiset(),
        sorted(r@),
        sorted(versions@) ==> r@ == versions@,
        none_empty_text(versions@) ==> sorted_pairwise(r@),
{
    let ghost input = versions@;
    let mut rest = versions;
    let mut out: Vec<Version> = Vec::new();
    proof {
        broadcast use vstd::seq_lib::group_to_multiset_ensures;

        assert(out@.to_multiset() =~= Multiset::empty());
        assert(rest@.skip(0) =~= rest@);
    }
    while rest.len() > 0
        invariant
            out@.to_multiset().add(rest@.to_multiset()) == input.to_multiset(),
            sorted(out@),
            out@.len() + rest@.len() == input.len(),
            sorted(input) ==> out@ == input.subrange(0, out@.len() as int) && rest@ == input.skip(
                out@.len() as int,
            ),
        decreases rest.len(),
    {
        let ghost old_out = out@;
        let ghost old_rest = rest@;
        let x = rest.remove(0);
        proof {
            lemma_remove_first_to_multiset(old_rest);
            if sorted(input) && old_out.len() > 0 {
                let m = old_out.len() as int;
                assert(old_out.last() == input[m - 1]);
                assert(x == input[m]);
                let k = m - 1;
                assert(version_cmp(input[k]@, input[k + 1]@) != Ordering::Greater);
            }
        }
        insert_sorted(&mut out, x);
        proof {
            assert(out@.to_multiset().add(rest@.to_multiset()) =~= input.to_multiset());
            if sorted(input) {
                assert(out@ =~= input.subrange(0, out@.len() as int));
                assert(rest@ =~= input.skip(out@.len() as int));
            }
        }
    }
    proof {
        if sorted(input) {
            assert(out@ =~= input);
        }
        if none_empty_text(input) {
            assert(none_empty_text(out@)) by {
                assert forall|i: int| 0 <= i < out@.len() implies no_empty_text(
                    #[trigger] out@[i]@,
                ) by {
                    broadcast use vstd::seq_lib::group_to_multiset_ensures;

                    assert(out@.contains(out@[i]));
                    assert(out@.to_multiset() == input.to_multiset());
                    assert(input.to_multiset().count(out@[i]) > 0);
                    assert(input.contains(out@[i]));
                    let j = choose|j: int| 0 <= j < input.len() && input[j] == out@[i];
                    assert(no_empty_text(input[j]@));
                }
            }
            lemma_sorted_pairwise(out@);
        }
    }
    out
}

} // verus!
