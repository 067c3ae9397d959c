use crate::segment::{
    chained, compare_part, flip, is_trivial, lemma_segment_cmp_chained, lemma_segment_cmp_mirror,
    lemma_segment_cmp_reflexive, segment_cmp, trivial, Segment,
};
use std::cmp::Ordering;
use vstd::prelude::*;

verus! {

/// A parsed version: its segments in the order they appear in the version
/// string, and that string as it was written.
#[derive(Debug)]
pub struct Version {
    pub text: String,
    pub segments: Vec<Segment>,
}

impl View for Version {
    type V = Seq<Segment>;

    open spec fn view(&self) -> Seq<Segment> {
        self.segments@
    }
}

impl Version {
    /// A version written as `text` and made of the given segments.
    pub fn new(text: String, segments: Vec<Segment>) -> (r: Version)
        ensures
            r@ == segments@,
            r.text == text,
    {
        Version { text, segments }
    }

    /// The version string as it was written.
    pub fn as_str(&self) -> (r: &str)
        ensures
            r@ == self.text@,
    {
        self.text.as_str()
    }

    /// The segments, in order.
    pub fn segments(&self) -> (r: &Vec<Segment>)
        ensures
            r@ == self@,
    {
        &self.segments
    }
}

/// Every segment of `s` is trivial.
pub open spec fn all_trivial(s: Seq<Segment>) -> bool {
    forall|i: int| 0 <= i < s.len() ==> trivial(#[trigger] s[i])
}

/// The order on versions: segments are compared in lockstep until one
/// differs; when one version runs out, the other's remaining segments decide,
/// `Equal` if all of them are trivial, and otherwise the longer one is greater.
pub open spec fn version_cmp(a: Seq<Segment>, b: Seq<Segment>) -> Ordering
    decreases a.len(),
{
    if a.len() == 0 {
        if all_trivial(b) {
            Ordering::Equal
        } else {
            Ordering::Less
        }
    } else if b.len() == 0 {
        if all_trivial(a) {
            Ordering::Equal
        } else {
            Ordering::Greater
        }
    } else if segment_cmp(a[0], b[0]) != Ordering::Equal {
        segment_cmp(a[0], b[0])
    } else {
        version_cmp(a.drop_first(), b.drop_first())
    }
}

/// What `version_compare::Version::from` parses a string into, as segments;
/// `None` where it rejects the string.
pub uninterp spec fn parsed_of(s: Seq<char>) -> Option<Seq<Segment>>;

/// Relies on `version_compare::Version::from`, read out through
/// `Version::parts`: the parts of a version string in order, or `None` where
/// the string is not a version. Its parser yields only numbers that fit an
/// `i32` and are not negative.
#[verifier::external_body]
fn parse_parts(s: &str) -> (r: Option<Vec<Segment>>)
    ensures
        r.is_some() == parsed_of(s@).is_some(),
        r.is_some() ==> r.unwrap()@ == parsed_of(s@).unwrap(),
{
    version_compare::Version::from(s).map(
        |v|
            v.parts().iter().map(
                |p|
                    match p {
                        version_compare::Part::Number(n) => Segment::Number(*n as u64),
                        version_compare::Part::Text(t) => Segment::Text(t.to_string()),
                    },
            ).collect(),
    )
}

/// Parses a version string into its segments; `None` where the string is not
/// a version.
pub fn parse_version(s: &str) -> (r: Option<Version>)
    ensures
        r.is_some() == parsed_of(s@).is_some(),
        r.is_some() ==> r.unwrap()@ == parsed_of(s@).unwrap() && r.unwrap().text@ == s@,
{
    match parse_parts(s) {
        Some(segments) => Some(Version::new(s.to_owned(), segments)),
        None => None,
    }
}

/// Whether every segment of `s` from `start` on is trivial.
fn trivial_from(s: &Vec<Segment>, start: usize) -> (r: bool)
    requires
        start <= s@.len(),
    ensures
        r == all_trivial(s@.skip(start as int)),
{
    let mut i: usize = start;
    while i < s.len()
        invariant
            start <= i <= s@.len(),
            forall|k: int| start <= k < i ==> trivial(#[trigger] s@[k]),
        decreases s.len() - i,
    {
        if !is_trivial(&s[i]) {
            assert(s@.skip(start as int)[i - start] == s@[i as int]);
            return false;
        }
        i = i + 1;
    }
    assert forall|k: int| 0 <= k < s@.skip(start as int).len() implies trivial(
        #[trigger] s@.skip(start as int)[k],
    ) by {
        assert(s@.skip(start as int)[k] == s@[start + k]);
    }
    true
}

/// Compares two versions segment by segment; where one runs out, the other's
/// remaining segments decide: `Equal` if they are all zero or empty, else the
/// longer version is greater.
pub fn compare_versions(a: &Version, b: &Version) -> (r: Ordering)
    ensures
        r == version_cmp(a@, b@),
{
    let sa = &a.segments;
    let sb = &b.segments;
    let mut i: usize = 0;
    assert(sa@.skip(0) =~= sa@ && sb@.skip(0) =~= sb@);
    while i < sa.len() && i < sb.len()
        invariant
            sa@ == a@,
            sb@ == b@,
            i <= sa@.len(),
            i <= sb@.len(),
            version_cmp(sa@, sb@) == version_cmp(sa@.skip(i as int), sb@.skip(i as int)),
        decreases sa.len() - i,
    {
        let c = compare_part(&sa[i], &sb[i]);
        assert(sa@.skip(i as int)[0] == sa@[i as int] && sb@.skip(i as int)[0] == sb@[i as int]);
        match c {
            Ordering::Equal => {},
            _ => {
                assert(version_cmp(sa@.skip(i as int), sb@.skip(i as int)) == c);
                return c;
            },
        }
        assert(sa@.skip(i as int).drop_first() =~= sa@.skip(i + 1));
        assert(sb@.skip(i as int).drop_first() =~= sb@.skip(i + 1));
        i = i + 1;
    }
    if i < sa.len() {
        if trivial_from(sa, i) {
            Ordering::Equal
        } else {
            Ordering::Greater
        }
    } else if i < sb.len() {
        if trivial_from(sb, i) {
            Ordering::Equal
        } else {
            Ordering::Less
        }
    } else {
        Ordering::Equal
    }
}

/// No segment of `s` is the empty text.
pub open spec fn no_empty_text(s: Seq<Segment>) -> bool {
    forall|i: int|
        0 <= i < s.len() ==> match #[trigger] s[i] {
            Segment::Text(t) => t@.len() > 0,
            Segment::Number(_) => true,
        }
}

/// The first segment of `s`, or zero past its end.
spec fn head_or_zero(s: Seq<Segment>) -> Segment {
    if s.len() > 0 {
        s[0]
    } else {
        Segment::Number(0)
    }
}

/// `s` without its first segment; empty stays empty.
spec fn rest(s: Seq<Segment>) -> Seq<Segment> {
    if s.len() > 0 {
        s.drop_first()
    } else {
        s
    }
}

/// Lockstep comparison of both versions padded with zeros without end.
spec fn padded_cmp(a: Seq<Segment>, b: Seq<Segment>) -> Ordering
    decreases a.len() + b.len(),
{
    if a.len() == 0 && b.len() == 0 {
        Ordering::Equal
    } else if segment_cmp(head_or_zero(a), head_or_zero(b)) != Ordering::Equal {
        segment_cmp(head_or_zero(a), head_or_zero(b))
    } else {
        padded_cmp(rest(a), rest(b))
    }
}

proof fn lemma_padded_cmp_unfold(a: Seq<Segment>, b: Seq<Segment>)
    ensures
        padded_cmp(a, b) == if segment_cmp(head_or_zero(a), head_or_zero(b)) != Ordering::Equal {
            segment_cmp(head_or_zero(a), head_or_zero(b))
        } else {
            padded_cmp(rest(a), rest(b))
        },
{
    if a.len() == 0 && b.len() == 0 {
        lemma_segment_cmp_reflexive(Segment::Number(0));
    }
}

proof fn lemma_padded_cmp_mirror(a: Seq<Segment>, b: Seq<Segment>)
    ensures
        padded_cmp(a, b) == flip(padded_cmp(b, a)),
    decreases a.len() + b.len(),
{
    lemma_segment_cmp_mirror(head_or_zero(a), head_or_zero(b));
    if !(a.len() == 0 && b.len() == 0) {
        lemma_padded_cmp_mirror(rest(a), rest(b));
    }
}

proof fn lemma_padded_cmp_chained(a: Seq<Segment>, b: Seq<Segment>, c: Seq<Segment>)
    ensures
        chained(padded_cmp(a, b), padded_cmp(b, c), padded_cmp(a, c)),
    decreases a.len() + b.len() + c.len(),
{
    if !(a.len() == 0 && b.len() == 0 && c.len() == 0) {
        lemma_padded_cmp_unfold(a, b);
        lemma_padded_cmp_unfold(b, c);
        lemma_padded_cmp_unfold(a, c);
        lemma_segment_cmp_chained(head_or_zero(a), head_or_zero(b), head_or_zero(c));
        lemma_padded_cmp_chained(rest(a), rest(b), rest(c));
    }
}

/// Against nothing, a version without empty texts is equal when all its
/// segments are zero and greater otherwise.
proof fn lemma_padded_cmp_against_empty(e: Seq<Segment>, b: Seq<Segment>)
    requires
        e.len() == 0,
        no_empty_text(b),
    ensures
        padded_cmp(e, b) == if all_trivial(b) {
            Ordering::Equal
        } else {
            Ordering::Less
        },
    decreases b.len(),
{
    if b.len() > 0 {
        let r = b.drop_first();
        assert(no_empty_text(r)) by {
            assert forall|i: int| 0 <= i < r.len() implies #[trigger] r[i] == b[i + 1] by {}
        }
        lemma_padded_cmp_against_empty(e, r);
        assert(all_trivial(b) == (trivial(b[0]) && all_trivial(r))) by {
            if trivial(b[0]) && all_trivial(r) {
                assert forall|i: int| 0 <= i < b.len() implies trivial(#[trigger] b[i]) by {
                    if i > 0 {
                        assert(b[i] == r[i - 1]);
                    }
                }
            }
            if all_trivial(b) {
                assert forall|i: int| 0 <= i < r.len() implies trivial(#[trigger] r[i]) by {
                    assert(r[i] == b[i + 1]);
                }
            }
        }
    }
}

/// Where no empty text takes part, the trailing rule is the same as padding
/// both versions with zeros.
proof fn lemma_version_cmp_is_padded(a: Seq<Segment>, b: Seq<Segment>)
    requires
        no_empty_text(a),
        no_empty_text(b),
    ensures
        version_cmp(a, b) == padded_cmp(a, b),
    decreases a.len(),
{
    if a.len() == 0 {
        lemma_padded_cmp_against_empty(a, b);
    } else if b.len() == 0 {
        lemma_padded_cmp_against_empty(b, a);
        lemma_padded_cmp_mirror(a, b);
    } else {
        let (ra, rb) = (a.drop_first(), b.drop_first());
        assert forall|i: int| 0 <= i < ra.len() implies #[trigger] ra[i] == a[i + 1] by {}
        assert forall|i: int| 0 <= i < rb.len() implies #[trigger] rb[i] == b[i + 1] by {}
        lemma_version_cmp_is_padded(ra, rb);
    }
}

/// Every version compares equal to itself.
pub proof fn lemma_compare_reflexive(v: Version)
    ensures
        version_cmp(v@, v@) == Ordering::Equal,
{
    lemma_version_cmp_reflexive(v@);
}

proof fn lemma_version_cmp_reflexive(s: Seq<Segment>)
    ensures
        version_cmp(s, s) == Ordering::Equal,
    decreases s.len(),
{
    if s.len() > 0 {
        lemma_segment_cmp_reflexive(s[0]);
        lemma_version_cmp_reflexive(s.drop_first());
    }
}

/// Comparing the other way round gives the opposite verdict, and equal
/// stays equal.
pub proof fn lemma_compare_antisymmetric(a: Version, b: Version)
    ensures
        version_cmp(a@, b@) == flip(version_cmp(b@, a@)),
{
    lemma_version_cmp_mirror(a@, b@);
}

proof fn lemma_version_cmp_mirror(a: Seq<Segment>, b: Seq<Segment>)
    ensures
        version_cmp(a, b) == flip(version_cmp(b, a)),
    decreases a.len(),
{
    if a.len() > 0 && b.len() > 0 {
        lemma_segment_cmp_mirror(a[0], b[0]);
        lemma_version_cmp_mirror(a.drop_first(), b.drop_first());
    }
}

/// The order is transitive on versions without empty text segments (which
/// the parser never yields): two equal verdicts carry over, and an `Equal`
/// on one side passes the other verdict on. With an empty text it is not:
/// `[0]` and `[""]` both equal the empty version, yet `[0]` is less.
pub proof fn lemma_compare_transitive(a: Version, b: Version, c: Version)
    requires
        no_empty_text(a@),
        no_empty_text(b@),
        no_empty_text(c@),
    ensures
        chained(version_cmp(a@, b@), version_cmp(b@, c@), version_cmp(a@, c@)),
{
    lemma_version_cmp_is_padded(a@, b@);
    lemma_version_cmp_is_padded(b@, c@);
    lemma_version_cmp_is_padded(a@, c@);
    lemma_padded_cmp_chained(a@, b@, c@);
}

} // verus!
