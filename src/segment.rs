use std::cmp::Ordering;
use vstd::prelude::*;

verus! {

/// One typed component of a version: a run of digits read as a number, or a
/// run of other characters.
#[derive(Debug, PartialEq, Eq)]
pub enum Segment {
    Number(u64),
    Text(String),
}

/// What `str::to_lowercase` makes of a string.
pub uninterp spec fn lower_of(s: Seq<char>) -> Seq<char>;

/// Relies on `str::to_lowercase`: the lowered string depends on the input's
/// characters alone, and the empty string stays empty.
#[verifier::external_body]
fn lowercase_chars(s: &str) -> (r: Vec<char>)
    ensures
        r@ == lower_of(s@),
        s@.len() == 0 ==> r@.len() == 0,
{
    s.to_lowercase().chars().collect()
}

/// The mirror image of a verdict.
pub open spec fn flip(o: Ordering) -> Ordering {
    match o {
        Ordering::Less => Ordering::Greater,
        Ordering::Equal => Ordering::Equal,
        Ordering::Greater => Ordering::Less,
    }
}

/// Three-way comparison of two integers.
pub open spec fn int_cmp(x: int, y: int) -> Ordering {
    if x < y {
        Ordering::Less
    } else if x > y {
        Ordering::Greater
    } else {
        Ordering::Equal
    }
}

/// Lexicographic order over characters, by code point; a proper prefix
/// comes first.
pub open spec fn lex_cmp(a: Seq<char>, b: Seq<char>) -> Ordering
    decreases a.len(),
{
    if a.len() == 0 {
        if b.len() == 0 {
            Ordering::Equal
        } else {
            Ordering::Less
        }
    } else if b.len() == 0 {
        Ordering::Greater
    } else if a[0] != b[0] {
        int_cmp(a[0] as int, b[0] as int)
    } else {
        lex_cmp(a.drop_first(), b.drop_first())
    }
}

/// The order on segments: numbers by value, texts by their lowercase forms,
/// and every number before every text.
pub open spec fn segment_cmp(a: Segment, b: Segment) -> Ordering {
    match (a, b) {
        (Segment::Number(x), Segment::Number(y)) => int_cmp(x as int, y as int),
        (Segment::Text(x), Segment::Text(y)) => lex_cmp(lower_of(x@), lower_of(y@)),
        (Segment::Number(_), Segment::Text(_)) => Ordering::Less,
        (Segment::Text(_), Segment::Number(_)) => Ordering::Greater,
    }
}

/// A segment that trailing comparison ignores: zero, or the empty text.
pub open spec fn trivial(s: Segment) -> bool {
    match s {
        Segment::Number(n) => n == 0,
        Segment::Text(t) => t@.len() == 0,
    }
}

/// The three verdicts `ab`, `bc` and `ac` for pairs of `a`, `b`, `c` fit a
/// total preorder: two equal verdicts carry over to `ac`, and an `Equal` on
/// one side passes the other verdict on.
pub open spec fn chained(ab: Ordering, bc: Ordering, ac: Ordering) -> bool {
    &&& ab == Ordering::Equal ==> ac == bc
    &&& bc == Ordering::Equal ==> ac == ab
    &&& ab == bc ==> ac == ab
}

proof fn lemma_lex_cmp_mirror(a: Seq<char>, b: Seq<char>)
    ensures
        lex_cmp(a, b) == flip(lex_cmp(b, a)),
    decreases a.len(),
{
    if a.len() > 0 && b.len() > 0 && a[0] == b[0] {
        lemma_lex_cmp_mirror(a.drop_first(), b.drop_first());
    }
}

proof fn lemma_lex_cmp_reflexive(a: Seq<char>)
    ensures
        lex_cmp(a, a) == Ordering::Equal,
    decreases a.len(),
{
    if a.len() > 0 {
        lemma_lex_cmp_reflexive(a.drop_first());
    }
}

proof fn lemma_lex_cmp_chained(a: Seq<char>, b: Seq<char>, c: Seq<char>)
    ensures
        chained(lex_cmp(a, b), lex_cmp(b, c), lex_cmp(a, c)),
    decreases a.len(),
{
    if a.len() > 0 && b.len() > 0 && c.len() > 0 {
        lemma_lex_cmp_chained(a.drop_first(), b.drop_first(), c.drop_first());
    }
}

/// Swapping the two segments mirrors the verdict.
pub proof fn lemma_segment_cmp_mirror(a: Segment, b: Segment)
    ensures
        segment_cmp(a, b) == flip(segment_cmp(b, a)),
{
    if let (Segment::Text(x), Segment::Text(y)) = (a, b) {
        lemma_lex_cmp_mirror(lower_of(x@), lower_of(y@));
    }
}

/// Every segment compares equal to itself.
pub proof fn lemma_segment_cmp_reflexive(a: Segment)
    ensures
        segment_cmp(a, a) == Ordering::Equal,
{
    if let Segment::Text(x) = a {
        lemma_lex_cmp_reflexive(lower_of(x@));
    }
}

/// The verdicts on any three segments fit a total preorder.
pub proof fn lemma_segment_cmp_chained(a: Segment, b: Segment, c: Segment)
    ensures
        chained(segment_cmp(a, b), segment_cmp(b, c), segment_cmp(a, c)),
{
    if let (Segment::Text(x), Segment::Text(y), Segment::Text(z)) = (a, b, c) {
        lemma_lex_cmp_chained(lower_of(x@), lower_of(y@), lower_of(z@));
    }
}

/// Two numbers compare as their integer values do.
pub proof fn lemma_numbers_by_value(x: u64, y: u64)
    ensures
        segment_cmp(Segment::Number(x), Segment::Number(y)) == int_cmp(x as int, y as int),
{
}

/// Texts compare by their lowercase forms alone: texts that lower to the same
/// string are equal, and each compares to a third text as the other does.
pub proof fn lemma_text_case_insensitive(s: String, t: String, u: String)
    requires
        lower_of(s@) == lower_of(t@),
    ensures
        segment_cmp(Segment::Text(s), Segment::Text(t)) == Ordering::Equal,
        segment_cmp(Segment::Text(s), Segment::Text(u)) == segment_cmp(
            Segment::Text(t),
            Segment::Text(u),
        ),
{
    lemma_lex_cmp_reflexive(lower_of(s@));
}

/// A number comes before any text, zero and the empty text included.
pub proof fn lemma_number_before_text(n: u64, s: String)
    ensures
        segment_cmp(Segment::Number(n), Segment::Text(s)) == Ordering::Less,
        segment_cmp(Segment::Text(s), Segment::Number(n)) == Ordering::Greater,
{
}

/// Compares two character sequences lexicographically.
fn compare_chars(a: &Vec<char>, b: &Vec<char>) -> (r: Ordering)
    ensures
        r == lex_cmp(a@, b@),
{
    let mut i: usize = 0;
    assert(a@.skip(0) =~= a@ && b@.skip(0) =~= b@);
    while i < a.len() && i < b.len()
        invariant
            i <= a@.len(),
            i <= b@.len(),
            lex_cmp(a@, b@) == lex_cmp(a@.skip(i as int), b@.skip(i as int)),
        decreases a.len() - i,
    {
        let x = a[i];
        let y = b[i];
        assert(a@.skip(i as int)[0] == x && b@.skip(i as int)[0] == y);
        if x < y {
            return Ordering::Less;
        } else if x > y {
            return Ordering::Greater;
        }
        assert(a@.skip(i as int).drop_first() =~= a@.skip(i + 1));
        assert(b@.skip(i as int).drop_first() =~= b@.skip(i + 1));
        i = i + 1;
    }
    if i < a.len() {
        Ordering::Greater
    } else if i < b.len() {
        Ordering::Less
    } else {
        Ordering::Equal
    }
}

/// Compares two segments: numbers by value, texts case-insensitively, and a
/// number before any text.
pub fn compare_part(a: &Segment, b: &Segment) -> (r: Ordering)
    ensures
        r == segment_cmp(*a, *b),
{
    match (a, b) {
        (Segment::Number(x), Segment::Number(y)) => {
            if *x < *y {
                Ordering::Less
            } else if *x > *y {
                Ordering::Greater
            } else {
                Ordering::Equal
            }
        },
        (Segment::Text(x), Segment::Text(y)) => {
            let x_lower = lowercase_chars(x.as_str());
            let y_lower = lowercase_chars(y.as_str());
            compare_chars(&x_lower, &y_lower)
        },
        (Segment::Number(_), Segment::Text(_)) => Ordering::Less,
        (Segment::Text(_), Segment::Number(_)) => Ordering::Greater,
    }
}

/// Whether a segment is zero or the empty text.
pub fn is_trivial(part: &Segment) -> (r: bool)
    ensures
        r == trivial(*part),
{
    match part {
        Segment::Number(n) => *n == 0,
        Segment::Text(s) => s.as_str().is_empty(),
    }
}

} // verus!
