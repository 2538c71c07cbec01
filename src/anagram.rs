use vstd::prelude::*;
use vstd::string::*;

verus! {

/// How many times `c` occurs in `s`.
pub open spec fn count_of(s: Seq<char>, c: char) -> nat
    decreases s.len(),
{
    if s.len() == 0 {
        0
    } else {
        count_of(s.drop_last(), c) + (if s.last() == c { 1nat } else { 0nat })
    }
}

/// `s` with every space removed, the other characters kept in order.
pub open spec fn without_spaces(s: Seq<char>) -> Seq<char>
    decreases s.len(),
{
    if s.len() == 0 {
        Seq::empty()
    } else if s.last() == ' ' {
        without_spaces(s.drop_last())
    } else {
        without_spaces(s.drop_last()).push(s.last())
    }
}

/// `a` and `b` hold every character the same number of times.
pub open spec fn same_counts(a: Seq<char>, b: Seq<char>) -> bool {
    forall|c: char| #[trigger] count_of(a, c) == count_of(b, c)
}

/// The lower-case form of a string, as Unicode defines it.
pub uninterp spec fn lower_of(s: Seq<char>) -> Seq<char>;

/// Relies on `str::to_lowercase`: its result depends on the characters alone.
#[verifier::external_body]
fn lowercase(s: &str) -> (r: String)
    ensures
        r@ == lower_of(s@),
{
    s.to_lowercase()
}

proof fn lemma_count_positive(s: Seq<char>, c: char)
    requires
        count_of(s, c) > 0,
    ensures
        exists|i: int| 0 <= i < s.len() && s[i] == c,
    decreases s.len(),
{
    if s.last() == c {
        assert(s[s.len() - 1] == c);
    } else {
        lemma_count_positive(s.drop_last(), c);
        let i = choose|i: int| 0 <= i < s.drop_last().len() && s.drop_last()[i] == c;
        assert(s[i] == c);
    }
}

proof fn lemma_count_bound(s: Seq<char>, c: char)
    ensures
        count_of(s, c) <= s.len(),
    decreases s.len(),
{
    if s.len() > 0 {
        lemma_count_bound(s.drop_last(), c);
    }
}

/// The characters of `s` other than spaces, in order.
fn chars_without_spaces(s: &str) -> (r: Vec<char>)
    ensures
        r@ == without_spaces(s@),
{
    let n = s.unicode_len();
    let mut r: Vec<char> = Vec::new();
    let mut i: usize = 0;
    while i < n
        invariant
            n == s@.len(),
            i <= n,
            r@ == without_spaces(s@.subrange(0, i as int)),
        decreases n - i,
    {
        let c = s.get_char(i);
        assert(s@.subrange(0, i as int + 1).drop_last() =~= s@.subrange(0, i as int));
        if c != ' ' {
            r.push(c);
        }
        i = i + 1;
    }
    assert(s@.subrange(0, n as int) =~= s@);
    r
}

/// How many times `c` occurs in `v`.
pub(crate) fn count_in(v: &Vec<char>, c: char) -> (r: usize)
    ensures
        r == count_of(v@, c),
{
    let mut r: usize = 0;
    let mut i: usize = 0;
    while i < v.len()
        invariant
            i <= v@.len(),
            r == count_of(v@.subrange(0, i as int), c),
        decreases v@.len() - i,
    {
        assert(v@.subrange(0, i as int + 1).drop_last() =~= v@.subrange(0, i as int));
        proof {
            lemma_count_bound(v@.subrange(0, i as int), c);
        }
        if v[i] == c {
            r = r + 1;
        }
        i = i + 1;
    }
    assert(v@.subrange(0, v@.len() as int) =~= v@);
    r
}

/// Every character of `a` occurs as often in `b`.
fn counts_covered(a: &Vec<char>, b: &Vec<char>) -> (r: bool)
    ensures
        r == (forall|i: int| 0 <= i < a@.len() ==> count_of(a@, #[trigger] a@[i]) == count_of(b@, a@[i])),
{
    let mut i: usize = 0;
    while i < a.len()
        invariant
            i <= a@.len(),
            forall|j: int| 0 <= j < i ==> count_of(a@, #[trigger] a@[j]) == count_of(b@, a@[j]),
        decreases a@.len() - i,
    {
        if count_in(a, a[i]) != count_in(b, a[i]) {
            return false;
        }
        i = i + 1;
    }
    true
}

/// Whether `a` and `b`, spaces left out, use every character the same number of
/// times. Letter case counts: callers that ignore it lower both strings first.
pub fn same_letters(a: &str, b: &str) -> (r: bool)
    ensures
        r == same_counts(without_spaces(a@), without_spaces(b@)),
{
    let x = chars_without_spaces(a);
    let y = chars_without_spaces(b);
    let r = counts_covered(&x, &y) && counts_covered(&y, &x);
    proof {
        if r {
            assert forall|c: char| #[trigger] count_of(x@, c) == count_of(y@, c) by {
                if count_of(x@, c) > 0 {
                    lemma_count_positive(x@, c);
                } else if count_of(y@, c) > 0 {
                    lemma_count_positive(y@, c);
                }
            }
        }
    }
    r
}

/// Whether `s1` and `s2` are anagrams of each other once both are lower-cased and
/// their spaces are left out.
pub fn are_anagrams(s1: String, s2: String) -> (r: bool)
    ensures
        r == same_counts(without_spaces(lower_of(s1@)), without_spaces(lower_of(s2@))),
{
    let a = lowercase(s1.as_str());
    let b = lowercase(s2.as_str());
    same_letters(a.as_str(), b.as_str())
}

} // verus!
