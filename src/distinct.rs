use vstd::prelude::*;
use vstd::string::*;

verus! {

/// The pieces of `s` between the characters `sep`, in order: one more piece than
/// there are separators.
pub open spec fn split_on(s: Seq<char>, sep: char) -> Seq<Seq<char>>
    decreases s.len(),
{
    if s.len() == 0 {
        seq![Seq::empty()]
    } else {
        let p = split_on(s.drop_last(), sep);
        if s.last() == sep {
            p.push(Seq::empty())
        } else {
            p.update(p.len() - 1, p.last().push(s.last()))
        }
    }
}

/// Whether piece `i` of `fs` is not empty and equals no piece before it.
pub open spec fn is_first_of_kind(fs: Seq<Seq<char>>, i: int) -> bool {
    fs[i].len() > 0 && forall|j: int| 0 <= j < i ==> fs[j] != fs[i]
}

/// How many of the first `k` pieces are the first non-empty piece of their text: the
/// number of different non-empty texts among them.
pub open spec fn distinct_count(fs: Seq<Seq<char>>, k: nat) -> nat
    decreases k,
{
    if k == 0 {
        0
    } else {
        distinct_count(fs, (k - 1) as nat) + (if is_first_of_kind(fs, k - 1) { 1nat } else { 0nat })
    }
}

proof fn lemma_distinct_count_bound(fs: Seq<Seq<char>>, k: nat)
    ensures
        distinct_count(fs, k) <= k,
    decreases k,
{
    if k > 0 {
        lemma_distinct_count_bound(fs, (k - 1) as nat);
    }
}

/// The pieces of `s` between the characters `sep`.
pub(crate) fn split_at_char(s: &str, sep: char) -> (r: Vec<Vec<char>>)
    ensures
        r@.map_values(|v: Vec<char>| v@) == split_on(s@, sep),
{
    let n = s.unicode_len();
    let mut done: Vec<Vec<char>> = Vec::new();
    let mut cur: Vec<char> = Vec::new();
    let mut i: usize = 0;
    while i < n
        invariant
            n == s@.len(),
            i <= n,
            done@.map_values(|v: Vec<char>| v@).push(cur@) == split_on(s@.subrange(0, i as int), sep),
        decreases n - i,
    {
        let c = s.get_char(i);
        let ghost pre = s@.subrange(0, i as int);
        assert(s@.subrange(0, i as int + 1).drop_last() =~= pre);
        let ghost before = done@.map_values(|v: Vec<char>| v@);
        if c == sep {
            let full = cur;
            cur = Vec::new();
            done.push(full);
            assert(done@.map_values(|v: Vec<char>| v@) =~= before.push(full@));
            assert(done@.map_values(|v: Vec<char>| v@).push(cur@) =~= before.push(full@).push(Seq::empty()));
        } else {
            let ghost old_cur = cur@;
            cur.push(c);
            assert(done@.map_values(|v: Vec<char>| v@).push(cur@) =~= before.push(old_cur).update(
                before.len() as int,
                old_cur.push(c),
            ));
        }
        i = i + 1;
    }
    assert(s@.subrange(0, n as int) =~= s@);
    let ghost before = done@.map_values(|v: Vec<char>| v@);
    done.push(cur);
    assert(done@.map_values(|v: Vec<char>| v@) =~= before.push(cur@));
    done
}

/// Whether `a` and `b` hold the same characters.
fn same_chars(a: &Vec<char>, b: &Vec<char>) -> (r: bool)
    ensures
        r == (a@ == b@),
{
    if a.len() != b.len() {
        return false;
    }
    let mut i: usize = 0;
    while i < a.len()
        invariant
            a@.len() == b@.len(),
            i <= a@.len(),
            forall|j: int| 0 <= j < i ==> a@[j] == b@[j],
        decreases a@.len() - i,
    {
        if a[i] != b[i] {
            return false;
        }
        i = i + 1;
    }
    assert(a@ =~= b@);
    true
}

/// The number of different non-empty pieces between the commas of `input_str`.
pub fn new_count_distinct(input_str: &str) -> (r: usize)
    ensures
        r == distinct_count(split_on(input_str@, ','), split_on(input_str@, ',').len()),
{
    let fields = split_at_char(input_str, ',');
    let ghost fs = split_on(input_str@, ',');
    let m = fields.len();
    assert(fields@.map_values(|v: Vec<char>| v@).len() == m);
    let mut count: usize = 0;
    let mut i: usize = 0;
    while i < m
        invariant
            m == fields@.len(),
            fields@.map_values(|v: Vec<char>| v@) == fs,
            i <= m,
            count == distinct_count(fs, i as nat),
        decreases m - i,
    {
        assert(fs[i as int] == fields@[i as int]@);
        let mut seen = false;
        if fields[i].len() > 0 {
            let mut j: usize = 0;
            while j < i
                invariant
                    m == fields@.len(),
                    fields@.map_values(|v: Vec<char>| v@) == fs,
                    i < m,
                    j <= i,
                    seen == (exists|k: int| 0 <= k < j && fs[k] == fs[i as int]),
                decreases i - j,
            {
                assert(fs[j as int] == fields@[j as int]@);
                if same_chars(&fields[j], &fields[i]) {
                    seen = true;
                }
                j = j + 1;
            }
        }
        proof {
            lemma_distinct_count_bound(fs, i as nat);
            if fs[i as int].len() > 0 && !seen {
                assert forall|k: int| 0 <= k < i implies fs[k] != fs[i as int] by {
                    if fs[k] == fs[i as int] {
                        assert(exists|k2: int| 0 <= k2 < i && fs[k2] == fs[i as int]);
                    }
                }
            }
        }
        if fields[i].len() > 0 && !seen {
            count = count + 1;
        }
        i = i + 1;
    }
    count
}

} // verus!
