use vstd::prelude::*;
use crate::base::{chars_of, find_first, first_pos, string_from_chars};
use crate::distinct::{split_at_char, split_on};
use crate::calendar::join_fields;
use crate::provinces::{batch_view, district_counts, districts_view, provinces_report, Links};

verus! {

/// What one line of a district file says.
pub enum Line {
    /// Nothing: blank, a brace, or not of the form `city: [...]`.
    Skip,
    /// `"key": {` opens the batch `key`.
    Batch(String),
    /// `"city": ["a", "b"]` links `city` to `a` and `b`.
    City(String, Vec<String>),
}

/// The white space that `str::trim` removes: the characters with the Unicode
/// `White_Space` property.
pub open spec fn is_space(c: char) -> bool {
    let x = c as u32;
    (0x9 <= x <= 0xD) || x == 0x20 || x == 0x85 || x == 0xA0 || x == 0x1680 || (0x2000 <= x
        <= 0x200A) || x == 0x2028 || x == 0x2029 || x == 0x202F || x == 0x205F || x == 0x3000
}

/// `s` without the characters at its front that are white space (with `ws`) or `c`
/// (without).
pub open spec fn strip_front(s: Seq<char>, ws: bool, c: char) -> Seq<char>
    decreases s.len(),
{
    if s.len() > 0 && (if ws { is_space(s[0]) } else { s[0] == c }) {
        strip_front(s.drop_first(), ws, c)
    } else {
        s
    }
}

/// `s` without the characters at its end that are white space (with `ws`) or `c`
/// (without).
pub open spec fn strip_back(s: Seq<char>, ws: bool, c: char) -> Seq<char>
    decreases s.len(),
{
    if s.len() > 0 && (if ws { is_space(s.last()) } else { s.last() == c }) {
        strip_back(s.drop_last(), ws, c)
    } else {
        s
    }
}

/// `s` without white space at both ends, as `str::trim` gives it.
pub open spec fn trim_spaces(s: Seq<char>) -> Seq<char> {
    strip_back(strip_front(s, true, ' '), true, ' ')
}

/// `s` without the character `c` at both ends, as `str::trim_matches(c)` gives it.
pub open spec fn trim_char(s: Seq<char>, c: char) -> Seq<char> {
    strip_back(strip_front(s, false, c), false, c)
}

/// `s` holds `: {` somewhere.
pub open spec fn opens_batch(s: Seq<char>) -> bool {
    exists|i: int| 0 <= i && i + 2 < s.len() && #[trigger] s[i] == ':' && s[i + 1] == ' ' && s[i + 2]
        == '{'
}

/// A name: trimmed, then without quotes at its ends.
pub open spec fn name_of(s: Seq<char>) -> Seq<char> {
    trim_char(trim_spaces(s), '"')
}

/// The list part of a city line, trimmed of spaces, then of `,`, `[`, `]` and `"` in turn.
pub open spec fn list_of(s: Seq<char>) -> Seq<char> {
    trim_char(trim_char(trim_char(trim_char(trim_spaces(s), ','), '['), ']'), '"')
}

/// What the line `line` says, as its text.
pub enum LineSpec {
    Skip,
    Batch(Seq<char>),
    City(Seq<char>, Seq<Seq<char>>),
}

/// The meaning of a line of a district file.
pub open spec fn line_spec(line: Seq<char>) -> LineSpec {
    let t = trim_spaces(line);
    if t.len() == 0 || t[0] == '{' {
        LineSpec::Skip
    } else if opens_batch(t) {
        LineSpec::Batch(name_of(t.subrange(0, first_pos(t, ':'))))
    } else if t[0] == '}' {
        LineSpec::Skip
    } else {
        let parts = split_on(t, ':');
        if parts.len() != 2 {
            LineSpec::Skip
        } else {
            let vs = list_of(parts[1]);
            LineSpec::City(
                name_of(parts[0]),
                if vs.len() == 0 {
                    Seq::empty()
                } else {
                    split_on(vs, ',').map_values(|v: Seq<char>| name_of(v))
                },
            )
        }
    }
}

/// The text of a parsed line.
pub open spec fn line_view(l: Line) -> LineSpec {
    match l {
        Line::Skip => LineSpec::Skip,
        Line::Batch(k) => LineSpec::Batch(k@),
        Line::City(k, vs) => LineSpec::City(k@, vs@.map_values(|v: String| v@)),
    }
}

/// Whether `c` is white space.
fn is_space_char(c: char) -> (r: bool)
    ensures
        r == is_space(c),
{
    let x = c as u32;
    (0x9 <= x && x <= 0xD) || x == 0x20 || x == 0x85 || x == 0xA0 || x == 0x1680 || (0x2000 <= x
        && x <= 0x200A) || x == 0x2028 || x == 0x2029 || x == 0x202F || x == 0x205F || x == 0x3000
}

/// Whether `c` is to be trimmed: white space with `ws`, else equal to `t`.
fn trimmed_off(c: char, ws: bool, t: char) -> (r: bool)
    ensures
        r == (if ws { is_space(c) } else { c == t }),
{
    if ws {
        is_space_char(c)
    } else {
        c == t
    }
}

/// `s` without white space (with `ws`) or `c` (without) at both ends.
fn trim_ends(s: &Vec<char>, ws: bool, c: char) -> (r: Vec<char>)
    ensures
        r@ == strip_back(strip_front(s@, ws, c), ws, c),
{
    let n = s.len();
    let mut lo: usize = 0;
    assert(s@.subrange(0, n as int) =~= s@);
    while lo < n && trimmed_off(s[lo], ws, c)
        invariant
            n == s@.len(),
            lo <= n,
            strip_front(s@, ws, c) == strip_front(s@.subrange(lo as int, n as int), ws, c),
        decreases n - lo,
    {
        assert(s@.subrange(lo as int, n as int).drop_first() =~= s@.subrange(lo as int + 1, n as int));
        lo = lo + 1;
    }
    let ghost front = s@.subrange(lo as int, n as int);
    assert(strip_front(s@, ws, c) == front);
    let mut hi: usize = n;
    while hi > lo && trimmed_off(s[hi - 1], ws, c)
        invariant
            n == s@.len(),
            lo <= hi <= n,
            front == s@.subrange(lo as int, n as int),
            strip_back(front, ws, c) == strip_back(s@.subrange(lo as int, hi as int), ws, c),
        decreases hi,
    {
        assert(s@.subrange(lo as int, hi as int).drop_last() =~= s@.subrange(lo as int, hi as int - 1));
        hi = hi - 1;
    }
    let mut r: Vec<char> = Vec::new();
    let mut k: usize = lo;
    while k < hi
        invariant
            n == s@.len(),
            lo <= k <= hi,
            hi <= n,
            r@ == s@.subrange(lo as int, k as int),
        decreases hi - k,
    {
        r.push(s[k]);
        k = k + 1;
        assert(r@ =~= s@.subrange(lo as int, k as int));
    }
    r
}

/// Whether `t` holds `: {`.
fn has_batch_opening(t: &Vec<char>) -> (r: bool)
    ensures
        r == opens_batch(t@),
{
    let n = t.len();
    let mut i: usize = 0;
    while i < n && n - i > 2
        invariant
            n == t@.len(),
            i <= n,
            forall|j: int| 0 <= j < i && j + 2 < n ==> !(#[trigger] t@[j] == ':' && t@[j + 1] == ' ' && t@[j + 2]
                == '{'),
        decreases n - i,
    {
        if t[i] == ':' && t[i + 1] == ' ' && t[i + 2] == '{' {
            return true;
        }
        i = i + 1;
    }
    false
}

/// A name: trimmed, then without quotes at its ends.
fn name_text(s: &Vec<char>) -> (r: String)
    ensures
        r@ == name_of(s@),
{
    let t = trim_ends(s, true, ' ');
    let u = trim_ends(&t, false, '"');
    string_from_chars(&u)
}

/// What one line of a district file says.
pub fn parse_line(line: &str) -> (r: Line)
    ensures
        line_view(r) == line_spec(line@),
{
    let raw = chars_of(line);
    let t = trim_ends(&raw, true, ' ');
    if t.len() == 0 || t[0] == '{' {
        return Line::Skip;
    }
    if has_batch_opening(&t) {
        let colon = match find_first(&t, ':') {
            Some(k) => k,
            None => {
                assert(false) by {
                    let i = choose|i: int| 0 <= i && i + 2 < t@.len() && #[trigger] t@[i] == ':' && t@[i + 1] == ' ' && t@[i + 2] == '{';
                    lemma_first_pos_found_at(t@, ':', i);
                }
                return Line::Skip;
            },
        };
        proof {
            crate::base::lemma_first_pos_bound(t@, ':');
        }
        let mut head: Vec<char> = Vec::new();
        let mut k: usize = 0;
        while k < colon
            invariant
                colon <= t@.len(),
                k <= colon,
                head@ == t@.subrange(0, k as int),
            decreases colon - k,
        {
            head.push(t[k]);
            k = k + 1;
            assert(head@ =~= t@.subrange(0, k as int));
        }
        return Line::Batch(name_text(&head));
    }
    if t[0] == '}' {
        return Line::Skip;
    }
    let ts = string_from_chars(&t);
    let parts = split_at_char(ts.as_str(), ':');
    if parts.len() != 2 {
        return Line::Skip;
    }
    let ghost ps = split_on(t@, ':');
    assert(parts@[0]@ == ps[0] && parts@[1]@ == ps[1]);
    let key = name_text(&parts[0]);
    let v1 = trim_ends(&parts[1], true, ' ');
    let v2 = trim_ends(&v1, false, ',');
    let v3 = trim_ends(&v2, false, '[');
    let v4 = trim_ends(&v3, false, ']');
    let vs = trim_ends(&v4, false, '"');
    let mut values: Vec<String> = Vec::new();
    if vs.len() > 0 {
        let vs_text = string_from_chars(&vs);
        let pieces = split_at_char(vs_text.as_str(), ',');
        let ghost sp = split_on(vs@, ',');
        let mut j: usize = 0;
        while j < pieces.len()
            invariant
                pieces@.map_values(|v: Vec<char>| v@) == sp,
                j <= pieces@.len(),
                values@.map_values(|v: String| v@) == sp.subrange(0, j as int).map_values(
                    |v: Seq<char>| name_of(v),
                ),
            decreases pieces@.len() - j,
        {
            assert(pieces@[j as int]@ == sp[j as int]);
            let name = name_text(&pieces[j]);
            let ghost before = values@.map_values(|v: String| v@);
            values.push(name);
            j = j + 1;
            assert(values@.map_values(|v: String| v@) =~= before.push(name@));
            assert(sp.subrange(0, j as int).map_values(|v: Seq<char>| name_of(v)) =~= sp.subrange(
                0,
                j as int - 1,
            ).map_values(|v: Seq<char>| name_of(v)).push(name_of(sp[j as int - 1])));
        }
        assert(sp.subrange(0, pieces@.len() as int) =~= sp);
    } else {
        assert(values@.map_values(|v: String| v@) =~= Seq::<Seq<char>>::empty());
    }
    Line::City(key, values)
}

proof fn lemma_first_pos_found_at(s: Seq<char>, c: char, i: int)
    requires
        0 <= i < s.len(),
        s[i] == c,
    ensures
        0 <= first_pos(s, c) <= i,
    decreases s.len(),
{
    if i < s.len() - 1 {
        lemma_first_pos_found_at(s.drop_last(), c, i);
    } else if first_pos(s.drop_last(), c) < 0 {
        crate::base::lemma_first_pos_bound(s.drop_last(), c);
    } else {
        crate::base::lemma_first_pos_bound(s.drop_last(), c);
    }
}

/// `a` comes before `b` in the order of `String`: character by character, a proper
/// prefix first.
pub open spec fn lex_lt(a: Seq<char>, b: Seq<char>) -> bool
    decreases a.len(),
{
    if a.len() == 0 {
        b.len() > 0
    } else if b.len() == 0 {
        false
    } else if a[0] != b[0] {
        a[0] < b[0]
    } else {
        lex_lt(a.drop_first(), b.drop_first())
    }
}

/// The first place of an entry named `k` among the first `n` entries of `s`, or -1.
pub open spec fn place_of<X>(s: Seq<(Seq<char>, X)>, k: Seq<char>, n: nat) -> int
    decreases n,
{
    if n == 0 || n > s.len() {
        -1
    } else if place_of(s, k, (n - 1) as nat) >= 0 {
        place_of(s, k, (n - 1) as nat)
    } else if s[n - 1].0 == k {
        n - 1
    } else {
        -1
    }
}

/// The place before which a new batch named `k` goes: the first whose name does not
/// come before `k`, else the end.
pub open spec fn insert_place<X>(s: Seq<(Seq<char>, X)>, k: Seq<char>, n: nat) -> int
    decreases n,
{
    if n == 0 || n > s.len() {
        0
    } else if insert_place(s, k, (n - 1) as nat) < n - 1 {
        insert_place(s, k, (n - 1) as nat)
    } else if lex_lt(s[n - 1].0, k) {
        n as int
    } else {
        n - 1
    }
}

/// Batches by name, each with its cities and their links, and the name of the batch
/// that city lines go to.
pub type Districts = Seq<(Seq<char>, Seq<Links>)>;

/// What one line does to the batches read so far and the current batch name; `None`
/// where a city line comes while no batch of the current name exists.
pub open spec fn apply_line(d: Districts, current: Seq<char>, l: LineSpec) -> Option<(Districts, Seq<char>)> {
    match l {
        LineSpec::Skip => Some((d, current)),
        LineSpec::Batch(k) => {
            let i = place_of(d, k, d.len());
            if i >= 0 {
                Some((d.update(i, (k, Seq::empty())), k))
            } else {
                Some((d.insert(insert_place(d, k, d.len()), (k, Seq::empty())), k))
            }
        },
        LineSpec::City(k, vs) => {
            let b = place_of(d, current, d.len());
            if b < 0 {
                None
            } else {
                let cities = d[b].1;
                let j = place_of(cities, k, cities.len());
                let cities2 = if j >= 0 {
                    cities.update(j, (k, cities[j].1 + vs))
                } else {
                    cities.push((k, vs))
                };
                Some((d.update(b, (current, cities2)), current))
            }
        },
    }
}

/// The batches that the first `n` lines give, with the current batch name; the name
/// starts empty.
pub open spec fn read_lines(lines: Seq<Seq<char>>, n: nat) -> Option<(Districts, Seq<char>)>
    decreases n,
{
    if n == 0 || n > lines.len() {
        Some((Seq::empty(), Seq::empty()))
    } else {
        match read_lines(lines, (n - 1) as nat) {
            Some((d, c)) => apply_line(d, c, line_spec(lines[n - 1])),
            None => None,
        }
    }
}


proof fn lemma_place_of_stays<X>(s: Seq<(Seq<char>, X)>, k: Seq<char>, m: nat, n: nat)
    requires
        m <= n <= s.len(),
        place_of(s, k, m) >= 0,
    ensures
        place_of(s, k, n) == place_of(s, k, m),
    decreases n,
{
    if m < n {
        lemma_place_of_stays(s, k, m, (n - 1) as nat);
    }
}

proof fn lemma_place_of_range<X>(s: Seq<(Seq<char>, X)>, k: Seq<char>, n: nat)
    ensures
        -1 <= place_of(s, k, n) < n,
        place_of(s, k, n) >= 0 ==> s[place_of(s, k, n)].0 == k,
    decreases n,
{
    if n > 0 && n <= s.len() {
        lemma_place_of_range(s, k, (n - 1) as nat);
    }
}

proof fn lemma_insert_place_stays<X>(s: Seq<(Seq<char>, X)>, k: Seq<char>, m: nat, n: nat)
    requires
        m <= n <= s.len(),
        insert_place(s, k, m) < m,
    ensures
        insert_place(s, k, n) == insert_place(s, k, m),
    decreases n,
{
    if m < n {
        lemma_insert_place_stays(s, k, m, (n - 1) as nat);
    }
}

proof fn lemma_insert_place_range<X>(s: Seq<(Seq<char>, X)>, k: Seq<char>, n: nat)
    ensures
        0 <= insert_place(s, k, n) <= n,
    decreases n,
{
    if n > 0 && n <= s.len() {
        lemma_insert_place_range(s, k, (n - 1) as nat);
    }
}

/// Whether `a` comes before `b`.
fn lex_less(a: &String, b: &String) -> (r: bool)
    ensures
        r == lex_lt(a@, b@),
{
    let x = chars_of(a.as_str());
    let y = chars_of(b.as_str());
    let mut i: usize = 0;
    assert(x@.subrange(0, x@.len() as int) =~= x@);
    assert(y@.subrange(0, y@.len() as int) =~= y@);
    while i < x.len() && i < y.len() && x[i] == y[i]
        invariant
            i <= x@.len(),
            i <= y@.len(),
            lex_lt(x@, y@) == lex_lt(x@.subrange(i as int, x@.len() as int), y@.subrange(
                i as int,
                y@.len() as int,
            )),
        decreases x@.len() - i,
    {
        assert(x@.subrange(i as int, x@.len() as int).drop_first() =~= x@.subrange(
            i as int + 1,
            x@.len() as int,
        ));
        assert(y@.subrange(i as int, y@.len() as int).drop_first() =~= y@.subrange(
            i as int + 1,
            y@.len() as int,
        ));
        i = i + 1;
    }
    proof {
        let xs = x@.subrange(i as int, x@.len() as int);
        let ys = y@.subrange(i as int, y@.len() as int);
        if i < x@.len() && i < y@.len() {
            assert(xs[0] == x@[i as int] && ys[0] == y@[i as int]);
        }
    }
    if i == x.len() {
        i < y.len()
    } else if i == y.len() {
        false
    } else {
        x[i] < y[i]
    }
}

/// The place of the batch named `k`.
fn find_batch(d: &Vec<(String, Vec<(String, Vec<String>)>)>, k: &String) -> (r: Option<usize>)
    ensures
        match r {
            Some(i) => place_of(districts_view(d@), k@, d@.len()) == i,
            None => place_of(districts_view(d@), k@, d@.len()) == -1,
        },
{
    let ghost dv = districts_view(d@);
    let mut i: usize = 0;
    while i < d.len()
        invariant
            dv == districts_view(d@),
            i <= d@.len(),
            place_of(dv, k@, i as nat) == -1,
        decreases d@.len() - i,
    {
        if d[i].0 == *k {
            assert(place_of(dv, k@, i as nat + 1) == i);
            proof {
                lemma_place_of_stays(dv, k@, i as nat + 1, d@.len() as nat);
            }
            return Some(i);
        }
        i = i + 1;
    }
    None
}

/// The place of the city named `k`.
fn find_city(c: &Vec<(String, Vec<String>)>, k: &String) -> (r: Option<usize>)
    ensures
        match r {
            Some(i) => place_of(batch_view(c@), k@, c@.len()) == i,
            None => place_of(batch_view(c@), k@, c@.len()) == -1,
        },
{
    let ghost cv = batch_view(c@);
    let mut i: usize = 0;
    while i < c.len()
        invariant
            cv == batch_view(c@),
            i <= c@.len(),
            place_of(cv, k@, i as nat) == -1,
        decreases c@.len() - i,
    {
        if c[i].0 == *k {
            assert(place_of(cv, k@, i as nat + 1) == i);
            proof {
                lemma_place_of_stays(cv, k@, i as nat + 1, c@.len() as nat);
            }
            return Some(i);
        }
        i = i + 1;
    }
    None
}

/// The place before which a new batch named `k` goes.
fn find_insert_place(d: &Vec<(String, Vec<(String, Vec<String>)>)>, k: &String) -> (r: usize)
    ensures
        r == insert_place(districts_view(d@), k@, d@.len()),
{
    let ghost dv = districts_view(d@);
    let mut i: usize = 0;
    while i < d.len() && lex_less(&d[i].0, k)
        invariant
            dv == districts_view(d@),
            i <= d@.len(),
            insert_place(dv, k@, i as nat) == i,
        decreases d@.len() - i,
    {
        i = i + 1;
    }
    if i < d.len() {
        assert(insert_place(dv, k@, i as nat + 1) == i);
        proof {
            lemma_insert_place_stays(dv, k@, i as nat + 1, d@.len() as nat);
        }
    }
    i
}

/// Reads the lines of a district file into batches sorted as they arrive by name: a
/// batch line starts a batch (emptying one of the same name), and a city line adds the
/// city and its links to the current batch, or lengthens the links of a city already
/// there. `None` where a city line comes before any batch line.
pub fn parse_district(lines: &Vec<String>) -> (r: Option<Vec<(String, Vec<(String, Vec<String>)>)>>)
    ensures
        match read_lines(lines@.map_values(|s: String| s@), lines@.len()) {
            Some((d, _)) => r is Some && districts_view(r->0@) == d,
            None => r is None,
        },
{
    let ghost lv = lines@.map_values(|s: String| s@);
    let mut data: Vec<(String, Vec<(String, Vec<String>)>)> = Vec::new();
    let mut current = String::new();
    let mut i: usize = 0;
    assert(districts_view(data@) =~= Seq::<(Seq<char>, Seq<Links>)>::empty());
    while i < lines.len()
        invariant
            lv == lines@.map_values(|s: String| s@),
            i <= lines@.len(),
            read_lines(lv, i as nat) == Some((districts_view(data@), current@)),
        decreases lines@.len() - i,
    {
        let ghost d0 = districts_view(data@);
        assert(lv[i as int] == lines@[i as int]@);
        let line = parse_line(lines[i].as_str());
        match line {
            Line::Skip => {},
            Line::Batch(k) => {
                match find_batch(&data, &k) {
                    Some(b) => {
                        proof {
                            lemma_place_of_range(d0, k@, d0.len());
                        }
                        let kc = k.clone();
                        let empty: Vec<(String, Vec<String>)> = Vec::new();
                        assert(kc@ == k@);
                        assert(batch_view(empty@) =~= Seq::<Links>::empty());
                        data.set(b, (kc, empty));
                        assert(districts_view(data@) =~= d0.update(b as int, (k@, Seq::empty())));
                    },
                    None => {
                        let at = find_insert_place(&data, &k);
                        proof {
                            lemma_insert_place_range(d0, k@, d0.len());
                        }
                        let kc = k.clone();
                        let empty: Vec<(String, Vec<String>)> = Vec::new();
                        assert(kc@ == k@);
                        assert(batch_view(empty@) =~= Seq::<Links>::empty());
                        data.insert(at, (kc, empty));
                        assert(districts_view(data@) =~= d0.insert(at as int, (k@, Seq::empty())));
                    },
                }
                current = k;
            },
            Line::City(k, vs) => {
                let b = match find_batch(&data, &current) {
                    Some(b) => b,
                    None => {
                        proof {
                            assert(read_lines(lv, i as nat + 1) is None);
                            lemma_read_lines_fails_on(lv, i as nat + 1, lv.len());
                        }
                        return None;
                    },
                };
                proof {
                    lemma_place_of_range(d0, current@, d0.len());
                }
                let (name, mut cities) = data.remove(b);
                let ghost c0 = batch_view(cities@);
                assert(c0 == d0[b as int].1);
                match find_city(&cities, &k) {
                    Some(j) => {
                        proof {
                            lemma_place_of_range(c0, k@, c0.len());
                        }
                        let (cname, mut links) = cities.remove(j);
                        let ghost l0 = links@.map_values(|s: String| s@);
                        let mut more = vs;
                        let ghost m0 = more@.map_values(|s: String| s@);
                        links.append(&mut more);
                        assert(links@.map_values(|s: String| s@) =~= l0 + m0);
                        cities.insert(j, (cname, links));
                        assert(batch_view(cities@) =~= c0.update(j as int, (k@, c0[j as int].1 + m0)));
                    },
                    None => {
                        cities.push((k, vs));
                        assert(batch_view(cities@) =~= c0.push(crate::provinces::links_view(cities@.last())));
                    },
                }
                data.insert(b, (name, cities));
                assert(districts_view(data@) =~= d0.update(b as int, (current@, batch_view(cities@))));
            },
        }
        i = i + 1;
    }
    assert(read_lines(lv, lines@.len() as nat) == Some((districts_view(data@), current@)));
    Some(data)
}

proof fn lemma_read_lines_fails_on(lines: Seq<Seq<char>>, m: nat, n: nat)
    requires
        m <= n <= lines.len(),
        read_lines(lines, m) is None,
    ensures
        read_lines(lines, n) is None,
    decreases n,
{
    if m < n {
        lemma_read_lines_fails_on(lines, m, (n - 1) as nat);
    }
}

/// The number of provinces in each batch of a district file, given as its lines, in
/// the order of the batch names, joined by commas; `None` where a city line comes before
/// any batch line.
pub fn count_provinces(lines: &Vec<String>) -> (r: Option<String>)
    ensures
        match read_lines(lines@.map_values(|s: String| s@), lines@.len()) {
            Some((d, _)) => r is Some && (r->0)@ == join_fields(district_counts(d)),
            None => r is None,
        },
{
    match parse_district(lines) {
        Some(data) => {
            Some(provinces_report(&data))
        },
        None => None,
    }
}

} // verus!
