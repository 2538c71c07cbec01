use vstd::prelude::*;
use vstd::string::*;
use crate::base::from_decimal;
use crate::calendar::join_fields;

verus! {

/// A city with the cities it is linked to, as plain text.
pub type Links = (Seq<char>, Seq<Seq<char>>);

/// The text of a city and its links.
pub open spec fn links_view(entry: (String, Vec<String>)) -> Links {
    (entry.0@, entry.1@.map_values(|s: String| s@))
}

/// The cities of a batch as they come: each city, then the cities it is linked to.
pub open spec fn cities(batch: Seq<Links>) -> Seq<Seq<char>>
    decreases batch.len(),
{
    if batch.len() == 0 {
        Seq::empty()
    } else {
        cities(batch.drop_last()) + seq![batch.last().0] + batch.last().1
    }
}

/// The links of a batch: each city with each city it is linked to.
pub open spec fn links(batch: Seq<Links>) -> Seq<(Seq<char>, Seq<char>)>
    decreases batch.len(),
{
    if batch.len() == 0 {
        Seq::empty()
    } else {
        links(batch.drop_last()) + batch.last().1.map_values(|v: Seq<char>| (batch.last().0, v))
    }
}

/// `a` and `b` are joined by a path over the first `k` links of `e`: the same city, or
/// joined before link `k - 1` was added, or joined through it.
pub open spec fn joined(e: Seq<(Seq<char>, Seq<char>)>, k: nat, a: Seq<char>, b: Seq<char>) -> bool
    decreases k,
{
    if k == 0 || k > e.len() {
        a == b
    } else {
        let u = e[k - 1].0;
        let v = e[k - 1].1;
        let j = (k - 1) as nat;
        joined(e, j, a, b) || (joined(e, j, a, u) && joined(e, j, v, b)) || (joined(e, j, a, v)
            && joined(e, j, u, b))
    }
}

/// The number of provinces: of the cities in `c`, those joined to no city before them.
pub open spec fn province_count(c: Seq<Seq<char>>, e: Seq<(Seq<char>, Seq<char>)>, n: nat) -> nat
    decreases n,
{
    if n == 0 || n > c.len() {
        0
    } else {
        let i = n - 1;
        province_count(c, e, (n - 1) as nat) + (if forall|j: int|
            0 <= j < i ==> !joined(e, e.len(), #[trigger] c[j], c[i]) {
            1nat
        } else {
            0nat
        })
    }
}

/// The text of a batch.
pub open spec fn batch_view(batch: Seq<(String, Vec<String>)>) -> Seq<Links> {
    batch.map_values(|e: (String, Vec<String>)| links_view(e))
}

/// The cities of `batch` one by one, and each link as the places of its two cities.
fn flatten(batch: &Vec<(String, Vec<String>)>) -> (r: (Vec<String>, Vec<(usize, usize)>))
    ensures
        r.0@.map_values(|s: String| s@) == cities(batch_view(batch@)),
        r.1@.len() == links(batch_view(batch@)).len(),
        forall|k: int|
            0 <= k < r.1@.len() ==> {
                &&& (#[trigger] r.1@[k]).0 < r.0@.len()
                &&& r.1@[k].1 < r.0@.len()
                &&& r.0@[r.1@[k].0 as int]@ == links(batch_view(batch@))[k].0
                &&& r.0@[r.1@[k].1 as int]@ == links(batch_view(batch@))[k].1
            },
{
    let ghost bv = batch_view(batch@);
    let mut verts: Vec<String> = Vec::new();
    let mut edges: Vec<(usize, usize)> = Vec::new();
    let mut i: usize = 0;
    while i < batch.len()
        invariant
            bv == batch_view(batch@),
            i <= batch@.len(),
            verts@.map_values(|s: String| s@) == cities(bv.subrange(0, i as int)),
            edges@.len() == links(bv.subrange(0, i as int)).len(),
            forall|k: int|
                0 <= k < edges@.len() ==> {
                    &&& (#[trigger] edges@[k]).0 < verts@.len()
                    &&& edges@[k].1 < verts@.len()
                    &&& verts@[edges@[k].0 as int]@ == links(bv.subrange(0, i as int))[k].0
                    &&& verts@[edges@[k].1 as int]@ == links(bv.subrange(0, i as int))[k].1
                },
        decreases batch@.len() - i,
    {
        let ghost pre = bv.subrange(0, i as int);
        let ghost next = bv.subrange(0, i as int + 1);
        assert(next.drop_last() =~= pre);
        let key = &batch[i].0;
        let vals = &batch[i].1;
        let ghost entry = bv[i as int];
        assert(entry == links_view(batch@[i as int]));
        let p = verts.len();
        verts.push(key.clone());
        let ghost base_c = cities(pre) + seq![entry.0];
        assert(verts@.map_values(|s: String| s@) =~= base_c);
        let mut j: usize = 0;
        while j < vals.len()
            invariant
                bv == batch_view(batch@),
                i < batch@.len(),
                entry == bv[i as int],
                entry == links_view(batch@[i as int]),
                vals == &batch@[i as int].1,
                pre == bv.subrange(0, i as int),
                base_c == cities(pre) + seq![entry.0],
                j <= vals@.len(),
                p < verts@.len(),
                verts@[p as int]@ == entry.0,
                verts@.map_values(|s: String| s@) == base_c + entry.1.subrange(0, j as int),
                edges@.len() == links(pre).len() + j,
                forall|k: int|
                    0 <= k < edges@.len() ==> {
                        &&& (#[trigger] edges@[k]).0 < verts@.len()
                        &&& edges@[k].1 < verts@.len()
                        &&& verts@[edges@[k].0 as int]@ == (links(pre) + entry.1.map_values(
                            |v: Seq<char>| (entry.0, v),
                        ))[k].0
                        &&& verts@[edges@[k].1 as int]@ == (links(pre) + entry.1.map_values(
                            |v: Seq<char>| (entry.0, v),
                        ))[k].1
                    },
            decreases vals@.len() - j,
        {
            let q = verts.len();
            assert(entry.1[j as int] == vals@[j as int]@);
            let c = vals[j].clone();
            assert(c@ == vals@[j as int]@);
            let ghost before = verts@.map_values(|s: String| s@);
            verts.push(c);
            assert(verts@.map_values(|s: String| s@) =~= before.push(c@));
            edges.push((p, q));
            j = j + 1;
            assert(verts@.map_values(|s: String| s@) =~= base_c + entry.1.subrange(0, j as int));
        }
        assert(entry.1.subrange(0, vals@.len() as int) =~= entry.1);
        assert(links(next) =~= links(pre) + entry.1.map_values(|v: Seq<char>| (entry.0, v)));
        assert(cities(next) =~= cities(pre) + seq![entry.0] + entry.1);
        i = i + 1;
    }
    assert(bv.subrange(0, batch@.len() as int) =~= bv);
    (verts, edges)
}

/// The number of provinces in a batch: groups of cities joined by links, directly or
/// through other cities. A city without links is a province of its own.
pub fn count_batch_provinces(batch: &Vec<(String, Vec<String>)>) -> (r: usize)
    ensures
        r == province_count(
            cities(batch_view(batch@)),
            links(batch_view(batch@)),
            cities(batch_view(batch@)).len(),
        ),
{
    let (verts, edges) = flatten(batch);
    let ghost c = cities(batch_view(batch@));
    let ghost e = links(batch_view(batch@));
    let n = verts.len();
    assert(c.len() == n);
    assert forall|i: int| 0 <= i < n implies #[trigger] c[i] == verts@[i]@ by {
        assert(verts@.map_values(|s: String| s@)[i] == verts@[i]@);
    }
    // label[i] names the group of city i: first the first place that holds its name
    let mut label: Vec<usize> = Vec::new();
    let mut i: usize = 0;
    while i < n
        invariant
            n == verts@.len(),
            n == c.len(),
            forall|x: int| 0 <= x < n ==> #[trigger] c[x] == verts@[x]@,
            i <= n,
            label@.len() == i,
            forall|x: int| 0 <= x < i ==> {
                &&& (#[trigger] label@[x]) <= x
                &&& c[label@[x] as int] == c[x]
                &&& forall|y: int| 0 <= y < label@[x] ==> c[y] != c[x]
            },
        decreases n - i,
    {
        let mut j: usize = 0;
        while j < i && verts[j] != verts[i]
            invariant
                n == verts@.len(),
                forall|x: int| 0 <= x < n ==> #[trigger] c[x] == verts@[x]@,
                i < n,
                j <= i,
                forall|y: int| 0 <= y < j ==> c[y] != c[i as int],
            decreases i - j,
        {
            j = j + 1;
        }
        label.push(j);
        i = i + 1;
    }
    proof {
        assert forall|a: int, b: int| 0 <= a < n && 0 <= b < n implies (#[trigger] label@[a]
            == #[trigger] label@[b]) == joined(e, 0, c[a], c[b]) by {
            if c[a] == c[b] {
                if label@[a] < label@[b] {
                    assert(c[label@[a] as int] == c[b]);
                } else if label@[b] < label@[a] {
                    assert(c[label@[b] as int] == c[a]);
                }
            }
        }
    }
    let m = edges.len();
    let mut k: usize = 0;
    while k < m
        invariant
            n == c.len(),
            m == e.len(),
            m == edges@.len(),
            forall|x: int| 0 <= x < n ==> #[trigger] c[x] == verts@[x]@,
            forall|x: int|
                0 <= x < m ==> {
                    &&& (#[trigger] edges@[x]).0 < n
                    &&& edges@[x].1 < n
                    &&& c[edges@[x].0 as int] == e[x].0
                    &&& c[edges@[x].1 as int] == e[x].1
                },
            k <= m,
            label@.len() == n,
            forall|a: int, b: int|
                0 <= a < n && 0 <= b < n ==> (#[trigger] label@[a] == #[trigger] label@[b])
                    == joined(e, k as nat, c[a], c[b]),
        decreases m - k,
    {
        let (p, q) = edges[k];
        let lu = label[p];
        let lv = label[q];
        let ghost old_label = label@;
        let mut x: usize = 0;
        while x < n
            invariant
                n == label@.len(),
                old_label.len() == n,
                x <= n,
                forall|y: int| 0 <= y < x ==> #[trigger] label@[y] == (if old_label[y] == lv { lu } else { old_label[y] }),
                forall|y: int| x <= y < n ==> #[trigger] label@[y] == old_label[y],
            decreases n - x,
        {
            if label[x] == lv {
                label.set(x, lu);
            }
            x = x + 1;
        }
        proof {
            let u = e[k as int].0;
            let v = e[k as int].1;
            assert forall|a: int, b: int| 0 <= a < n && 0 <= b < n implies (#[trigger] label@[a]
                == #[trigger] label@[b]) == joined(e, (k + 1) as nat, c[a], c[b]) by {
                assert(joined(e, (k + 1) as nat, c[a], c[b]) == (joined(e, k as nat, c[a], c[b])
                    || (joined(e, k as nat, c[a], u) && joined(e, k as nat, v, c[b])) || (joined(
                    e,
                    k as nat,
                    c[a],
                    v,
                ) && joined(e, k as nat, u, c[b]))));
                assert(old_label[a] == old_label[p as int] <==> joined(e, k as nat, c[a], u));
                assert(old_label[q as int] == old_label[b] <==> joined(e, k as nat, v, c[b]));
                assert(old_label[a] == old_label[q as int] <==> joined(e, k as nat, c[a], v));
                assert(old_label[p as int] == old_label[b] <==> joined(e, k as nat, u, c[b]));
                assert(old_label[a] == old_label[b] <==> joined(e, k as nat, c[a], c[b]));
            }
        }
        k = k + 1;
    }
    let mut count: usize = 0;
    let mut i: usize = 0;
    while i < n
        invariant
            n == c.len(),
            m == e.len(),
            label@.len() == n,
            forall|a: int, b: int|
                0 <= a < n && 0 <= b < n ==> (#[trigger] label@[a] == #[trigger] label@[b])
                    == joined(e, m as nat, c[a], c[b]),
            i <= n,
            count <= i,
            count == province_count(c, e, i as nat),
        decreases n - i,
    {
        let mut j: usize = 0;
        let mut found = false;
        while j < i
            invariant
                label@.len() == n,
                i < n,
                j <= i,
                found == (exists|y: int| 0 <= y < j && label@[y] == label@[i as int]),
            decreases i - j,
        {
            if label[j] == label[i] {
                found = true;
            }
            j = j + 1;
        }
        proof {
            let ii = i as int;
            if found {
                let y = choose|y: int| 0 <= y < i && label@[y] == label@[ii];
                assert(joined(e, e.len(), c[y], c[ii]));
            } else {
                assert forall|y: int| 0 <= y < ii implies !joined(e, e.len(), #[trigger] c[y], c[ii]) by {
                    assert(label@[y] != label@[ii]);
                }
            }
        }
        if !found {
            count = count + 1;
        }
        i = i + 1;
    }
    count
}

/// The number of provinces in the batch `b`.
pub open spec fn batch_count(b: Seq<Links>) -> nat {
    province_count(cities(b), links(b), cities(b).len())
}

/// The text of named batches.
pub open spec fn districts_view(v: Seq<(String, Vec<(String, Vec<String>)>)>) -> Seq<(Seq<char>, Seq<Links>)> {
    v.map_values(|b: (String, Vec<(String, Vec<String>)>)| (b.0@, batch_view(b.1@)))
}

/// The province counts of the named batches, in order.
pub open spec fn district_counts(d: Seq<(Seq<char>, Seq<Links>)>) -> Seq<int> {
    Seq::new(d.len(), |i: int| batch_count(d[i].1) as int)
}

/// The number of provinces of each batch, in decimal, joined by commas.
pub fn provinces_report(batches: &Vec<(String, Vec<(String, Vec<String>)>)>) -> (r: String)
    ensures
        r@ == join_fields(district_counts(districts_view(batches@))),
{
    let ghost all = district_counts(districts_view(batches@));
    let mut out = String::new();
    let mut i: usize = 0;
    proof {
        reveal_strlit(",");
        assert(all.subrange(0, 0) =~= Seq::<int>::empty());
    }
    while i < batches.len()
        invariant
            all == district_counts(districts_view(batches@)),
            i <= batches@.len(),
            out@ == join_fields(all.subrange(0, i as int)),
        decreases batches@.len() - i,
    {
        let n = count_batch_provinces(&batches[i].1);
        assert(districts_view(batches@)[i as int].1 == batch_view(batches@[i as int].1@));
        let t = from_decimal(n as u64, 10);
        let ghost pre = all.subrange(0, i as int);
        let ghost next = all.subrange(0, i as int + 1);
        assert(next.drop_last() =~= pre);
        assert(next.last() == n as int);
        assert(crate::calendar::int_text(n as int) == t@);
        if i == 0 {
            out = t;
            assert(next =~= seq![n as int]);
        } else {
            proof {
                reveal_strlit(",");
            }
            out = out.concat(",");
            out = out.concat(t.as_str());
            assert(join_fields(next) == join_fields(pre) + seq![','] + crate::calendar::int_text(n as int));
        }
        i = i + 1;
    }
    assert(all.subrange(0, batches@.len() as int) =~= all);
    out
}

} // verus!
