use vstd::prelude::*;

verus! {

/// One element of a list: its value and the arena positions of its neighbours.
struct Node<T> {
    val: T,
    next: Option<usize>,
    prev: Option<usize>,
}

/// A doubly linked list whose nodes live in an arena and refer to each other by position.
pub struct LinkedList<T> {
    nodes: Vec<Node<T>>,
    start: Option<usize>,
    end: Option<usize>,
    length: usize,
    /// Arena positions of the nodes, in the order of a walk from `start`.
    order: Ghost<Seq<usize>>,
    /// For each arena position, its place in `order`.
    rank: Ghost<Seq<int>>,
}

impl<T> LinkedList<T> {
    /// The values in the order of a walk from the first node.
    pub closed spec fn view(&self) -> Seq<T> {
        Seq::new(self.order@.len(), |i: int| self.nodes@[self.order@[i] as int].val)
    }

    /// The successor of the node at place `i` of the walk: the node at place `i + 1`, if any.
    spec fn next_of(order: Seq<usize>, i: int) -> Option<usize> {
        if i + 1 < order.len() { Some(order[i + 1]) } else { None }
    }

    /// The predecessor of the node at place `i` of the walk: the node at place `i - 1`, if any.
    spec fn prev_of(order: Seq<usize>, i: int) -> Option<usize> {
        if i > 0 { Some(order[i - 1]) } else { None }
    }

    /// The list is well formed: `order` and `rank` are inverse bijections between arena
    /// positions and places, `start` and `end` mark the first and last place, and each
    /// node's links name its neighbours in the walk.
    pub closed spec fn wf(&self) -> bool {
        let n = self.order@.len();
        &&& self.nodes@.len() == n
        &&& self.rank@.len() == n
        &&& self.length == n
        &&& forall|i: int| 0 <= i < n ==> {
            &&& (#[trigger] self.order@[i]) < n
            &&& self.rank@[self.order@[i] as int] == i
        }
        &&& forall|p: int| 0 <= p < n ==> {
            &&& 0 <= #[trigger] self.rank@[p] < n
            &&& self.order@[self.rank@[p]] == p
        }
        &&& self.start == (if n == 0 { None } else { Some(self.order@[0]) })
        &&& self.end == (if n == 0 { None } else { Some(self.order@[n - 1]) })
        &&& forall|i: int| 0 <= i < n ==> {
            &&& (#[trigger] self.nodes@[self.order@[i] as int]).next == Self::next_of(self.order@, i)
            &&& self.nodes@[self.order@[i] as int].prev == Self::prev_of(self.order@, i)
        }
    }

    /// Every successor link is matched by a predecessor link back and the reverse, both
    /// stay inside the arena, the first node has no predecessor, the last no successor, and
    /// the markers are absent exactly when the list is empty.
    pub closed spec fn links_symmetric(&self) -> bool {
        let n = self.nodes@.len();
        &&& forall|p: int|
            0 <= p < n ==> ((#[trigger] self.nodes@[p]).next matches Some(q) ==> q < n
                && self.nodes@[q as int].prev == Some(p as usize))
        &&& forall|p: int|
            0 <= p < n ==> ((#[trigger] self.nodes@[p]).prev matches Some(q) ==> q < n
                && self.nodes@[q as int].next == Some(p as usize))
        &&& (self.start matches Some(s) ==> s < n && self.nodes@[s as int].prev is None)
        &&& (self.end matches Some(e) ==> e < n && self.nodes@[e as int].next is None)
        &&& (self.start is None <==> n == 0)
        &&& (self.end is None <==> n == 0)
    }

    /// In a well-formed list the links are symmetric; `add` and `reverse` keep the list
    /// well formed, so the links stay symmetric after each of them.
    pub proof fn lemma_links_symmetric(&self)
        requires
            self.wf(),
        ensures
            self.links_symmetric(),
    {
        let n = self.nodes@.len() as int;
        assert forall|p: int|
            0 <= p < n implies ((#[trigger] self.nodes@[p]).next matches Some(q) ==> q < n
                && self.nodes@[q as int].prev == Some(p as usize)) by {
            let i = self.rank@[p];
            assert(self.order@[i] == p);
            assert(self.nodes@[self.order@[i] as int].next == Self::next_of(self.order@, i));
            if i + 1 < n {
                assert(self.order@[i + 1] < n);
                assert(self.nodes@[self.order@[i + 1] as int].prev == Self::prev_of(self.order@, i + 1));
            }
        }
        assert forall|p: int|
            0 <= p < n implies ((#[trigger] self.nodes@[p]).prev matches Some(q) ==> q < n
                && self.nodes@[q as int].next == Some(p as usize)) by {
            let i = self.rank@[p];
            assert(self.order@[i] == p);
            assert(self.nodes@[self.order@[i] as int].prev == Self::prev_of(self.order@, i));
            if i > 0 {
                assert(self.order@[i - 1] < n);
                assert(self.nodes@[self.order@[i - 1] as int].next == Self::next_of(self.order@, i - 1));
            }
        }
        if n > 0 {
            assert(self.nodes@[self.order@[0] as int].prev == Self::prev_of(self.order@, 0));
            assert(self.nodes@[self.order@[n - 1] as int].next == Self::next_of(self.order@, n - 1));
        }
    }

    /// An empty list.
    pub fn new() -> (r: Self)
        ensures
            r.wf(),
            r@ == Seq::<T>::empty(),
    {
        let r = LinkedList {
            nodes: Vec::new(),
            start: None,
            end: None,
            length: 0,
            order: Ghost(Seq::empty()),
            rank: Ghost(Seq::empty()),
        };
        assert(r@ =~= Seq::<T>::empty());
        r
    }

    /// The number of values in the list.
    pub fn length(&self) -> (r: usize)
        requires
            self.wf(),
        ensures
            r == self@.len(),
    {
        self.length
    }

    /// Appends `obj` after the last value.
    pub fn add(&mut self, obj: T)
        requires
            old(self).wf(),
            old(self)@.len() < usize::MAX,
        ensures
            final(self).wf(),
            final(self)@ == old(self)@.push(obj),
    {
        let pos = self.nodes.len();
        let node = Node { val: obj, next: None, prev: self.end };
        self.nodes.push(node);
        match self.end {
            None => {
                self.start = Some(pos);
            },
            Some(e) => {
                self.nodes[e].next = Some(pos);
            },
        }
        self.end = Some(pos);
        self.length = self.length + 1;
        self.order = Ghost(self.order@.push(pos));
        self.rank = Ghost(self.rank@.push(pos as int));
        proof {
            let n = self.order@.len();
            assert forall|i: int| 0 <= i < n implies {
                &&& (#[trigger] self.nodes@[self.order@[i] as int]).next == Self::next_of(self.order@, i)
                &&& self.nodes@[self.order@[i] as int].prev == Self::prev_of(self.order@, i)
            } by {
                if i < n - 1 {
                    assert(self.order@[i] == old(self).order@[i]);
                }
            }
        }
        assert(self@ =~= old(self)@.push(obj));
    }

    /// The value at place `index`, counted from the first value, or `None` where
    /// `index` is negative or not below the length.
    pub fn get(&self, index: i32) -> (r: Option<&T>)
        requires
            self.wf(),
        ensures
            0 <= index < self@.len() ==> r == Some(&self@[index as int]),
            index < 0 || index >= self@.len() ==> r is None,
    {
        if index < 0 || index as usize >= self.length {
            return None;
        }
        let target = index as usize;
        let mut cur: usize = match self.start {
            Some(s) => s,
            None => {
                return None;
            },
        };
        let mut k: usize = 0;
        while k < target
            invariant
                self.wf(),
                target < self@.len(),
                k <= target,
                cur == self.order@[k as int],
            decreases target - k,
        {
            assert(self.nodes@[self.order@[k as int] as int].next == Self::next_of(self.order@, k as int));
            cur = match self.nodes[cur].next {
                Some(c) => c,
                None => {
                    return None;
                },
            };
            k = k + 1;
        }
        assert(self.nodes@[self.order@[k as int] as int].val == self@[k as int]);
        Some(&self.nodes[cur].val)
    }

    /// The values met by following the successor links from the first node.
    pub fn to_vec(&self) -> (r: Vec<T>)
        where
            T: Copy,
        requires
            self.wf(),
        ensures
            r@ == self@,
    {
        let n = self.length;
        let mut r: Vec<T> = Vec::new();
        let mut cur = self.start;
        let mut k: usize = 0;
        while k < n
            invariant
                self.wf(),
                n == self@.len(),
                k <= n,
                cur == Self::next_of(self.order@, k - 1),
                r@ == self@.subrange(0, k as int),
            decreases n - k,
        {
            let c = cur.unwrap();
            assert(self.nodes@[self.order@[k as int] as int].next == Self::next_of(self.order@, k as int));
            r.push(self.nodes[c].val);
            cur = self.nodes[c].next;
            k = k + 1;
            assert(r@ =~= self@.subrange(0, k as int));
        }
        assert(r@ =~= self@);
        r
    }

    /// The values met by following the predecessor links from the last node.
    pub fn to_vec_backward(&self) -> (r: Vec<T>)
        where
            T: Copy,
        requires
            self.wf(),
        ensures
            r@ == self@.reverse(),
    {
        let n = self.length;
        let mut r: Vec<T> = Vec::new();
        let mut cur = self.end;
        let mut k: usize = 0;
        while k < n
            invariant
                self.wf(),
                n == self@.len(),
                k <= n,
                cur == Self::prev_of(self.order@, n - k),
                r@ == self@.reverse().subrange(0, k as int),
            decreases n - k,
        {
            let c = cur.unwrap();
            let ghost i = n - 1 - k;
            assert(self.nodes@[self.order@[i] as int].prev == Self::prev_of(self.order@, i));
            r.push(self.nodes[c].val);
            cur = self.nodes[c].prev;
            k = k + 1;
            assert(r@ =~= self@.reverse().subrange(0, k as int));
        }
        assert(r@ =~= self@.reverse());
        r
    }

    /// Reverses the list in place: one walk from the first node swaps the two links of
    /// every node, then the first and last markers change places.
    pub fn reverse(&mut self)
        requires
            old(self).wf(),
        ensures
            final(self).wf(),
            final(self)@ == old(self)@.reverse(),
    {
        if self.length <= 1 {
            assert(self@ =~= old(self)@.reverse());
            return;
        }
        let ghost n = self.length as int;
        let ghost ord = self.order@;
        let ghost rk = self.rank@;
        let mut current = self.start;
        let mut prev: Option<usize> = None;
        self.end = current;
        let ghost mut k: int = 0;
        while current.is_some()
            invariant
                old(self).wf(),
                ord == old(self).order@,
                rk == old(self).rank@,
                n == ord.len(),
                n >= 2,
                self.order == old(self).order,
                self.rank == old(self).rank,
                self.length == old(self).length,
                self.end == Some(ord[0]),
                self.nodes@.len() == n,
                0 <= k <= n,
                current == (if k < n { Some(ord[k]) } else { None::<usize> }),
                prev == (if k > 0 { Some(ord[k - 1]) } else { None::<usize> }),
                forall|p: int| 0 <= p < n ==> (#[trigger] self.nodes@[p]).val == old(self).nodes@[p].val,
                forall|i: int| 0 <= i < k ==> {
                    &&& (#[trigger] self.nodes@[ord[i] as int]).next == Self::prev_of(ord, i)
                    &&& self.nodes@[ord[i] as int].prev == Self::next_of(ord, i)
                },
                forall|i: int| k <= i < n ==> {
                    &&& (#[trigger] self.nodes@[ord[i] as int]).next == Self::next_of(ord, i)
                    &&& self.nodes@[ord[i] as int].prev == Self::prev_of(ord, i)
                },
            decreases n - k,
        {
            let cur = current.unwrap();
            assert(self.nodes@[ord[k] as int].next == Self::next_of(ord, k));
            let next = self.nodes[cur].next;
            self.nodes[cur].next = prev;
            self.nodes[cur].prev = next;
            prev = current;
            current = next;
            proof {
                assert forall|i: int| 0 <= i < n && i != k implies ord[i] != ord[k] by {
                    assert(rk[ord[i] as int] == i);
                    assert(rk[ord[k] as int] == k);
                }
                k = k + 1;
            }
        }
        self.start = prev;
        self.order = Ghost(ord.reverse());
        self.rank = Ghost(Seq::new(n as nat, |p: int| n - 1 - rk[p]));
        proof {
            assert forall|i: int| 0 <= i < n implies {
                &&& (#[trigger] self.nodes@[self.order@[i] as int]).next == Self::next_of(self.order@, i)
                &&& self.nodes@[self.order@[i] as int].prev == Self::prev_of(self.order@, i)
            } by {
                assert(self.order@[i] == ord[n - 1 - i]);
                assert(self.nodes@[ord[n - 1 - i] as int].next == Self::prev_of(ord, n - 1 - i));
                if i + 1 < n {
                    assert(self.order@[i + 1] == ord[n - 2 - i]);
                }
                if i > 0 {
                    assert(self.order@[i - 1] == ord[n - i]);
                }
            }
            assert forall|i: int| 0 <= i < n implies {
                &&& (#[trigger] self.order@[i]) < n
                &&& self.rank@[self.order@[i] as int] == i
            } by {
                assert(self.order@[i] == ord[n - 1 - i]);
                assert(rk[ord[n - 1 - i] as int] == n - 1 - i);
            }
            assert forall|p: int| 0 <= p < n implies {
                &&& 0 <= #[trigger] self.rank@[p] < n
                &&& self.order@[self.rank@[p]] == p
            } by {
                assert(0 <= rk[p] < n);
                assert(ord[rk[p]] == p);
            }
            assert forall|i: int| 0 <= i < n implies #[trigger] self@[i] == old(self)@.reverse()[i] by {
                assert(self.order@[i] == ord[n - 1 - i]);
                assert(self.nodes@[ord[n - 1 - i] as int].val == old(self).nodes@[ord[n - 1 - i] as int].val);
            }
        }
        assert(self@ =~= old(self)@.reverse());
    }
}

impl<T> Default for LinkedList<T> {
    /// An empty list.
    fn default() -> (r: Self)
        ensures
            r.wf(),
            r@ == Seq::<T>::empty(),
    {
        Self::new()
    }
}

/// Reversing twice gives back the same sequence.
pub proof fn lemma_reverse_involutive<T>(s: Seq<T>)
    ensures
        s.reverse().reverse() == s,
{
    assert(s.reverse().reverse() =~= s);
}

/// After reversing, place `i` holds what place `len - 1 - i` held before.
pub proof fn lemma_reverse_index<T>(s: Seq<T>, i: int)
    requires
        0 <= i < s.len(),
    ensures
        s.reverse()[i] == s[s.len() - 1 - i],
{
}

/// Reversing a sequence of at most one value changes nothing.
pub proof fn lemma_reverse_short<T>(s: Seq<T>)
    requires
        s.len() <= 1,
    ensures
        s.reverse() == s,
{
    assert(s.reverse() =~= s);
}

} // verus!
