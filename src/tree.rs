use vstd::prelude::*;

use crate::distance::{is_metric, Distance, LevenshteinDistance};

verus! {

/// Whether every node but the root has a parent of smaller index.
pub open spec fn parents_ok(parent: Seq<int>) -> bool {
    forall|i: int| 0 < i < parent.len() ==> 0 <= #[trigger] parent[i] < i
}

/// Whether node `x` lies in the subtree rooted at node `c`.
pub open spec fn desc(parent: Seq<int>, x: int, c: int) -> bool
    decreases x,
{
    if x == c {
        true
    } else if 0 < x < parent.len() && 0 <= parent[x] < x {
        desc(parent, parent[x], c)
    } else {
        false
    }
}

proof fn lemma_desc_ge(parent: Seq<int>, x: int, c: int)
    requires
        desc(parent, x, c),
    ensures
        c <= x,
    decreases x,
{
    if x != c {
        lemma_desc_ge(parent, parent[x], c);
    }
}

proof fn lemma_desc_trans(parent: Seq<int>, x: int, c: int, a: int)
    requires
        desc(parent, x, c),
        desc(parent, c, a),
    ensures
        desc(parent, x, a),
    decreases x,
{
    if x != c {
        lemma_desc_trans(parent, parent[x], c, a);
    }
}

proof fn lemma_desc_push(parent: Seq<int>, p: int, x: int, c: int)
    requires
        0 <= x < parent.len(),
    ensures
        desc(parent.push(p), x, c) == desc(parent, x, c),
    decreases x,
{
    if x != c && 0 < x && 0 <= parent[x] < x {
        lemma_desc_push(parent, p, parent[x], c);
    }
}

/// The child of `u` on the path from `u` down to its descendant `x`.
proof fn lemma_child_on_path(parent: Seq<int>, x: int, u: int) -> (ch: int)
    requires
        desc(parent, x, u),
        x != u,
    ensures
        0 < ch <= x < parent.len(),
        parent[ch] == u,
        desc(parent, x, ch),
    decreases x,
{
    if parent[x] == u {
        x
    } else {
        let ch = lemma_child_on_path(parent, parent[x], u);
        assert(desc(parent, parent[x], parent[x]));
        assert(desc(parent, x, parent[x]));
        lemma_desc_trans(parent, x, parent[x], ch);
        ch
    }
}

/// Every node lies in the subtree of the root.
proof fn lemma_desc_root(parent: Seq<int>, x: int)
    requires
        parents_ok(parent),
        0 <= x < parent.len(),
    ensures
        desc(parent, x, 0),
    decreases x,
{
    if x > 0 {
        lemma_desc_root(parent, parent[x]);
    }
}

/// Two distinct children of one node have disjoint subtrees.
proof fn lemma_siblings_apart(parent: Seq<int>, c1: int, c2: int)
    requires
        parents_ok(parent),
        0 < c1 < parent.len(),
        0 < c2 < parent.len(),
        c1 != c2,
        parent[c1] == parent[c2],
    ensures
        !desc(parent, c1, c2),
{
    if desc(parent, c1, c2) {
        lemma_desc_ge(parent, parent[c1], c2);
    }
}

/// No pending node lies in the subtree of another pending node.
spec fn apart(parent: Seq<int>, p: Seq<usize>) -> bool {
    forall|j1: int, j2: int|
        0 <= j1 < p.len() && 0 <= j2 < p.len() && j1 != j2 ==> !desc(
            parent,
            #[trigger] p[j1] as int,
            #[trigger] p[j2] as int,
        )
}

/// No visited node lies in the subtree of a pending node.
spec fn unvisited(parent: Seq<int>, ids: Seq<int>, p: Seq<usize>) -> bool {
    forall|k: int, j: int|
        0 <= k < ids.len() && 0 <= j < p.len() ==> !desc(
            parent,
            #[trigger] ids[k],
            #[trigger] p[j] as int,
        )
}

/// Visiting the pending node at `h` and putting distinct children of it in
/// its place keeps the pending subtrees disjoint from each other and from
/// what was visited.
proof fn lemma_expand(parent: Seq<int>, ids: Seq<int>, p: Seq<usize>, h: int, cs: Seq<usize>)
    requires
        parents_ok(parent),
        0 <= h < p.len(),
        forall|j: int| 0 <= j < p.len() ==> #[trigger] p[j] < parent.len(),
        apart(parent, p),
        unvisited(parent, ids, p),
        forall|i: int|
            0 <= i < cs.len() ==> 0 < #[trigger] cs[i] < parent.len() && parent[cs[i] as int]
                == p[h] as int,
        forall|i1: int, i2: int|
            0 <= i1 < cs.len() && 0 <= i2 < cs.len() && i1 != i2 ==> #[trigger] cs[i1]
                != #[trigger] cs[i2],
    ensures
        apart(parent, p.remove(h) + cs),
        unvisited(parent, ids.push(p[h] as int), p.remove(h) + cs),
        forall|k: int| 0 <= k < ids.len() ==> #[trigger] ids[k] != p[h] as int,
{
    let m = p[h] as int;
    let q = p.remove(h) + cs;
    let r = p.remove(h);
    assert forall|k: int| 0 <= k < ids.len() implies #[trigger] ids[k] != m by {
        assert(!desc(parent, ids[k], p[h] as int));
    }
    assert forall|i: int| 0 <= i < cs.len() implies desc(parent, #[trigger] cs[i] as int, m) by {
        assert(desc(parent, m, m));
    }
    assert forall|i: int, j: int|
        0 <= i < cs.len() && 0 <= j < r.len() implies !desc(
        parent,
        #[trigger] cs[i] as int,
        #[trigger] r[j] as int,
    ) && !desc(parent, r[j] as int, cs[i] as int) by {
        let jj = if j < h {
            j
        } else {
            j + 1
        };
        assert(r[j] == p[jj]);
        assert(desc(parent, cs[i] as int, m));
        if desc(parent, cs[i] as int, r[j] as int) {
            if cs[i] as int == r[j] as int {
                assert(desc(parent, p[jj] as int, p[h] as int));
            } else {
                assert(desc(parent, m, r[j] as int));
                assert(desc(parent, p[h] as int, p[jj] as int));
            }
        }
        if desc(parent, r[j] as int, cs[i] as int) {
            lemma_desc_trans(parent, r[j] as int, cs[i] as int, m);
            assert(desc(parent, p[jj] as int, p[h] as int));
        }
    }
    assert forall|j1: int, j2: int|
        0 <= j1 < q.len() && 0 <= j2 < q.len() && j1 != j2 implies !desc(
        parent,
        #[trigger] q[j1] as int,
        #[trigger] q[j2] as int,
    ) by {
        if j1 < r.len() && j2 < r.len() {
            let a = if j1 < h {
                j1
            } else {
                j1 + 1
            };
            let b = if j2 < h {
                j2
            } else {
                j2 + 1
            };
            assert(q[j1] == p[a] && q[j2] == p[b]);
        } else if j1 >= r.len() && j2 >= r.len() {
            assert(q[j1] == cs[j1 - r.len()] && q[j2] == cs[j2 - r.len()]);
            lemma_siblings_apart(parent, q[j1] as int, q[j2] as int);
        } else if j1 < r.len() {
            assert(q[j1] == r[j1] && q[j2] == cs[j2 - r.len()]);
        } else {
            assert(q[j2] == r[j2] && q[j1] == cs[j1 - r.len()]);
        }
    }
    let ids2 = ids.push(m);
    assert forall|k: int, j: int|
        0 <= k < ids2.len() && 0 <= j < q.len() implies !desc(
        parent,
        #[trigger] ids2[k],
        #[trigger] q[j] as int,
    ) by {
        if j < r.len() {
            let jj = if j < h {
                j
            } else {
                j + 1
            };
            assert(q[j] == p[jj]);
            if k < ids.len() {
                assert(ids2[k] == ids[k]);
            }
        } else {
            let c = q[j] as int;
            assert(c == cs[j - r.len()]);
            if k < ids.len() {
                assert(ids2[k] == ids[k]);
                if desc(parent, ids[k], c) {
                    lemma_desc_trans(parent, ids[k], c, m);
                    assert(!desc(parent, ids[k], p[h] as int));
                }
            } else {
                if desc(parent, m, c) {
                    lemma_desc_ge(parent, m, c);
                }
            }
        }
    }
}

/// A sequence of distinct indices below `n` has at most `n` entries.
proof fn lemma_distinct_bound(ids: Seq<int>, n: int)
    requires
        0 <= n,
        ids.no_duplicates(),
        forall|k: int| 0 <= k < ids.len() ==> 0 <= #[trigger] ids[k] < n,
    ensures
        ids.len() <= n,
{
    ids.unique_seq_to_set();
    vstd::set_lib::lemma_int_range(0, n);
    assert(ids.to_set().subset_of(vstd::set_lib::set_int_range(0, n)));
    vstd::set_lib::lemma_len_subset(ids.to_set(), vstd::set_lib::set_int_range(0, n));
}

/// Whether `ord` lists each of the indices `0..n` exactly once.
pub open spec fn is_order(ord: Seq<usize>, n: nat) -> bool {
    &&& ord.len() == n
    &&& forall|k: int| 0 <= k < ord.len() ==> #[trigger] ord[k] < n
    &&& forall|k1: int, k2: int|
        0 <= k1 < ord.len() && 0 <= k2 < ord.len() && k1 != k2 ==> ord[k1] != ord[k2]
    &&& forall|x: int| 0 <= x < n ==> #[trigger] covers(ord, x)
}

/// Whether index `x` occurs in `ord`.
pub open spec fn covers(ord: Seq<usize>, x: int) -> bool {
    exists|k: int| 0 <= k < ord.len() && ord[k] as int == x
}

struct Node<T> {
    word: T,
    children: Vec<(isize, usize)>,
}

/// A BK-tree over items of type `T` under the metric `D`.
///
/// Nodes live in one vector; a child is named by its index there, and every
/// child has a larger index than its parent. Each edge carries the distance
/// from the parent's item to the child's item.
pub struct BkTree<T, D = LevenshteinDistance> {
    nodes: Vec<Node<T>>,
    dist: D,
    parent: Ghost<Seq<int>>,
    slot: Ghost<Seq<int>>,
}

impl<T, D: Distance<T>> BkTree<T, D> {
    /// The stored items, in the order in which they were first placed.
    pub closed spec fn items(&self) -> Seq<T> {
        self.nodes@.map_values(|n: Node<T>| n.word)
    }

    /// The metric the tree was built with.
    pub closed spec fn metric(&self) -> D {
        self.dist
    }

    spec fn word(&self, i: int) -> T {
        self.nodes@[i].word
    }

    spec fn kids(&self, i: int) -> Seq<(isize, usize)> {
        self.nodes@[i].children@
    }

    /// Label of the edge that leads into node `c`.
    spec fn label(&self, c: int) -> int {
        self.kids(self.parent@[c])[self.slot@[c]].0 as int
    }

    /// The edges out of node `i` (the node that holds `items()[i]`), as
    /// (label, child index) pairs in the order in which they were added.
    pub closed spec fn edges(&self, i: int) -> Seq<(isize, usize)> {
        self.nodes@[i].children@
    }

    /// Where the walk for `val` that starts at node `u` stops: at each node
    /// it follows the edge labelled with that node's distance from `val`.
    /// The result is the node reached, and whether its item is at distance
    /// zero from `val`.
    pub closed spec fn descend(&self, val: T, u: int) -> (int, bool)
        decreases self.items().len() - u,
    {
        if !(0 <= u < self.nodes@.len()) {
            (u, false)
        } else {
            let k = self.dist.spec_distance(self.word(u), val);
            if k == 0 {
                (u, true)
            } else if exists|j: int|
                0 <= j < self.kids(u).len() && (#[trigger] self.kids(u)[j]).0 as int == k {
                let j = choose|j: int|
                    0 <= j < self.kids(u).len() && (#[trigger] self.kids(u)[j]).0 as int == k;
                let c = self.kids(u)[j].1 as int;
                if u < c < self.items().len() {
                    self.descend(val, c)
                } else {
                    (u, false)
                }
            } else {
                (u, false)
            }
        }
    }

    /// How inserting `val` changes this tree into `after`. An empty tree
    /// gets `val` as its root, a leaf. Otherwise, if the walk from the root
    /// meets an item at distance zero from `val`, nothing changes at all.
    /// Else `val` becomes a new leaf under the node `p` where the walk
    /// stopped, on an edge labelled with their distance (never zero), pushed
    /// after `p`'s other edges; every other node keeps its edges.
    pub open spec fn grown(&self, val: T, after: Self) -> bool {
        let n = self.items().len() as int;
        let (p, hit) = self.descend(val, 0);
        let k = self.metric().spec_distance(self.items()[p], val);
        &&& after.metric() == self.metric()
        &&& if n == 0 {
            &&& after.items() == Seq::<T>::empty().push(val)
            &&& after.edges(0) == Seq::<(isize, usize)>::empty()
        } else if hit {
            after == *self
        } else {
            &&& 0 <= p < n
            &&& k != 0
            &&& after.items() == self.items().push(val)
            &&& after.edges(p).len() == self.edges(p).len() + 1
            &&& after.edges(p).take(self.edges(p).len() as int) == self.edges(p)
            &&& after.edges(p).last().0 as int == k
            &&& after.edges(p).last().1 as int == n
            &&& after.edges(n) == Seq::<(isize, usize)>::empty()
            &&& forall|i: int| 0 <= i < n && i != p ==> #[trigger] after.edges(i) == self.edges(i)
        }
    }

    /// After `val` was added as a new leaf, the walk for `val` from any node
    /// on its old path ends at that leaf, at distance zero.
    proof fn lemma_descend_grown(&self, after: Self, val: T, u: int)
        requires
            self.wf(),
            after.wf(),
            self.grown(val, after),
            self.items().len() > 0,
            !self.descend(val, 0).1,
            0 <= u < self.items().len(),
            self.descend(val, u) == self.descend(val, 0),
            self.metric().spec_distance(val, val) == 0,
        ensures
            after.descend(val, u) == (self.items().len() as int, true),
        decreases self.items().len() - u,
    {
        let n = self.items().len() as int;
        let p = self.descend(val, 0).0;
        assert(after.items() == self.items().push(val));
        assert(after.items()[u] == self.items()[u]);
        assert(after.word(u) == after.items()[u] && self.word(u) == self.items()[u]);
        assert(after.items()[n] == val && after.word(n) == after.items()[n]);
        assert(after.descend(val, n) == (n, true));
        let k = self.dist.spec_distance(self.word(u), val);
        if u == p {
            assert(after.kids(u) == after.edges(u));
            assert(self.kids(u) == self.edges(u));
            let last = self.kids(u).len() as int;
            assert(after.kids(u)[last].0 as int == k);
            assert(after.kids(u)[last].1 as int == n);
            let j = choose|j: int|
                0 <= j < after.kids(u).len() && (#[trigger] after.kids(u)[j]).0 as int == k;
            if j != last {
                assert(after.kids(u)[j].0 != after.kids(u)[last].0);
            }
        } else {
            assert(after.edges(u) == self.edges(u));
            assert(after.kids(u) == self.kids(u));
            let j = choose|j: int|
                0 <= j < self.kids(u).len() && (#[trigger] self.kids(u)[j]).0 as int == k;
            let c = self.kids(u)[j].1 as int;
            self.lemma_descend_grown(after, val, c);
        }
    }

    /// Whether `after` is what inserting each of `vals`, in order, makes of
    /// this tree.
    pub open spec fn grown_by_all(&self, vals: Seq<T>, after: Self) -> bool
        decreases vals.len(),
    {
        if vals.len() == 0 {
            after == *self
        } else {
            exists|mid: Self|
                self.grown_by_all(vals.drop_last(), mid) && mid.wf() && #[trigger] mid.grown(
                    vals.last(),
                    after,
                )
        }
    }

    proof fn lemma_grown_by_all_step(&self, vals: Seq<T>, mid: Self, after: Self)
        requires
            vals.len() > 0,
            self.grown_by_all(vals.drop_last(), mid),
            mid.wf(),
            mid.grown(vals.last(), after),
        ensures
            self.grown_by_all(vals, after),
    {
    }

    /// Node indices of the subtree at `u`, depth first: `u` itself, then
    /// the subtrees of its children, the latest-added child first.
    spec fn preorder(&self, u: int) -> Seq<int>
        decreases self.nodes@.len() - u, self.kids(u).len() + 1,
    {
        if 0 <= u < self.nodes@.len() {
            Seq::empty().push(u) + self.under(u, self.kids(u).len() as int)
        } else {
            Seq::empty()
        }
    }

    /// The subtrees of the first `j` children of `u`, latest first.
    spec fn under(&self, u: int, j: int) -> Seq<int>
        decreases self.nodes@.len() - u, j,
    {
        if 0 <= u < self.nodes@.len() && 0 < j <= self.kids(u).len() {
            let c = self.kids(u)[j - 1].1 as int;
            (if u < c < self.nodes@.len() {
                self.preorder(c)
            } else {
                Seq::empty()
            }) + self.under(u, j - 1)
        } else {
            Seq::empty()
        }
    }

    /// What a stack of pending nodes still yields, top of the stack first.
    spec fn stack_walk(&self, s: Seq<usize>) -> Seq<int>
        decreases s.len(),
    {
        if s.len() == 0 {
            Seq::empty()
        } else {
            self.preorder(s.last() as int) + self.stack_walk(s.drop_last())
        }
    }

    /// The stored items in traversal order: depth first from the root, each
    /// node before its subtrees, the latest-added child first.
    pub closed spec fn walk(&self) -> Seq<T> {
        self.preorder(0).map_values(|i: int| self.word(i))
    }

    /// Whether `rest` lists the stored items in some order, each once.
    pub open spec fn is_walk(&self, rest: Seq<T>) -> bool {
        exists|ord: Seq<usize>|
            is_order(ord, self.items().len()) && rest == ord.map_values(
                |i: usize| self.items()[i as int],
            )
    }

    /// What inserting `val` into this tree may give: `after` keeps the
    /// metric and either holds one more item, `val`, at the end, or holds
    /// the same items, which happens only when one of them is at distance
    /// zero from `val`, and always does when the metric laws hold.
    pub open spec fn inserted(&self, val: T, after: Self) -> bool {
        &&& after.metric() == self.metric()
        &&& after.items() == self.items() || after.items() == self.items().push(val)
        &&& after.items() == self.items() ==> exists|i: int|
            0 <= i < self.items().len() && self.metric().spec_distance(
                #[trigger] self.items()[i],
                val,
            ) == 0
        &&& is_metric(self.metric()) && (exists|i: int|
            0 <= i < self.items().len() && self.metric().spec_distance(
                #[trigger] self.items()[i],
                val,
            ) == 0) ==> after.items() == self.items()
    }

    /// Whether `r` holds, with its distance from `val`, every stored item
    /// within `max_dist` of `val`.
    pub open spec fn finds_all(&self, val: T, max_dist: isize, r: Seq<(&T, isize)>) -> bool {
        forall|i: int|
            0 <= i < self.items().len() && self.metric().spec_distance(
                #[trigger] self.items()[i],
                val,
            ) <= max_dist ==> exists|k: int|
                0 <= k < r.len() && *r[k].0 == self.items()[i] && r[k].1 as int
                    == self.metric().spec_distance(self.items()[i], val)
    }

    /// Whether `r` lists distinct stored items (at the positions `ids` of
    /// `items()`), each with its distance from `val`, none farther than
    /// `max_dist`.
    pub open spec fn reports(
        &self,
        ids: Seq<int>,
        val: T,
        max_dist: isize,
        r: Seq<(&T, isize)>,
    ) -> bool {
        &&& ids.len() == r.len()
        &&& ids.no_duplicates()
        &&& forall|k: int|
            0 <= k < r.len() ==> {
                &&& 0 <= #[trigger] ids[k] < self.items().len()
                &&& *r[k].0 == self.items()[ids[k]]
                &&& r[k].1 as int == self.metric().spec_distance(self.items()[ids[k]], val)
                &&& r[k].1 <= max_dist
            }
    }

    /// One step of `find` keeps every item within reach either reported or
    /// below a node still waiting in the queue.
    proof fn lemma_find_step(
        &self,
        val: T,
        max_dist: isize,
        m: int,
        distance: isize,
        old_q: Seq<usize>,
        head: int,
        q: Seq<usize>,
        old_ids: Seq<int>,
        ids: Seq<int>,
    )
        requires
            self.wf(),
            is_metric(self.dist),
            0 <= head < old_q.len(),
            old_q[head] as int == m,
            0 <= m < self.nodes@.len(),
            distance as int == self.dist.spec_distance(self.word(m), val),
            old_q.len() <= q.len(),
            q.subrange(0, old_q.len() as int) == old_q,
            distance <= max_dist ==> ids == old_ids.push(m),
            distance > max_dist ==> ids == old_ids,
            forall|i: int|
                0 <= i < self.kids(m).len() && #[trigger] within_spec(
                    self.kids(m)[i].0,
                    distance,
                    max_dist,
                ) ==> exists|p: int| old_q.len() <= p < q.len() && q[p] == self.kids(m)[i].1,
            forall|x: int|
                0 <= x < self.nodes@.len() && self.dist.spec_distance(#[trigger] self.word(x), val)
                    <= max_dist ==> (exists|k: int| 0 <= k < old_ids.len() && old_ids[k] == x) || (
                exists|j: int| head <= j < old_q.len() && desc(self.parent@, x, old_q[j] as int)),
        ensures
            forall|x: int|
                0 <= x < self.nodes@.len() && self.dist.spec_distance(#[trigger] self.word(x), val)
                    <= max_dist ==> (exists|k: int| 0 <= k < ids.len() && ids[k] == x) || (exists|
                j: int|
                head + 1 <= j < q.len() && desc(self.parent@, x, q[j] as int)),
    {
        assert forall|x: int|
            0 <= x < self.nodes@.len() && self.dist.spec_distance(#[trigger] self.word(x), val)
                <= max_dist implies (exists|k: int| 0 <= k < ids.len() && ids[k] == x) || (exists|
            j: int|
            head + 1 <= j < q.len() && desc(self.parent@, x, q[j] as int)) by {
            if exists|k: int| 0 <= k < old_ids.len() && old_ids[k] == x {
                let k = choose|k: int| 0 <= k < old_ids.len() && old_ids[k] == x;
                assert(ids[k] == x);
            } else {
                let j = choose|j: int|
                    head <= j < old_q.len() && desc(self.parent@, x, old_q[j] as int);
                if j > head {
                    assert(q[j] == old_q[j]);
                } else if x == m {
                    assert(ids[old_ids.len() as int] == x);
                } else {
                    let ch = lemma_child_on_path(self.parent@, x, m);
                    let sl = self.slot@[ch];
                    assert(self.kids(m)[sl].1 == ch);
                    let a = self.word(m);
                    let b = self.word(x);
                    let d = self.dist;
                    assert(d.spec_distance(a, b) == self.kids(m)[sl].0);
                    assert(d.spec_distance(a, b) <= d.spec_distance(a, val) + d.spec_distance(val, b));
                    assert(d.spec_distance(a, val) <= d.spec_distance(a, b) + d.spec_distance(b, val));
                    assert(d.spec_distance(val, b) == d.spec_distance(b, val));
                    assert(within_spec(self.kids(m)[sl].0, distance, max_dist));
                    let p = choose|p: int| old_q.len() <= p < q.len() && q[p] == self.kids(m)[sl].1;
                    assert(desc(self.parent@, x, q[p] as int));
                }
            }
        }
    }

    /// On the way down to an item `x` at distance zero from `val`, the edge
    /// to follow out of `u` is the one labelled with the distance of `val`.
    proof fn lemma_next_on_path(&self, x: int, u: int, val: T)
        requires
            self.wf(),
            is_metric(self.dist),
            0 <= u < self.nodes@.len(),
            0 <= x < self.nodes@.len(),
            desc(self.parent@, x, u),
            self.dist.spec_distance(self.word(x), val) == 0,
            self.dist.spec_distance(self.word(u), val) != 0,
        ensures
            exists|j: int|
                0 <= j < self.kids(u).len() && #[trigger] self.kids(u)[j].0 as int
                    == self.dist.spec_distance(self.word(u), val),
            forall|j: int|
                0 <= j < self.kids(u).len() && #[trigger] self.kids(u)[j].0 as int
                    == self.dist.spec_distance(self.word(u), val) ==> desc(
                    self.parent@,
                    x,
                    self.kids(u)[j].1 as int,
                ),
    {
        let ch = lemma_child_on_path(self.parent@, x, u);
        assert(desc(self.parent@, x, ch));
        let a = self.word(u);
        let b = self.word(x);
        let d = self.dist;
        assert(d.spec_distance(a, val) <= d.spec_distance(a, b) + d.spec_distance(b, val));
        assert(d.spec_distance(val, b) == d.spec_distance(b, val));
        assert(d.spec_distance(a, b) <= d.spec_distance(a, val) + d.spec_distance(val, b));
        let js = self.slot@[ch];
        assert(self.kids(u)[js].0 as int == d.spec_distance(a, val));
        assert forall|j: int|
            0 <= j < self.kids(u).len() && #[trigger] self.kids(u)[j].0 as int == d.spec_distance(
                a,
                val,
            ) implies desc(self.parent@, x, self.kids(u)[j].1 as int) by {
            if j != js {
                assert(self.kids(u)[j].0 != self.kids(u)[js].0);
            }
        }
    }

    /// Whether the tree's internal layout is consistent.
    pub closed spec fn wf(&self) -> bool {
        let n = self.nodes@.len();
        &&& self.parent@.len() == n
        &&& self.slot@.len() == n
        &&& parents_ok(self.parent@)
        &&& forall|c: int|
            0 < c < n ==> 0 <= #[trigger] self.slot@[c] < self.kids(self.parent@[c]).len()
                && self.kids(self.parent@[c])[self.slot@[c]].1 == c
        &&& forall|i: int, j: int|
            0 <= i < n && 0 <= j < self.kids(i).len() ==> {
                let c = (#[trigger] self.kids(i)[j]).1 as int;
                &&& i < c < n
                &&& self.parent@[c] == i
                &&& self.slot@[c] == j
            }
        &&& forall|i: int, j1: int, j2: int|
            0 <= i < n && 0 <= j1 < self.kids(i).len() && 0 <= j2 < self.kids(i).len() && j1
                != j2 ==> #[trigger] self.kids(i)[j1].0 != #[trigger] self.kids(i)[j2].0
        &&& forall|x: int, c: int|
            0 < c <= x < n && #[trigger] desc(self.parent@, x, c) ==> self.dist.spec_distance(
                self.word(self.parent@[c]),
                self.word(x),
            ) == self.label(c)
        &&& is_metric(self.dist) ==> forall|i: int, j: int|
            0 <= i < n && 0 <= j < n && i != j ==> #[trigger] self.dist.spec_distance(
                self.word(i),
                self.word(j),
            ) != 0
    }

    /// Creates an empty tree that measures with `dist`.
    pub fn new(dist: D) -> (r: Self)
        ensures
            r.wf(),
            r.items().len() == 0,
            r.metric() == dist,
    {
        BkTree { nodes: Vec::new(), dist, parent: Ghost(Seq::empty()), slot: Ghost(Seq::empty()) }
    }

    /// Every stored item within `max_dist` of `val`, with its distance.
    ///
    /// The tree is walked breadth first; the subtree under an edge labelled
    /// `arc` is skipped when `arc` and the distance of `val` from the edge's
    /// parent differ by more than `max_dist`. That skip loses nothing when
    /// the metric obeys the triangle inequality.
    pub fn find(&self, val: T, max_dist: isize) -> (r: Vec<(&T, isize)>)
        requires
            self.wf(),
        ensures
            exists|ids: Seq<int>| self.reports(ids, val, max_dist, r@),
            is_metric(self.metric()) ==> self.finds_all(val, max_dist, r@),
            self.items().len() == 0 ==> r@.len() == 0,
    {
        let mut found: Vec<(&T, isize)> = Vec::new();
        let n = self.nodes.len();
        if n == 0 {
            proof {
                assert(self.reports(Seq::empty(), val, max_dist, found@));
            }
            return found;
        }
        let mut queue: Vec<usize> = Vec::new();
        queue.push(0);
        let mut head: usize = 0;
        let ghost mut vis: Seq<int> = Seq::empty();
        let ghost mut ids: Seq<int> = Seq::empty();
        proof {
            assert forall|x: int| 0 <= x < n implies desc(self.parent@, x, queue@[0] as int) by {
                lemma_desc_root(self.parent@, x);
            }
            assert forall|x: int|
                0 <= x < n && self.dist.spec_distance(#[trigger] self.word(x), val) <= max_dist implies (
            exists|k: int| 0 <= k < ids.len() && ids[k] == x) || (exists|j: int|
                0 <= j < queue@.len() && desc(self.parent@, x, queue@[j] as int)) by {
                assert(desc(self.parent@, x, queue@[0] as int));
            }
        }
        while head < queue.len()
            invariant
                self.wf(),
                n == self.nodes@.len(),
                head <= queue@.len(),
                forall|j: int| 0 <= j < queue@.len() ==> #[trigger] queue@[j] < n,
                apart(self.parent@, queue@.subrange(head as int, queue@.len() as int)),
                unvisited(self.parent@, vis, queue@.subrange(head as int, queue@.len() as int)),
                unvisited(self.parent@, ids, queue@.subrange(head as int, queue@.len() as int)),
                vis.no_duplicates(),
                forall|k: int| 0 <= k < vis.len() ==> 0 <= #[trigger] vis[k] < n,
                vis.len() <= n,
                self.reports(ids, val, max_dist, found@),
                is_metric(self.dist) ==> forall|x: int|
                    0 <= x < n && self.dist.spec_distance(#[trigger] self.word(x), val) <= max_dist
                        ==> (exists|k: int| 0 <= k < ids.len() && ids[k] == x) || (exists|j: int|
                        head <= j < queue@.len() && desc(self.parent@, x, queue@[j] as int)),
            decreases n - vis.len(),
        {
            let m = queue[head];
            let ghost old_q = queue@;
            let ghost pend = queue@.subrange(head as int, queue@.len() as int);
            let distance = self.dist.distance(&self.nodes[m].word, &val);
            let ghost old_ids = ids;
            if distance <= max_dist {
                found.push((&self.nodes[m].word, distance));
                proof {
                    ids = ids.push(m as int);
                }
            }
            let nkids = self.nodes[m].children.len();
            let mut jj: usize = 0;
            while jj < nkids
                invariant
                    self.wf(),
                    n == self.nodes@.len(),
                    m < n,
                    nkids == self.kids(m as int).len(),
                    jj <= nkids,
                    old_q.len() <= queue@.len(),
                    queue@.subrange(0, old_q.len() as int) == old_q,
                    forall|j: int| 0 <= j < old_q.len() ==> #[trigger] old_q[j] < n,
                    forall|p: int|
                        old_q.len() <= p < queue@.len() ==> 0 < #[trigger] queue@[p] < n
                            && self.parent@[queue@[p] as int] == m && self.slot@[queue@[p] as int]
                            < jj,
                    forall|p1: int, p2: int|
                        old_q.len() <= p1 < p2 < queue@.len() ==> self.slot@[#[trigger] queue@[p1] as int]
                            < self.slot@[#[trigger] queue@[p2] as int],
                    forall|i: int|
                        0 <= i < jj && #[trigger] within_spec(
                            self.kids(m as int)[i].0,
                            distance,
                            max_dist,
                        ) ==> exists|p: int|
                            old_q.len() <= p < queue@.len() && queue@[p] == self.kids(m as int)[i].1,
                decreases nkids - jj,
            {
                let (arc, c) = self.nodes[m].children[jj];
                proof {
                    assert(self.kids(m as int)[jj as int] == (arc, c));
                }
                let ghost q_before = queue@;
                if within(arc, distance, max_dist) {
                    queue.push(c);
                }
                proof {
                    assert forall|i: int|
                        0 <= i < jj + 1 && #[trigger] within_spec(
                            self.kids(m as int)[i].0,
                            distance,
                            max_dist,
                        ) implies exists|p: int|
                        old_q.len() <= p < queue@.len() && queue@[p] == self.kids(m as int)[i].1 by {
                        if i < jj {
                            let p = choose|p: int|
                                old_q.len() <= p < q_before.len() && q_before[p] == self.kids(
                                    m as int,
                                )[i].1;
                            assert(queue@[p] == q_before[p]);
                        } else {
                            assert(queue@[queue@.len() - 1] == c);
                        }
                    }
                    assert(queue@.subrange(0, old_q.len() as int) =~= old_q);
                }
                jj = jj + 1;
            }
            proof {
                assert forall|j: int| 0 <= j < queue@.len() implies #[trigger] queue@[j] < n by {
                    if j < old_q.len() {
                        assert(queue@.subrange(0, old_q.len() as int)[j] == old_q[j]);
                    }
                }
                let cs = queue@.subrange(old_q.len() as int, queue@.len() as int);
                assert forall|i: int| 0 <= i < cs.len() implies 0 < #[trigger] cs[i]
                    < self.parent@.len() && self.parent@[cs[i] as int] == pend[0] as int by {
                    assert(cs[i] == queue@[old_q.len() + i]);
                }
                assert forall|i1: int, i2: int|
                    0 <= i1 < cs.len() && 0 <= i2 < cs.len() && i1 != i2 implies #[trigger] cs[i1]
                    != #[trigger] cs[i2] by {
                    assert(cs[i1] == queue@[old_q.len() + i1]);
                    assert(cs[i2] == queue@[old_q.len() + i2]);
                }
                assert forall|j: int| 0 <= j < pend.len() implies #[trigger] pend[j] < self.parent@.len() by {
                    assert(pend[j] == old_q[head + j]);
                }
                lemma_expand(self.parent@, vis, pend, 0, cs);
                lemma_expand(self.parent@, old_ids, pend, 0, cs);
                assert(queue@.subrange(head + 1, queue@.len() as int) =~= pend.remove(0) + cs);
                let nq = queue@.subrange(head + 1, queue@.len() as int);
                if ids != old_ids {
                    assert(ids =~= old_ids.push(m as int));
                } else {
                    assert forall|k: int, j: int|
                        0 <= k < ids.len() && 0 <= j < nq.len() implies !desc(
                        self.parent@,
                        #[trigger] ids[k],
                        #[trigger] nq[j] as int,
                    ) by {
                        assert(old_ids.push(m as int)[k] == ids[k]);
                    }
                }
                lemma_distinct_bound(vis.push(m as int), n as int);
                if is_metric(self.dist) {
                    self.lemma_find_step(val, max_dist, m as int, distance, old_q, head as int, queue@, old_ids, ids);
                }
                vis = vis.push(m as int);
            }
            head = head + 1;
        }
        proof {
            if is_metric(self.dist) {
                assert forall|i: int|
                    0 <= i < self.items().len() && self.metric().spec_distance(
                        #[trigger] self.items()[i],
                        val,
                    ) <= max_dist implies exists|k: int|
                    0 <= k < found@.len() && *found@[k].0 == self.items()[i] && found@[k].1 as int
                        == self.metric().spec_distance(self.items()[i], val) by {
                    assert(self.items()[i] == self.word(i));
                    let k = choose|k: int| 0 <= k < ids.len() && ids[k] == i;
                    assert(*found@[k].0 == self.items()[ids[k]]);
                }
            }
        }
        found
    }

    /// Node indices in the order of a depth-first walk that takes the
    /// latest child first: each node exactly once.
    fn walk_order(&self) -> (r: Vec<usize>)
        requires
            self.wf(),
        ensures
            is_order(r@, self.nodes@.len()),
            r@.len() == self.preorder(0).len(),
            forall|k: int| 0 <= k < r@.len() ==> #[trigger] r@[k] as int == self.preorder(0)[k],
    {
        let n = self.nodes.len();
        let mut out: Vec<usize> = Vec::new();
        let mut stack: Vec<usize> = Vec::new();
        let ghost mut vis: Seq<int> = Seq::empty();
        proof {
            if n == 0 {
                assert(self.stack_walk(stack@) =~= self.preorder(0));
            }
        }
        if n > 0 {
            stack.push(0);
            proof {
                assert(stack@.drop_last() =~= Seq::<usize>::empty());
                assert(stack@.last() == 0);
                assert(self.stack_walk(stack@.drop_last()) == Seq::<int>::empty());
                assert(self.stack_walk(stack@) == self.preorder(0) + Seq::<int>::empty());
                assert(self.stack_walk(stack@) =~= self.preorder(0));
                assert forall|x: int| 0 <= x < n implies #[trigger] vis.contains(x) || (exists|j: int|
                    0 <= j < stack@.len() && desc(self.parent@, x, #[trigger] stack@[j] as int)) by {
                    lemma_desc_root(self.parent@, x);
                    assert(desc(self.parent@, x, stack@[0] as int));
                }
            }
        }
        while stack.len() > 0
            invariant
                self.wf(),
                n == self.nodes@.len(),
                forall|j: int| 0 <= j < stack@.len() ==> #[trigger] stack@[j] < n,
                apart(self.parent@, stack@),
                unvisited(self.parent@, vis, stack@),
                vis.no_duplicates(),
                forall|k: int| 0 <= k < vis.len() ==> 0 <= #[trigger] vis[k] < n,
                vis.len() <= n,
                vis.len() == out@.len(),
                forall|k: int| 0 <= k < vis.len() ==> #[trigger] vis[k] == out@[k] as int,
                vis + self.stack_walk(stack@) == self.preorder(0),
                forall|x: int|
                    0 <= x < n ==> #[trigger] vis.contains(x) || (exists|
                        j: int|
                        0 <= j < stack@.len() && desc(self.parent@, x, #[trigger] stack@[j] as int)),
            decreases n - vis.len(),
        {
            let ghost old_s = stack@;
            let m = match stack.pop() {
                Some(m) => m,
                None => 0,
            };
            out.push(m);
            let ghost base = stack@;
            let nkids = self.nodes[m].children.len();
            proof {
                assert(base == old_s.drop_last() && m == old_s.last());
                assert(self.stack_walk(old_s) == self.preorder(m as int) + self.stack_walk(base));
                assert(self.under(m as int, 0) =~= Seq::<int>::empty());
                assert(self.stack_walk(stack@) =~= self.under(m as int, 0) + self.stack_walk(base));
            }
            let mut jj: usize = 0;
            while jj < nkids
                invariant
                    self.wf(),
                    n == self.nodes@.len(),
                    m < n,
                    nkids == self.kids(m as int).len(),
                    jj <= nkids,
                    base.len() <= stack@.len(),
                    stack@.subrange(0, base.len() as int) == base,
                    self.stack_walk(stack@) == self.under(m as int, jj as int) + self.stack_walk(base),
                    forall|p: int|
                        base.len() <= p < stack@.len() ==> 0 < #[trigger] stack@[p] < n
                            && self.parent@[stack@[p] as int] == m && self.slot@[stack@[p] as int]
                            < jj,
                    forall|p1: int, p2: int|
                        base.len() <= p1 < p2 < stack@.len() ==> self.slot@[#[trigger] stack@[p1] as int]
                            < self.slot@[#[trigger] stack@[p2] as int],
                    forall|i: int|
                        0 <= i < jj ==> exists|p: int|
                            base.len() <= p < stack@.len() && stack@[p] == (#[trigger] self.kids(
                                m as int,
                            )[i]).1,
                decreases nkids - jj,
            {
                let c = self.nodes[m].children[jj].1;
                let ghost s_before = stack@;
                stack.push(c);
                proof {
                    assert(stack@.drop_last() =~= s_before);
                    assert(self.kids(m as int)[jj as int].1 == c);
                    assert(self.under(m as int, jj + 1) == self.preorder(c as int) + self.under(
                        m as int,
                        jj as int,
                    ));
                    assert(self.stack_walk(stack@) =~= self.under(m as int, jj + 1) + self.stack_walk(
                        base,
                    ));
                    assert(self.kids(m as int)[jj as int].1 == c);
                    assert forall|i: int| 0 <= i < jj + 1 implies exists|p: int|
                        base.len() <= p < stack@.len() && stack@[p] == (#[trigger] self.kids(
                            m as int,
                        )[i]).1 by {
                        if i < jj {
                            let p = choose|p: int|
                                base.len() <= p < s_before.len() && s_before[p] == self.kids(
                                    m as int,
                                )[i].1;
                            assert(stack@[p] == s_before[p]);
                        } else {
                            assert(stack@[stack@.len() - 1] == c);
                        }
                    }
                    assert(stack@.subrange(0, base.len() as int) =~= base);
                }
                jj = jj + 1;
            }
            proof {
                let h = old_s.len() - 1;
                assert(base =~= old_s.remove(h));
                assert forall|j: int| 0 <= j < stack@.len() implies #[trigger] stack@[j] < n by {
                    if j < base.len() {
                        assert(stack@.subrange(0, base.len() as int)[j] == base[j]);
                    }
                }
                let cs = stack@.subrange(base.len() as int, stack@.len() as int);
                assert forall|i: int| 0 <= i < cs.len() implies 0 < #[trigger] cs[i]
                    < self.parent@.len() && self.parent@[cs[i] as int] == old_s[h] as int by {
                    assert(cs[i] == stack@[base.len() + i]);
                }
                assert forall|i1: int, i2: int|
                    0 <= i1 < cs.len() && 0 <= i2 < cs.len() && i1 != i2 implies #[trigger] cs[i1]
                    != #[trigger] cs[i2] by {
                    assert(cs[i1] == stack@[base.len() + i1]);
                    assert(cs[i2] == stack@[base.len() + i2]);
                }
                lemma_expand(self.parent@, vis, old_s, h, cs);
                assert(stack@ =~= old_s.remove(h) + cs);
                lemma_distinct_bound(vis.push(m as int), n as int);
                let vis2 = vis.push(m as int);
                assert(self.preorder(m as int) == Seq::empty().push(m as int) + self.under(
                    m as int,
                    nkids as int,
                ));
                assert(vis2 + self.stack_walk(stack@) =~= vis + self.stack_walk(old_s));
                assert forall|x: int| 0 <= x < n implies #[trigger] vis2.contains(x) || (exists|j: int|
                    0 <= j < stack@.len() && desc(self.parent@, x, #[trigger] stack@[j] as int)) by {
                    if vis.contains(x) {
                        let k = choose|k: int| 0 <= k < vis.len() && vis[k] == x;
                        assert(vis2[k] == x);
                    } else {
                        let j = choose|j: int|
                            0 <= j < old_s.len() && desc(self.parent@, x, #[trigger] old_s[j] as int);
                        if j < h {
                            assert(stack@[j] == old_s[j]);
                        } else if x == m {
                            assert(vis2[vis.len() as int] == x);
                        } else {
                            let ch = lemma_child_on_path(self.parent@, x, m as int);
                            let sl = self.slot@[ch];
                            assert(self.kids(m as int)[sl].1 == ch);
                            let p = choose|p: int|
                                base.len() <= p < stack@.len() && stack@[p] == self.kids(
                                    m as int,
                                )[sl].1;
                            assert(desc(self.parent@, x, stack@[p] as int));
                        }
                    }
                }
                vis = vis2;
            }
        }
        proof {
            assert forall|x: int| 0 <= x < n implies #[trigger] covers(out@, x) by {
                assert(vis.contains(x));
                let k = choose|k: int| 0 <= k < vis.len() && vis[k] == x;
                assert(out@[k] as int == x);
            }
            assert forall|k1: int, k2: int|
                0 <= k1 < out@.len() && 0 <= k2 < out@.len() && k1 != k2 implies out@[k1]
                != out@[k2] by {
                assert(vis[k1] != vis[k2]);
            }
            assert forall|k: int| 0 <= k < out@.len() implies #[trigger] out@[k] < n by {
                assert(vis[k] == out@[k] as int);
            }
            vis.unique_seq_to_set();
            vstd::seq_lib::seq_to_set_is_finite(vis);
            vstd::set_lib::lemma_int_range(0, n as int);
            assert forall|x: int| #[trigger]
                vstd::set_lib::set_int_range(0, n as int).contains(x) implies vis.to_set().contains(
                x,
            ) by {
                assert(vis.contains(x));
            }
            vstd::set_lib::lemma_len_subset(vstd::set_lib::set_int_range(0, n as int), vis.to_set());
            assert(vis =~= self.preorder(0));
        }
        out
    }

    /// Iterates over references to the stored items, in no particular order.
    pub fn iter(&self) -> (r: Iter<'_, T>)
        requires
            self.wf(),
        ensures
            self.is_walk(r.rest()),
            r.rest() == self.walk(),
    {
        let order = self.walk_order();
        let n = order.len();
        let mut items: Vec<&T> = Vec::new();
        let mut k: usize = n;
        while k > 0
            invariant
                k <= n,
                n == order@.len(),
                is_order(order@, self.nodes@.len()),
                items@.len() == n - k,
                forall|t: int|
                    0 <= t < n - k ==> *#[trigger] items@[t] == self.items()[order@[n - 1 - t] as int],
            decreases k,
        {
            k = k - 1;
            let i = order[k];
            items.push(&self.nodes[i].word);
            proof {
                assert(self.items()[i as int] == self.nodes@[i as int].word);
            }
        }
        let r = Iter { items };
        proof {
            assert(self.items().len() == self.nodes@.len());
            assert(r.rest() =~= order@.map_values(|i: usize| self.items()[i as int]));
            assert forall|k: int| 0 <= k < order@.len() implies #[trigger] r.rest()[k] == self.walk()[k] by {
                assert(self.items()[order@[k] as int] == self.word(order@[k] as int));
            }
            assert(r.rest() =~= self.walk());
        }
        r
    }

    /// Consumes the tree, handing out its items in no particular order.
    pub fn into_iter(self) -> (r: IntoIter<T>)
        requires
            self.wf(),
        ensures
            self.is_walk(r.rest()),
            r.rest() == self.walk(),
    {
        let order = self.walk_order();
        let ghost words = self.items();
        let n = self.nodes.len();
        let mut nodes = self.nodes;
        let mut slots: Vec<Option<T>> = Vec::new();
        while nodes.len() > 0
            invariant
                nodes@.len() + slots@.len() == n,
                n == words.len(),
                forall|i: int| 0 <= i < nodes@.len() ==> #[trigger] nodes@[i].word == words[i],
                forall|k: int| 0 <= k < slots@.len() ==> #[trigger] slots@[k] == Some(words[n - 1 - k]),
            decreases nodes@.len(),
        {
            match nodes.pop() {
                Some(node) => {
                    slots.push(Some(node.word));
                },
                None => {},
            }
        }
        let mut out: Vec<T> = Vec::new();
        let mut k: usize = n;
        while k > 0
            invariant
                k <= n,
                slots@.len() == n,
                n == words.len(),
                is_order(order@, n as nat),
                out@.len() == n - k,
                forall|t: int| 0 <= t < n - k ==> #[trigger] out@[t] == words[order@[n - 1 - t] as int],
                forall|t: int|
                    0 <= t < k ==> slots@[n - 1 - #[trigger] order@[t]] == Some(words[order@[t] as int]),
            decreases k,
        {
            k = k - 1;
            let i = order[k];
            let ghost before = slots@;
            let w = slots[n - 1 - i].take();
            proof {
                assert forall|t: int| 0 <= t < k implies slots@[n - 1 - #[trigger] order@[t]] == Some(
                    words[order@[t] as int],
                ) by {
                    assert(order@[t] != order@[k as int]);
                    assert(slots@[n - 1 - order@[t]] == before[n - 1 - order@[t]]);
                }
            }
            match w {
                Some(v) => {
                    out.push(v);
                },
                None => {},
            }
        }
        let r = IntoIter { items: out };
        proof {
            assert(r.rest() =~= order@.map_values(|i: usize| words[i as int]));
            assert forall|k: int| 0 <= k < order@.len() implies #[trigger] r.rest()[k] == self.walk()[k] by {
                assert(words[order@[k] as int] == self.word(order@[k] as int));
            }
            assert(r.rest() =~= self.walk());
        }
        r
    }

    /// Inserts each item of `vals`, in order.
    pub fn insert_all(&mut self, vals: Vec<T>)
        requires
            old(self).wf(),
        ensures
            final(self).wf(),
            old(self).grown_by_all(vals@, *final(self)),
            final(self).metric() == old(self).metric(),
            old(self).items().is_prefix_of(final(self).items()),
            forall|i: int|
                old(self).items().len() <= i < final(self).items().len() ==> vals@.contains(
                    #[trigger] final(self).items()[i],
                ),
            forall|v: T|
                #[trigger] vals@.contains(v) ==> final(self).items().contains(v) || exists|i: int|
                    0 <= i < final(self).items().len() && old(self).metric().spec_distance(
                        #[trigger] final(self).items()[i],
                        v,
                    ) == 0,
    {
        let ghost input = vals@;
        let mut vals = vals;
        let mut rev: Vec<T> = Vec::new();
        while vals.len() > 0
            invariant
                vals@.len() + rev@.len() == input.len(),
                vals@ == input.subrange(0, vals@.len() as int),
                forall|t: int| 0 <= t < rev@.len() ==> #[trigger] rev@[t] == input[input.len() - 1 - t],
            decreases vals@.len(),
        {
            match vals.pop() {
                Some(v) => {
                    rev.push(v);
                },
                None => {},
            }
            proof {
                assert(vals@ =~= input.subrange(0, vals@.len() as int));
            }
        }
        proof {
            assert(input.subrange(0, 0) =~= Seq::<T>::empty());
        }
        while rev.len() > 0
            invariant
                self.wf(),
                old(self).grown_by_all(input.subrange(0, input.len() - rev@.len()), *self),
                self.metric() == old(self).metric(),
                rev@.len() <= input.len(),
                forall|t: int| 0 <= t < rev@.len() ==> #[trigger] rev@[t] == input[input.len() - 1 - t],
                old(self).items().is_prefix_of(self.items()),
                forall|i: int|
                    old(self).items().len() <= i < self.items().len() ==> input.contains(
                        #[trigger] self.items()[i],
                    ),
                forall|j: int|
                    0 <= j < input.len() - rev@.len() ==> self.items().contains(#[trigger] input[j])
                        || exists|i: int|
                        0 <= i < self.items().len() && old(self).metric().spec_distance(
                            #[trigger] self.items()[i],
                            input[j],
                        ) == 0,
            decreases rev@.len(),
        {
            let ghost before = self.items();
            let ghost before_t = *self;
            let ghost at = input.len() - rev@.len();
            match rev.pop() {
                Some(v) => {
                    proof {
                        assert(v == input[at]);
                    }
                    self.insert(v);
                    proof {
                        assert(0 <= at < input.len());
                        let done = input.subrange(0, at + 1);
                        assert(done.len() == at + 1);
                        assert(done.drop_last() =~= input.subrange(0, at));
                        assert(done.last() == v);
                        assert(old(self).grown_by_all(done.drop_last(), before_t) && before_t.wf()
                            && before_t.grown(done.last(), *self));
                        old(self).lemma_grown_by_all_step(done, before_t, *self);
                        let now = self.items();
                        assert(before.is_prefix_of(now));
                        assert forall|i: int| 0 <= i < before.len() implies #[trigger] now[i] == before[i] by {}
                        assert forall|i: int|
                            old(self).items().len() <= i < now.len() implies input.contains(
                            #[trigger] now[i],
                        ) by {
                            if i >= before.len() {
                                assert(now[i] == v);
                                assert(input[at] == v);
                            } else {
                                assert(now[i] == before[i]);
                            }
                        }
                        assert forall|j: int|
                            0 <= j < at + 1 implies now.contains(#[trigger] input[j]) || exists|i: int|
                            0 <= i < now.len() && old(self).metric().spec_distance(
                                #[trigger] now[i],
                                input[j],
                            ) == 0 by {
                            if j < at {
                                if before.contains(input[j]) {
                                    let i = choose|i: int| 0 <= i < before.len() && before[i] == input[j];
                                    assert(now[i] == input[j]);
                                } else {
                                    let i = choose|i: int|
                                        0 <= i < before.len() && old(self).metric().spec_distance(
                                            #[trigger] before[i],
                                            input[j],
                                        ) == 0;
                                    assert(now[i] == before[i]);
                                }
                            } else if now != before {
                                assert(now[now.len() - 1] == v);
                            } else {
                                let i = choose|i: int|
                                    0 <= i < before.len() && old(self).metric().spec_distance(
                                        #[trigger] before[i],
                                        v,
                                    ) == 0;
                                assert(now[i] == before[i]);
                            }
                        }
                    }
                },
                None => {},
            }
        }
        proof {
            assert(input.len() - rev@.len() == input.len());
            assert(input.subrange(0, input.len() as int) =~= input);
        }
    }

    /// Places `val` in the tree, unless an item at distance zero from it is
    /// met on the way down.
    pub fn insert(&mut self, val: T)
        requires
            old(self).wf(),
        ensures
            final(self).wf(),
            old(self).grown(val, *final(self)),
            old(self).inserted(val, *final(self)),
            final(self).items() == old(self).items() ==> *final(self) == *old(self),
    {
        let n = self.nodes.len();
        if n == 0 {
            self.nodes.push(Node { word: val, children: Vec::new() });
            self.parent = Ghost(Seq::empty().push(0int));
            self.slot = Ghost(Seq::empty().push(0int));
            proof {
                assert(self.items() =~= old(self).items().push(val));
                assert(old(self).items().len() == 0);
                assert(self.items() =~= Seq::<T>::empty().push(val));
                assert(self.edges(0) =~= Seq::<(isize, usize)>::empty());
                assert forall|x: int, c: int|
                    0 < c <= x < 1 && #[trigger] desc(self.parent@, x, c) implies false by {}
            }
            return;
        }
        let ghost zero = exists|i: int|
            0 <= i < n && self.dist.spec_distance(#[trigger] self.word(i), val) == 0;
        let ghost x: int = if zero {
            choose|i: int| 0 <= i < n && self.dist.spec_distance(#[trigger] self.word(i), val) == 0
        } else {
            0
        };
        proof {
            if zero {
                assert(self.items()[x] == self.word(x));
            }
            assert forall|i: int| 0 <= i < n implies #[trigger] self.items()[i] == self.word(i) by {}
            if zero {
                lemma_desc_root(self.parent@, x);
            }
        }
        let mut u: usize = 0;
        loop
            invariant
                *self == *old(self),
                self.wf(),
                n == self.nodes@.len(),
                u < n,
                zero ==> 0 <= x < n && self.dist.spec_distance(self.word(x), val) == 0,
                !zero ==> forall|i: int|
                    0 <= i < n ==> self.dist.spec_distance(#[trigger] self.word(i), val) != 0,
                forall|i: int| 0 <= i < n ==> #[trigger] self.items()[i] == self.word(i),
                forall|c: int|
                    0 < c < n && #[trigger] desc(self.parent@, u as int, c)
                        ==> self.dist.spec_distance(self.word(self.parent@[c]), val) == self.label(c),
                zero && is_metric(self.dist) ==> desc(self.parent@, x, u as int),
                self.descend(val, 0) == self.descend(val, u as int),
            decreases n - u,
        {
            let k = self.dist.distance(&self.nodes[u].word, &val);
            if k == 0 {
                proof {
                    assert(self.items()[u as int] == self.word(u as int));
                }
                return;
            }
            proof {
                if zero && is_metric(self.dist) {
                    self.lemma_next_on_path(x, u as int, val);
                }
            }
            match edge_with_label(&self.nodes[u].children, k) {
                None => {
                    let ghost old_kids = self.kids(u as int);
                    let ghost p = self.parent@;
                    self.nodes.push(Node { word: val, children: Vec::new() });
                    self.nodes[u].children.push((k, n));
                    self.parent = Ghost(p.push(u as int));
                    self.slot = Ghost(self.slot@.push(old_kids.len() as int));
                    proof {
                        let ot = *old(self);
                        assert(self.word(u as int) == ot.word(u as int));
                        assert(self.kids(u as int) =~= old_kids.push((k, n)));
                        assert(self.kids(u as int).take(old_kids.len() as int) =~= old_kids);
                        assert(self.kids(n as int) =~= Seq::<(isize, usize)>::empty());
                        assert forall|i: int| 0 <= i < n && i != u implies #[trigger] self.kids(i)
                            == ot.kids(i) && self.word(i) == ot.word(i) by {}
                        assert forall|c: int| 0 < c < n implies #[trigger] self.label(c) == ot.label(c)
                            by {}
                        assert(self.label(n as int) == k);
                        assert forall|x2: int, c2: int|
                            0 < c2 <= x2 < n + 1 && #[trigger] desc(self.parent@, x2, c2) implies self.dist.spec_distance(
                            self.word(self.parent@[c2]),
                            self.word(x2),
                        ) == self.label(c2) by {
                            if x2 < n {
                                lemma_desc_push(p, u as int, x2, c2);
                                lemma_desc_ge(p, x2, c2);
                            } else if c2 != n {
                                lemma_desc_push(p, u as int, u as int, c2);
                                assert(desc(p, u as int, c2));
                                lemma_desc_ge(p, u as int, c2);
                            }
                        }
                        assert(self.items() =~= ot.items().push(val));
                        assert(!(zero && is_metric(self.dist)));
                        if is_metric(self.dist) {
                            assert(self.word(n as int) == val);
                            assert forall|i: int, j: int|
                                0 <= i < n + 1 && 0 <= j < n + 1 && i != j implies #[trigger] self.dist.spec_distance(
                                self.word(i),
                                self.word(j),
                            ) != 0 by {
                                if i < n && j < n {
                                    assert(ot.dist.spec_distance(ot.word(i), ot.word(j)) != 0);
                                } else if i == n {
                                    assert(ot.dist.spec_distance(ot.word(j), val) != 0);
                                    assert(self.dist.spec_distance(val, self.word(j))
                                        == self.dist.spec_distance(self.word(j), val));
                                } else {
                                    assert(ot.dist.spec_distance(ot.word(i), val) != 0);
                                }
                            }
                            assert forall|i: int|
                                0 <= i < n && self.dist.spec_distance(
                                    #[trigger] ot.items()[i],
                                    val,
                                ) == 0 implies false by {
                                assert(ot.items()[i] == ot.word(i));
                                assert(ot.word(i) == old(self).word(i));
                                assert(zero);
                            }
                        }
                    }
                    return;
                },
                Some(j) => {
                    let c = self.nodes[u].children[j].1;
                    proof {
                        assert(self.kids(u as int)[j as int].1 == c);
                        assert(self.parent@[c as int] == u);
                        assert forall|c2: int|
                            0 < c2 < n && #[trigger] desc(self.parent@, c as int, c2) implies self.dist.spec_distance(
                            self.word(self.parent@[c2]),
                            val,
                        ) == self.label(c2) by {
                            if c2 != c {
                                assert(desc(self.parent@, u as int, c2));
                            }
                        }
                    }
                    u = c;
                },
            }
        }
    }
}

/// Inserting one item twice: the second insertion leaves the items as they
/// were, and a search for that item within distance zero then reports
/// exactly one stored item, at distance zero.
pub proof fn lemma_insert_twice<T, D: Distance<T>>(
    t1: BkTree<T, D>,
    t2: BkTree<T, D>,
    t3: BkTree<T, D>,
    v: T,
    ids: Seq<int>,
    r: Seq<(&T, isize)>,
)
    requires
        t1.wf(),
        t2.wf(),
        t3.wf(),
        is_metric(t1.metric()),
        t1.inserted(v, t2),
        t2.inserted(v, t3),
        t3.reports(ids, v, 0, r),
        t3.finds_all(v, 0, r),
    ensures
        t3.items() == t2.items(),
        r.len() == 1,
        r[0].1 == 0,
{
    let d = t1.metric();
    if t2.items() != t1.items() {
        let last = t2.items().len() - 1;
        assert(t2.items()[last] == v);
        assert(d.spec_distance(v, v) == 0);
        assert(d.spec_distance(t2.items()[last], v) == 0);
    } else {
        let i = choose|i: int|
            0 <= i < t1.items().len() && d.spec_distance(#[trigger] t1.items()[i], v) == 0;
        assert(t2.items()[i] == t1.items()[i]);
    }
    assert(t3.items() == t2.items());
    let i = choose|i: int|
        0 <= i < t2.items().len() && d.spec_distance(#[trigger] t2.items()[i], v) == 0;
    assert(t3.items()[i] == t2.items()[i]);
    assert(r.len() >= 1);
    assert(d.spec_distance(t3.items()[ids[0]], v) >= 0);
    if r.len() > 1 {
        let a = t3.items()[ids[0]];
        let b = t3.items()[ids[1]];
        assert(ids[0] != ids[1]);
        assert(d.spec_distance(b, v) >= 0);
        assert(d.spec_distance(v, b) == d.spec_distance(b, v));
        assert(d.spec_distance(a, b) <= d.spec_distance(a, v) + d.spec_distance(v, b));
        assert(a == t3.word(ids[0]) && b == t3.word(ids[1]));
        assert(t3.dist.spec_distance(t3.word(ids[0]), t3.word(ids[1])) != 0);
    }
}

/// Inserting one item twice gives the same tree as inserting it once,
/// whenever the item is at distance zero from itself.
pub proof fn lemma_insert_idempotent<T, D: Distance<T>>(
    t1: BkTree<T, D>,
    t2: BkTree<T, D>,
    t3: BkTree<T, D>,
    v: T,
)
    requires
        t1.wf(),
        t2.wf(),
        t1.grown(v, t2),
        t2.grown(v, t3),
        t1.metric().spec_distance(v, v) == 0,
    ensures
        t3 == t2,
{
    let n = t1.items().len() as int;
    if n == 0 {
        assert(t2.items()[0] == v);
        assert(t2.word(0) == t2.items()[0]);
        assert(t2.descend(v, 0) == (0int, true));
    } else {
        let (p, hit) = t1.descend(v, 0);
        if !hit {
            t1.lemma_descend_grown(t2, v, 0);
        }
    }
}

/// When the tree obeys the metric laws, no two stored items are at
/// distance zero from each other.
pub proof fn lemma_items_apart<T, D: Distance<T>>(t: BkTree<T, D>)
    requires
        t.wf(),
        is_metric(t.metric()),
    ensures
        forall|i: int, j: int|
            0 <= i < t.items().len() && 0 <= j < t.items().len() && i != j
                ==> #[trigger] t.metric().spec_distance(t.items()[i], t.items()[j]) != 0,
{
    assert forall|i: int, j: int|
        0 <= i < t.items().len() && 0 <= j < t.items().len() && i != j
            implies #[trigger] t.metric().spec_distance(t.items()[i], t.items()[j]) != 0 by {
        assert(t.items()[i] == t.word(i) && t.items()[j] == t.word(j));
    }
}

/// Every pair that a search reports is a stored item with its true
/// distance from the query, and that distance is within the bound.
pub proof fn lemma_find_sound<T, D: Distance<T>>(
    t: BkTree<T, D>,
    val: T,
    max_dist: isize,
    r: Seq<(&T, isize)>,
)
    requires
        exists|ids: Seq<int>| t.reports(ids, val, max_dist, r),
    ensures
        forall|k: int|
            0 <= k < r.len() ==> t.items().contains(*(#[trigger] r[k]).0) && r[k].1 as int
                == t.metric().spec_distance(*r[k].0, val) && r[k].1 <= max_dist,
{
    let ids = choose|ids: Seq<int>| t.reports(ids, val, max_dist, r);
    assert forall|k: int| 0 <= k < r.len() implies t.items().contains(*(#[trigger] r[k]).0)
        && r[k].1 as int == t.metric().spec_distance(*r[k].0, val) && r[k].1 <= max_dist by {
        assert(t.items()[ids[k]] == *r[k].0);
    }
}

/// A full traversal yields every stored item, each once, and nothing else.
pub proof fn lemma_walk_complete<T, D: Distance<T>>(t: BkTree<T, D>, rest: Seq<T>)
    requires
        t.is_walk(rest),
    ensures
        rest.len() == t.items().len(),
        rest.to_set() == t.items().to_set(),
{
    let ord = choose|ord: Seq<usize>|
        is_order(ord, t.items().len()) && rest == ord.map_values(|i: usize| t.items()[i as int]);
    assert forall|x: T| #[trigger] rest.to_set().contains(x) implies t.items().to_set().contains(x) by {
        let k = choose|k: int| 0 <= k < rest.len() && rest[k] == x;
        assert(ord[k] < t.items().len());
        assert(t.items()[ord[k] as int] == x);
    }
    assert forall|x: T| #[trigger] t.items().to_set().contains(x) implies rest.to_set().contains(x) by {
        let i = choose|i: int| 0 <= i < t.items().len() && t.items()[i] == x;
        assert(covers(ord, i));
        let k = choose|k: int| 0 <= k < ord.len() && ord[k] as int == i;
        assert(rest[k] == x);
    }
    assert(rest.to_set() =~= t.items().to_set());
}

/// Whether `arc` and `d` differ by at most `max_dist`.
pub open spec fn within_spec(arc: isize, d: isize, max_dist: isize) -> bool {
    (if arc - d >= 0 {
        arc - d
    } else {
        d - arc
    }) <= max_dist
}

/// Whether `arc` and `d` differ by at most `max_dist`.
fn within(arc: isize, d: isize, max_dist: isize) -> (r: bool)
    ensures
        r == within_spec(arc, d, max_dist),
{
    let diff: i128 = arc as i128 - d as i128;
    let gap: i128 = if diff >= 0 {
        diff
    } else {
        -diff
    };
    gap <= max_dist as i128
}

/// Iterator over references to the items of a tree.
pub struct Iter<'a, T> {
    items: Vec<&'a T>,
}

impl<'a, T> Iter<'a, T> {
    /// The items still to come, next first.
    pub closed spec fn rest(&self) -> Seq<T> {
        self.items@.reverse().map_values(|r: &'a T| *r)
    }

    /// The next item, if any is left.
    pub fn next(&mut self) -> (r: Option<&'a T>)
        ensures
            old(self).rest().len() == 0 ==> r is None && final(self).rest() == old(self).rest(),
            old(self).rest().len() > 0 ==> r is Some && *r->0 == old(self).rest()[0]
                && final(self).rest() == old(self).rest().drop_first(),
    {
        let r = self.items.pop();
        proof {
            if old(self).items@.len() > 0 {
                assert(self.rest() =~= old(self).rest().drop_first());
            }
        }
        r
    }

    /// The items still to come, in order.
    pub fn collect(self) -> (r: Vec<&'a T>)
        ensures
            r@.map_values(|x: &'a T| *x) == self.rest(),
    {
        let mut it = self;
        let mut out: Vec<&'a T> = Vec::new();
        while it.items.len() > 0
            invariant
                out@.map_values(|x: &'a T| *x) + it.rest() == self.rest(),
            decreases it.items@.len(),
        {
            match it.next() {
                Some(x) => {
                    out.push(x);
                    proof {
                        assert(out@.map_values(|x: &'a T| *x) + it.rest() =~= self.rest());
                    }
                },
                None => {},
            }
        }
        out
    }
}

/// Iterator that hands out the items of a consumed tree.
pub struct IntoIter<T> {
    items: Vec<T>,
}

impl<T> IntoIter<T> {
    /// The items still to come, next first.
    pub closed spec fn rest(&self) -> Seq<T> {
        self.items@.reverse()
    }

    /// The next item, if any is left.
    pub fn next(&mut self) -> (r: Option<T>)
        ensures
            old(self).rest().len() == 0 ==> r is None && final(self).rest() == old(self).rest(),
            old(self).rest().len() > 0 ==> r == Some(old(self).rest()[0])
                && final(self).rest() == old(self).rest().drop_first(),
    {
        let r = self.items.pop();
        proof {
            if old(self).items@.len() > 0 {
                assert(self.rest() =~= old(self).rest().drop_first());
            }
        }
        r
    }

    /// The items still to come, in order.
    pub fn collect(self) -> (r: Vec<T>)
        ensures
            r@ == self.rest(),
    {
        let mut it = self;
        let mut out: Vec<T> = Vec::new();
        while it.items.len() > 0
            invariant
                out@ + it.rest() == self.rest(),
            decreases it.items@.len(),
        {
            match it.next() {
                Some(x) => {
                    out.push(x);
                    proof {
                        assert(out@ + it.rest() =~= self.rest());
                    }
                },
                None => {},
            }
        }
        proof {
            assert(it.rest() =~= Seq::<T>::empty());
            assert(out@ + it.rest() =~= out@);
        }
        out
    }
}

/// Position of the edge labelled `k` among `children`, if there is one.
fn edge_with_label(children: &Vec<(isize, usize)>, k: isize) -> (r: Option<usize>)
    ensures
        match r {
            Some(j) => j < children@.len() && children@[j as int].0 == k,
            None => forall|j: int| 0 <= j < children@.len() ==> #[trigger] children@[j].0 != k,
        },
{
    let mut j: usize = 0;
    while j < children.len()
        invariant
            j <= children@.len(),
            forall|j2: int| 0 <= j2 < j ==> #[trigger] children@[j2].0 != k,
        decreases children@.len() - j,
    {
        if children[j].0 == k {
            return Some(j);
        }
        j = j + 1;
    }
    None
}

} // verus!
