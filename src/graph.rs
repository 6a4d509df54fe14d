//! Dependency graph over task identifiers.
use vstd::prelude::*;

verus! {

/// Number of `false` entries of a flag sequence.
pub open spec fn count_false(s: Seq<bool>) -> nat
    decreases s.len(),
{
    if s.len() == 0 {
        0
    } else {
        count_false(s.drop_last()) + if s.last() { 0nat } else { 1nat }
    }
}

proof fn lemma_count_false_update(s: Seq<bool>, i: int)
    requires
        0 <= i < s.len(),
        !s[i],
    ensures
        count_false(s.update(i, true)) + 1 == count_false(s),
    decreases s.len(),
{
    let t = s.update(i, true);
    if i == s.len() - 1 {
        assert(t.drop_last() =~= s.drop_last());
    } else {
        assert(t.drop_last() =~= s.drop_last().update(i, true));
        lemma_count_false_update(s.drop_last(), i);
    }
}

proof fn lemma_count_false_witness(s: Seq<bool>) -> (i: int)
    requires
        count_false(s) > 0,
    ensures
        0 <= i < s.len(),
        !s[i],
    decreases s.len(),
{
    if !s.last() {
        s.len() - 1
    } else {
        lemma_count_false_witness(s.drop_last())
    }
}

proof fn first_pending(o: Seq<usize>, done: Seq<bool>, k: int, x: int) -> (i: int)
    requires
        0 <= k <= x < o.len(),
        forall|y: int| 0 <= y < o.len() ==> o[y] < done.len(),
        !done[o[x] as int],
    ensures
        k <= i < o.len(),
        !done[o[i] as int],
        forall|y: int| k <= y < i ==> done[o[y] as int],
    decreases o.len() - k,
{
    if !done[o[k] as int] {
        k
    } else {
        first_pending(o, done, k + 1, x)
    }
}

proof fn lemma_count_false_all(n: nat)
    ensures
        count_false(Seq::new(n, |i: int| false)) == n,
    decreases n,
{
    if n > 0 {
        assert(Seq::new(n, |i: int| false).drop_last() =~= Seq::new((n - 1) as nat, |i: int| false));
        lemma_count_false_all((n - 1) as nat);
    }
}

/// A directed graph whose nodes are numbered in the order they were added.
/// Node `i` stands for the task id `ids[i]`; `succs[i]` lists the distinct
/// direct successors of node `i`.
pub struct Graph {
    ids: Vec<usize>,
    succs: Vec<Vec<usize>>,
}

impl Graph {
    /// Task id of each node, by node index.
    pub closed spec fn node_ids(&self) -> Seq<usize> {
        self.ids@
    }

    pub open spec fn size(&self) -> nat {
        self.node_ids().len()
    }

    /// Whether there is an edge from node `u` to node `v`.
    pub closed spec fn edge(&self, u: int, v: int) -> bool {
        0 <= u < self.succs@.len() && exists|k: int|
            0 <= k < self.succs@[u]@.len() && #[trigger] self.succs@[u]@[k] as int == v
    }

    /// The direct successors of node `u`, each once.
    pub closed spec fn successors(&self, u: int) -> Seq<usize> {
        self.succs@[u]@
    }

    /// Number of distinct direct successors of node `u`.
    pub open spec fn degree(&self, u: int) -> nat {
        self.successors(u).len()
    }

    /// The successors of a node are the targets of its edges, listed once.
    pub proof fn lemma_successors(&self, u: int)
        requires
            self.wf(),
            0 <= u < self.size(),
        ensures
            self.successors(u).no_duplicates(),
            forall|v: usize| self.edge(u, v as int) <==> self.successors(u).contains(v),
            forall|k: int| 0 <= k < self.successors(u).len() ==> self.edge(u, #[trigger] self.successors(u)[k] as int),
    {
        assert forall|v: usize| self.edge(u, v as int) <==> self.successors(u).contains(v) by {
            if self.edge(u, v as int) {
                let k = choose|k: int| 0 <= k < self.succs@[u]@.len() && #[trigger] self.succs@[u]@[k] as int == v as int;
                assert(self.successors(u)[k] == v);
            }
            if self.successors(u).contains(v) {
                let k = choose|k: int| 0 <= k < self.successors(u).len() && self.successors(u)[k] == v;
                assert(self.succs@[u]@[k] as int == v as int);
            }
        }
    }

    pub closed spec fn wf(&self) -> bool {
        &&& self.succs@.len() == self.ids@.len()
        &&& self.ids@.no_duplicates()
        &&& forall|u: int| #![trigger self.succs@[u]]
            0 <= u < self.succs@.len() ==> {
                &&& self.succs@[u]@.no_duplicates()
                &&& forall|k: int| 0 <= k < self.succs@[u]@.len() ==> self.succs@[u]@[k] < self.ids@.len()
            }
    }

    /// `o` lists every node exactly once, each after all of its predecessors.
    pub open spec fn is_topo_order(&self, o: Seq<usize>) -> bool {
        &&& o.no_duplicates()
        &&& forall|i: int| 0 <= i < o.len() ==> o[i] < self.size()
        &&& forall|v: usize| v < self.size() ==> o.contains(v)
        &&& forall|i: int, j: int|
            0 <= i < o.len() && 0 <= j < o.len() && #[trigger] self.edge(o[j] as int, o[i] as int) ==> j < i
    }

    /// Node `w` is not in `prefix` and every predecessor of it is.
    pub open spec fn ready_after(&self, prefix: Seq<usize>, w: int) -> bool {
        &&& 0 <= w < self.size()
        &&& !prefix.contains(w as usize)
        &&& forall|u: int| 0 <= u < self.size() && #[trigger] self.edge(u, w) ==> prefix.contains(u as usize)
    }

    /// `v` is the lowest-numbered node ready after `prefix`.
    pub open spec fn lowest_ready(&self, prefix: Seq<usize>, v: int) -> bool {
        &&& self.ready_after(prefix, v)
        &&& forall|w: int| 0 <= w < v ==> !#[trigger] self.ready_after(prefix, w)
    }

    /// The graph has no cycle: some order puts every edge forward.
    pub open spec fn acyclic(&self) -> bool {
        exists|o: Seq<usize>| self.is_topo_order(o)
    }

    pub fn new() -> (g: Graph)
        ensures
            g.wf(),
            g.size() == 0,
            forall|u: int, v: int| !g.edge(u, v),
    {
        Graph { ids: Vec::new(), succs: Vec::new() }
    }

    pub fn len(&self) -> (r: usize)
        ensures
            r == self.size(),
    {
        self.ids.len()
    }

    /// Index of the node that stands for `id`, if any.
    pub fn find_index_by_id(&self, id: usize) -> (r: Option<usize>)
        requires
            self.wf(),
        ensures
            match r {
                Some(i) => i < self.size() && self.node_ids()[i as int] == id,
                None => !self.node_ids().contains(id),
            },
    {
        let mut i: usize = 0;
        while i < self.ids.len()
            invariant
                i <= self.ids@.len(),
                forall|k: int| 0 <= k < i ==> self.ids@[k] != id,
            decreases self.ids@.len() - i,
        {
            if self.ids[i] == id {
                return Some(i);
            }
            i = i + 1;
        }
        None
    }

    /// Task id of node `index`, if it exists.
    pub fn find_id_by_index(&self, index: usize) -> (r: Option<usize>)
        ensures
            r == (if index < self.size() { Some(self.node_ids()[index as int]) } else { None::<usize> }),
    {
        if index < self.ids.len() {
            Some(self.ids[index])
        } else {
            None
        }
    }

    /// Adds a node for `id`; refuses an id that is already present.
    pub fn add_node(&mut self, id: usize) -> (added: bool)
        requires
            old(self).wf(),
        ensures
            final(self).wf(),
            added == !old(self).node_ids().contains(id),
            added ==> final(self).node_ids() == old(self).node_ids().push(id),
            !added ==> *final(self) == *old(self),
            forall|u: int, v: int| final(self).edge(u, v) == old(self).edge(u, v),
            forall|u: int| 0 <= u < old(self).size() ==> final(self).degree(u) == old(self).degree(u),
            added ==> final(self).degree(old(self).size() as int) == 0,
    {
        if self.find_index_by_id(id).is_some() {
            return false;
        }
        self.ids.push(id);
        self.succs.push(Vec::new());
        proof {
            assert(self.succs@[self.succs@.len() - 1]@ =~= Seq::<usize>::empty());
            assert forall|u: int| 0 <= u < self.succs@.len() implies {
                &&& self.succs@[u]@.no_duplicates()
                &&& forall|k: int| 0 <= k < self.succs@[u]@.len() ==> self.succs@[u]@[k] < self.ids@.len()
            } by {
                if u < old(self).succs@.len() {
                    assert(self.succs@[u] == old(self).succs@[u]);
                }
            }
            assert forall|u: int, v: int| self.edge(u, v) == old(self).edge(u, v) by {
                if 0 <= u < old(self).succs@.len() {
                    assert(self.succs@[u] == old(self).succs@[u]);
                }
            }
        }
        true
    }

    /// Adds the edge `src -> dst`; an edge already present is kept once.
    pub fn add_edge(&mut self, src: usize, dst: usize)
        requires
            old(self).wf(),
            src < old(self).size(),
            dst < old(self).size(),
        ensures
            final(self).wf(),
            final(self).node_ids() == old(self).node_ids(),
            forall|u: int, v: int| final(self).edge(u, v) == (old(self).edge(u, v) || (u == src && v == dst)),
            forall|u: int| 0 <= u < old(self).size() && u != src ==> final(self).degree(u) == old(self).degree(u),
            final(self).degree(src as int) == old(self).degree(src as int) + if old(self).edge(src as int, dst as int) { 0int } else { 1int },
    {
        let mut i: usize = 0;
        let n = self.succs[src].len();
        while i < n
            invariant
                *self == *old(self),
                self.wf(),
                src < self.succs@.len(),
                n == self.succs@[src as int]@.len(),
                i <= n,
                forall|k: int| 0 <= k < i ==> self.succs@[src as int]@[k] != dst,
            decreases n - i,
        {
            if self.succs[src][i] == dst {
                return;
            }
            i = i + 1;
        }
        let mut row = self.succs[src].clone();
        assert(row@ =~= old(self).succs@[src as int]@);
        row.push(dst);
        self.succs.set(src, row);
        proof {
            let g = *old(self);
            assert forall|u: int, v: int| self.edge(u, v) == (g.edge(u, v) || (u == src && v == dst)) by {
                if u == src {
                    let row = self.succs@[u]@;
                    assert(row == g.succs@[u]@.push(dst));
                    if self.edge(u, v) && !(v == dst) {
                        let k = choose|k: int| 0 <= k < row.len() && #[trigger] row[k] as int == v;
                        assert(g.succs@[u]@[k] as int == v);
                    }
                    if g.edge(u, v) {
                        let k = choose|k: int| 0 <= k < g.succs@[u]@.len() && #[trigger] g.succs@[u]@[k] as int == v;
                        assert(row[k] as int == v);
                    }
                    if v == dst {
                        assert(row[row.len() - 1] as int == v);
                    }
                } else if 0 <= u < self.succs@.len() {
                    assert(self.succs@[u] == g.succs@[u]);
                }
            }
            assert forall|u: int| 0 <= u < self.succs@.len() implies {
                &&& self.succs@[u]@.no_duplicates()
                &&& forall|k: int| 0 <= k < self.succs@[u]@.len() ==> self.succs@[u]@[k] < self.ids@.len()
            } by {
                if u == src {
                    assert(self.succs@[u]@ == g.succs@[u]@.push(dst));
                } else {
                    assert(self.succs@[u] == g.succs@[u]);
                }
            }
        }
    }

    /// Number of distinct direct successors of the node for `id`; 0 for an
    /// unknown id.
    pub fn get_node_out_degree(&self, id: usize) -> (r: usize)
        requires
            self.wf(),
        ensures
            self.node_ids().contains(id) ==> exists|i: int|
                0 <= i < self.size() && self.node_ids()[i] == id && r == self.degree(i),
            !self.node_ids().contains(id) ==> r == 0,
    {
        match self.find_index_by_id(id) {
            Some(i) => {
                let r = self.succs[i].len();
                assert(self.node_ids()[i as int] == id && r == self.degree(i as int));
                r
            },
            None => 0,
        }
    }

    fn has_edge(&self, u: usize, v: usize) -> (r: bool)
        requires
            u < self.succs@.len(),
        ensures
            r == self.edge(u as int, v as int),
    {
        let mut k: usize = 0;
        let n = self.succs[u].len();
        while k < n
            invariant
                u < self.succs@.len(),
                n == self.succs@[u as int]@.len(),
                k <= n,
                forall|j: int| 0 <= j < k ==> self.succs@[u as int]@[j] != v,
            decreases n - k,
        {
            if self.succs[u][k] == v {
                return true;
            }
            k = k + 1;
        }
        false
    }

    /// Whether node `v` is pending and every predecessor of it is done.
    fn ready(&self, done: &Vec<bool>, v: usize) -> (r: bool)
        requires
            self.wf(),
            done@.len() == self.size(),
            v < self.size(),
        ensures
            r == (!done@[v as int] && forall|u: int| 0 <= u < self.size() && self.edge(u, v as int) ==> done@[u]),
    {
        if done[v] {
            return false;
        }
        let mut u: usize = 0;
        while u < done.len()
            invariant
                self.wf(),
                done@.len() == self.size(),
                u <= done@.len(),
                forall|w: int| 0 <= w < u && self.edge(w, v as int) ==> done@[w],
            decreases done@.len() - u,
        {
            if !done[u] && self.has_edge(u, v) {
                return false;
            }
            u = u + 1;
        }
        true
    }

    /// Sorts the nodes topologically, taking at each step the lowest-numbered
    /// node whose predecessors have all been taken. `None` when the graph has
    /// a cycle (a node with an edge to itself included).
    pub fn topo_sort(&self) -> (r: Option<Vec<usize>>)
        requires
            self.wf(),
        ensures
            match r {
                Some(o) => self.is_topo_order(o@) && forall|k: int|
                    0 <= k < o@.len() ==> self.lowest_ready(#[trigger] o@.subrange(0, k), o@[k] as int),
                None => !self.acyclic(),
            },
    {
        let n = self.ids.len();
        let mut done: Vec<bool> = Vec::new();
        while done.len() < n
            invariant
                done@.len() <= n,
                forall|k: int| 0 <= k < done@.len() ==> !done@[k],
            decreases n - done@.len(),
        {
            done.push(false);
        }
        proof {
            assert(done@ =~= Seq::new(n as nat, |i: int| false));
            lemma_count_false_all(n as nat);
        }
        let mut order: Vec<usize> = Vec::new();
        while order.len() < n
            invariant
                self.wf(),
                n == self.size(),
                done@.len() == n,
                order@.len() + count_false(done@) == n,
                order@.no_duplicates(),
                forall|i: int| 0 <= i < order@.len() ==> order@[i] < n,
                forall|v: int| 0 <= v < n ==> (done@[v] <==> order@.contains(v as usize)),
                forall|i: int, u: int|
                    0 <= i < order@.len() && 0 <= u < n && #[trigger] self.edge(u, order@[i] as int) ==>
                        exists|j: int| 0 <= j < i && order@[j] == u,
                forall|k: int| 0 <= k < order@.len() ==> self.lowest_ready(#[trigger] order@.subrange(0, k), order@[k] as int),
            decreases n - order@.len(),
        {
            let mut w: usize = 0;
            let mut pick: Option<usize> = None;
            while w < n
                invariant
                    self.wf(),
                    n == self.size(),
                    done@.len() == n,
                    w <= n,
                    pick matches Some(p) ==> p < n && !done@[p as int]
                        && forall|u: int| 0 <= u < n && self.edge(u, p as int) ==> done@[u],
                    pick is None ==> forall|x: int| 0 <= x < w ==> !(!done@[x] && forall|u: int| 0 <= u < n && self.edge(u, x) ==> done@[u]),
                    pick matches Some(p) ==> forall|x: int| 0 <= x < p ==> !(!done@[x] && forall|u: int| 0 <= u < n && self.edge(u, x) ==> done@[u]),
                decreases n - w,
            {
                if pick.is_none() && self.ready(&done, w) {
                    pick = Some(w);
                }
                w = w + 1;
            }
            let v = match pick {
                Some(p) => p,
                None => {
                    proof {
                        self.lemma_stuck_has_no_order(done@);
                    }
                    return None;
                },
            };
            proof {
                lemma_count_false_update(done@, v as int);
            }
            let ghost old_order = order@;
            let ghost old_done = done@;
            proof {
                assert forall|x: int| 0 <= x < n implies (old_done[x] <==> old_order.contains(x as usize)) by {}
                assert(self.ready_after(old_order, v as int));
                assert forall|w2: int| 0 <= w2 < v implies !#[trigger] self.ready_after(old_order, w2) by {
                    if self.ready_after(old_order, w2) {
                        assert(!old_done[w2]);
                        assert(!(!old_done[w2] && forall|u: int| 0 <= u < n && self.edge(u, w2) ==> old_done[u]));
                        assert forall|u: int| 0 <= u < n && self.edge(u, w2) implies old_done[u] by {
                            assert(old_order.contains(u as usize));
                        }
                    }
                }
            }
            done.set(v, true);
            order.push(v);
            proof {
                assert forall|k: int| 0 <= k < order@.len() implies self.lowest_ready(#[trigger] order@.subrange(0, k), order@[k] as int) by {
                    if k < old_order.len() {
                        assert(order@.subrange(0, k) =~= old_order.subrange(0, k));
                    } else {
                        assert(order@.subrange(0, k) =~= old_order);
                    }
                }
                assert forall|w: int| 0 <= w < n implies (done@[w] <==> order@.contains(w as usize)) by {
                    if w == v {
                        assert(order@[old_order.len() as int] == v);
                    } else if done@[w] {
                        assert(old_done[w]);
                        let j = choose|j: int| 0 <= j < old_order.len() && old_order[j] == w as usize;
                        assert(order@[j] == w as usize);
                    } else if order@.contains(w as usize) {
                        let j = choose|j: int| 0 <= j < order@.len() && order@[j] == w as usize;
                        assert(j < old_order.len());
                        assert(old_order.contains(w as usize));
                    }
                }
                assert forall|i: int, u: int|
                    0 <= i < order@.len() && 0 <= u < n && #[trigger] self.edge(u, order@[i] as int) implies
                        exists|j: int| 0 <= j < i && order@[j] == u by {
                    if i < old_order.len() {
                        let j = choose|j: int| 0 <= j < i && old_order[j] == u;
                        assert(order@[j] == u);
                    } else {
                        assert(old_done[u]);
                        assert(old_order.contains(u as usize));
                        let j = choose|j: int| 0 <= j < old_order.len() && old_order[j] == u as usize;
                        assert(order@[j] == u);
                    }
                }
            }
        }
        proof {
            assert forall|v: usize| v < self.size() implies order@.contains(v) by {
                if !done@[v as int] {
                    self.lemma_stuck_count(done@, v as int);
                }
            }
            assert forall|i: int, j: int|
                0 <= i < order@.len() && 0 <= j < order@.len() && #[trigger] self.edge(order@[j] as int, order@[i] as int) implies j < i by {
                let k = choose|k: int| 0 <= k < i && order@[k] == order@[j];
                assert(k == j);
            }
        }
        Some(order)
    }

    proof fn lemma_stuck_count(&self, done: Seq<bool>, v: int)
        requires
            0 <= v < done.len(),
            !done[v],
        ensures
            count_false(done) > 0,
        decreases done.len(),
    {
        if v == done.len() - 1 {
        } else {
            self.lemma_stuck_count(done.drop_last(), v);
        }
    }

    /// When some node is pending and every pending node has a pending
    /// predecessor, no topological order exists: its earliest pending node
    /// would come after one of its predecessors.
    proof fn lemma_stuck_has_no_order(&self, done: Seq<bool>)
        requires
            self.wf(),
            done.len() == self.size(),
            done.len() <= usize::MAX,
            count_false(done) > 0,
            forall|w: int| 0 <= w < done.len() ==> !(!done[w] && forall|u: int| 0 <= u < done.len() && self.edge(u, w) ==> done[u]),
        ensures
            !self.acyclic(),
    {
        if self.acyclic() {
            let o = choose|o: Seq<usize>| self.is_topo_order(o);
            let w0 = lemma_count_false_witness(done);
            assert(o.contains(w0 as usize));
            let i0 = choose|i: int| 0 <= i < o.len() && o[i] == w0 as usize;
            // the pending node that comes first in `o`
            assert(o[i0] as int == w0);
            let best = first_pending(o, done, 0, i0);
            let w = o[best] as int;
            assert(!(!done[w] && forall|u: int| 0 <= u < done.len() && self.edge(u, w) ==> done[u]));
            let u = choose|u: int| 0 <= u < done.len() && self.edge(u, w) && !done[u];
            assert(o.contains(u as usize));
            let j = choose|j: int| 0 <= j < o.len() && o[j] == u as usize;
            assert(self.edge(o[j] as int, o[best] as int));
            assert(j < best);
        }
    }
}

} // verus!
