use vstd::prelude::*;

use crate::passes::parse::{name_index, set_field};
use crate::shared::definitions::NewtypeId;
use crate::shared::tables::{table_view, DefV, GenericShape, GenericTypeDef, ShapeV, TableV};
use crate::shared::typing::{generic_views, lemma_generic_views, GType, GenericType};

verus! {

// ---------------------------------------------------------------------------------------------
// Dependency graphs: each node with the nodes it depends on.

pub type DepGraph = Vec<(NewtypeId, Vec<NewtypeId>)>;

pub open spec fn key(g: Seq<(NewtypeId, Vec<NewtypeId>)>, i: int) -> Seq<char> {
    g[i].0.0@
}

/// The names a node depends on.
pub open spec fn nbrs(g: Seq<(NewtypeId, Vec<NewtypeId>)>, u: int) -> Seq<Seq<char>> {
    g[u].1@.map_values(|x: NewtypeId| x.0@)
}

/// No node occurs twice.
pub open spec fn keys_distinct(g: Seq<(NewtypeId, Vec<NewtypeId>)>) -> bool {
    forall|i: int, j: int| 0 <= i < g.len() && 0 <= j < g.len() && i != j ==> key(g, i) != key(g, j)
}

/// How often `k` occurs in `s`.
pub open spec fn occ(s: Seq<Seq<char>>, k: Seq<char>) -> nat
    decreases s.len(),
{
    if s.len() == 0 {
        0
    } else {
        (if s[0] == k { 1nat } else { 0nat }) + occ(s.drop_first(), k)
    }
}

/// Node `u` depends on node `v`.
pub open spec fn depends(g: Seq<(NewtypeId, Vec<NewtypeId>)>, u: int, v: int) -> bool {
    occ(nbrs(g, u), key(g, v)) > 0
}

/// The graph has no cycle: some ranking puts every node above the nodes it depends on.
pub open spec fn acyclic(g: Seq<(NewtypeId, Vec<NewtypeId>)>) -> bool {
    exists|rank: Seq<nat>| #[trigger] rank.len() == g.len()
        && forall|u: int, v: int| 0 <= u < g.len() && 0 <= v < g.len() && depends(g, u, v) ==> rank[u] > rank[v]
}

/// The number of edges of the graph.
pub open spec fn edge_count(g: Seq<(NewtypeId, Vec<NewtypeId>)>, k: int) -> nat
    decreases k,
{
    if k <= 0 {
        0
    } else {
        edge_count(g, k - 1) + g[k - 1].1@.len()
    }
}

/// The edges into `v` from the nodes before `k` that are not done.
pub open spec fn in_count(g: Seq<(NewtypeId, Vec<NewtypeId>)>, done: Seq<bool>, v: int, k: int) -> nat
    decreases k,
{
    if k <= 0 {
        0
    } else {
        in_count(g, done, v, k - 1) + if done[k - 1] { 0nat } else { occ(nbrs(g, k - 1), key(g, v)) }
    }
}

/// `order` lists every node once, and each node after the nodes it depends on.
pub open spec fn topological(g: Seq<(NewtypeId, Vec<NewtypeId>)>, order: Seq<Seq<char>>) -> bool {
    &&& order.len() == g.len()
    &&& forall|i: int| 0 <= i < g.len() ==> order.contains(#[trigger] key(g, i))
    &&& forall|a: int, b: int| 0 <= a < order.len() && 0 <= b < order.len() && a != b ==> order[a] != order[b]
    &&& forall|a: int, b: int, u: int, v: int|
        #![trigger order[a], order[b], depends(g, u, v)]
        0 <= a < order.len() && 0 <= b < order.len() && 0 <= u < g.len() && 0 <= v < g.len()
        && order[a] == key(g, u) && order[b] == key(g, v) && depends(g, u, v) ==> b < a
}

// ---------------------------------------------------------------------------------------------
// Facts about the counts.

pub proof fn lemma_occ_push(s: Seq<Seq<char>>, x: Seq<char>, k: Seq<char>)
    ensures
        occ(s.push(x), k) == occ(s, k) + if x == k { 1nat } else { 0nat },
    decreases s.len(),
{
    if s.len() > 0 {
        lemma_occ_push(s.drop_first(), x, k);
        assert(s.push(x).drop_first() =~= s.drop_first().push(x));
        assert(s.push(x)[0] == s[0]);
    } else {
        assert(s.push(x).drop_first() =~= Seq::<Seq<char>>::empty());
        assert(s.push(x)[0] == x);
        assert(occ(Seq::<Seq<char>>::empty(), k) == 0);
        assert(occ(s, k) == 0);
    }
}

pub proof fn lemma_occ_skip(s: Seq<Seq<char>>, j: int, k: Seq<char>)
    requires
        0 <= j < s.len(),
    ensures
        occ(s.subrange(j, s.len() as int), k) == (if s[j] == k { 1nat } else { 0nat }) + occ(s.subrange(j + 1, s.len() as int), k),
{
    assert(s.subrange(j, s.len() as int).drop_first() =~= s.subrange(j + 1, s.len() as int));
}

pub proof fn lemma_in_count_zero(g: Seq<(NewtypeId, Vec<NewtypeId>)>, done: Seq<bool>, v: int, k: int)
    ensures
        in_count(g, done, v, k) == 0 <==> forall|u: int| 0 <= u < k && !done[u] ==> occ(nbrs(g, u), key(g, v)) == 0,
    decreases k,
{
    if k > 0 {
        lemma_in_count_zero(g, done, v, k - 1);
    }
}

/// Marking node `u` done removes its edges.
pub proof fn lemma_in_count_done(g: Seq<(NewtypeId, Vec<NewtypeId>)>, done: Seq<bool>, u: int, v: int, k: int)
    requires
        0 <= u < done.len(),
        k <= done.len(),
        !done[u],
    ensures
        u < k ==> in_count(g, done.update(u, true), v, k) + occ(nbrs(g, u), key(g, v)) == in_count(g, done, v, k),
        u >= k ==> in_count(g, done.update(u, true), v, k) == in_count(g, done, v, k),
    decreases k,
{
    if k > 0 {
        lemma_in_count_done(g, done, u, v, k - 1);
    }
}

pub proof fn lemma_edge_count_prefix(g: Seq<(NewtypeId, Vec<NewtypeId>)>, m: int, n: int)
    requires
        0 <= m <= n,
    ensures
        edge_count(g, m) <= edge_count(g, n),
    decreases n - m,
{
    if m < n {
        lemma_edge_count_prefix(g, m, n - 1);
    }
}

pub proof fn lemma_in_count_bound(g: Seq<(NewtypeId, Vec<NewtypeId>)>, done: Seq<bool>, v: int, k: int)
    requires
        0 <= k <= g.len(),
    ensures
        in_count(g, done, v, k) <= edge_count(g, k),
    decreases k,
{
    if k > 0 {
        lemma_in_count_bound(g, done, v, k - 1);
        lemma_occ_bound(nbrs(g, k - 1), key(g, v));
    }
}

pub proof fn lemma_occ_bound(s: Seq<Seq<char>>, k: Seq<char>)
    ensures
        occ(s, k) <= s.len(),
    decreases s.len(),
{
    if s.len() > 0 {
        lemma_occ_bound(s.drop_first(), k);
    }
}

/// Distinct indices below `n` are at most `n`.
pub proof fn lemma_distinct_bound(s: Seq<usize>, n: nat)
    requires
        s.no_duplicates(),
        forall|i: int| 0 <= i < s.len() ==> s[i] < n,
    ensures
        s.len() <= n,
{
    let t = s.map_values(|x: usize| x as int);
    assert(t.no_duplicates()) by {
        assert forall|i: int, j: int| 0 <= i < t.len() && 0 <= j < t.len() && i != j implies t[i] != t[j] by {
            assert(s[i] != s[j]);
        }
    }
    t.unique_seq_to_set();
    vstd::set_lib::lemma_int_range(0, n as int);
    assert(t.to_set().subset_of(vstd::set_lib::set_int_range(0, n as int)));
    vstd::set_lib::lemma_len_subset(t.to_set(), vstd::set_lib::set_int_range(0, n as int));
}

/// Among nodes that are not done, one of highest rank.
pub proof fn lemma_max_rank(rank: Seq<nat>, done: Seq<bool>, k: int) -> (m: int)
    requires
        0 < k <= rank.len(),
        k <= done.len(),
        exists|u: int| 0 <= u < k && !done[u],
    ensures
        0 <= m < k,
        !done[m],
        forall|u: int| 0 <= u < k && !done[u] ==> rank[u] <= rank[m],
    decreases k,
{
    if k == 1 {
        0
    } else if exists|u: int| 0 <= u < k - 1 && !done[u] {
        let m = lemma_max_rank(rank, done, k - 1);
        if !done[k - 1] && rank[k - 1] > rank[m] { k - 1 } else { m }
    } else {
        k - 1
    }
}

pub proof fn lemma_occ_split(s: Seq<Seq<char>>, j: int, k: Seq<char>)
    requires
        0 <= j <= s.len(),
    ensures
        occ(s.subrange(0, j), k) + occ(s.subrange(j, s.len() as int), k) == occ(s, k),
    decreases j,
{
    if j == 0 {
        assert(s.subrange(0, 0) =~= Seq::<Seq<char>>::empty());
        assert(s.subrange(0, s.len() as int) =~= s);
    } else {
        lemma_occ_split(s, j - 1, k);
        assert(s.subrange(0, j - 1).push(s[j - 1]) =~= s.subrange(0, j));
        lemma_occ_push(s.subrange(0, j - 1), s[j - 1], k);
        lemma_occ_skip(s, j - 1, k);
    }
}

/// A sequence holding every index below `n` has at least `n` elements.
pub proof fn lemma_cover_bound(s: Seq<usize>, n: nat)
    requires
        n <= usize::MAX,
        forall|w: int| 0 <= w < n ==> #[trigger] s.contains(w as usize),
    ensures
        s.len() >= n,
{
    let t = s.map_values(|x: usize| x as int);
    vstd::set_lib::lemma_int_range(0, n as int);
    assert forall|w: int| vstd::set_lib::set_int_range(0, n as int).contains(w) implies t.to_set().contains(w) by {
        assert(s.contains(w as usize));
        let i = choose|i: int| 0 <= i < s.len() && #[trigger] s[i] == w as usize;
        assert(t[i] == w);
    }
    t.lemma_cardinality_of_set();
    vstd::set_lib::lemma_len_subset(vstd::set_lib::set_int_range(0, n as int), t.to_set());
}

/// Where node `name` is in the graph.
fn index_of(g: &Vec<(NewtypeId, Vec<NewtypeId>)>, name: &NewtypeId) -> (r: Option<usize>)
    requires
        keys_distinct(g@),
    ensures
        match r {
            Some(i) => i < g@.len() && key(g@, i as int) == name.0@,
            None => forall|i: int| 0 <= i < g@.len() ==> key(g@, i) != name.0@,
        },
{
    let mut i: usize = 0;
    while i < g.len()
        invariant
            i <= g@.len(),
            forall|j: int| 0 <= j < i ==> key(g@, j) != name.0@,
        decreases g.len() - i,
    {
        if g[i].0.0 == name.0 {
            return Some(i);
        }
        i = i + 1;
    }
    None
}

/// Orders the nodes of an acyclic graph so that every node comes after the nodes it depends on.
pub fn toposort_depgraph(depgraph: DepGraph) -> (r: Vec<NewtypeId>)
    requires
        keys_distinct(depgraph@),
        acyclic(depgraph@),
        edge_count(depgraph@, depgraph@.len() as int) < usize::MAX,
    ensures
        topological(depgraph@, r@.map_values(|x: NewtypeId| x.0@)),
{
    match try_toposort_depgraph(depgraph) {
        Some(order) => order,
        None => {
            assert(false);
            Vec::new()
        },
    }
}

/// Orders the nodes of a graph so that every node comes after the nodes it depends on; `None`
/// exactly where the graph has a cycle, so that no such order exists.
pub fn try_toposort_depgraph(depgraph: DepGraph) -> (r: Option<Vec<NewtypeId>>)
    requires
        keys_distinct(depgraph@),
        edge_count(depgraph@, depgraph@.len() as int) < usize::MAX,
    ensures
        r is Some <==> acyclic(depgraph@),
        r is Some ==> topological(depgraph@, r->Some_0@.map_values(|x: NewtypeId| x.0@)),
{
    let ghost g = depgraph@;
    let n = depgraph.len();
    let ghost none = Seq::new(n as nat, |i: int| false);
    let mut indegrees: Vec<usize> = Vec::new();
    let mut k: usize = 0;
    while k < n
        invariant
            k <= n,
            indegrees@.len() == k,
            forall|v: int| 0 <= v < k ==> indegrees@[v] == 0,
        decreases n - k,
    {
        indegrees.push(0);
        k = k + 1;
    }
    let mut u: usize = 0;
    while u < n
        invariant
            g == depgraph@,
            n == g.len(),
            none.len() == n,
            forall|i: int| 0 <= i < n ==> !none[i],
            keys_distinct(g),
            edge_count(g, n as int) < usize::MAX,
            u <= n,
            indegrees@.len() == n,
            forall|v: int| 0 <= v < n ==> indegrees@[v] == in_count(g, none, v, u as int),
        decreases n - u,
    {
        let ghost nb = nbrs(g, u as int);
        let mut j: usize = 0;
        while j < depgraph[u].1.len()
            invariant
                g == depgraph@,
                n == g.len(),
                none.len() == n,
                forall|i: int| 0 <= i < n ==> !none[i],
                keys_distinct(g),
                edge_count(g, n as int) < usize::MAX,
                u < n,
                nb == nbrs(g, u as int),
                nb.len() == depgraph@[u as int].1@.len(),
                j <= nb.len(),
                indegrees@.len() == n,
                forall|v: int| 0 <= v < n ==> indegrees@[v] == in_count(g, none, v, u as int) + occ(nb.subrange(0, j as int), key(g, v)),
            decreases depgraph@[u as int].1@.len() - j,
        {
            match index_of(&depgraph, &depgraph[u].1[j]) {
                Some(v) => {
                    proof {
                        lemma_occ_split(nb, j + 1, key(g, v as int));
                        assert(nb.subrange(0, j as int).push(nb[j as int]) =~= nb.subrange(0, j + 1));
                        lemma_occ_push(nb.subrange(0, j as int), nb[j as int], key(g, v as int));
                        lemma_in_count_bound(g, none, v as int, u + 1);
                        lemma_edge_count_prefix(g, u + 1, n as int);
                        assert(in_count(g, none, v as int, u + 1) == in_count(g, none, v as int, u as int) + occ(nb, key(g, v as int)));
                    }
                    let d = indegrees[v];
                    indegrees.set(v, d + 1);
                },
                None => {},
            }
            proof {
                assert forall|v: int| 0 <= v < n implies indegrees@[v] == in_count(g, none, v, u as int) + occ(nb.subrange(0, j + 1), key(g, v)) by {
                    assert(nb.subrange(0, j as int).push(nb[j as int]) =~= nb.subrange(0, j + 1));
                    lemma_occ_push(nb.subrange(0, j as int), nb[j as int], key(g, v));
                }
            }
            j = j + 1;
        }
        proof {
            assert(nb.subrange(0, nb.len() as int) =~= nb);
        }
        u = u + 1;
    }
    let mut queue: Vec<usize> = Vec::new();
    let mut w: usize = 0;
    while w < n
        invariant
            n == g.len(),
            w <= n,
            indegrees@.len() == n,
            queue@.no_duplicates(),
            forall|p: int| 0 <= p < queue@.len() ==> queue@[p] < w,
            forall|x: int| 0 <= x < n ==> (queue@.contains(x as usize) <==> (x < w && indegrees@[x] == 0)),
        decreases n - w,
    {
        let ghost qb = queue@;
        if indegrees[w] == 0 {
            queue.push(w);
            proof {
                assert forall|x: int| 0 <= x < n implies (queue@.contains(x as usize) <==> (x < w + 1 && indegrees@[x] == 0)) by {
                    if x == w as int {
                        assert(queue@[qb.len() as int] == w);
                    } else if queue@.contains(x as usize) {
                        let q = choose|q: int| 0 <= q < queue@.len() && #[trigger] queue@[q] == x as usize;
                        assert(qb[q] == x as usize);
                    } else if qb.contains(x as usize) {
                        let q = choose|q: int| 0 <= q < qb.len() && #[trigger] qb[q] == x as usize;
                        assert(queue@[q] == x as usize);
                    }
                }
                assert(queue@.no_duplicates()) by {
                    assert forall|a: int, b: int| 0 <= a < queue@.len() && 0 <= b < queue@.len() && a != b
                        implies queue@[a] != queue@[b] by {
                        if a < qb.len() && b < qb.len() {
                            assert(qb[a] != qb[b]);
                        }
                    }
                }
            }
        }
        w = w + 1;
    }
    let r = toposort_drain(&depgraph, indegrees, queue, Ghost(none));
    proof {
        if r is Some {
            law_topological_acyclic(depgraph@, r->Some_0@.map_values(|x: NewtypeId| x.0@));
        }
    }
    r
}

/// A position of `k` in `order`.
pub open spec fn position_of(order: Seq<Seq<char>>, k: Seq<char>) -> int {
    choose|a: int| 0 <= a < order.len() && order[a] == k
}

/// A graph whose nodes can be put in topological order has no cycle.
pub proof fn law_topological_acyclic(g: Seq<(NewtypeId, Vec<NewtypeId>)>, order: Seq<Seq<char>>)
    requires
        topological(g, order),
    ensures
        acyclic(g),
{
    assert forall|u: int| 0 <= u < g.len() implies 0 <= #[trigger] position_of(order, key(g, u)) < order.len()
        && order[position_of(order, key(g, u))] == key(g, u) by {
        assert(order.contains(key(g, u)));
    }
    let rank = Seq::new(g.len(), |u: int| position_of(order, key(g, u)) as nat);
    assert forall|u: int, v: int| 0 <= u < g.len() && 0 <= v < g.len() && depends(g, u, v) implies rank[u] > rank[v] by {
        let a = position_of(order, key(g, u));
        let b = position_of(order, key(g, v));
        assert(order[a] == key(g, u) && order[b] == key(g, v) && depends(g, u, v));
    }
    assert(rank.len() == g.len());
}

/// Takes nodes from the queue one by one; a node joins the queue once all nodes that depend on
/// it have been taken. Yields the taken nodes, last taken first.
fn toposort_drain(depgraph: &DepGraph, indegrees: Vec<usize>, queue: Vec<usize>, Ghost(none): Ghost<Seq<bool>>) -> (r: Option<Vec<NewtypeId>>)
    requires
        keys_distinct(depgraph@),
        none.len() == depgraph@.len(),
        forall|i: int| 0 <= i < none.len() ==> !none[i],
        indegrees@.len() == depgraph@.len(),
        forall|v: int| 0 <= v < depgraph@.len() ==> indegrees@[v] == in_count(depgraph@, none, v, depgraph@.len() as int),
        queue@.no_duplicates(),
        forall|p: int| 0 <= p < queue@.len() ==> queue@[p] < depgraph@.len(),
        forall|x: int| 0 <= x < depgraph@.len() ==> (queue@.contains(x as usize) <==> indegrees@[x] == 0),
    ensures
        match r {
            Some(order) => topological(depgraph@, order@.map_values(|x: NewtypeId| x.0@)),
            None => !acyclic(depgraph@),
        },
{
    let ghost g = depgraph@;
    let n = depgraph.len();
    let mut indegrees = indegrees;
    let mut queue = queue;
    let ghost mut done: Seq<bool> = none;
    let mut result: Vec<usize> = Vec::new();
    let mut head: usize = 0;
    proof {
        assert forall|p: int, u: int| 0 <= p < queue@.len() && 0 <= u < n && #[trigger] depends(g, u, queue@[p] as int)
            implies exists|q: int| 0 <= q < p && queue@[q] == u by {
            let v = queue@[p] as int;
            assert(queue@.contains(queue@[p]));
            assert(queue@.contains(v as usize));
            assert(indegrees@[v] == 0);
            assert(indegrees@[v] == in_count(g, none, v, n as int));
            lemma_in_count_zero(g, none, v, n as int);
            assert(!none[u]);
            assert(occ(nbrs(g, u), key(g, v)) == 0);
        }
    }
    while head < queue.len()
        invariant
            g == depgraph@,
            n == g.len(),
            keys_distinct(g),
            done.len() == n,
            indegrees@.len() == n,
            head <= queue@.len(),
            queue@.no_duplicates(),
            forall|p: int| 0 <= p < queue@.len() ==> queue@[p] < n,
            result@ == queue@.subrange(0, head as int),
            forall|x: int| 0 <= x < n ==> (done[x] <==> queue@.subrange(0, head as int).contains(x as usize)),
            forall|v: int| 0 <= v < n ==> indegrees@[v] == in_count(g, done, v, n as int),
            forall|x: int| 0 <= x < n ==> (queue@.contains(x as usize) <==> indegrees@[x] == 0),
            forall|p: int, u: int| 0 <= p < queue@.len() && 0 <= u < n && #[trigger] depends(g, u, queue@[p] as int)
                ==> exists|q: int| 0 <= q < p && queue@[q] == u,
        decreases n - head,
    {
        proof {
            lemma_distinct_bound(queue@, n as nat);
        }
        let u = queue[head];
        head = head + 1;
        result.push(u);
        let ghost before = done;
        proof {
            assert(queue@.subrange(0, head - 1).push(u) =~= queue@.subrange(0, head as int));
            assert(!queue@.subrange(0, head - 1).contains(u)) by {
                if queue@.subrange(0, head - 1).contains(u) {
                    let q = choose|q: int| 0 <= q < head - 1 && #[trigger] queue@.subrange(0, head - 1)[q] == u;
                    assert(queue@[q] == queue@[head - 1]);
                }
            }
            assert forall|v: int| 0 <= v < n implies in_count(g, before.update(u as int, true), v, n as int)
                + occ(nbrs(g, u as int), key(g, v)) == in_count(g, before, v, n as int) by {
                lemma_in_count_done(g, before, u as int, v, n as int);
            }
            done = before.update(u as int, true);
            assert forall|x: int| 0 <= x < n implies (done[x] <==> queue@.subrange(0, head as int).contains(x as usize)) by {
                if x == u as int {
                    assert(queue@.subrange(0, head as int)[head - 1] == u);
                } else {
                    if queue@.subrange(0, head as int).contains(x as usize) {
                        let q = choose|q: int| 0 <= q < head && #[trigger] queue@.subrange(0, head as int)[q] == x as usize;
                        assert(q < head - 1);
                        assert(queue@.subrange(0, head - 1)[q] == x as usize);
                    }
                    if queue@.subrange(0, head - 1).contains(x as usize) {
                        let q = choose|q: int| 0 <= q < head - 1 && #[trigger] queue@.subrange(0, head - 1)[q] == x as usize;
                        assert(queue@.subrange(0, head as int)[q] == x as usize);
                    }
                }
            }
        }
        let ghost nb = nbrs(g, u as int);
        let mut j: usize = 0;
        assert(nb.subrange(0, nb.len() as int) =~= nb);
        while j < depgraph[u].1.len()
            invariant
                g == depgraph@,
                n == g.len(),
                keys_distinct(g),
                u < n,
                nb == nbrs(g, u as int),
                nb.len() == depgraph@[u as int].1@.len(),
                j <= nb.len(),
                done.len() == n,
                done[u as int],
                indegrees@.len() == n,
                0 < head <= queue@.len(),
                queue@.no_duplicates(),
                forall|p: int| 0 <= p < queue@.len() ==> queue@[p] < n,
                result@ == queue@.subrange(0, head as int),
                forall|x: int| 0 <= x < n ==> (done[x] <==> queue@.subrange(0, head as int).contains(x as usize)),
                forall|v: int| 0 <= v < n ==> indegrees@[v] == in_count(g, done, v, n as int) + occ(nb.subrange(j as int, nb.len() as int), key(g, v)),
                forall|x: int| 0 <= x < n ==> (queue@.contains(x as usize) <==> indegrees@[x] == 0),
                forall|p: int, u2: int| 0 <= p < queue@.len() && 0 <= u2 < n && #[trigger] depends(g, u2, queue@[p] as int)
                    ==> exists|q: int| 0 <= q < p && queue@[q] == u2,
            decreases depgraph@[u as int].1@.len() - j,
        {
            proof {
                assert forall|v: int| 0 <= v < n implies occ(nb.subrange(j as int, nb.len() as int), key(g, v))
                    == (if nb[j as int] == key(g, v) { 1nat } else { 0nat }) + occ(nb.subrange(j + 1, nb.len() as int), key(g, v)) by {
                    lemma_occ_skip(nb, j as int, key(g, v));
                }
            }
            match index_of(depgraph, &depgraph[u].1[j]) {
                Some(v) => {
                    let d = indegrees[v];
                    indegrees.set(v, d - 1);
                    if d - 1 == 0 {
                        let ghost qb = queue@;
                        proof {
                            assert(!qb.contains(v));
                            lemma_in_count_zero(g, done, v as int, n as int);
                        }
                        queue.push(v);
                        proof {
                            assert(queue@.subrange(0, head as int) =~= qb.subrange(0, head as int));
                            assert forall|x: int| 0 <= x < n implies (queue@.contains(x as usize) <==> indegrees@[x] == 0) by {
                                if qb.contains(x as usize) {
                                    let q = choose|q: int| 0 <= q < qb.len() && #[trigger] qb[q] == x as usize;
                                    assert(queue@[q] == x as usize);
                                }
                                if queue@.contains(x as usize) && x != v as int {
                                    let q = choose|q: int| 0 <= q < queue@.len() && #[trigger] queue@[q] == x as usize;
                                    assert(q < qb.len());
                                    assert(qb[q] == x as usize);
                                }
                                if x == v as int {
                                    assert(queue@[qb.len() as int] == v);
                                }
                            }
                            assert forall|p: int, u2: int| 0 <= p < queue@.len() && 0 <= u2 < n && #[trigger] depends(g, u2, queue@[p] as int)
                                implies exists|q: int| 0 <= q < p && queue@[q] == u2 by {
                                if p < qb.len() {
                                    assert(queue@[p] == qb[p]);
                                    assert(depends(g, u2, qb[p] as int));
                                    let q = choose|q: int| 0 <= q < p && #[trigger] qb[q] == u2;
                                    assert(queue@[q] == u2);
                                } else {
                                    assert(queue@[p] == v);
                                    assert(done[u2]);
                                    assert(queue@.subrange(0, head as int).contains(u2 as usize));
                                    let q = choose|q: int| 0 <= q < head && #[trigger] queue@.subrange(0, head as int)[q] == u2 as usize;
                                    assert(queue@[q] == u2);
                                }
                            }
                            assert(queue@.no_duplicates()) by {
                                assert forall|a: int, b: int| 0 <= a < queue@.len() && 0 <= b < queue@.len() && a != b
                                    implies queue@[a] != queue@[b] by {
                                    if a < qb.len() && b < qb.len() {
                                        assert(qb[a] != qb[b]);
                                    } else if a < qb.len() {
                                        assert(qb.contains(qb[a]));
                                    } else {
                                        assert(qb.contains(qb[b]));
                                    }
                                }
                            }
                        }
                    }
                },
                None => {},
            }
            j = j + 1;
        }
        proof {
            assert(nb.subrange(nb.len() as int, nb.len() as int) =~= Seq::<Seq<char>>::empty());
        }
    }
    if queue.len() != n {
        proof {
            if acyclic(g) {
                toposort_complete(g, done, indegrees@, queue@, n as nat);
            }
        }
        return None;
    }
    let mut order: Vec<NewtypeId> = Vec::new();
    let mut p: usize = n;
    while p > 0
        invariant
            g == depgraph@,
            n == g.len(),
            p <= n,
            queue@.len() == n,
            result@ == queue@,
            forall|i: int| 0 <= i < n ==> queue@[i] < n,
            order@.len() == n - p,
            forall|a: int| 0 <= a < n - p ==> (#[trigger] order@[a]).0@ == key(g, queue@[n - 1 - a] as int),
        decreases p,
    {
        let idx = result[p - 1];
        let name = NewtypeId(depgraph[idx].0.0.clone());
        order.push(name);
        p = p - 1;
    }
    proof {
        toposort_order(g, queue@, order@.map_values(|x: NewtypeId| x.0@));
    }
    Some(order)
}

/// When the queue runs out, every node of an acyclic graph has been taken.
proof fn toposort_complete(g: Seq<(NewtypeId, Vec<NewtypeId>)>, done: Seq<bool>, indeg: Seq<usize>, queue: Seq<usize>, n: nat)
    requires
        n == g.len(),
        n <= usize::MAX,
        acyclic(g),
        done.len() == n,
        indeg.len() == n,
        queue.no_duplicates(),
        forall|p: int| 0 <= p < queue.len() ==> queue[p] < n,
        forall|x: int| 0 <= x < n ==> (done[x] <==> queue.subrange(0, queue.len() as int).contains(x as usize)),
        forall|v: int| 0 <= v < n ==> indeg[v] == in_count(g, done, v, n as int),
        forall|x: int| 0 <= x < n ==> (queue.contains(x as usize) <==> indeg[x] == 0),
    ensures
        queue.len() == n,
{
    assert(queue.subrange(0, queue.len() as int) =~= queue);
    lemma_distinct_bound(queue, n);
    if exists|x: int| 0 <= x < n && !done[x] {
        let rank = choose|rank: Seq<nat>| #[trigger] rank.len() == g.len()
            && forall|u: int, v: int| 0 <= u < g.len() && 0 <= v < g.len() && depends(g, u, v) ==> rank[u] > rank[v];
        let m = lemma_max_rank(rank, done, n as int);
        assert(indeg[m] != 0);
        lemma_in_count_zero(g, done, m, n as int);
        let u = choose|u: int| 0 <= u < n && !done[u] && occ(nbrs(g, u), key(g, m)) != 0;
        assert(depends(g, u, m));
        assert(false);
    }
    assert forall|w: int| 0 <= w < n implies #[trigger] queue.contains(w as usize) by {
        assert(done[w]);
    }
    lemma_cover_bound(queue, n);
}

/// The taken nodes, last taken first, are in topological order.
proof fn toposort_order(g: Seq<(NewtypeId, Vec<NewtypeId>)>, queue: Seq<usize>, order: Seq<Seq<char>>)
    requires
        g.len() <= usize::MAX,
        keys_distinct(g),
        queue.len() == g.len(),
        queue.no_duplicates(),
        forall|p: int| 0 <= p < queue.len() ==> queue[p] < g.len(),
        forall|p: int, u: int| 0 <= p < queue.len() && 0 <= u < g.len() && #[trigger] depends(g, u, queue[p] as int)
            ==> exists|q: int| 0 <= q < p && queue[q] == u,
        order.len() == g.len(),
        forall|a: int| 0 <= a < g.len() ==> #[trigger] order[a] == key(g, queue[g.len() - 1 - a] as int),
    ensures
        topological(g, order),
{
    let n = g.len() as int;
    assert forall|i: int| 0 <= i < n implies order.contains(#[trigger] key(g, i)) by {
        let mut w: Seq<usize> = queue;
        assert forall|x: int| 0 <= x < n implies #[trigger] queue.contains(x as usize) by {
            lemma_distinct_cover(queue, n as nat, x);
        }
        assert(queue.contains(i as usize));
        let p = choose|p: int| 0 <= p < n && #[trigger] queue[p] == i as usize;
        assert(queue[p] as int == i);
        assert(order[n - 1 - p] == key(g, queue[n - 1 - (n - 1 - p)] as int));
        assert(order[n - 1 - p] == key(g, i));
    }
    assert forall|a: int, b: int| 0 <= a < n && 0 <= b < n && a != b implies order[a] != order[b] by {
        assert(queue[n - 1 - a] != queue[n - 1 - b]);
    }
    assert forall|a: int, b: int, u: int, v: int|
        #![trigger order[a], order[b], depends(g, u, v)]
        0 <= a < n && 0 <= b < n && 0 <= u < n && 0 <= v < n
        && order[a] == key(g, u) && order[b] == key(g, v) && depends(g, u, v) implies b < a by {
        let pa = n - 1 - a;
        let pb = n - 1 - b;
        assert(queue[pa] as int == u);
        assert(queue[pb] as int == v);
        assert(depends(g, u, queue[pb] as int));
        let q = choose|q: int| 0 <= q < pb && #[trigger] queue[q] == u;
        assert(q == pa);
    }
}

/// `n` distinct indices below `n` are all of them.
proof fn lemma_distinct_cover(s: Seq<usize>, n: nat, x: int)
    requires
        n <= usize::MAX,
        s.len() == n,
        s.no_duplicates(),
        forall|p: int| 0 <= p < s.len() ==> s[p] < n,
        0 <= x < n,
    ensures
        s.contains(x as usize),
{
    if !s.contains(x as usize) {
        let t = s.map_values(|y: usize| y as int);
        assert(t.no_duplicates()) by {
            assert forall|i: int, j: int| 0 <= i < t.len() && 0 <= j < t.len() && i != j implies t[i] != t[j] by {
                assert(s[i] != s[j]);
            }
        }
        t.unique_seq_to_set();
        vstd::set_lib::lemma_int_range(0, n as int);
        let r = vstd::set_lib::set_int_range(0, n as int).remove(x);
        assert(t.to_set().subset_of(r)) by {
            assert forall|y: int| t.to_set().contains(y) implies r.contains(y) by {
                let i = choose|i: int| 0 <= i < t.len() && #[trigger] t[i] == y;
                if y == x {
                    assert(s[i] == x as usize);
                }
            }
        }
        vstd::set_lib::lemma_len_subset(t.to_set(), r);
    }
}

// ---------------------------------------------------------------------------------------------
// The dependencies of type definitions.

/// The user types a type mentions, its type arguments' first.
pub open spec fn type_ids(t: GType) -> Seq<Seq<char>>
    decreases t, 1nat,
{
    match t {
        GType::NewType(id, ps) => ids_all(ps) + seq![id],
        GType::Reference(x) => type_ids(*x),
        _ => Seq::empty(),
    }
}

pub open spec fn ids_all(ts: Seq<GType>) -> Seq<Seq<char>>
    decreases ts, 0nat,
{
    if ts.len() == 0 {
        Seq::empty()
    } else {
        ids_all(ts.drop_last()) + type_ids(ts.last())
    }
}

pub open spec fn ids_v(ids: Seq<NewtypeId>) -> Seq<Seq<char>> {
    ids.map_values(|x: NewtypeId| x.0@)
}

/// The user types a definition's fields or variants mention, in order.
pub open spec fn def_deps(d: DefV<GType>) -> Seq<Seq<char>> {
    match d.shape {
        ShapeV::Struct(fs) => ids_all(fs.map_values(|f: (Seq<char>, GType)| f.1)),
        ShapeV::Enum(vs) => ids_all(vs),
    }
}

/// The dependency graph of a table of definitions: a later definition of a name replaces the
/// earlier one.
pub open spec fn dep_table(t: TableV) -> Seq<(Seq<char>, Seq<Seq<char>>)>
    decreases t.len(),
{
    if t.len() == 0 {
        Seq::empty()
    } else {
        set_field(dep_table(t.drop_last()), t.last().0, def_deps(t.last().1))
    }
}

pub open spec fn graph_v(g: Seq<(NewtypeId, Vec<NewtypeId>)>) -> Seq<(Seq<char>, Seq<Seq<char>>)> {
    g.map_values(|p: (NewtypeId, Vec<NewtypeId>)| (p.0.0@, ids_v(p.1@)))
}

pub proof fn lemma_ids_all_push(ts: Seq<GType>, t: GType)
    ensures
        ids_all(ts.push(t)) == ids_all(ts) + type_ids(t),
{
    assert(ts.push(t).drop_last() =~= ts);
}

/// The user types `t` mentions.
#[verifier::loop_isolation(false)]
pub fn extract_type_id(t: &GenericType) -> (r: Vec<NewtypeId>)
    ensures
        ids_v(r@) == type_ids(t@),
    decreases t,
{
    match t {
        GenericType::Prim(..) => {
            let r: Vec<NewtypeId> = Vec::new();
            assert(ids_v(r@) =~= Seq::<Seq<char>>::empty());
            r
        },
        GenericType::NewType(id, t_params) => {
            let mut deps: Vec<NewtypeId> = Vec::new();
            let mut i: usize = 0;
            proof {
                lemma_generic_views(t_params@);
            }
            assert(ids_v(deps@) =~= ids_all(generic_views(t_params@).subrange(0, 0)));
            while i < t_params.len()
                invariant
                    i <= t_params@.len(),
                    generic_views(t_params@).len() == t_params@.len(),
                    forall|k: int| 0 <= k < t_params@.len() ==> generic_views(t_params@)[k] == t_params@[k]@,
                    ids_v(deps@) == ids_all(generic_views(t_params@).subrange(0, i as int)),
                decreases t_params.len() - i,
            {
                proof {
                    assert(decreases_to!(*t => t_params@[i as int])) by {
                        assert(decreases_to!(t_params => t_params@));
                        assert(decreases_to!(t_params@ => t_params@[i as int]));
                    }
                }
                let mut sub = extract_type_id(&t_params[i]);
                let ghost before = deps@;
                let ghost sv = sub@;
                deps.append(&mut sub);
                proof {
                    let gs = generic_views(t_params@);
                    assert(gs.subrange(0, i + 1) =~= gs.subrange(0, i as int).push(gs[i as int]));
                    lemma_ids_all_push(gs.subrange(0, i as int), gs[i as int]);
                    assert(ids_v(deps@) =~= ids_v(before) + ids_v(sv));
                }
                i = i + 1;
            }
            let ghost before = deps@;
            deps.push(NewtypeId(id.0.clone()));
            proof {
                assert(generic_views(t_params@).subrange(0, i as int) =~= generic_views(t_params@));
                assert(ids_v(deps@) =~= ids_v(before) + seq![id.0@]);
            }
            deps
        },
        GenericType::Reference(typ) => extract_type_id(typ),
        GenericType::TypeVar(..) => {
            let r: Vec<NewtypeId> = Vec::new();
            assert(ids_v(r@) =~= Seq::<Seq<char>>::empty());
            r
        },
    }
}

/// The user types the given types mention, in order.
fn extract_all(ts: &Vec<GenericType>) -> (r: Vec<NewtypeId>)
    ensures
        ids_v(r@) == ids_all(generic_views(ts@)),
{
    proof {
        lemma_generic_views(ts@);
    }
    let mut deps: Vec<NewtypeId> = Vec::new();
    let mut i: usize = 0;
    assert(ids_v(deps@) =~= ids_all(generic_views(ts@).subrange(0, 0)));
    while i < ts.len()
        invariant
            i <= ts@.len(),
            generic_views(ts@).len() == ts@.len(),
            forall|k: int| 0 <= k < ts@.len() ==> generic_views(ts@)[k] == ts@[k]@,
            ids_v(deps@) == ids_all(generic_views(ts@).subrange(0, i as int)),
        decreases ts.len() - i,
    {
        let mut sub = extract_type_id(&ts[i]);
        let ghost before = deps@;
        let ghost sv = sub@;
        deps.append(&mut sub);
        proof {
            let gs = generic_views(ts@);
            assert(gs.subrange(0, i + 1) =~= gs.subrange(0, i as int).push(gs[i as int]));
            lemma_ids_all_push(gs.subrange(0, i as int), gs[i as int]);
            assert(ids_v(deps@) =~= ids_v(before) + ids_v(sv));
        }
        i = i + 1;
    }
    assert(generic_views(ts@).subrange(0, i as int) =~= generic_views(ts@));
    deps
}

/// The dependency graph of type definitions: each defined type with the user types its fields
/// or variants mention. A later definition of a name replaces the earlier one.
pub fn extract_newtype_dependencies(newtype_defs: &Vec<(NewtypeId, GenericTypeDef)>) -> (r: DepGraph)
    ensures
        graph_v(r@) == dep_table(table_view(newtype_defs@)),
        keys_distinct(r@),
{
    let mut dep_graph: DepGraph = Vec::new();
    let mut i: usize = 0;
    assert(graph_v(dep_graph@) =~= dep_table(table_view(newtype_defs@.subrange(0, 0))));
    while i < newtype_defs.len()
        invariant
            i <= newtype_defs@.len(),
            graph_v(dep_graph@) == dep_table(table_view(newtype_defs@.subrange(0, i as int))),
            keys_distinct(dep_graph@),
        decreases newtype_defs.len() - i,
    {
        let type_id = &newtype_defs[i].0;
        let deps = match &newtype_defs[i].1.defn {
            GenericShape::Struct { fields } => {
                let mut types: Vec<GenericType> = Vec::new();
                let mut k: usize = 0;
                while k < fields.len()
                    invariant
                        k <= fields@.len(),
                        types@.len() == k,
                        forall|j: int| 0 <= j < k ==> (#[trigger] types@[j])@ == fields@[j].1@,
                    decreases fields.len() - k,
                {
                    types.push(crate::shared::typing::clone_generic(&fields[k].1));
                    k = k + 1;
                }
                proof {
                    lemma_generic_views(types@);
                    assert(generic_views(types@) =~= crate::shared::tables::fields_view(fields@).map_values(|f: (Seq<char>, GType)| f.1));
                }
                extract_all(&types)
            },
            GenericShape::Enum { variants } => {
                proof {
                    lemma_generic_views(variants@);
                    assert(generic_views(variants@) =~= variants@.map_values(|v: GenericType| v@));
                }
                extract_all(variants)
            },
        };
        let ghost t_before = table_view(newtype_defs@.subrange(0, i as int));
        let ghost gv = graph_v(dep_graph@);
        let ghost name = type_id.0@;
        let ghost dv = ids_v(deps@);
        proof {
            assert(table_view(newtype_defs@.subrange(0, i + 1)).drop_last() =~= t_before);
            assert(def_deps(table_view(newtype_defs@.subrange(0, i + 1)).last().1) == dv);
        }
        set_dependencies(&mut dep_graph, NewtypeId(type_id.0.clone()), deps);
        i = i + 1;
    }
    assert(newtype_defs@.subrange(0, i as int) =~= newtype_defs@);
    dep_graph
}

/// Sets the dependencies of `name`: they replace earlier ones in place.
fn set_dependencies(g: &mut DepGraph, name: NewtypeId, deps: Vec<NewtypeId>)
    requires
        keys_distinct(old(g)@),
    ensures
        graph_v(final(g)@) == set_field(graph_v(old(g)@), name.0@, ids_v(deps@)),
        keys_distinct(final(g)@),
{
    let ghost gv = graph_v(g@);
    let mut i: usize = 0;
    while i < g.len()
        invariant
            i <= g@.len(),
            g@ == old(g)@,
            keys_distinct(old(g)@),
            gv == graph_v(g@),
            forall|j: int| 0 <= j < i ==> gv[j].0 != name.0@,
        decreases g.len() - i,
    {
        if g[i].0.0 == name.0 {
            proof {
                crate::passes::parse::lemma_name_index_skip(gv, name.0@, 0, i as int);
            }
            let ghost nv = ids_v(deps@);
            let ghost before = g@;
            assert(key(before, i as int) == name.0@);
            g.set(i, (name, deps));
            proof {
                assert(graph_v(g@) =~= gv.update(i as int, (gv[i as int].0, nv)));
                assert forall|a: int, b: int| 0 <= a < g@.len() && 0 <= b < g@.len() && a != b implies key(g@, a) != key(g@, b) by {
                    assert(key(g@, a) == key(before, a));
                    assert(key(g@, b) == key(before, b));
                }
            }
            return;
        }
        i = i + 1;
    }
    proof {
        crate::passes::parse::lemma_name_index_skip(gv, name.0@, 0, i as int);
    }
    let ghost nv = ids_v(deps@);
    let ghost nm = name.0@;
    let ghost before = g@;
    g.push((name, deps));
    proof {
        assert(graph_v(g@) =~= gv.push((nm, nv)));
        assert forall|a: int, b: int| 0 <= a < g@.len() && 0 <= b < g@.len() && a != b implies key(g@, a) != key(g@, b) by {
            if a < before.len() && b < before.len() {
                assert(key(g@, a) == key(before, a));
                assert(key(g@, b) == key(before, b));
            } else if a < before.len() {
                assert(gv[a].0 != nm);
            } else {
                assert(gv[b].0 != nm);
            }
        }
    }
}

/// A dependency graph of names has no cycle: some ranking puts every node above the nodes it
/// depends on.
pub open spec fn graph_acyclic(d: Seq<(Seq<char>, Seq<Seq<char>>)>) -> bool {
    exists|rank: Seq<nat>| #[trigger] rank.len() == d.len()
        && forall|u: int, v: int| 0 <= u < d.len() && 0 <= v < d.len() && occ(d[u].1, d[v].0) > 0 ==> rank[u] > rank[v]
}

/// The number of dependencies of the first `k` nodes.
pub open spec fn graph_edges(d: Seq<(Seq<char>, Seq<Seq<char>>)>, k: int) -> nat
    decreases k,
{
    if k <= 0 {
        0
    } else {
        graph_edges(d, k - 1) + d[k - 1].1.len()
    }
}

/// Whether a graph is acyclic, and how many edges it has, depends only on its names.
pub proof fn lemma_graph_view(g: Seq<(NewtypeId, Vec<NewtypeId>)>, k: int)
    requires
        0 <= k <= g.len(),
    ensures
        acyclic(g) == graph_acyclic(graph_v(g)),
        edge_count(g, k) == graph_edges(graph_v(g), k),
    decreases k,
{
    let d = graph_v(g);
    assert forall|i: int| 0 <= i < g.len() implies #[trigger] d[i].0 == key(g, i) && d[i].1 == nbrs(g, i) by {
        assert(d[i].1 =~= nbrs(g, i));
    }
    if acyclic(g) {
        let rank = choose|rank: Seq<nat>| #[trigger] rank.len() == g.len()
            && forall|u: int, v: int| 0 <= u < g.len() && 0 <= v < g.len() && depends(g, u, v) ==> rank[u] > rank[v];
        assert forall|u: int, v: int| 0 <= u < d.len() && 0 <= v < d.len() && occ(d[u].1, d[v].0) > 0 implies rank[u] > rank[v] by {
            assert(d[u].1 == nbrs(g, u) && d[v].0 == key(g, v));
            assert(depends(g, u, v));
        }
        assert(rank.len() == d.len());
    }
    if graph_acyclic(d) {
        let rank = choose|rank: Seq<nat>| #[trigger] rank.len() == d.len()
            && forall|u: int, v: int| 0 <= u < d.len() && 0 <= v < d.len() && occ(d[u].1, d[v].0) > 0 ==> rank[u] > rank[v];
        assert forall|u: int, v: int| 0 <= u < g.len() && 0 <= v < g.len() && depends(g, u, v) implies rank[u] > rank[v] by {
            assert(d[u].1 == nbrs(g, u) && d[v].0 == key(g, v));
        }
        assert(rank.len() == g.len());
    }
    if k > 0 {
        lemma_graph_view(g, k - 1);
        assert(d[k - 1].1 == nbrs(g, k - 1));
    }
}

/// Whether the struct definitions of a table refer to one another without a cycle. `None` where
/// they mention more types than a `usize` counts.
pub fn definitions_acyclic(defs: &Vec<(NewtypeId, GenericTypeDef)>) -> (r: Option<bool>)
    ensures
        match r {
            Some(b) => graph_edges(dep_table(table_view(defs@)), dep_table(table_view(defs@)).len() as int) < usize::MAX
                && b == graph_acyclic(dep_table(table_view(defs@))),
            None => graph_edges(dep_table(table_view(defs@)), dep_table(table_view(defs@)).len() as int) >= usize::MAX,
        },
{
    let deps = extract_newtype_dependencies(defs);
    let ghost d = graph_v(deps@);
    let mut edges: usize = 0;
    let mut i: usize = 0;
    while i < deps.len()
        invariant
            i <= deps@.len(),
            d == graph_v(deps@),
            d == dep_table(table_view(defs@)),
            keys_distinct(deps@),
            edges == edge_count(deps@, i as int),
            edges < usize::MAX,
        decreases deps.len() - i,
    {
        if deps[i].1.len() >= usize::MAX - edges {
            proof {
                lemma_edge_count_prefix(deps@, i + 1, deps@.len() as int);
                lemma_graph_view(deps@, deps@.len() as int);
            }
            return None;
        }
        edges = edges + deps[i].1.len();
        i = i + 1;
    }
    proof {
        lemma_graph_view(deps@, deps@.len() as int);
    }
    match try_toposort_depgraph(deps) {
        Some(_) => Some(true),
        None => Some(false),
    }
}

} // verus!
