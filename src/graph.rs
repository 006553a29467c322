//! Dependency graphs keyed by package name: orderings and cycle detection.
use vstd::prelude::*;
use vstd::set_lib::{lemma_len_subset, FiniteRange};

verus! {

/// A graph seen as a sequence of nodes, each a name and the names it depends on.
pub type GraphModel = Seq<(Seq<char>, Seq<Seq<char>>)>;

/// Node `i` depends on node `j`.
pub open spec fn edge(g: GraphModel, i: int, j: int) -> bool {
    0 <= i < g.len() && 0 <= j < g.len() && g[i].1.contains(g[j].0)
}

/// `o` lists every node once, each after all the nodes it depends on.
pub open spec fn is_topo(g: GraphModel, o: Seq<usize>) -> bool {
    &&& o.no_duplicates()
    &&& forall|p: int| 0 <= p < o.len() ==> (#[trigger] o[p]) < g.len()
    &&& forall|i: usize| i < g.len() ==> o.contains(i)
    &&& forall|p: int, q: int|
        0 <= p < o.len() && 0 <= q < o.len() && edge(g, #[trigger] o[p] as int, #[trigger] o[q] as int)
            ==> q < p
}

/// The graph has no cycle: some order puts every node after its dependencies.
pub open spec fn acyclic(g: GraphModel) -> bool {
    exists|o: Seq<usize>| is_topo(g, o)
}

/// One node of a dependency graph.
pub struct GraphNode {
    pub name: String,
    pub deps: Vec<String>,
}

impl View for GraphNode {
    type V = (Seq<char>, Seq<Seq<char>>);

    open spec fn view(&self) -> (Seq<char>, Seq<Seq<char>>) {
        (self.name@, self.deps@.map_values(|s: String| s@))
    }
}

pub open spec fn graph_model(g: Seq<GraphNode>) -> GraphModel {
    g.map_values(|n: GraphNode| n@)
}

/// A sequence of distinct indices below `n` that misses one of them is shorter than `n`.
pub(crate) proof fn lemma_missing_index(s: Seq<usize>, n: usize, m: usize)
    requires
        s.no_duplicates(),
        forall|p: int| 0 <= p < s.len() ==> (#[trigger] s[p]) < n,
        m < n,
        !s.contains(m),
    ensures
        s.len() < n,
{
    s.unique_seq_to_set();
    let full = Set::<usize>::range(0, n);
    <usize as FiniteRange>::range_properties(0, n);
    let rest = full.remove(m);
    assert(s.to_set().subset_of(rest));
    lemma_len_subset(s.to_set(), rest);
}

/// A sequence of distinct indices that lists every index below `n` is at least `n` long.
pub(crate) proof fn lemma_all_indices(s: Seq<usize>, n: usize)
    requires
        s.no_duplicates(),
        forall|k: usize| k < n ==> s.contains(k),
    ensures
        s.len() >= n,
{
    s.unique_seq_to_set();
    let full = Set::<usize>::range(0, n);
    <usize as FiniteRange>::range_properties(0, n);
    vstd::seq_lib::seq_to_set_is_finite(s);
    assert(full.subset_of(s.to_set()));
    lemma_len_subset(full, s.to_set());
}

/// When every node of a nonempty set depends on another node of the set, the graph has a cycle.
proof fn lemma_closed_set_cyclic(g: GraphModel, inside: Seq<bool>, w: usize)
    requires
        inside.len() == g.len(),
        g.len() <= usize::MAX,
        w < g.len(),
        inside[w as int],
        forall|i: int|
            0 <= i < g.len() && #[trigger] inside[i] ==> exists|j: int| edge(g, i, j) && inside[j],
    ensures
        !acyclic(g),
{
    if acyclic(g) {
        let o = choose|o: Seq<usize>| is_topo(g, o);
        assert(o.contains(w));
        let q0 = choose|q: int| 0 <= q < o.len() && o[q] == w;
        let p = first_inside(o, inside, q0);
        let i = o[p] as int;
        assert(inside[i]);
        let j = choose|j: int| edge(g, i, j) && inside[j];
        assert((j as usize) < g.len());
        assert(o.contains(j as usize));
        let q = choose|q: int| 0 <= q < o.len() && o[q] == j as usize;
        assert(o[q] as int == j && o[p] as int == i);
        assert(edge(g, o[p] as int, o[q] as int));
        assert(inside[o[q] as int]);
    }
}

/// The first position of `o`, at or before `q`, whose node lies inside the set.
proof fn first_inside(o: Seq<usize>, inside: Seq<bool>, q: int) -> (p: int)
    requires
        0 <= q < o.len(),
        o[q] < inside.len(),
        inside[o[q] as int],
        forall|r: int| 0 <= r < o.len() ==> (#[trigger] o[r]) < inside.len(),
    ensures
        0 <= p <= q,
        inside[o[p] as int],
        forall|r: int| 0 <= r < p ==> !inside[#[trigger] o[r] as int],
    decreases q,
{
    if exists|r: int| 0 <= r < q && inside[#[trigger] o[r] as int] {
        let r = choose|r: int| 0 <= r < q && inside[#[trigger] o[r] as int];
        first_inside(o, inside, r)
    } else {
        q
    }
}

/// Whether every dependency of node `i` is already placed.
fn deps_placed(nodes: &Vec<GraphNode>, placed: &Vec<bool>, i: usize) -> (r: bool)
    requires
        i < nodes.len(),
        placed.len() == nodes.len(),
    ensures
        r == forall|j: int|
            0 <= j < nodes.len() && edge(graph_model(nodes@), i as int, j) ==> placed[j],
{
    let ghost g = graph_model(nodes@);
    let deps = &nodes[i].deps;
    assert(g[i as int].1 == deps@.map_values(|s: String| s@));
    let mut k: usize = 0;
    while k < deps.len()
        invariant
            0 <= k <= deps.len(),
            i < nodes.len(),
            placed.len() == nodes.len(),
            g == graph_model(nodes@),
            deps == &nodes[i as int].deps,
            forall|j: int, kk: int|
                0 <= j < nodes.len() && 0 <= kk < k && #[trigger] deps@[kk]@ == #[trigger] nodes@[j].name@
                    ==> placed[j],
        decreases deps.len() - k,
    {
        let mut j: usize = 0;
        while j < nodes.len()
            invariant
                0 <= k < deps.len(),
                0 <= j <= nodes.len(),
                i < nodes.len(),
                placed.len() == nodes.len(),
                g == graph_model(nodes@),
                deps == &nodes[i as int].deps,
                forall|jj: int, kk: int|
                    0 <= jj < nodes.len() && 0 <= kk < k && #[trigger] deps@[kk]@
                        == #[trigger] nodes@[jj].name@ ==> placed[jj],
                forall|jj: int|
                    0 <= jj < j && deps@[k as int]@ == #[trigger] nodes@[jj].name@ ==> placed[jj],
            decreases nodes.len() - j,
        {
            if nodes[j].name == deps[k] && !placed[j] {
                assert(edge(g, i as int, j as int)) by {
                    assert(g[i as int].1[k as int] == g[j as int].0);
                }
                return false;
            }
            j = j + 1;
        }
        k = k + 1;
    }
    proof {
        assert forall|j: int| 0 <= j < nodes.len() && edge(g, i as int, j) implies placed[j] by {
            let kk = choose|kk: int| 0 <= kk < g[i as int].1.len() && g[i as int].1[kk] == g[j].0;
            assert(deps@[kk]@ == nodes@[j].name@);
        }
    }
    true
}

/// Orders the nodes so that each comes after every node it depends on; `None`
/// exactly when the graph has a cycle.
#[verifier::rlimit(40)]
pub fn topo_order(nodes: &Vec<GraphNode>) -> (r: Option<Vec<usize>>)
    ensures
        match r {
            Some(o) => is_topo(graph_model(nodes@), o@),
            None => !acyclic(graph_model(nodes@)),
        },
{
    let ghost g = graph_model(nodes@);
    let n = nodes.len();
    let mut placed: Vec<bool> = Vec::new();
    let mut z: usize = 0;
    while z < n
        invariant
            z <= n,
            placed.len() == z,
            forall|i: int| 0 <= i < z ==> !placed[i],
        decreases n - z,
    {
        placed.push(false);
        z = z + 1;
    }
    let mut order: Vec<usize> = Vec::new();
    while order.len() < n
        invariant
            n == nodes.len(),
            g == graph_model(nodes@),
            g.len() == n,
            placed.len() == n,
            order.len() <= n,
            order@.no_duplicates(),
            forall|p: int| 0 <= p < order.len() ==> (#[trigger] order[p]) < n,
            forall|i: int| 0 <= i < n ==> (#[trigger] placed[i] <==> order@.contains(i as usize)),
            forall|p: int, j: int|
                0 <= p < order.len() && #[trigger] edge(g, order[p] as int, j) ==> exists|q: int|
                    0 <= q < p && order[q] == j,
        decreases n - order.len(),
    {
        let mut i: usize = 0;
        let mut pick: usize = n;
        let ghost mut witness: usize = 0;
        let ghost mut seen_unplaced = false;
        while i < n && pick == n
            invariant
                n == nodes.len(),
                g == graph_model(nodes@),
                placed.len() == n,
                0 <= i <= n,
                pick == n || (pick < n && !placed[pick as int] && forall|j: int|
                    0 <= j < n && edge(g, pick as int, j) ==> placed[j]),
                seen_unplaced ==> witness < n && !placed[witness as int],
                forall|k: int|
                    0 <= k < i && !(#[trigger] placed[k]) ==> exists|j: int|
                        edge(g, k, j) && !placed[j],
                !seen_unplaced ==> forall|k: int| 0 <= k < i ==> #[trigger] placed[k],
            decreases n - i + (if pick == n { 1int } else { 0int }),
        {
            if !placed[i] {
                proof {
                    seen_unplaced = true;
                    witness = i;
                }
                if deps_placed(nodes, &placed, i) {
                    pick = i;
                } else {
                    i = i + 1;
                }
            } else {
                i = i + 1;
            }
        }
        if pick == n {
            proof {
                if !seen_unplaced {
                    assert forall|k: usize| k < n implies order@.contains(k) by {
                        assert(placed[k as int]);
                    }
                    lemma_all_indices(order@, n);
                }
                let inside = placed@.map_values(|b: bool| !b);
                assert forall|k: int| 0 <= k < g.len() && #[trigger] inside[k] implies exists|j: int|
                    edge(g, k, j) && inside[j] by {
                    let j = choose|j: int| edge(g, k, j) && !placed[j];
                    assert(inside[j]);
                }
                lemma_closed_set_cyclic(g, inside, witness);
            }
            return None;
        }
        let i = pick;
        proof {
            assert(!order@.contains(i));
        }
        let ghost old_order = order@;
        let ghost old_placed = placed@;
        order.push(i);
        placed.set(i, true);
        proof {
            assert(order@ == old_order.push(i));
            assert forall|k: int| 0 <= k < n implies (#[trigger] placed[k] <==> order@.contains(
                k as usize,
            )) by {
                if k == i {
                    assert(order@[old_order.len() as int] == i);
                } else {
                    assert(placed[k] == old_placed[k]);
                    if order@.contains(k as usize) {
                        let q = choose|q: int| 0 <= q < order@.len() && order@[q] == k as usize;
                        assert(old_order[q] == k as usize);
                    }
                    if old_order.contains(k as usize) {
                        let q = choose|q: int| 0 <= q < old_order.len() && old_order[q] == k as usize;
                        assert(order@[q] == k as usize);
                    }
                }
            }
            assert forall|p: int, j: int|
                0 <= p < order.len() && #[trigger] edge(g, order[p] as int, j) implies exists|q: int|
                0 <= q < p && order[q] == j by {
                if p < old_order.len() {
                    let q = choose|q: int| 0 <= q < p && old_order[q] == j;
                    assert(order[q] == j);
                } else {
                    assert(placed@[j]);
                    assert(old_order.contains(j as usize));
                    let q = choose|q: int| 0 <= q < old_order.len() && old_order[q] == j as usize;
                    assert(order[q] == j);
                }
            }
        }
    }
    proof {
        assert forall|k: usize| k < n implies order@.contains(k) by {
            if !order@.contains(k) {
                lemma_missing_index(order@, n, k);
            }
        }
        assert forall|p: int, q: int|
            0 <= p < order.len() && 0 <= q < order.len() && edge(g, #[trigger] order[p] as int, #[trigger] order[q] as int)
                implies q < p by {
            let q2 = choose|q2: int| 0 <= q2 < p && order[q2] == order[q] as int;
        }
    }
    Some(order)
}

} // verus!
