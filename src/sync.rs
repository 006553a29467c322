//! Planning: the steps that bring an installed library in line with a resolution.
use vstd::prelude::*;
use crate::graph::{acyclic, edge, graph_model, is_topo, topo_order, GraphModel, GraphNode};
use crate::package::{resolved_model, ResolvedDependency, ResolvedModel, Source};
use crate::resolver::{dep_graph, dependency_nodes, lookup, names_unique, Resolution};
use crate::version::{version_cmp, Version};

verus! {

/// One installed package.
pub struct LibraryEntry {
    pub name: String,
    pub version: Version,
    pub content_hash: String,
    pub path: String,
    /// Names of the packages it was installed against.
    pub dependencies: Vec<String>,
}

/// A snapshot of the installed packages, at most one entry per name.
pub struct Library {
    pub installed: Vec<LibraryEntry>,
}

pub open spec fn lib_unique(lib: Seq<LibraryEntry>) -> bool {
    forall|i: int, j: int| 0 <= i < lib.len() && 0 <= j < lib.len() && (#[trigger] lib[i]).name@ == (#[trigger] lib[j]).name@ ==> i == j
}

/// The graph of the installed packages and the names each was installed against.
pub open spec fn lib_graph(lib: Seq<LibraryEntry>) -> GraphModel {
    lib.map_values(|e: LibraryEntry| (e.name@, e.dependencies@.map_values(|s: String| s@)))
}

/// One operation of a plan.
pub enum BuildStep {
    Install { name: String, version: Version, source: Source },
    Update { name: String, from: Version, to: Version },
    Remove { name: String },
}

/// What a step looks like to the proofs.
pub enum StepModel {
    Install { name: Seq<char>, version: Seq<u64>, source: Source },
    Update { name: Seq<char>, from: Seq<u64>, to: Seq<u64> },
    Remove { name: Seq<char> },
}

impl View for BuildStep {
    type V = StepModel;

    open spec fn view(&self) -> StepModel {
        match self {
            BuildStep::Install { name, version, source } => StepModel::Install {
                name: name@,
                version: version@,
                source: *source,
            },
            BuildStep::Update { name, from, to } => StepModel::Update { name: name@, from: from@, to: to@ },
            BuildStep::Remove { name } => remove_of(name@),
        }
    }
}

pub open spec fn remove_of(name: Seq<char>) -> StepModel {
    StepModel::Remove { name }
}

pub open spec fn step_name(s: StepModel) -> Seq<char> {
    match s {
        StepModel::Install { name, .. } => name,
        StepModel::Update { name, .. } => name,
        StepModel::Remove { name } => name,
    }
}

/// The step that entry `e` needs against the library: none when an installed
/// entry of its name has an equal version and the same content hash.
pub open spec fn step_for(e: ResolvedModel, lib: Seq<LibraryEntry>) -> Option<StepModel> {
    if exists|l: int| 0 <= l < lib.len() && (#[trigger] lib[l]).name@ == e.name {
        let l = choose|l: int| 0 <= l < lib.len() && (#[trigger] lib[l]).name@ == e.name;
        if version_cmp(lib[l].version@, e.version) != 0 || lib[l].content_hash@ != e.content_hash {
            Some(StepModel::Update { name: e.name, from: lib[l].version@, to: e.version })
        } else {
            None
        }
    } else {
        Some(StepModel::Install { name: e.name, version: e.version, source: e.source })
    }
}

/// Installed entry `l` has no counterpart in the resolution.
pub open spec fn removable(g: Seq<ResolvedModel>, lib: Seq<LibraryEntry>, l: int) -> bool {
    forall|a: int| 0 <= a < g.len() ==> (#[trigger] g[a]).name != lib[l].name@
}

pub open spec fn is_remove(s: StepModel) -> bool {
    s is Remove
}

/// Step `st` is the step of some entry, or, with `prune`, the removal of an
/// installed package that the entries lack.
pub open spec fn step_accounted(g: Seq<ResolvedModel>, lib: Seq<LibraryEntry>, prune: bool, st: StepModel) -> bool {
    (exists|a: int| 0 <= a < g.len() && step_for(#[trigger] g[a], lib) == Some(st)) || (prune && exists|l: int|
        0 <= l < lib.len() && #[trigger] removable(g, lib, l) && st == remove_of(lib[l].name@))
}

/// `plan` brings library `lib` in line with the entries `g`: one install or update
/// for each entry that needs one, one removal for each installed package that
/// `g` lacks when `prune` is set, nothing else; each step after the steps of
/// the packages it depends on; removals after those, each before the removals
/// of the packages it depends on (where the installed graph has no cycle).
pub open spec fn is_plan(g: Seq<ResolvedModel>, lib: Seq<LibraryEntry>, prune: bool, plan: Seq<StepModel>) -> bool {
    &&& forall|a: int| 0 <= a < g.len() && (#[trigger] step_for(g[a], lib)) is Some ==> exists|s: int|
        0 <= s < plan.len() && Some(#[trigger] plan[s]) == step_for(g[a], lib)
    &&& forall|l: int| 0 <= l < lib.len() && prune && #[trigger] removable(g, lib, l) ==> exists|s: int|
        0 <= s < plan.len() && #[trigger] plan[s] == remove_of(lib[l].name@)
    &&& forall|s: int| 0 <= s < plan.len() ==> step_accounted(g, lib, prune, #[trigger] plan[s])
    &&& forall|s1: int, s2: int| 0 <= s1 < s2 < plan.len() ==> step_name(#[trigger] plan[s1]) != step_name(#[trigger] plan[s2]) 
    &&& forall|s1: int, s2: int| 0 <= s1 < s2 < plan.len() && is_remove(#[trigger] plan[s1]) ==> is_remove(#[trigger] plan[s2])
    &&& forall|s1: int, s2: int, a: int, b: int|
        0 <= s1 < plan.len() && 0 <= s2 < plan.len() && 0 <= a < g.len() && 0 <= b < g.len() && !is_remove(plan[s1])
            && !is_remove(plan[s2]) && step_name(#[trigger] plan[s1]) == g[a].name && step_name(#[trigger] plan[s2])
            == g[b].name && #[trigger] edge(dep_graph(g), a, b) ==> s2 < s1
    &&& acyclic(lib_graph(lib)) ==> forall|s1: int, s2: int, l1: int, l2: int|
        0 <= s1 < plan.len() && 0 <= s2 < plan.len() && 0 <= l1 < lib.len() && 0 <= l2 < lib.len() && #[trigger] plan[s1]
            == remove_of(lib[l1].name@) && #[trigger] plan[s2] == remove_of(lib[l2].name@) && #[trigger] edge(lib_graph(lib), l1, l2) ==> s1 < s2
}

/// Index of the installed entry named `name`, or the length when there is none.
fn lib_lookup(lib: &Vec<LibraryEntry>, name: &String) -> (r: usize)
    ensures
        r <= lib.len(),
        r < lib.len() ==> lib@[r as int].name@ == name@,
        r == lib.len() ==> forall|i: int| 0 <= i < lib.len() ==> lib@[i].name@ != name@,
{
    let mut i: usize = 0;
    while i < lib.len()
        invariant
            0 <= i <= lib.len(),
            forall|j: int| 0 <= j < i ==> lib@[j].name@ != name@,
        decreases lib.len() - i,
    {
        if lib[i].name == *name {
            return i;
        }
        i = i + 1;
    }
    i
}

proof fn lemma_step_for_name(e: ResolvedModel, lib: Seq<LibraryEntry>)
    ensures
        step_for(e, lib) is Some ==> step_name(step_for(e, lib)->0) == e.name && !is_remove(step_for(e, lib)->0),
{
}

/// The step entry `e` needs against the library.
fn step_of(e: &ResolvedDependency, lib: &Vec<LibraryEntry>) -> (r: Option<BuildStep>)
    requires
        lib_unique(lib@),
    ensures
        match r {
            Some(st) => step_for(e@, lib@) == Some(st@),
            None => step_for(e@, lib@) is None,
        },
{
    let l = lib_lookup(lib, &e.name);
    if l < lib.len() {
        let ghost lc = choose|x: int| 0 <= x < lib@.len() && (#[trigger] lib@[x]).name@ == e@.name;
        assert(lc == l as int);
        let li = &lib[l];
        if li.version.compare(&e.version) != 0 || !(li.content_hash == e.content_hash) {
            Some(BuildStep::Update { name: e.name.clone(), from: li.version.copy(), to: e.version.copy() })
        } else {
            None
        }
    } else {
        Some(BuildStep::Install { name: e.name.clone(), version: e.version.copy(), source: e.source.copy() })
    }
}

pub open spec fn steps_model(s: Seq<BuildStep>) -> Seq<StepModel> {
    s.map_values(|st: BuildStep| st@)
}

/// The install and update steps, each after the steps of its dependencies.
#[verifier::rlimit(40)]
fn install_steps(graph: &Vec<ResolvedDependency>, lib: &Vec<LibraryEntry>) -> (r: Vec<BuildStep>)
    requires
        names_unique(resolved_model(graph@)),
        lib_unique(lib@),
        acyclic(dep_graph(resolved_model(graph@))),
    ensures
        forall|a: int| 0 <= a < graph@.len() && (#[trigger] step_for(resolved_model(graph@)[a], lib@)) is Some ==> exists|s: int|
            0 <= s < r@.len() && Some(#[trigger] steps_model(r@)[s]) == step_for(resolved_model(graph@)[a], lib@),
        forall|s: int| 0 <= s < r@.len() ==> !is_remove(#[trigger] steps_model(r@)[s]) && exists|a: int|
            0 <= a < graph@.len() && step_for(#[trigger] resolved_model(graph@)[a], lib@) == Some(steps_model(r@)[s]),
        forall|s1: int, s2: int| 0 <= s1 < s2 < r@.len() ==> step_name(#[trigger] steps_model(r@)[s1]) != step_name(#[trigger] steps_model(r@)[s2]),
        forall|s1: int, s2: int, a: int, b: int|
            0 <= s1 < r@.len() && 0 <= s2 < r@.len() && 0 <= a < graph@.len() && 0 <= b < graph@.len()
                && step_name(#[trigger] steps_model(r@)[s1]) == resolved_model(graph@)[a].name && step_name(#[trigger] steps_model(r@)[s2])
                == resolved_model(graph@)[b].name && #[trigger] edge(dep_graph(resolved_model(graph@)), a, b) ==> s2 < s1,
{
    let ghost g = resolved_model(graph@);
    let nodes = dependency_nodes(graph);
    let order = match topo_order(&nodes) {
        Some(o) => o,
        None => {
            assert(false);
            Vec::new()
        },
    };
    let ghost gg = dep_graph(g);
    assert(is_topo(gg, order@));
    let mut out: Vec<BuildStep> = Vec::new();
    let ghost mut owner: Seq<int> = Seq::empty();
    let ghost mut pos: Seq<int> = Seq::empty();
    let mut p: usize = 0;
    while p < order.len()
        invariant
            g == resolved_model(graph@),
            gg == dep_graph(g),
            g.len() == graph@.len(),
            gg.len() == g.len(),
            lib_unique(lib@),
            is_topo(gg, order@),
            0 <= p <= order.len(),
            out@.len() == owner.len() && owner.len() == pos.len(),
            forall|s: int|
                0 <= s < pos.len() ==> 0 <= #[trigger] pos[s] < p && owner[s] == order@[pos[s]] as int && step_for(
                    g[owner[s]],
                    lib@,
                ) == Some(out@[s]@),
            forall|s1: int, s2: int| 0 <= s1 < s2 < pos.len() ==> #[trigger] pos[s1] < #[trigger] pos[s2],
            forall|q: int| 0 <= q < p && (#[trigger] step_for(g[order@[q] as int], lib@)) is Some ==> exists|s: int|
                0 <= s < pos.len() && pos[s] == q,
        decreases order.len() - p,
    {
        let a = order[p];
        assert(order@[p as int] < g.len());
        let ghost old_pos = pos;
        match step_of(&graph[a], lib) {
            Some(st) => {
                out.push(st);
                proof {
                    owner = owner.push(a as int);
                    pos = pos.push(p as int);
                    assert(pos[pos.len() - 1] == p);
                }
            },
            None => {},
        }
        proof {
            assert forall|q: int| 0 <= q < p + 1 && (#[trigger] step_for(g[order@[q] as int], lib@)) is Some implies exists|s: int|
                0 <= s < pos.len() && pos[s] == q by {
                if q < p {
                    let s = choose|s: int| 0 <= s < old_pos.len() && old_pos[s] == q;
                    assert(pos[s] == q);
                } else {
                    assert(pos[pos.len() - 1] == q);
                }
            }
        }
        p = p + 1;
    }
    proof {
        let m = steps_model(out@);
        assert forall|s: int| 0 <= s < out@.len() implies m[s] == out@[s]@ && step_name(m[s]) == g[owner[s]].name
            && !is_remove(m[s]) && 0 <= owner[s] < g.len() by {
            assert(order@[pos[s]] < gg.len());
            assert(step_for(g[owner[s]], lib@) == Some(out@[s]@));
            lemma_step_for_name(g[owner[s]], lib@);
        }
        assert forall|a: int| 0 <= a < graph@.len() && (#[trigger] step_for(g[a], lib@)) is Some implies exists|s: int|
            0 <= s < out@.len() && Some(#[trigger] m[s]) == step_for(g[a], lib@) by {
            assert(order@.contains(a as usize));
            let q = choose|q: int| 0 <= q < order@.len() && order@[q] == a as usize;
            assert(step_for(g[order@[q] as int], lib@) is Some);
            let s = choose|s: int| 0 <= s < pos.len() && pos[s] == q;
            assert(m[s] == out@[s]@);
        }
        assert forall|s: int| 0 <= s < out@.len() implies !is_remove(#[trigger] m[s]) && exists|a: int|
            0 <= a < graph@.len() && step_for(#[trigger] g[a], lib@) == Some(m[s]) by {
            assert(order@[pos[s]] < gg.len());
            assert(step_for(g[owner[s]], lib@) == Some(out@[s]@));
            assert(step_for(g[owner[s]], lib@) == Some(m[s]));
        }
        assert forall|s1: int, s2: int| 0 <= s1 < s2 < out@.len() implies step_name(#[trigger] m[s1]) != step_name(#[trigger] m[s2]) by {
            assert(pos[s1] < pos[s2]);
            if step_name(m[s1]) == step_name(m[s2]) {
                assert(g[owner[s1]].name == g[owner[s2]].name);
                assert(owner[s1] == owner[s2]);
                assert(order@[pos[s1]] == order@[pos[s2]]);
            }
        }
        assert forall|s1: int, s2: int, a: int, b: int|
            0 <= s1 < out@.len() && 0 <= s2 < out@.len() && 0 <= a < graph@.len() && 0 <= b < graph@.len()
                && step_name(#[trigger] m[s1]) == g[a].name && step_name(#[trigger] m[s2]) == g[b].name
                && #[trigger] edge(gg, a, b) implies s2 < s1 by {
            assert(g[owner[s1]].name == g[a].name);
            assert(owner[s1] == a);
            assert(g[owner[s2]].name == g[b].name);
            assert(owner[s2] == b);
            assert(edge(gg, order@[pos[s1]] as int, order@[pos[s2]] as int));
            assert(pos[s2] < pos[s1]);
            if s1 < s2 {
                assert(pos[s1] < pos[s2]);
            }
        }
    }
    out
}

/// The graph nodes of the installed packages, in library order.
fn library_nodes(lib: &Vec<LibraryEntry>) -> (r: Vec<GraphNode>)
    ensures
        graph_model(r@) == lib_graph(lib@),
{
    let ghost lg = lib_graph(lib@);
    let mut r: Vec<GraphNode> = Vec::new();
    let mut i: usize = 0;
    while i < lib.len()
        invariant
            0 <= i <= lib.len(),
            lg == lib_graph(lib@),
            r.len() == i,
            forall|j: int| 0 <= j < i ==> (#[trigger] r@[j])@ == lg[j],
        decreases lib.len() - i,
    {
        let deps = &lib[i].dependencies;
        let mut names: Vec<String> = Vec::new();
        let mut k: usize = 0;
        while k < deps.len()
            invariant
                0 <= k <= deps.len(),
                names.len() == k,
                forall|j: int| 0 <= j < k ==> (#[trigger] names@[j]) == deps@[j],
            decreases deps.len() - k,
        {
            names.push(deps[k].clone());
            k = k + 1;
        }
        let node = GraphNode { name: lib[i].name.clone(), deps: names };
        proof {
            assert(node@.1 =~= lg[i as int].1);
        }
        r.push(node);
        i = i + 1;
    }
    assert(graph_model(r@) =~= lg);
    r
}

/// Every index below `n` once.
pub open spec fn is_perm(o: Seq<usize>, n: int) -> bool {
    &&& o.no_duplicates()
    &&& forall|p: int| 0 <= p < o.len() ==> (#[trigger] o[p]) < n
    &&& forall|i: usize| i < n ==> o.contains(i)
}

/// The order in which installed packages are considered for removal: dependencies
/// before dependents where the installed graph allows it, else library order.
fn library_order(lib: &Vec<LibraryEntry>) -> (r: Vec<usize>)
    ensures
        is_perm(r@, lib@.len() as int),
        acyclic(lib_graph(lib@)) ==> is_topo(lib_graph(lib@), r@),
{
    let nodes = library_nodes(lib);
    match topo_order(&nodes) {
        Some(o) => o,
        None => {
            let mut o: Vec<usize> = Vec::new();
            let mut i: usize = 0;
            while i < lib.len()
                invariant
                    0 <= i <= lib.len(),
                    o.len() == i,
                    forall|j: int| 0 <= j < i ==> (#[trigger] o@[j]) == j,
                decreases lib.len() - i,
            {
                o.push(i);
                i = i + 1;
            }
            assert forall|k: usize| k < lib@.len() implies o@.contains(k) by {
                assert(o@[k as int] == k);
            }
            o
        },
    }
}

/// The removals of installed packages that `graph` lacks, dependents first.
#[verifier::rlimit(40)]
fn removal_steps(graph: &Vec<ResolvedDependency>, lib: &Vec<LibraryEntry>) -> (r: Vec<BuildStep>)
    requires
        names_unique(resolved_model(graph@)),
        lib_unique(lib@),
    ensures
        forall|l: int| 0 <= l < lib@.len() && #[trigger] removable(resolved_model(graph@), lib@, l) ==> exists|s: int|
            0 <= s < r@.len() && #[trigger] steps_model(r@)[s] == remove_of(lib@[l].name@),
        forall|s: int| 0 <= s < r@.len() ==> is_remove(#[trigger] steps_model(r@)[s]) && exists|l: int|
            0 <= l < lib@.len() && #[trigger] removable(resolved_model(graph@), lib@, l) && steps_model(r@)[s]
                == remove_of(lib@[l].name@),
        forall|s1: int, s2: int| 0 <= s1 < s2 < r@.len() ==> step_name(#[trigger] steps_model(r@)[s1]) != step_name(#[trigger] steps_model(r@)[s2]),
        acyclic(lib_graph(lib@)) ==> forall|s1: int, s2: int, l1: int, l2: int|
            0 <= s1 < r@.len() && 0 <= s2 < r@.len() && 0 <= l1 < lib@.len() && 0 <= l2 < lib@.len()
                && #[trigger] steps_model(r@)[s1] == remove_of(lib@[l1].name@) && #[trigger] steps_model(r@)[s2]
                == remove_of(lib@[l2].name@) && #[trigger] edge(lib_graph(lib@), l1, l2) ==> s1 < s2,
{
    let ghost g = resolved_model(graph@);
    let ghost lg = lib_graph(lib@);
    let order = library_order(lib);
    let mut out: Vec<BuildStep> = Vec::new();
    let ghost mut owner: Seq<int> = Seq::empty();
    let ghost mut pos: Seq<int> = Seq::empty();
    let mut p: usize = order.len();
    while p > 0
        invariant
            g == resolved_model(graph@),
            lg == lib_graph(lib@),
            lg.len() == lib@.len(),
            lib_unique(lib@),
            is_perm(order@, lib@.len() as int),
            0 <= p <= order.len(),
            out@.len() == owner.len() && owner.len() == pos.len(),
            forall|s: int|
                0 <= s < pos.len() ==> p <= #[trigger] pos[s] < order.len() && owner[s] == order@[pos[s]] as int
                    && 0 <= owner[s] < lib@.len() && removable(g, lib@, owner[s]) && out@[s]@ == remove_of(lib@[owner[s]].name@),
            forall|s1: int, s2: int| 0 <= s1 < s2 < pos.len() ==> #[trigger] pos[s1] > #[trigger] pos[s2],
            forall|q: int| p <= q < order.len() && #[trigger] removable(g, lib@, order@[q] as int) ==> exists|s: int|
                0 <= s < pos.len() && pos[s] == q,
        decreases p,
    {
        p = p - 1;
        let l = order[p];
        let ghost old_pos = pos;
        let found = lookup(graph, &lib[l].name);
        if found == graph.len() {
            let ghost old_out = out@;
            let ghost old_owner = owner;
            out.push(BuildStep::Remove { name: lib[l].name.clone() });
            proof {
                assert(out@[out@.len() - 1]@ == remove_of(lib@[l as int].name@));
                assert forall|s: int| 0 <= s < old_out.len() implies out@[s] == old_out[s] by {}
                assert forall|a: int| 0 <= a < g.len() implies (#[trigger] g[a]).name != lib@[l as int].name@ by {
                    assert(g[a].name == graph@[a].name@);
                }
                owner = owner.push(l as int);
                pos = pos.push(p as int);
                assert(pos[pos.len() - 1] == p);
                assert(removable(g, lib@, l as int));
                assert forall|s: int| 0 <= s < pos.len() implies p <= #[trigger] pos[s] < order.len() && owner[s]
                    == order@[pos[s]] as int && 0 <= owner[s] < lib@.len() && removable(g, lib@, owner[s])
                    && out@[s]@ == remove_of(lib@[owner[s]].name@) by {
                    if s < old_out.len() {
                        assert(pos[s] == old_pos[s] && owner[s] == old_owner[s]);
                    }
                }
            }
        } else {
            proof {
                assert(g[found as int].name == lib@[l as int].name@);
            }
        }
        proof {
            assert forall|q: int| p <= q < order.len() && #[trigger] removable(g, lib@, order@[q] as int) implies exists|s: int|
                0 <= s < pos.len() && pos[s] == q by {
                if q > p {
                    let s = choose|s: int| 0 <= s < old_pos.len() && old_pos[s] == q;
                    assert(pos[s] == q);
                } else {
                    assert(pos[pos.len() - 1] == q);
                }
            }
        }
    }
    let lib_len = lib.len();
    proof {
        let m = steps_model(out@);
        assert forall|s: int| 0 <= s < out@.len() implies #[trigger] m[s] == out@[s]@ by {}
        assert forall|l: int| 0 <= l < lib@.len() && #[trigger] removable(g, lib@, l) implies exists|s: int|
            0 <= s < out@.len() && #[trigger] m[s] == remove_of(lib@[l].name@) by {
            assert(l < lib_len);
            assert(order@.contains(l as usize));
            let q = choose|q: int| 0 <= q < order@.len() && order@[q] == l as usize;
            assert(order@[q] as int == l);
            assert(removable(g, lib@, order@[q] as int));
            let s = choose|s: int| 0 <= s < pos.len() && pos[s] == q;
            assert(m[s] == out@[s]@);
        }
        assert forall|s: int| 0 <= s < out@.len() implies is_remove(#[trigger] steps_model(out@)[s]) && exists|l: int|
            0 <= l < lib@.len() && #[trigger] removable(resolved_model(graph@), lib@, l) && steps_model(out@)[s] == remove_of(lib@[l].name@) by {
            assert(p <= pos[s] < order.len());
            assert(removable(g, lib@, owner[s]));
            assert(steps_model(out@)[s] == remove_of(lib@[owner[s]].name@));
        }
        assert forall|s1: int, s2: int| 0 <= s1 < s2 < out@.len() implies step_name(#[trigger] m[s1]) != step_name(#[trigger] m[s2]) by {
            assert(pos[s1] > pos[s2]);
            if step_name(m[s1]) == step_name(m[s2]) {
                assert(lib@[owner[s1]].name@ == lib@[owner[s2]].name@);
                assert(owner[s1] == owner[s2]);
                assert(order@[pos[s1]] == order@[pos[s2]]);
            }
        }
        if acyclic(lib_graph(lib@)) {
            assert forall|s1: int, s2: int, l1: int, l2: int|
                0 <= s1 < out@.len() && 0 <= s2 < out@.len() && 0 <= l1 < lib@.len() && 0 <= l2 < lib@.len()
                    && #[trigger] m[s1] == remove_of(lib@[l1].name@) && #[trigger] m[s2]
                    == remove_of(lib@[l2].name@) && #[trigger] edge(lg, l1, l2) implies s1 < s2 by {
                assert(m[s1] == out@[s1]@ && m[s2] == out@[s2]@);
                assert(p <= pos[s1] < order.len() && p <= pos[s2] < order.len());
                assert(step_name(m[s1]) == lib@[l1].name@ && step_name(m[s1]) == lib@[owner[s1]].name@);
                assert(step_name(m[s2]) == lib@[l2].name@ && step_name(m[s2]) == lib@[owner[s2]].name@);
                assert(lib@[owner[s1]].name@ == lib@[l1].name@);
                assert(owner[s1] == l1);
                assert(lib@[owner[s2]].name@ == lib@[l2].name@);
                assert(owner[s2] == l2);
                assert(is_topo(lg, order@));
                assert(edge(lg, order@[pos[s1]] as int, order@[pos[s2]] as int));
                assert(pos[s2] < pos[s1]);
                if s2 < s1 {
                    assert(pos[s2] > pos[s1]);
                }
            }
        }
    }
    out
}

/// An ordered list of steps, consumed once by an executor.
pub struct BuildPlan {
    pub steps: Vec<BuildStep>,
}

/// Plans the steps that bring `library` in line with `resolution`: installs and
/// updates in dependency order, then, when `prune` is set, removals of what the
/// resolution lacks, dependents first.
#[verifier::rlimit(60)]
pub fn sync(resolution: &Resolution, library: &Library, prune: bool) -> (r: BuildPlan)
    requires
        names_unique(resolution@.graph),
        acyclic(dep_graph(resolution@.graph)),
        lib_unique(library.installed@),
    ensures
        is_plan(resolution@.graph, library.installed@, prune, steps_model(r.steps@)),
{
    let ghost g = resolution@.graph;
    let ghost lib = library.installed@;
    let mut steps = install_steps(&resolution.graph, &library.installed);
    let ghost ins = steps_model(steps@);
    let mut rem: Vec<BuildStep> = if prune {
        removal_steps(&resolution.graph, &library.installed)
    } else {
        Vec::new()
    };
    let ghost rm = steps_model(rem@);
    steps.append(&mut rem);
    proof {
        let plan = steps_model(steps@);
        assert(plan =~= ins + rm);
        let n = ins.len();
        assert forall|s: int| 0 <= s < plan.len() implies step_accounted(g, lib, prune, #[trigger] plan[s]) by {
            if s < n {
                assert(plan[s] == ins[s]);
            } else {
                assert(plan[s] == rm[s - n]);
            }
        }
        assert forall|a: int| 0 <= a < g.len() && (#[trigger] step_for(g[a], lib)) is Some implies exists|s: int|
            0 <= s < plan.len() && Some(#[trigger] plan[s]) == step_for(g[a], lib) by {
            let s = choose|s: int| 0 <= s < ins.len() && Some(#[trigger] ins[s]) == step_for(g[a], lib);
            assert(plan[s] == ins[s]);
        }
        assert forall|l: int| 0 <= l < lib.len() && prune && #[trigger] removable(g, lib, l) implies exists|s: int|
            0 <= s < plan.len() && #[trigger] plan[s] == remove_of(lib[l].name@) by {
            let s = choose|s: int| 0 <= s < rm.len() && #[trigger] rm[s] == remove_of(lib[l].name@);
            assert(plan[s + n] == rm[s]);
        }
        assert forall|s1: int, s2: int| 0 <= s1 < s2 < plan.len() implies step_name(#[trigger] plan[s1]) != step_name(#[trigger] plan[s2]) by {
            if s2 < n {
                assert(plan[s1] == ins[s1] && plan[s2] == ins[s2]);
            } else if s1 >= n {
                assert(plan[s1] == rm[s1 - n] && plan[s2] == rm[s2 - n]);
            } else {
                assert(plan[s1] == ins[s1] && plan[s2] == rm[s2 - n]);
                let a = choose|a: int| 0 <= a < g.len() && step_for(#[trigger] g[a], lib) == Some(ins[s1]);
                lemma_step_for_name(g[a], lib);
                let l = choose|l: int| 0 <= l < lib.len() && #[trigger] removable(g, lib, l) && rm[s2 - n] == remove_of(lib[l].name@);
                assert(g[a].name != lib[l].name@);
            }
        }
        assert forall|s1: int, s2: int| 0 <= s1 < s2 < plan.len() && is_remove(#[trigger] plan[s1]) implies is_remove(#[trigger] plan[s2]) by {
            if s1 < n {
                assert(plan[s1] == ins[s1]);
            } else {
                assert(plan[s2] == rm[s2 - n]);
            }
        }
        assert forall|s1: int, s2: int, a: int, b: int|
            0 <= s1 < plan.len() && 0 <= s2 < plan.len() && 0 <= a < g.len() && 0 <= b < g.len() && !is_remove(plan[s1])
                && !is_remove(plan[s2]) && step_name(#[trigger] plan[s1]) == g[a].name && step_name(#[trigger] plan[s2])
                == g[b].name && #[trigger] edge(dep_graph(g), a, b) implies s2 < s1 by {
            if s1 >= n {
                assert(plan[s1] == rm[s1 - n]);
            } else if s2 >= n {
                assert(plan[s2] == rm[s2 - n]);
            } else {
                assert(plan[s1] == ins[s1] && plan[s2] == ins[s2]);
            }
        }
        if acyclic(lib_graph(lib)) {
            assert forall|s1: int, s2: int, l1: int, l2: int|
                0 <= s1 < plan.len() && 0 <= s2 < plan.len() && 0 <= l1 < lib.len() && 0 <= l2 < lib.len()
                    && #[trigger] plan[s1] == remove_of(lib[l1].name@) && #[trigger] plan[s2] == remove_of(lib[l2].name@)
                    && #[trigger] edge(lib_graph(lib), l1, l2) implies s1 < s2 by {
                if s1 < n {
                    assert(plan[s1] == ins[s1]);
                } else if s2 < n {
                    assert(plan[s2] == ins[s2]);
                } else {
                    assert(plan[s1] == rm[s1 - n] && plan[s2] == rm[s2 - n]);
                }
            }
        }
    }
    BuildPlan { steps }
}

/// The library already holds every package of the entries, at an equal version
/// and with the same content hash, and nothing else.
pub open spec fn in_sync(g: Seq<ResolvedModel>, lib: Seq<LibraryEntry>) -> bool {
    &&& forall|a: int| 0 <= a < g.len() ==> exists|l: int|
        0 <= l < lib.len() && (#[trigger] lib[l]).name@ == (#[trigger] g[a]).name && version_cmp(lib[l].version@, g[a].version) == 0
            && lib[l].content_hash@ == g[a].content_hash
    &&& forall|l: int| 0 <= l < lib.len() ==> exists|a: int| 0 <= a < g.len() && (#[trigger] g[a]).name == (#[trigger] lib[l]).name@
}

/// A plan for a library that already matches the resolution has no step.
pub proof fn lemma_sync_noop(g: Seq<ResolvedModel>, lib: Seq<LibraryEntry>, prune: bool, plan: Seq<StepModel>)
    requires
        lib_unique(lib),
        in_sync(g, lib),
        is_plan(g, lib, prune, plan),
    ensures
        plan.len() == 0,
{
    if plan.len() > 0 {
        assert(step_accounted(g, lib, prune, plan[0]));
        if exists|a: int| 0 <= a < g.len() && step_for(#[trigger] g[a], lib) == Some(plan[0]) {
            let a = choose|a: int| 0 <= a < g.len() && step_for(#[trigger] g[a], lib) == Some(plan[0]);
            let l = choose|l: int|
                0 <= l < lib.len() && (#[trigger] lib[l]).name@ == (#[trigger] g[a]).name && version_cmp(lib[l].version@, g[a].version) == 0
                    && lib[l].content_hash@ == g[a].content_hash;
            let lc = choose|x: int| 0 <= x < lib.len() && (#[trigger] lib[x]).name@ == g[a].name;
            assert(lc == l);
        } else {
            let l = choose|l: int| 0 <= l < lib.len() && #[trigger] removable(g, lib, l) && plan[0] == remove_of(lib[l].name@);
            let a = choose|a: int| 0 <= a < g.len() && (#[trigger] g[a]).name == (#[trigger] lib[l]).name@;
        }
    }
}

} // verus!
