//! The resolver: from root requirements and repositories to one exact version
//! of every package needed.
use vstd::prelude::*;
use crate::graph::{acyclic, graph_model, is_topo, lemma_all_indices, lemma_missing_index, topo_order, GraphModel, GraphNode};
use crate::names::{lemma_name_lt_irreflexive, lemma_name_lt_total, lemma_name_lt_transitive, name_less, name_lt};
use crate::package::{
    deps_model, eligible, from_candidate, PackageCandidates, offered, resolved_model, copy_deps,
    Candidate, DepModel, Dependency, RepositoryDatabase, ResolvedDependency, ResolvedModel,
};
use crate::version::{lemma_cmp_reflexive, req_sat, version_cmp, ReqModel, Version, VersionRequirement};

verus! {

/// No two entries carry the same name.
pub open spec fn names_unique(g: Seq<ResolvedModel>) -> bool {
    forall|i: int, j: int| 0 <= i < g.len() && 0 <= j < g.len() && #[trigger] g[i].name == #[trigger] g[j].name ==> i == j
}

/// The dependency graph of a set of entries: each entry's name and the names it depends on.
pub open spec fn dep_graph(g: Seq<ResolvedModel>) -> GraphModel {
    g.map_values(|e: ResolvedModel| (e.name, e.deps.map_values(|d: DepModel| d.0)))
}

/// Requirement `d` is met: an entry of its name is present and its version satisfies it.
pub open spec fn requirement_met(g: Seq<ResolvedModel>, d: DepModel) -> bool {
    exists|i: int| 0 <= i < g.len() && g[i].name == d.0 && req_sat(d.1, #[trigger] g[i].version)
}

/// What a resolution looks like to the proofs.
pub struct ResolutionModel {
    pub root: Seq<DepModel>,
    pub graph: Seq<ResolvedModel>,
}

/// A resolution is valid: one entry per name, in order of name, no cycle, and every requirement of
/// the root and of every entry met by the entry it names.
pub open spec fn valid_resolution(m: ResolutionModel) -> bool {
    &&& names_unique(m.graph)
    &&& sorted_by_name(m.graph)
    &&& acyclic(dep_graph(m.graph))
    &&& forall|k: int| 0 <= k < m.root.len() ==> requirement_met(m.graph, #[trigger] m.root[k])
    &&& forall|i: int, k: int|
        0 <= i < m.graph.len() && 0 <= k < m.graph[i].deps.len() ==> requirement_met(
            m.graph,
            #[trigger] m.graph[i].deps[k],
        )
}

/// The result of resolving: the root requirements and one entry per package.
pub struct Resolution {
    pub root: Vec<Dependency>,
    pub graph: Vec<ResolvedDependency>,
}

impl View for Resolution {
    type V = ResolutionModel;

    open spec fn view(&self) -> ResolutionModel {
        ResolutionModel { root: deps_model(self.root@), graph: resolved_model(self.graph@) }
    }
}

/// Every valid resolution has an acyclic dependency graph.
pub proof fn lemma_resolution_acyclic(r: ResolutionModel)
    requires
        valid_resolution(r),
    ensures
        acyclic(dep_graph(r.graph)),
{
}

/// In a valid resolution, the version selected for a package satisfies the
/// requirement of every package that depends on it, and of the root.
pub proof fn lemma_requirements_satisfied(r: ResolutionModel, j: int)
    requires
        valid_resolution(r),
        0 <= j < r.graph.len(),
    ensures
        forall|k: int| 0 <= k < r.root.len() && (#[trigger] r.root[k]).0 == r.graph[j].name ==> req_sat(r.root[k].1, r.graph[j].version),
        forall|i: int, k: int|
            0 <= i < r.graph.len() && 0 <= k < r.graph[i].deps.len() && (#[trigger] r.graph[i].deps[k]).0
                == r.graph[j].name ==> req_sat(r.graph[i].deps[k].1, r.graph[j].version),
{
    assert forall|k: int| 0 <= k < r.root.len() && (#[trigger] r.root[k]).0 == r.graph[j].name implies req_sat(r.root[k].1, r.graph[j].version) by {
        assert(requirement_met(r.graph, r.root[k]));
        let x = choose|x: int| 0 <= x < r.graph.len() && r.graph[x].name == r.root[k].0 && req_sat(r.root[k].1, #[trigger] r.graph[x].version);
        assert(r.graph[x].name == r.graph[j].name);
    }
    assert forall|i: int, k: int|
        0 <= i < r.graph.len() && 0 <= k < r.graph[i].deps.len() && (#[trigger] r.graph[i].deps[k]).0
            == r.graph[j].name implies req_sat(r.graph[i].deps[k].1, r.graph[j].version) by {
        assert(requirement_met(r.graph, r.graph[i].deps[k]));
        let x = choose|x: int| 0 <= x < r.graph.len() && r.graph[x].name == r.graph[i].deps[k].0 && req_sat(r.graph[i].deps[k].1, #[trigger] r.graph[x].version);
        assert(r.graph[x].name == r.graph[j].name);
    }
}

/// Version `v` meets every requirement of `reqs`.
pub open spec fn sat_all(reqs: Seq<ReqModel>, v: Seq<u64>) -> bool {
    forall|k: int| 0 <= k < reqs.len() ==> req_sat(#[trigger] reqs[k], v)
}

pub open spec fn req_models(reqs: Seq<VersionRequirement>) -> Seq<ReqModel> {
    reqs.map_values(|r: VersionRequirement| r@)
}

/// Whether `v` meets every requirement of `reqs`.
pub fn satisfies_all(reqs: &Vec<VersionRequirement>, v: &Version) -> (r: bool)
    ensures
        r == sat_all(req_models(reqs@), v@),
{
    let mut k: usize = 0;
    while k < reqs.len()
        invariant
            0 <= k <= reqs.len(),
            forall|j: int| 0 <= j < k ==> req_sat(#[trigger] req_models(reqs@)[j], v@),
        decreases reqs.len() - k,
    {
        if !reqs[k].satisfies(v) {
            assert(req_models(reqs@)[k as int] == reqs@[k as int]@);
            return false;
        }
        k = k + 1;
    }
    true
}

/// Index of the entry named `name`, or the table's length when there is none.
pub fn lookup(table: &Vec<ResolvedDependency>, name: &String) -> (r: usize)
    ensures
        r <= table.len(),
        r < table.len() ==> table@[r as int].name@ == name@,
        forall|i: int| 0 <= i < r ==> table@[i].name@ != name@,
        r == table.len() ==> forall|i: int| 0 <= i < table.len() ==> table@[i].name@ != name@,
{
    let mut i: usize = 0;
    while i < table.len()
        invariant
            0 <= i <= table.len(),
            forall|j: int| 0 <= j < i ==> table@[j].name@ != name@,
        decreases table.len() - i,
    {
        if table[i].name == *name {
            return i;
        }
        i = i + 1;
    }
    i
}

/// Whether requirement `d` is met by the table, whose names are unique.
pub(crate) fn is_met(table: &Vec<ResolvedDependency>, d: &Dependency) -> (r: bool)
    requires
        names_unique(resolved_model(table@)),
    ensures
        r == requirement_met(resolved_model(table@), d@),
{
    let ghost g = resolved_model(table@);
    let i = lookup(table, &d.name);
    if i < table.len() {
        let r = d.requirement.satisfies(&table[i].version);
        proof {
            assert(g[i as int] == table@[i as int]@);
            if r {
                assert(g[i as int].name == d@.0 && req_sat(d@.1, g[i as int].version));
            } else {
                if requirement_met(g, d@) {
                    let x = choose|x: int| 0 <= x < g.len() && g[x].name == d@.0 && req_sat(d@.1, #[trigger] g[x].version);
                    assert(g[x].name == g[i as int].name);
                }
            }
        }
        r
    } else {
        proof {
            if requirement_met(g, d@) {
                let x = choose|x: int| 0 <= x < g.len() && g[x].name == d@.0 && req_sat(d@.1, #[trigger] g[x].version);
                assert(table@[x].name@ == g[x].name);
            }
        }
        false
    }
}

/// The name of the first requirement of `deps` that `g` does not meet.
pub open spec fn first_unmet(deps: Seq<DepModel>, g: Seq<ResolvedModel>) -> Option<Seq<char>>
    decreases deps.len(),
{
    if deps.len() == 0 {
        None
    } else if !requirement_met(g, deps[0]) {
        Some(deps[0].0)
    } else {
        first_unmet(deps.drop_first(), g)
    }
}

/// The first unmet requirement of the entries `es`, in order.
pub open spec fn first_unmet_entries(es: Seq<ResolvedModel>, g: Seq<ResolvedModel>) -> Option<Seq<char>>
    decreases es.len(),
{
    if es.len() == 0 {
        None
    } else {
        match first_unmet(es[0].deps, g) {
            Some(n) => Some(n),
            None => first_unmet_entries(es.drop_first(), g),
        }
    }
}

/// The first requirement, of the root and then of the entries in order, that
/// the entries do not meet.
pub open spec fn next_unmet_spec(roots: Seq<DepModel>, g: Seq<ResolvedModel>) -> Option<Seq<char>> {
    match first_unmet(roots, g) {
        Some(n) => Some(n),
        None => first_unmet_entries(g, g),
    }
}

/// The first requirement of `deps` that the table does not meet.
fn first_unmet_in(deps: &Vec<Dependency>, table: &Vec<ResolvedDependency>) -> (r: Option<String>)
    requires
        names_unique(resolved_model(table@)),
    ensures
        match r {
            Some(n) => first_unmet(deps_model(deps@), resolved_model(table@)) == Some(n@),
            None => first_unmet(deps_model(deps@), resolved_model(table@)) is None,
        },
{
    let ghost dm = deps_model(deps@);
    let ghost g = resolved_model(table@);
    let mut k: usize = 0;
    assert(dm.skip(0) =~= dm);
    while k < deps.len()
        invariant
            names_unique(g),
            g == resolved_model(table@),
            dm == deps_model(deps@),
            0 <= k <= deps.len(),
            first_unmet(dm, g) == first_unmet(dm.skip(k as int), g),
        decreases deps.len() - k,
    {
        assert(dm.skip(k as int)[0] == deps@[k as int]@);
        assert(dm.skip(k as int).drop_first() =~= dm.skip(k + 1));
        if !is_met(table, &deps[k]) {
            return Some(deps[k].name.clone());
        }
        k = k + 1;
    }
    None
}

/// The first requirement, of the root and then of the table's entries in
/// order, that the table does not meet.
fn next_unmet(roots: &Vec<Dependency>, table: &Vec<ResolvedDependency>) -> (r: Option<String>)
    requires
        names_unique(resolved_model(table@)),
    ensures
        match r {
            Some(n) => next_unmet_spec(deps_model(roots@), resolved_model(table@)) == Some(n@),
            None => next_unmet_spec(deps_model(roots@), resolved_model(table@)) is None,
        },
{
    let ghost g = resolved_model(table@);
    match first_unmet_in(roots, table) {
        Some(n) => {
            assert(first_unmet(deps_model(roots@), g) == Some(n@));
            assert(next_unmet_spec(deps_model(roots@), g) == Some(n@));
            return Some(n);
        },
        None => {},
    }
    let mut i: usize = 0;
    assert(g.skip(0) =~= g);
    while i < table.len()
        invariant
            names_unique(g),
            g == resolved_model(table@),
            0 <= i <= table.len(),
            first_unmet(deps_model(roots@), g) is None,
            first_unmet_entries(g, g) == first_unmet_entries(g.skip(i as int), g),
        decreases table.len() - i,
    {
        assert(g.skip(i as int)[0] == table@[i as int]@);
        assert(g.skip(i as int).drop_first() =~= g.skip(i + 1));
        match first_unmet_in(&table[i].dependencies, table) {
            Some(n) => {
                return Some(n);
            },
            None => {},
        }
        i = i + 1;
    }
    None
}

/// The requirements of `deps` on `name`, each with `who`, the requirer.
pub open spec fn placed_by(deps: Seq<DepModel>, name: Seq<char>, who: Seq<char>) -> Seq<(Seq<char>, ReqModel)>
    decreases deps.len(),
{
    if deps.len() == 0 {
        Seq::empty()
    } else {
        placed_by(deps.drop_last(), name, who) + if deps.last().0 == name {
            seq![(who, deps.last().1)]
        } else {
            Seq::empty()
        }
    }
}

/// The requirements that the entries `es` place on `name`, each with its requirer.
pub open spec fn placed_in(es: Seq<ResolvedModel>, name: Seq<char>) -> Seq<(Seq<char>, ReqModel)>
    decreases es.len(),
{
    if es.len() == 0 {
        Seq::empty()
    } else {
        placed_in(es.drop_last(), name) + placed_by(es.last().deps, name, es.last().name)
    }
}

/// Every requirement on `name`, of the root (as requirer "root") and then of the entries.
pub open spec fn placed_on(roots: Seq<DepModel>, g: Seq<ResolvedModel>, name: Seq<char>) -> Seq<(Seq<char>, ReqModel)> {
    placed_by(roots, name, "root"@) + placed_in(g, name)
}

/// Requirers and requirements side by side.
pub open spec fn pairs(who: Seq<String>, reqs: Seq<VersionRequirement>) -> Seq<(Seq<char>, ReqModel)> {
    Seq::new(who.len(), |j: int| (who[j]@, reqs[j]@))
}

/// Appends the requirements of `deps` on `name`, each with requirer `who`.
fn collect_from(
    deps: &Vec<Dependency>,
    name: &String,
    who: &String,
    requirers: &mut Vec<String>,
    reqs: &mut Vec<VersionRequirement>,
)
    requires
        old(requirers).len() == old(reqs).len(),
    ensures
        final(requirers).len() == final(reqs).len(),
        pairs(final(requirers)@, final(reqs)@) == pairs(old(requirers)@, old(reqs)@) + placed_by(
            deps_model(deps@),
            name@,
            who@,
        ),
{
    let ghost start = pairs(requirers@, reqs@);
    let ghost dm = deps_model(deps@);
    let mut k: usize = 0;
    assert(start + placed_by(dm.take(0), name@, who@) =~= start);
    while k < deps.len()
        invariant
            0 <= k <= deps.len(),
            dm == deps_model(deps@),
            requirers.len() == reqs.len(),
            pairs(requirers@, reqs@) == start + placed_by(dm.take(k as int), name@, who@),
        decreases deps.len() - k,
    {
        assert(dm.take(k + 1).drop_last() =~= dm.take(k as int));
        assert(dm.take(k + 1).last() == deps@[k as int]@);
        let ghost before = pairs(requirers@, reqs@);
        if deps[k].name == *name {
            requirers.push(who.clone());
            reqs.push(deps[k].requirement.copy());
            assert(pairs(requirers@, reqs@) =~= before + seq![(who@, deps@[k as int].requirement@)]);
        } else {
            assert(pairs(requirers@, reqs@) =~= before + Seq::<(Seq<char>, ReqModel)>::empty());
        }
        k = k + 1;
    }
    assert(dm.take(deps.len() as int) =~= dm);
}

/// Every requirement that the root and the table place on `name`, with who places it.
fn collect(roots: &Vec<Dependency>, table: &Vec<ResolvedDependency>, name: &String) -> (r: (
    Vec<String>,
    Vec<VersionRequirement>,
))
    ensures
        r.0.len() == r.1.len(),
        pairs(r.0@, r.1@) == placed_on(deps_model(roots@), resolved_model(table@), name@),
{
    let ghost g = resolved_model(table@);
    let mut requirers: Vec<String> = Vec::new();
    let mut reqs: Vec<VersionRequirement> = Vec::new();
    let root = String::from_str("root");
    assert(pairs(requirers@, reqs@) =~= Seq::empty());
    collect_from(roots, name, &root, &mut requirers, &mut reqs);
    let ghost after_roots = pairs(requirers@, reqs@);
    let mut i: usize = 0;
    assert(placed_in(g.take(0), name@) =~= Seq::empty());
    while i < table.len()
        invariant
            0 <= i <= table.len(),
            g == resolved_model(table@),
            requirers.len() == reqs.len(),
            pairs(requirers@, reqs@) =~= after_roots + placed_in(g.take(i as int), name@),
        decreases table.len() - i,
    {
        assert(g.take(i + 1).drop_last() =~= g.take(i as int));
        assert(g.take(i + 1).last() == table@[i as int]@);
        collect_from(&table[i].dependencies, name, &table[i].name, &mut requirers, &mut reqs);
        i = i + 1;
    }
    assert(g.take(table.len() as int) =~= g);
    (requirers, reqs)
}

/// Candidate `c` may be chosen on `platform` and meets every requirement of `reqs`.
pub open spec fn acceptable(c: Candidate, reqs: Seq<ReqModel>, platform: Seq<char>) -> bool {
    eligible(c, platform) && sat_all(reqs, c.version@)
}

/// Candidate `ci` of repository `ri` is the one selection picks: the first
/// acceptable candidate of the first repository that has one. Repository order
/// decides before version order.
pub open spec fn chosen_at(
    repos: Seq<RepositoryDatabase>,
    name: Seq<char>,
    reqs: Seq<ReqModel>,
    platform: Seq<char>,
    ri: int,
    ci: int,
) -> bool {
    &&& 0 <= ri < repos.len()
    &&& 0 <= ci < offered(repos[ri], name).len()
    &&& acceptable(offered(repos[ri], name)[ci], reqs, platform)
    &&& forall|r2: int, c2: int|
        0 <= r2 < ri && 0 <= c2 < offered(repos[r2], name).len() ==> !acceptable(
            #[trigger] offered(repos[r2], name)[c2],
            reqs,
            platform,
        )
    &&& forall|c2: int| 0 <= c2 < ci ==> !acceptable(#[trigger] offered(repos[ri], name)[c2], reqs, platform)
}

/// Every repository lists the candidates of each package newest first.
pub open spec fn newest_first(repos: Seq<RepositoryDatabase>) -> bool {
    forall|ri: int, name: Seq<char>, a: int, b: int|
        0 <= ri < repos.len() && 0 <= a < b < offered(repos[ri], name).len() ==> version_cmp(
            (#[trigger] offered(repos[ri], name)[a]).version@,
            (#[trigger] offered(repos[ri], name)[b]).version@,
        ) >= 0
}

/// Where repositories list candidates newest first, the candidate selection
/// picks is the highest acceptable version of its repository.
pub proof fn lemma_chosen_is_newest(
    repos: Seq<RepositoryDatabase>,
    name: Seq<char>,
    reqs: Seq<ReqModel>,
    platform: Seq<char>,
    ri: int,
    ci: int,
    b: int,
)
    requires
        newest_first(repos),
        chosen_at(repos, name, reqs, platform, ri, ci),
        0 <= b < offered(repos[ri], name).len(),
        acceptable(offered(repos[ri], name)[b], reqs, platform),
    ensures
        version_cmp(offered(repos[ri], name)[ci].version@, offered(repos[ri], name)[b].version@) >= 0,
{
    if b == ci {
        lemma_cmp_reflexive(offered(repos[ri], name)[ci].version@, 0);
    } else if b < ci {
        assert(!acceptable(offered(repos[ri], name)[b], reqs, platform));
    } else {
        assert(version_cmp(offered(repos[ri], name)[ci].version@, offered(repos[ri], name)[b].version@) >= 0);
    }
}

/// No repository offers an acceptable candidate.
pub open spec fn none_acceptable(
    repos: Seq<RepositoryDatabase>,
    name: Seq<char>,
    reqs: Seq<ReqModel>,
    platform: Seq<char>,
) -> bool {
    forall|ri: int, ci: int|
        0 <= ri < repos.len() && 0 <= ci < offered(repos[ri], name).len() ==> !acceptable(
            #[trigger] offered(repos[ri], name)[ci],
            reqs,
            platform,
        )
}

/// `i` is the position of the first entry named `name`, or the length when there is none.
pub open spec fn is_first_entry(s: Seq<ResolvedDependency>, name: Seq<char>, i: int) -> bool {
    &&& 0 <= i <= s.len()
    &&& forall|j: int| 0 <= j < i ==> (#[trigger] s[j]).name@ != name
    &&& i < s.len() ==> s[i].name@ == name
}

/// `name` is listed among the packages that must not be taken from the lock.
pub open spec fn forced(force: Seq<String>, name: Seq<char>) -> bool {
    exists|k: int| 0 <= k < force.len() && (#[trigger] force[k])@ == name
}

/// The locked entry of `name` may be kept: it is not forced out, and its
/// version meets every requirement.
pub open spec fn lock_reusable(
    locked: Seq<ResolvedDependency>,
    force: Seq<String>,
    name: Seq<char>,
    reqs: Seq<ReqModel>,
) -> bool {
    &&& !forced(force, name)
    &&& exists|li: int| is_first_entry(locked, name, li) && li < locked.len() && sat_all(reqs, locked[li].version@)
}

proof fn lemma_first_entry_unique(s: Seq<ResolvedDependency>, name: Seq<char>, i: int, j: int)
    requires
        is_first_entry(s, name, i),
        is_first_entry(s, name, j),
    ensures
        i == j,
{
    if i < j {
        assert(s[i].name@ == name);
    } else if j < i {
        assert(s[j].name@ == name);
    }
}

proof fn lemma_chosen_unique(
    repos: Seq<RepositoryDatabase>,
    name: Seq<char>,
    reqs: Seq<ReqModel>,
    platform: Seq<char>,
    ri: int,
    ci: int,
    rj: int,
    cj: int,
)
    requires
        chosen_at(repos, name, reqs, platform, ri, ci),
        chosen_at(repos, name, reqs, platform, rj, cj),
    ensures
        ri == rj && ci == cj,
{
    if ri < rj {
        assert(!acceptable(offered(repos[ri], name)[ci], reqs, platform));
    } else if rj < ri {
        assert(!acceptable(offered(repos[rj], name)[cj], reqs, platform));
    } else if ci < cj {
        assert(!acceptable(offered(repos[ri], name)[ci], reqs, platform));
    } else if cj < ci {
        assert(!acceptable(offered(repos[rj], name)[cj], reqs, platform));
    }
}

/// The position of the first entry named `name`.
pub open spec fn first_entry_index(s: Seq<ResolvedDependency>, name: Seq<char>) -> int {
    choose|i: int| is_first_entry(s, name, i)
}

/// The entry that selection gives `name` under `reqs`: the locked one where it
/// may be kept, else the first acceptable candidate of the first repository
/// that has one; `None` when there is neither.
pub open spec fn select_spec(res: Resolver, name: Seq<char>, reqs: Seq<ReqModel>) -> Option<ResolvedModel> {
    if lock_reusable(res.locked@, res.force@, name, reqs) {
        Some(res.locked@[first_entry_index(res.locked@, name)]@)
    } else if exists|ri: int, ci: int| chosen_at(res.repositories@, name, reqs, res.platform@, ri, ci) {
        let (ri, ci) = choose|ri: int, ci: int| chosen_at(res.repositories@, name, reqs, res.platform@, ri, ci);
        Some(from_candidate(name, offered(res.repositories@[ri], name)[ci]))
    } else {
        None
    }
}

/// Whether `name` is listed in `force`.
fn is_forced(force: &Vec<String>, name: &String) -> (r: bool)
    ensures
        r == forced(force@, name@),
{
    let mut k: usize = 0;
    while k < force.len()
        invariant
            0 <= k <= force.len(),
            forall|j: int| 0 <= j < k ==> (#[trigger] force@[j])@ != name@,
        decreases force.len() - k,
    {
        if force[k] == *name {
            return true;
        }
        k = k + 1;
    }
    false
}

/// Errors that end a resolution; no partial resolution is ever returned.
pub enum ResolutionError {
    /// No repository offers any version of the package.
    NotFound { package: String },
    /// No version of the package meets all requirements placed on it;
    /// `requirers[k]` placed `requirements[k]` ("root" for the project itself).
    Conflict { package: String, requirers: Vec<String>, requirements: Vec<VersionRequirement> },
    /// The settled selection depends on itself in a cycle; every selected
    /// package is listed, in order of name.
    Cycle { packages: Vec<String> },
    /// Selection did not settle within its bound.
    Divergence,
}

/// Computes resolutions from ordered repositories, a target platform and an
/// optional earlier resolution to stay close to.
pub struct Resolver {
    /// Repositories in priority order.
    pub repositories: Vec<RepositoryDatabase>,
    pub platform: String,
    /// Entries of an earlier resolution, reused where they still fit.
    pub locked: Vec<ResolvedDependency>,
    /// Packages that are resolved anew even when locked.
    pub force: Vec<String>,
}

/// Entry `e` comes from the lock or from an eligible candidate of a repository.
pub open spec fn provenance(res: Resolver, e: ResolvedModel) -> bool {
    (exists|li: int| 0 <= li < res.locked@.len() && e == (#[trigger] res.locked@[li])@) || (exists|ri: int, ci: int|
        0 <= ri < res.repositories@.len() && 0 <= ci < offered(res.repositories@[ri], e.name).len()
            && eligible(#[trigger] offered(res.repositories@[ri], e.name)[ci], res.platform@) && e
            == from_candidate(e.name, offered(res.repositories@[ri], e.name)[ci]))
}

impl Resolver {
    pub fn new(
        repositories: Vec<RepositoryDatabase>,
        platform: String,
        locked: Vec<ResolvedDependency>,
        force: Vec<String>,
    ) -> (r: Resolver)
        ensures
            r.repositories == repositories,
            r.platform == platform,
            r.locked == locked,
            r.force == force,
    {
        Resolver { repositories, platform, locked, force }
    }

    /// Selects the entry for `name` under requirements `reqs`: the locked entry
    /// where it may be kept, else the first acceptable candidate of the first
    /// repository that has one.
    pub fn select(&self, name: &String, reqs: &Vec<VersionRequirement>) -> (r: Option<ResolvedDependency>)
        ensures
            match r {
                Some(e) => {
                    &&& select_spec(*self, name@, req_models(reqs@)) == Some(e@)
                    &&& e.name@ == name@
                    &&& sat_all(req_models(reqs@), e.version@)
                    &&& provenance(*self, e@)
                    &&& lock_reusable(self.locked@, self.force@, name@, req_models(reqs@)) ==> exists|li: int|
                        is_first_entry(self.locked@, name@, li) && li < self.locked@.len() && e@ == self.locked@[li]@
                    &&& !lock_reusable(self.locked@, self.force@, name@, req_models(reqs@)) ==> exists|ri: int, ci: int|
                        chosen_at(self.repositories@, name@, req_models(reqs@), self.platform@, ri, ci) && e@ == from_candidate(
                            name@,
                            #[trigger] offered(self.repositories@[ri], name@)[ci],
                        )
                },
                None => select_spec(*self, name@, req_models(reqs@)) is None && !lock_reusable(self.locked@, self.force@, name@, req_models(reqs@)) && none_acceptable(
                    self.repositories@,
                    name@,
                    req_models(reqs@),
                    self.platform@,
                ),
            },
    {
        let li = lookup(&self.locked, name);
        proof {
            assert(is_first_entry(self.locked@, name@, li as int));
        }
        if !is_forced(&self.force, name) && li < self.locked.len() && satisfies_all(reqs, &self.locked[li].version) {
            let e = self.locked[li].copy();
            proof {
                let l2 = first_entry_index(self.locked@, name@);
                assert(is_first_entry(self.locked@, name@, l2));
                lemma_first_entry_unique(self.locked@, name@, li as int, l2);
            }
            return Some(e);
        }
        proof {
            if lock_reusable(self.locked@, self.force@, name@, req_models(reqs@)) {
                let l2 = choose|l2: int| is_first_entry(self.locked@, name@, l2) && l2 < self.locked@.len() && sat_all(req_models(reqs@), self.locked@[l2].version@);
                lemma_first_entry_unique(self.locked@, name@, li as int, l2);
            }
            assert(!lock_reusable(self.locked@, self.force@, name@, req_models(reqs@)));
        }
        let repos = &self.repositories;
        let mut ri: usize = 0;
        while ri < repos.len()
            invariant
                repos == &self.repositories,
                !lock_reusable(self.locked@, self.force@, name@, req_models(reqs@)),
                0 <= ri <= repos.len(),
                forall|r2: int, c2: int|
                    0 <= r2 < ri && 0 <= c2 < offered(repos@[r2], name@).len() ==> !acceptable(
                        #[trigger] offered(repos@[r2], name@)[c2],
                        req_models(reqs@),
                        self.platform@,
                    ),
            decreases repos.len() - ri,
        {
            let repo = &repos[ri];
            let k = repo.find(name);
            if k < repo.packages.len() {
                let cands = &repo.packages[k].candidates;
                assert(cands@ == offered(repos@[ri as int], name@));
                let mut ci: usize = 0;
                while ci < cands.len()
                    invariant
                        repos == &self.repositories,
                        !lock_reusable(self.locked@, self.force@, name@, req_models(reqs@)),
                        0 <= ri < repos.len(),
                        cands@ == offered(repos@[ri as int], name@),
                        0 <= ci <= cands.len(),
                        forall|r2: int, c2: int|
                            0 <= r2 < ri && 0 <= c2 < offered(repos@[r2], name@).len() ==> !acceptable(
                                #[trigger] offered(repos@[r2], name@)[c2],
                                req_models(reqs@),
                                self.platform@,
                            ),
                        forall|c2: int| 0 <= c2 < ci ==> !acceptable(#[trigger] cands@[c2], req_models(reqs@), self.platform@),
                    decreases cands.len() - ci,
                {
                    let c = &cands[ci];
                    if (!c.is_binary || c.platform == self.platform) && satisfies_all(reqs, &c.version) {
                        let e = ResolvedDependency::from_candidate(name, c);
                        proof {
                            assert(chosen_at(self.repositories@, name@, req_models(reqs@), self.platform@, ri as int, ci as int));
                            assert(offered(self.repositories@[ri as int], e@.name)[ci as int] == *c);
                            assert(eligible(*c, self.platform@));
                            assert(provenance(*self, e@));
                            assert(e@.version == c.version@);
                            let (r2, c2) = choose|r2: int, c2: int| chosen_at(self.repositories@, name@, req_models(reqs@), self.platform@, r2, c2);
                            lemma_chosen_unique(self.repositories@, name@, req_models(reqs@), self.platform@, ri as int, ci as int, r2, c2);
                        }
                        return Some(e);
                    }
                    ci = ci + 1;
                }
            } else {
                assert(offered(repos@[ri as int], name@).len() == 0);
            }
            ri = ri + 1;
        }
        proof {
            if exists|r2: int, c2: int| chosen_at(self.repositories@, name@, req_models(reqs@), self.platform@, r2, c2) {
                let (r2, c2) = choose|r2: int, c2: int| chosen_at(self.repositories@, name@, req_models(reqs@), self.platform@, r2, c2);
                assert(acceptable(offered(self.repositories@[r2], name@)[c2], req_models(reqs@), self.platform@));
            }
        }
        None
    }

    /// Whether some repository offers at least one version of `name`.
    fn offers_any(&self, name: &String) -> (r: bool)
        ensures
            r == !offered_nowhere(*self, name@),
    {
        let mut ri: usize = 0;
        while ri < self.repositories.len()
            invariant
                0 <= ri <= self.repositories.len(),
                forall|r2: int| 0 <= r2 < ri ==> offered(#[trigger] self.repositories@[r2], name@).len() == 0,
            decreases self.repositories.len() - ri,
        {
            let repo = &self.repositories[ri];
            let k = repo.find(name);
            if k < repo.packages.len() && repo.packages[k].candidates.len() > 0 {
                assert(offered(self.repositories@[ri as int], name@).len() > 0);
                return true;
            }
            ri = ri + 1;
        }
        false
    }

    /// How many selections resolution may make before it gives up: the number
    /// of packages it could meet times the most candidates any package has,
    /// capped at `u64::MAX`.
    fn selection_bound(&self, roots: &Vec<Dependency>) -> (r: u64)
        ensures
            r == bound_spec(*self, roots@.len()),
    {
        let ghost repos = self.repositories@;
        let mut packages: u64 = (roots.len() as u64).saturating_add(self.locked.len() as u64);
        let mut most: u64 = 1;
        let mut ri: usize = 0;
        assert(repos.take(0) =~= Seq::<RepositoryDatabase>::empty());
        while ri < self.repositories.len()
            invariant
                repos == self.repositories@,
                0 <= ri <= repos.len(),
                packages as int == cap(roots@.len() + self.locked@.len() + table_count(repos.take(ri as int))),
                most as int == cap(1 + most_candidates(repos.take(ri as int))),
            decreases repos.len() - ri,
        {
            let table = &self.repositories[ri];
            assert(repos.take(ri + 1).drop_last() =~= repos.take(ri as int));
            assert(repos.take(ri + 1).last() == *table);
            packages = packages.saturating_add(table.packages.len() as u64);
            let m1 = table_most(&table.packages).saturating_add(1);
            if m1 > most {
                most = m1;
            }
            ri = ri + 1;
        }
        assert(repos.take(repos.len() as int) =~= repos);
        let p = packages;
        let r = match p.checked_mul(most) {
            Some(b) => b,
            None => u64::MAX,
        };
        r
    }

    /// Resolves `roots` to one exact version of every package they need.
    ///
    /// Repeatedly takes the first requirement (of the root, then of the
    /// selected entries in order) that the current selection does not meet,
    /// and selects its package anew under every requirement placed on it,
    /// until all are met; the outcome is `run`'s. The entries are then put in
    /// order of name and checked for cycles.
    pub fn resolve(&self, roots: &Vec<Dependency>) -> (r: Result<Resolution, ResolutionError>)
        ensures
            ({
                let out = run(*self, deps_model(roots@), Seq::empty(), bound_spec(*self, roots@.len()) as nat);
                &&& match r {
                    Ok(res) => {
                        &&& out is Done
                        &&& sorted_same(res@.graph, out->Done_0)
                        &&& res@.root == deps_model(roots@)
                        &&& valid_resolution(res@)
                    },
                    Err(ResolutionError::NotFound { package }) => out == RunOutcome::Missing(package@),
                    Err(ResolutionError::Conflict { package, requirers, requirements }) => requirers.len() == requirements.len()
                        && out == RunOutcome::Conflicting(package@, pairs(requirers@, requirements@)),
                    Err(ResolutionError::Cycle { packages }) => out is Done && exists|s: Seq<ResolvedModel>|
                        sorted_same(s, out->Done_0) && !acyclic(dep_graph(s)) && packages@.map_values(|p: String| p@)
                            == s.map_values(|e: ResolvedModel| e.name),
                    Err(ResolutionError::Divergence) => out is Diverged,
                }
                &&& (out is Done && forall|s: Seq<ResolvedModel>| sorted_same(s, out->Done_0) ==> acyclic(dep_graph(s))) ==> r is Ok
            }),
    {
        let ghost rm = deps_model(roots@);
        let bound = self.selection_bound(roots);
        let ghost out = run(*self, rm, Seq::empty(), bound as nat);
        let mut rounds: u64 = 0;
        let mut table: Vec<ResolvedDependency> = Vec::new();
        assert(resolved_model(table@) =~= Seq::<ResolvedModel>::empty());
        loop
            invariant
                rm == deps_model(roots@),
                bound as int == bound_spec(*self, roots@.len()),
                out == run(*self, rm, Seq::empty(), bound as nat),
                rounds <= bound,
                names_unique(resolved_model(table@)),
                out == run(*self, rm, resolved_model(table@), (bound - rounds) as nat),
            ensures
                bound as int == bound_spec(*self, roots@.len()),
                out == run(*self, rm, Seq::empty(), bound as nat),
                names_unique(resolved_model(table@)),
                out == RunOutcome::Done(resolved_model(table@)),
                next_unmet_spec(rm, resolved_model(table@)) is None,
            decreases bound - rounds,
        {
            let ghost g = resolved_model(table@);
            let name = match next_unmet(roots, &table) {
                None => break,
                Some(n) => n,
            };
            let ghost left = (bound - rounds) as nat;
            if rounds >= bound {
                assert(run(*self, rm, g, 0) == RunOutcome::Diverged);
                assert(left == 0);
                assert(out == RunOutcome::Diverged);
                assert(out == run(*self, deps_model(roots@), Seq::empty(), bound_spec(*self, roots@.len()) as nat));
                return Err(ResolutionError::Divergence);
            }
            rounds = rounds + 1;
            let (requirers, reqs) = collect(roots, &table, &name);
            proof {
                let placed = placed_on(rm, g, name@);
                assert(req_models(reqs@) =~= placed.map_values(|p: (Seq<char>, ReqModel)| p.1)) by {
                    assert forall|j: int| 0 <= j < reqs@.len() implies req_models(reqs@)[j] == placed[j].1 by {
                        assert(pairs(requirers@, reqs@)[j] == placed[j]);
                    }
                }
            }
            let ghost placed = placed_on(rm, g, name@);
            let sel = self.select(&name, &reqs);
            proof {
                assert(placed.map_values(|p: (Seq<char>, ReqModel)| p.1) == req_models(reqs@));
                assert(left > 0);
            }
            match sel {
                None => {
                    assert(run(*self, rm, g, left) == if offered_nowhere(*self, name@) {
                        RunOutcome::Missing(name@)
                    } else {
                        RunOutcome::Conflicting(name@, placed)
                    });
                    if !self.offers_any(&name) {
                        return Err(ResolutionError::NotFound { package: name });
                    }
                    assert(pairs(requirers@, reqs@) == placed);
                    assert(out == RunOutcome::Conflicting(name@, placed));
                    return Err(ResolutionError::Conflict { package: name, requirers, requirements: reqs });
                },
                Some(e) => {
                    let i = lookup(&table, &name);
                    let ghost before = table@;
                    proof {
                        assert(is_first_model(g, name@, i as int));
                        lemma_first_model_unique(g, name@, i as int, index_of(g, name@));
                    }
                    if i < table.len() {
                        table.set(i, e);
                    } else {
                        table.push(e);
                    }
                    proof {
                        assert(run(*self, rm, g, left) == run(*self, rm, put(g, e@), (left - 1) as nat));
                        assert(resolved_model(table@) =~= put(g, e@));
                        assert forall|a: int, b: int|
                            0 <= a < table@.len() && 0 <= b < table@.len() && #[trigger] resolved_model(table@)[a].name
                                == #[trigger] resolved_model(table@)[b].name implies a == b by {
                            if a != i as int && b != i as int {
                                assert(resolved_model(before)[a].name == resolved_model(before)[b].name);
                            } else if a == i as int && b != i as int {
                                assert(table@[b].name@ == before[b].name@);
                            } else if b == i as int && a != i as int {
                                assert(table@[a].name@ == before[a].name@);
                            }
                        }
                    }
                },
            }
        }
        let ghost g = resolved_model(table@);
        let ghost pre = table@;
        proof {
            lemma_none_unmet_met(rm, g);
        }
        let table = sort_by_name(&table);
        proof {
            let sm = resolved_model(table@);
            lemma_sorted_unique(table@);
            assert forall|i: int| 0 <= i < sm.len() implies g.contains(#[trigger] sm[i]) by {
                assert(holds_entry(pre, table@[i]@));
                let j = choose|j: int| 0 <= j < pre.len() && (#[trigger] pre[j])@ == table@[i]@;
                assert(g[j] == sm[i]);
            }
            assert forall|j: int| 0 <= j < g.len() implies sm.contains(#[trigger] g[j]) by {
                assert(holds_entry(table@, pre[j]@));
                let i = choose|i: int| 0 <= i < table@.len() && (#[trigger] table@[i])@ == pre[j]@;
                assert(g[j] == sm[i]);
            }
            assert(sorted_same(sm, g));
            assert forall|k: int| 0 <= k < roots.len() implies requirement_met(sm, #[trigger] roots@[k]@) by {
                assert(rm[k] == roots@[k]@);
                lemma_met_transfer(pre, table@, roots@[k]@);
            }
            assert forall|i: int, k: int|
                0 <= i < sm.len() && 0 <= k < sm[i].deps.len() implies requirement_met(sm, #[trigger] sm[i].deps[k]) by {
                assert(holds_entry(pre, table@[i]@));
                let j = choose|j: int| 0 <= j < pre.len() && (#[trigger] pre[j])@ == table@[i]@;
                assert(g[j] == sm[i]);
                assert(requirement_met(g, g[j].deps[k]));
                lemma_met_transfer(pre, table@, sm[i].deps[k]);
            }
        }
        let nodes = dependency_nodes(&table);
        let order = topo_order(&nodes);
        match order {
            None => {
                let mut packages: Vec<String> = Vec::new();
                let mut k: usize = 0;
                while k < table.len()
                    invariant
                        0 <= k <= table.len(),
                        packages.len() == k,
                        forall|j: int| 0 <= j < k ==> (#[trigger] packages@[j])@ == table@[j].name@,
                    decreases table.len() - k,
                {
                    packages.push(table[k].name.clone());
                    k = k + 1;
                }
                assert(packages@.map_values(|p: String| p@) =~= resolved_model(table@).map_values(|e: ResolvedModel| e.name));
                proof {
                    let sm = resolved_model(table@);
                    assert(sorted_same(sm, g));
                    assert(!acyclic(dep_graph(sm)));
                    assert(out->Done_0 == g);
                }
                Err(ResolutionError::Cycle { packages })
            },
            Some(o) => {
                let res = Resolution { root: copy_deps(roots), graph: table };
                proof {
                    assert(res@.graph == resolved_model(table@));
                    assert(is_topo(dep_graph(res@.graph), o@));
                    assert(acyclic(dep_graph(res@.graph)));
                    assert(sorted_same(res@.graph, g));
                    assert(out->Done_0 == g);
                    assert forall|k: int| 0 <= k < res@.root.len() implies requirement_met(res@.graph, #[trigger] res@.root[k]) by {
                        assert(res@.root[k] == roots@[k]@);
                    }
                }
                Ok(res)
            },
        }
    }
}

/// The dependency graph of `entries`, one node per entry in the same order.
pub fn dependency_nodes(entries: &Vec<ResolvedDependency>) -> (r: Vec<GraphNode>)
    ensures
        graph_model(r@) == dep_graph(resolved_model(entries@)),
{
    let ghost g = dep_graph(resolved_model(entries@));
    let mut r: Vec<GraphNode> = Vec::new();
    let mut i: usize = 0;
    while i < entries.len()
        invariant
            0 <= i <= entries.len(),
            g == dep_graph(resolved_model(entries@)),
            r.len() == i,
            forall|j: int| 0 <= j < i ==> (#[trigger] r@[j])@ == g[j],
        decreases entries.len() - i,
    {
        let deps = &entries[i].dependencies;
        let mut names: Vec<String> = Vec::new();
        let mut k: usize = 0;
        while k < deps.len()
            invariant
                0 <= k <= deps.len(),
                names.len() == k,
                forall|j: int| 0 <= j < k ==> (#[trigger] names@[j])@ == deps@[j].name@,
            decreases deps.len() - k,
        {
            names.push(deps[k].name.clone());
            k = k + 1;
        }
        let node = GraphNode { name: entries[i].name.clone(), deps: names };
        proof {
            assert(node@.1 =~= g[i as int].1);
        }
        r.push(node);
        i = i + 1;
    }
    assert(graph_model(r@) =~= g);
    r
}

/// `s` holds the entries of `g`, each once, in increasing order of name.
pub open spec fn sorted_same(s: Seq<ResolvedModel>, g: Seq<ResolvedModel>) -> bool {
    &&& sorted_by_name(s)
    &&& s.len() == g.len()
    &&& forall|i: int| 0 <= i < s.len() ==> g.contains(#[trigger] s[i])
    &&& forall|j: int| 0 <= j < g.len() ==> s.contains(#[trigger] g[j])
}

/// `x` capped at `u64::MAX`.
pub open spec fn cap(x: int) -> int {
    if x > u64::MAX {
        u64::MAX as int
    } else {
        x
    }
}

/// How many package tables the repositories hold together.
pub open spec fn table_count(repos: Seq<RepositoryDatabase>) -> int
    decreases repos.len(),
{
    if repos.len() == 0 {
        0
    } else {
        table_count(repos.drop_last()) + repos.last().packages@.len()
    }
}

/// The most candidates any one package table holds.
pub open spec fn most_in(ps: Seq<PackageCandidates>) -> int
    decreases ps.len(),
{
    if ps.len() == 0 {
        0
    } else {
        let m = most_in(ps.drop_last());
        let n = ps.last().candidates@.len() as int;
        if n > m {
            n
        } else {
            m
        }
    }
}

/// The most candidates any package of any repository has.
pub open spec fn most_candidates(repos: Seq<RepositoryDatabase>) -> int
    decreases repos.len(),
{
    if repos.len() == 0 {
        0
    } else {
        let m = most_candidates(repos.drop_last());
        let n = most_in(repos.last().packages@);
        if n > m {
            n
        } else {
            m
        }
    }
}

/// The most selections one resolution may make: the packages it could meet
/// (roots, locked entries and repository tables) times one more than the most
/// candidates of any package, capped at `u64::MAX`.
pub open spec fn bound_spec(res: Resolver, n_roots: nat) -> int {
    cap(cap(n_roots + res.locked@.len() + table_count(res.repositories@)) * cap(1 + most_candidates(res.repositories@)))
}

/// The most candidates of any table of `ps`.
fn table_most(ps: &Vec<PackageCandidates>) -> (r: u64)
    ensures
        r as int == most_in(ps@),
{
    let mut m: u64 = 0;
    let mut k: usize = 0;
    assert(ps@.take(0) =~= Seq::<PackageCandidates>::empty());
    while k < ps.len()
        invariant
            0 <= k <= ps.len(),
            m as int == most_in(ps@.take(k as int)),
        decreases ps.len() - k,
    {
        assert(ps@.take(k + 1).drop_last() =~= ps@.take(k as int));
        assert(ps@.take(k + 1).last() == ps@[k as int]);
        let n = ps[k].candidates.len() as u64;
        if n > m {
            m = n;
        }
        k = k + 1;
    }
    assert(ps@.take(ps.len() as int) =~= ps@);
    m
}

/// `i` is the position of the first entry named `name`, or the length when there is none.
pub open spec fn is_first_model(g: Seq<ResolvedModel>, name: Seq<char>, i: int) -> bool {
    &&& 0 <= i <= g.len()
    &&& forall|j: int| 0 <= j < i ==> (#[trigger] g[j]).name != name
    &&& i < g.len() ==> g[i].name == name
}

proof fn lemma_first_model_unique(g: Seq<ResolvedModel>, name: Seq<char>, i: int, j: int)
    requires
        is_first_model(g, name, i),
    ensures
        is_first_model(g, name, index_of(g, name)),
        index_of(g, name) == i,
{
    let k = index_of(g, name);
    if k < i {
        assert(g[k].name == name);
    } else if i < k {
        assert(g[i].name == name);
    }
}

pub open spec fn index_of(g: Seq<ResolvedModel>, name: Seq<char>) -> int {
    choose|i: int| is_first_model(g, name, i)
}

/// The entries with `e` in place of the entry of its name, or added at the end.
pub open spec fn put(g: Seq<ResolvedModel>, e: ResolvedModel) -> Seq<ResolvedModel> {
    let i = index_of(g, e.name);
    if 0 <= i < g.len() {
        g.update(i, e)
    } else {
        g.push(e)
    }
}

/// No repository offers any version of `name`.
pub open spec fn offered_nowhere(res: Resolver, name: Seq<char>) -> bool {
    forall|ri: int| 0 <= ri < res.repositories@.len() ==> offered(#[trigger] res.repositories@[ri], name).len() == 0
}

/// How the selection loop ends.
pub enum RunOutcome {
    /// Every requirement is met by these entries.
    Done(Seq<ResolvedModel>),
    /// No repository offers the package.
    Missing(Seq<char>),
    /// Nothing meets these requirements, with their requirers, on the package.
    Conflicting(Seq<char>, Seq<(Seq<char>, ReqModel)>),
    /// The allowed number of selections ran out.
    Diverged,
}

/// The selection loop from entries `g` with `left` selections allowed: while
/// some requirement is unmet, select the package of the first one anew under
/// every requirement placed on it.
pub open spec fn run(res: Resolver, roots: Seq<DepModel>, g: Seq<ResolvedModel>, left: nat) -> RunOutcome
    decreases left,
{
    match next_unmet_spec(roots, g) {
        None => RunOutcome::Done(g),
        Some(n) => if left == 0 {
            RunOutcome::Diverged
        } else {
            let placed = placed_on(roots, g, n);
            match select_spec(res, n, placed.map_values(|p: (Seq<char>, ReqModel)| p.1)) {
                None => if offered_nowhere(res, n) {
                    RunOutcome::Missing(n)
                } else {
                    RunOutcome::Conflicting(n, placed)
                },
                Some(e) => run(res, roots, put(g, e), (left - 1) as nat),
            }
        },
    }
}

proof fn lemma_first_unmet_none(deps: Seq<DepModel>, g: Seq<ResolvedModel>)
    requires
        first_unmet(deps, g) is None,
    ensures
        forall|k: int| 0 <= k < deps.len() ==> requirement_met(g, #[trigger] deps[k]),
    decreases deps.len(),
{
    if deps.len() > 0 {
        lemma_first_unmet_none(deps.drop_first(), g);
        assert forall|k: int| 0 <= k < deps.len() implies requirement_met(g, #[trigger] deps[k]) by {
            if k > 0 {
                assert(deps[k] == deps.drop_first()[k - 1]);
            }
        }
    }
}

proof fn lemma_entries_none(es: Seq<ResolvedModel>, g: Seq<ResolvedModel>)
    requires
        first_unmet_entries(es, g) is None,
    ensures
        forall|i: int, k: int| 0 <= i < es.len() && 0 <= k < es[i].deps.len() ==> requirement_met(g, #[trigger] es[i].deps[k]),
    decreases es.len(),
{
    if es.len() > 0 {
        lemma_first_unmet_none(es[0].deps, g);
        lemma_entries_none(es.drop_first(), g);
        assert forall|i: int, k: int| 0 <= i < es.len() && 0 <= k < es[i].deps.len() implies requirement_met(g, #[trigger] es[i].deps[k]) by {
            if i > 0 {
                assert(es[i] == es.drop_first()[i - 1]);
            }
        }
    }
}

proof fn lemma_none_unmet_met(roots: Seq<DepModel>, g: Seq<ResolvedModel>)
    requires
        next_unmet_spec(roots, g) is None,
    ensures
        forall|k: int| 0 <= k < roots.len() ==> requirement_met(g, #[trigger] roots[k]),
        forall|i: int, k: int| 0 <= i < g.len() && 0 <= k < g[i].deps.len() ==> requirement_met(g, #[trigger] g[i].deps[k]),
{
    lemma_first_unmet_none(roots, g);
    lemma_entries_none(g, g);
}

proof fn lemma_sorted_same_at(s1: Seq<ResolvedModel>, s2: Seq<ResolvedModel>, g: Seq<ResolvedModel>, i: int)
    requires
        sorted_same(s1, g),
        sorted_same(s2, g),
        0 <= i <= s1.len(),
    ensures
        forall|j: int| 0 <= j < i ==> s1[j] == s2[j],
    decreases i,
{
    if i > 0 {
        let x = i - 1;
        lemma_sorted_same_at(s1, s2, g, x);
        if s1[x] != s2[x] {
            assert(g.contains(s1[x]));
            let a = choose|a: int| 0 <= a < g.len() && g[a] == s1[x];
            assert(s2.contains(g[a]));
            let j = choose|j: int| 0 <= j < s2.len() && s2[j] == s1[x];
            assert(g.contains(s2[x]));
            let b = choose|b: int| 0 <= b < g.len() && g[b] == s2[x];
            assert(s1.contains(g[b]));
            let k = choose|k: int| 0 <= k < s1.len() && s1[k] == s2[x];
            lemma_name_lt_irreflexive(s1[x].name);
            lemma_name_lt_irreflexive(s2[x].name);
            if j < x {
                assert(s1[j] == s2[j]);
                assert(name_lt(s1[j].name, s1[x].name));
            } else if k < x {
                assert(s1[k] == s2[k]);
                assert(name_lt(s2[k].name, s2[x].name));
            } else {
                assert(j != x && k != x);
                assert(name_lt(s2[x].name, s2[j].name));
                assert(name_lt(s1[x].name, s1[k].name));
                lemma_name_lt_transitive(s1[x].name, s2[x].name, s1[x].name);
            }
        }
    }
}

/// Resolving is deterministic: two resolutions with the same root
/// requirements that each hold, in order of name, the entries of the same
/// selection outcome are identical. Together with `resolve`'s contract, which
/// fixes that outcome from the inputs, calling `resolve` twice on the same
/// inputs gives the same result.
pub proof fn lemma_resolution_determined(a: ResolutionModel, b: ResolutionModel, g: Seq<ResolvedModel>)
    requires
        sorted_same(a.graph, g),
        sorted_same(b.graph, g),
        a.root == b.root,
    ensures
        a == b,
{
    lemma_sorted_same_at(a.graph, b.graph, g, a.graph.len() as int);
    assert(a.graph =~= b.graph);
}

/// Entries in strictly increasing order of name.
pub open spec fn sorted_by_name(g: Seq<ResolvedModel>) -> bool {
    forall|i: int, j: int| 0 <= i < j < g.len() ==> name_lt(#[trigger] g[i].name, #[trigger] g[j].name)
}

proof fn lemma_met_transfer(t: Seq<ResolvedDependency>, s: Seq<ResolvedDependency>, d: DepModel)
    requires
        requirement_met(resolved_model(t), d),
        forall|j: int| 0 <= j < t.len() ==> holds_entry(s, #[trigger] t[j]@),
    ensures
        requirement_met(resolved_model(s), d),
{
    let g = resolved_model(t);
    let x = choose|x: int| 0 <= x < g.len() && g[x].name == d.0 && req_sat(d.1, #[trigger] g[x].version);
    assert(holds_entry(s, t[x]@));
    let y = choose|y: int| 0 <= y < s.len() && (#[trigger] s[y])@ == t[x]@;
    assert(resolved_model(s)[y] == s[y]@);
}

/// Sorted entries have unique names.
pub(crate) proof fn lemma_sorted_unique(s: Seq<ResolvedDependency>)
    requires
        sorted_by_name(resolved_model(s)),
    ensures
        names_unique(resolved_model(s)),
{
    let g = resolved_model(s);
    assert forall|a: int, b: int| 0 <= a < g.len() && 0 <= b < g.len() && #[trigger] g[a].name == #[trigger] g[b].name implies a == b by {
        lemma_name_lt_irreflexive(g[a].name);
        if a < b {
            assert(name_lt(g[a].name, g[b].name));
        } else if b < a {
            assert(name_lt(g[b].name, g[a].name));
        }
    }
}

/// Some entry of `t` is `e`.
pub open spec fn holds_entry(t: Seq<ResolvedDependency>, e: ResolvedModel) -> bool {
    exists|j: int| 0 <= j < t.len() && (#[trigger] t[j])@ == e
}

/// The entries of `t`, each once, in increasing order of name.
#[verifier::rlimit(60)]
pub fn sort_by_name(t: &Vec<ResolvedDependency>) -> (r: Vec<ResolvedDependency>)
    requires
        names_unique(resolved_model(t@)),
    ensures
        r.len() == t.len(),
        sorted_by_name(resolved_model(r@)),
        forall|i: int| 0 <= i < r.len() ==> holds_entry(t@, #[trigger] r@[i]@),
        forall|j: int| 0 <= j < t.len() ==> holds_entry(r@, #[trigger] t@[j]@),
{
    let n = t.len();
    let mut picked: Vec<bool> = Vec::new();
    let mut z: usize = 0;
    while z < n
        invariant
            z <= n,
            picked.len() == z,
            forall|i: int| 0 <= i < z ==> !picked[i],
        decreases n - z,
    {
        picked.push(false);
        z = z + 1;
    }
    let mut out: Vec<ResolvedDependency> = Vec::new();
    let ghost mut idx: Seq<usize> = Seq::empty();
    while out.len() < n
        invariant
            n == t.len(),
            names_unique(resolved_model(t@)),
            picked.len() == n,
            out.len() == idx.len(),
            idx.len() <= n,
            idx.no_duplicates(),
            forall|k: int| 0 <= k < idx.len() ==> (#[trigger] idx[k]) < n && out@[k]@ == t@[idx[k] as int]@,
            forall|j: int| 0 <= j < n ==> (#[trigger] picked[j] <==> idx.contains(j as usize)),
            forall|k1: int, k2: int| 0 <= k1 < k2 < out.len() ==> name_lt(#[trigger] out@[k1].name@, #[trigger] out@[k2].name@),
            forall|k: int, j: int| 0 <= k < out.len() && 0 <= j < n && !picked[j] ==> name_lt(#[trigger] out@[k].name@, #[trigger] t@[j].name@),
        decreases n - out.len(),
    {
        proof {
            if forall|j: usize| j < n ==> idx.contains(j) {
                lemma_all_indices(idx, n);
            }
        }
        let ghost some = choose|j: usize| j < n && !idx.contains(j);
        assert(!picked[some as int]);
        let mut b: usize = 0;
        while b < n && picked[b]
            invariant
                n == t.len(),
                picked.len() == n,
                0 <= b <= n,
                some < n && !picked[some as int],
                forall|j: int| 0 <= j < b ==> picked[j],
            decreases n - b,
        {
            b = b + 1;
        }
        let mut x: usize = b + 1;
        while x < n
            invariant
                n == t.len(),
                names_unique(resolved_model(t@)),
                picked.len() == n,
                b < n && !picked[b as int],
                b < x <= n,
                forall|y: int| 0 <= y < x && y != b && !picked[y] ==> name_lt(t@[b as int].name@, #[trigger] t@[y].name@),
            decreases n - x,
        {
            if !picked[x] {
                let ghost ob = b;
                if name_less(&t[x].name, &t[b].name) {
                    proof {
                        assert forall|y: int| 0 <= y < x + 1 && y != x && !picked[y] implies name_lt(t@[x as int].name@, #[trigger] t@[y].name@) by {
                            if y != ob {
                                lemma_name_lt_transitive(t@[x as int].name@, t@[ob as int].name@, t@[y].name@);
                            }
                        }
                    }
                    b = x;
                } else {
                    proof {
                        assert(resolved_model(t@)[x as int].name == t@[x as int].name@);
                        assert(resolved_model(t@)[b as int].name == t@[b as int].name@);
                        lemma_name_lt_total(t@[x as int].name@, t@[b as int].name@);
                    }
                }
            }
            x = x + 1;
        }
        let ghost old_idx = idx;
        let ghost old_out = out@;
        let ghost old_picked = picked@;
        proof {
            assert(!idx.contains(b));
        }
        out.push(t[b].copy());
        picked.set(b, true);
        proof {
            idx = idx.push(b);
            assert forall|k: int| 0 <= k < idx.len() implies (#[trigger] idx[k]) < n && out@[k]@ == t@[idx[k] as int]@ by {
                if k < old_idx.len() {
                    assert(out@[k] == old_out[k]);
                }
            }
            assert forall|j: int| 0 <= j < n implies (#[trigger] picked[j] <==> idx.contains(j as usize)) by {
                if j == b as int {
                    assert(idx[idx.len() - 1] == b);
                } else {
                    assert(picked[j] == old_picked[j]);
                    if idx.contains(j as usize) {
                        let q = choose|q: int| 0 <= q < idx.len() && idx[q] == j as usize;
                        assert(old_idx[q] == j as usize);
                    }
                    if old_idx.contains(j as usize) {
                        let q = choose|q: int| 0 <= q < old_idx.len() && old_idx[q] == j as usize;
                        assert(idx[q] == j as usize);
                    }
                }
            }
            assert forall|k1: int, k2: int| 0 <= k1 < k2 < out.len() implies name_lt(#[trigger] out@[k1].name@, #[trigger] out@[k2].name@) by {
                if k2 == out.len() - 1 {
                    assert(out@[k1] == old_out[k1]);
                    assert(!old_picked[b as int]);
                } else {
                    assert(out@[k1] == old_out[k1] && out@[k2] == old_out[k2]);
                }
            }
            assert forall|k: int, j: int| 0 <= k < out.len() && 0 <= j < n && !picked[j] implies name_lt(#[trigger] out@[k].name@, #[trigger] t@[j].name@) by {
                assert(j != b as int);
                assert(!old_picked[j]);
                if k < out.len() - 1 {
                    assert(out@[k] == old_out[k]);
                } else {
                    assert(out@[k]@ == t@[b as int]@);
                }
            }
        }
    }
    proof {
        assert forall|i: int| 0 <= i < out.len() implies holds_entry(t@, #[trigger] out@[i]@) by {
            assert(out@[i]@ == t@[idx[i] as int]@);
        }
        assert forall|j: int| 0 <= j < t.len() implies holds_entry(out@, #[trigger] t@[j]@) by {
            if !idx.contains(j as usize) {
                lemma_missing_index(idx, n, j as usize);
            }
            let q = choose|q: int| 0 <= q < idx.len() && idx[q] == j as usize;
            assert(out@[q]@ == t@[j]@);
        }
        assert forall|i: int, j: int| 0 <= i < j < out.len() implies name_lt(#[trigger] resolved_model(out@)[i].name, #[trigger] resolved_model(out@)[j].name) by {
            assert(name_lt(out@[i].name@, out@[j].name@));
        }
    }
    out
}

} // verus!
