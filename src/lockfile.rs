//! Lock snapshots: a resolution together with the repositories and platform it
//! was made for, and their validation on load.
use vstd::prelude::*;
use crate::graph::{acyclic, topo_order};
use crate::package::{resolved_model, ResolvedDependency, ResolvedModel, Source};
use crate::names::{name_less, name_lt};
use crate::resolver::{dep_graph, dependency_nodes, lemma_sorted_unique, names_unique, sorted_by_name, requirement_met, valid_resolution, Resolution, ResolutionModel};

verus! {

/// A repository as a lock snapshot records it.
pub struct RepositoryRef {
    pub name: String,
    pub url: String,
}

pub struct Platform {
    pub os: String,
    pub arch: String,
    pub toolchain_version: String,
}

/// A resolution's entries with the repositories, in priority order, and the
/// platform they were resolved for.
pub struct Lockfile {
    pub repositories: Vec<RepositoryRef>,
    pub platform: Platform,
    pub packages: Vec<ResolvedDependency>,
}

/// The part of a lock snapshot that failed validation.
pub enum LockField {
    Version,
    ContentHash,
    Source,
    Name,
    Dependencies,
    Cycle,
}

/// A lock snapshot failed validation: at entry `index`, in `field` (for
/// `Cycle`, the index is that of no entry in particular and is 0).
pub struct LockfileCorruptError {
    pub index: usize,
    pub field: LockField,
}

pub open spec fn is_hex(c: char) -> bool {
    ('0' <= c && c <= '9') || ('a' <= c && c <= 'f') || ('A' <= c && c <= 'F')
}

/// A content hash: one or more hexadecimal digits.
pub open spec fn hash_ok(h: Seq<char>) -> bool {
    h.len() > 0 && forall|i: int| 0 <= i < h.len() ==> is_hex(#[trigger] h[i])
}

/// A repository source names a repository of the list.
pub open spec fn source_ok(repos: Seq<RepositoryRef>, s: Source) -> bool {
    match s {
        Source::Repository { repo_id } => exists|j: int| 0 <= j < repos.len() && (#[trigger] repos[j]).name@ == repo_id@,
        _ => true,
    }
}

/// An entry has a version with at least one component, a well-formed content
/// hash and a known repository.
pub open spec fn entry_ok(repos: Seq<RepositoryRef>, e: ResolvedModel) -> bool {
    e.version.len() > 0 && hash_ok(e.content_hash) && source_ok(repos, e.source)
}

/// `e` names the first check that `g` fails: entry by entry its version,
/// content hash and source, then the order of names, then each entry's
/// dependencies, then acyclicity.
pub open spec fn load_error(repos: Seq<RepositoryRef>, g: Seq<ResolvedModel>, e: LockfileCorruptError) -> bool {
    let i = e.index as int;
    let earlier_ok = forall|j: int| 0 <= j < i ==> entry_ok(repos, #[trigger] g[j]);
    let all_ok = forall|j: int| 0 <= j < g.len() ==> entry_ok(repos, #[trigger] g[j]);
    match e.field {
        LockField::Version => earlier_ok && g[i].version.len() == 0,
        LockField::ContentHash => earlier_ok && g[i].version.len() > 0 && !hash_ok(g[i].content_hash),
        LockField::Source => earlier_ok && g[i].version.len() > 0 && hash_ok(g[i].content_hash) && !source_ok(
            repos,
            g[i].source,
        ),
        LockField::Name => all_ok && exists|a: int| 0 <= a < i && !name_lt(#[trigger] g[a].name, g[i].name),
        LockField::Dependencies => all_ok && sorted_by_name(g) && exists|k: int|
            0 <= k < g[i].deps.len() && !requirement_met(g, #[trigger] g[i].deps[k]),
        LockField::Cycle => all_ok && sorted_by_name(g) && !acyclic(dep_graph(g)),
    }
}

/// What `load` accepts: well-formed entries in strictly increasing order of name, forming an acyclic
/// graph in which every dependency is met.
pub open spec fn lock_valid(repos: Seq<RepositoryRef>, g: Seq<ResolvedModel>) -> bool {
    &&& forall|i: int| 0 <= i < g.len() ==> entry_ok(repos, #[trigger] g[i])
    &&& sorted_by_name(g)
    &&& forall|i: int, k: int| 0 <= i < g.len() && 0 <= k < g[i].deps.len() ==> requirement_met(g, #[trigger] g[i].deps[k])
    &&& acyclic(dep_graph(g))
}

fn copy_entries(v: &Vec<ResolvedDependency>) -> (r: Vec<ResolvedDependency>)
    ensures
        resolved_model(r@) == resolved_model(v@),
{
    let mut r: Vec<ResolvedDependency> = Vec::new();
    let mut i: usize = 0;
    while i < v.len()
        invariant
            0 <= i <= v.len(),
            r.len() == i,
            forall|k: int| 0 <= k < i ==> (#[trigger] r@[k])@ == v@[k]@,
        decreases v.len() - i,
    {
        r.push(v[i].copy());
        i = i + 1;
    }
    assert(resolved_model(r@) =~= resolved_model(v@));
    r
}

impl Lockfile {
    /// The lock snapshot of `resolution`: its entries, which a resolution keeps
    /// in order of name, with the repositories and platform they were resolved for. The root requirements
    /// are not kept: they come from the project's configuration.
    pub fn save(resolution: &Resolution, repositories: Vec<RepositoryRef>, platform: Platform) -> (r: Lockfile)
        ensures
            resolved_model(r.packages@) == resolution@.graph,
            r.repositories == repositories,
            r.platform == platform,
    {
        Lockfile { repositories, platform, packages: copy_entries(&resolution.graph) }
    }

    /// Checks the snapshot and gives back the resolution it records, with no
    /// root requirements; an error names the first check that failed.
    pub fn load(&self) -> (r: Result<Resolution, LockfileCorruptError>)
        ensures
            r is Ok <==> lock_valid(self.repositories@, resolved_model(self.packages@)),
            match r {
                Ok(res) => res@.graph == resolved_model(self.packages@) && res@.root.len() == 0 && valid_resolution(res@),
                Err(e) => e.index < self.packages@.len() && load_error(self.repositories@, resolved_model(self.packages@), e),
            },
    {
        let ghost g = resolved_model(self.packages@);
        let pk = &self.packages;
        let mut i: usize = 0;
        while i < pk.len()
            invariant
                g == resolved_model(pk@),
                pk == &self.packages,
                0 <= i <= pk.len(),
                forall|j: int| 0 <= j < i ==> entry_ok(self.repositories@, #[trigger] g[j]),
            decreases pk.len() - i,
        {
            let e = &pk[i];
            assert(g[i as int] == e@);
            if e.version.parts.len() == 0 {
                assert(!entry_ok(self.repositories@, g[i as int]));
                return Err(LockfileCorruptError { index: i, field: LockField::Version });
            }
            if !hash_is_valid(&e.content_hash) {
                assert(!entry_ok(self.repositories@, g[i as int]));
                return Err(LockfileCorruptError { index: i, field: LockField::ContentHash });
            }
            if !self.source_is_known(&e.source) {
                assert(!entry_ok(self.repositories@, g[i as int]));
                return Err(LockfileCorruptError { index: i, field: LockField::Source });
            }
            assert(g[i as int] == e@);
            i = i + 1;
        }
        let mut i: usize = 0;
        while i < pk.len()
            invariant
                g == resolved_model(pk@),
                pk == &self.packages,
                0 <= i <= pk.len(),
                forall|j: int| 0 <= j < pk.len() ==> entry_ok(self.repositories@, #[trigger] g[j]),
                forall|a: int, b: int| 0 <= a < i && a < b < pk.len() ==> name_lt(#[trigger] g[a].name, #[trigger] g[b].name),
            decreases pk.len() - i,
        {
            let mut j: usize = i + 1;
            while j < pk.len()
                invariant
                    g == resolved_model(pk@),
                    pk == &self.packages,
                    0 <= i < pk.len(),
                    i < j <= pk.len(),
                    forall|jj: int| 0 <= jj < pk.len() ==> entry_ok(self.repositories@, #[trigger] g[jj]),
                    forall|a: int, b: int| 0 <= a < i && a < b < pk.len() ==> name_lt(#[trigger] g[a].name, #[trigger] g[b].name),
                    forall|b: int| i < b < j ==> name_lt(g[i as int].name, #[trigger] g[b].name),
                decreases pk.len() - j,
            {
                if !name_less(&pk[i].name, &pk[j].name) {
                    assert(!name_lt(g[i as int].name, g[j as int].name));
                    assert(!sorted_by_name(g));
                    assert(load_error(self.repositories@, g, LockfileCorruptError { index: j, field: LockField::Name }));
                    return Err(LockfileCorruptError { index: j, field: LockField::Name });
                }
                j = j + 1;
            }
            i = i + 1;
        }
        proof {
            lemma_sorted_unique(pk@);
        }
        let mut i: usize = 0;
        while i < pk.len()
            invariant
                g == resolved_model(pk@),
                pk == &self.packages,
                names_unique(g),
                sorted_by_name(g),
                forall|j: int| 0 <= j < pk.len() ==> entry_ok(self.repositories@, #[trigger] g[j]),
                0 <= i <= pk.len(),
                forall|a: int, k: int| 0 <= a < i && 0 <= k < g[a].deps.len() ==> requirement_met(g, #[trigger] g[a].deps[k]),
            decreases pk.len() - i,
        {
            let deps = &pk[i].dependencies;
            let mut k: usize = 0;
            while k < deps.len()
                invariant
                    g == resolved_model(pk@),
                    pk == &self.packages,
                    names_unique(g),
                    sorted_by_name(g),
                    forall|j: int| 0 <= j < pk.len() ==> entry_ok(self.repositories@, #[trigger] g[j]),
                    0 <= i < pk.len(),
                    deps == &pk@[i as int].dependencies,
                    0 <= k <= deps.len(),
                    forall|a: int, kk: int| 0 <= a < i && 0 <= kk < g[a].deps.len() ==> requirement_met(g, #[trigger] g[a].deps[kk]),
                    forall|kk: int| 0 <= kk < k ==> requirement_met(g, #[trigger] g[i as int].deps[kk]),
                decreases deps.len() - k,
            {
                assert(g[i as int].deps[k as int] == deps@[k as int]@);
                if !crate::resolver::is_met(pk, &deps[k]) {
                    assert(!requirement_met(g, g[i as int].deps[k as int]));
                    return Err(LockfileCorruptError { index: i, field: LockField::Dependencies });
                }
                k = k + 1;
            }
            i = i + 1;
        }
        let nodes = dependency_nodes(pk);
        if topo_order(&nodes).is_none() {
            if pk.len() == 0 {
                assert(acyclic(dep_graph(g))) by {
                    assert(crate::graph::is_topo(dep_graph(g), Seq::empty()));
                }
            }
            return Err(LockfileCorruptError { index: 0, field: LockField::Cycle });
        }
        let res = Resolution { root: Vec::new(), graph: copy_entries(pk) };
        assert(res@.root =~= Seq::empty());
        Ok(res)
    }

    /// Whether a repository source names a repository of the snapshot.
    fn source_is_known(&self, s: &Source) -> (r: bool)
        ensures
            r == source_ok(self.repositories@, *s),
    {
        match s {
            Source::Repository { repo_id } => {
                let mut j: usize = 0;
                while j < self.repositories.len()
                    invariant
                        *s == (Source::Repository { repo_id: *repo_id }),
                        0 <= j <= self.repositories.len(),
                        forall|x: int| 0 <= x < j ==> (#[trigger] self.repositories@[x]).name@ != repo_id@,
                    decreases self.repositories.len() - j,
                {
                    if self.repositories[j].name == *repo_id {
                        assert(self.repositories@[j as int].name@ == repo_id@);
                        return true;
                    }
                    j = j + 1;
                }
                false
            },
            _ => true,
        }
    }
}

/// Whether `h` is one or more hexadecimal digits.
pub fn hash_is_valid(h: &String) -> (r: bool)
    ensures
        r == hash_ok(h@),
{
    let s = h.as_str();
    let n = s.unicode_len();
    if n == 0 {
        return false;
    }
    let mut i: usize = 0;
    while i < n
        invariant
            n == s@.len(),
            s@ == h@,
            0 <= i <= n,
            forall|j: int| 0 <= j < i ==> is_hex(#[trigger] s@[j]),
        decreases n - i,
    {
        let c = s.get_char(i);
        if !(('0' <= c && c <= '9') || ('a' <= c && c <= 'f') || ('A' <= c && c <= 'F')) {
            return false;
        }
        i = i + 1;
    }
    true
}

/// Saving a valid resolution whose entries are well formed and whose sources
/// name listed repositories, then loading it, succeeds and gives back its entries.
pub proof fn lemma_round_trip(r: ResolutionModel, repos: Seq<RepositoryRef>)
    requires
        valid_resolution(r),
        forall|i: int| 0 <= i < r.graph.len() ==> entry_ok(repos, #[trigger] r.graph[i]),
    ensures
        lock_valid(repos, r.graph),
{
}

} // verus!
