//! Packages as the resolver sees them: dependencies, repository candidates and
//! resolved entries.
use vstd::prelude::*;
use crate::version::{ReqModel, Version, VersionRequirement};

verus! {

/// Where a selected package comes from.
pub enum Source {
    Repository { repo_id: String },
    VersionControl { url: String, git_ref: String, resolved_sha: String },
    Local { path: String },
}

impl Source {
    pub fn copy(&self) -> (r: Source)
        ensures
            r == *self,
    {
        match self {
            Source::Repository { repo_id } => Source::Repository { repo_id: repo_id.clone() },
            Source::VersionControl { url, git_ref, resolved_sha } => Source::VersionControl {
                url: url.clone(),
                git_ref: git_ref.clone(),
                resolved_sha: resolved_sha.clone(),
            },
            Source::Local { path } => Source::Local { path: path.clone() },
        }
    }
}

/// A requirement that one package places on another, named, package.
pub struct Dependency {
    pub name: String,
    pub requirement: VersionRequirement,
}

pub type DepModel = (Seq<char>, ReqModel);

impl View for Dependency {
    type V = DepModel;

    open spec fn view(&self) -> DepModel {
        (self.name@, self.requirement@)
    }
}

pub open spec fn deps_model(s: Seq<Dependency>) -> Seq<DepModel> {
    s.map_values(|d: Dependency| d@)
}

impl Dependency {
    pub fn new(name: String, requirement: VersionRequirement) -> (r: Dependency)
        ensures
            r.name == name,
            r.requirement == requirement,
    {
        Dependency { name, requirement }
    }

    pub fn copy(&self) -> (r: Dependency)
        ensures
            r@ == self@,
    {
        Dependency { name: self.name.clone(), requirement: self.requirement.copy() }
    }
}

pub fn copy_deps(v: &Vec<Dependency>) -> (r: Vec<Dependency>)
    ensures
        deps_model(r@) == deps_model(v@),
{
    let mut r: Vec<Dependency> = Vec::new();
    let mut i: usize = 0;
    while i < v.len()
        invariant
            0 <= i <= v.len(),
            r.len() == i,
            forall|k: int| 0 <= k < i ==> (#[trigger] r@[k])@ == v@[k]@,
        decreases v.len() - i,
    {
        r.push(v[i].copy());
        i = i + 1;
    }
    assert(deps_model(r@) =~= deps_model(v@));
    r
}

/// One version of a package as a repository offers it.
pub struct Candidate {
    pub version: Version,
    pub source: Source,
    pub content_hash: String,
    pub dependencies: Vec<Dependency>,
    pub is_binary: bool,
    /// The platform a binary was built for; unused for source packages.
    pub platform: String,
}

/// A candidate may be chosen on `platform`: a source package always, a binary
/// only when it was built for that platform.
pub open spec fn eligible(c: Candidate, platform: Seq<char>) -> bool {
    !c.is_binary || c.platform@ == platform
}

/// All candidates of one package in a repository, newest first.
pub struct PackageCandidates {
    pub name: String,
    pub candidates: Vec<Candidate>,
}

/// A repository: a named, read-only table of package candidates.
pub struct RepositoryDatabase {
    pub name: String,
    pub url: String,
    pub packages: Vec<PackageCandidates>,
}

/// The candidates that repository `r` offers for `name` (the first table entry of that name).
pub open spec fn offered(r: RepositoryDatabase, name: Seq<char>) -> Seq<Candidate> {
    let k = first_named(r.packages@, name);
    if k < r.packages@.len() {
        r.packages@[k].candidates@
    } else {
        Seq::empty()
    }
}

/// Index of the first entry named `name`, or the length when there is none.
pub open spec fn first_named(s: Seq<PackageCandidates>, name: Seq<char>) -> int
    decreases s.len(),
{
    if s.len() == 0 {
        0
    } else if s[0].name@ == name {
        0
    } else {
        1 + first_named(s.drop_first(), name)
    }
}

impl RepositoryDatabase {
    /// Index of the first entry of the table named `name`, or the table's
    /// length when the repository has no such package.
    pub fn find(&self, name: &String) -> (r: usize)
        ensures
            r as int == first_named(self.packages@, name@),
            r <= self.packages.len(),
    {
        let mut i: usize = 0;
        assert(self.packages@.skip(0) =~= self.packages@);
        while i < self.packages.len()
            invariant
                0 <= i <= self.packages.len(),
                first_named(self.packages@, name@) == i + first_named(
                    self.packages@.skip(i as int),
                    name@,
                ),
            decreases self.packages.len() - i,
        {
            let ghost rest = self.packages@.skip(i as int);
            assert(rest.drop_first() =~= self.packages@.skip(i + 1));
            if self.packages[i].name == *name {
                return i;
            }
            i = i + 1;
        }
        i
    }
}

/// What a resolved package looks like to the proofs.
pub struct ResolvedModel {
    pub name: Seq<char>,
    pub version: Seq<u64>,
    pub source: Source,
    pub content_hash: Seq<char>,
    pub deps: Seq<DepModel>,
    pub is_binary: bool,
}

/// One package of a resolution, at its exact selected version.
pub struct ResolvedDependency {
    pub name: String,
    pub version: Version,
    pub source: Source,
    pub content_hash: String,
    pub dependencies: Vec<Dependency>,
    pub is_binary: bool,
}

impl View for ResolvedDependency {
    type V = ResolvedModel;

    open spec fn view(&self) -> ResolvedModel {
        ResolvedModel {
            name: self.name@,
            version: self.version@,
            source: self.source,
            content_hash: self.content_hash@,
            deps: deps_model(self.dependencies@),
            is_binary: self.is_binary,
        }
    }
}

/// The entry that selecting candidate `c` for package `name` gives.
pub open spec fn from_candidate(name: Seq<char>, c: Candidate) -> ResolvedModel {
    ResolvedModel {
        name: name,
        version: c.version@,
        source: c.source,
        content_hash: c.content_hash@,
        deps: deps_model(c.dependencies@),
        is_binary: c.is_binary,
    }
}

impl ResolvedDependency {
    pub fn copy(&self) -> (r: ResolvedDependency)
        ensures
            r@ == self@,
    {
        ResolvedDependency {
            name: self.name.clone(),
            version: self.version.copy(),
            source: self.source.copy(),
            content_hash: self.content_hash.clone(),
            dependencies: copy_deps(&self.dependencies),
            is_binary: self.is_binary,
        }
    }

    /// The entry for package `name` at candidate `c`.
    pub fn from_candidate(name: &String, c: &Candidate) -> (r: ResolvedDependency)
        ensures
            r@ == from_candidate(name@, *c),
    {
        ResolvedDependency {
            name: name.clone(),
            version: c.version.copy(),
            source: c.source.copy(),
            content_hash: c.content_hash.clone(),
            dependencies: copy_deps(&c.dependencies),
            is_binary: c.is_binary,
        }
    }
}

pub open spec fn resolved_model(s: Seq<ResolvedDependency>) -> Seq<ResolvedModel> {
    s.map_values(|d: ResolvedDependency| d@)
}

} // verus!
