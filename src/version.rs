//! Versions made of dotted numeric parts, and the requirements placed on them.
use vstd::prelude::*;

verus! {

/// Component `i` of a version, where a missing trailing component counts as zero.
pub open spec fn part(s: Seq<u64>, i: int) -> int {
    if 0 <= i < s.len() {
        s[i] as int
    } else {
        0
    }
}

pub open spec fn max_len(a: Seq<u64>, b: Seq<u64>) -> int {
    if a.len() >= b.len() {
        a.len() as int
    } else {
        b.len() as int
    }
}

/// Compares `a` and `b` component-wise from position `i` on: -1, 0 or 1.
pub open spec fn cmp_from(a: Seq<u64>, b: Seq<u64>, i: int) -> int
    decreases max_len(a, b) - i,
{
    if i >= max_len(a, b) || i < 0 {
        0
    } else if part(a, i) < part(b, i) {
        -1
    } else if part(a, i) > part(b, i) {
        1
    } else {
        cmp_from(a, b, i + 1)
    }
}

/// The order of versions: -1 when `a` is older than `b`, 0 when equal, 1 when newer.
pub open spec fn version_cmp(a: Seq<u64>, b: Seq<u64>) -> int {
    cmp_from(a, b, 0)
}

/// A version: dotted numeric components, such as `1.2.3`.
pub struct Version {
    pub parts: Vec<u64>,
}

impl View for Version {
    type V = Seq<u64>;

    open spec fn view(&self) -> Seq<u64> {
        self.parts@
    }
}

impl Version {
    pub fn new(parts: Vec<u64>) -> (r: Version)
        ensures
            r@ == parts@,
    {
        Version { parts }
    }

    pub fn copy(&self) -> (r: Version)
        ensures
            r@ == self@,
    {
        Version { parts: self.parts.clone() }
    }

    /// Component-wise comparison, missing trailing components taken as zero:
    /// -1 when `self` is older than `other`, 0 when they are equal, 1 when newer.
    pub fn compare(&self, other: &Version) -> (r: i8)
        ensures
            r as int == version_cmp(self@, other@),
    {
        let a = &self.parts;
        let b = &other.parts;
        let n: usize = if a.len() >= b.len() { a.len() } else { b.len() };
        let mut i: usize = 0;
        while i < n
            invariant
                a@ == self@,
                b@ == other@,
                n as int == max_len(a@, b@),
                0 <= i <= n,
                version_cmp(a@, b@) == cmp_from(a@, b@, i as int),
            decreases n - i,
        {
            let x: u64 = if i < a.len() { a[i] } else { 0 };
            let y: u64 = if i < b.len() { b[i] } else { 0 };
            assert(x as int == part(a@, i as int) && y as int == part(b@, i as int));
            assert(cmp_from(a@, b@, i as int) == if x < y { -1 } else if x > y { 1 } else {
                cmp_from(a@, b@, i + 1)
            });
            if x < y {
                return -1;
            }
            if x > y {
                return 1;
            }
            i = i + 1;
        }
        0
    }
}

/// What a requirement looks like to the proofs.
pub enum ReqModel {
    Exact(Seq<u64>),
    AtLeast(Seq<u64>),
    Range(Seq<u64>, Seq<u64>, bool),
    Any,
    PinnedRef(Seq<char>),
}

/// Whether version `v` meets requirement `r`.
pub open spec fn req_sat(r: ReqModel, v: Seq<u64>) -> bool {
    match r {
        ReqModel::Exact(w) => version_cmp(v, w) == 0,
        ReqModel::AtLeast(w) => version_cmp(v, w) >= 0,
        ReqModel::Range(lo, hi, hi_closed) => version_cmp(v, lo) >= 0 && (version_cmp(v, hi) < 0
            || (hi_closed && version_cmp(v, hi) == 0)),
        ReqModel::Any => true,
        ReqModel::PinnedRef(_) => true,
    }
}

/// A constraint on the versions of one package.
///
/// `Range` always includes its lower bound; its upper bound is included when
/// the flag is set (`>=1.0, <=2.0`) and left out otherwise (`^1` is
/// `Range(1, 2, false)`). A pinned reference names a commit or tag of a
/// version-control source and places no bound on the version number.
pub enum VersionRequirement {
    Exact(Version),
    AtLeast(Version),
    Range(Version, Version, bool),
    Any,
    PinnedRef(String),
}

impl View for VersionRequirement {
    type V = ReqModel;

    open spec fn view(&self) -> ReqModel {
        match self {
            VersionRequirement::Exact(v) => ReqModel::Exact(v@),
            VersionRequirement::AtLeast(v) => ReqModel::AtLeast(v@),
            VersionRequirement::Range(lo, hi, c) => ReqModel::Range(lo@, hi@, *c),
            VersionRequirement::Any => ReqModel::Any,
            VersionRequirement::PinnedRef(s) => ReqModel::PinnedRef(s@),
        }
    }
}

impl VersionRequirement {
    pub fn copy(&self) -> (r: VersionRequirement)
        ensures
            r@ == self@,
    {
        match self {
            VersionRequirement::Exact(v) => VersionRequirement::Exact(v.copy()),
            VersionRequirement::AtLeast(v) => VersionRequirement::AtLeast(v.copy()),
            VersionRequirement::Range(lo, hi, c) => VersionRequirement::Range(
                lo.copy(),
                hi.copy(),
                *c,
            ),
            VersionRequirement::Any => VersionRequirement::Any,
            VersionRequirement::PinnedRef(s) => VersionRequirement::PinnedRef(s.clone()),
        }
    }

    /// Whether `version` meets this requirement.
    pub fn satisfies(&self, version: &Version) -> (r: bool)
        ensures
            r == req_sat(self@, version@),
    {
        match self {
            VersionRequirement::Exact(w) => version.compare(w) == 0,
            VersionRequirement::AtLeast(w) => version.compare(w) >= 0,
            VersionRequirement::Range(lo, hi, closed) => {
                let c = version.compare(hi);
                version.compare(lo) >= 0 && (c < 0 || (*closed && c == 0))
            },
            VersionRequirement::Any => true,
            VersionRequirement::PinnedRef(_) => true,
        }
    }
}

/// Every version is equal to itself.
pub proof fn lemma_cmp_reflexive(a: Seq<u64>, i: int)
    ensures
        cmp_from(a, a, i) == 0,
    decreases max_len(a, a) - i,
{
    if !(i >= max_len(a, a) || i < 0) {
        lemma_cmp_reflexive(a, i + 1);
    }
}

} // verus!
