//! The model of one package-index snapshot: packages, published versions,
//! declared dependencies and feature tables.

use vstd::prelude::*;
use crate::features::ft_view;

verus! {

/// One declared dependency edge of a package version.
pub struct Dep {
    pub name: String,
    pub req: String,
    pub optional: bool,
    pub default_features: bool,
    pub features: Vec<String>,
}

/// Mathematical image of a `Dep`.
pub struct DepV {
    pub name: Seq<char>,
    pub req: Seq<char>,
    pub optional: bool,
    pub default_features: bool,
    pub features: Seq<Seq<char>>,
}

impl View for Dep {
    type V = DepV;

    open spec fn view(&self) -> DepV {
        DepV {
            name: self.name@,
            req: self.req@,
            optional: self.optional,
            default_features: self.default_features,
            features: self.features@.map_values(|s: String| s@),
        }
    }
}

/// The views of a sequence of dependency edges.
pub open spec fn deps_view(deps: Seq<Dep>) -> Seq<DepV> {
    deps.map_values(|d: Dep| d@)
}

/// One published version of a package: its semantic version string, its
/// feature table (feature name to expansion tokens) and its dependencies.
pub struct PackageVersion {
    pub version: String,
    pub features: Vec<(String, Vec<String>)>,
    pub deps: Vec<Dep>,
}

/// Mathematical image of a `PackageVersion`.
pub struct PackageVersionV {
    pub version: Seq<char>,
    pub features: Seq<(Seq<char>, Seq<Seq<char>>)>,
    pub deps: Seq<DepV>,
}

impl View for PackageVersion {
    type V = PackageVersionV;

    open spec fn view(&self) -> PackageVersionV {
        PackageVersionV {
            version: self.version@,
            features: ft_view(self.features@),
            deps: deps_view(self.deps@),
        }
    }
}

/// One package: its name and its version list in published order.
pub struct Package {
    pub name: String,
    pub versions: Vec<PackageVersion>,
}

/// Mathematical image of a `Package`.
pub struct PackageV {
    pub name: Seq<char>,
    pub versions: Seq<PackageVersionV>,
}

impl View for Package {
    type V = PackageV;

    open spec fn view(&self) -> PackageV {
        PackageV {
            name: self.name@,
            versions: self.versions@.map_values(|v: PackageVersion| v@),
        }
    }
}

/// The full set of packages visible at one repository commit.
pub struct IndexSnapshot {
    pub packages: Vec<Package>,
}

/// Mathematical image of an `IndexSnapshot`.
pub struct SnapshotV {
    pub packages: Seq<PackageV>,
}

impl View for IndexSnapshot {
    type V = SnapshotV;

    open spec fn view(&self) -> SnapshotV {
        SnapshotV { packages: self.packages@.map_values(|p: Package| p@) }
    }
}

/// A snapshot is well formed when its package names are unique.
pub open spec fn snapshot_wf(s: SnapshotV) -> bool {
    forall|i: int, j: int|
        0 <= i < j < s.packages.len() ==> (#[trigger] s.packages[i]).name
            != (#[trigger] s.packages[j]).name
}

/// Index of the package named `name`, or -1 when the snapshot has none.
pub open spec fn spec_package_index(s: SnapshotV, name: Seq<char>) -> int
    decreases s.packages.len(),
{
    if s.packages.len() == 0 {
        -1
    } else if s.packages[0].name == name {
        0
    } else {
        let r = spec_package_index(
            SnapshotV { packages: s.packages.drop_first() },
            name,
        );
        if r < 0 {
            -1
        } else {
            r + 1
        }
    }
}

/// The package named `name`, if the snapshot holds one.
pub open spec fn spec_package_lookup(s: SnapshotV, name: Seq<char>) -> Option<PackageV> {
    if spec_package_index(s, name) >= 0 {
        Some(s.packages[spec_package_index(s, name)])
    } else {
        None
    }
}

/// `spec_package_index` returns either -1 or a valid index holding `name`.
pub proof fn lemma_package_index(s: SnapshotV, name: Seq<char>)
    ensures
        spec_package_index(s, name) >= 0 ==> spec_package_index(s, name)
            < s.packages.len() && s.packages[spec_package_index(s, name)].name == name,
        spec_package_index(s, name) < 0 ==> forall|i: int|
            0 <= i < s.packages.len() ==> (#[trigger] s.packages[i]).name != name,
    decreases s.packages.len(),
{
    if s.packages.len() > 0 && s.packages[0].name != name {
        let tail = SnapshotV { packages: s.packages.drop_first() };
        lemma_package_index(tail, name);
        assert(forall|i: int|
            1 <= i < s.packages.len() ==> tail.packages[i - 1] == #[trigger] s.packages[i]);
    }
}

/// If every position before `i` misses and position `i` hits, the first
/// match is at `i`.
proof fn lemma_package_index_prefix(s: SnapshotV, name: Seq<char>, i: int)
    requires
        0 <= i < s.packages.len(),
        s.packages[i].name == name,
        forall|j: int| 0 <= j < i ==> (#[trigger] s.packages[j]).name != name,
    ensures
        spec_package_index(s, name) == i,
    decreases i,
{
    if i > 0 {
        lemma_package_index_prefix(SnapshotV { packages: s.packages.drop_first() }, name, i - 1);
    }
}

impl IndexSnapshot {
    /// Position of the package named `name`, mirroring `spec_package_index`.
    pub fn find_package(&self, name: &String) -> (r: Option<usize>)
        ensures
            match r {
                Some(i) => spec_package_index(self@, name@) == i as int
                    && i < self.packages@.len() && self@.packages[i as int].name == name@,
                None => spec_package_index(self@, name@) < 0,
            },
    {
        let n = self.packages.len();
        for i in 0..n
            invariant
                n == self.packages@.len(),
                self@.packages.len() == n,
                forall|j: int|
                    0 <= j < i ==> (#[trigger] self@.packages[j]).name != name@,
        {
            assert(self@.packages[i as int] == self.packages@[i as int]@);
            if self.packages[i].name == *name {
                proof {
                    lemma_package_index_prefix(self@, name@, i as int);
                }
                return Some(i);
            }
        }
        proof {
            lemma_package_index(self@, name@);
        }
        None
    }

    /// Whether all package names are distinct, mirroring `snapshot_wf`.
    pub fn check_wf(&self) -> (r: bool)
        ensures
            r == snapshot_wf(self@),
    {
        let n = self.packages.len();
        for i in 0..n
            invariant
                n == self.packages@.len(),
                self@.packages.len() == n,
                forall|a: int, b: int|
                    0 <= a < b < self@.packages.len() && a < i ==> (
                    #[trigger] self@.packages[a]).name != (#[trigger] self@.packages[b]).name,
        {
            for j in i + 1..n
                invariant
                    i < n,
                    n == self.packages@.len(),
                    self@.packages.len() == n,
                    i < j <= n,
                    forall|a: int, b: int|
                        0 <= a < b < self@.packages.len() && a < i ==> (
                        #[trigger] self@.packages[a]).name != (#[trigger] self@.packages[b]).name,
                    forall|b: int|
                        i < b < j ==> (#[trigger] self@.packages[b]).name
                            != self@.packages[i as int].name,
            {
                assert(self@.packages[i as int] == self.packages@[i as int]@);
                assert(self@.packages[j as int] == self.packages@[j as int]@);
                if self.packages[i].name == self.packages[j].name {
                    return false;
                }
            }
        }
        true
    }
}

impl Dep {
    /// A copy of this dependency edge with the same mathematical image.
    pub fn duplicate(&self) -> (r: Dep)
        ensures
            r@ == self@,
    {
        let r = Dep {
            name: self.name.clone(),
            req: self.req.clone(),
            optional: self.optional,
            default_features: self.default_features,
            features: self.features.clone(),
        };
        proof {
            assert(r.features@.map_values(|s: String| s@) =~= self.features@.map_values(
                |s: String| s@));
        }
        r
    }
}

} // verus!
