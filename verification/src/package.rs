use vstd::prelude::*;
use vstd::string::*;

verus! {

// ---------------------------------------------------------------------------
// Manifests and paths
// ---------------------------------------------------------------------------

/// Where a dependency comes from: a git repository to clone, a directory
/// relative to the package that names it, or (with neither) the directory
/// `.packages/<name>` of the project.
#[derive(Clone, Debug)]
pub struct DepSpec {
    pub git: Option<String>,
    pub path: Option<String>,
}

/// The manifest `bark.toml` of a package: its name, its features (snippet
/// name and the file, relative to the package, that holds the snippet) and
/// its dependencies. A table of the manifest becomes a list of pairs, in no
/// particular order, each key once (see `keys_distinct`).
#[derive(Clone, Debug)]
pub struct Manifest {
    pub name: String,
    pub features: Vec<(String, String)>,
    pub dependencies: Vec<(String, DepSpec)>,
}

/// A directory or file given as a starting directory and the relative
/// parts joined onto it, one after the other, when the path is used.
pub struct DirPath {
    pub root: String,
    pub parts: Vec<String>,
}

/// A package that the resolver has loaded, with the directory it lives in.
pub struct Package {
    pub name: String,
    pub manifest: Manifest,
    pub dir: DirPath,
}

/// A dependency that is still to be loaded: its name, the directory that
/// holds (or is to hold) it, and the repository to clone it from, if any.
pub struct Fetch {
    pub name: String,
    pub dir: DirPath,
    pub git: Option<String>,
}

/// What to do on the disk before the manifest of a fetched dependency is
/// read.
#[derive(Clone, Copy, Debug, PartialEq, Eq, Structural)]
pub enum FetchAction {
    /// Read the manifest as it is.
    Load,
    /// Clone the repository into the directory, then read the manifest.
    Clone,
    /// Remove the directory, clone the repository into it, then read the
    /// manifest.
    ReplaceByClone,
}

/// A feature file of a loaded package: which package and feature it is,
/// and where it lies.
pub struct FeatureFile {
    pub package: String,
    pub feature: String,
    pub path: DirPath,
}

/// The text of a feature file that could be read.
pub struct Snippet {
    pub package: String,
    pub feature: String,
    pub content: String,
}

impl Manifest {
    /// No feature name and no dependency name occurs twice, as in a table.
    pub open spec fn keys_distinct(&self) -> bool {
        &&& forall|i: int, j: int|
            0 <= i < j < self.features.len() ==> #[trigger] self.features[i].0@
                != #[trigger] self.features[j].0@
        &&& forall|i: int, j: int|
            0 <= i < j < self.dependencies.len() ==> #[trigger] self.dependencies[i].0@
                != #[trigger] self.dependencies[j].0@
    }

    /// Tells whether no feature name and no dependency name occurs twice.
    pub fn has_distinct_keys(&self) -> (b: bool)
        ensures
            b == self.keys_distinct(),
    {
        let nf = self.features.len();
        for i in 0..nf
            invariant
                nf == self.features.len(),
                forall|a: int, b: int|
                    0 <= a < i && a < b < nf ==> #[trigger] self.features[a].0@
                        != #[trigger] self.features[b].0@,
        {
            for j in i + 1..nf
                invariant
                    nf == self.features.len(),
                    i < nf,
                    forall|a: int, b: int|
                        0 <= a < i && a < b < nf ==> #[trigger] self.features[a].0@
                            != #[trigger] self.features[b].0@,
                    forall|b: int| i < b < j ==> self.features[i as int].0@ != #[trigger] self.features[b].0@,
            {
                if self.features[i].0 == self.features[j].0 {
                    return false;
                }
            }
        }
        let nd = self.dependencies.len();
        for i in 0..nd
            invariant
                nd == self.dependencies.len(),
                nf == self.features.len(),
                forall|a: int, b: int|
                    0 <= a < b < nf ==> #[trigger] self.features[a].0@
                        != #[trigger] self.features[b].0@,
                forall|a: int, b: int|
                    0 <= a < i && a < b < nd ==> #[trigger] self.dependencies[a].0@
                        != #[trigger] self.dependencies[b].0@,
        {
            for j in i + 1..nd
                invariant
                    nd == self.dependencies.len(),
                    i < nd,
                    forall|a: int, b: int|
                        0 <= a < i && a < b < nd ==> #[trigger] self.dependencies[a].0@
                            != #[trigger] self.dependencies[b].0@,
                    forall|b: int| i < b < j ==> self.dependencies[i as int].0@
                        != #[trigger] self.dependencies[b].0@,
            {
                if self.dependencies[i].0 == self.dependencies[j].0 {
                    return false;
                }
            }
        }
        true
    }
}

/// The contents of an optional string.
pub open spec fn opt_view(o: Option<String>) -> Option<Seq<char>> {
    match o {
        Some(s) => Some(s@),
        None => None,
    }
}

/// The contents of a list of strings.
pub open spec fn strings_view(v: Seq<String>) -> Seq<Seq<char>> {
    v.map_values(|s: String| s@)
}

impl DirPath {
    /// The relative parts as plain character sequences.
    pub open spec fn parts_view(&self) -> Seq<Seq<char>> {
        strings_view(self.parts@)
    }
}

fn clone_string_opt(o: &Option<String>) -> (r: Option<String>)
    ensures
        opt_view(r) == opt_view(*o),
{
    match o {
        Some(s) => Some(s.clone()),
        None => None,
    }
}

fn clone_strings(v: &Vec<String>) -> (r: Vec<String>)
    ensures
        strings_view(r@) == strings_view(v@),
{
    let mut r: Vec<String> = Vec::new();
    for i in 0..v.len()
        invariant
            r.len() == i,
            forall|j: int| 0 <= j < i ==> #[trigger] r[j]@ == v[j]@,
    {
        r.push(v[i].clone());
    }
    assert(strings_view(r@) =~= strings_view(v@));
    r
}

// ---------------------------------------------------------------------------
// Finding the dependencies
// ---------------------------------------------------------------------------

/// A package of this name is loaded.
pub open spec fn has_package(pkgs: Seq<Package>, name: Seq<char>) -> bool {
    exists|i: int| 0 <= i < pkgs.len() && #[trigger] pkgs[i].name@ == name
}

/// Dependency `d` of package `i` is not loaded yet.
pub open spec fn dep_missing(pkgs: Seq<Package>, i: int, d: int) -> bool {
    &&& 0 <= i < pkgs.len()
    &&& 0 <= d < pkgs[i].manifest.dependencies.len()
    &&& !has_package(pkgs, pkgs[i].manifest.dependencies[d].0@)
}

/// Some dependency before dependency `d` of package `i`, in the order of
/// the packages and then of their dependencies, is not loaded yet.
pub open spec fn missing_before(pkgs: Seq<Package>, i: int, d: int) -> bool {
    exists|i2: int, d2: int|
        #![trigger dep_missing(pkgs, i2, d2)]
        dep_missing(pkgs, i2, d2) && (i2 < i || (i2 == i && d2 < d))
}

/// `dir` is where dependency `d` of package `i` lies: a dependency with a
/// path at that path relative to the package that names it, any other at
/// `.packages/<name>` in the project directory.
pub open spec fn is_dir_of(dir: DirPath, pkgs: Seq<Package>, project: Seq<char>, i: int, d: int) -> bool {
    let pkg = pkgs[i];
    let dep = pkg.manifest.dependencies[d];
    match dep.1.path {
        Some(p) => dir.root@ == pkg.dir.root@ && dir.parts_view() == pkg.dir.parts_view().push(p@),
        None => dir.root@ == project && dir.parts_view() == seq![".packages"@, dep.0@],
    }
}

/// `f` is the fetch of dependency `d` of package `i`: its name, its git
/// source, and the directory it lies in.
pub open spec fn is_fetch_of(f: Fetch, pkgs: Seq<Package>, project: Seq<char>, i: int, d: int) -> bool {
    let dep = pkgs[i].manifest.dependencies[d];
    &&& f.name@ == dep.0@
    &&& opt_view(f.git) == opt_view(dep.1.git)
    &&& is_dir_of(f.dir, pkgs, project, i, d)
}

/// Package `k` is a dependency, named by an earlier package, and lies where
/// that dependency lies.
pub open spec fn loaded_as_dependency(pkgs: Seq<Package>, project: Seq<char>, k: int) -> bool {
    exists|i: int, d: int|
        #![trigger pkgs[i].manifest.dependencies[d]]
        0 <= i < k && 0 <= d < pkgs[i].manifest.dependencies.len() && pkgs[k].name@
            == pkgs[i].manifest.dependencies[d].0@ && is_dir_of(pkgs[k].dir, pkgs, project, i, d)
}

/// Package `k` is the first dependency that was missing among the packages
/// loaded before it, and lies where that dependency lies: it was added as
/// the fetch that `next_missing` gave.
pub open spec fn loaded_next(pkgs: Seq<Package>, project: Seq<char>, k: int) -> bool {
    let before = pkgs.take(k);
    exists|i: int, d: int|
        #![trigger dep_missing(before, i, d)]
        dep_missing(before, i, d) && !missing_before(before, i, d) && pkgs[k].name@
            == before[i].manifest.dependencies[d].0@ && is_dir_of(pkgs[k].dir, before, project, i, d)
}

/// Every package after the first was added as the fetch that
/// `next_missing` gave at that time.
pub open spec fn fetched_in_order(pkgs: Seq<Package>, project: Seq<char>) -> bool {
    forall|k: int| 1 <= k < pkgs.len() ==> #[trigger] loaded_next(pkgs, project, k)
}

/// Every package after the first was loaded as a dependency of an earlier one.
pub open spec fn grown_by_fetches(pkgs: Seq<Package>, project: Seq<char>) -> bool {
    forall|k: int| 1 <= k < pkgs.len() ==> #[trigger] loaded_as_dependency(pkgs, project, k)
}

/// The names of the packages are distinct.
pub open spec fn names_distinct(pkgs: Seq<Package>) -> bool {
    forall|i: int, j: int|
        0 <= i < j < pkgs.len() ==> #[trigger] pkgs[i].name@ != #[trigger] pkgs[j].name@
}

/// The packages of a project, found from the manifest of the project by
/// following the dependencies, each package once under its name.
pub struct Resolver {
    packages: Vec<Package>,
    project_dir: String,
}

impl Resolver {
    #[verifier::type_invariant]
    spec fn inv(self) -> bool {
        &&& self.packages@.len() >= 1
        &&& names_distinct(self.packages@)
        &&& grown_by_fetches(self.packages@, self.project_dir@)
        &&& fetched_in_order(self.packages@, self.project_dir@)
        &&& forall|k: int| 0 <= k < self.packages@.len() ==> (#[trigger] self.packages@[k]).manifest.keys_distinct()
    }

    /// `f` is what `next_missing` gives: the fetch of the first dependency
    /// that is not loaded yet.
    pub open spec fn is_next_fetch(&self, f: Fetch) -> bool {
        exists|i: int, d: int|
            #![trigger dep_missing(self.packages(), i, d)]
            dep_missing(self.packages(), i, d) && !missing_before(self.packages(), i, d)
                && is_fetch_of(f, self.packages(), self.project_dir(), i, d)
    }

    /// The loaded packages, in the order they were loaded.
    pub closed spec fn packages(&self) -> Seq<Package> {
        self.packages@
    }

    /// The directory of the project.
    pub closed spec fn project_dir(&self) -> Seq<char> {
        self.project_dir@
    }

    /// Starts from the manifest of the project, which lies in `project_dir`.
    pub fn new(root_manifest: Manifest, project_dir: String) -> (r: Resolver)
        requires
            root_manifest.keys_distinct(),
        ensures
            r.packages().len() == 1,
            r.packages()[0].name@ == root_manifest.name@,
            r.packages()[0].manifest == root_manifest,
            r.packages()[0].dir.root@ == project_dir@,
            r.packages()[0].dir.parts@.len() == 0,
            r.project_dir() == project_dir@,
    {
        let name = root_manifest.name.clone();
        let dir = DirPath { root: project_dir.clone(), parts: Vec::new() };
        let mut packages: Vec<Package> = Vec::new();
        packages.push(Package { name, manifest: root_manifest, dir });
        Resolver { packages, project_dir }
    }

    /// The loaded packages, in the order they were loaded.
    pub fn loaded(&self) -> (r: &Vec<Package>)
        ensures
            r@ == self.packages(),
            r@.len() >= 1,
            names_distinct(r@),
            grown_by_fetches(r@, self.project_dir()),
            fetched_in_order(r@, self.project_dir()),
            forall|k: int| 0 <= k < r@.len() ==> (#[trigger] r@[k]).manifest.keys_distinct(),
    {
        proof {
            use_type_invariant(self);
        }
        &self.packages
    }

    fn find_package(&self, name: &String) -> (r: Option<usize>)
        ensures
            match r {
                Some(i) => i < self.packages().len() && self.packages()[i as int].name@ == name@,
                None => !has_package(self.packages(), name@),
            },
    {
        for i in 0..self.packages.len()
            invariant
                forall|j: int| 0 <= j < i ==> #[trigger] self.packages@[j].name@ != name@,
        {
            if self.packages[i].name == *name {
                return Some(i);
            }
        }
        None
    }

    /// The first dependency, in the order of the packages and then of their
    /// dependencies, that is not loaded yet; `None` when every dependency of
    /// every loaded package is loaded.
    pub fn next_missing(&self) -> (r: Option<Fetch>)
        ensures
            r is None ==> forall|i: int, d: int| !dep_missing(self.packages(), i, d),
            r matches Some(f) ==> self.is_next_fetch(f),
            // A dependency without a path is fetched from `.packages/<name>`
            // of the project, whichever package names it; one with a path
            // from that path inside the directory of the package naming it.
            r matches Some(f) ==> exists|i: int, d: int|
                #![trigger dep_missing(self.packages(), i, d)]
                dep_missing(self.packages(), i, d) && (forall|i2: int, d2: int|
                    (i2 < i || (i2 == i && d2 < d)) ==> !dep_missing(self.packages(), i2, d2))
                    && opt_view(f.git) == opt_view(self.packages()[i].manifest.dependencies[d].1.git)
                    && self.packages()[i].manifest.dependencies[d].0@
                    == f.name@ && (self.packages()[i].manifest.dependencies[d].1.path is None
                    ==> f.dir.root@ == self.project_dir() && f.dir.parts_view() == seq![
                    ".packages"@,
                    f.name@,
                ]) && (self.packages()[i].manifest.dependencies[d].1.path matches Some(p)
                    ==> f.dir.root@ == self.packages()[i].dir.root@ && f.dir.parts_view()
                    == self.packages()[i].dir.parts_view().push(p@)),
    {
        let ghost pkgs = self.packages@;
        let n = self.packages.len();
        for i in 0..n
            invariant
                n == pkgs.len(),
                pkgs == self.packages@,
                forall|i2: int, d2: int| i2 < i ==> !dep_missing(pkgs, i2, d2),
        {
            let deps = &self.packages[i].manifest.dependencies;
            for d in 0..deps.len()
                invariant
                    n == pkgs.len(),
                    pkgs == self.packages@,
                    0 <= i < n,
                    deps == pkgs[i as int].manifest.dependencies,
                    forall|i2: int, d2: int|
                        (i2 < i || (i2 == i && d2 < d)) ==> !dep_missing(pkgs, i2, d2),
            {
                let (dep_name, spec) = &deps[d];
                if self.find_package(dep_name).is_none() {
                    let dir = match &spec.path {
                        Some(p) => {
                            let mut parts = clone_strings(&self.packages[i].dir.parts);
                            parts.push(p.clone());
                            proof {
                                assert(strings_view(parts@) =~= self.packages[i as int].dir.parts_view().push(p@));
                            }
                            DirPath { root: self.packages[i].dir.root.clone(), parts }
                        },
                        None => {
                            let mut parts: Vec<String> = Vec::new();
                            parts.push(String::from_str(".packages"));
                            parts.push(dep_name.clone());
                            proof {
                                assert(strings_view(parts@) =~= seq![".packages"@, dep_name@]);
                            }
                            DirPath { root: self.project_dir.clone(), parts }
                        },
                    };
                    let f = Fetch { name: dep_name.clone(), dir, git: clone_string_opt(&spec.git) };
                    proof {
                        assert(dep_missing(pkgs, i as int, d as int));
                        assert(!missing_before(pkgs, i as int, d as int));
                        assert(is_fetch_of(f, pkgs, self.project_dir@, i as int, d as int));
                        lemma_dependency_dir(f.dir, pkgs, self.project_dir@, i as int, d as int);
                    }
                    return Some(f);
                }
            }
        }
        None
    }

    /// Records the dependency that `next_missing` gave, loaded with its
    /// manifest, after the packages that were loaded before it.
    pub fn add_package(&mut self, fetch: Fetch, manifest: Manifest)
        requires
            old(self).is_next_fetch(fetch),
            manifest.keys_distinct(),
        ensures
            final(self).packages() == old(self).packages().push(
                Package { name: fetch.name, manifest, dir: fetch.dir },
            ),
            final(self).project_dir() == old(self).project_dir(),
    {
        proof {
            use_type_invariant(&*self);
        }
        let ghost old_pkgs = self.packages@;
        let ghost project = self.project_dir@;
        let ghost (i, d) = choose|i: int, d: int|
            #![trigger dep_missing(old_pkgs, i, d)]
            dep_missing(old_pkgs, i, d) && !missing_before(old_pkgs, i, d) && is_fetch_of(
                fetch,
                old_pkgs,
                project,
                i,
                d,
            );
        let Fetch { name, dir, git: _ } = fetch;
        let package = Package { name, manifest, dir };
        let ghost packages = old_pkgs.push(package);
        proof {
            let k = old_pkgs.len() as int;
            assert forall|a: int, b: int| 0 <= a < b < packages.len() implies #[trigger] packages[a].name@
                != #[trigger] packages[b].name@ by {
                assert(packages[a] == old_pkgs[a]);
                if b < k {
                    assert(packages[b] == old_pkgs[b]);
                }
            }
            assert forall|m: int| 1 <= m < packages.len() implies #[trigger] loaded_as_dependency(
                packages,
                project,
                m,
            ) by {
                if m < k {
                    assert(loaded_as_dependency(old_pkgs, project, m));
                    let (i2, d2) = choose|i2: int, d2: int|
                        #![trigger old_pkgs[i2].manifest.dependencies[d2]]
                        0 <= i2 < m && 0 <= d2 < old_pkgs[i2].manifest.dependencies.len()
                            && old_pkgs[m].name@ == old_pkgs[i2].manifest.dependencies[d2].0@
                            && is_dir_of(old_pkgs[m].dir, old_pkgs, project, i2, d2);
                    assert(packages[i2] == old_pkgs[i2]);
                    assert(packages[m] == old_pkgs[m]);
                    assert(packages[i2].manifest.dependencies[d2] == old_pkgs[i2].manifest.dependencies[d2]);
                } else {
                    assert(packages[i] == old_pkgs[i]);
                    assert(packages[i].manifest.dependencies[d] == old_pkgs[i].manifest.dependencies[d]);
                }
            }
            assert forall|m: int| 1 <= m < packages.len() implies #[trigger] loaded_next(
                packages,
                project,
                m,
            ) by {
                if m < k {
                    assert(loaded_next(old_pkgs, project, m));
                    assert(packages.take(m) == old_pkgs.take(m));
                    assert(packages[m] == old_pkgs[m]);
                } else {
                    assert(packages.take(k) == old_pkgs);
                    assert(dep_missing(packages.take(k), i, d));
                }
            }
        }
        let mut taken = Resolver::new(Resolver::empty_manifest(), String::new());
        std::mem::swap(self, &mut taken);
        let Resolver { packages: mut list, project_dir } = taken;
        list.push(package);
        *self = Resolver { packages: list, project_dir };
    }

    /// A manifest with no name, features or dependencies.
    fn empty_manifest() -> (m: Manifest)
        ensures
            m.keys_distinct(),
    {
        Manifest { name: String::new(), features: Vec::new(), dependencies: Vec::new() }
    }
}

/// The directory of a path as plain values.
pub open spec fn dir_key(d: DirPath) -> (Seq<char>, Seq<Seq<char>>) {
    (d.root@, d.parts_view())
}

/// Two loaded packages agree: name, directory and manifest.
pub open spec fn same_package(a: Package, b: Package) -> bool {
    &&& a.name@ == b.name@
    &&& dir_key(a.dir) == dir_key(b.dir)
    &&& a.manifest == b.manifest
}

proof fn lemma_same_missing(q1: Seq<Package>, q2: Seq<Package>)
    requires
        q1.len() == q2.len(),
        forall|k: int| 0 <= k < q1.len() ==> same_package(#[trigger] q1[k], q2[k]),
    ensures
        forall|i: int, d: int| #[trigger] dep_missing(q1, i, d) == dep_missing(q2, i, d),
        forall|i: int, d: int| #[trigger] missing_before(q1, i, d) == missing_before(q2, i, d),
{
    assert forall|n: Seq<char>| has_package(q1, n) == has_package(q2, n) by {
        if has_package(q1, n) {
            let j = choose|j: int| 0 <= j < q1.len() && #[trigger] q1[j].name@ == n;
            assert(same_package(q1[j], q2[j]));
        }
        if has_package(q2, n) {
            let j = choose|j: int| 0 <= j < q2.len() && #[trigger] q2[j].name@ == n;
            assert(same_package(q1[j], q2[j]));
        }
    }
    assert forall|i: int, d: int| #[trigger] dep_missing(q1, i, d) == dep_missing(q2, i, d) by {
        if 0 <= i < q1.len() {
            assert(same_package(q1[i], q2[i]));
        }
    }
    assert forall|i: int, d: int| #[trigger] missing_before(q1, i, d) == missing_before(q2, i, d) by {
        if missing_before(q1, i, d) {
            let (i2, d2) = choose|i2: int, d2: int|
                #![trigger dep_missing(q1, i2, d2)]
                dep_missing(q1, i2, d2) && (i2 < i || (i2 == i && d2 < d));
            assert(dep_missing(q2, i2, d2));
        }
        if missing_before(q2, i, d) {
            let (i2, d2) = choose|i2: int, d2: int|
                #![trigger dep_missing(q2, i2, d2)]
                dep_missing(q2, i2, d2) && (i2 < i || (i2 == i && d2 < d));
            assert(dep_missing(q1, i2, d2));
        }
    }
}

proof fn lemma_first_missing_unique(q: Seq<Package>, i1: int, d1: int, i2: int, d2: int)
    requires
        dep_missing(q, i1, d1),
        !missing_before(q, i1, d1),
        dep_missing(q, i2, d2),
        !missing_before(q, i2, d2),
    ensures
        i1 == i2 && d1 == d2,
{
    if i1 < i2 || (i1 == i2 && d1 < d2) {
        assert(missing_before(q, i2, d2));
    } else if i2 < i1 || (i1 == i2 && d2 < d1) {
        assert(missing_before(q, i1, d1));
    }
}

proof fn lemma_runs_agree_up_to(
    p1: Seq<Package>,
    p2: Seq<Package>,
    project: Seq<char>,
    disk: Map<(Seq<char>, Seq<Seq<char>>), Manifest>,
    k: int,
)
    requires
        1 <= k <= p1.len(),
        k <= p2.len(),
        fetched_in_order(p1, project),
        fetched_in_order(p2, project),
        same_package(p1[0], p2[0]),
        forall|j: int| 1 <= j < p1.len() ==> disk[dir_key(#[trigger] p1[j].dir)] == p1[j].manifest,
        forall|j: int| 1 <= j < p2.len() ==> disk[dir_key(#[trigger] p2[j].dir)] == p2[j].manifest,
    ensures
        forall|j: int| 0 <= j < k ==> same_package(#[trigger] p1[j], p2[j]),
    decreases k,
{
    if k > 1 {
        let m = k - 1;
        lemma_runs_agree_up_to(p1, p2, project, disk, m);
        let q1 = p1.take(m);
        let q2 = p2.take(m);
        assert forall|j: int| 0 <= j < q1.len() implies same_package(#[trigger] q1[j], q2[j]) by {
            assert(same_package(p1[j], p2[j]));
        }
        lemma_same_missing(q1, q2);
        assert(loaded_next(p1, project, m));
        assert(loaded_next(p2, project, m));
        let (i1, d1) = choose|i: int, d: int|
            #![trigger dep_missing(q1, i, d)]
            dep_missing(q1, i, d) && !missing_before(q1, i, d) && p1[m].name@
                == q1[i].manifest.dependencies[d].0@ && is_dir_of(p1[m].dir, q1, project, i, d);
        let (i2, d2) = choose|i: int, d: int|
            #![trigger dep_missing(q2, i, d)]
            dep_missing(q2, i, d) && !missing_before(q2, i, d) && p2[m].name@
                == q2[i].manifest.dependencies[d].0@ && is_dir_of(p2[m].dir, q2, project, i, d);
        assert(dep_missing(q1, i2, d2) && !missing_before(q1, i2, d2));
        lemma_first_missing_unique(q1, i1, d1, i2, d2);
        assert(same_package(q1[i1], q2[i1]));
        assert(dir_key(p1[m].dir) == dir_key(p2[m].dir));
        assert(same_package(p1[m], p2[m]));
    }
}

/// Resolving again over the disk that a resolution leaves behind does the
/// same: two complete resolutions of one project, each package added as the
/// fetch that `next_missing` gave and its manifest read from one and the
/// same disk (a map from directory to manifest), load the same packages,
/// in the same order, from the same directories. So in the second run every
/// fetch lies where the first one found a manifest, and `Fetch::action`
/// answers `Load` there: nothing is cloned or removed.
pub proof fn lemma_resolution_repeats(
    p1: Seq<Package>,
    p2: Seq<Package>,
    project: Seq<char>,
    disk: Map<(Seq<char>, Seq<Seq<char>>), Manifest>,
)
    requires
        p1.len() >= 1,
        p2.len() >= 1,
        fetched_in_order(p1, project),
        fetched_in_order(p2, project),
        same_package(p1[0], p2[0]),
        forall|j: int|
            1 <= j < p1.len() ==> disk.contains_key(dir_key(#[trigger] p1[j].dir)) && disk[dir_key(
                p1[j].dir,
            )] == p1[j].manifest,
        forall|j: int|
            1 <= j < p2.len() ==> disk.contains_key(dir_key(#[trigger] p2[j].dir)) && disk[dir_key(
                p2[j].dir,
            )] == p2[j].manifest,
        forall|i: int, d: int| !dep_missing(p1, i, d),
        forall|i: int, d: int| !dep_missing(p2, i, d),
    ensures
        p1.len() == p2.len(),
        forall|j: int| 0 <= j < p1.len() ==> same_package(#[trigger] p1[j], p2[j]),
{
    if p1.len() < p2.len() {
        let k = p1.len() as int;
        lemma_runs_agree_up_to(p1, p2, project, disk, k);
        let q2 = p2.take(k);
        assert forall|j: int| 0 <= j < p1.len() implies same_package(#[trigger] p1[j], q2[j]) by {
            assert(same_package(p1[j], p2[j]));
        }
        lemma_same_missing(p1, q2);
        assert(loaded_next(p2, project, k));
        let (i, d) = choose|i: int, d: int|
            #![trigger dep_missing(q2, i, d)]
            dep_missing(q2, i, d) && !missing_before(q2, i, d) && p2[k].name@
                == q2[i].manifest.dependencies[d].0@ && is_dir_of(p2[k].dir, q2, project, i, d);
        assert(dep_missing(p1, i, d));
    } else if p2.len() < p1.len() {
        let k = p2.len() as int;
        lemma_runs_agree_up_to(p1, p2, project, disk, k);
        let q1 = p1.take(k);
        assert forall|j: int| 0 <= j < q1.len() implies same_package(#[trigger] q1[j], p2[j]) by {
            assert(same_package(p1[j], p2[j]));
        }
        lemma_same_missing(q1, p2);
        assert(loaded_next(p1, project, k));
        let (i, d) = choose|i: int, d: int|
            #![trigger dep_missing(q1, i, d)]
            dep_missing(q1, i, d) && !missing_before(q1, i, d) && p1[k].name@
                == q1[i].manifest.dependencies[d].0@ && is_dir_of(p1[k].dir, q1, project, i, d);
        assert(dep_missing(p2, i, d));
    }
    lemma_runs_agree_up_to(p1, p2, project, disk, p1.len() as int);
}

/// Resolution loads exactly the packages that the project needs. Once no
/// dependency of a loaded package is missing, the loaded names are closed
/// under the dependencies, and they lie in every set of names that holds
/// the project's own name and is closed under the dependencies of the
/// loaded packages: the loaded packages are the least such set.
pub proof fn lemma_loaded_is_least_closed(
    pkgs: Seq<Package>,
    project: Seq<char>,
    names: Set<Seq<char>>,
)
    requires
        pkgs.len() >= 1,
        grown_by_fetches(pkgs, project),
        forall|i: int, d: int| !dep_missing(pkgs, i, d),
        names.contains(pkgs[0].name@),
        forall|k: int, d: int|
            0 <= k < pkgs.len() && names.contains(pkgs[k].name@) && 0 <= d
                < pkgs[k].manifest.dependencies.len() ==> names.contains(
                #[trigger] pkgs[k].manifest.dependencies[d].0@,
            ),
    ensures
        forall|k: int, d: int|
            0 <= k < pkgs.len() && 0 <= d < pkgs[k].manifest.dependencies.len() ==> has_package(
                pkgs,
                #[trigger] pkgs[k].manifest.dependencies[d].0@,
            ),
        forall|k: int| 0 <= k < pkgs.len() ==> names.contains(#[trigger] pkgs[k].name@),
{
    assert forall|k: int, d: int|
        0 <= k < pkgs.len() && 0 <= d < pkgs[k].manifest.dependencies.len() implies has_package(
        pkgs,
        #[trigger] pkgs[k].manifest.dependencies[d].0@,
    ) by {
        assert(!dep_missing(pkgs, k, d));
    }
    assert forall|k: int| 0 <= k < pkgs.len() implies names.contains(#[trigger] pkgs[k].name@) by {
        lemma_loaded_name_in(pkgs, project, names, k);
    }
}

proof fn lemma_loaded_name_in(pkgs: Seq<Package>, project: Seq<char>, names: Set<Seq<char>>, k: int)
    requires
        pkgs.len() >= 1,
        grown_by_fetches(pkgs, project),
        names.contains(pkgs[0].name@),
        forall|k: int, d: int|
            0 <= k < pkgs.len() && names.contains(pkgs[k].name@) && 0 <= d
                < pkgs[k].manifest.dependencies.len() ==> names.contains(
                #[trigger] pkgs[k].manifest.dependencies[d].0@,
            ),
        0 <= k < pkgs.len(),
    ensures
        names.contains(pkgs[k].name@),
    decreases k,
{
    if k > 0 {
        assert(loaded_as_dependency(pkgs, project, k));
        let (i, d) = choose|i: int, d: int|
            #![trigger pkgs[i].manifest.dependencies[d]]
            0 <= i < k && 0 <= d < pkgs[i].manifest.dependencies.len() && pkgs[k].name@
                == pkgs[i].manifest.dependencies[d].0@ && is_dir_of(pkgs[k].dir, pkgs, project, i, d);
        lemma_loaded_name_in(pkgs, project, names, i);
    }
}

impl Fetch {
    /// What to do before the manifest of the dependency is read, given
    /// whether the directory and its manifest exist: a dependency from git
    /// whose manifest is not there is cloned afresh, into a directory that
    /// is first removed where it exists; any other is read as it is.
    pub fn action(&self, manifest_exists: bool, dir_exists: bool) -> (a: FetchAction)
        ensures
            a == (if self.git is Some && !manifest_exists {
                if dir_exists {
                    FetchAction::ReplaceByClone
                } else {
                    FetchAction::Clone
                }
            } else {
                FetchAction::Load
            }),
    {
        if self.git.is_some() && !manifest_exists {
            if dir_exists {
                FetchAction::ReplaceByClone
            } else {
                FetchAction::Clone
            }
        } else {
            FetchAction::Load
        }
    }
}

// ---------------------------------------------------------------------------
// Feature files
// ---------------------------------------------------------------------------

/// A feature file as plain values: package name, feature name, and the
/// starting directory and relative parts of its path.
pub open spec fn feature_file_view(f: FeatureFile) -> (Seq<char>, Seq<char>, Seq<char>, Seq<Seq<char>>) {
    (f.package@, f.feature@, f.path.root@, f.path.parts_view())
}

/// The feature files of one package, in the order of its features: each
/// lies at its relative path inside the directory of the package.
pub open spec fn package_feature_files(p: Package) -> Seq<(Seq<char>, Seq<char>, Seq<char>, Seq<Seq<char>>)> {
    Seq::new(
        p.manifest.features.len() as nat,
        |j: int|
            (
                p.name@,
                p.manifest.features[j].0@,
                p.dir.root@,
                p.dir.parts_view().push(p.manifest.features[j].1@),
            ),
    )
}

/// The feature files of all the packages, package after package.
pub open spec fn all_feature_files(pkgs: Seq<Package>) -> Seq<(Seq<char>, Seq<char>, Seq<char>, Seq<Seq<char>>)>
    decreases pkgs.len(),
{
    if pkgs.len() == 0 {
        Seq::empty()
    } else {
        all_feature_files(pkgs.drop_last()) + package_feature_files(pkgs.last())
    }
}

// ---------------------------------------------------------------------------
// Expanding snippet references
// ---------------------------------------------------------------------------

/// How a snippet reference is written: `@`, a package name, `/`, a feature
/// name, each name made of word characters and `-`.
pub const REFERENCE_PATTERN: &'static str = r"@([\w-]+)/([\w-]+)";

/// The places in `text` where `pattern` matches (leftmost first, without
/// overlap), given as the pieces of text between them: `Regex::split` of
/// the `regex` crate.
pub uninterp spec fn reference_split(pattern: Seq<char>, text: Seq<char>) -> Seq<Seq<char>>;

/// Groups 1 and 2 of the same matches, in order: `Regex::captures_iter` of
/// the `regex` crate.
pub uninterp spec fn reference_captures(pattern: Seq<char>, text: Seq<char>) -> Seq<(Seq<char>, Seq<char>)>;

/// Pairs of strings as plain values.
pub open spec fn names_view(names: Seq<(String, String)>) -> Seq<(Seq<char>, Seq<char>)> {
    names.map_values(|n: (String, String)| (n.0@, n.1@))
}

/// How a reference to feature `feat` of package `pkg` is written.
pub open spec fn reference_text(pkg: Seq<char>, feat: Seq<char>) -> Seq<char> {
    seq!['@'] + pkg + seq!['/'] + feat
}

/// The pieces with the fills put between them: `pieces[0] + fills[0] +
/// pieces[1] + ... + fills[n-1] + pieces[n]`.
pub open spec fn splice(pieces: Seq<Seq<char>>, fills: Seq<Seq<char>>) -> Seq<char>
    decreases fills.len(),
{
    if fills.len() == 0 {
        if pieces.len() > 0 {
            pieces[0]
        } else {
            Seq::empty()
        }
    } else {
        splice(pieces.drop_last(), fills.drop_last()) + fills.last() + pieces.last()
    }
}

/// A text put together from pieces and fills holds the first character of
/// the last fill.
proof fn lemma_splice_shows_fill(pieces: Seq<Seq<char>>, fills: Seq<Seq<char>>)
    requires
        fills.len() > 0,
        fills.last().len() > 0,
    ensures
        splice(pieces, fills).contains(fills.last()[0]),
{
    let front = splice(pieces.drop_last(), fills.drop_last());
    let whole = front + fills.last() + pieces.last();
    assert(whole[front.len() as int] == fills.last()[0]);
    assert(splice(pieces, fills) == whole);
}

proof fn lemma_find_feature_some(fs: Seq<(String, String)>, name: Seq<char>)
    ensures
        (find_feature(fs, name) is Some) == (exists|j: int| 0 <= j < fs.len() && #[trigger] fs[j].0@ == name),
    decreases fs.len(),
{
    if fs.len() > 0 {
        lemma_find_feature_some(fs.drop_first(), name);
        if find_feature(fs.drop_first(), name) is Some && fs[0].0@ != name {
            let j = choose|j: int| 0 <= j < fs.drop_first().len() && #[trigger] fs.drop_first()[j].0@ == name;
            assert(fs[j + 1].0@ == name);
        }
        if exists|j: int| 0 <= j < fs.len() && #[trigger] fs[j].0@ == name {
            let j = choose|j: int| 0 <= j < fs.len() && #[trigger] fs[j].0@ == name;
            if j > 0 {
                assert(fs.drop_first()[j - 1].0@ == name);
            }
        }
    }
}

/// Snippet `i` is for feature `feat` of package `pkg`.
pub open spec fn snippet_for(ss: Seq<Snippet>, i: int, pkg: Seq<char>, feat: Seq<char>) -> bool {
    0 <= i < ss.len() && ss[i].package@ == pkg && ss[i].feature@ == feat
}

proof fn lemma_find_snippet_first(ss: Seq<Snippet>, pkg: Seq<char>, feat: Seq<char>)
    ensures
        (find_snippet(ss, pkg, feat) is Some) == (exists|i: int| #[trigger] snippet_for(ss, i, pkg, feat)),
        find_snippet(ss, pkg, feat) is Some ==> exists|i: int|
            #[trigger] snippet_for(ss, i, pkg, feat) && (forall|j: int| 0 <= j < i ==> !snippet_for(ss, j, pkg, feat))
                && find_snippet(ss, pkg, feat)->0 == ss[i].content@,
    decreases ss.len(),
{
    if ss.len() > 0 {
        let rest = ss.drop_first();
        lemma_find_snippet_first(rest, pkg, feat);
        assert forall|i: int| 0 <= i implies #[trigger] snippet_for(rest, i, pkg, feat) == snippet_for(ss, i + 1, pkg, feat) by {
            if 0 <= i < rest.len() {
                assert(rest[i] == ss[i + 1]);
            }
        }
        if snippet_for(ss, 0, pkg, feat) {
        } else {
            if exists|i: int| #[trigger] snippet_for(ss, i, pkg, feat) {
                let i = choose|i: int| #[trigger] snippet_for(ss, i, pkg, feat);
                assert(snippet_for(rest, i - 1, pkg, feat));
            }
            if find_snippet(rest, pkg, feat) is Some {
                let i = choose|i: int|
                    #[trigger] snippet_for(rest, i, pkg, feat) && (forall|j: int|
                        0 <= j < i ==> !snippet_for(rest, j, pkg, feat)) && find_snippet(rest, pkg, feat)->0
                        == rest[i].content@;
                assert(snippet_for(ss, i + 1, pkg, feat));
                assert forall|j: int| 0 <= j < i + 1 implies !snippet_for(ss, j, pkg, feat) by {
                    if j > 0 {
                        assert(!snippet_for(rest, j - 1, pkg, feat));
                    }
                }
            }
        }
    }
}

/// What a reference `@pkg/feat` becomes: where the package is loaded and
/// declares the feature, and a snippet of that very package and feature
/// was read, the text of the first such snippet; in every other case the
/// reference as it was written. A snippet of another package, or of
/// another feature, never takes its place.
pub proof fn lemma_replacement_source(
    pkgs: Seq<Package>,
    snippets: Seq<Snippet>,
    pkg: Seq<char>,
    feat: Seq<char>,
)
    ensures
        ({
            let r = replacement(pkgs, snippets, pkg, feat);
            let declared = exists|k: int, j: int|
                0 <= k < pkgs.len() && pkgs[k].name@ == pkg && 0 <= j
                    < pkgs[k].manifest.features.len() && #[trigger] pkgs[k].manifest.features[j].0@ == feat;
            let read = exists|i: int| #[trigger] snippet_for(snippets, i, pkg, feat);
            &&& declared && read ==> exists|i: int|
                #[trigger] snippet_for(snippets, i, pkg, feat) && (forall|j: int|
                    0 <= j < i ==> !snippet_for(snippets, j, pkg, feat)) && r == snippets[i].content@
            &&& !(declared && read) ==> r == reference_text(pkg, feat)
        }),
{
    lemma_find_snippet_first(snippets, pkg, feat);
    let declared = exists|k: int, j: int|
        0 <= k < pkgs.len() && pkgs[k].name@ == pkg && 0 <= j
            < pkgs[k].manifest.features.len() && #[trigger] pkgs[k].manifest.features[j].0@ == feat;
    let found = exists|k: int|
        0 <= k < pkgs.len() && #[trigger] pkgs[k].name@ == pkg && find_feature(
            pkgs[k].manifest.features@,
            feat,
        ) is Some;
    if declared {
        let (k, j) = choose|k: int, j: int|
            0 <= k < pkgs.len() && pkgs[k].name@ == pkg && 0 <= j
                < pkgs[k].manifest.features.len() && #[trigger] pkgs[k].manifest.features[j].0@ == feat;
        lemma_find_feature_some(pkgs[k].manifest.features@, feat);
        assert(pkgs[k].manifest.features@[j].0@ == feat);
        assert(found);
    }
    if found {
        let k = choose|k: int|
            0 <= k < pkgs.len() && #[trigger] pkgs[k].name@ == pkg && find_feature(
                pkgs[k].manifest.features@,
                feat,
            ) is Some;
        lemma_find_feature_some(pkgs[k].manifest.features@, feat);
        let j = choose|j: int|
            0 <= j < pkgs[k].manifest.features@.len() && #[trigger] pkgs[k].manifest.features@[j].0@ == feat;
        assert(pkgs[k].manifest.features[j].0@ == feat);
        assert(declared);
    }
}

/// Where a dependency lies: one without a path in `.packages/<name>` of the
/// project, whichever package names it; one with a path at that path
/// inside the directory of the package that names it.
pub proof fn lemma_dependency_dir(dir: DirPath, pkgs: Seq<Package>, project: Seq<char>, i: int, d: int)
    requires
        0 <= i < pkgs.len(),
        0 <= d < pkgs[i].manifest.dependencies.len(),
        is_dir_of(dir, pkgs, project, i, d),
    ensures
        pkgs[i].manifest.dependencies[d].1.path is None ==> dir.root@ == project && dir.parts_view()
            == seq![".packages"@, pkgs[i].manifest.dependencies[d].0@],
        pkgs[i].manifest.dependencies[d].1.path matches Some(p) ==> dir.root@ == pkgs[i].dir.root@
            && dir.parts_view() == pkgs[i].dir.parts_view().push(p@),
{
}

/// The feature file of feature `j` of package `k`, as plain values.
pub open spec fn located_file(pkgs: Seq<Package>, k: int, j: int) -> (Seq<char>, Seq<char>, Seq<char>, Seq<Seq<char>>) {
    (
        pkgs[k].name@,
        pkgs[k].manifest.features[j].0@,
        pkgs[k].dir.root@,
        pkgs[k].dir.parts_view().push(pkgs[k].manifest.features[j].1@),
    )
}

/// Feature `j` of package `k` exists.
pub open spec fn has_feature(pkgs: Seq<Package>, k: int, j: int) -> bool {
    0 <= k < pkgs.len() && 0 <= j < pkgs[k].manifest.features.len()
}

/// `f` is the file of some feature `j` of some package `k`: the package's
/// name, the feature's name, and the package's directory with the
/// feature's file pushed on.
pub open spec fn file_of_some_feature(
    pkgs: Seq<Package>,
    f: (Seq<char>, Seq<char>, Seq<char>, Seq<Seq<char>>),
) -> bool {
    exists|k: int, j: int| #![trigger has_feature(pkgs, k, j)] has_feature(pkgs, k, j) && f == located_file(pkgs, k, j)
}

/// Entry `x` of the feature files is the file of some feature `j` of some
/// package `k`, in that package's directory.
pub open spec fn in_package_dir(pkgs: Seq<Package>, x: int) -> bool {
    exists|k: int, j: int|
        #![trigger has_feature(pkgs, k, j)]
        has_feature(pkgs, k, j) && all_feature_files(pkgs)[x] == located_file(pkgs, k, j)
}

/// Where the feature files lie: each one in the directory of its package
/// (its root, and its parts with the feature's file pushed on).
pub proof fn lemma_feature_files_in_package_dirs(pkgs: Seq<Package>)
    ensures
        forall|x: int|
            0 <= x < all_feature_files(pkgs).len() ==> #[trigger] in_package_dir(pkgs, x),
{
    assert forall|x: int| 0 <= x < all_feature_files(pkgs).len() implies #[trigger] in_package_dir(pkgs, x) by {
        let (k, j) = feature_file_origin(pkgs, x);
        assert(has_feature(pkgs, k, j));
    }
}

/// The package and feature that entry `x` of the feature files belongs to.
proof fn feature_file_origin(pkgs: Seq<Package>, x: int) -> (kj: (int, int))
    requires
        0 <= x < all_feature_files(pkgs).len(),
    ensures
        has_feature(pkgs, kj.0, kj.1),
        all_feature_files(pkgs)[x] == located_file(pkgs, kj.0, kj.1),
    decreases pkgs.len(),
{
    let front = pkgs.drop_last();
    let n = pkgs.len() - 1;
    let a = all_feature_files(front);
    let b = package_feature_files(pkgs.last());
    assert(pkgs.len() > 0);
    assert(all_feature_files(pkgs) == a + b);
    if x < a.len() {
        let (k, j) = feature_file_origin(front, x);
        assert(front[k] == pkgs[k]);
        assert(located_file(front, k, j) == located_file(pkgs, k, j));
        assert(all_feature_files(pkgs)[x] == a[x]);
        (k, j)
    } else {
        let j = x - a.len();
        assert(all_feature_files(pkgs)[x] == b[j]);
        assert(pkgs.last() == pkgs[n]);
        assert(b[j] == located_file(pkgs, n, j));
        (n, j)
    }
}

/// Every feature of every loaded package has its file in the list.
pub proof fn lemma_feature_files_complete(pkgs: Seq<Package>)
    ensures
        forall|k: int, j: int|
            #[trigger] has_feature(pkgs, k, j) ==> exists|x: int|
                0 <= x < all_feature_files(pkgs).len() && all_feature_files(pkgs)[x] == located_file(pkgs, k, j),
    decreases pkgs.len(),
{
    if pkgs.len() > 0 {
        let front = pkgs.drop_last();
        let n = pkgs.len() - 1;
        lemma_feature_files_complete(front);
        let a = all_feature_files(front);
        let b = package_feature_files(pkgs.last());
        assert(all_feature_files(pkgs) == a + b);
        assert forall|k: int, j: int| #[trigger] has_feature(pkgs, k, j) implies exists|x: int|
            0 <= x < all_feature_files(pkgs).len() && all_feature_files(pkgs)[x] == located_file(pkgs, k, j) by {
            if k < n {
                assert(front[k] == pkgs[k]);
                assert(has_feature(front, k, j));
                let x = choose|x: int| 0 <= x < a.len() && a[x] == located_file(front, k, j);
                assert(all_feature_files(pkgs)[x] == a[x]);
                assert(located_file(front, k, j) == located_file(pkgs, k, j));
            } else {
                assert(all_feature_files(pkgs)[a.len() + j] == b[j]);
            }
        }
    }
}

/// The file of the first feature named `name`.
pub open spec fn find_feature(fs: Seq<(String, String)>, name: Seq<char>) -> Option<Seq<char>>
    decreases fs.len(),
{
    if fs.len() == 0 {
        None
    } else if fs[0].0@ == name {
        Some(fs[0].1@)
    } else {
        find_feature(fs.drop_first(), name)
    }
}

/// The text of the first snippet for feature `feat` of package `pkg`.
pub open spec fn find_snippet(ss: Seq<Snippet>, pkg: Seq<char>, feat: Seq<char>) -> Option<Seq<char>>
    decreases ss.len(),
{
    if ss.len() == 0 {
        None
    } else if ss[0].package@ == pkg && ss[0].feature@ == feat {
        Some(ss[0].content@)
    } else {
        find_snippet(ss.drop_first(), pkg, feat)
    }
}

/// What a reference to feature `feat` of package `pkg` becomes: the text of
/// the feature's file where the package is loaded, declares the feature and
/// its file could be read; else the reference as it was written.
pub open spec fn replacement(pkgs: Seq<Package>, snippets: Seq<Snippet>, pkg: Seq<char>, feat: Seq<char>) -> Seq<char> {
    if (exists|i: int|
        0 <= i < pkgs.len() && #[trigger] pkgs[i].name@ == pkg && find_feature(
            pkgs[i].manifest.features@,
            feat,
        ) is Some) && find_snippet(snippets, pkg, feat) is Some {
        find_snippet(snippets, pkg, feat)->0
    } else {
        reference_text(pkg, feat)
    }
}

/// One round of expansion: every reference in `text` replaced at once.
pub open spec fn expand(pkgs: Seq<Package>, snippets: Seq<Snippet>, text: Seq<char>) -> Seq<char> {
    splice(
        reference_split(REFERENCE_PATTERN@, text),
        reference_captures(REFERENCE_PATTERN@, text).map_values(
            |n: (Seq<char>, Seq<char>)| replacement(pkgs, snippets, n.0, n.1),
        ),
    )
}

/// Expansion repeated until a round changes nothing, for at most `rounds`
/// rounds.
pub open spec fn resolved(pkgs: Seq<Package>, snippets: Seq<Snippet>, text: Seq<char>, rounds: nat) -> Seq<char>
    decreases rounds,
{
    if rounds == 0 {
        text
    } else {
        let next = expand(pkgs, snippets, text);
        if next == text {
            text
        } else {
            resolved(pkgs, snippets, next, (rounds - 1) as nat)
        }
    }
}

/// `Regex::split` of the `regex` crate, with the regex that `Regex::new`
/// makes of the reference pattern (a valid pattern, so `unwrap` cannot
/// fail): the pieces of `text` around the matches. Claimed: the result is
/// named by `reference_split`, a function of the pattern and the text.
#[verifier::external_body]
fn split_at_references(pattern: &str, text: &str) -> (pieces: Vec<String>)
    requires
        pattern@ == REFERENCE_PATTERN@,
    ensures
        strings_view(pieces@) == reference_split(pattern@, text@),
{
    let re = regex::Regex::new(pattern).unwrap();
    re.split(text).map(|p| p.to_string()).collect()
}

/// `Regex::captures_iter` of the `regex` crate, with the regex that
/// `Regex::new` makes of the reference pattern: groups 1 and 2 of each
/// match. Claimed: the result is named by `reference_captures`; there is
/// one piece of `Regex::split` more than there are matches (both walk the
/// same matches, and split yields the text before each match and the rest
/// after the last); and, as every match of the reference pattern is `@`,
/// group 1, `/`, group 2, the text is the pieces with the matches put back
/// between them.
#[verifier::external_body]
fn references_in(pattern: &str, text: &str) -> (names: Vec<(String, String)>)
    requires
        pattern@ == REFERENCE_PATTERN@,
    ensures
        names_view(names@) == reference_captures(pattern@, text@),
        names.len() + 1 == reference_split(pattern@, text@).len(),
        text@ == splice(
            reference_split(pattern@, text@),
            names_view(names@).map_values(|n: (Seq<char>, Seq<char>)| reference_text(n.0, n.1)),
        ),
{
    let re = regex::Regex::new(pattern).unwrap();
    re.captures_iter(text).map(|c| (c[1].to_string(), c[2].to_string())).collect()
}

fn find_feature_in(fs: &Vec<(String, String)>, name: &String) -> (r: bool)
    ensures
        r == (find_feature(fs@, name@) is Some),
{
    assert(fs@.skip(0) == fs@);
    for i in 0..fs.len()
        invariant
            find_feature(fs@, name@) == find_feature(fs@.skip(i as int), name@),
    {
        assert(fs@.skip(i as int).drop_first() == fs@.skip(i + 1));
        if fs[i].0 == *name {
            return true;
        }
    }
    assert(fs@.skip(fs.len() as int).len() == 0);
    false
}

fn find_snippet_in(ss: &Vec<Snippet>, pkg: &String, feat: &String) -> (r: Option<String>)
    ensures
        opt_view(r) == find_snippet(ss@, pkg@, feat@),
{
    assert(ss@.skip(0) == ss@);
    for i in 0..ss.len()
        invariant
            find_snippet(ss@, pkg@, feat@) == find_snippet(ss@.skip(i as int), pkg@, feat@),
    {
        assert(ss@.skip(i as int).drop_first() == ss@.skip(i + 1));
        if ss[i].package == *pkg && ss[i].feature == *feat {
            return Some(ss[i].content.clone());
        }
    }
    assert(ss@.skip(ss.len() as int).len() == 0);
    None
}

impl Resolver {
    /// The file of every feature of every loaded package, package after
    /// package, in the order of the features.
    pub fn feature_files(&self) -> (r: Vec<FeatureFile>)
        ensures
            r@.map_values(|f: FeatureFile| feature_file_view(f)) == all_feature_files(self.packages()),
            // Each file lies in the directory of its package, and every
            // feature of every package has its file in the list.
            forall|x: int|
                0 <= x < r.len() ==> file_of_some_feature(self.packages(), feature_file_view(#[trigger] r@[x])),
            forall|k: int, j: int|
                #[trigger] has_feature(self.packages(), k, j) ==> exists|x: int|
                    0 <= x < r.len() && feature_file_view(r@[x]) == located_file(self.packages(), k, j),
    {
        let ghost pkgs = self.packages@;
        let mut r: Vec<FeatureFile> = Vec::new();
        for i in 0..self.packages.len()
            invariant
                pkgs == self.packages@,
                r@.map_values(|f: FeatureFile| feature_file_view(f)) == all_feature_files(pkgs.take(i as int)),
        {
            let p = &self.packages[i];
            let ghost before = r@.map_values(|f: FeatureFile| feature_file_view(f));
            for j in 0..p.manifest.features.len()
                invariant
                    pkgs == self.packages@,
                    0 <= i < pkgs.len(),
                    *p == pkgs[i as int],
                    r@.map_values(|f: FeatureFile| feature_file_view(f)) == before + package_feature_files(*p).take(j as int),
            {
                let (feature, file) = &p.manifest.features[j];
                let mut parts = clone_strings(&p.dir.parts);
                parts.push(file.clone());
                let f = FeatureFile {
                    package: p.name.clone(),
                    feature: feature.clone(),
                    path: DirPath { root: p.dir.root.clone(), parts },
                };
                proof {
                    assert(strings_view(f.path.parts@) =~= p.dir.parts_view().push(file@));
                    assert(feature_file_view(f) == package_feature_files(*p)[j as int]);
                }
                let ghost old_r = r@;
                r.push(f);
                proof {
                    assert(r@.map_values(|f: FeatureFile| feature_file_view(f)) =~= old_r.map_values(|f: FeatureFile| feature_file_view(f)).push(feature_file_view(f)));
                    assert(package_feature_files(*p).take(j + 1) =~= package_feature_files(*p).take(j as int).push(package_feature_files(*p)[j as int]));
                    assert(r@.map_values(|f: FeatureFile| feature_file_view(f)) =~= before + package_feature_files(*p).take(j + 1));
                }
            }
            proof {
                assert(pkgs.take(i + 1).drop_last() == pkgs.take(i as int));
                assert(package_feature_files(*p).take(p.manifest.features.len() as int) == package_feature_files(*p));
            }
        }
        proof {
            assert(pkgs.take(pkgs.len() as int) == pkgs);
            lemma_feature_files_complete(pkgs);
            assert forall|x: int| 0 <= x < r.len() implies file_of_some_feature(pkgs, feature_file_view(#[trigger] r@[x])) by {
                let (k, j) = feature_file_origin(pkgs, x);
                assert(r@.map_values(|f: FeatureFile| feature_file_view(f))[x] == feature_file_view(r@[x]));
                assert(has_feature(pkgs, k, j));
            }
            assert forall|k: int, j: int| #[trigger] has_feature(pkgs, k, j) implies exists|x: int|
                0 <= x < r.len() && feature_file_view(r@[x]) == located_file(pkgs, k, j) by {
                let x = choose|x: int|
                    0 <= x < all_feature_files(pkgs).len() && all_feature_files(pkgs)[x] == located_file(pkgs, k, j);
                assert(r@.map_values(|f: FeatureFile| feature_file_view(f))[x] == feature_file_view(r@[x]));
            }
        }
        r
    }

    fn replacement_of(&self, pkg: &String, feat: &String, snippets: &Vec<Snippet>) -> (r: String)
        ensures
            r@ == replacement(self.packages(), snippets@, pkg@, feat@),
    {
        proof {
            use_type_invariant(self);
        }
        if let Some(i) = self.find_package(pkg) {
            if find_feature_in(&self.packages[i].manifest.features, feat) {
                if let Some(content) = find_snippet_in(snippets, pkg, feat) {
                    return content;
                }
            } else {
                proof {
                    assert forall|k: int|
                        0 <= k < self.packages@.len() && #[trigger] self.packages@[k].name@ == pkg@
                            implies find_feature(self.packages@[k].manifest.features@, feat@) is None by {
                        if k != i {
                            if k < i {
                                assert(self.packages@[k].name@ != self.packages@[i as int].name@);
                            } else {
                                assert(self.packages@[i as int].name@ != self.packages@[k].name@);
                            }
                        }
                    }
                }
            }
        }
        let mut r = String::from_str("@");
        r.append(pkg.as_str());
        r.append("/");
        r.append(feat.as_str());
        proof {
            reveal_strlit("@");
            reveal_strlit("/");
            assert(r@ =~= reference_text(pkg@, feat@));
        }
        r
    }

    /// Puts the pieces of a text back together with each reference
    /// between them replaced: `pieces` are the texts between the
    /// references, `names` the package and feature of each reference.
    pub fn expand_with(&self, pieces: &Vec<String>, names: &Vec<(String, String)>, snippets: &Vec<Snippet>) -> (r: String)
        requires
            pieces.len() == names.len() + 1,
        ensures
            r@ == splice(
                strings_view(pieces@),
                names_view(names@).map_values(
                    |n: (Seq<char>, Seq<char>)| replacement(self.packages(), snippets@, n.0, n.1),
                ),
            ),
    {
        let ghost fills = names_view(names@).map_values(
            |n: (Seq<char>, Seq<char>)| replacement(self.packages(), snippets@, n.0, n.1),
        );
        let ghost pv = strings_view(pieces@);
        let mut out = pieces[0].clone();
        proof {
            assert(pv.take(1).drop_last().len() == 0);
        }
        for i in 0..names.len()
            invariant
                pv == strings_view(pieces@),
                names.len() + 1 == pieces.len(),
                fills.len() == names.len(),
                fills == names_view(names@).map_values(
                    |n: (Seq<char>, Seq<char>)| replacement(self.packages(), snippets@, n.0, n.1),
                ),
                out@ == splice(pv.take(i + 1), fills.take(i as int)),
        {
            let fill = self.replacement_of(&names[i].0, &names[i].1, snippets);
            proof {
                assert(names_view(names@)[i as int] == (names[i as int].0@, names[i as int].1@));
                assert(fill@ == fills[i as int]);
            }
            out.append(fill.as_str());
            out.append(pieces[i + 1].as_str());
            proof {
                assert(pv.take(i + 2).drop_last() =~= pv.take(i + 1));
                assert(fills.take(i + 1).drop_last() =~= fills.take(i as int));
                assert(out@ =~= splice(pv.take(i + 2), fills.take(i + 1)));
            }
        }
        proof {
            assert(pv.take(pv.len() as int) == pv);
            assert(fills.take(fills.len() as int) == fills);
        }
        out
    }

    fn expand_once(&self, text: &String, snippets: &Vec<Snippet>) -> (r: String)
        ensures
            r@ == expand(self.packages(), snippets@, text@),
            reference_captures(REFERENCE_PATTERN@, text@).len() == 0 ==> r@ == text@,
            !text@.contains('@') ==> r@ == text@,
    {
        let pieces = split_at_references(REFERENCE_PATTERN, text.as_str());
        let names = references_in(REFERENCE_PATTERN, text.as_str());
        proof {
            if names.len() > 0 {
                lemma_splice_shows_fill(
                    reference_split(REFERENCE_PATTERN@, text@),
                    names_view(names@).map_values(|n: (Seq<char>, Seq<char>)| reference_text(n.0, n.1)),
                );
            }
        }
        self.expand_with(&pieces, &names, snippets)
    }

    /// Replaces every reference `@<package>/<feature>` in `source` by the
    /// text of that feature's file, round after round (snippets may hold
    /// references too), until a round changes nothing or 100 rounds have
    /// run. `snippets` holds the text of the feature files that could be
    /// read. A text without references comes back unchanged.
    pub fn resolve(&self, source: &str, snippets: &Vec<Snippet>) -> (result: String)
        ensures
            result@ == resolved(self.packages(), snippets@, source@, 100),
            reference_captures(REFERENCE_PATTERN@, source@).len() == 0 ==> result@ == source@,
            !source@.contains('@') ==> result@ == source@,
    {
        let ghost pkgs = self.packages();
        let mut result = String::from_str(source);
        let mut round: usize = 0;
        while round < 100
            invariant
                pkgs == self.packages(),
                round <= 100,
                resolved(pkgs, snippets@, source@, 100) == resolved(
                    pkgs,
                    snippets@,
                    result@,
                    (100 - round) as nat,
                ),
                (reference_captures(REFERENCE_PATTERN@, source@).len() == 0 || !source@.contains('@'))
                    ==> round == 0 && result@ == source@,
            ensures
                result@ == resolved(pkgs, snippets@, source@, 100),
                reference_captures(REFERENCE_PATTERN@, source@).len() == 0 ==> result@ == source@,
                !source@.contains('@') ==> result@ == source@,
            decreases 100 - round,
        {
            let new_result = self.expand_once(&result, snippets);
            if new_result == result {
                break;
            }
            result = new_result;
            round += 1;
        }
        result
    }
}

} // verus!
