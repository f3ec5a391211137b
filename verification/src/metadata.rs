//! The part of `cargo metadata --format-version 1` that planning needs.

use vstd::prelude::*;
use crate::text;

verus! {

/// The packages of a workspace and how they were resolved.
#[derive(Debug)]
pub struct Metadata {
    pub packages: Vec<Package>,
    pub workspace_members: Vec<String>,
    pub resolve: Resolve,
    pub workspace_root: String,
}

/// A package.
#[derive(Debug, Clone)]
pub struct Package {
    pub id: String,
    pub name: String,
    pub version: String,
}

impl View for Package {
    type V = (Seq<char>, Seq<char>, Seq<char>);

    open spec fn view(&self) -> (Seq<char>, Seq<char>, Seq<char>) {
        (self.id@, self.name@, self.version@)
    }
}

/// Package `k` is the first with this id.
pub open spec fn is_package_of(packages: Seq<Package>, id: Seq<char>, k: int) -> bool {
    &&& 0 <= k < packages.len()
    &&& packages[k].id@ == id
    &&& forall|j: int| 0 <= j < k ==> (#[trigger] packages[j]).id@ != id
}

/// Some package has this id.
pub open spec fn has_package(packages: Seq<Package>, id: Seq<char>) -> bool {
    exists|k: int| 0 <= k < packages.len() && (#[trigger] packages[k]).id@ == id
}

/// Finds the first package with this id.
pub fn find_package(packages: &Vec<Package>, id: &str) -> (r: Option<usize>)
    ensures
        match r {
            Some(k) => is_package_of(packages@, id@, k as int),
            None => !has_package(packages@, id@),
        },
{
    let mut i: usize = 0;
    while i < packages.len()
        invariant
            i <= packages@.len(),
            forall|j: int| 0 <= j < i ==> (#[trigger] packages@[j]).id@ != id@,
        decreases packages@.len() - i,
    {
        if text::same(packages[i].id.as_str(), id) {
            return Some(i);
        }
        i += 1;
    }
    None
}

/// The last package with this id.
pub open spec fn package_for(packages: Seq<Package>, id: Seq<char>) -> Option<Package>
    decreases packages.len(),
{
    if packages.len() == 0 {
        None
    } else if packages.last().id@ == id {
        Some(packages.last())
    } else {
        package_for(packages.drop_last(), id)
    }
}

/// Finds the last package with this id.
pub fn lookup_package<'a>(packages: &'a Vec<Package>, id: &str) -> (r: Option<&'a Package>)
    ensures
        match r {
            Some(p) => package_for(packages@, id@) == Some(*p),
            None => package_for(packages@, id@) is None,
        },
{
    let mut i: usize = packages.len();
    assert(packages@.take(i as int) =~= packages@);
    while i > 0
        invariant
            i <= packages@.len(),
            package_for(packages@, id@) == package_for(packages@.take(i as int), id@),
        decreases i,
    {
        let ghost upto = packages@.take(i as int);
        i -= 1;
        assert(upto.last() == packages@[i as int]);
        assert(upto.drop_last() =~= packages@.take(i as int));
        if text::same(packages[i].id.as_str(), id) {
            return Some(&packages[i]);
        }
    }
    None
}

impl Metadata {
    /// The id is that of a workspace member.
    pub open spec fn has_member(self, id: Seq<char>) -> bool {
        text::texts(self.workspace_members@).contains(id)
    }

    /// Whether the id is that of a workspace member.
    pub fn is_member(&self, id: &str) -> (r: bool)
        ensures
            r == self.has_member(id@),
    {
        let ghost all = text::texts(self.workspace_members@);
        let mut i: usize = 0;
        while i < self.workspace_members.len()
            invariant
                i <= self.workspace_members@.len(),
                all == text::texts(self.workspace_members@),
                forall|j: int| 0 <= j < i ==> all[j] != id@,
            decreases self.workspace_members@.len() - i,
        {
            if text::same(self.workspace_members[i].as_str(), id) {
                assert(all[i as int] == id@);
                return true;
            }
            i += 1;
        }
        false
    }
}

impl Package {
    /// Another package with the same id, name and version.
    pub fn copied(&self) -> (r: Package)
        ensures
            r@ == self@,
    {
        Package {
            id: self.id.as_str().to_owned(),
            name: self.name.as_str().to_owned(),
            version: self.version.as_str().to_owned(),
        }
    }
}

/// The resolved dependency graph.
#[derive(Debug)]
pub struct Resolve {
    pub nodes: Vec<ResolveNode>,
    pub root: Option<String>,
}

/// A package with its resolved dependencies.
#[derive(Debug)]
pub struct ResolveNode {
    pub id: String,
    /// Flat list of all dependency ids, with those for tests and build scripts.
    pub dependencies: Vec<String>,
    /// The dependencies with what they are for.
    pub deps: Vec<DepRef>,
    pub features: Vec<String>,
}

/// A resolved dependency and what it is for.
#[derive(Debug)]
pub struct DepRef {
    /// Package id of the dependency.
    pub pkg: String,
    /// Crate name as it appears in source code.
    pub name: String,
    /// What the dependency is for.
    pub dep_kinds: Vec<DepKind>,
}

/// One use of a dependency.
#[derive(Debug)]
pub struct DepKind {
    /// `None` = normal, `"dev"` = for tests, `"build"` = for the build script.
    pub kind: Option<String>,
    /// Target platform filter, if any.
    pub target: Option<String>,
}

/// The use is neither for tests nor for the build script.
pub open spec fn is_normal(kind: DepKind) -> bool {
    match kind.kind {
        Some(k) => k@ != "dev"@ && k@ != "build"@,
        None => true,
    }
}

/// One of the dependency's uses is normal.
pub open spec fn is_compiled_in(dep: DepRef) -> bool {
    exists|k: int| 0 <= k < dep.dep_kinds@.len() && is_normal(#[trigger] dep.dep_kinds@[k])
}

/// The ids of the dependencies with a normal use, in order.
pub open spec fn normal_ids(deps: Seq<DepRef>) -> Seq<Seq<char>>
    decreases deps.len(),
{
    if deps.len() == 0 {
        Seq::empty()
    } else if is_compiled_in(deps.last()) {
        normal_ids(deps.drop_last()).push(deps.last().pkg@)
    } else {
        normal_ids(deps.drop_last())
    }
}

impl ResolveNode {
    /// The ids of the node's compile dependencies. A node that does not say what its
    /// dependencies are for is taken to need all of them.
    pub open spec fn compile_ids(self) -> Seq<Seq<char>> {
        if self.deps@.len() == 0 {
            text::texts(self.dependencies@)
        } else {
            normal_ids(self.deps@)
        }
    }

    /// Returns only the normal compile dependency ids. Dependencies for tests are
    /// left out because they only apply to tests and benchmarks, and would create
    /// false edges and cycles in the build graph; so are those of build scripts.
    pub fn compile_deps(&self) -> (r: Vec<&str>)
        ensures
            text::borrowed(r@) == self.compile_ids(),
    {
        let mut r: Vec<&str> = Vec::new();
        let mut i: usize = 0;
        if self.deps.len() == 0 {
            while i < self.dependencies.len()
                invariant
                    i <= self.dependencies@.len(),
                    text::borrowed(r@) == text::texts(self.dependencies@).take(i as int),
                decreases self.dependencies@.len() - i,
            {
                let ghost before = text::borrowed(r@);
                r.push(self.dependencies[i].as_str());
                proof {
                    let all = text::texts(self.dependencies@);
                    assert(text::borrowed(r@) =~= before.push(all[i as int]));
                    assert(all.take(i + 1) =~= all.take(i as int).push(all[i as int]));
                }
                i += 1;
            }
            assert(text::texts(self.dependencies@).take(i as int) =~= text::texts(
                self.dependencies@,
            ));
            return r;
        }
        assert(text::borrowed(r@) =~= normal_ids(self.deps@.take(0)));
        while i < self.deps.len()
            invariant
                i <= self.deps@.len(),
                text::borrowed(r@) == normal_ids(self.deps@.take(i as int)),
            decreases self.deps@.len() - i,
        {
            let ghost before = text::borrowed(r@);
            let ghost upto = self.deps@.take(i + 1);
            assert(upto.drop_last() =~= self.deps@.take(i as int));
            if self.deps[i].compiled_in() {
                r.push(self.deps[i].pkg.as_str());
                assert(text::borrowed(r@) =~= before.push(upto.last().pkg@));
            }
            i += 1;
        }
        assert(self.deps@.take(i as int) =~= self.deps@);
        r
    }
}

impl DepRef {
    /// Whether one of the dependency's uses is normal.
    fn compiled_in(&self) -> (r: bool)
        ensures
            r == is_compiled_in(*self),
    {
        let mut k: usize = 0;
        while k < self.dep_kinds.len()
            invariant
                k <= self.dep_kinds@.len(),
                forall|j: int| 0 <= j < k ==> !is_normal(#[trigger] self.dep_kinds@[j]),
            decreases self.dep_kinds@.len() - k,
        {
            let normal = match &self.dep_kinds[k].kind {
                Some(kind) => !text::same(kind.as_str(), "dev") && !text::same(
                    kind.as_str(),
                    "build",
                ),
                None => true,
            };
            assert(normal == is_normal(self.dep_kinds@[k as int]));
            if normal {
                return true;
            }
            k += 1;
        }
        false
    }
}

/// A package that a node needs only for tests or its build script is none of its
/// compile dependencies.
pub proof fn law_test_and_build_dependencies_are_left_out(node: ResolveNode, id: Seq<char>)
    requires
        node.deps@.len() > 0,
        forall|k: int|
            0 <= k < node.deps@.len() && (#[trigger] node.deps@[k]).pkg@ == id ==> !is_compiled_in(
                node.deps@[k],
            ),
    ensures
        !node.compile_ids().contains(id),
{
    lemma_normal_ids(node.deps@, id);
}

/// A package with a normal use is a compile dependency.
pub proof fn law_normal_dependencies_are_kept(node: ResolveNode, k: int)
    requires
        0 <= k < node.deps@.len(),
        is_compiled_in(node.deps@[k]),
    ensures
        node.compile_ids().contains(node.deps@[k].pkg@),
{
    lemma_normal_ids(node.deps@, node.deps@[k].pkg@);
}

proof fn lemma_normal_ids(deps: Seq<DepRef>, id: Seq<char>)
    ensures
        normal_ids(deps).contains(id) <==> exists|k: int|
            0 <= k < deps.len() && (#[trigger] deps[k]).pkg@ == id && is_compiled_in(deps[k]),
    decreases deps.len(),
{
    if deps.len() > 0 {
        let front = deps.drop_last();
        let ids = normal_ids(front);
        lemma_normal_ids(front, id);
        if ids.contains(id) {
            let k = choose|k: int|
                0 <= k < front.len() && (#[trigger] front[k]).pkg@ == id && is_compiled_in(
                    front[k],
                );
            assert(deps[k].pkg@ == id);
            let i = choose|i: int| 0 <= i < ids.len() && ids[i] == id;
            assert(normal_ids(deps)[i] == id);
        }
        if is_compiled_in(deps.last()) {
            assert(deps[deps.len() - 1] == deps.last());
            assert(normal_ids(deps)[ids.len() as int] == deps.last().pkg@);
        }
        if exists|k: int|
            0 <= k < deps.len() && (#[trigger] deps[k]).pkg@ == id && is_compiled_in(deps[k]) {
            let k = choose|k: int|
                0 <= k < deps.len() && (#[trigger] deps[k]).pkg@ == id && is_compiled_in(deps[k]);
            if k < front.len() {
                assert(front[k].pkg@ == id);
            }
        }
        if normal_ids(deps).contains(id) && !ids.contains(id) {
            let i = choose|i: int| 0 <= i < normal_ids(deps).len() && normal_ids(deps)[i] == id;
            if i < ids.len() {
                assert(ids[i] == id);
            }
        }
    }
}

} // verus!
