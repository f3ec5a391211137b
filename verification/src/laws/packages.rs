//! Packages: which dependencies count, and in which phase a package stands.

use vstd::prelude::*;
use crate::metadata::{self, DepKind, DepRef, Metadata, Package, ResolveNode};
use crate::{graph, layers, order, text};

verus! {

/// A dependency with a use of no particular kind is a compile dependency, whatever its
/// name is and whatever target the use is for.
pub proof fn law_normal_uses_count_on_every_target(node: ResolveNode, k: int, u: int)
    requires
        0 <= k < node.deps@.len(),
        0 <= u < node.deps@[k].dep_kinds@.len(),
        node.deps@[k].dep_kinds@[u].kind is None,
    ensures
        node.compile_ids().contains(node.deps@[k].pkg@),
{
    assert(metadata::is_normal(node.deps@[k].dep_kinds@[u]));
    metadata::law_normal_dependencies_are_kept(node, k);
}

/// The compile dependencies are the dependencies but those whose every use is for tests
/// or for the build script, in their order.
pub proof fn law_compile_dependencies(node: ResolveNode)
    requires
        node.deps@.len() > 0,
    ensures
        node.compile_ids() == node.deps@.filter(
            |d: DepRef|
                !forall|u: int|
                    0 <= u < d.dep_kinds@.len() ==> match (#[trigger] d.dep_kinds@[u]).kind {
                        Some(k) => k@ == "dev"@ || k@ == "build"@,
                        None => false,
                    },
        ).map_values(|d: DepRef| d.pkg@),
{
    lemma_normal_ids(node.deps@);
}

proof fn lemma_normal_ids(deps: Seq<DepRef>)
    ensures
        metadata::normal_ids(deps) == deps.filter(
            |d: DepRef|
                !forall|u: int|
                    0 <= u < d.dep_kinds@.len() ==> match (#[trigger] d.dep_kinds@[u]).kind {
                        Some(k) => k@ == "dev"@ || k@ == "build"@,
                        None => false,
                    },
        ).map_values(|d: DepRef| d.pkg@),
    decreases deps.len(),
{
    reveal(Seq::filter);
    let kept = |d: DepRef|
        !forall|u: int|
            0 <= u < d.dep_kinds@.len() ==> match (#[trigger] d.dep_kinds@[u]).kind {
                Some(k) => k@ == "dev"@ || k@ == "build"@,
                None => false,
            };
    let id = |d: DepRef| d.pkg@;
    if deps.len() > 0 {
        lemma_normal_ids(deps.drop_last());
        let d = deps.last();
        if kept(d) {
            let u = choose|u: int|
                0 <= u < d.dep_kinds@.len() && !(match (#[trigger] d.dep_kinds@[u]).kind {
                    Some(k) => k@ == "dev"@ || k@ == "build"@,
                    None => false,
                });
            assert(metadata::is_normal(d.dep_kinds@[u]));
            assert(metadata::is_compiled_in(d));
        }
        if metadata::is_compiled_in(d) {
            let u = choose|u: int|
                0 <= u < d.dep_kinds@.len() && metadata::is_normal(#[trigger] d.dep_kinds@[u]);
            assert(kept(d));
        }
        assert(metadata::normal_ids(deps) =~= deps.filter(kept).map_values(id));
    } else {
        assert(metadata::normal_ids(deps) =~= deps.filter(kept).map_values(id));
    }
}

/// The uses agree in their kinds; their targets may differ.
pub open spec fn same_kinds(a: Seq<DepKind>, b: Seq<DepKind>) -> bool {
    a.len() == b.len() && forall|u: int|
        0 <= u < a.len() ==> text::optional((#[trigger] a[u]).kind) == text::optional(b[u].kind)
}

/// Neither the targets of a dependency's uses nor the name that its crate has in the
/// source decide whether it counts.
pub proof fn law_targets_decide_nothing(a: ResolveNode, b: ResolveNode)
    requires
        a.deps@.len() == b.deps@.len(),
        a.deps@.len() > 0,
        forall|k: int|
            0 <= k < a.deps@.len() ==> (#[trigger] a.deps@[k]).pkg@ == b.deps@[k].pkg@
                && same_kinds(a.deps@[k].dep_kinds@, b.deps@[k].dep_kinds@),
    ensures
        a.compile_ids() == b.compile_ids(),
{
    lemma_same_ids(a.deps@, b.deps@);
}

proof fn lemma_same_ids(a: Seq<DepRef>, b: Seq<DepRef>)
    requires
        a.len() == b.len(),
        forall|k: int|
            0 <= k < a.len() ==> (#[trigger] a[k]).pkg@ == b[k].pkg@ && same_kinds(
                a[k].dep_kinds@,
                b[k].dep_kinds@,
            ),
    ensures
        metadata::normal_ids(a) == metadata::normal_ids(b),
    decreases a.len(),
{
    if a.len() > 0 {
        let x = a.drop_last();
        let y = b.drop_last();
        assert forall|k: int| 0 <= k < x.len() implies (#[trigger] x[k]).pkg@ == y[k].pkg@
            && same_kinds(x[k].dep_kinds@, y[k].dep_kinds@) by {
            assert(x[k] == a[k]);
        }
        lemma_same_ids(x, y);
        let d = a[a.len() - 1];
        let e = b[b.len() - 1];
        assert(d.pkg@ == e.pkg@);
        assert forall|u: int| 0 <= u < d.dep_kinds@.len() implies metadata::is_normal(
            #[trigger] d.dep_kinds@[u],
        ) == metadata::is_normal(e.dep_kinds@[u]) by {}
        if metadata::is_compiled_in(d) {
            let u = choose|u: int|
                0 <= u < d.dep_kinds@.len() && metadata::is_normal(#[trigger] d.dep_kinds@[u]);
            assert(metadata::is_normal(e.dep_kinds@[u]));
        }
        if metadata::is_compiled_in(e) {
            let u = choose|u: int|
                0 <= u < e.dep_kinds@.len() && metadata::is_normal(#[trigger] e.dep_kinds@[u]);
            assert(metadata::is_normal(d.dep_kinds@[u]));
        }
    }
}

/// A node that does not say what its dependencies are for needs all of them.
pub proof fn law_untold_dependencies_all_count(node: ResolveNode)
    requires
        node.deps@.len() == 0,
    ensures
        node.compile_ids().len() == node.dependencies@.len(),
        forall|k: int|
            0 <= k < node.dependencies@.len() ==> node.compile_ids()[k] == (
            #[trigger] node.dependencies@[k])@,
{
}

/// Every dependency of every node is a link, and nothing else is.
proof fn lemma_links(nodes: Seq<ResolveNode>, k: int, d: Seq<char>, id: Seq<char>)
    requires
        0 <= k <= nodes.len(),
    ensures
        graph::links(nodes, k).contains((d, id)) <==> exists|j: int|
            0 <= j < k && (#[trigger] nodes[j]).id@ == id && nodes[j].compile_ids().contains(d),
    decreases k,
{
    let all = graph::links(nodes, k);
    if k > 0 {
        let front = graph::links(nodes, k - 1);
        let node = nodes[k - 1];
        let own = graph::node_links(node);
        lemma_links(nodes, k - 1, d, id);
        if all.contains((d, id)) {
            let x = choose|x: int| 0 <= x < all.len() && all[x] == (d, id);
            if x < front.len() {
                assert(front[x] == (d, id));
            } else {
                assert(own[x - front.len()] == (d, id));
                assert(node.compile_ids()[x - front.len()] == d);
            }
        }
        if front.contains((d, id)) {
            let x = choose|x: int| 0 <= x < front.len() && front[x] == (d, id);
            assert(all[x] == (d, id));
        }
        if node.id@ == id && node.compile_ids().contains(d) {
            let y = choose|y: int| 0 <= y < node.compile_ids().len() && node.compile_ids()[y] == d;
            assert(own[y] == (d, id));
            assert(all[front.len() + y] == (d, id));
        }
    }
}

/// The graph can be built if and only if every compile dependency of every node is itself
/// a node.
pub proof fn law_known_dependencies(meta: Metadata)
    ensures
        graph::all_known(meta) <==> forall|j: int, c: int|
            0 <= j < meta.resolve.nodes@.len() && 0 <= c
                < meta.resolve.nodes@[j].compile_ids().len() ==> exists|i: int|
                0 <= i < meta.resolve.nodes@.len() && (#[trigger] meta.resolve.nodes@[i]).id@
                    == #[trigger] meta.resolve.nodes@[j].compile_ids()[c],
{
    let nodes = meta.resolve.nodes@;
    let all = graph::all_links(meta);
    let ids = graph::resolved_ids(meta);
    if graph::all_known(meta) {
        assert forall|j: int, c: int|
            0 <= j < nodes.len() && 0 <= c < nodes[j].compile_ids().len() implies exists|i: int|
            0 <= i < nodes.len() && (#[trigger] nodes[i]).id@
                == #[trigger] nodes[j].compile_ids()[c] by {
            let d = nodes[j].compile_ids()[c];
            lemma_links(nodes, nodes.len() as int, d, nodes[j].id@);
            assert(nodes[j].compile_ids().contains(d));
            let x = choose|x: int| 0 <= x < all.len() && all[x] == (d, nodes[j].id@);
            assert(ids.contains(all[x].0));
            let i = choose|i: int| 0 <= i < ids.len() && ids[i] == d;
            assert(nodes[i].id@ == d);
        }
    }
    if forall|j: int, c: int|
        0 <= j < nodes.len() && 0 <= c < nodes[j].compile_ids().len() ==> exists|i: int|
            0 <= i < nodes.len() && (#[trigger] nodes[i]).id@
                == #[trigger] nodes[j].compile_ids()[c] {
        assert forall|x: int| 0 <= x < all.len() implies ids.contains((#[trigger] all[x]).0) by {
            let (d, id) = all[x];
            assert(all.contains((d, id)));
            lemma_links(nodes, nodes.len() as int, d, id);
            let j = choose|j: int|
                0 <= j < nodes.len() && (#[trigger] nodes[j]).id@ == id
                    && nodes[j].compile_ids().contains(d);
            let c = choose|c: int|
                0 <= c < nodes[j].compile_ids().len() && nodes[j].compile_ids()[c] == d;
            assert(nodes[j].compile_ids()[c] == d);
            let i = choose|i: int| 0 <= i < nodes.len() && (#[trigger] nodes[i]).id@ == d;
            assert(ids[i] == d);
        }
    }
}

/// No two nodes have the same id.
pub open spec fn ids_differ(meta: Metadata) -> bool {
    forall|i: int, j: int|
        0 <= i < j < meta.resolve.nodes@.len() ==> (#[trigger] meta.resolve.nodes@[i]).id@ != (
        #[trigger] meta.resolve.nodes@[j]).id@
}

proof fn lemma_place(meta: Metadata, i: int)
    requires
        ids_differ(meta),
        0 <= i < meta.resolve.nodes@.len(),
    ensures
        graph::last_place(graph::resolved_ids(meta), meta.resolve.nodes@[i].id@) == i,
{
    let ids = graph::resolved_ids(meta);
    let id = meta.resolve.nodes@[i].id@;
    assert(ids[i] == id);
    graph::lemma_last_place(ids, id);
    let k = graph::last_place(ids, id);
    assert(ids[k] == meta.resolve.nodes@[k].id@);
}

/// A node waits for exactly the nodes that are among its compile dependencies.
pub proof fn law_nodes_wait_for_their_dependencies(meta: Metadata, i: int, j: int)
    requires
        ids_differ(meta),
        graph::all_known(meta),
        meta.resolve.nodes@.len() <= usize::MAX,
        0 <= i < meta.resolve.nodes@.len(),
        0 <= j < meta.resolve.nodes@.len(),
    ensures
        graph::meta_deps(meta)[j].contains(i) <==> meta.resolve.nodes@[j].compile_ids().contains(
            meta.resolve.nodes@[i].id@,
        ),
{
    let nodes = meta.resolve.nodes@;
    let all = graph::all_links(meta);
    let edges = graph::meta_edges(meta);
    let ids = graph::resolved_ids(meta);
    let d = nodes[i].id@;
    let id = nodes[j].id@;
    lemma_links(nodes, nodes.len() as int, d, id);
    lemma_place(meta, i);
    lemma_place(meta, j);
    lemma_targets(edges, i as usize, j as usize);
    assert(graph::meta_deps(meta)[j].contains(i) <==> graph::targets(edges, i as usize).contains(
        j as usize,
    ));
    if nodes[j].compile_ids().contains(d) {
        assert(all.contains((d, id)));
        let x = choose|x: int| 0 <= x < all.len() && all[x] == (d, id);
        assert(edges[x] == (i as usize, j as usize));
    }
    if edges.contains((i as usize, j as usize)) {
        let x = choose|x: int| 0 <= x < edges.len() && edges[x] == (i as usize, j as usize);
        let (a, b) = all[x];
        assert(ids.contains(all[x].0));
        graph::lemma_last_place(ids, a);
        assert(all.contains((a, b)));
        lemma_links(nodes, nodes.len() as int, a, b);
        let t = choose|t: int|
            0 <= t < nodes.len() && (#[trigger] nodes[t]).id@ == b
                && nodes[t].compile_ids().contains(a);
        lemma_place(meta, t);
        assert(ids[graph::last_place(ids, a)] == a);
        assert(ids[i] == d);
        assert(a == d);
        assert(t == j);
    }
}

proof fn lemma_targets(edges: Seq<(usize, usize)>, a: usize, b: usize)
    ensures
        graph::targets(edges, a).contains(b) <==> edges.contains((a, b)),
    decreases edges.len(),
{
    if edges.len() > 0 {
        let front = edges.drop_last();
        let rest = graph::targets(front, a);
        let now = graph::targets(edges, a);
        lemma_targets(front, a, b);
        assert(edges[edges.len() - 1] == edges.last());
        if rest.contains(b) {
            let t = choose|t: int| 0 <= t < rest.len() && rest[t] == b;
            assert(now[now.len() - rest.len() + t] == b);
        }
        if edges.last() == (a, b) {
            assert(now[0] == b);
        }
        if now.contains(b) {
            let t = choose|t: int| 0 <= t < now.len() && now[t] == b;
            if now.len() > rest.len() {
                if t > 0 {
                    assert(rest[t - 1] == b);
                }
            }
        }
        if front.contains((a, b)) {
            let x = choose|x: int| 0 <= x < front.len() && front[x] == (a, b);
            assert(edges[x] == (a, b));
        }
        if edges.contains((a, b)) && edges.last() != (a, b) {
            let x = choose|x: int| 0 <= x < edges.len() && edges[x] == (a, b);
            assert(front[x] == (a, b));
        }
    }
}

/// A package that is a dependency of another, with a use of no particular kind, compiles
/// in an earlier phase, whatever target the use is for.
pub proof fn law_packages_compile_behind_their_dependencies(
    meta: Metadata,
    ph: Seq<Seq<usize>>,
    i: int,
    j: int,
    k: int,
    u: int,
    q: int,
)
    requires
        ids_differ(meta),
        graph::all_known(meta),
        meta.resolve.nodes@.len() <= usize::MAX,
        layers::is_layering(graph::meta_deps(meta), ph),
        0 <= i < meta.resolve.nodes@.len(),
        0 <= j < meta.resolve.nodes@.len(),
        0 <= k < meta.resolve.nodes@[j].deps@.len(),
        meta.resolve.nodes@[j].deps@[k].pkg@ == meta.resolve.nodes@[i].id@,
        0 <= u < meta.resolve.nodes@[j].deps@[k].dep_kinds@.len(),
        meta.resolve.nodes@[j].deps@[k].dep_kinds@[u].kind is None,
        0 <= q < ph.len(),
        ph[q].contains(j as usize),
    ensures
        exists|p: int| 0 <= p < q && #[trigger] ph[p].contains(i as usize),
{
    law_normal_uses_count_on_every_target(meta.resolve.nodes@[j], k, u);
    law_nodes_wait_for_their_dependencies(meta, i, j);
    let deps = graph::meta_deps(meta);
    assert(layers::closed(deps));
    layers::law_dependencies_come_earlier(deps, ph, q, j as usize, i);
}

/// A package whose dependencies are only for tests or for its build script compiles in
/// the first phase.
pub proof fn law_other_dependencies_hold_nothing_back(
    meta: Metadata,
    ph: Seq<Seq<usize>>,
    j: int,
)
    requires
        ids_differ(meta),
        graph::all_known(meta),
        meta.resolve.nodes@.len() <= usize::MAX,
        layers::is_layering(graph::meta_deps(meta), ph),
        ph.len() > 0,
        0 <= j < meta.resolve.nodes@.len(),
        meta.resolve.nodes@[j].deps@.len() > 0,
        forall|k: int, u: int|
            0 <= k < meta.resolve.nodes@[j].deps@.len() && 0 <= u
                < meta.resolve.nodes@[j].deps@[k].dep_kinds@.len() ==> match (
            #[trigger] meta.resolve.nodes@[j].deps@[k].dep_kinds@[u]).kind {
                Some(kind) => kind@ == "dev"@ || kind@ == "build"@,
                None => false,
            },
    ensures
        ph[0].contains(j as usize),
{
    let node = meta.resolve.nodes@[j];
    let deps = graph::meta_deps(meta);
    assert forall|i: int| !deps[j].contains(i) by {
        if deps[j].contains(i) {
            law_nodes_wait_for_their_dependencies(meta, i, j);
            let id = meta.resolve.nodes@[i].id@;
            assert forall|k: int|
                0 <= k < node.deps@.len() && (#[trigger] node.deps@[k]).pkg@
                    == id implies !metadata::is_compiled_in(node.deps@[k]) by {
                assert forall|u: int|
                    0 <= u < node.deps@[k].dep_kinds@.len() implies !metadata::is_normal(
                    #[trigger] node.deps@[k].dep_kinds@[u],
                ) by {}
            }
            metadata::law_test_and_build_dependencies_are_left_out(node, id);
        }
    }
    assert(deps[j] =~= Set::<int>::empty());
    layers::law_first_phase_has_no_dependencies(deps, ph, j as usize);
}

/// The nodes of a phase in the order in which their packages are listed.
proof fn lemma_listing(meta: Metadata, nodes: Seq<usize>, packages: Seq<Package>) -> (r: (
    Seq<Seq<Seq<char>>>,
    Seq<usize>,
))
    requires
        graph::lists_packages(meta, nodes, packages),
    ensures
        graph::names_by_node(meta, r.0),
        order::stably_sorted(r.0, nodes, r.1),
        packages.len() == r.1.len(),
        forall|i: int, k: int|
            0 <= i < r.1.len() && #[trigger] metadata::is_package_of(
                meta.packages@,
                graph::resolved_ids(meta)[r.1[i] as int],
                k,
            ) ==> #[trigger] packages[i]@ == meta.packages@[k]@,
{
    choose|keys: Seq<Seq<Seq<char>>>, ys: Seq<usize>|
        graph::names_by_node(meta, keys) && #[trigger] order::stably_sorted(keys, nodes, ys)
            && packages.len() == ys.len() && forall|i: int, k: int|
            0 <= i < ys.len() && #[trigger] metadata::is_package_of(
                meta.packages@,
                graph::resolved_ids(meta)[ys[i] as int],
                k,
            ) ==> #[trigger] packages[i]@ == meta.packages@[k]@
}

proof fn lemma_listed_package(
    meta: Metadata,
    nodes: Seq<usize>,
    packages: Seq<Package>,
    keys: Seq<Seq<Seq<char>>>,
    ys: Seq<usize>,
    y: int,
) -> (k: int)
    requires
        graph::packages_known(meta),
        forall|x: int| 0 <= x < nodes.len() ==> #[trigger] nodes[x] < meta.resolve.nodes@.len(),
        graph::names_by_node(meta, keys),
        order::stably_sorted(keys, nodes, ys),
        packages.len() == ys.len(),
        forall|i: int, k: int|
            0 <= i < ys.len() && #[trigger] metadata::is_package_of(
                meta.packages@,
                graph::resolved_ids(meta)[ys[i] as int],
                k,
            ) ==> #[trigger] packages[i]@ == meta.packages@[k]@,
        0 <= y < packages.len(),
    ensures
        nodes.contains(ys[y]),
        packages[y].id@ == meta.resolve.nodes@[ys[y] as int].id@,
        keys[ys[y] as int] == seq![packages[y].name@],
        0 <= k < meta.packages@.len(),
        packages[y]@ == meta.packages@[k]@,
{
    let ids = graph::resolved_ids(meta);
    let v = ys[y] as int;
    assert(ys.contains(ys[y]));
    let x = choose|x: int| 0 <= x < nodes.len() && nodes[x] == ys[y];
    assert(nodes[x] < meta.resolve.nodes@.len());
    assert(metadata::has_package(meta.packages@, ids[v]));
    let k = lemma_first_package(meta.packages@, ids[v]);
    assert(metadata::is_package_of(meta.packages@, ids[ys[y] as int], k));
    assert(packages[y]@ == meta.packages@[k]@);
    assert(keys[v] == seq![meta.packages@[k].name@]);
    k
}

/// A phase lists as many packages as it has nodes, among them the package of each node.
pub proof fn law_phases_list_their_packages(
    meta: Metadata,
    nodes: Seq<usize>,
    packages: Seq<Package>,
    x: int,
)
    requires
        graph::lists_packages(meta, nodes, packages),
        graph::packages_known(meta),
        forall|x: int| 0 <= x < nodes.len() ==> #[trigger] nodes[x] < meta.resolve.nodes@.len(),
        0 <= x < nodes.len(),
    ensures
        packages.len() == nodes.len(),
        exists|y: int|
            0 <= y < packages.len() && (#[trigger] packages[y]).id@
                == meta.resolve.nodes@[nodes[x] as int].id@,
{
    let (keys, ys) = lemma_listing(meta, nodes, packages);
    assert(nodes.contains(nodes[x]));
    let y = choose|y: int| 0 <= y < ys.len() && ys[y] == nodes[x];
    let k = lemma_listed_package(meta, nodes, packages, keys, ys, y);
}

/// A phase lists the packages of its nodes only, as they are known.
pub proof fn law_phases_list_no_other_packages(
    meta: Metadata,
    nodes: Seq<usize>,
    packages: Seq<Package>,
    y: int,
)
    requires
        graph::lists_packages(meta, nodes, packages),
        graph::packages_known(meta),
        forall|x: int| 0 <= x < nodes.len() ==> #[trigger] nodes[x] < meta.resolve.nodes@.len(),
        0 <= y < packages.len(),
    ensures
        exists|x: int|
            0 <= x < nodes.len() && packages[y].id@
                == meta.resolve.nodes@[#[trigger] nodes[x] as int].id@,
        exists|k: int|
            0 <= k < meta.packages@.len() && (#[trigger] meta.packages@[k])@ == packages[y]@,
{
    let (keys, ys) = lemma_listing(meta, nodes, packages);
    let k = lemma_listed_package(meta, nodes, packages, keys, ys, y);
    assert(meta.packages@[k]@ == packages[y]@);
    let x = choose|x: int| 0 <= x < nodes.len() && nodes[x] == ys[y];
    assert(nodes[x] == ys[y]);
}

/// A phase lists its packages in the order of their names.
pub proof fn law_phases_list_packages_by_name(
    meta: Metadata,
    nodes: Seq<usize>,
    packages: Seq<Package>,
    y: int,
    z: int,
)
    requires
        graph::lists_packages(meta, nodes, packages),
        graph::packages_known(meta),
        forall|x: int| 0 <= x < nodes.len() ==> #[trigger] nodes[x] < meta.resolve.nodes@.len(),
        0 <= y < z < packages.len(),
    ensures
        !order::text_lt(packages[z].name@, packages[y].name@),
{
    let (keys, ys) = lemma_listing(meta, nodes, packages);
    let k = lemma_listed_package(meta, nodes, packages, keys, ys, y);
    let l = lemma_listed_package(meta, nodes, packages, keys, ys, z);
    let a = packages[y].name@;
    let b = packages[z].name@;
    assert(order::listed_before(keys, nodes, ys[y], ys[z]));
    if order::text_lt(b, a) {
        assert(order::row_lt_at(seq![b], seq![a], 0));
        if order::row_lt(seq![a], seq![b]) {
            order::lemma_row_lt_transitive(seq![a], seq![b], seq![a]);
            order::lemma_row_lt_irreflexive(seq![a]);
        } else {
            assert(seq![a][0] == seq![b][0]);
            order::lemma_text_lt_irreflexive(a);
        }
    }
}

proof fn lemma_first_package(packages: Seq<Package>, id: Seq<char>) -> (k: int)
    requires
        metadata::has_package(packages, id),
    ensures
        metadata::is_package_of(packages, id, k),
    decreases packages.len(),
{
    let front = packages.drop_last();
    if metadata::has_package(front, id) {
        let k = lemma_first_package(front, id);
        assert forall|j: int| 0 <= j < k implies (#[trigger] packages[j]).id@ != id by {
            assert(front[j].id@ != id);
        }
        k
    } else {
        let n = packages.len() - 1;
        assert forall|j: int| 0 <= j < n implies (#[trigger] packages[j]).id@ != id by {
            assert(front[j] == packages[j]);
        }
        n
    }
}

/// A package is found by its id: what is found is the last that has it, and nothing is
/// found only if none has it.
pub proof fn law_packages_are_found_by_id(packages: Seq<Package>, id: Seq<char>)
    ensures
        match metadata::package_for(packages, id) {
            Some(p) => p.id@ == id && exists|k: int|
                0 <= k < packages.len() && #[trigger] packages[k] == p && forall|j: int|
                    k < j < packages.len() ==> (#[trigger] packages[j]).id@ != id,
            None => forall|k: int| 0 <= k < packages.len() ==> (#[trigger] packages[k]).id@ != id,
        },
    decreases packages.len(),
{
    if packages.len() > 0 {
        let front = packages.drop_last();
        let last = packages.len() - 1;
        law_packages_are_found_by_id(front, id);
        match metadata::package_for(packages, id) {
            Some(p) => {
                if packages.last().id@ == id {
                    assert(packages[last] == p);
                } else {
                    let k = choose|k: int|
                        0 <= k < front.len() && #[trigger] front[k] == p && forall|j: int|
                            k < j < front.len() ==> (#[trigger] front[j]).id@ != id;
                    assert(packages[k] == p);
                    assert forall|j: int| k < j < packages.len() implies (
                    #[trigger] packages[j]).id@ != id by {
                        if j < front.len() {
                            assert(front[j].id@ != id);
                        }
                    }
                }
            },
            None => {
                assert forall|k: int| 0 <= k < packages.len() implies (#[trigger] packages[k]).id@
                    != id by {
                    if k < front.len() {
                        assert(front[k].id@ != id);
                    }
                }
            },
        }
    }
}

/// A package of a phase is the first that has the id of its node.
pub proof fn law_first_package_counts(packages: Seq<Package>, id: Seq<char>, k: int, j: int)
    requires
        metadata::is_package_of(packages, id, k),
        0 <= j < packages.len(),
        packages[j].id@ == id,
    ensures
        0 <= k <= j,
        packages[k].id@ == id,
        metadata::has_package(packages, id),
{
}

/// Where two nodes have the same id, the last of them stands for it.
pub proof fn law_last_node_counts(ids: Seq<Seq<char>>, id: Seq<char>, j: int)
    requires
        0 <= j < ids.len(),
        ids[j] == id,
    ensures
        j <= graph::last_place(ids, id) < ids.len(),
        ids[graph::last_place(ids, id)] == id,
    decreases ids.len(),
{
    if ids.last() != id {
        let front = ids.drop_last();
        assert(front[j] == id);
        law_last_node_counts(front, id, j);
        assert(ids[graph::last_place(front, id)] == front[graph::last_place(front, id)]);
    }
}

/// A dependency is an edge from the node that stands for it to the node that names it.
pub proof fn law_dependencies_are_edges(meta: Metadata, j: int, c: int)
    requires
        0 <= j < meta.resolve.nodes@.len(),
        0 <= c < meta.resolve.nodes@[j].compile_ids().len(),
        meta.resolve.nodes@.len() <= usize::MAX,
        graph::all_known(meta),
    ensures
        exists|x: int|
            0 <= x < graph::meta_edges(meta).len() && #[trigger] graph::meta_edges(meta)[x] == (
                graph::last_place(
                    graph::resolved_ids(meta),
                    meta.resolve.nodes@[j].compile_ids()[c],
                ) as usize,
                graph::last_place(
                    graph::resolved_ids(meta),
                    meta.resolve.nodes@[j].id@,
                ) as usize,
            ),
{
    let nodes = meta.resolve.nodes@;
    let d = nodes[j].compile_ids()[c];
    let all = graph::all_links(meta);
    lemma_links(nodes, nodes.len() as int, d, nodes[j].id@);
    assert(nodes[j].compile_ids().contains(d));
    assert(all.contains((d, nodes[j].id@)));
    let x = choose|x: int| 0 <= x < all.len() && all[x] == (d, nodes[j].id@);
    assert(graph::meta_edges(meta)[x] == graph::edge_of(meta, all[x]));
}

/// The nodes of a phase stand in the order of their ids.
pub proof fn law_phases_list_nodes_by_id(meta: Metadata, ph: Seq<Seq<usize>>, p: int, x: int, y: int)
    requires
        ids_differ(meta),
        layers::in_order(
            graph::meta_dependents(meta),
            graph::id_keys(graph::resolved_ids(meta)),
            ph,
        ),
        0 <= p < ph.len(),
        0 <= x < y < ph[p].len(),
        ph[p].no_duplicates(),
        ph[p][x] < meta.resolve.nodes@.len(),
        ph[p][y] < meta.resolve.nodes@.len(),
    ensures
        order::text_lt(
            meta.resolve.nodes@[ph[p][x] as int].id@,
            meta.resolve.nodes@[ph[p][y] as int].id@,
        ),
{
    let keys = graph::id_keys(graph::resolved_ids(meta));
    let u = ph[p][x];
    let v = ph[p][y];
    let a = meta.resolve.nodes@[u as int].id@;
    let b = meta.resolve.nodes@[v as int].id@;
    assert(layers::stands_before(graph::meta_dependents(meta), keys, ph, p, u, v));
    assert(keys[u as int] == seq![a] && keys[v as int] == seq![b]);
    assert(u != v);
    if u < v {
        assert(a != b);
    } else {
        assert(b != a);
    }
    if keys[u as int] == keys[v as int] {
        assert(seq![a][0] == seq![b][0]);
    }
    let k = choose|k: int| order::row_lt_at(seq![a], seq![b], k);
    assert(k == 0);
    assert(seq![a][0] == a && seq![b][0] == b);
}

} // verus!
