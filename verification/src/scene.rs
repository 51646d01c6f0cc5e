//! The scene: which nodes of a loaded glTF become entities, how they are
//! linked, and the window title.
use vstd::prelude::*;

use crate::assets::{find_mesh, AssetCatalog, MeshId};

verus! {

/// A node of a loaded glTF hierarchy: the index of its mesh, if it has one,
/// and the indices of its children.
pub struct NodeInfo {
    pub mesh: Option<usize>,
    pub children: Vec<usize>,
}

/// Node `i` exists, and so does every node below it, down at most `h - 1` levels:
/// the hierarchy below `i` is finite, within bounds, and has no cycle.
pub open spec fn subtree_bounded(nodes: Seq<NodeInfo>, i: int, h: nat) -> bool
    decreases h,
{
    &&& 0 <= i < nodes.len()
    &&& h > 0
    &&& forall|c: int|
        0 <= c < nodes[i].children@.len() ==> subtree_bounded(
            nodes,
            #[trigger] nodes[i].children@[c] as int,
            (h - 1) as nat,
        )
}

/// The nodes below and at `i` that have a mesh or a descendant with a mesh,
/// each listed after its descendants (children in order); and whether there
/// is any. `h` bounds the depth explored.
pub open spec fn mesh_nodes(nodes: Seq<NodeInfo>, i: int, h: nat) -> (Seq<usize>, bool)
    decreases h, 0nat, 0nat,
{
    if h == 0 || !(0 <= i < nodes.len()) {
        (Seq::empty(), false)
    } else {
        let kids = mesh_nodes_of_children(nodes, nodes[i].children@, (h - 1) as nat, nodes[i].children@.len());
        if nodes[i].mesh is Some || kids.1 {
            (kids.0.push(i as usize), true)
        } else {
            (kids.0, false)
        }
    }
}

/// `mesh_nodes` of the first `k` of `kids`, one after the other, and whether any has one.
pub open spec fn mesh_nodes_of_children(nodes: Seq<NodeInfo>, kids: Seq<usize>, h: nat, k: nat) -> (
    Seq<usize>,
    bool,
)
    decreases h, 1nat, k,
{
    if k == 0 || k > kids.len() {
        (Seq::empty(), false)
    } else {
        let prev = mesh_nodes_of_children(nodes, kids, h, (k - 1) as nat);
        let last = mesh_nodes(nodes, kids[k - 1] as int, h);
        (prev.0 + last.0, prev.1 || last.1)
    }
}

proof fn lemma_mesh_nodes_in_bounds(nodes: Seq<NodeInfo>, i: int, h: nat)
    ensures
        forall|j: int|
            0 <= j < mesh_nodes(nodes, i, h).0.len() ==> #[trigger] mesh_nodes(nodes, i, h).0[j] < nodes.len(),
    decreases h, 0nat, 0nat,
{
    if h > 0 && 0 <= i < nodes.len() {
        let kids = mesh_nodes_of_children(nodes, nodes[i].children@, (h - 1) as nat, nodes[i].children@.len());
        lemma_children_in_bounds(nodes, nodes[i].children@, (h - 1) as nat, nodes[i].children@.len());
        assert forall|j: int| 0 <= j < kids.0.push(i as usize).len() implies #[trigger] kids.0.push(i as usize)[j] < nodes.len() by {
            if j < kids.0.len() {
                assert(kids.0.push(i as usize)[j] == kids.0[j]);
            }
        }
    }
}

proof fn lemma_children_in_bounds(nodes: Seq<NodeInfo>, kids: Seq<usize>, h: nat, k: nat)
    ensures
        forall|j: int|
            0 <= j < mesh_nodes_of_children(nodes, kids, h, k).0.len() ==> #[trigger] mesh_nodes_of_children(
                nodes,
                kids,
                h,
                k,
            ).0[j] < nodes.len(),
    decreases h, 1nat, k,
{
    if k > 0 && k <= kids.len() {
        lemma_children_in_bounds(nodes, kids, h, (k - 1) as nat);
        lemma_mesh_nodes_in_bounds(nodes, kids[k - 1] as int, h);
        let a = mesh_nodes_of_children(nodes, kids, h, (k - 1) as nat).0;
        let b = mesh_nodes(nodes, kids[k - 1] as int, h).0;
        assert forall|j: int| 0 <= j < (a + b).len() implies #[trigger] (a + b)[j] < nodes.len() by {
            if j < a.len() {
                assert((a + b)[j] == a[j]);
            } else {
                assert((a + b)[j] == b[j - a.len()]);
            }
        }
    }
}

/// Node `j` is node `i` or lies below it, at most `h - 1` levels down.
pub open spec fn reachable(nodes: Seq<NodeInfo>, i: int, j: int, h: nat) -> bool
    decreases h,
{
    if h == 0 || !(0 <= i < nodes.len()) {
        false
    } else {
        i == j || exists|c: int|
            #![trigger nodes[i].children@[c]]
            0 <= c < nodes[i].children@.len() && reachable(nodes, nodes[i].children@[c] as int, j, (h - 1) as nat)
    }
}

/// Some node at or below `i`, at most `h - 1` levels down, has a mesh.
pub open spec fn mesh_at_or_below(nodes: Seq<NodeInfo>, i: int, h: nat) -> bool {
    exists|m: int| #[trigger] reachable(nodes, i, m, h) && 0 <= m < nodes.len() && nodes[m].mesh is Some
}

proof fn lemma_reachable_unfold(nodes: Seq<NodeInfo>, i: int, j: int, h: nat)
    ensures
        reachable(nodes, i, j, h) == (h > 0 && 0 <= i < nodes.len() && (i == j || exists|c: int|
            #![trigger nodes[i].children@[c]]
            0 <= c < nodes[i].children@.len() && reachable(nodes, nodes[i].children@[c] as int, j, (h - 1) as nat))),
{
}

proof fn lemma_reachable_child(nodes: Seq<NodeInfo>, i: int, j: int, h: nat) -> (c: int)
    requires
        reachable(nodes, i, j, h),
        i != j,
    ensures
        h > 0,
        0 <= i < nodes.len(),
        0 <= c < nodes[i].children@.len(),
        reachable(nodes, nodes[i].children@[c] as int, j, (h - 1) as nat),
{
    lemma_reachable_unfold(nodes, i, j, h);
    choose|c: int|
        #![trigger nodes[i].children@[c]]
        0 <= c < nodes[i].children@.len() && reachable(nodes, nodes[i].children@[c] as int, j, (h - 1) as nat)
}

proof fn lemma_reachable_via_child(nodes: Seq<NodeInfo>, i: int, j: int, h: nat, c: int)
    requires
        h > 0,
        0 <= i < nodes.len(),
        0 <= c < nodes[i].children@.len(),
        reachable(nodes, nodes[i].children@[c] as int, j, (h - 1) as nat),
    ensures
        reachable(nodes, i, j, h),
{
    lemma_reachable_unfold(nodes, i, j, h);
}

proof fn lemma_reachable_deeper(nodes: Seq<NodeInfo>, i: int, j: int, h1: nat, h2: nat)
    requires
        reachable(nodes, i, j, h1),
        h1 <= h2,
    ensures
        reachable(nodes, i, j, h2),
    decreases h1,
{
    lemma_reachable_unfold(nodes, i, j, h1);
    lemma_reachable_unfold(nodes, i, j, h2);
    if i != j {
        let c = lemma_reachable_child(nodes, i, j, h1);
        lemma_reachable_deeper(nodes, nodes[i].children@[c] as int, j, (h1 - 1) as nat, (h2 - 1) as nat);
        lemma_reachable_via_child(nodes, i, j, h2, c);
    }
}

proof fn lemma_mesh_below_deeper(nodes: Seq<NodeInfo>, i: int, h1: nat, h2: nat)
    requires
        mesh_at_or_below(nodes, i, h1),
        h1 <= h2,
    ensures
        mesh_at_or_below(nodes, i, h2),
{
    let m = choose|m: int| #[trigger] reachable(nodes, i, m, h1) && 0 <= m < nodes.len() && nodes[m].mesh is Some;
    lemma_reachable_deeper(nodes, i, m, h1, h2);
    assert(reachable(nodes, i, m, h2));
}

proof fn lemma_children_list_child(nodes: Seq<NodeInfo>, kids: Seq<usize>, h: nat, k: nat, c: int, x: usize)
    requires
        0 <= c < k <= kids.len(),
        mesh_nodes(nodes, kids[c] as int, h).0.contains(x),
        mesh_nodes(nodes, kids[c] as int, h).1,
    ensures
        mesh_nodes_of_children(nodes, kids, h, k).0.contains(x),
        mesh_nodes_of_children(nodes, kids, h, k).1,
    decreases k,
{
    let prev = mesh_nodes_of_children(nodes, kids, h, (k - 1) as nat);
    let last = mesh_nodes(nodes, kids[k - 1] as int, h);
    if c < k - 1 {
        lemma_children_list_child(nodes, kids, h, (k - 1) as nat, c, x);
        let w = choose|w: int| 0 <= w < prev.0.len() && prev.0[w] == x;
        assert((prev.0 + last.0)[w] == x);
    } else {
        let w = choose|w: int| 0 <= w < last.0.len() && last.0[w] == x;
        assert((prev.0 + last.0)[prev.0.len() + w] == x);
    }
}

/// Every node with a mesh at or below the root is spawned: when node `j` has
/// a mesh and lies at or below `i`, it is among the nodes listed for `i`, and
/// `i` is reported as having a mesh in its subtree.
pub proof fn lemma_mesh_nodes_lists_every_mesh_node(nodes: Seq<NodeInfo>, i: int, j: int, h: nat)
    requires
        reachable(nodes, i, j, h),
        0 <= j < nodes.len(),
        nodes[j].mesh is Some,
    ensures
        mesh_nodes(nodes, i, h).0.contains(j as usize),
        mesh_nodes(nodes, i, h).1,
    decreases h,
{
    let kids = nodes[i].children@;
    lemma_reachable_unfold(nodes, i, j, h);
    let r = mesh_nodes_of_children(nodes, kids, (h - 1) as nat, kids.len());
    if i == j {
        assert(r.0.push(i as usize)[r.0.len() as int] == j as usize);
    } else {
        let c = lemma_reachable_child(nodes, i, j, h);
        lemma_mesh_nodes_lists_every_mesh_node(nodes, kids[c] as int, j, (h - 1) as nat);
        lemma_children_list_child(nodes, kids, (h - 1) as nat, kids.len(), c, j as usize);
        let w = choose|w: int| 0 <= w < r.0.len() && r.0[w] == j as usize;
        assert(r.0.push(i as usize)[w] == j as usize);
    }
}

/// Only nodes that carry a mesh, or lie above one, are spawned: every node
/// listed for `i` lies at or below `i` and has a mesh at or below it, and `i`
/// is reported as having a mesh in its subtree only when it does.
pub proof fn lemma_mesh_nodes_hold_meshes(nodes: Seq<NodeInfo>, i: usize, h: nat)
    ensures
        forall|x: usize|
            #[trigger] mesh_nodes(nodes, i as int, h).0.contains(x) ==> reachable(nodes, i as int, x as int, h) && mesh_at_or_below(
                nodes,
                x as int,
                h,
            ),
        mesh_nodes(nodes, i as int, h).1 ==> mesh_at_or_below(nodes, i as int, h),
    decreases h, 0nat, 0nat,
{
    if h > 0 && i < nodes.len() {
        let kids = nodes[i as int].children@;
        let hk = (h - 1) as nat;
        let r = mesh_nodes_of_children(nodes, kids, hk, kids.len());
        lemma_children_hold_meshes(nodes, kids, hk, kids.len());
        assert forall|x: usize| r.0.contains(x) implies reachable(nodes, i as int, x as int, h) && mesh_at_or_below(
            nodes,
            x as int,
            h,
        ) by {
            let c = choose|c: int| 0 <= c < kids.len() && #[trigger] reachable(nodes, kids[c] as int, x as int, hk);
            lemma_reachable_via_child(nodes, i as int, x as int, h, c);
            lemma_mesh_below_deeper(nodes, x as int, hk, h);
        }
        lemma_reachable_unfold(nodes, i as int, i as int, h);
        if nodes[i as int].mesh is Some {
            assert(reachable(nodes, i as int, i as int, h) && nodes[i as int].mesh is Some);
        } else if r.1 {
            let c = choose|c: int| 0 <= c < kids.len() && #[trigger] mesh_at_or_below(nodes, kids[c] as int, hk);
            let m = choose|m: int|
                #[trigger] reachable(nodes, kids[c] as int, m, hk) && 0 <= m < nodes.len() && nodes[m].mesh is Some;
            lemma_reachable_via_child(nodes, i as int, m, h, c);
            assert(reachable(nodes, i as int, m, h) && 0 <= m < nodes.len() && nodes[m].mesh is Some);
        }
        if nodes[i as int].mesh is Some || r.1 {
            let out = r.0.push(i);
            assert forall|x: usize| out.contains(x) implies reachable(nodes, i as int, x as int, h) && mesh_at_or_below(
                nodes,
                x as int,
                h,
            ) by {
                let w = choose|w: int| 0 <= w < out.len() && #[trigger] out[w] == x;
                if w < r.0.len() {
                    assert(r.0[w] == x);
                    assert(r.0.contains(x));
                }
            }
        }
    }
}

proof fn lemma_children_hold_meshes(nodes: Seq<NodeInfo>, kids: Seq<usize>, h: nat, k: nat)
    ensures
        forall|x: usize|
            #[trigger] mesh_nodes_of_children(nodes, kids, h, k).0.contains(x) ==> (exists|c: int|
                0 <= c < kids.len() && #[trigger] reachable(nodes, kids[c] as int, x as int, h)) && mesh_at_or_below(
                nodes,
                x as int,
                h,
            ),
        mesh_nodes_of_children(nodes, kids, h, k).1 ==> exists|c: int|
            0 <= c < kids.len() && #[trigger] mesh_at_or_below(nodes, kids[c] as int, h),
    decreases h, 1nat, k,
{
    if k > 0 && k <= kids.len() {
        let prev = mesh_nodes_of_children(nodes, kids, h, (k - 1) as nat);
        let last = mesh_nodes(nodes, kids[k - 1] as int, h);
        lemma_children_hold_meshes(nodes, kids, h, (k - 1) as nat);
        lemma_mesh_nodes_hold_meshes(nodes, kids[k - 1], h);
        assert(mesh_nodes_of_children(nodes, kids, h, k).0 == prev.0 + last.0);
        assert forall|x: usize| (prev.0 + last.0).contains(x) implies (exists|c: int|
            0 <= c < kids.len() && #[trigger] reachable(nodes, kids[c] as int, x as int, h)) && mesh_at_or_below(
            nodes,
            x as int,
            h,
        ) by {
            let w = choose|w: int| 0 <= w < (prev.0 + last.0).len() && (prev.0 + last.0)[w] == x;
            if w < prev.0.len() {
                assert(prev.0[w] == x);
                assert(prev.0.contains(x));
            } else {
                assert(last.0[w - prev.0.len()] == x);
                assert(last.0.contains(x));
                assert(reachable(nodes, kids[k - 1] as int, x as int, h));
            }
        }
        if last.1 {
            assert(mesh_at_or_below(nodes, kids[k - 1] as int, h));
        }
    }
}

/// Appends to `output` the nodes at and below `index` that have a mesh or a
/// descendant with a mesh, children before parents; returns whether there are any.
pub fn collect_mesh_nodes(nodes: &[NodeInfo], index: usize, output: &mut Vec<usize>) -> (r: bool)
    requires
        subtree_bounded(nodes@, index as int, nodes@.len()),
    ensures
        final(output)@ == old(output)@ + mesh_nodes(nodes@, index as int, nodes@.len()).0,
        r == mesh_nodes(nodes@, index as int, nodes@.len()).1,
        forall|j: int|
            0 <= j < nodes@.len() && nodes@[j].mesh is Some && #[trigger] reachable(
                nodes@,
                index as int,
                j,
                nodes@.len(),
            ) ==> final(output)@.contains(j as usize),
        forall|k: int|
            old(output)@.len() <= k < final(output)@.len() ==> reachable(
                nodes@,
                index as int,
                #[trigger] final(output)@[k] as int,
                nodes@.len(),
            ) && mesh_at_or_below(nodes@, final(output)@[k] as int, nodes@.len()),
        r == mesh_at_or_below(nodes@, index as int, nodes@.len()),
{
    let ghost out0 = output@;
    let r = collect_below(nodes, index, output, Ghost(nodes@.len()));
    proof {
        let h = nodes@.len();
        let listed = mesh_nodes(nodes@, index as int, h).0;
        lemma_mesh_nodes_hold_meshes(nodes@, index, h);
        assert forall|j: int|
            0 <= j < nodes@.len() && nodes@[j].mesh is Some && #[trigger] reachable(
                nodes@,
                index as int,
                j,
                h,
            ) implies output@.contains(j as usize) by {
            lemma_mesh_nodes_lists_every_mesh_node(nodes@, index as int, j, h);
            let w = choose|w: int| 0 <= w < listed.len() && listed[w] == j as usize;
            assert(output@[out0.len() + w] == j as usize);
        }
        assert forall|k: int| out0.len() <= k < output@.len() implies reachable(
            nodes@,
            index as int,
            #[trigger] output@[k] as int,
            h,
        ) && mesh_at_or_below(nodes@, output@[k] as int, h) by {
            assert(output@[k] == listed[k - out0.len()]);
            assert(listed.contains(output@[k]));
        }
        if mesh_at_or_below(nodes@, index as int, h) {
            let m = choose|m: int| #[trigger] reachable(nodes@, index as int, m, h) && 0 <= m < nodes@.len() && nodes@[m].mesh is Some;
            lemma_mesh_nodes_lists_every_mesh_node(nodes@, index as int, m, h);
        }
    }
    r
}

fn collect_below(nodes: &[NodeInfo], index: usize, output: &mut Vec<usize>, Ghost(h): Ghost<nat>) -> (r: bool)
    requires
        subtree_bounded(nodes@, index as int, h),
    ensures
        final(output)@ == old(output)@ + mesh_nodes(nodes@, index as int, h).0,
        r == mesh_nodes(nodes@, index as int, h).1,
    decreases h,
{
    let node = &nodes[index];
    let ghost kids = node.children@;
    let ghost out0 = output@;
    let mut has_mesh_child = false;
    for c in 0..node.children.len()
        invariant
            kids == node.children@,
            *node == nodes@[index as int],
            subtree_bounded(nodes@, index as int, h),
            output@ == out0 + mesh_nodes_of_children(nodes@, kids, (h - 1) as nat, c as nat).0,
            has_mesh_child == mesh_nodes_of_children(nodes@, kids, (h - 1) as nat, c as nat).1,
    {
        let child = node.children[c];
        assert(subtree_bounded(nodes@, kids[c as int] as int, (h - 1) as nat));
        if collect_below(nodes, child, output, Ghost((h - 1) as nat)) {
            has_mesh_child = true;
        }
        proof {
            assert(output@ =~= out0 + mesh_nodes_of_children(nodes@, kids, (h - 1) as nat, (c + 1) as nat).0);
        }
    }
    if node.mesh.is_some() || has_mesh_child {
        output.push(index);
        proof {
            assert(output@ =~= out0 + mesh_nodes(nodes@, index as int, h).0);
        }
        true
    } else {
        false
    }
}

/// Whether `s` contains `v`.
fn contains_index(s: &[usize], v: usize) -> (r: bool)
    ensures
        r == s@.contains(v),
{
    let mut k: usize = 0;
    while k < s.len()
        invariant
            k <= s@.len(),
            forall|j: int| 0 <= j < k ==> s@[j] != v,
        decreases s@.len() - k,
    {
        if s[k] == v {
            return true;
        }
        k = k + 1;
    }
    false
}

/// The parent-child links between spawned nodes among the first `k` spawned:
/// for each spawned node, in order, its children that are spawned too.
pub open spec fn spawn_links(nodes: Seq<NodeInfo>, spawned: Seq<usize>, k: int) -> Seq<(usize, usize)>
    decreases k,
{
    if k <= 0 {
        Seq::empty()
    } else {
        let p = spawned[k - 1];
        spawn_links(nodes, spawned, k - 1) + child_links(p, nodes[p as int].children@, spawned, nodes[p as int].children@.len() as int)
    }
}

/// The links from `p` to the first `k` of `kids` that are spawned.
pub open spec fn child_links(p: usize, kids: Seq<usize>, spawned: Seq<usize>, k: int) -> Seq<(usize, usize)>
    decreases k,
{
    if k <= 0 {
        Seq::empty()
    } else {
        let prev = child_links(p, kids, spawned, k - 1);
        if spawned.contains(kids[k - 1]) {
            prev.push((p, kids[k - 1]))
        } else {
            prev
        }
    }
}

proof fn lemma_child_links_exact(p: usize, kids: Seq<usize>, spawned: Seq<usize>, k: int)
    requires
        0 <= k <= kids.len(),
    ensures
        forall|i: int|
            0 <= i < child_links(p, kids, spawned, k).len() ==> (#[trigger] child_links(p, kids, spawned, k)[i]).0 == p
                && kids.contains(child_links(p, kids, spawned, k)[i].1) && spawned.contains(
                child_links(p, kids, spawned, k)[i].1,
            ),
        forall|w: int| 0 <= w < k && spawned.contains(#[trigger] kids[w]) ==> child_links(p, kids, spawned, k).contains((p, kids[w])),
    decreases k,
{
    if k > 0 {
        lemma_child_links_exact(p, kids, spawned, k - 1);
        let prev = child_links(p, kids, spawned, k - 1);
        assert(kids.contains(kids[k - 1]));
        if spawned.contains(kids[k - 1]) {
            let cur = prev.push((p, kids[k - 1]));
            assert forall|w: int| 0 <= w < k && spawned.contains(#[trigger] kids[w]) implies cur.contains((p, kids[w])) by {
                if w < k - 1 {
                    let v = choose|v: int| 0 <= v < prev.len() && prev[v] == (p, kids[w]);
                    assert(cur[v] == (p, kids[w]));
                } else {
                    assert(cur[prev.len() as int] == (p, kids[w]));
                }
            }
        }
    }
}

/// The hierarchy links are exactly the parent-child edges between spawned
/// nodes: each link joins a spawned node to one of its children that is
/// spawned too, and every such pair of nodes is linked.
pub proof fn lemma_spawn_links_are_child_edges(nodes: Seq<NodeInfo>, spawned: Seq<usize>, k: int)
    requires
        0 <= k <= spawned.len(),
        forall|j: int| 0 <= j < spawned.len() ==> #[trigger] spawned[j] < nodes.len(),
    ensures
        forall|i: int|
            0 <= i < spawn_links(nodes, spawned, k).len() ==> spawned.contains(
                (#[trigger] spawn_links(nodes, spawned, k)[i]).0,
            ) && spawned.contains(spawn_links(nodes, spawned, k)[i].1) && nodes[spawn_links(
                nodes,
                spawned,
                k,
            )[i].0 as int].children@.contains(spawn_links(nodes, spawned, k)[i].1),
        forall|j: int, c: usize|
            0 <= j < k && #[trigger] nodes[spawned[j] as int].children@.contains(c) && spawned.contains(c)
                ==> #[trigger] spawn_links(nodes, spawned, k).contains((spawned[j], c)),
    decreases k,
{
    if k > 0 {
        lemma_spawn_links_are_child_edges(nodes, spawned, k - 1);
        let p = spawned[k - 1];
        let kids = nodes[p as int].children@;
        let prev = spawn_links(nodes, spawned, k - 1);
        let last = child_links(p, kids, spawned, kids.len() as int);
        lemma_child_links_exact(p, kids, spawned, kids.len() as int);
        assert(spawned.contains(p));
        let all = prev + last;
        assert(spawn_links(nodes, spawned, k) == all);
        assert forall|i: int| 0 <= i < all.len() implies spawned.contains((#[trigger] all[i]).0) && spawned.contains(
            all[i].1,
        ) && nodes[all[i].0 as int].children@.contains(all[i].1) by {
            if i < prev.len() {
                assert(all[i] == prev[i]);
            } else {
                assert(all[i] == last[i - prev.len()]);
            }
        }
        assert forall|j: int, c: usize|
            0 <= j < k && #[trigger] nodes[spawned[j] as int].children@.contains(c) && spawned.contains(c)
                implies #[trigger] all.contains((spawned[j], c)) by {
            if j < k - 1 {
                assert(prev.contains((spawned[j], c)));
                let v = choose|v: int| 0 <= v < prev.len() && prev[v] == (spawned[j], c);
                assert(all[v] == (spawned[j], c));
            } else {
                let w = choose|w: int| 0 <= w < kids.len() && kids[w] == c;
                assert(spawned.contains(kids[w]));
                assert(last.contains((p, kids[w])));
                let v = choose|v: int| 0 <= v < last.len() && last[v] == (p, c);
                assert(all[prev.len() + v] == (spawned[j], c));
            }
        }
    }
}

/// The hierarchy links to set between the entities spawned for `spawned`
/// nodes: (parent node, child node) pairs.
pub fn hierarchy_links(nodes: &[NodeInfo], spawned: &[usize]) -> (r: Vec<(usize, usize)>)
    requires
        forall|k: int| 0 <= k < spawned@.len() ==> #[trigger] spawned@[k] < nodes@.len(),
    ensures
        r@ == spawn_links(nodes@, spawned@, spawned@.len() as int),
        forall|i: int|
            0 <= i < r@.len() ==> spawned@.contains((#[trigger] r@[i]).0) && spawned@.contains(r@[i].1)
                && nodes@[r@[i].0 as int].children@.contains(r@[i].1),
        forall|j: int, c: usize|
            0 <= j < spawned@.len() && #[trigger] nodes@[spawned@[j] as int].children@.contains(c) && spawned@.contains(c)
                ==> r@.contains((spawned@[j], c)),
{
    proof {
        lemma_spawn_links_are_child_edges(nodes@, spawned@, spawned@.len() as int);
    }
    let mut links: Vec<(usize, usize)> = Vec::new();
    for k in 0..spawned.len()
        invariant
            forall|kk: int| 0 <= kk < spawned@.len() ==> #[trigger] spawned@[kk] < nodes@.len(),
            links@ == spawn_links(nodes@, spawned@, k as int),
    {
        let p = spawned[k];
        let kids = &nodes[p].children;
        let ghost links0 = links@;
        for c in 0..kids.len()
            invariant
                kids@ == nodes@[p as int].children@,
                links@ == links0 + child_links(p, kids@, spawned@, c as int),
        {
            let child = kids[c];
            if contains_index(spawned, child) {
                links.push((p, child));
            }
            proof {
                assert(links@ =~= links0 + child_links(p, kids@, spawned@, c + 1));
            }
        }
    }
    links
}

/// What a spawned node becomes: an entity for node `node`, which takes the
/// scene's root transform and marks the scene's root when it is node 0, which
/// draws mesh `mesh` when the node has one, and which gets a bounding-box
/// component (the mesh asset's bounds) when that mesh is loaded.
#[derive(Clone, Copy, Debug, PartialEq, Eq, Structural)]
pub struct SpawnedNode {
    pub node: usize,
    pub is_root: bool,
    pub mesh: Option<MeshId>,
    pub has_bbox: bool,
}

/// The entity a spawned node becomes, its mesh index looked up in `meshes`
/// and the mesh looked up among the loaded ones.
pub open spec fn spawned_node(nodes: Seq<NodeInfo>, meshes: Seq<MeshId>, catalog: AssetCatalog, n: usize) -> SpawnedNode {
    SpawnedNode {
        node: n,
        is_root: n == 0,
        mesh: match nodes[n as int].mesh {
            Some(m) => Some(meshes[m as int]),
            None => None,
        },
        has_bbox: match nodes[n as int].mesh {
            Some(m) => find_mesh(catalog.meshes@, meshes[m as int]) is Some,
            None => false,
        },
    }
}

/// How a loaded glTF enters the scene: one entity for each node at or below
/// the root that has a mesh or a descendant with one (children first), and
/// the parent-child links between them.
pub fn spawn_plan(nodes: &[NodeInfo], meshes: &[MeshId], catalog: &AssetCatalog) -> (r: (
    Vec<SpawnedNode>,
    Vec<(usize, usize)>,
))
    requires
        subtree_bounded(nodes@, 0, nodes@.len()),
        forall|k: int|
            0 <= k < mesh_nodes(nodes@, 0, nodes@.len()).0.len() ==> match #[trigger] nodes@[mesh_nodes(
                nodes@,
                0,
                nodes@.len(),
            ).0[k] as int].mesh {
                Some(m) => m < meshes@.len(),
                None => true,
            },
    ensures
        r.0@.len() == mesh_nodes(nodes@, 0, nodes@.len()).0.len(),
        forall|k: int|
            0 <= k < r.0@.len() ==> #[trigger] r.0@[k] == spawned_node(
                nodes@,
                meshes@,
                *catalog,
                mesh_nodes(nodes@, 0, nodes@.len()).0[k],
            ),
        r.1@ == spawn_links(nodes@, mesh_nodes(nodes@, 0, nodes@.len()).0, mesh_nodes(nodes@, 0, nodes@.len()).0.len() as int),
{
    let mut spawned: Vec<usize> = Vec::new();
    collect_mesh_nodes(nodes, 0, &mut spawned);
    assert(spawned@ =~= mesh_nodes(nodes@, 0, nodes@.len()).0);
    proof {
        lemma_mesh_nodes_in_bounds(nodes@, 0, nodes@.len());
    }
    let mut entities: Vec<SpawnedNode> = Vec::new();
    for k in 0..spawned.len()
        invariant
            spawned@ == mesh_nodes(nodes@, 0, nodes@.len()).0,
            forall|j: int| 0 <= j < spawned@.len() ==> #[trigger] spawned@[j] < nodes@.len(),
            forall|j: int|
                0 <= j < spawned@.len() ==> match #[trigger] nodes@[spawned@[j] as int].mesh {
                    Some(m) => m < meshes@.len(),
                    None => true,
                },
            entities@.len() == k,
            forall|j: int| 0 <= j < k ==> #[trigger] entities@[j] == spawned_node(nodes@, meshes@, *catalog, spawned@[j]),
    {
        let n = spawned[k];
        assert(n < nodes@.len());
        let (mesh, has_bbox) = match nodes[n].mesh {
            Some(m) => {
                assert(m < meshes@.len());
                let id = meshes[m];
                (Some(id), catalog.get_mesh(id).is_some())
            },
            None => (None, false),
        };
        entities.push(SpawnedNode { node: n, is_root: n == 0, mesh, has_bbox });
    }
    let links = hierarchy_links(nodes, &spawned);
    (entities, links)
}

/// The window title of a scene: its file name, or a placeholder for an
/// unsaved scene.
pub fn scene_title(filename: &Option<String>) -> (r: String)
    ensures
        r@ == match filename {
            Some(f) => f@,
            None => "Untitled scene *"@,
        },
{
    match filename {
        Some(f) => f.clone(),
        None => "Untitled scene *".to_owned(),
    }
}

} // verus!
