//! A render graph: passes declare the resources they read and write, and the
//! graph orders them so that every pass runs after the passes that write what
//! it reads, or reports the dependency cycle that makes this impossible.
use vstd::prelude::*;


verus! {

/// A render target or buffer that passes read and write.
#[derive(Clone, Copy, Debug, PartialEq, Eq, Structural)]
pub enum ResourceId {
    ENTITY,
    DEPTH,
    HDR,
    LDR,
    OPAQUE,
    PICKBUFFER,
    SHADOWMAP,
}

impl ResourceId {
    /// The human-readable name of a resource.
    pub open spec fn spec_label(self) -> Seq<char> {
        match self {
            ResourceId::HDR => "HDR"@,
            ResourceId::OPAQUE => "Opaque"@,
            ResourceId::DEPTH => "Depth"@,
            ResourceId::ENTITY => "EntityID"@,
            ResourceId::LDR => "LDR"@,
            ResourceId::PICKBUFFER => "PickBuffer"@,
            ResourceId::SHADOWMAP => "ShadowMap"@,
        }
    }

    /// The human-readable name of a resource, as it is displayed.
    pub fn label(&self) -> (r: &'static str)
        ensures
            r@ == self.spec_label(),
    {
        match *self {
            ResourceId::HDR => "HDR",
            ResourceId::OPAQUE => "Opaque",
            ResourceId::DEPTH => "Depth",
            ResourceId::ENTITY => "EntityID",
            ResourceId::LDR => "LDR",
            ResourceId::PICKBUFFER => "PickBuffer",
            ResourceId::SHADOWMAP => "ShadowMap",
        }
    }
}

/// A step of the frame: its name and the resources it reads and writes.
pub trait RenderPass {
    /// The name the pass reports.
    spec fn spec_name(&self) -> Seq<char>;

    /// The resources the pass reads.
    spec fn spec_reads(&self) -> Seq<ResourceId>;

    /// The resources the pass writes.
    spec fn spec_writes(&self) -> Seq<ResourceId>;

    fn name(&self) -> (r: &'static str)
        ensures
            r@ == self.spec_name(),
    ;

    fn reads(&self) -> (r: &[ResourceId])
        ensures
            r@ == self.spec_reads(),
    ;

    fn writes(&self) -> (r: &[ResourceId])
        ensures
            r@ == self.spec_writes(),
    ;
}

/// What the graph keeps of a pass: its name and its declared reads and writes.
pub struct PassNode {
    pub name: String,
    pub reads: Vec<ResourceId>,
    pub writes: Vec<ResourceId>,
}

/// For one resource, the passes that write it and the passes that read it.
pub struct ResourceNode {
    pub id: ResourceId,
    pub writers: Vec<usize>,
    pub readers: Vec<usize>,
}

/// A dependency of a pass: the pass `to` writes `resource`, which the
/// dependent pass reads.
#[derive(Clone, Copy, Debug, PartialEq, Eq, Structural)]
pub struct Edge {
    pub to: usize,
    pub resource: ResourceId,
}

/// Where the depth-first search stands with a pass.
#[derive(Clone, Copy, PartialEq, Eq, Structural)]
pub enum VisitState {
    NotVisited,
    Visiting,
    Visited,
}

/// Pass `i` depends on pass `j`: `j` is another pass that writes a resource `i` reads.
pub open spec fn depends_on(passes: Seq<PassNode>, i: int, j: int) -> bool {
    &&& 0 <= i < passes.len()
    &&& 0 <= j < passes.len()
    &&& i != j
    &&& exists|r: ResourceId|
        #![trigger passes[i].reads@.contains(r), passes[j].writes@.contains(r)]
        passes[i].reads@.contains(r) && passes[j].writes@.contains(r)
}

/// `c` is a cycle of dependencies: each pass depends on the next, the last on the first.
pub open spec fn is_dependency_cycle(passes: Seq<PassNode>, c: Seq<usize>) -> bool {
    &&& c.len() > 0
    &&& forall|k: int| 0 <= k < c.len() - 1 ==> #[trigger] depends_on(passes, c[k] as int, c[k + 1] as int)
    &&& depends_on(passes, c.last() as int, c[0] as int)
}

/// Some passes depend on each other in a cycle.
pub open spec fn has_cycle(passes: Seq<PassNode>) -> bool {
    exists|c: Seq<usize>| is_dependency_cycle(passes, c)
}

/// `order` lists every pass exactly once, each after all the passes it depends on.
pub open spec fn is_execution_order(passes: Seq<PassNode>, order: Seq<usize>) -> bool {
    &&& order.len() == passes.len()
    &&& forall|k: int| 0 <= k < order.len() ==> #[trigger] order[k] < passes.len()
    &&& forall|a: int, b: int| 0 <= a < b < order.len() ==> order[a] != order[b]
    &&& forall|v: usize| v < passes.len() ==> #[trigger] order.contains(v)
    &&& forall|a: int, b: int|
        0 <= a < order.len() && 0 <= b < order.len() && #[trigger] depends_on(
            passes,
            order[a] as int,
            order[b] as int,
        ) ==> b < a
}

/// Every pass depends only on passes added before it.
pub open spec fn depends_only_on_earlier(passes: Seq<PassNode>) -> bool {
    forall|i: int, j: int| #[trigger] depends_on(passes, i, j) ==> j < i
}

/// `e` is a dependency edge out of pass `from`.
pub open spec fn valid_edge(passes: Seq<PassNode>, from: int, e: Edge) -> bool {
    &&& 0 <= from < passes.len()
    &&& e.to < passes.len()
    &&& from != e.to
    &&& passes[from].reads@.contains(e.resource)
    &&& passes[e.to as int].writes@.contains(e.resource)
}

/// The pass an edge of a chain leaves: the root for the first edge, else the
/// pass the previous edge reached.
pub open spec fn chain_source(root: usize, es: Seq<Edge>, k: int) -> usize {
    if k == 0 {
        root
    } else {
        es[k - 1].to
    }
}

/// `es` is a chain of dependency edges starting at `root`, whose last edge leads
/// back to a pass the chain already left.
pub open spec fn is_closed_chain(passes: Seq<PassNode>, root: usize, es: Seq<Edge>) -> bool {
    &&& es.len() > 0
    &&& forall|k: int|
        0 <= k < es.len() ==> valid_edge(passes, chain_source(root, es, k) as int, #[trigger] es[k])
    &&& exists|k: int| 0 <= k < es.len() && #[trigger] chain_source(root, es, k) == es.last().to
}

/// One line of a cycle report, for the edge `e`.
pub open spec fn cycle_line(passes: Seq<PassNode>, e: Edge) -> Seq<char> {
    passes[e.to as int].name@ + " reads "@ + e.resource.spec_label() + " -> depends on "@
        + passes[e.to as int].name@
}

/// The lines, separated by line breaks.
pub open spec fn join_lines(lines: Seq<Seq<char>>) -> Seq<char>
    decreases lines.len(),
{
    if lines.len() == 0 {
        Seq::empty()
    } else if lines.len() == 1 {
        lines[0]
    } else {
        join_lines(lines.drop_last()) + "\n"@ + lines.last()
    }
}

/// The report of a cycle found along the chain of edges `es`.
pub open spec fn cycle_report(passes: Seq<PassNode>, es: Seq<Edge>) -> Seq<char> {
    "\u{274c} Cycle detected:\n"@ + join_lines(es.map_values(|e: Edge| cycle_line(passes, e)))
}

/// `msg` reports a closed chain of dependencies among `passes`.
pub open spec fn is_cycle_report(passes: Seq<PassNode>, msg: Seq<char>) -> bool {
    exists|root: usize, es: Seq<Edge>|
        #[trigger] is_closed_chain(passes, root, es) && msg == cycle_report(passes, es)
}


/// Every resource node names distinct resources, and lists only passes that
/// really write or read it.
pub open spec fn resources_sound(passes: Seq<PassNode>, res: Seq<ResourceNode>) -> bool {
    &&& forall|a: int, b: int| 0 <= a < b < res.len() ==> res[a].id != res[b].id
    &&& forall|a: int, k: int|
        0 <= a < res.len() && 0 <= k < res[a].writers@.len() ==> {
            &&& #[trigger] res[a].writers@[k] < passes.len()
            &&& passes[res[a].writers@[k] as int].writes@.contains(res[a].id)
        }
    &&& forall|a: int, k: int|
        0 <= a < res.len() && 0 <= k < res[a].readers@.len() ==> {
            &&& #[trigger] res[a].readers@[k] < passes.len()
            &&& passes[res[a].readers@[k] as int].reads@.contains(res[a].id)
        }
}

/// The resource nodes record every write of the passes before `upto`.
pub open spec fn writes_recorded(passes: Seq<PassNode>, res: Seq<ResourceNode>, upto: int) -> bool {
    forall|i: int, r: ResourceId|
        0 <= i < upto && #[trigger] passes[i].writes@.contains(r) ==> exists|a: int|
            0 <= a < res.len() && res[a].id == r && #[trigger] res[a].writers@.contains(i as usize)
}

/// The resource nodes record every read of the passes before `upto`.
pub open spec fn reads_recorded(passes: Seq<PassNode>, res: Seq<ResourceNode>, upto: int) -> bool {
    forall|i: int, r: ResourceId|
        0 <= i < upto && #[trigger] passes[i].reads@.contains(r) ==> exists|a: int|
            0 <= a < res.len() && res[a].id == r && #[trigger] res[a].readers@.contains(i as usize)
}

/// The index of the node for `id`, if there is one.
fn find_resource(res: &Vec<ResourceNode>, id: ResourceId) -> (idx: Option<usize>)
    ensures
        match idx {
            Some(a) => a < res@.len() && res@[a as int].id == id,
            None => forall|a: int| 0 <= a < res@.len() ==> res@[a].id != id,
        },
{
    let mut a: usize = 0;
    while a < res.len()
        invariant
            a <= res@.len(),
            forall|b: int| 0 <= b < a ==> res@[b].id != id,
        decreases res@.len() - a,
    {
        if res[a].id == id {
            return Some(a);
        }
        a = a + 1;
    }
    None
}

/// The index of the node for `id`, adding an empty one when there is none.
fn resource_slot(res: &mut Vec<ResourceNode>, id: ResourceId) -> (idx: usize)
    ensures
        idx < final(res)@.len(),
        final(res)@[idx as int].id == id,
        final(res)@.len() == old(res)@.len() || (final(res)@.len() == old(res)@.len() + 1 && idx
            == old(res)@.len() && final(res)@[idx as int].writers@.len() == 0
            && final(res)@[idx as int].readers@.len() == 0 && forall|a: int|
            0 <= a < old(res)@.len() ==> old(res)@[a].id != id),
        forall|a: int| 0 <= a < old(res)@.len() ==> final(res)@[a] == old(res)@[a],
{
    match find_resource(res, id) {
        Some(a) => a,
        None => {
            res.push(ResourceNode { id, writers: Vec::new(), readers: Vec::new() });
            res.len() - 1
        },
    }
}


/// Every listed dependency of pass `i` is a real dependency edge out of `i`.
pub open spec fn deps_sound(passes: Seq<PassNode>, deps: Seq<Vec<Edge>>) -> bool {
    &&& deps.len() == passes.len()
    &&& forall|i: int, k: int|
        0 <= i < deps.len() && 0 <= k < deps[i]@.len() ==> valid_edge(passes, i, #[trigger] deps[i]@[k])
}

/// Every dependency of every pass is listed.
pub open spec fn deps_complete(passes: Seq<PassNode>, deps: Seq<Vec<Edge>>) -> bool {
    forall|i: int, j: int, r: ResourceId|
        0 <= i < passes.len() && 0 <= j < passes.len() && i != j
            && #[trigger] passes[i].reads@.contains(r) && #[trigger] passes[j].writes@.contains(r)
            ==> deps[i]@.contains(Edge { to: j as usize, resource: r })
}



/// The resources the passes name, pass after pass, writes before reads.
pub open spec fn resource_events(passes: Seq<PassNode>) -> Seq<ResourceId>
    decreases passes.len(),
{
    if passes.len() == 0 {
        Seq::empty()
    } else {
        resource_events(passes.drop_last()) + passes.last().writes@ + passes.last().reads@
    }
}

/// The entries of `s`, each once, in the order they first appear.
pub open spec fn first_seen(s: Seq<ResourceId>) -> Seq<ResourceId>
    decreases s.len(),
{
    if s.len() == 0 {
        Seq::empty()
    } else {
        let prev = first_seen(s.drop_last());
        if prev.contains(s.last()) {
            prev
        } else {
            prev.push(s.last())
        }
    }
}

/// The resources of the graph, in the order the passes first name them.
pub open spec fn resource_order(passes: Seq<PassNode>) -> Seq<ResourceId> {
    first_seen(resource_events(passes))
}

/// The edges from pass `i` to the passes before `m` other than `i` that write `r`, in pass order.
pub open spec fn writer_edges(passes: Seq<PassNode>, r: ResourceId, i: int, m: int) -> Seq<Edge>
    decreases m,
{
    if m <= 0 {
        Seq::empty()
    } else {
        let prev = writer_edges(passes, r, i, m - 1);
        if m - 1 != i && passes[m - 1].writes@.contains(r) {
            prev.push(Edge { to: (m - 1) as usize, resource: r })
        } else {
            prev
        }
    }
}

/// The edges out of pass `i` for the first `m` resources of `order` that it reads.
pub open spec fn pass_edges(passes: Seq<PassNode>, order: Seq<ResourceId>, i: int, m: int) -> Seq<Edge>
    decreases m,
{
    if m <= 0 {
        Seq::empty()
    } else {
        let prev = pass_edges(passes, order, i, m - 1);
        if passes[i].reads@.contains(order[m - 1]) {
            prev + writer_edges(passes, order[m - 1], i, passes.len() as int)
        } else {
            prev
        }
    }
}

/// The dependency edges out of pass `i`, in the order the search follows
/// them: resource by resource, in the graph's resource order, and for each
/// resource the other passes that write it, in pass order.
#[verifier::opaque]
pub open spec fn spec_deps(passes: Seq<PassNode>, i: int) -> Seq<Edge> {
    pass_edges(passes, resource_order(passes), i, resource_order(passes).len() as int)
}

proof fn lemma_first_seen_contains(s: Seq<ResourceId>, x: ResourceId)
    ensures
        first_seen(s).contains(x) <==> s.contains(x),
    decreases s.len(),
{
    if s.len() > 0 {
        lemma_first_seen_contains(s.drop_last(), x);
        let prev = first_seen(s.drop_last());
        if s.drop_last().contains(x) {
            let k = choose|k: int| 0 <= k < s.drop_last().len() && s.drop_last()[k] == x;
            assert(s[k] == x);
        }
        if s.contains(x) {
            let k = choose|k: int| 0 <= k < s.len() && s[k] == x;
            if k < s.len() - 1 {
                assert(s.drop_last()[k] == x);
            }
        }
        if !prev.contains(s.last()) && prev.push(s.last()).contains(x) {
            let k = choose|k: int| 0 <= k < prev.push(s.last()).len() && prev.push(s.last())[k] == x;
            if k < prev.len() {
                assert(prev[k] == x);
            }
        }
        if !prev.contains(s.last()) && prev.contains(x) {
            let k = choose|k: int| 0 <= k < prev.len() && prev[k] == x;
            assert(prev.push(s.last())[k] == x);
        }
        if !prev.contains(s.last()) && x == s.last() {
            assert(prev.push(s.last())[prev.len() as int] == x);
        }
    }
}

proof fn lemma_events_contain_reads(passes: Seq<PassNode>, i: int, r: ResourceId)
    requires
        0 <= i < passes.len(),
        passes[i].reads@.contains(r),
    ensures
        resource_events(passes).contains(r),
    decreases passes.len(),
{
    let prev = resource_events(passes.drop_last());
    let last = passes.last();
    if i == passes.len() - 1 {
        let k = choose|k: int| 0 <= k < last.reads@.len() && last.reads@[k] == r;
        assert((prev + last.writes@ + last.reads@)[prev.len() + last.writes@.len() + k] == r);
    } else {
        assert(passes.drop_last()[i] == passes[i]);
        lemma_events_contain_reads(passes.drop_last(), i, r);
        let k = choose|k: int| 0 <= k < prev.len() && prev[k] == r;
        assert((prev + last.writes@ + last.reads@)[k] == r);
    }
}

proof fn lemma_writer_edges(passes: Seq<PassNode>, r: ResourceId, i: int, m: int)
    requires
        passes.len() <= usize::MAX,
        0 <= i < passes.len(),
        0 <= m <= passes.len(),
        passes[i].reads@.contains(r),
    ensures
        forall|k: int|
            0 <= k < writer_edges(passes, r, i, m).len() ==> valid_edge(passes, i, #[trigger] writer_edges(passes, r, i, m)[k]),
        forall|j: int|
            0 <= j < m && j != i && #[trigger] passes[j].writes@.contains(r) ==> writer_edges(passes, r, i, m).contains(
                Edge { to: j as usize, resource: r },
            ),
    decreases m,
{
    if m > 0 {
        lemma_writer_edges(passes, r, i, m - 1);
        let prev = writer_edges(passes, r, i, m - 1);
        let cur = writer_edges(passes, r, i, m);
        assert forall|k: int| 0 <= k < cur.len() implies valid_edge(passes, i, #[trigger] cur[k]) by {
            if k < prev.len() {
                assert(cur[k] == prev[k]);
            }
        }
        assert forall|j: int|
            0 <= j < m && j != i && #[trigger] passes[j].writes@.contains(r) implies cur.contains(
                Edge { to: j as usize, resource: r },
            ) by {
            if j < m - 1 {
                let k = choose|k: int| 0 <= k < prev.len() && prev[k] == Edge { to: j as usize, resource: r };
                assert(cur[k] == prev[k]);
            } else {
                assert(cur[prev.len() as int] == Edge { to: j as usize, resource: r });
            }
        }
    }
}

proof fn lemma_pass_edges(passes: Seq<PassNode>, order: Seq<ResourceId>, i: int, m: int)
    requires
        passes.len() <= usize::MAX,
        0 <= i < passes.len(),
        0 <= m <= order.len(),
    ensures
        forall|k: int|
            0 <= k < pass_edges(passes, order, i, m).len() ==> valid_edge(passes, i, #[trigger] pass_edges(passes, order, i, m)[k]),
        forall|a: int, j: int|
            0 <= a < m && 0 <= j < passes.len() && j != i && #[trigger] passes[i].reads@.contains(order[a])
                && #[trigger] passes[j].writes@.contains(order[a]) ==> pass_edges(passes, order, i, m).contains(
                Edge { to: j as usize, resource: order[a] },
            ),
    decreases m,
{
    if m > 0 {
        lemma_pass_edges(passes, order, i, m - 1);
        let prev = pass_edges(passes, order, i, m - 1);
        let cur = pass_edges(passes, order, i, m);
        let r = order[m - 1];
        if passes[i].reads@.contains(r) {
            let w = writer_edges(passes, r, i, passes.len() as int);
            lemma_writer_edges(passes, r, i, passes.len() as int);
            assert forall|k: int| 0 <= k < cur.len() implies valid_edge(passes, i, #[trigger] cur[k]) by {
                if k < prev.len() {
                    assert(cur[k] == prev[k]);
                } else {
                    assert(cur[k] == w[k - prev.len()]);
                }
            }
            assert forall|a: int, j: int|
                0 <= a < m && 0 <= j < passes.len() && j != i && #[trigger] passes[i].reads@.contains(order[a])
                    && #[trigger] passes[j].writes@.contains(order[a]) implies cur.contains(
                    Edge { to: j as usize, resource: order[a] },
                ) by {
                let e = Edge { to: j as usize, resource: order[a] };
                if a < m - 1 {
                    let k = choose|k: int| 0 <= k < prev.len() && prev[k] == e;
                    assert(cur[k] == prev[k]);
                } else {
                    let k = choose|k: int| 0 <= k < w.len() && w[k] == e;
                    assert(cur[prev.len() + k] == w[k]);
                }
            }
        }
    }
}

/// The edges of `spec_deps` are the real dependency edges, and all of them.
proof fn lemma_spec_deps(passes: Seq<PassNode>, deps: Seq<Vec<Edge>>)
    requires
        passes.len() <= usize::MAX,
        deps.len() == passes.len(),
        forall|i: int| 0 <= i < passes.len() ==> (#[trigger] deps[i])@ == spec_deps(passes, i),
    ensures
        deps_sound(passes, deps),
        deps_complete(passes, deps),
{
    reveal(spec_deps);
    let order = resource_order(passes);
    assert forall|i: int, k: int| 0 <= i < deps.len() && 0 <= k < deps[i]@.len() implies valid_edge(
        passes,
        i,
        #[trigger] deps[i]@[k],
    ) by {
        lemma_pass_edges(passes, order, i, order.len() as int);
        assert(deps[i]@ == pass_edges(passes, order, i, order.len() as int));
    }
    assert forall|i: int, j: int, r: ResourceId|
        0 <= i < passes.len() && 0 <= j < passes.len() && i != j && #[trigger] passes[i].reads@.contains(r)
            && #[trigger] passes[j].writes@.contains(r) implies deps[i]@.contains(Edge { to: j as usize, resource: r }) by {
        lemma_events_contain_reads(passes, i, r);
        lemma_first_seen_contains(resource_events(passes), r);
        let a = choose|a: int| 0 <= a < order.len() && order[a] == r;
        lemma_pass_edges(passes, order, i, order.len() as int);
        assert(passes[i].reads@.contains(order[a]) && passes[j].writes@.contains(order[a]));
        assert(deps[i]@ == pass_edges(passes, order, i, order.len() as int));
    }
}

/// How many entries of `s` are `v`.
pub open spec fn count_state(s: Seq<VisitState>, v: VisitState) -> nat
    decreases s.len(),
{
    if s.len() == 0 {
        0
    } else {
        count_state(s.drop_last(), v) + if s.last() == v {
            1nat
        } else {
            0nat
        }
    }
}

proof fn lemma_count_update(s: Seq<VisitState>, i: int, x: VisitState, v: VisitState)
    requires
        0 <= i < s.len(),
    ensures
        count_state(s.update(i, x), v) + (if s[i] == v {
            1int
        } else {
            0int
        }) == count_state(s, v) + (if x == v {
            1int
        } else {
            0int
        }),
    decreases s.len(),
{
    if i == s.len() - 1 {
        assert(s.update(i, x).drop_last() =~= s.drop_last());
    } else {
        lemma_count_update(s.drop_last(), i, x, v);
        assert(s.update(i, x).drop_last() =~= s.drop_last().update(i, x));
    }
}

proof fn lemma_count_sum(s: Seq<VisitState>)
    ensures
        count_state(s, VisitState::NotVisited) + count_state(s, VisitState::Visiting) + count_state(
            s,
            VisitState::Visited,
        ) == s.len(),
    decreases s.len(),
{
    if s.len() > 0 {
        lemma_count_sum(s.drop_last());
    }
}

proof fn lemma_count_all(s: Seq<VisitState>, v: VisitState)
    requires
        forall|k: int| 0 <= k < s.len() ==> s[k] == v,
    ensures
        count_state(s, v) == s.len(),
    decreases s.len(),
{
    if s.len() > 0 {
        lemma_count_all(s.drop_last(), v);
    }
}

/// Where a depth-first search ends: with the visit states and the finished
/// passes, or with the stack of edges that closed a cycle.
pub enum Search {
    Done(Seq<VisitState>, Seq<usize>),
    Cycle(Seq<Edge>),
}

/// The depth-first visit of pass `i` from `state`, with `stack` the edges
/// followed to reach it and `result` the passes finished so far: a finished
/// pass is left alone; a pass on the current path closes a cycle; otherwise
/// the pass is marked in progress, its edges are followed in order, and it
/// is finished after them. `fuel` bounds the passes still to visit.
#[verifier::opaque]
pub open spec fn dfs_node(
    passes: Seq<PassNode>,
    i: usize,
    state: Seq<VisitState>,
    stack: Seq<Edge>,
    result: Seq<usize>,
    fuel: nat,
) -> Search
    decreases fuel, 0nat, 0nat,
{
    if i >= state.len() {
        Search::Done(state, result)
    } else {
        match state[i as int] {
            VisitState::Visited => Search::Done(state, result),
            VisitState::Visiting => Search::Cycle(stack),
            VisitState::NotVisited => if fuel == 0 {
                Search::Done(state, result)
            } else {
                match dfs_edges(
                    passes,
                    i,
                    0,
                    state.update(i as int, VisitState::Visiting),
                    stack,
                    result,
                    (fuel - 1) as nat,
                ) {
                    Search::Done(s, r) => Search::Done(s.update(i as int, VisitState::Visited), r.push(i)),
                    Search::Cycle(es) => Search::Cycle(es),
                }
            },
        }
    }
}

/// Following the edges of pass `i` from the `k`-th on, each by a visit of
/// the pass it leads to.
#[verifier::opaque]
pub open spec fn dfs_edges(
    passes: Seq<PassNode>,
    i: usize,
    k: int,
    state: Seq<VisitState>,
    stack: Seq<Edge>,
    result: Seq<usize>,
    fuel: nat,
) -> Search
    decreases fuel, 1nat, spec_deps(passes, i as int).len() - k,
{
    if k < 0 || k >= spec_deps(passes, i as int).len() {
        Search::Done(state, result)
    } else {
        let e = spec_deps(passes, i as int)[k];
        match dfs_node(passes, e.to, state, stack.push(e), result, fuel) {
            Search::Done(s, r) => dfs_edges(passes, i, k + 1, s, stack, r, fuel),
            Search::Cycle(es) => Search::Cycle(es),
        }
    }
}

/// The search from each pass in turn, from the `k`-th on.
pub open spec fn dfs_roots(passes: Seq<PassNode>, k: int, state: Seq<VisitState>, result: Seq<usize>) -> Search
    decreases passes.len() - k,
{
    if k < 0 || k >= passes.len() {
        Search::Done(state, result)
    } else {
        match dfs_node(passes, k as usize, state, Seq::empty(), result, count_state(state, VisitState::NotVisited)) {
            Search::Done(s, r) => dfs_roots(passes, k + 1, s, r),
            Search::Cycle(es) => Search::Cycle(es),
        }
    }
}

/// What compiling the graph gives: the passes in the order the search
/// finishes them, or the report of the first cycle it closes.
pub open spec fn compile_result(passes: Seq<PassNode>) -> Result<Seq<usize>, Seq<char>> {
    match dfs_roots(passes, 0, Seq::new(passes.len(), |k: int| VisitState::NotVisited), Seq::empty()) {
        Search::Done(_s, r) => Ok(r),
        Search::Cycle(es) => Err(cycle_report(passes, es)),
    }
}

proof fn lemma_node_unfold(
    passes: Seq<PassNode>,
    i: usize,
    state: Seq<VisitState>,
    stack: Seq<Edge>,
    result: Seq<usize>,
    fuel: nat,
)
    requires
        i < state.len(),
    ensures
        state[i as int] == VisitState::Visited ==> dfs_node(passes, i, state, stack, result, fuel) == Search::Done(
            state,
            result,
        ),
        state[i as int] == VisitState::Visiting ==> dfs_node(passes, i, state, stack, result, fuel) == Search::Cycle(stack),
        state[i as int] == VisitState::NotVisited && fuel > 0 ==> dfs_node(passes, i, state, stack, result, fuel) == match dfs_edges(
            passes,
            i,
            0,
            state.update(i as int, VisitState::Visiting),
            stack,
            result,
            (fuel - 1) as nat,
        ) {
            Search::Done(s, r) => Search::Done(s.update(i as int, VisitState::Visited), r.push(i)),
            Search::Cycle(es) => Search::Cycle(es),
        },
{
    reveal_with_fuel(dfs_node, 1);
    reveal_with_fuel(dfs_edges, 1);
}

proof fn lemma_edges_unfold(
    passes: Seq<PassNode>,
    i: usize,
    k: int,
    state: Seq<VisitState>,
    stack: Seq<Edge>,
    result: Seq<usize>,
    fuel: nat,
)
    requires
        0 <= k,
    ensures
        k >= spec_deps(passes, i as int).len() ==> dfs_edges(passes, i, k, state, stack, result, fuel) == Search::Done(
            state,
            result,
        ),
        k < spec_deps(passes, i as int).len() ==> dfs_edges(passes, i, k, state, stack, result, fuel) == match dfs_node(
            passes,
            spec_deps(passes, i as int)[k].to,
            state,
            stack.push(spec_deps(passes, i as int)[k]),
            result,
            fuel,
        ) {
            Search::Done(s, r) => dfs_edges(passes, i, k + 1, s, stack, r, fuel),
            Search::Cycle(es) => Search::Cycle(es),
        },
{
    reveal_with_fuel(dfs_node, 1);
    reveal_with_fuel(dfs_edges, 1);
}

/// One edge of a visit's loop: following the edge to a finished search
/// moves the rest of the loop on by one edge; following it into a cycle ends
/// the loop with that cycle.
proof fn lemma_edge_step(
    passes: Seq<PassNode>,
    i: usize,
    k: int,
    state: Seq<VisitState>,
    stack: Seq<Edge>,
    result: Seq<usize>,
    fuel: nat,
    child: Search,
)
    requires
        0 <= k < spec_deps(passes, i as int).len(),
        count_state(state, VisitState::NotVisited) <= fuel,
        child == dfs_node(
            passes,
            spec_deps(passes, i as int)[k].to,
            state,
            stack.push(spec_deps(passes, i as int)[k]),
            result,
            count_state(state, VisitState::NotVisited),
        ),
    ensures
        child matches Search::Done(s, r) ==> dfs_edges(passes, i, k, state, stack, result, fuel) == dfs_edges(
            passes,
            i,
            k + 1,
            s,
            stack,
            r,
            fuel,
        ) && count_state(s, VisitState::NotVisited) <= fuel,
        child matches Search::Cycle(es) ==> dfs_edges(passes, i, k, state, stack, result, fuel) == Search::Cycle(es),
{
    let e = spec_deps(passes, i as int)[k];
    lemma_node_fuel(passes, e.to, state, stack.push(e), result, count_state(state, VisitState::NotVisited), fuel);
    lemma_edges_unfold(passes, i, k, state, stack, result, fuel);
}

/// `deps` lists, for each pass, its dependency edges in search order.
#[verifier::opaque]
pub open spec fn deps_follow(passes: Seq<PassNode>, deps: Seq<Vec<Edge>>) -> bool {
    forall|x: int| 0 <= x < passes.len() ==> (#[trigger] deps[x])@ == spec_deps(passes, x)
}

proof fn lemma_count_visit(s: Seq<VisitState>, i: int, x: VisitState)
    requires
        0 <= i < s.len(),
        x != VisitState::NotVisited,
    ensures
        count_state(s.update(i, x), VisitState::NotVisited) <= count_state(s, VisitState::NotVisited),
        s[i] == VisitState::NotVisited ==> count_state(s.update(i, x), VisitState::NotVisited) + 1 == count_state(
            s,
            VisitState::NotVisited,
        ),
{
    lemma_count_update(s, i, x, VisitState::NotVisited);
}

proof fn lemma_node_fuel(
    passes: Seq<PassNode>,
    i: usize,
    state: Seq<VisitState>,
    stack: Seq<Edge>,
    result: Seq<usize>,
    f: nat,
    g: nat,
)
    requires
        f >= count_state(state, VisitState::NotVisited),
        g >= count_state(state, VisitState::NotVisited),
    ensures
        dfs_node(passes, i, state, stack, result, f) == dfs_node(passes, i, state, stack, result, g),
        dfs_node(passes, i, state, stack, result, f) matches Search::Done(s, _r) ==> s.len() == state.len()
            && count_state(s, VisitState::NotVisited) <= count_state(state, VisitState::NotVisited),
    decreases f, 0nat, 0nat,
{
    reveal_with_fuel(dfs_node, 1);
    reveal_with_fuel(dfs_edges, 1);
    if i < state.len() && state[i as int] == VisitState::NotVisited {
        lemma_count_visit(state, i as int, VisitState::Visiting);
        let s1 = state.update(i as int, VisitState::Visiting);
        lemma_edges_fuel(passes, i, 0, s1, stack, result, (f - 1) as nat, (g - 1) as nat);
        match dfs_edges(passes, i, 0, s1, stack, result, (f - 1) as nat) {
            Search::Done(s, r) => {
                lemma_count_visit(s, i as int, VisitState::Visited);
            },
            Search::Cycle(_) => {},
        }
    }
}

proof fn lemma_edges_fuel(
    passes: Seq<PassNode>,
    i: usize,
    k: int,
    state: Seq<VisitState>,
    stack: Seq<Edge>,
    result: Seq<usize>,
    f: nat,
    g: nat,
)
    requires
        f >= count_state(state, VisitState::NotVisited),
        g >= count_state(state, VisitState::NotVisited),
    ensures
        dfs_edges(passes, i, k, state, stack, result, f) == dfs_edges(passes, i, k, state, stack, result, g),
        dfs_edges(passes, i, k, state, stack, result, f) matches Search::Done(s, _r) ==> s.len() == state.len()
            && count_state(s, VisitState::NotVisited) <= count_state(state, VisitState::NotVisited),
    decreases f, 1nat, spec_deps(passes, i as int).len() - k,
{
    reveal_with_fuel(dfs_node, 1);
    reveal_with_fuel(dfs_edges, 1);
    if !(k < 0 || k >= spec_deps(passes, i as int).len()) {
        let e = spec_deps(passes, i as int)[k];
        lemma_node_fuel(passes, e.to, state, stack.push(e), result, f, g);
        match dfs_node(passes, e.to, state, stack.push(e), result, f) {
            Search::Done(s, r) => {
                lemma_edges_fuel(passes, i, k + 1, s, stack, r, f, g);
            },
            Search::Cycle(_) => {},
        }
    }
}

/// `a` is a prefix of `b`.
pub open spec fn prefix_of<T>(a: Seq<T>, b: Seq<T>) -> bool {
    a.len() <= b.len() && forall|k: int| 0 <= k < a.len() ==> a[k] == #[trigger] b[k]
}

/// What the depth-first search keeps true: finished passes are listed in
/// `result` after everything they depend on, and the passes being visited form
/// the dependency path `path`.
spec fn dfs_inv(passes: Seq<PassNode>, state: Seq<VisitState>, result: Seq<usize>, path: Seq<usize>) -> bool {
    let n = passes.len();
    &&& state.len() == n
    &&& forall|v: usize| v < n ==> (#[trigger] state[v as int] == VisitState::Visited <==> result.contains(v))
    &&& forall|v: usize| v < n ==> (#[trigger] state[v as int] == VisitState::Visiting <==> path.contains(v))
    &&& forall|k: int| 0 <= k < result.len() ==> #[trigger] result[k] < n
    &&& forall|a: int, b: int| 0 <= a < b < result.len() ==> result[a] != result[b]
    &&& forall|k: int| 0 <= k < path.len() ==> #[trigger] path[k] < n
    &&& forall|a: int, b: int| 0 <= a < b < path.len() ==> path[a] != path[b]
    &&& result.len() == count_state(state, VisitState::Visited)
    &&& path.len() == count_state(state, VisitState::Visiting)
    &&& forall|a: int, j: int|
        0 <= a < result.len() && #[trigger] depends_on(passes, result[a] as int, j) ==> exists|b: int|
            0 <= b < a && #[trigger] result[b] == j
}

/// The stack of edges followed so far leads along `path` to pass `i`.
spec fn stack_matches(passes: Seq<PassNode>, stack: Seq<Edge>, path: Seq<usize>, i: usize) -> bool {
    &&& stack.len() == path.len()
    &&& forall|k: int| 0 <= k < stack.len() ==> valid_edge(passes, path[k] as int, #[trigger] stack[k])
    &&& forall|k: int| 0 <= k < stack.len() - 1 ==> #[trigger] stack[k].to == path[k + 1]
    &&& stack.len() > 0 ==> stack.last().to == i
}

/// The position of `v` in `order`.
spec fn position(order: Seq<usize>, v: usize) -> int {
    choose|a: int| 0 <= a < order.len() && order[a] == v
}

proof fn lemma_chain_positions(passes: Seq<PassNode>, order: Seq<usize>, c: Seq<usize>, k: int)
    requires
        is_execution_order(passes, order),
        c.len() > 0,
        forall|m: int| 0 <= m < c.len() - 1 ==> #[trigger] depends_on(passes, c[m] as int, c[m + 1] as int),
        0 <= k < c.len(),
        c[0] < passes.len(),
    ensures
        c[k] < passes.len(),
        0 <= position(order, c[k]) < order.len(),
        order[position(order, c[k])] == c[k],
        position(order, c[k]) <= position(order, c[0]) - k,
    decreases k,
{
    if k == 0 {
        assert(order.contains(c[0]));
    } else {
        lemma_chain_positions(passes, order, c, k - 1);
        let m = k - 1;
        assert(depends_on(passes, c[m] as int, c[m + 1] as int));
        assert(order.contains(c[k]));
        let a = position(order, c[m]);
        let b = position(order, c[k]);
        assert(depends_on(passes, order[a] as int, order[b] as int));
    }
}

/// An execution order leaves no room for a dependency cycle.
pub proof fn lemma_order_excludes_cycle(passes: Seq<PassNode>, order: Seq<usize>)
    requires
        is_execution_order(passes, order),
    ensures
        !has_cycle(passes),
{
    if has_cycle(passes) {
        let c = choose|c: Seq<usize>| is_dependency_cycle(passes, c);
        let m = c.len() - 1;
        assert(depends_on(passes, c.last() as int, c[0] as int));
        lemma_chain_positions(passes, order, c, m);
        let a = position(order, c[m]);
        assert(order.contains(c[0]));
        let b = position(order, c[0]);
        assert(depends_on(passes, order[a] as int, order[b] as int));
    }
}

/// The report of a cycle along the edges of `stack`.
#[verifier::rlimit(40)]
fn cycle_message(passes: &Vec<PassNode>, stack: &Vec<Edge>) -> (msg: String)
    requires
        forall|k: int| 0 <= k < stack@.len() ==> #[trigger] stack@[k].to < passes@.len(),
    ensures
        msg@ == cycle_report(passes@, stack@),
{
    let ghost lines = stack@.map_values(|e: Edge| cycle_line(passes@, e));
    let mut msg = String::new();
    msg.append("\u{274c} Cycle detected:\n");
    for k in 0..stack.len()
        invariant
            lines == stack@.map_values(|e: Edge| cycle_line(passes@, e)),
            forall|kk: int| 0 <= kk < stack@.len() ==> #[trigger] stack@[kk].to < passes@.len(),
            msg@ == "\u{274c} Cycle detected:\n"@ + join_lines(lines.take(k as int)),
    {
        let ghost before = msg@;
        if k > 0 {
            msg.append("\n");
        }
        let e = stack[k];
        let name = passes[e.to].name.as_str();
        msg.append(name);
        msg.append(" reads ");
        msg.append(e.resource.label());
        msg.append(" -> depends on ");
        msg.append(name);
        proof {
            assert(lines.take(k + 1).drop_last() =~= lines.take(k as int));
            assert(lines.take(k + 1).last() == cycle_line(passes@, e));
            if k == 0 {
                assert(lines.take(0) =~= Seq::<Seq<char>>::empty());
                assert(msg@ =~= "\u{274c} Cycle detected:\n"@ + join_lines(lines.take(k + 1)));
            } else {
                assert(msg@ =~= "\u{274c} Cycle detected:\n"@ + join_lines(lines.take(k + 1)));
            }
        }
    }
    proof {
        assert(lines.take(stack@.len() as int) =~= lines);
    }
    msg
}


/// A dependency edge out of a pass is a dependency of that pass.
proof fn lemma_edge_depends(passes: Seq<PassNode>, from: int, e: Edge)
    requires
        valid_edge(passes, from, e),
    ensures
        depends_on(passes, from, e.to as int),
{
    assert(passes[from].reads@.contains(e.resource) && passes[e.to as int].writes@.contains(e.resource));
}

/// Depth-first visit of pass `i` and, first, of the passes it depends on;
/// finished passes are appended to `result`.
#[verifier::rlimit(100)]
#[verifier::spinoff_prover]
fn visit(
    i: usize,
    deps: &Vec<Vec<Edge>>,
    state: &mut Vec<VisitState>,
    stack: &mut Vec<Edge>,
    result: &mut Vec<usize>,
    passes: &Vec<PassNode>,
    Ghost(path): Ghost<Seq<usize>>,
) -> (r: Result<(), String>)
    requires
        i < passes@.len(),
        deps_sound(passes@, deps@),
        deps_complete(passes@, deps@),
        dfs_inv(passes@, old(state)@, old(result)@, path),
        stack_matches(passes@, old(stack)@, path, i),
        deps_follow(passes@, deps@),
    ensures
        match dfs_node(
            passes@,
            i,
            old(state)@,
            old(stack)@,
            old(result)@,
            count_state(old(state)@, VisitState::NotVisited),
        ) {
            Search::Done(s, res) => r is Ok && final(state)@ == s && final(result)@ == res,
            Search::Cycle(es) => r matches Err(msg) && msg@ == cycle_report(passes@, es),
        },
        r is Ok ==> {
            &&& dfs_inv(passes@, final(state)@, final(result)@, path)
            &&& final(state)@[i as int] == VisitState::Visited
            &&& final(stack)@ == old(stack)@
            &&& prefix_of(old(result)@, final(result)@)
        },
        r is Ok && old(state)@[i as int] == VisitState::Visited ==> final(result)@ == old(result)@,
        r is Ok && old(state)@[i as int] == VisitState::NotVisited && (forall|j: int|
            #[trigger] depends_on(passes@, i as int, j) ==> old(state)@[j] == VisitState::Visited)
            ==> final(result)@ == old(result)@.push(i),
        r matches Err(msg) ==> has_cycle(passes@) && is_cycle_report(passes@, msg@),
    decreases count_state(old(state)@, VisitState::NotVisited),
{
    let ghost n = passes@.len();
    assert(n <= usize::MAX) by {
        assert(passes@.len() == passes.len());
    }
    proof {
        lemma_node_unfold(passes@, i, state@, stack@, result@, count_state(state@, VisitState::NotVisited));
        if state@[i as int] == VisitState::NotVisited {
            lemma_count_visit(state@, i as int, VisitState::Visiting);
        }
    }
    match state[i] {
        VisitState::Visited => {
            return Ok(());
        },
        VisitState::Visiting => {
            let ghost p = choose|p: int| 0 <= p < path.len() && path[p] == i;
            proof {
                assert(path.contains(i));
                let c = path.subrange(p, path.len() as int);
                assert forall|k: int| 0 <= k < c.len() - 1 implies #[trigger] depends_on(
                    passes@,
                    c[k] as int,
                    c[k + 1] as int,
                ) by {
                    assert(valid_edge(passes@, path[p + k] as int, stack@[p + k]));
                    assert(stack@[p + k].to == path[p + k + 1]);
                    lemma_edge_depends(passes@, path[p + k] as int, stack@[p + k]);
                }
                let last = path.len() - 1;
                assert(valid_edge(passes@, path[last] as int, stack@[last]));
                lemma_edge_depends(passes@, path[last] as int, stack@[last]);
                assert(is_dependency_cycle(passes@, c));
                let root = path[0];
                let es = stack@;
                assert forall|k: int| 0 <= k < es.len() implies valid_edge(
                    passes@,
                    chain_source(root, es, k) as int,
                    #[trigger] es[k],
                ) by {
                    if k > 0 {
                        assert(es[k - 1].to == path[k]);
                    }
                }
                if p > 0 {
                    assert(es[p - 1].to == path[p]);
                }
                assert(chain_source(root, es, p) == es.last().to);
                assert(is_closed_chain(passes@, root, es));
            }
            let msg = cycle_message(passes, stack);
            return Err(msg);
        },
        VisitState::NotVisited => {},
    }
    let ghost state0 = state@;
    let ghost result0 = result@;
    let ghost stack0 = stack@;
    let ghost path2 = path.push(i);
    let ghost all_deps_done = forall|j: int|
        #[trigger] depends_on(passes@, i as int, j) ==> state0[j] == VisitState::Visited;
    proof {
        assert(!path.contains(i));
        assert(!result0.contains(i));
        lemma_count_update(state0, i as int, VisitState::Visiting, VisitState::Visiting);
        lemma_count_update(state0, i as int, VisitState::Visiting, VisitState::Visited);
        lemma_count_update(state0, i as int, VisitState::Visiting, VisitState::NotVisited);
        lemma_count_sum(state0);
    }
    state.set(i, VisitState::Visiting);
    let ghost c = count_state(state0, VisitState::NotVisited);
    let ghost state_v = state@;
    proof {
        lemma_count_visit(state0, i as int, VisitState::Visiting);
        lemma_count_sum(state@);
        assert forall|v: usize| v < n implies (#[trigger] state@[v as int] == VisitState::Visiting
            <==> path2.contains(v)) by {
            if v == i {
                assert(path2[path.len() as int] == i);
            } else {
                if path2.contains(v) {
                    let k = choose|k: int| 0 <= k < path2.len() && path2[k] == v;
                    assert(path[k] == v);
                }
                if path.contains(v) {
                    let k = choose|k: int| 0 <= k < path.len() && path[k] == v;
                    assert(path2[k] == v);
                }
            }
        }
        assert(dfs_inv(passes@, state@, result@, path2));
    }
    proof {
        reveal(deps_follow);
    }
    let dl = deps[i].len();
    for idx in 0..dl
        invariant
            n == passes@.len(),
            i < n,
            dl == deps@[i as int]@.len(),
            deps_sound(passes@, deps@),
            deps_complete(passes@, deps@),
            stack_matches(passes@, stack0, path, i),
            path2 == path.push(i),
            state0 == old(state)@,
            !path.contains(i),
            dfs_inv(passes@, state@, result@, path2),
            stack@ == stack0,
            prefix_of(result0, result@),
            count_state(state0, VisitState::NotVisited) == n - path.len() - result0.len(),
            forall|m: int| 0 <= m < idx ==> state@[(#[trigger] deps@[i as int]@[m]).to as int] == VisitState::Visited,
            all_deps_done ==> result@ == result0,
            all_deps_done == forall|j: int|
                #[trigger] depends_on(passes@, i as int, j) ==> state0[j] == VisitState::Visited,
            forall|v: usize| v < n && state0[v as int] == VisitState::Visited ==> #[trigger] state@[v as int] == VisitState::Visited,
            deps_follow(passes@, deps@),
            deps@[i as int]@ == spec_deps(passes@, i as int),
            c == count_state(state0, VisitState::NotVisited),
            c >= 1,
            state_v == state0.update(i as int, VisitState::Visiting),
            stack0 == old(stack)@,
            result0 == old(result)@,
            dfs_node(passes@, i, state0, stack0, result0, c) == match dfs_edges(
                passes@,
                i,
                0,
                state_v,
                stack0,
                result0,
                (c - 1) as nat,
            ) {
                Search::Done(s, r) => Search::Done(s.update(i as int, VisitState::Visited), r.push(i)),
                Search::Cycle(es) => Search::Cycle(es),
            },
            count_state(state@, VisitState::NotVisited) <= c - 1,
            dfs_edges(passes@, i, 0, state_v, stack0, result0, (c - 1) as nat) == dfs_edges(
                passes@,
                i,
                idx as int,
                state@,
                stack0,
                result@,
                (c - 1) as nat,
            ),
    {
        let e = deps[i][idx];
        proof {
            assert(e == spec_deps(passes@, i as int)[idx as int]);
        }
        proof {
            assert(valid_edge(passes@, i as int, e));
            lemma_count_sum(state@);
        }
        stack.push(e);
        proof {
            assert forall|k: int| 0 <= k < stack@.len() implies valid_edge(
                passes@,
                path2[k] as int,
                #[trigger] stack@[k],
            ) by {
                if k < stack0.len() {
                    assert(stack@[k] == stack0[k]);
                    assert(path2[k] == path[k]);
                }
            }
            assert forall|k: int| 0 <= k < stack@.len() - 1 implies #[trigger] stack@[k].to == path2[k + 1] by {
                assert(stack@[k] == stack0[k]);
                if k < stack0.len() - 1 {
                    assert(path2[k + 1] == path[k + 1]);
                }
            }
            assert(stack_matches(passes@, stack@, path2, e.to));
        }
        let ghost state_before = state@;
        let ghost result_before = result@;
        proof {
            lemma_count_sum(state@);
            assert(count_state(state@, VisitState::NotVisited) < count_state(state0, VisitState::NotVisited));
        }
        let ghost child = dfs_node(
            passes@,
            e.to,
            state_before,
            stack0.push(e),
            result_before,
            count_state(state_before, VisitState::NotVisited),
        );
        proof {
            assert(stack@ == stack0.push(e));
        }
        assert(child matches Search::Done(s, r) ==> dfs_edges(passes@, i, idx as int, state_before, stack0, result_before, (c - 1) as nat) == dfs_edges(
            passes@,
            i,
            idx + 1,
            s,
            stack0,
            r,
            (c - 1) as nat,
        ) && count_state(s, VisitState::NotVisited) <= (c - 1) as nat) by {
            lemma_edge_step(passes@, i, idx as int, state_before, stack0, result_before, (c - 1) as nat, child);
        }
        assert(child matches Search::Cycle(es) ==> dfs_edges(passes@, i, idx as int, state_before, stack0, result_before, (c - 1) as nat) == Search::Cycle(es)) by {
            lemma_edge_step(passes@, i, idx as int, state_before, stack0, result_before, (c - 1) as nat, child);
        }
        match visit(e.to, deps, state, stack, result, passes, Ghost(path2)) {
            Ok(()) => {},
            Err(m) => {
                return Err(m);
            },
        }
        stack.pop();
        proof {
            assert(stack@ =~= stack0);
            if all_deps_done {
                lemma_edge_depends(passes@, i as int, e);
                assert(state0[e.to as int] == VisitState::Visited);
                assert(state_before[e.to as int] == VisitState::Visited);
            }
            assert forall|v: usize| v < n && state0[v as int] == VisitState::Visited
                implies #[trigger] state@[v as int] == VisitState::Visited by {
                assert(state_before[v as int] == VisitState::Visited);
                let k = choose|k: int| 0 <= k < result_before.len() && result_before[k] == v;
                assert(result@[k] == v);
            }
            assert forall|m: int| 0 <= m < idx + 1 implies state@[(#[trigger] deps@[i as int]@[m]).to as int]
                == VisitState::Visited by {
                if m < idx {
                    let t = deps@[i as int]@[m].to;
                    assert(valid_edge(passes@, i as int, deps@[i as int]@[m]));
                    assert(state_before[t as int] == VisitState::Visited);
                    let k = choose|k: int| 0 <= k < result_before.len() && result_before[k] == t;
                    assert(result@[k] == t);
                }
            }
        }
    }
    let ghost state1 = state@;
    let ghost result1 = result@;
    proof {
        lemma_edges_unfold(passes@, i, dl as int, state1, stack0, result1, (c - 1) as nat);
        assert(state1[i as int] == VisitState::Visiting) by {
            assert(path2[path.len() as int] == i);
        }
        assert(!result1.contains(i));
        lemma_count_update(state1, i as int, VisitState::Visited, VisitState::Visiting);
        lemma_count_update(state1, i as int, VisitState::Visited, VisitState::Visited);
    }
    state.set(i, VisitState::Visited);
    result.push(i);
    proof {
        let res = result@;
        assert forall|v: usize| v < n implies (#[trigger] state@[v as int] == VisitState::Visited
            <==> res.contains(v)) by {
            if v == i {
                assert(res[result1.len() as int] == i);
            } else {
                if res.contains(v) {
                    let k = choose|k: int| 0 <= k < res.len() && res[k] == v;
                    assert(result1[k] == v);
                }
                if result1.contains(v) {
                    let k = choose|k: int| 0 <= k < result1.len() && result1[k] == v;
                    assert(res[k] == v);
                }
            }
        }
        assert forall|v: usize| v < n implies (#[trigger] state@[v as int] == VisitState::Visiting
            <==> path.contains(v)) by {
            if v == i {
            } else {
                if path2.contains(v) {
                    let k = choose|k: int| 0 <= k < path2.len() && path2[k] == v;
                    assert(path[k] == v);
                }
                if path.contains(v) {
                    let k = choose|k: int| 0 <= k < path.len() && path[k] == v;
                    assert(path2[k] == v);
                }
            }
        }
        assert forall|a: int, b: int| 0 <= a < b < res.len() implies res[a] != res[b] by {
            if b == res.len() - 1 {
                assert(result1[a] == res[a]);
            }
        }
        assert forall|a: int, j: int|
            0 <= a < res.len() && #[trigger] depends_on(passes@, res[a] as int, j) implies exists|b: int|
                0 <= b < a && #[trigger] res[b] == j by {
            if a == res.len() - 1 {
                let r = choose|r: ResourceId|
                    #![trigger passes@[i as int].reads@.contains(r), passes@[j].writes@.contains(r)]
                    passes@[i as int].reads@.contains(r) && passes@[j].writes@.contains(r);
                assert(deps@[i as int]@.contains(Edge { to: j as usize, resource: r }));
                let m = choose|m: int| 0 <= m < dl && deps@[i as int]@[m] == Edge { to: j as usize, resource: r };
                assert(state1[j] == VisitState::Visited);
                assert(state1[(j as usize) as int] == VisitState::Visited);
                let b = choose|b: int| 0 <= b < result1.len() && result1[b] == j as usize;
                assert(res[b] == j);
            } else {
                assert(res[a] == result1[a]);
                let b = choose|b: int| 0 <= b < a && #[trigger] result1[b] == j;
                assert(res[b] == j);
            }
        }
        assert(dfs_inv(passes@, state@, result@, path));
    }
    Ok(())
}


/// Some pass reads `r` and no pass writes it.
pub open spec fn read_never_written(passes: Seq<PassNode>, r: ResourceId) -> bool {
    &&& exists|i: int| 0 <= i < passes.len() && #[trigger] passes[i].reads@.contains(r)
    &&& forall|j: int| 0 <= j < passes.len() ==> !(#[trigger] passes[j].writes@.contains(r))
}

/// `ws` lists, each once, exactly the resources read and never written.
pub open spec fn is_unwritten_list(passes: Seq<PassNode>, ws: Seq<ResourceId>) -> bool {
    &&& forall|x: int| 0 <= x < ws.len() ==> #[trigger] read_never_written(passes, ws[x])
    &&& forall|x: int, y: int| 0 <= x < y < ws.len() ==> ws[x] != ws[y]
    &&& forall|r: ResourceId| read_never_written(passes, r) ==> #[trigger] ws.contains(r)
}

/// The warning shown for a resource read but never written.
pub open spec fn unwritten_warning(r: ResourceId) -> Seq<char> {
    "\u{26a0}\u{fe0f} Resource "@ + r.spec_label() + " read but never written"@
}

/// Whether `s` contains `r`.
fn contains_resource(s: &Vec<ResourceId>, r: ResourceId) -> (b: bool)
    ensures
        b == s@.contains(r),
{
    let mut k: usize = 0;
    while k < s.len()
        invariant
            k <= s@.len(),
            forall|j: int| 0 <= j < k ==> s@[j] != r,
        decreases s@.len() - k,
    {
        if s[k] == r {
            return true;
        }
        k = k + 1;
    }
    false
}

/// The lines that show what compiling the graph gives: the names of the
/// passes in the compiled order, or the cycle report alone.
pub open spec fn compile_lines(passes: Seq<PassNode>) -> Seq<Seq<char>> {
    match compile_result(passes) {
        Ok(order) => order.map_values(|i: usize| passes[i as int].name@),
        Err(msg) => seq![msg],
    }
}

/// The resources of `order` that some pass reads and no pass writes, in order.
pub open spec fn unwritten_in(passes: Seq<PassNode>, order: Seq<ResourceId>) -> Seq<ResourceId>
    decreases order.len(),
{
    if order.len() == 0 {
        Seq::empty()
    } else {
        let prev = unwritten_in(passes, order.drop_last());
        if read_never_written(passes, order.last()) {
            prev.push(order.last())
        } else {
            prev
        }
    }
}

proof fn lemma_first_seen_distinct(s: Seq<ResourceId>)
    ensures
        forall|a: int, b: int| 0 <= a < b < first_seen(s).len() ==> first_seen(s)[a] != first_seen(s)[b],
    decreases s.len(),
{
    if s.len() > 0 {
        lemma_first_seen_distinct(s.drop_last());
        let prev = first_seen(s.drop_last());
        if !prev.contains(s.last()) {
            let cur = prev.push(s.last());
            assert forall|a: int, b: int| 0 <= a < b < cur.len() implies cur[a] != cur[b] by {
                if b == prev.len() {
                    assert(cur[a] == prev[a]);
                } else {
                    assert(cur[a] == prev[a] && cur[b] == prev[b]);
                }
            }
        }
    }
}

proof fn lemma_unwritten_in_order(passes: Seq<PassNode>, order: Seq<ResourceId>)
    requires
        forall|a: int, b: int| 0 <= a < b < order.len() ==> order[a] != order[b],
    ensures
        forall|x: int|
            0 <= x < unwritten_in(passes, order).len() ==> #[trigger] read_never_written(passes, unwritten_in(passes, order)[x])
                && order.contains(unwritten_in(passes, order)[x]),
        forall|x: int, y: int|
            0 <= x < y < unwritten_in(passes, order).len() ==> unwritten_in(passes, order)[x] != unwritten_in(passes, order)[y],
        forall|r: ResourceId| order.contains(r) && read_never_written(passes, r) ==> #[trigger] unwritten_in(passes, order).contains(r),
    decreases order.len(),
{
    if order.len() > 0 {
        let d = order.drop_last();
        assert forall|a: int, b: int| 0 <= a < b < d.len() implies d[a] != d[b] by {
            assert(d[a] == order[a] && d[b] == order[b]);
        }
        lemma_unwritten_in_order(passes, d);
        let prev = unwritten_in(passes, d);
        let cur = unwritten_in(passes, order);
        let last = order.last();
        assert forall|x: int| 0 <= x < cur.len() implies #[trigger] read_never_written(passes, cur[x]) && order.contains(cur[x]) by {
            if x < prev.len() {
                assert(cur[x] == prev[x]);
                assert(read_never_written(passes, prev[x]));
                let k = choose|k: int| 0 <= k < d.len() && d[k] == prev[x];
                assert(order[k] == prev[x]);
            } else {
                assert(cur[x] == last);
                assert(order[order.len() - 1] == last);
            }
        }
        assert forall|x: int, y: int| 0 <= x < y < cur.len() implies cur[x] != cur[y] by {
            if y == prev.len() {
                assert(cur[x] == prev[x]);
                assert(read_never_written(passes, prev[x]));
                let k = choose|k: int| 0 <= k < d.len() && d[k] == prev[x];
                assert(order[k] == prev[x]);
                assert(cur[y] == order[order.len() - 1]);
            } else {
                assert(cur[x] == prev[x] && cur[y] == prev[y]);
            }
        }
        assert forall|r: ResourceId| order.contains(r) && read_never_written(passes, r) implies #[trigger] cur.contains(r) by {
            let k = choose|k: int| 0 <= k < order.len() && order[k] == r;
            if k < order.len() - 1 {
                assert(d[k] == r);
                assert(d.contains(r));
                assert(prev.contains(r));
                let x = choose|x: int| 0 <= x < prev.len() && prev[x] == r;
                assert(cur[x] == r);
            } else {
                assert(cur[prev.len() as int] == r);
            }
        }
    }
}

/// The unwritten resources, listed in the graph's resource order, are each
/// read and never written, each once, and all of them.
proof fn lemma_unwritten_in(passes: Seq<PassNode>, order: Seq<ResourceId>)
    requires
        order == resource_order(passes),
    ensures
        is_unwritten_list(passes, unwritten_in(passes, order)),
{
    lemma_first_seen_distinct(resource_events(passes));
    lemma_unwritten_in_order(passes, order);
    assert forall|r: ResourceId| read_never_written(passes, r) implies #[trigger] unwritten_in(passes, order).contains(r) by {
        let i = choose|i: int| 0 <= i < passes.len() && #[trigger] passes[i].reads@.contains(r);
        lemma_events_contain_reads(passes, i, r);
        lemma_first_seen_contains(resource_events(passes), r);
    }
}

/// What running the graph shows: a warning for each resource read but never
/// written, in the graph's resource order, then what compiling gives.
pub open spec fn run_lines(passes: Seq<PassNode>) -> Seq<Seq<char>> {
    unwritten_in(passes, resource_order(passes)).map_values(|r: ResourceId| unwritten_warning(r)) + compile_lines(passes)
}

/// A collection of passes to be ordered.
pub struct RenderGraph {
    pub passes: Vec<PassNode>,
}

impl RenderGraph {
    pub fn new() -> (g: Self)
        ensures
            g.passes@ == Seq::<PassNode>::empty(),
    {
        RenderGraph { passes: Vec::new() }
    }

    /// Adds a pass; it keeps the pass's name, reads and writes.
    pub fn add_pass<P: RenderPass>(&mut self, pass: P)
        ensures
            final(self).passes@.len() == old(self).passes@.len() + 1,
            final(self).passes@.drop_last() == old(self).passes@,
            final(self).passes@.last().name@ == pass.spec_name(),
            final(self).passes@.last().reads@ == pass.spec_reads(),
            final(self).passes@.last().writes@ == pass.spec_writes(),
    {
        let name = pass.name().to_owned();
        let reads = vstd::slice::slice_to_vec(pass.reads());
        let writes = vstd::slice::slice_to_vec(pass.writes());
        self.passes.push(PassNode { name, reads, writes });
        assert(self.passes@.drop_last() =~= old(self).passes@);
    }

    /// One node per resource that some pass reads or writes, in the order the
    /// resources are first met, with the passes that write and read it.
    fn build_graph(&self) -> (res: Vec<ResourceNode>)
        ensures
            resources_sound(self.passes@, res@),
            writes_recorded(self.passes@, res@, self.passes@.len() as int),
            reads_recorded(self.passes@, res@, self.passes@.len() as int),
    {
        let ghost passes = self.passes@;
        let mut resources: Vec<ResourceNode> = Vec::new();
        let n = self.passes.len();
        for i in 0..n
            invariant
                n == passes.len(),
                passes == self.passes@,
                resources_sound(passes, resources@),
                writes_recorded(passes, resources@, i as int),
                reads_recorded(passes, resources@, i as int),
        {
            let writes = &self.passes[i].writes;
            for q in 0..writes.len()
                invariant
                    n == passes.len(),
                    i < n,
                    passes == self.passes@,
                    writes@ == passes[i as int].writes@,
                    resources_sound(passes, resources@),
                    writes_recorded(passes, resources@, i as int),
                    reads_recorded(passes, resources@, i as int),
                    forall|qq: int|
                        0 <= qq < q ==> exists|a: int|
                            0 <= a < resources@.len() && resources@[a].id == #[trigger] writes@[qq]
                                && resources@[a].writers@.contains(i),
            {
                let r = writes[q];
                let ghost before = resources@;
                let idx = resource_slot(&mut resources, r);
                let ghost mid = resources@;
                resources[idx].writers.push(i);
                proof {
                    assert(resources@[idx as int].writers@.last() == i);
                    assert forall|a: int, x: usize|
                        0 <= a < before.len() && #[trigger] before[a].writers@.contains(x)
                            implies resources@[a].writers@.contains(x) by {
                        let k = choose|k: int| 0 <= k < before[a].writers@.len() && before[a].writers@[k] == x;
                        assert(resources@[a].writers@[k] == x);
                    }
                    assert forall|a: int, x: usize|
                        0 <= a < before.len() && #[trigger] before[a].readers@.contains(x)
                            implies resources@[a].readers@.contains(x) by {
                        assert(resources@[a].readers@ == before[a].readers@);
                    }
                    assert(resources@[idx as int].writers@.contains(i));
                }
            }
            let reads = &self.passes[i].reads;
            for q in 0..reads.len()
                invariant
                    n == passes.len(),
                    i < n,
                    passes == self.passes@,
                    reads@ == passes[i as int].reads@,
                    resources_sound(passes, resources@),
                    writes_recorded(passes, resources@, i + 1),
                    reads_recorded(passes, resources@, i as int),
                    forall|qq: int|
                        0 <= qq < q ==> exists|a: int|
                            0 <= a < resources@.len() && resources@[a].id == #[trigger] reads@[qq]
                                && resources@[a].readers@.contains(i),
            {
                let r = reads[q];
                let ghost before = resources@;
                let idx = resource_slot(&mut resources, r);
                resources[idx].readers.push(i);
                proof {
                    assert(resources@[idx as int].readers@.last() == i);
                    assert forall|a: int, x: usize|
                        0 <= a < before.len() && #[trigger] before[a].readers@.contains(x)
                            implies resources@[a].readers@.contains(x) by {
                        let k = choose|k: int| 0 <= k < before[a].readers@.len() && before[a].readers@[k] == x;
                        assert(resources@[a].readers@[k] == x);
                    }
                    assert forall|a: int, x: usize|
                        0 <= a < before.len() && #[trigger] before[a].writers@.contains(x)
                            implies resources@[a].writers@.contains(x) by {
                        assert(resources@[a].writers@ == before[a].writers@);
                    }
                    assert(resources@[idx as int].readers@.contains(i));
                }
            }
        }
        resources
    }

    /// The resources of the graph, each once, in the order the passes first
    /// name them (pass after pass, writes before reads).
    fn resource_ids(&self) -> (order: Vec<ResourceId>)
        ensures
            order@ == resource_order(self.passes@),
    {
        let ghost passes = self.passes@;
        let mut order: Vec<ResourceId> = Vec::new();
        for i in 0..self.passes.len()
            invariant
                passes == self.passes@,
                order@ == first_seen(resource_events(passes.take(i as int))),
        {
            let ghost base = resource_events(passes.take(i as int));
            let writes = &self.passes[i].writes;
            for q in 0..writes.len()
                invariant
                    order@ == first_seen(base + writes@.take(q as int)),
            {
                let r = writes[q];
                proof {
                    assert((base + writes@.take(q + 1)).drop_last() =~= base + writes@.take(q as int));
                    assert((base + writes@.take(q + 1)).last() == r);
                }
                if !contains_resource(&order, r) {
                    order.push(r);
                }
            }
            let ghost base2 = base + writes@;
            proof {
                assert(writes@.take(writes@.len() as int) =~= writes@);
                assert(base2 + Seq::<ResourceId>::empty() =~= base2);
            }
            let reads = &self.passes[i].reads;
            for q in 0..reads.len()
                invariant
                    order@ == first_seen(base2 + reads@.take(q as int)),
            {
                let r = reads[q];
                proof {
                    assert((base2 + reads@.take(q + 1)).drop_last() =~= base2 + reads@.take(q as int));
                    assert((base2 + reads@.take(q + 1)).last() == r);
                }
                if !contains_resource(&order, r) {
                    order.push(r);
                }
            }
            proof {
                assert(reads@.take(reads@.len() as int) =~= reads@);
                assert(passes.take(i + 1).drop_last() =~= passes.take(i as int));
                assert(passes.take(i + 1).last() == passes[i as int]);
            }
        }
        proof {
            assert(passes.take(passes.len() as int) =~= passes);
        }
        order
    }

    /// For each pass, the edges to the passes it depends on: for each
    /// resource it reads, in the graph's resource order, one edge to each
    /// other pass that writes it, in pass order.
    fn build_dependencies(&self, order: &Vec<ResourceId>) -> (deps: Vec<Vec<Edge>>)
        requires
            order@ == resource_order(self.passes@),
        ensures
            deps@.len() == self.passes@.len(),
            forall|i: int| 0 <= i < self.passes@.len() ==> (#[trigger] deps@[i])@ == spec_deps(self.passes@, i),
            deps_sound(self.passes@, deps@),
            deps_complete(self.passes@, deps@),
    {
        let ghost passes = self.passes@;
        let n = self.passes.len();
        let mut deps: Vec<Vec<Edge>> = Vec::new();
        for i in 0..n
            invariant
                n == passes.len(),
                passes == self.passes@,
                order@ == resource_order(passes),
                deps@.len() == i,
                forall|x: int| 0 <= x < i ==> (#[trigger] deps@[x])@ == spec_deps(passes, x),
        {
            proof {
                reveal(spec_deps);
            }
            let mut edges: Vec<Edge> = Vec::new();
            for a in 0..order.len()
                invariant
                    n == passes.len(),
                    passes == self.passes@,
                    i < n,
                    edges@ == pass_edges(passes, order@, i as int, a as int),
            {
                let r = order[a];
                if contains_resource(&self.passes[i].reads, r) {
                    let ghost before = edges@;
                    for j in 0..n
                        invariant
                            n == passes.len(),
                            passes == self.passes@,
                            i < n,
                            edges@ == before + writer_edges(passes, r, i as int, j as int),
                    {
                        if j != i && contains_resource(&self.passes[j].writes, r) {
                            edges.push(Edge { to: j, resource: r });
                        }
                        proof {
                            assert(edges@ =~= before + writer_edges(passes, r, i as int, j + 1));
                        }
                    }
                }
            }
            deps.push(edges);
        }
        proof {
            assert(passes.len() == self.passes.len());
            reveal(spec_deps);
            lemma_spec_deps(passes, deps@);
        }
        deps
    }

    /// Orders the passes so that each runs after the passes it depends on, by a
    /// depth-first search from each pass in turn that follows a pass's
    /// dependencies resource by resource, in the graph's resource order, and
    /// lists each pass once it is finished; fails with the report of the first
    /// cycle the search closes.
    pub fn compile(&self) -> (r: Result<Vec<usize>, String>)
        ensures
            r is Ok <==> !has_cycle(self.passes@),
            r matches Ok(order) ==> is_execution_order(self.passes@, order@),
            r matches Ok(order) ==> (depends_only_on_earlier(self.passes@) ==> order@ == Seq::new(
                self.passes@.len(),
                |k: int| k as usize,
            )),
            r matches Err(msg) ==> is_cycle_report(self.passes@, msg@),
            match compile_result(self.passes@) {
                Ok(order) => r matches Ok(v) && v@ == order,
                Err(msg) => r matches Err(m) && m@ == msg,
            },
    {
        let ghost passes = self.passes@;
        let order = self.resource_ids();
        let deps = self.build_dependencies(&order);
        proof {
            reveal(deps_follow);
        }
        let n = self.passes.len();
        let mut state: Vec<VisitState> = Vec::new();
        for k in 0..n
            invariant
                state@.len() == k,
                forall|x: int| 0 <= x < k ==> state@[x] == VisitState::NotVisited,
        {
            state.push(VisitState::NotVisited);
        }
        let mut result: Vec<usize> = Vec::new();
        let mut stack: Vec<Edge> = Vec::new();
        proof {
            lemma_count_all(state@, VisitState::NotVisited);
            lemma_count_sum(state@);
            assert(dfs_inv(passes, state@, result@, Seq::empty()));
            assert(state@ =~= Seq::new(passes.len(), |k: int| VisitState::NotVisited));
        }
        for i in 0..n
            invariant
                n == passes.len(),
                passes == self.passes@,
                deps_sound(passes, deps@),
                deps_complete(passes, deps@),
                deps_follow(passes, deps@),
                dfs_inv(passes, state@, result@, Seq::empty()),
                stack@ == Seq::<Edge>::empty(),
                forall|j: int| 0 <= j < i ==> state@[j] == VisitState::Visited,
                depends_only_on_earlier(passes) ==> result@ == Seq::new(i as nat, |k: int| k as usize),
                dfs_roots(passes, 0, Seq::new(passes.len(), |k: int| VisitState::NotVisited), Seq::empty())
                    == dfs_roots(passes, i as int, state@, result@),
        {
            let ghost state_before = state@;
            let ghost result_before = result@;
            proof {
                if depends_only_on_earlier(passes) {
                    assert(!result_before.contains(i));
                    assert(state_before[i as int] == VisitState::NotVisited);
                    assert forall|j: int| #[trigger] depends_on(passes, i as int, j) implies state_before[j]
                        == VisitState::Visited by {
                        assert(j < i);
                    }
                }
            }
            match visit(i, &deps, &mut state, &mut stack, &mut result, &self.passes, Ghost(Seq::empty())) {
                Ok(()) => {},
                Err(msg) => {
                    return Err(msg);
                },
            }
            proof {
                assert forall|j: int| 0 <= j < i + 1 implies state@[j] == VisitState::Visited by {
                    if j < i {
                        assert(state_before[(j as usize) as int] == VisitState::Visited);
                        let k = choose|k: int| 0 <= k < result_before.len() && result_before[k] == j as usize;
                        assert(result@[k] == j as usize);
                    }
                }
                if depends_only_on_earlier(passes) {
                    assert(result@ =~= Seq::new((i + 1) as nat, |k: int| k as usize));
                }
            }
        }
        proof {
            lemma_count_all(state@, VisitState::Visited);
            let order = result@;
            assert forall|v: usize| v < passes.len() implies #[trigger] order.contains(v) by {
                assert(state@[v as int] == VisitState::Visited);
            }
            assert forall|a: int, b: int|
                0 <= a < order.len() && 0 <= b < order.len() && #[trigger] depends_on(
                    passes,
                    order[a] as int,
                    order[b] as int,
                ) implies b < a by {
                let c = choose|c: int| 0 <= c < a && #[trigger] order[c] == order[b] as int;
                assert(c == b);
            }
            assert(is_execution_order(passes, order));
            lemma_order_excludes_cycle(passes, order);
            assert(dfs_roots(passes, passes.len() as int, state@, result@) == Search::Done(state@, result@));
        }
        Ok(result)
    }

    /// The names of the passes in the order `compile` gives.
    pub fn compile_names(&self) -> (r: Result<Vec<String>, String>)
        ensures
            r is Ok <==> !has_cycle(self.passes@),
            r matches Ok(names) ==> exists|order: Seq<usize>|
                #[trigger] is_execution_order(self.passes@, order) && names@.len() == order.len() && (
                forall|k: int| 0 <= k < order.len() ==> #[trigger] names@[k]@ == self.passes@[order[k] as int].name@),
            r matches Ok(names) ==> (depends_only_on_earlier(self.passes@) ==> names@.len()
                == self.passes@.len() && forall|k: int|
                0 <= k < names@.len() ==> #[trigger] names@[k]@ == self.passes@[k].name@),
            r matches Err(msg) ==> is_cycle_report(self.passes@, msg@),
            match compile_result(self.passes@) {
                Ok(order) => r matches Ok(names) && names@.len() == order.len() && forall|k: int|
                    0 <= k < order.len() ==> #[trigger] names@[k]@ == self.passes@[order[k] as int].name@,
                Err(msg) => r matches Err(m) && m@ == msg,
            },
    {
        let order = match self.compile() {
            Ok(order) => order,
            Err(msg) => {
                return Err(msg);
            },
        };
        let mut names: Vec<String> = Vec::new();
        for k in 0..order.len()
            invariant
                is_execution_order(self.passes@, order@),
                names@.len() == k,
                forall|m: int| 0 <= m < k ==> #[trigger] names@[m]@ == self.passes@[order@[m] as int].name@,
        {
            let idx = order[k];
            names.push(self.passes[idx].name.clone());
        }
        Ok(names)
    }

    /// The resources some pass reads and no pass writes, each once, in the
    /// graph's resource order.
    pub fn unwritten_reads(&self) -> (r: Vec<ResourceId>)
        ensures
            r@ == unwritten_in(self.passes@, resource_order(self.passes@)),
            is_unwritten_list(self.passes@, r@),
    {
        let ghost passes = self.passes@;
        let resources = self.build_graph();
        let order = self.resource_ids();
        let mut out: Vec<ResourceId> = Vec::new();
        for a in 0..order.len()
            invariant
                passes == self.passes@,
                resources_sound(passes, resources@),
                writes_recorded(passes, resources@, passes.len() as int),
                reads_recorded(passes, resources@, passes.len() as int),
                out@ == unwritten_in(passes, order@.take(a as int)),
        {
            let r = order[a];
            let found = find_resource(&resources, r);
            let missing = match found {
                Some(idx) => resources[idx].writers.len() == 0 && resources[idx].readers.len() > 0,
                None => false,
            };
            proof {
                assert(order@.take(a + 1).drop_last() =~= order@.take(a as int));
                assert(order@.take(a + 1).last() == r);
                if missing {
                    match found {
                        Some(idx) => {
                            let i = resources@[idx as int].readers@[0];
                            assert(passes[i as int].reads@.contains(r));
                            assert forall|j: int| 0 <= j < passes.len() implies !(#[trigger] passes[j].writes@.contains(r)) by {
                                if passes[j].writes@.contains(r) {
                                    let b = choose|b: int|
                                        0 <= b < resources@.len() && resources@[b].id == r && #[trigger] resources@[b].writers@.contains(j as usize);
                                    assert(b == idx as int);
                                }
                            }
                        },
                        None => {},
                    }
                } else if read_never_written(passes, r) {
                    let i = choose|i: int| 0 <= i < passes.len() && #[trigger] passes[i].reads@.contains(r);
                    let b = choose|b: int|
                        0 <= b < resources@.len() && resources@[b].id == r && #[trigger] resources@[b].readers@.contains(i as usize);
                    match found {
                        Some(idx) => {
                            assert(b == idx as int);
                            assert(resources@[b].readers@.len() > 0);
                            if resources@[b].writers@.len() > 0 {
                                let w = resources@[b].writers@[0];
                                assert(passes[w as int].writes@.contains(r));
                            }
                        },
                        None => {
                            assert(resources@[b].id != r);
                        },
                    }
                }
            }
            if missing {
                out.push(r);
            }
        }
        proof {
            assert(order@.take(order@.len() as int) =~= order@);
            lemma_unwritten_in(passes, order@);
        }
        out
    }

    /// What running the graph shows: a warning for each resource read but
    /// never written, then the pass names in execution order, or the cycle
    /// report.
    pub fn execute(&self) -> (lines: Vec<String>)
        ensures
            exists|ws: Seq<ResourceId>|
                #[trigger] is_unwritten_list(self.passes@, ws) && lines@.len() >= ws.len() && (forall|k: int|
                    0 <= k < ws.len() ==> #[trigger] lines@[k]@ == unwritten_warning(ws[k])) && {
                    let rest = lines@.skip(ws.len() as int);
                    &&& has_cycle(self.passes@) ==> rest.len() == 1 && is_cycle_report(self.passes@, rest[0]@)
                    &&& !has_cycle(self.passes@) ==> exists|order: Seq<usize>|
                        #[trigger] is_execution_order(self.passes@, order) && rest.len() == order.len() && (
                        forall|k: int| 0 <= k < order.len() ==> #[trigger] rest[k]@ == self.passes@[order[k] as int].name@)
                },
            lines@.map_values(|l: String| l@) == run_lines(self.passes@),
    {
        let warnings = self.unwritten_reads();
        let mut lines: Vec<String> = Vec::new();
        for k in 0..warnings.len()
            invariant
                lines@.len() == k,
                forall|m: int| 0 <= m < k ==> #[trigger] lines@[m]@ == unwritten_warning(warnings@[m]),
        {
            let mut line = String::new();
            line.append("\u{26a0}\u{fe0f} Resource ");
            line.append(warnings[k].label());
            line.append(" read but never written");
            lines.push(line);
        }
        let ghost head = lines@;
        match self.compile_names() {
            Err(e) => {
                lines.push(e);
            },
            Ok(names) => {
                for k in 0..names.len()
                    invariant
                        lines@ == head + names@.take(k as int),
                {
                    lines.push(names[k].clone());
                    proof {
                        assert(names@.take(k + 1) =~= names@.take(k as int).push(names@[k as int]));
                    }
                }
                proof {
                    assert(names@.take(names@.len() as int) =~= names@);
                }
            },
        }
        proof {
            assert(lines@.skip(warnings@.len() as int) =~= lines@.subrange(head.len() as int, lines@.len() as int));
        }
        lines
    }
}

} // verus!
